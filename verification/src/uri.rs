//! The addresses of locations and requests.

use std::str::FromStr;

use http::uri::{Authority, Parts, PathAndQuery, Scheme};
use http::Uri;
use vstd::prelude::*;
use vstd::string::*;

use crate::text::{before, behind, lemma_cut, lemma_no_cut, same_text};

verus! {

/// The parts of an address that the balancer looks at.
pub struct ParsedUri {
    /// The whole address.
    pub text: String,
    pub scheme: Option<String>,
    pub authority: Option<String>,
    pub host: Option<String>,
    pub port: Option<u16>,
    pub path: String,
    pub query: Option<String>,
}

/// The mathematical content of a `ParsedUri`.
pub struct UriFields {
    pub text: Seq<char>,
    pub scheme: Option<Seq<char>>,
    pub authority: Option<Seq<char>>,
    pub host: Option<Seq<char>>,
    pub port: Option<u16>,
    pub path: Seq<char>,
    pub query: Option<Seq<char>>,
}

/// The content of a text that may be missing.
pub open spec fn text_field(s: Option<String>) -> Option<Seq<char>> {
    match s {
        Some(s) => Some(s@),
        None => None,
    }
}

impl View for ParsedUri {
    type V = UriFields;

    open spec fn view(&self) -> UriFields {
        UriFields {
            text: self.text@,
            scheme: text_field(self.scheme),
            authority: text_field(self.authority),
            host: text_field(self.host),
            port: self.port,
            path: self.path@,
            query: text_field(self.query),
        }
    }
}

/// Whether a parsed address is the given one.
pub open spec fn is_uri(r: Option<ParsedUri>, fields: Option<UriFields>) -> bool {
    match r {
        Some(uri) => fields == Some(uri@),
        None => fields is None,
    }
}

/// The address of a location that was given none.
pub open spec fn default_address() -> Seq<char> {
    "ws://127.0.0.1:80"@
}

/// What stands behind the last `c` of a text, or all of it.
pub open spec fn behind_last(s: Seq<char>, c: char) -> Seq<char>
    decreases s.len(),
{
    match behind(s, c) {
        Some(rest) => if rest.len() < s.len() {
            behind_last(rest, c)
        } else {
            s
        },
        None => s,
    }
}

/// The host and the port of an authority, without what names the user.
pub open spec fn host_and_port(authority: Seq<char>) -> Seq<char> {
    behind_last(authority, '@')
}

/// The host of an authority: what is in brackets, with them, or what stands before
/// the port.
pub open spec fn host_in(authority: Seq<char>) -> Seq<char> {
    let s = host_and_port(authority);
    if s.len() > 0 && s[0] == '[' {
        before(s, ']').push(']')
    } else {
        before(s, ':')
    }
}

/// Whether a bracket that a host begins with is closed.
pub open spec fn brackets_closed(authority: Seq<char>) -> bool {
    let s = host_and_port(authority);
    s.len() > 0 && s[0] == '[' ==> s.contains(']')
}

/// A path and a query as they are written in a row.
pub open spec fn path_and_query(path: Seq<char>, query: Option<Seq<char>>) -> Seq<char> {
    match query {
        Some(query) => path + "?"@ + query,
        None => path,
    }
}

/// The port that the authority of a secure address gets.
pub open spec fn secure_port_suffix() -> Seq<char> {
    ":443"@
}

impl UriFields {
    /// The address as it is written: scheme, authority, path and query.
    pub open spec fn written_out(self) -> Seq<char> {
        (match self.scheme {
            Some(scheme) => scheme + "://"@,
            None => Seq::empty(),
        }) + (match self.authority {
            Some(authority) => authority,
            None => Seq::empty(),
        }) + path_and_query(self.path, self.query)
    }

    /// What holds of the parts of every address that was parsed.
    pub open spec fn wf(self) -> bool {
        &&& self.text == self.written_out()
        &&& self.host == match self.authority {
            Some(authority) => Some(host_in(authority)),
            None => None,
        }
        &&& self.authority matches Some(authority) ==> brackets_closed(authority)
        &&& self.scheme is Some ==> self.path.len() > 0
        &&& self.path.len() < 65535
        &&& !self.path.contains('?')
        &&& !self.path.contains('#')
        &&& self.query matches Some(query) ==> !query.contains('#')
    }

    /// Whether an address asks for a secure connection and names no port.
    pub open spec fn lacks_secure_port(self) -> bool {
        self.port is None && self.scheme == Some("wss"@)
    }

    /// The address with the port 443 written behind its authority, and nothing
    /// else changed.
    pub open spec fn with_secure_port(self) -> UriFields {
        let changed = UriFields {
            authority: match self.authority {
                Some(authority) => Some(authority + secure_port_suffix()),
                None => None,
            },
            port: Some(443u16),
            ..self
        };
        UriFields { text: changed.written_out(), ..changed }
    }

    /// The address with the port that goes without saying written out: 443 for a
    /// secure address that names none. There is no such address if the authority
    /// does not take a port.
    pub open spec fn with_default_port(self) -> Option<UriFields> {
        if self.lacks_secure_port() {
            match self.authority {
                Some(authority) => uri_of_parts(
                    "wss"@,
                    authority + secure_port_suffix(),
                    path_and_query(self.path, self.query),
                ),
                None => None,
            }
        } else {
            Some(self)
        }
    }
}

/// What `http::Uri::from_str` makes of a text.
pub uninterp spec fn parsed_uri(text: Seq<char>) -> Option<UriFields>;

/// `http::Uri::from_str`, and the getters of `http::Uri`: the parts of an
/// address, if the text is one. The default address is one. An address is shown
/// as its parts put together; its host is in its authority; the path of an
/// address with a scheme is not empty; neither the path nor the query holds what
/// would end them, and no address is longer than 65534 bytes.
#[verifier::external_body]
fn parse_uri(text: &str) -> (r: Option<ParsedUri>)
    ensures
        is_uri(r, parsed_uri(text@)),
        text@ == default_address() ==> r is Some,
        r matches Some(uri) ==> uri@.wf(),
{
    let uri = Uri::from_str(text).ok()?;
    Some(ParsedUri {
        text: uri.to_string(),
        scheme: uri.scheme_str().map(str::to_string),
        authority: uri.authority().map(|a| a.as_str().to_string()),
        host: uri.host().map(str::to_string),
        port: uri.port_u16(),
        path: uri.path().to_string(),
        query: uri.query().map(str::to_string),
    })
}

/// What `http::Uri::from_parts` makes of a scheme, an authority, and a path with
/// its query.
pub uninterp spec fn uri_of_parts(
    scheme: Seq<char>,
    authority: Seq<char>,
    path_and_query: Seq<char>,
) -> Option<UriFields>;

/// `http::uri::Authority::from_maybe_shared` and `http::Uri::from_parts`, with the
/// other two parts parsed by themselves: the address that is put together of the
/// parts, if each of them is one. It has the given scheme and authority, and its
/// host is in the authority. The port is what follows the last colon of the
/// authority. The path ends at the first question mark, and the query follows it;
/// nothing is said of them where the text holds a number sign, and where the path
/// is empty or longer than 65534 bytes.
#[verifier::external_body]
fn put_together(scheme: &str, authority: String, path: &str) -> (r: Option<ParsedUri>)
    ensures
        is_uri(r, uri_of_parts(scheme@, authority@, path@)),
        r matches Some(uri) ==> {
            &&& uri@.text == uri@.written_out()
            &&& uri@.scheme == Some(scheme@)
            &&& uri@.authority == Some(authority@)
            &&& uri@.host == Some(host_in(authority@))
        },
        r matches Some(uri) ==> (forall|a: Seq<char>|
            authority@ == #[trigger] (a + secure_port_suffix()) ==> uri@.port == Some(443u16)),
        r matches Some(uri) ==> (!path@.contains('#') && 0 < before(path@, '?').len() < 65535
            ==> uri@.path == before(path@, '?') && uri@.query == behind(path@, '?')),
{
    let mut parts = Parts::default();
    parts.scheme = Some(Scheme::from_str(scheme).ok()?);
    parts.authority = Some(Authority::from_maybe_shared(authority).ok()?);
    parts.path_and_query = Some(PathAndQuery::from_str(path).ok()?);
    let uri = Uri::from_parts(parts).ok()?;
    Some(ParsedUri {
        text: uri.to_string(),
        scheme: uri.scheme_str().map(str::to_string),
        authority: uri.authority().map(|a| a.as_str().to_string()),
        host: uri.host().map(str::to_string),
        port: uri.port_u16(),
        path: uri.path().to_string(),
        query: uri.query().map(str::to_string),
    })
}

proof fn lemma_before_in_front(s: Seq<char>, t: Seq<char>, c: char)
    ensures
        s.contains(c) ==> before(s + t, c) == before(s, c),
        !s.contains(c) ==> before(s + t, c) == s + before(t, c),
    decreases s.len(),
{
    if s.len() == 0 {
        assert(s + t =~= t);
        assert(s + before(t, c) =~= before(t, c));
    } else {
        let rest = s.drop_first();
        assert((s + t).drop_first() =~= rest + t);
        lemma_before_in_front(rest, t, c);
        if s[0] == c {
            assert(s.contains(c));
        } else {
            if s.contains(c) {
                let i = choose|i: int| 0 <= i < s.len() && s[i] == c;
                assert(rest[i - 1] == c);
            }
            if rest.contains(c) {
                let i = choose|i: int| 0 <= i < rest.len() && rest[i] == c;
                assert(s[i + 1] == c);
            }
            assert(seq![s[0]] + (rest + before(t, c)) =~= s + before(t, c));
        }
    }
}

proof fn lemma_behind_last_in_front(s: Seq<char>, t: Seq<char>, c: char)
    requires
        !t.contains(c),
    ensures
        behind_last(s + t, c) == behind_last(s, c) + t,
    decreases s.len(),
{
    let all = s + t;
    if s.contains(c) {
        let i = choose|i: int| 0 <= i < s.len() && s[i] == c;
        assert(all[i] == c);
        lemma_before_in_front(s, t, c);
        crate::text::lemma_before_shorter(s, c);
        crate::text::lemma_before_shorter(all, c);
        let n = before(s, c).len() as int + 1;
        assert(all.skip(n) =~= s.skip(n) + t);
        lemma_behind_last_in_front(s.skip(n), t, c);
    } else {
        if all.contains(c) {
            let i = choose|i: int| 0 <= i < all.len() && all[i] == c;
            if i < s.len() {
                assert(s[i] == c);
            } else {
                assert(t[i - s.len()] == c);
            }
        }
    }
}

/// Writing a port behind an authority leaves its host as it is.
pub proof fn law_port_keeps_host(authority: Seq<char>)
    requires
        brackets_closed(authority),
    ensures
        host_in(authority + secure_port_suffix()) == host_in(authority),
{
    let t = secure_port_suffix();
    reveal_strlit(":443");
    assert(t[0] == ':');
    assert(!t.contains('@'));
    lemma_behind_last_in_front(authority, t, '@');
    let s = host_and_port(authority);
    lemma_before_in_front(s, t, ']');
    lemma_before_in_front(s, t, ':');
    if !s.contains(':') {
        lemma_no_cut(s, ':');
    }
    assert(before(t, ':') =~= Seq::empty());
    assert(s + Seq::<char>::empty() =~= s);
    if s.len() > 0 {
        assert((s + t)[0] == s[0]);
    }
}

/// A path and a query that were written in a row are told apart again.
pub proof fn law_path_and_query_part(path: Seq<char>, query: Option<Seq<char>>)
    requires
        !path.contains('?'),
    ensures
        before(path_and_query(path, query), '?') == path,
        behind(path_and_query(path, query), '?') == query,
{
    reveal_strlit("?");
    match query {
        Some(query) => {
            assert(path + "?"@ + query =~= path.push('?') + query);
            lemma_cut(path + "?"@ + query, path, '?', query);
        },
        None => {
            lemma_no_cut(path, '?');
        },
    }
}

impl ParsedUri {
    /// Parses an address.
    pub fn parse(text: &str) -> (r: Option<ParsedUri>)
        ensures
            is_uri(r, parsed_uri(text@)),
            match r {
                Some(uri) => parsed_uri(text@) == Some(uri@) && uri@.wf(),
                None => parsed_uri(text@) is None,
            },
    {
        parse_uri(text)
    }

    /// The address of a location that was given none.
    pub fn default_uri() -> (r: ParsedUri)
        ensures
            parsed_uri(default_address()) == Some(r@),
            parsed_uri("ws://127.0.0.1:80"@) == Some(r@),
            r@.wf(),
    {
        let r = parse_uri("ws://127.0.0.1:80");
        r.unwrap()
    }

    /// Writes out the port that goes without saying.
    pub fn with_default_port(self) -> (r: Option<ParsedUri>)
        ensures
            is_uri(r, self@.with_default_port()),
            r matches Some(uri) ==> (self@.lacks_secure_port() && self@.wf() ==> uri@
                == self@.with_secure_port()),
            self@.port is Some || self@.scheme != Some("wss"@) ==> (r matches Some(uri) && uri@
                == self@),
            self@.port is None && self@.scheme == Some("wss"@) && self@.wf() ==> (r matches Some(
                uri,
            ) ==> {
                &&& uri@.port == Some(443u16)
                &&& self@.authority is Some
                &&& uri@.authority == Some(self@.authority.unwrap() + ":443"@)
                &&& uri@.scheme == self@.scheme
                &&& uri@.host == self@.host
                &&& uri@.path == self@.path
                &&& uri@.query == self@.query
            }),
    {
        let secure: bool = match &self.scheme {
            Some(scheme) => same_text(scheme.as_str(), "wss"),
            None => false,
        };
        if self.port.is_none() && secure {
            let ghost given = self@;
            match self.authority {
                Some(authority) => {
                    let path: String = match &self.query {
                        Some(query) => self.path.concat("?").concat(query.as_str()),
                        None => self.path,
                    };
                    let r = put_together("wss", authority.concat(":443"), path.as_str());
                    proof {
                        if given.wf() {
                            law_port_keeps_host(given.authority.unwrap());
                            law_path_and_query_part(given.path, given.query);
                            lemma_no_number_sign(given.path, given.query);
                        }
                    }
                    r
                },
                None => None,
            }
        } else {
            Some(self)
        }
    }
}

proof fn lemma_no_number_sign(path: Seq<char>, query: Option<Seq<char>>)
    requires
        !path.contains('#'),
        query matches Some(query) ==> !query.contains('#'),
    ensures
        !path_and_query(path, query).contains('#'),
{
    reveal_strlit("?");
    let s = path_and_query(path, query);
    if s.contains('#') {
        let i = choose|i: int| 0 <= i < s.len() && s[i] == '#';
        if i < path.len() {
            assert(path[i] == '#');
        } else if i > path.len() {
            assert(query.unwrap()[i - path.len() - 1] == '#');
        }
    }
}

/// The host of an authority that is put together of its parts: a user before the
/// last at sign and a port behind the host do not count, and a host in brackets
/// keeps them.
pub proof fn law_host_of_parts(user: Seq<char>, host: Seq<char>, port: Seq<char>)
    requires
        !host.contains('@'),
        !port.contains('@'),
    ensures
        host_in(user.push('@') + host) == host_in(host),
        !host.contains(':') && !host.contains('[') ==> host_in(host) == host && host_in(
            host.push(':') + port,
        ) == host,
        !host.contains(']') ==> host_in(seq!['['] + host + seq![']'] + port) == seq!['['] + host
            + seq![']'],
{
    lemma_behind_last_cut(user, host, '@');
    crate::text::lemma_no_cut(host, '@');
    if !host.contains(':') && !host.contains('[') {
        lemma_no_cut(host, ':');
        let s = host.push(':') + port;
        assert(!s.contains('@')) by {
            if s.contains('@') {
                let i = choose|i: int| 0 <= i < s.len() && s[i] == '@';
                if i < host.len() {
                    assert(host[i] == '@');
                } else if i > host.len() {
                    assert(port[i - host.len() - 1] == '@');
                }
            }
        }
        lemma_no_cut(s, '@');
        lemma_cut(s, host, ':', port);
        if host.len() > 0 {
            assert(s[0] == host[0]);
            assert(host.contains(host[0]));
        } else {
            assert(s[0] == ':');
        }
    }
    if !host.contains(']') {
        let left = seq!['['] + host;
        let s = left + seq![']'] + port;
        assert(!s.contains('@')) by {
            if s.contains('@') {
                let i = choose|i: int| 0 <= i < s.len() && s[i] == '@';
                if 0 < i <= host.len() {
                    assert(host[i - 1] == '@');
                } else if i > host.len() + 1 {
                    assert(port[i - host.len() - 2] == '@');
                }
            }
        }
        lemma_no_cut(s, '@');
        assert(!left.contains(']')) by {
            if left.contains(']') {
                let i = choose|i: int| 0 <= i < left.len() && left[i] == ']';
                assert(host[i - 1] == ']');
            }
        }
        assert(s =~= left.push(']') + port);
        lemma_cut(s, left, ']', port);
        assert(s[0] == '[');
        assert(left.push(']') =~= left + seq![']']);
    }
}

proof fn lemma_behind_last_cut(user: Seq<char>, host: Seq<char>, c: char)
    requires
        !host.contains(c),
    ensures
        behind_last(user.push(c) + host, c) == host,
    decreases user.len(),
{
    let s = user.push(c) + host;
    lemma_no_cut(host, c);
    assert(behind_last(host, c) == host);
    if user.contains(c) {
        crate::text::law_cut(user, c);
        let b = before(user, c);
        let rest = behind(user, c).unwrap();
        assert(s =~= b.push(c) + (rest.push(c) + host));
        lemma_cut(s, b, c, rest.push(c) + host);
        lemma_behind_last_cut(rest, host, c);
    } else {
        lemma_cut(s, user, c, host);
    }
}

/// An address with its port written out, part by part.
pub proof fn law_secure_port(uri: UriFields, authority: Seq<char>)
    requires
        uri.authority == Some(authority),
    ensures
        uri.with_secure_port().port == Some(443u16),
        uri.with_secure_port().authority == Some(authority + ":443"@),
        uri.with_secure_port().scheme == uri.scheme,
        uri.with_secure_port().host == uri.host,
        uri.with_secure_port().path == uri.path,
        uri.with_secure_port().query == uri.query,
        uri.scheme matches Some(scheme) ==> (uri.query is None ==> uri.with_secure_port().text
            == scheme + "://"@ + (authority + ":443"@) + uri.path),
        uri.scheme matches Some(scheme) ==> (uri.query matches Some(query)
            ==> uri.with_secure_port().text == scheme + "://"@ + (authority + ":443"@) + (uri.path
            + "?"@ + query)),
{
}

/// When a port is written out, and what is asked of the outside then: only an
/// address of the scheme `wss` without a port is touched.
pub proof fn law_default_port(uri: UriFields)
    ensures
        uri.port is Some || uri.scheme != Some("wss"@) ==> uri.with_default_port() == Some(uri),
        uri.port is None && uri.scheme == Some("wss"@) ==> uri.with_default_port()
            == match uri.authority {
            Some(authority) => uri_of_parts(
                "wss"@,
                authority + ":443"@,
                match uri.query {
                    Some(query) => uri.path + "?"@ + query,
                    None => uri.path,
                },
            ),
            None => None,
        },
{
}

/// The content of an address is all of its fields.
pub proof fn law_uri_content(uri: ParsedUri)
    ensures
        uri@.text == uri.text@,
        uri@.port == uri.port,
        uri@.path == uri.path@,
        uri@.scheme is Some <==> uri.scheme is Some,
        uri.scheme matches Some(s) ==> uri@.scheme == Some(s@),
        uri@.authority is Some <==> uri.authority is Some,
        uri.authority matches Some(s) ==> uri@.authority == Some(s@),
        uri@.host is Some <==> uri.host is Some,
        uri.host matches Some(s) ==> uri@.host == Some(s@),
        uri@.query is Some <==> uri.query is Some,
        uri.query matches Some(s) ==> uri@.query == Some(s@),
{
}

} // verus!
