//! The opening handshake of a websocket: finding the end of the request head in
//! what the socket delivers, and reading the head.

use vstd::prelude::*;
use vstd::slice::slice_subrange;
use vstd::utf8::{decode_utf8, is_ascii_chars, valid_utf8};
use vstd::utf8::{encode_utf8_decode_utf8, encode_utf8_valid_utf8};
use vstd::string::*;

use crate::string_map::StringMap;
use crate::text::{ascii_lower, before, behind, cut, lowercase, pieces};
use crate::text::{text_of_bytes, to_lowercase};
use crate::websocket::{texts, ClientData, WebsocketData};

verus! {

/// How many header lines a request may have.
pub const MAX_HEADERS: usize = 30;

/// Carriage return.
pub const CR: u8 = 13;

/// Line feed.
pub const LF: u8 = 10;

/// Why a request head cannot be parsed.
#[derive(Debug, Clone, Copy, PartialEq, Eq, Structural)]
pub enum RequestSyntaxError {
    HeaderName,
    HeaderValue,
    NewLine,
    Status,
    Token,
    TooManyHeaders,
    Version,
}

/// What can go wrong between accepting a client and talking to its location.
#[derive(Debug)]
pub enum HandshakeError {
    BadRequest,
    HeadersParsing(RequestSyntaxError),
    SocketClosed,
    MissedHeader(String),
    BadHeaderValue(String, String),
    /// The text is how the failure describes itself.
    IOError(String),
    /// The text is how the failure describes itself.
    TlsError(String),
    Timeout,
}

// ---------------------------------------------------------------------------
// The end of the request head
// ---------------------------------------------------------------------------

/// Whether a blank line starts at `i`: two line ends in a row.
pub open spec fn blank_line_at(s: Seq<u8>, i: int) -> bool {
    &&& 0 <= i
    &&& i + 4 <= s.len()
    &&& s[i] == CR
    &&& s[i + 1] == LF
    &&& s[i + 2] == CR
    &&& s[i + 3] == LF
}

/// Whether a blank line ends the request head somewhere.
pub open spec fn has_blank_line(s: Seq<u8>) -> bool {
    exists|i: int| blank_line_at(s, i)
}

/// How a failure to read describes itself when the peer closed the socket.
pub open spec fn eof_text() -> Seq<char> {
    "Custom { kind: UnexpectedEof, error: \"EOF\" }"@
}

/// The part of a request head that has been read.
#[derive(Debug)]
pub struct HandshakeReader {
    handshake: Vec<u8>,
    prev_packet_ind: usize,
}

impl View for HandshakeReader {
    type V = Seq<u8>;

    closed spec fn view(&self) -> Seq<u8> {
        self.handshake@
    }
}

impl HandshakeReader {
    /// All that was read has been searched, and holds no blank line.
    pub closed spec fn wf(&self) -> bool {
        &&& self.prev_packet_ind == self.handshake@.len()
        &&& !has_blank_line(self.handshake@)
    }

    /// A reader that has read nothing.
    pub fn new() -> (r: Self)
        ensures
            r.wf(),
            r@ == Seq::<u8>::empty(),
    {
        HandshakeReader { handshake: Vec::with_capacity(2048), prev_packet_ind: 0 }
    }

    /// Takes in what one read of the socket delivered, and says whether the
    /// request head is complete. Only what is new is searched.
    pub fn feed(&mut self, packet: &[u8]) -> (r: Result<bool, HandshakeError>)
        requires
            old(self).wf(),
            old(self)@.len() + packet@.len() <= usize::MAX,
        ensures
            final(self)@ == old(self)@ + packet@,
            match r {
                Ok(done) => {
                    &&& done == has_blank_line(final(self)@)
                    &&& !done ==> packet@.len() > 0 && final(self).wf()
                },
                Err(HandshakeError::IOError(text)) => {
                    &&& !has_blank_line(final(self)@)
                    &&& packet@.len() == 0
                    &&& text@ == eof_text()
                },
                Err(_) => false,
            },
    {
        let n: usize = packet.len();
        let ghost earlier = self.handshake@;
        self.handshake.extend_from_slice(packet);
        assert(self.handshake@ =~= earlier + packet@);
        let prev: usize = self.prev_packet_ind;
        let mut ind: usize = if prev > 3 {
            prev - 3
        } else {
            0
        };
        proof {
            assert forall|i: int| 0 <= i < ind implies !blank_line_at(self.handshake@, i) by {
                if blank_line_at(self.handshake@, i) {
                    assert(blank_line_at(earlier, i));
                }
            }
        }
        let len: usize = self.handshake.len();
        let mut done: bool = false;
        let mut searching: bool = true;
        while searching
            invariant
                ind <= len,
                len == self.handshake@.len(),
                self.handshake@ == earlier + packet@,
                self.prev_packet_ind == earlier.len(),
                done ==> has_blank_line(self.handshake@),
                searching ==> !done,
                forall|i: int| 0 <= i < ind ==> !blank_line_at(self.handshake@, i),
                !searching && !done ==> !has_blank_line(self.handshake@),
            decreases len - ind, if searching { 1int } else { 0int },
        {
            let rest = slice_subrange(self.handshake.as_slice(), ind, len);
            match memchr::memchr(CR, rest) {
                Some(ind_f) => {
                    let v: usize = ind + ind_f;
                    proof {
                        assert(rest@[ind_f as int] == self.handshake@[v as int]);
                        assert forall|i: int| ind <= i < v implies !blank_line_at(
                            self.handshake@,
                            i,
                        ) by {
                            assert(rest@[i - ind] == self.handshake@[i]);
                        }
                    }
                    if len - v >= 4 && self.handshake[v + 1] == LF && self.handshake[v + 2] == CR
                        && self.handshake[v + 3] == LF {
                        assert(blank_line_at(self.handshake@, v as int));
                        done = true;
                        searching = false;
                    } else {
                        ind = v + 1;
                    }
                },
                None => {
                    proof {
                        assert forall|i: int| !blank_line_at(self.handshake@, i) by {
                            if ind <= i && blank_line_at(self.handshake@, i) {
                                assert(rest@[i - ind] == CR);
                                assert(rest@.contains(CR));
                            }
                        }
                    }
                    searching = false;
                },
            }
        }
        if done {
            return Ok(true);
        }
        self.prev_packet_ind = prev + n;
        if n == 0 {
            return Err(
                HandshakeError::IOError(
                    "Custom { kind: UnexpectedEof, error: \"EOF\" }".to_owned(),
                ),
            );
        }
        Ok(false)
    }

    /// All that was read.
    pub fn into_bytes(self) -> (r: Vec<u8>)
        ensures
            r@ == self@,
    {
        self.handshake
    }
}

/// The contents of the packets.
pub open spec fn contents(packets: Seq<Vec<u8>>) -> Seq<Seq<u8>> {
    packets.map_values(|p: Vec<u8>| p@)
}

/// All packets in a row.
pub open spec fn joined(packets: Seq<Seq<u8>>) -> Seq<u8>
    decreases packets.len(),
{
    if packets.len() == 0 {
        Seq::empty()
    } else {
        packets[0] + joined(packets.drop_first())
    }
}

/// What is collected of the packets, behind what has been read: all up to the
/// packet with which a blank line is there. Nothing comes of it when the packets
/// end, or an empty one says that the peer closed the socket, before that.
pub open spec fn collected(earlier: Seq<u8>, packets: Seq<Seq<u8>>) -> Option<Seq<u8>>
    decreases packets.len(),
{
    if packets.len() == 0 {
        None
    } else {
        let now = earlier + packets[0];
        if has_blank_line(now) {
            Some(now)
        } else if packets[0].len() == 0 {
            None
        } else {
            collected(now, packets.drop_first())
        }
    }
}

/// Reads a request head from the packets that the reads of a socket deliver.
pub fn read_headers(packets: &Vec<Vec<u8>>) -> (r: Result<Vec<u8>, HandshakeError>)
    requires
        joined(contents(packets@)).len() <= usize::MAX,
    ensures
        match r {
            Ok(head) => collected(Seq::empty(), contents(packets@)) == Some(head@),
            Err(HandshakeError::IOError(text)) => collected(
                Seq::empty(),
                contents(packets@),
            ) is None && text@ == eof_text(),
            Err(_) => false,
        },
{
    let mut reader = HandshakeReader::new();
    let mut i: usize = 0;
    let ghost all = contents(packets@);
    assert(all.skip(0) =~= all);
    assert(Seq::<u8>::empty() + joined(all) =~= joined(all));
    while i < packets.len()
        invariant
            i <= packets@.len(),
            all == contents(packets@),
            reader.wf(),
            reader@.len() + joined(all.skip(i as int)).len() <= usize::MAX,
            collected(Seq::empty(), all) == collected(reader@, all.skip(i as int)),
        decreases packets@.len() - i,
    {
        assert(all.skip(i as int)[0] == packets@[i as int]@);
        assert(all.skip(i as int).drop_first() =~= all.skip(i + 1));
        let done = reader.feed(packets[i].as_slice())?;
        if done {
            return Ok(reader.into_bytes());
        }
        i = i + 1;
    }
    let closed: [u8; 0] = [];
    assert(reader@ + closed@ =~= reader@);
    reader.feed(closed.as_slice())?;
    Ok(reader.into_bytes())
}

/// A blank line stays where it is when more is read.
proof fn lemma_blank_line_stays(s: Seq<u8>, more: Seq<u8>)
    requires
        has_blank_line(s),
    ensures
        has_blank_line(s + more),
{
    let i = choose|i: int| blank_line_at(s, i);
    assert(blank_line_at(s + more, i));
}

/// Whether `p` is where the first blank line starts.
pub open spec fn is_first_blank_line(s: Seq<u8>, p: int) -> bool {
    blank_line_at(s, p) && forall|i: int| 0 <= i < p ==> !blank_line_at(s, i)
}

/// How a request head is cut into packets does not decide whether it is found:
/// as long as the peer keeps the socket open, it is found exactly if a blank
/// line is in what the packets hold together. What is found is the start of
/// that, and it has a blank line.
pub proof fn law_packets_do_not_matter(packets: Seq<Seq<u8>>)
    requires
        forall|i: int| 0 <= i < packets.len() ==> (#[trigger] packets[i]).len() > 0,
    ensures
        collected(Seq::empty(), packets) is Some <==> has_blank_line(joined(packets)),
        collected(Seq::empty(), packets) matches Some(head) ==> has_blank_line(head)
            && head.is_prefix_of(joined(packets)),
{
    let none = Seq::<u8>::empty();
    assert(!has_blank_line(none));
    assert(none + joined(packets) =~= joined(packets));
    lemma_collected(none, packets);
}

/// Of two ways to cut the same bytes into packets, both find a request head or
/// neither does.
pub proof fn law_cuts_agree(packets: Seq<Seq<u8>>, others: Seq<Seq<u8>>)
    requires
        joined(packets) == joined(others),
        forall|i: int| 0 <= i < packets.len() ==> (#[trigger] packets[i]).len() > 0,
        forall|i: int| 0 <= i < others.len() ==> (#[trigger] others[i]).len() > 0,
    ensures
        collected(Seq::empty(), packets) is Some <==> collected(Seq::empty(), others) is Some,
{
    law_packets_do_not_matter(packets);
    law_packets_do_not_matter(others);
}

/// A request head reaches to the end of its first blank line, and beyond that no
/// further than the packet with which the blank line came: with packets of at
/// most `m` bytes, `p + 3 + m` bytes for a blank line at `p`.
pub proof fn law_head_reach(packets: Seq<Seq<u8>>, m: nat, p: int)
    requires
        forall|i: int| 0 <= i < packets.len() ==> (#[trigger] packets[i]).len() <= m,
        is_first_blank_line(joined(packets), p),
    ensures
        collected(Seq::empty(), packets) matches Some(head) ==> p + 4 <= head.len() <= p + 3 + m,
{
    let none = Seq::<u8>::empty();
    assert(none + joined(packets) =~= joined(packets));
    lemma_head_reach(none, packets, m, p);
}

proof fn lemma_head_reach(earlier: Seq<u8>, packets: Seq<Seq<u8>>, m: nat, p: int)
    requires
        !has_blank_line(earlier),
        forall|i: int| 0 <= i < packets.len() ==> (#[trigger] packets[i]).len() <= m,
        is_first_blank_line(earlier + joined(packets), p),
    ensures
        collected(earlier, packets) matches Some(head) ==> p + 4 <= head.len() <= p + 3 + m,
    decreases packets.len(),
{
    if packets.len() > 0 {
        let all = earlier + joined(packets);
        let now = earlier + packets[0];
        let rest = packets.drop_first();
        assert(all =~= now + joined(rest));
        assert(packets[0].len() <= m);
        if has_blank_line(now) {
            let i = choose|i: int| blank_line_at(now, i);
            assert(blank_line_at(all, i));
            assert(p <= i);
            if earlier.len() >= p + 4 {
                assert(blank_line_at(earlier, p));
            }
        } else if packets[0].len() > 0 {
            assert forall|i: int| 0 <= i < rest.len() implies (#[trigger] rest[i]).len() <= m by {
                assert(rest[i] == packets[i + 1]);
            }
            lemma_head_reach(now, rest, m, p);
        }
    }
}

proof fn lemma_collected(earlier: Seq<u8>, packets: Seq<Seq<u8>>)
    requires
        !has_blank_line(earlier),
        forall|i: int| 0 <= i < packets.len() ==> (#[trigger] packets[i]).len() > 0,
    ensures
        collected(earlier, packets) is Some <==> has_blank_line(earlier + joined(packets)),
        collected(earlier, packets) matches Some(head) ==> has_blank_line(head)
            && head.is_prefix_of(earlier + joined(packets)),
    decreases packets.len(),
{
    if packets.len() == 0 {
        assert(earlier + joined(packets) =~= earlier);
    } else {
        let now = earlier + packets[0];
        let rest = packets.drop_first();
        assert(earlier + joined(packets) =~= now + joined(rest));
        if has_blank_line(now) {
            lemma_blank_line_stays(now, joined(rest));
        } else {
            assert forall|i: int| 0 <= i < rest.len() implies (#[trigger] rest[i]).len() > 0 by {
                assert(rest[i] == packets[i + 1]);
            }
            lemma_collected(now, rest);
        }
    }
}

// ---------------------------------------------------------------------------
// The request head
// ---------------------------------------------------------------------------

/// One line of a request head.
#[derive(Debug)]
pub struct HeaderLine {
    pub name: String,
    pub value: Vec<u8>,
}

/// A parsed request head. The list of lines has a fixed length; the lines behind
/// the last one of the request are empty.
#[derive(Debug)]
pub struct RequestHead {
    pub path: Option<String>,
    pub headers: Vec<HeaderLine>,
}

/// The mathematical content of a `RequestHead`.
pub struct RequestFields {
    pub path: Option<Seq<char>>,
    pub headers: Seq<(Seq<char>, Seq<u8>)>,
}

/// The content of header lines.
pub open spec fn line_fields(lines: Seq<HeaderLine>) -> Seq<(Seq<char>, Seq<u8>)> {
    lines.map_values(|line: HeaderLine| (line.name@, line.value@))
}

impl View for RequestHead {
    type V = RequestFields;

    open spec fn view(&self) -> RequestFields {
        RequestFields {
            path: match self.path {
                Some(p) => Some(p@),
                None => None,
            },
            headers: line_fields(self.headers@),
        }
    }
}

/// What `httparse::Request::parse` makes of a request head, with room for
/// `max_headers` lines.
pub uninterp spec fn parsed_request(input: Seq<u8>, max_headers: nat) -> Result<
    RequestFields,
    RequestSyntaxError,
>;

/// `httparse::Request::parse`: the path and the header lines of a request head,
/// or why it has no head's form. What is returned is a function of the bytes and
/// of the number of lines there is room for. The names of header lines are
/// ASCII.
#[verifier::external_body]
fn parse_request(input: &[u8], max_headers: usize) -> (r: Result<RequestHead, RequestSyntaxError>)
    requires
        max_headers <= 1024,
    ensures
        match r {
            Ok(head) => parsed_request(input@, max_headers as nat) == Ok::<_, RequestSyntaxError>(
                head@,
            ) && forall|i: int|
                0 <= i < head@.headers.len() ==> is_ascii_chars((#[trigger] head@.headers[i]).0),
            Err(e) => parsed_request(input@, max_headers as nat) == Err::<RequestFields, _>(e),
        },
{
    let mut lines = vec![httparse::EMPTY_HEADER; max_headers];
    let mut request = httparse::Request::new(&mut lines);
    request.parse(input).map_err(|e| match e {
        httparse::Error::HeaderName => RequestSyntaxError::HeaderName,
        httparse::Error::HeaderValue => RequestSyntaxError::HeaderValue,
        httparse::Error::NewLine => RequestSyntaxError::NewLine,
        httparse::Error::Status => RequestSyntaxError::Status,
        httparse::Error::Token => RequestSyntaxError::Token,
        httparse::Error::TooManyHeaders => RequestSyntaxError::TooManyHeaders,
        httparse::Error::Version => RequestSyntaxError::Version,
    })?;
    let path = request.path.map(str::to_string);
    let line = |h: &httparse::Header| HeaderLine { name: h.name.to_string(), value: h.value.to_vec() };
    Ok(RequestHead { path, headers: lines.iter().map(line).collect() })
}

/// The map that pairs of names and values stand for: where a name occurs again,
/// the later value counts.
pub open spec fn pairs_map(pairs: Seq<(Seq<char>, Seq<char>)>) -> Map<Seq<char>, Seq<char>>
    decreases pairs.len(),
{
    if pairs.len() == 0 {
        Map::empty()
    } else {
        pairs_map(pairs.drop_last()).insert(pairs.last().0, pairs.last().1)
    }
}

/// The name and the value of a query parameter. Without an equals sign the value
/// is empty.
pub open spec fn param_of(piece: Seq<char>) -> (Seq<char>, Seq<char>) {
    (
        before(piece, '='),
        match behind(piece, '=') {
            Some(value) => value,
            None => Seq::empty(),
        },
    )
}

/// The parameters of a query string.
pub open spec fn query_map(query: Seq<char>) -> Map<Seq<char>, Seq<char>> {
    pairs_map(pieces(query, '&').map_values(|piece: Seq<char>| param_of(piece)))
}

proof fn lemma_texts_insert(earlier: Map<Seq<char>, String>, key: Seq<char>, value: String)
    ensures
        earlier.insert(key, value).map_values(|v: String| v@) == earlier.map_values(
            |v: String| v@,
        ).insert(key, value@),
{
    assert(earlier.insert(key, value).map_values(|v: String| v@) =~= earlier.map_values(
        |v: String| v@,
    ).insert(key, value@));
}

proof fn lemma_pairs_push(pairs: Seq<(Seq<char>, Seq<char>)>, pair: (Seq<char>, Seq<char>))
    ensures
        pairs_map(pairs.push(pair)) == pairs_map(pairs).insert(pair.0, pair.1),
{
    assert(pairs.push(pair).drop_last() =~= pairs);
}

/// Reads the parameters of a query string.
pub fn parse_query(query: &str) -> (r: StringMap<String>)
    ensures
        r.wf(),
        texts(r) == query_map(query@),
{
    let mut params: StringMap<String> = StringMap::new();
    assert(texts(params) =~= Map::<Seq<char>, Seq<char>>::empty());
    let mut text: &str = query;
    let mut more: bool = true;
    let ghost mut done: Seq<Seq<char>> = Seq::empty();
    let ghost pair = |piece: Seq<char>| param_of(piece);
    assert(pieces(query@, '&') =~= done + pieces(query@, '&'));
    assert(done.map_values(pair) =~= Seq::empty());
    while more
        invariant
            params.wf(),
            pair == (|piece: Seq<char>| param_of(piece)),
            texts(params) == pairs_map(done.map_values(pair)),
            more ==> pieces(query@, '&') == done + pieces(text@, '&'),
            !more ==> pieces(query@, '&') == done,
        decreases
                if more {
                    text@.len() + 1
                } else {
                    0
                },
    {
        let (piece, next) = cut(text, 38);
        let (name, value) = cut(piece, 61);
        let value: String = match value {
            Some(v) => v.to_owned(),
            None => String::new(),
        };
        proof {
            let shown = done.map_values(pair);
            lemma_texts_insert(params@, name@, value);
            lemma_pairs_push(shown, param_of(piece@));
            assert(done.push(piece@).map_values(pair) =~= shown.push(param_of(piece@)));
            if text@.contains('&') {
                crate::text::lemma_before_shorter(text@, '&');
            } else {
                crate::text::lemma_no_cut(text@, '&');
            }
        }
        params.insert(name.to_owned(), value);
        let ghost so_far = done;
        proof {
            done = done.push(piece@);
        }
        match next {
            Some(rest) => {
                assert(pieces(text@, '&') =~= seq![piece@] + pieces(rest@, '&'));
                assert(so_far + (seq![piece@] + pieces(rest@, '&')) =~= done + pieces(rest@, '&'));
                text = rest;
            },
            None => {
                assert(pieces(text@, '&') =~= seq![piece@]);
                assert(so_far + seq![piece@] =~= done);
                more = false;
            },
        }
    }
    params
}

/// The lines before the first empty one.
pub open spec fn used_lines(lines: Seq<(Seq<char>, Seq<u8>)>) -> Seq<(Seq<char>, Seq<u8>)>
    decreases lines.len(),
{
    if lines.len() == 0 || (lines[0].0.len() == 0 && lines[0].1.len() == 0) {
        Seq::empty()
    } else {
        seq![lines[0]] + used_lines(lines.drop_first())
    }
}

/// Whether the values of all lines are text.
pub open spec fn values_are_text(lines: Seq<(Seq<char>, Seq<u8>)>) -> bool {
    forall|i: int| 0 <= i < lines.len() ==> valid_utf8((#[trigger] lines[i]).1)
}

/// The name of a header in lower case: in an ASCII name, which every request head
/// has, the letters from `A` to `Z` become those from `a` to `z` and nothing else
/// changes.
pub open spec fn lower_name(name: Seq<char>) -> Seq<char> {
    if is_ascii_chars(name) {
        name.map_values(|c: char| ascii_lower(c))
    } else {
        lowercase(name)
    }
}

/// The lower case name and the value of a header line.
pub open spec fn header_of(line: (Seq<char>, Seq<u8>)) -> (Seq<char>, Seq<char>) {
    (lower_name(line.0), decode_utf8(line.1))
}

/// The headers that lines stand for.
pub open spec fn header_map(lines: Seq<(Seq<char>, Seq<u8>)>) -> Map<Seq<char>, Seq<char>> {
    pairs_map(lines.map_values(|line: (Seq<char>, Seq<u8>)| header_of(line)))
}

/// What a request head says of the client, or nothing if the request is bad: if
/// it has no path, or a header value that is no text.
pub open spec fn client_of(head: RequestFields) -> Option<ClientData> {
    match head.path {
        None => None,
        Some(path) => if values_are_text(used_lines(head.headers)) {
            Some(
                ClientData {
                    id: Seq::empty(),
                    path: before(path, '?'),
                    distribution_id: Seq::empty(),
                    headers: header_map(used_lines(head.headers)),
                    query_params: match behind(path, '?') {
                        Some(query) => query_map(query),
                        None => Map::empty(),
                    },
                },
            )
        } else {
            None
        },
    }
}

/// Whether a text holds no upper case ASCII letter.
pub open spec fn no_upper(s: Seq<char>) -> bool {
    forall|i: int| 0 <= i < s.len() ==> !('A' <= #[trigger] s[i] <= 'Z')
}

/// Whether no key of a map holds an upper case ASCII letter.
pub open spec fn keys_lower(m: Map<Seq<char>, Seq<char>>) -> bool {
    forall|key: Seq<char>| #[trigger] m.contains_key(key) ==> no_upper(key)
}

/// Whether the names of all lines are ASCII.
pub open spec fn names_are_ascii(lines: Seq<(Seq<char>, Seq<u8>)>) -> bool {
    forall|i: int| 0 <= i < lines.len() ==> is_ascii_chars((#[trigger] lines[i]).0)
}

proof fn lemma_used_lines(lines: Seq<(Seq<char>, Seq<u8>)>, n: int)
    requires
        0 <= n <= lines.len(),
        forall|i: int|
            0 <= i < n ==> (#[trigger] lines[i]).0.len() > 0 || lines[i].1.len() > 0,
        n < lines.len() ==> lines[n].0.len() == 0 && lines[n].1.len() == 0,
    ensures
        used_lines(lines) == lines.take(n),
    decreases n,
{
    if n > 0 {
        let rest = lines.drop_first();
        assert forall|i: int| 0 <= i < n - 1 implies (#[trigger] rest[i]).0.len() > 0
            || rest[i].1.len() > 0 by {
            assert(rest[i] == lines[i + 1]);
        }
        assert(lines[0].0.len() > 0 || lines[0].1.len() > 0);
        lemma_used_lines(rest, n - 1);
        assert(used_lines(lines) =~= lines.take(n));
    } else {
        assert(used_lines(lines) =~= lines.take(n));
    }
}

/// A line that is not empty is used if none before it is empty.
proof fn lemma_line_is_used(lines: Seq<(Seq<char>, Seq<u8>)>, n: int)
    requires
        0 <= n < lines.len(),
        forall|i: int|
            0 <= i <= n ==> (#[trigger] lines[i]).0.len() > 0 || lines[i].1.len() > 0,
    ensures
        used_lines(lines).len() > n,
        used_lines(lines)[n] == lines[n],
    decreases n,
{
    assert(lines[0].0.len() > 0 || lines[0].1.len() > 0);
    if n > 0 {
        let rest = lines.drop_first();
        assert forall|i: int| 0 <= i <= n - 1 implies (#[trigger] rest[i]).0.len() > 0
            || rest[i].1.len() > 0 by {
            assert(rest[i] == lines[i + 1]);
        }
        lemma_line_is_used(rest, n - 1);
    }
}

/// Reads the headers of a request. Names are kept in lower case; of lines with
/// the same name, the last one counts.
fn read_header_lines(lines: Vec<HeaderLine>) -> (r: Result<StringMap<String>, HandshakeError>)
    ensures
        match r {
            Ok(m) => {
                &&& m.wf()
                &&& values_are_text(used_lines(line_fields(lines@)))
                &&& texts(m) == header_map(used_lines(line_fields(lines@)))
                &&& names_are_ascii(line_fields(lines@)) ==> keys_lower(texts(m))
            },
            Err(e) => !values_are_text(used_lines(line_fields(lines@))) && e
                == HandshakeError::BadRequest,
        },
{
    let mut headers: StringMap<String> = StringMap::new();
    assert(texts(headers) =~= Map::<Seq<char>, Seq<char>>::empty());
    let ghost all = line_fields(lines@);
    let ghost shape = |line: (Seq<char>, Seq<u8>)| header_of(line);
    assert(all.take(0).map_values(shape) =~= Seq::empty());
    let mut i: usize = 0;
    let mut used: bool = true;
    while used && i < lines.len()
        invariant
            i <= lines@.len(),
            all == line_fields(lines@),
            shape == (|line: (Seq<char>, Seq<u8>)| header_of(line)),
            headers.wf(),
            texts(headers) == pairs_map(all.take(i as int).map_values(shape)),
            values_are_text(all.take(i as int)),
            forall|j: int| 0 <= j < i ==> (#[trigger] all[j]).0.len() > 0 || all[j].1.len() > 0,
            !used ==> i < lines@.len() && all[i as int].0.len() == 0 && all[i as int].1.len() == 0,
            names_are_ascii(all) ==> keys_lower(texts(headers)),
        decreases lines@.len() - i, if used { 1int } else { 0int },
    {
        let line = &lines[i];
        assert(all[i as int] == (line.name@, line.value@));
        if line.name.as_str().is_empty() && line.value.len() == 0 {
            used = false;
        } else {
            let ghost name = line.name@;
            let mut bytes: Vec<u8> = Vec::new();
            bytes.extend_from_slice(line.value.as_slice());
            assert(bytes@ =~= line.value@);
            match text_of_bytes(bytes) {
                None => {
                    proof {
                        lemma_line_is_used(all, i as int);
                    }
                    return Err(HandshakeError::BadRequest);
                },
                Some(value) => {
                    let key = to_lowercase(line.name.as_str());
                    proof {
                        encode_utf8_valid_utf8(value@);
                        encode_utf8_decode_utf8(value@);
                        let shown = all.take(i as int).map_values(shape);
                        let now = all.take(i + 1);
                        lemma_texts_insert(headers@, key@, value);
                        lemma_pairs_push(shown, header_of(all[i as int]));
                        assert(now.map_values(shape) =~= shown.push(header_of(all[i as int])));
                        assert forall|j: int| 0 <= j < now.len() implies valid_utf8(
                            (#[trigger] now[j]).1,
                        ) by {
                            if j < i {
                                assert(now[j] == all.take(i as int)[j]);
                            }
                        }
                        if names_are_ascii(all) {
                            assert(is_ascii_chars(all[i as int].0));
                            assert forall|j: int| 0 <= j < key@.len() implies !('A'
                                <= #[trigger] key@[j] <= 'Z') by {
                                assert(key@[j] == ascii_lower(name[j]));
                            }
                            assert(no_upper(key@));
                        }
                    }
                    headers.insert(key, value);
                    i = i + 1;
                },
            }
        }
    }
    proof {
        lemma_used_lines(all, i as int);
    }
    Ok(headers)
}

/// Whether a request head was parsed and all names of its headers are ASCII.
pub open spec fn has_ascii_names(parsed: Result<RequestFields, RequestSyntaxError>) -> bool {
    match parsed {
        Ok(fields) => names_are_ascii(fields.headers),
        Err(_) => false,
    }
}

/// Whether an outcome of the handshake is what the request head says.
pub open spec fn is_client(
    r: Result<WebsocketData, HandshakeError>,
    client: Option<ClientData>,
) -> bool {
    match r {
        Ok(data) => data.wf() && client == Some(data@),
        Err(e) => client is None && e == HandshakeError::BadRequest,
    }
}

/// What a parsed request head says of the client.
pub fn handshake_data(head: RequestHead) -> (r: Result<WebsocketData, HandshakeError>)
    ensures
        is_client(r, client_of(head@)),
        match r {
            Ok(data) => client_of(head@) == Some(data@),
            Err(e) => client_of(head@) is None && e == HandshakeError::BadRequest,
        },
        r matches Ok(data) ==> (names_are_ascii(head@.headers) ==> keys_lower(data@.headers)),
{
    match head.path {
        None => Err(HandshakeError::BadRequest),
        Some(path) => {
            let (own_path, query) = cut(path.as_str(), 63);
            let query_params = match query {
                Some(q) => parse_query(q),
                None => StringMap::new(),
            };
            let headers = read_header_lines(head.headers)?;
            let data = WebsocketData {
                id: String::new(),
                path: own_path.to_owned(),
                distribution_id: String::new(),
                headers,
                query_params,
            };
            assert(query is None ==> texts(data.query_params) =~= Map::<
                Seq<char>,
                Seq<char>,
            >::empty());
            Ok(data)
        },
    }
}

/// Whether an outcome of the handshake is what parsing the request head gave.
pub open spec fn is_answer(
    r: Result<WebsocketData, HandshakeError>,
    parsed: Result<RequestFields, RequestSyntaxError>,
) -> bool {
    match parsed {
        Ok(fields) => is_client(r, client_of(fields)),
        Err(e) => r == Err::<WebsocketData, _>(HandshakeError::HeadersParsing(e)),
    }
}

/// Reads a complete request head.
pub fn parse_handshake(head: &[u8]) -> (r: Result<WebsocketData, HandshakeError>)
    ensures
        is_answer(r, parsed_request(head@, MAX_HEADERS as nat)),
        match parsed_request(head@, 30) {
            Ok(fields) => match r {
                Ok(data) => client_of(fields) == Some(data@),
                Err(e) => client_of(fields) is None && e == HandshakeError::BadRequest,
            },
            Err(e) => r == Err::<WebsocketData, _>(HandshakeError::HeadersParsing(e)),
        },
        r matches Ok(data) ==> keys_lower(data@.headers) && has_ascii_names(
            parsed_request(head@, MAX_HEADERS as nat),
        ),
{
    match parse_request(head, MAX_HEADERS) {
        Ok(head) => handshake_data(head),
        Err(e) => Err(HandshakeError::HeadersParsing(e)),
    }
}

/// Reads the handshake of a client from the packets that the reads of its socket
/// deliver.
pub fn receive_handshake_data(packets: &Vec<Vec<u8>>) -> (r: Result<
    WebsocketData,
    HandshakeError,
>)
    requires
        joined(contents(packets@)).len() <= usize::MAX,
    ensures
        match collected(Seq::empty(), contents(packets@)) {
            Some(head) => {
                &&& is_answer(r, parsed_request(head, MAX_HEADERS as nat))
                &&& match parsed_request(head, 30) {
                    Ok(fields) => match r {
                        Ok(data) => client_of(fields) == Some(data@),
                        Err(e) => client_of(fields) is None && e == HandshakeError::BadRequest,
                    },
                    Err(e) => r == Err::<WebsocketData, _>(HandshakeError::HeadersParsing(e)),
                }
                &&& r is Ok ==> has_ascii_names(parsed_request(head, MAX_HEADERS as nat))
            },
            None => r matches Err(HandshakeError::IOError(text)) && text@ == eof_text(),
        },
        r matches Ok(data) ==> keys_lower(data@.headers),
{
    let head = read_headers(packets)?;
    parse_handshake(head.as_slice())
}

proof fn lemma_pairs_map(pairs: Seq<(Seq<char>, Seq<char>)>, key: Seq<char>)
    ensures
        pairs_map(pairs).contains_key(key) <==> exists|i: int|
            0 <= i < pairs.len() && (#[trigger] pairs[i]).0 == key,
    decreases pairs.len(),
{
    if pairs.len() > 0 {
        let rest = pairs.drop_last();
        lemma_pairs_map(rest, key);
        if pairs_map(pairs).contains_key(key) {
            if key == pairs.last().0 {
                assert(pairs[pairs.len() - 1].0 == key);
            } else {
                let i = choose|i: int| 0 <= i < rest.len() && (#[trigger] rest[i]).0 == key;
                assert(pairs[i].0 == key);
            }
        }
        if exists|i: int| 0 <= i < pairs.len() && (#[trigger] pairs[i]).0 == key {
            let i = choose|i: int| 0 <= i < pairs.len() && (#[trigger] pairs[i]).0 == key;
            if i < rest.len() {
                assert(rest[i].0 == key);
            }
        }
    }
}

proof fn lemma_last_pair_counts(pairs: Seq<(Seq<char>, Seq<char>)>, i: int)
    requires
        0 <= i < pairs.len(),
        forall|j: int| i < j < pairs.len() ==> (#[trigger] pairs[j]).0 != pairs[i].0,
    ensures
        pairs_map(pairs)[pairs[i].0] == pairs[i].1,
    decreases pairs.len(),
{
    if i < pairs.len() - 1 {
        let rest = pairs.drop_last();
        assert(pairs[pairs.len() - 1].0 != pairs[i].0);
        assert forall|j: int| i < j < rest.len() implies (#[trigger] rest[j]).0 != rest[i].0 by {
            assert(rest[j] == pairs[j]);
        }
        lemma_last_pair_counts(rest, i);
    }
}

/// The keys of the headers are exactly the lower case names of the lines: no
/// header is lost and none is made up, and names that differ in case alone fall
/// on one key.
pub proof fn law_header_keys(head: RequestFields, key: Seq<char>)
    ensures
        client_of(head) matches Some(client) ==> (client.headers.contains_key(key) <==> exists|
            i: int,
        |
            0 <= i < used_lines(head.headers).len() && lower_name(
                (#[trigger] used_lines(head.headers)[i]).0,
            ) == key),
{
    let lines = used_lines(head.headers);
    let pairs = lines.map_values(|line: (Seq<char>, Seq<u8>)| header_of(line));
    lemma_pairs_map(pairs, key);
    if header_map(lines).contains_key(key) {
        let i = choose|i: int| 0 <= i < pairs.len() && (#[trigger] pairs[i]).0 == key;
        assert(lower_name(lines[i].0) == key);
    }
    if exists|i: int| 0 <= i < lines.len() && lower_name((#[trigger] lines[i]).0) == key {
        let i = choose|i: int| 0 <= i < lines.len() && lower_name((#[trigger] lines[i]).0) == key;
        assert(pairs[i].0 == key);
    }
}

/// The value of a header is that of the last line with its name.
pub proof fn law_last_header_counts(head: RequestFields, i: int)
    requires
        0 <= i < used_lines(head.headers).len(),
        forall|j: int|
            i < j < used_lines(head.headers).len() ==> lower_name(
                (#[trigger] used_lines(head.headers)[j]).0,
            ) != lower_name(used_lines(head.headers)[i].0),
    ensures
        client_of(head) matches Some(client) ==> client.headers[lower_name(
            used_lines(head.headers)[i].0,
        )] == decode_utf8(used_lines(head.headers)[i].1),
{
    let lines = used_lines(head.headers);
    let pairs = lines.map_values(|line: (Seq<char>, Seq<u8>)| header_of(line));
    assert forall|j: int| i < j < pairs.len() implies (#[trigger] pairs[j]).0 != pairs[i].0 by {
        assert(lower_name(lines[j].0) != lower_name(lines[i].0));
    }
    lemma_last_pair_counts(pairs, i);
}

/// The keys of the query parameters are exactly the names of the pieces of the
/// query.
pub proof fn law_query_keys(query: Seq<char>, key: Seq<char>)
    ensures
        query_map(query).contains_key(key) <==> exists|i: int|
            0 <= i < pieces(query, '&').len() && before(#[trigger] pieces(query, '&')[i], '=')
                == key,
{
    let all = pieces(query, '&');
    let pairs = all.map_values(|piece: Seq<char>| param_of(piece));
    lemma_pairs_map(pairs, key);
    if query_map(query).contains_key(key) {
        let i = choose|i: int| 0 <= i < pairs.len() && (#[trigger] pairs[i]).0 == key;
        assert(before(all[i], '=') == key);
    }
    if exists|i: int| 0 <= i < all.len() && before(#[trigger] all[i], '=') == key {
        let i = choose|i: int| 0 <= i < all.len() && before(#[trigger] all[i], '=') == key;
        assert(pairs[i].0 == key);
    }
}

/// Turning a name into lower case leaves no upper case ASCII letter, keeps what is
/// none, and is done with once.
pub proof fn law_lower_names(name: Seq<char>)
    requires
        is_ascii_chars(name),
    ensures
        no_upper(lower_name(name)),
        no_upper(name) ==> lower_name(name) == name,
        lower_name(lower_name(name)) == lower_name(name),
{
    let once = lower_name(name);
    assert(is_ascii_chars(once));
    assert forall|i: int| 0 <= i < once.len() implies !('A' <= #[trigger] once[i] <= 'Z') by {
        assert(once[i] == ascii_lower(name[i]));
    }
    assert(lower_name(once) =~= once);
    if no_upper(name) {
        assert(once =~= name);
    }
}

/// A blank line starts where the bytes 13, 10, 13, 10 stand, and nowhere else.
pub proof fn law_blank_line(s: Seq<u8>, i: int)
    ensures
        blank_line_at(s, i) <==> 0 <= i && i + 4 <= s.len() && s.subrange(i, i + 4) == seq![
            13u8,
            10u8,
            13u8,
            10u8,
        ],
        blank_line_at(s, i) ==> has_blank_line(s),
        has_blank_line(s) ==> exists|j: int|
            0 <= j && j + 4 <= s.len() && #[trigger] s.subrange(j, j + 4) == seq![
                13u8,
                10u8,
                13u8,
                10u8,
            ],
{
    let line = seq![13u8, 10u8, 13u8, 10u8];
    if blank_line_at(s, i) {
        assert(s.subrange(i, i + 4) =~= line);
    }
    if 0 <= i && i + 4 <= s.len() && s.subrange(i, i + 4) == line {
        assert(s[i] == s.subrange(i, i + 4)[0]);
        assert(s[i + 1] == s.subrange(i, i + 4)[1]);
        assert(s[i + 2] == s.subrange(i, i + 4)[2]);
        assert(s[i + 3] == s.subrange(i, i + 4)[3]);
    }
    if has_blank_line(s) {
        let j = choose|j: int| blank_line_at(s, j);
        assert(s.subrange(j, j + 4) =~= line);
    }
}

/// Packets in a row are the first one and then the others in a row.
pub proof fn law_joined(first: Seq<u8>, rest: Seq<Seq<u8>>)
    ensures
        joined(Seq::empty()) == Seq::<u8>::empty(),
        joined(seq![first] + rest) == first + joined(rest),
{
    assert((seq![first] + rest).drop_first() =~= rest);
}

proof fn lemma_joined_next(packets: Seq<Seq<u8>>, j: int)
    requires
        0 <= j < packets.len(),
    ensures
        joined(packets.take(j + 1)) == packets[0] + joined(packets.drop_first().take(j)),
{
    assert(packets.take(j + 1).drop_first() =~= packets.drop_first().take(j));
    assert(packets.take(j + 1)[0] == packets[0]);
}

/// Whether no blank line is in the first `k` packets, nor in any part of them, and
/// none of them is empty.
pub open spec fn nothing_yet(earlier: Seq<u8>, packets: Seq<Seq<u8>>, k: int) -> bool {
    forall|j: int|
        0 <= j < k ==> (#[trigger] packets[j]).len() > 0 && !has_blank_line(
            earlier + joined(packets.take(j + 1)),
        )
}

proof fn lemma_first_packet(earlier: Seq<u8>, packets: Seq<Seq<u8>>, k: int)
    requires
        0 < k <= packets.len(),
        nothing_yet(earlier, packets, k),
    ensures
        packets[0].len() > 0,
        !has_blank_line(earlier + packets[0]),
        nothing_yet(earlier + packets[0], packets.drop_first(), k - 1),
{
    let rest = packets.drop_first();
    let now = earlier + packets[0];
    let first = packets[0];
    lemma_joined_next(packets, 0);
    assert(rest.take(0) =~= Seq::empty());
    assert(earlier + (packets[0] + joined(rest.take(0))) =~= now);
    assert forall|j: int| 0 <= j < k - 1 implies (#[trigger] rest[j]).len() > 0
        && !has_blank_line(now + joined(rest.take(j + 1))) by {
        assert(rest[j] == packets[j + 1]);
        lemma_joined_next(packets, j + 1);
        assert(earlier + joined(packets.take(j + 1 + 1)) =~= now + joined(rest.take(j + 1)));
    }
}

proof fn lemma_found_with(earlier: Seq<u8>, packets: Seq<Seq<u8>>, k: int)
    requires
        0 <= k < packets.len(),
        nothing_yet(earlier, packets, k),
        has_blank_line(earlier + joined(packets.take(k + 1))),
    ensures
        collected(earlier, packets) == Some(earlier + joined(packets.take(k + 1))),
    decreases packets.len(),
{
    let rest = packets.drop_first();
    let now = earlier + packets[0];
    lemma_joined_next(packets, k);
    assert(earlier + joined(packets.take(k + 1)) =~= now + joined(rest.take(k)));
    if k == 0 {
        assert(rest.take(0) =~= Seq::empty());
        assert(now + joined(rest.take(0)) =~= now);
    } else {
        lemma_first_packet(earlier, packets, k);
        assert(rest.take((k - 1) + 1) == rest.take(k));
        lemma_found_with(now, rest, k - 1);
    }
}

proof fn lemma_found_nowhere(earlier: Seq<u8>, packets: Seq<Seq<u8>>, k: int)
    requires
        0 <= k <= packets.len(),
        nothing_yet(earlier, packets, k),
        k < packets.len() ==> packets[k].len() == 0 && !has_blank_line(
            earlier + joined(packets.take(k + 1)),
        ),
    ensures
        collected(earlier, packets) is None,
    decreases packets.len(),
{
    let rest = packets.drop_first();
    if k == 0 {
        if packets.len() > 0 {
            lemma_joined_next(packets, 0);
            assert(rest.take(0) =~= Seq::empty());
            assert(earlier + (packets[0] + joined(rest.take(0))) =~= earlier + packets[0]);
        }
    } else {
        lemma_first_packet(earlier, packets, k);
        let now = earlier + packets[0];
        if k < packets.len() {
            lemma_joined_next(packets, k);
            assert(earlier + joined(packets.take(k + 1)) =~= now + joined(rest.take(k)));
            assert(rest.take((k - 1) + 1) == rest.take(k));
            assert(rest[k - 1] == packets[k]);
        }
        lemma_found_nowhere(now, rest, k - 1);
    }
}

/// Where reading ends. With the first packet by which a blank line is there, all
/// packets up to that one, in a row, are the head. If the peer closes the socket
/// before that, which an empty packet or the end of the packets says, there is
/// none.
pub proof fn law_where_the_head_ends(packets: Seq<Seq<u8>>, k: int)
    requires
        0 <= k <= packets.len(),
        forall|j: int|
            0 <= j < k ==> (#[trigger] packets[j]).len() > 0 && !has_blank_line(
                joined(packets.take(j + 1)),
            ),
    ensures
        k < packets.len() && has_blank_line(joined(packets.take(k + 1))) ==> collected(
            Seq::empty(),
            packets,
        ) == Some(joined(packets.take(k + 1))),
        k == packets.len() ==> collected(Seq::empty(), packets) is None,
        k < packets.len() && packets[k].len() == 0 && !has_blank_line(joined(packets.take(k + 1)))
            ==> collected(Seq::empty(), packets) is None,
{
    let none = Seq::<u8>::empty();
    assert forall|j: int| 0 <= j < k implies (#[trigger] packets[j]).len() > 0
        && !has_blank_line(none + joined(packets.take(j + 1))) by {
        assert(none + joined(packets.take(j + 1)) =~= joined(packets.take(j + 1)));
    }
    if k < packets.len() {
        assert(none + joined(packets.take(k + 1)) =~= joined(packets.take(k + 1)));
        if has_blank_line(joined(packets.take(k + 1))) {
            lemma_found_with(none, packets, k);
        } else if packets[k].len() == 0 {
            lemma_found_nowhere(none, packets, k);
        }
    } else {
        lemma_found_nowhere(none, packets, k);
    }
}

/// The contents of packets are their bytes, packet by packet.
pub proof fn law_contents(packets: Seq<Vec<u8>>, i: int)
    requires
        0 <= i < packets.len(),
    ensures
        contents(packets).len() == packets.len(),
        contents(packets)[i] == packets[i]@,
{
}

/// The value of a query parameter, character by character: where a piece of the
/// query is a name, an equals sign and a value, the value stands under the name as
/// it is, and where it is a name alone, the empty text does, unless a later piece
/// has that name.
pub proof fn law_query_values(query: Seq<char>, i: int, name: Seq<char>, value: Seq<char>)
    requires
        0 <= i < pieces(query, '&').len(),
        !name.contains('='),
        forall|j: int|
            i < j < pieces(query, '&').len() ==> before(#[trigger] pieces(query, '&')[j], '=')
                != name,
    ensures
        pieces(query, '&')[i] == name.push('=') + value ==> query_map(query).contains_key(name)
            && query_map(query)[name] == value,
        pieces(query, '&')[i] == name ==> query_map(query).contains_key(name) && query_map(
            query,
        )[name] == Seq::<char>::empty(),
{
    let all = pieces(query, '&');
    let pairs = all.map_values(|piece: Seq<char>| param_of(piece));
    if all[i] == name.push('=') + value {
        crate::text::lemma_cut(all[i], name, '=', value);
    } else if all[i] == name {
        crate::text::lemma_no_cut(name, '=');
    }
    if all[i] == name.push('=') + value || all[i] == name {
        assert(pairs[i].0 == name);
        assert forall|j: int| i < j < pairs.len() implies (#[trigger] pairs[j]).0 != pairs[i].0 by {
            assert(before(all[j], '=') != name);
        }
        lemma_last_pair_counts(pairs, i);
        lemma_pairs_map(pairs, name);
    }
}

/// The lines of a request are those before the first one that is empty in name and
/// value.
pub proof fn law_used_lines(lines: Seq<(Seq<char>, Seq<u8>)>, n: int)
    requires
        0 <= n <= lines.len(),
        forall|i: int|
            0 <= i < n ==> (#[trigger] lines[i]).0.len() > 0 || lines[i].1.len() > 0,
        n < lines.len() ==> lines[n].0.len() == 0 && lines[n].1.len() == 0,
    ensures
        used_lines(lines) == lines.take(n),
{
    lemma_used_lines(lines, n);
}

/// What a request says of its client. A request without a path, or with a header
/// value that is no text, is bad, and no other one is. The path ends at the first
/// question mark; what follows is the query. A client has no name yet.
pub proof fn law_client(head: RequestFields, path: Seq<char>, query: Seq<char>)
    ensures
        client_of(head) is None <==> (head.path is None || exists|i: int|
            0 <= i < used_lines(head.headers).len() && !valid_utf8(
                (#[trigger] used_lines(head.headers)[i]).1,
            )),
        client_of(head) matches Some(client) ==> {
            &&& client.id == Seq::<char>::empty()
            &&& client.distribution_id == Seq::<char>::empty()
            &&& !path.contains('?') && head.path == Some(path.push('?') + query) ==> client.path
                == path && client.query_params == query_map(query)
            &&& !path.contains('?') && head.path == Some(path) ==> client.path == path
                && client.query_params == Map::<Seq<char>, Seq<char>>::empty()
        },
{
    if !path.contains('?') {
        crate::text::lemma_no_cut(path, '?');
        crate::text::lemma_cut(path.push('?') + query, path, '?', query);
    }
}

/// The lower case form of an ASCII name, character by character: an upper case
/// letter becomes the one 32 codes further on, and nothing else changes.
pub proof fn law_lower_name_by_character(name: Seq<char>, i: int)
    requires
        is_ascii_chars(name),
        0 <= i < name.len(),
    ensures
        lower_name(name).len() == name.len(),
        65 <= name[i] as u32 <= 90 ==> lower_name(name)[i] as u32 == name[i] as u32 + 32,
        !(65 <= name[i] as u32 <= 90) ==> lower_name(name)[i] == name[i],
{
    crate::text::law_ascii_lower(name[i]);
}

/// Keys are in lower case exactly if no character of any of them is an upper case
/// ASCII letter.
pub proof fn law_keys_lower(m: Map<Seq<char>, Seq<char>>)
    ensures
        keys_lower(m) <==> forall|key: Seq<char>, i: int|
            m.contains_key(key) && 0 <= i < key.len() ==> !('A' <= #[trigger] key[i] <= 'Z'),
{
    if keys_lower(m) {
        assert forall|key: Seq<char>, i: int|
            m.contains_key(key) && 0 <= i < key.len() implies !('A' <= #[trigger] key[i] <= 'Z') by {
            assert(no_upper(key));
        }
    } else {
        let key = choose|key: Seq<char>| #[trigger] m.contains_key(key) && !no_upper(key);
        let i = choose|i: int| 0 <= i < key.len() && ('A' <= #[trigger] key[i] <= 'Z');
        assert('A' <= key[i] <= 'Z');
    }
}

// ---------------------------------------------------------------------------
// Errors in words
// ---------------------------------------------------------------------------

impl RequestSyntaxError {
    /// The name of the error.
    pub open spec fn shown(self) -> Seq<char> {
        match self {
            RequestSyntaxError::HeaderName => "HeaderName"@,
            RequestSyntaxError::HeaderValue => "HeaderValue"@,
            RequestSyntaxError::NewLine => "NewLine"@,
            RequestSyntaxError::Status => "Status"@,
            RequestSyntaxError::Token => "Token"@,
            RequestSyntaxError::TooManyHeaders => "TooManyHeaders"@,
            RequestSyntaxError::Version => "Version"@,
        }
    }

    /// The name of the error.
    pub fn name(self) -> (r: &'static str)
        ensures
            r@ == self.shown(),
            self is HeaderName ==> r@ == "HeaderName"@,
            self is HeaderValue ==> r@ == "HeaderValue"@,
            self is NewLine ==> r@ == "NewLine"@,
            self is Status ==> r@ == "Status"@,
            self is Token ==> r@ == "Token"@,
            self is TooManyHeaders ==> r@ == "TooManyHeaders"@,
            self is Version ==> r@ == "Version"@,
    {
        match self {
            RequestSyntaxError::HeaderName => "HeaderName",
            RequestSyntaxError::HeaderValue => "HeaderValue",
            RequestSyntaxError::NewLine => "NewLine",
            RequestSyntaxError::Status => "Status",
            RequestSyntaxError::Token => "Token",
            RequestSyntaxError::TooManyHeaders => "TooManyHeaders",
            RequestSyntaxError::Version => "Version",
        }
    }
}

impl HandshakeError {
    /// The error in words.
    pub open spec fn shown(self) -> Seq<char> {
        match self {
            HandshakeError::BadRequest => "Bad request"@,
            HandshakeError::HeadersParsing(e) => "Headers parsing error: "@ + e.shown(),
            HandshakeError::SocketClosed => "Handshake request was canceled"@,
            HandshakeError::MissedHeader(name) => "Missed header \""@ + name@
                + "\" in handshake request"@,
            HandshakeError::BadHeaderValue(name, value) => "Header \""@ + name@
                + "\" has bad value \""@ + value@ + "\""@,
            HandshakeError::IOError(text) => "IO error happened: "@ + text@,
            HandshakeError::TlsError(text) => "TLS error: "@ + text@,
            HandshakeError::Timeout => "Timeout"@,
        }
    }

    /// The error in words.
    pub fn message(&self) -> (r: String)
        ensures
            r@ == self.shown(),
            self is BadRequest ==> r@ == "Bad request"@,
            self matches HandshakeError::HeadersParsing(e) ==> r@ == "Headers parsing error: "@
                + e.shown(),
            self is SocketClosed ==> r@ == "Handshake request was canceled"@,
            self matches HandshakeError::MissedHeader(name) ==> r@ == "Missed header \""@ + name@
                + "\" in handshake request"@,
            self matches HandshakeError::BadHeaderValue(name, value) ==> r@ == "Header \""@ + name@
                + "\" has bad value \""@ + value@ + "\""@,
            self matches HandshakeError::IOError(text) ==> r@ == "IO error happened: "@ + text@,
            self matches HandshakeError::TlsError(text) ==> r@ == "TLS error: "@ + text@,
            self is Timeout ==> r@ == "Timeout"@,
    {
        match self {
            HandshakeError::BadRequest => "Bad request".to_owned(),
            HandshakeError::HeadersParsing(e) => "Headers parsing error: ".to_owned().concat(
                e.name(),
            ),
            HandshakeError::SocketClosed => "Handshake request was canceled".to_owned(),
            HandshakeError::MissedHeader(name) => "Missed header \"".to_owned().concat(
                name.as_str(),
            ).concat("\" in handshake request"),
            HandshakeError::BadHeaderValue(name, value) => "Header \"".to_owned().concat(
                name.as_str(),
            ).concat("\" has bad value \"").concat(value.as_str()).concat("\""),
            HandshakeError::IOError(text) => "IO error happened: ".to_owned().concat(text.as_str()),
            HandshakeError::TlsError(text) => "TLS error: ".to_owned().concat(text.as_str()),
            HandshakeError::Timeout => "Timeout".to_owned(),
        }
    }
}

} // verus!
