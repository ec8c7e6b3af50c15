//! The clients of the balancer.

use std::sync::Arc;

use vstd::prelude::*;
use vstd::string::*;

use crate::handshake::{keys_lower, no_upper, parse_query, query_map};
use crate::random::random_u128;
use crate::string_map::{as_map, has_key, StringMap};
use crate::text::{quote, quoted};
use crate::uri::{ParsedUri, UriFields};

pub use crate::frame::MAX_MESSAGE_SIZE;

verus! {

/// What is known of a client from its handshake.
pub struct WebsocketData {
    pub id: String,
    pub path: String,
    pub distribution_id: String,
    /// Header name(key) is lowercase
    pub headers: StringMap<String>,
    pub query_params: StringMap<String>,
}

/// The mathematical content of a `WebsocketData`.
pub struct ClientData {
    pub id: Seq<char>,
    pub path: Seq<char>,
    pub distribution_id: Seq<char>,
    pub headers: Map<Seq<char>, Seq<char>>,
    pub query_params: Map<Seq<char>, Seq<char>>,
}

/// A map of texts as a map of character sequences.
pub open spec fn texts(m: StringMap<String>) -> Map<Seq<char>, Seq<char>> {
    m@.map_values(|v: String| v@)
}

impl View for WebsocketData {
    type V = ClientData;

    open spec fn view(&self) -> ClientData {
        ClientData {
            id: self.id@,
            path: self.path@,
            distribution_id: self.distribution_id@,
            headers: texts(self.headers),
            query_params: texts(self.query_params),
        }
    }
}

impl WebsocketData {
    /// The maps of the data are maps.
    pub open spec fn wf(&self) -> bool {
        self.headers.wf() && self.query_params.wf()
    }
}

impl Default for WebsocketData {
    /// The data of a client that nothing is known of: a client at the root.
    fn default() -> (r: Self)
        ensures
            r.wf(),
            r@ == (ClientData {
                id: Seq::empty(),
                path: "/"@,
                distribution_id: Seq::empty(),
                headers: Map::empty(),
                query_params: Map::empty(),
            }),
    {
        let r = WebsocketData {
            id: String::new(),
            path: "/".to_owned(),
            distribution_id: String::new(),
            headers: StringMap::new(),
            query_params: StringMap::new(),
        };
        assert(texts(r.headers) =~= Map::<Seq<char>, Seq<char>>::empty());
        assert(texts(r.query_params) =~= Map::<Seq<char>, Seq<char>>::empty());
        r
    }
}

/// How a client is shown to the operator: its name and the name of its
/// distribution, both given as they are to be shown, and its path. Headers and
/// query parameters are not shown.
pub open spec fn client_text(id: Seq<char>, distribution_id: Seq<char>, path: Seq<char>) -> Seq<
    char,
> {
    " { id: "@ + id + ", distribution_id: "@ + distribution_id + ", path: "@ + path + " }"@
}

/// Puts together how a client is shown.
pub fn show_client(id: &str, distribution_id: &str, path: &str) -> (r: String)
    ensures
        r@ == client_text(id@, distribution_id@, path@),
        r@ == " { id: "@ + id@ + ", distribution_id: "@ + distribution_id@ + ", path: "@ + path@
            + " }"@,
{
    " { id: ".to_owned().concat(id).concat(", distribution_id: ").concat(distribution_id).concat(
        ", path: ",
    ).concat(path).concat(" }")
}

impl ClientData {
    /// How the client is shown: its names quoted, its path as it is.
    pub open spec fn shown(self) -> Seq<char> {
        client_text(quoted(self.id), quoted(self.distribution_id), self.path)
    }
}

impl WebsocketData {
    /// How the client is shown to the operator.
    pub fn debug_text(&self) -> (r: String)
        ensures
            r@ == self@.shown(),
            r@ == " { id: "@ + quoted(self.id@) + ", distribution_id: "@ + quoted(
                self.distribution_id@,
            ) + ", path: "@ + self.path@ + " }"@,
    {
        show_client(
            quote(self.id.as_str()).as_str(),
            quote(self.distribution_id.as_str()).as_str(),
            self.path.as_str(),
        )
    }
}

// ---------------------------------------------------------------------------
// What a request says of its client
// ---------------------------------------------------------------------------

/// The query parameters of an address.
pub open spec fn params_of(uri: UriFields) -> Map<Seq<char>, Seq<char>> {
    match uri.query {
        Some(query) => query_map(query),
        None => Map::empty(),
    }
}

/// Reads the query parameters of an address.
pub fn request_params(uri: &ParsedUri) -> (r: StringMap<String>)
    ensures
        r.wf(),
        texts(r) == params_of(uri@),
{
    match &uri.query {
        Some(query) => parse_query(query.as_str()),
        None => {
            let r = StringMap::new();
            assert(texts(r) =~= Map::<Seq<char>, Seq<char>>::empty());
            r
        },
    }
}

/// Whether a text holds no upper case ASCII letter.
fn is_lower(s: &str) -> (r: bool)
    ensures
        r == no_upper(s@),
{
    let n: usize = s.unicode_len();
    let mut i: usize = 0;
    while i < n
        invariant
            n == s@.len(),
            i <= n,
            forall|j: int| 0 <= j < i ==> !('A' <= #[trigger] s@[j] <= 'Z'),
        decreases n - i,
    {
        let c: char = s.get_char(i);
        assert(s@[i as int] == c);
        if 'A' <= c && c <= 'Z' {
            return false;
        }
        i = i + 1;
    }
    true
}

/// Whether the names of all headers are in lower case.
pub fn names_are_lower(headers: &StringMap<String>) -> (r: bool)
    requires
        headers.wf(),
    ensures
        r == keys_lower(texts(*headers)),
{
    let entries = headers.entries();
    let ghost m = texts(*headers);
    let mut i: usize = 0;
    while i < entries.len()
        invariant
            i <= entries@.len(),
            m == texts(*headers),
            as_map(entries@) == headers@,
            forall|j: int| 0 <= j < i ==> no_upper((#[trigger] entries@[j]).0@),
        decreases entries@.len() - i,
    {
        if !is_lower(entries[i].0.as_str()) {
            proof {
                let key = entries@[i as int].0@;
                assert(has_key(entries@, key));
                assert(m.contains_key(key));
            }
            return false;
        }
        i = i + 1;
    }
    proof {
        assert forall|key: Seq<char>| #[trigger] m.contains_key(key) implies no_upper(key) by {
            assert(has_key(entries@, key));
        }
    }
    true
}

impl WebsocketData {
    /// The data of the client that sent a request, under the names that were
    /// picked for it. The names of the headers are in lower case.
    pub fn of_request(
        uri: &ParsedUri,
        headers: StringMap<String>,
        id: String,
        distribution_id: String,
    ) -> (r: WebsocketData)
        requires
            headers.wf(),
            keys_lower(texts(headers)),
        ensures
            r.wf(),
            keys_lower(r@.headers),
            r@ == (ClientData {
                id: id@,
                path: uri@.text,
                distribution_id: distribution_id@,
                headers: texts(headers),
                query_params: params_of(uri@),
            }),
    {
        WebsocketData {
            id,
            path: uri.text.clone(),
            distribution_id,
            headers,
            query_params: request_params(uri),
        }
    }
}

// ---------------------------------------------------------------------------
// Names picked by chance
// ---------------------------------------------------------------------------

/// The hexadecimal digit of a value below sixteen, in upper case.
pub open spec fn hex_char(v: nat) -> char {
    if v < 10 {
        (48 + v) as char
    } else {
        (55 + v) as char
    }
}

/// The last `width` hexadecimal digits of a number.
pub open spec fn hex_text(n: nat, width: nat) -> Seq<char>
    decreases width,
{
    if width == 0 {
        Seq::empty()
    } else {
        hex_text(n / 16, (width - 1) as nat).push(hex_char(n % 16))
    }
}

/// How many numbers `width` hexadecimal digits tell apart.
pub open spec fn hex_span(width: nat) -> nat
    decreases width,
{
    if width == 0 {
        1
    } else {
        16 * hex_span((width - 1) as nat)
    }
}

fn hex_digit(v: u8) -> (r: &'static str)
    requires
        v < 16,
    ensures
        r@ == seq![hex_char(v as nat)],
{
    proof {
        reveal_strlit("0");
        reveal_strlit("1");
        reveal_strlit("2");
        reveal_strlit("3");
        reveal_strlit("4");
        reveal_strlit("5");
        reveal_strlit("6");
        reveal_strlit("7");
        reveal_strlit("8");
        reveal_strlit("9");
        reveal_strlit("A");
        reveal_strlit("B");
        reveal_strlit("C");
        reveal_strlit("D");
        reveal_strlit("E");
        reveal_strlit("F");
    }
    let r: &'static str = match v {
        0 => "0",
        1 => "1",
        2 => "2",
        3 => "3",
        4 => "4",
        5 => "5",
        6 => "6",
        7 => "7",
        8 => "8",
        9 => "9",
        10 => "A",
        11 => "B",
        12 => "C",
        13 => "D",
        14 => "E",
        _ => "F",
    };
    assert(r@ =~= seq![hex_char(v as nat)]);
    r
}

fn push_hex(out: &mut String, n: u128, width: u32)
    ensures
        final(out)@ == old(out)@ + hex_text(n as nat, width as nat),
    decreases width,
{
    if width > 0 {
        push_hex(out, n / 16, width - 1);
        out.append(hex_digit((n % 16) as u8));
    }
    assert(out@ =~= old(out)@ + hex_text(n as nat, width as nat));
}

/// A number as a name: 32 hexadecimal digits in upper case.
pub fn hex_name(n: u128) -> (r: String)
    ensures
        r@ == hex_text(n as nat, 32),
{
    let mut r = String::new();
    push_hex(&mut r, n, 32);
    assert(r@ =~= hex_text(n as nat, 32));
    r
}

/// The name that a client or a distribution gets where nothing else names it:
/// that of a number picked by chance.
pub fn random_name() -> (r: String)
    ensures
        exists|n: u128| r@ == #[trigger] hex_text(n as nat, 32),
{
    hex_name(random_u128())
}

proof fn lemma_hex_text(n: nat, width: nat)
    ensures
        hex_text(n, width).len() == width,
        forall|i: int|
            0 <= i < width ==> exists|v: nat| v < 16 && #[trigger] hex_text(n, width)[i] == hex_char(v),
    decreases width,
{
    if width > 0 {
        lemma_hex_text(n / 16, (width - 1) as nat);
        let shorter = hex_text(n / 16, (width - 1) as nat);
        assert forall|i: int| 0 <= i < width implies exists|v: nat|
            v < 16 && #[trigger] hex_text(n, width)[i] == hex_char(v) by {
            if i < width - 1 {
                assert(hex_text(n, width)[i] == shorter[i]);
            } else {
                assert(hex_text(n, width)[i] == hex_char(n % 16));
            }
        }
    }
}

proof fn lemma_hex_text_tells_apart(a: nat, b: nat, width: nat)
    requires
        a < hex_span(width),
        b < hex_span(width),
        hex_text(a, width) == hex_text(b, width),
    ensures
        a == b,
    decreases width,
{
    if width > 0 {
        let sa = hex_text(a / 16, (width - 1) as nat);
        let sb = hex_text(b / 16, (width - 1) as nat);
        lemma_hex_text(a / 16, (width - 1) as nat);
        lemma_hex_text(b / 16, (width - 1) as nat);
        assert(hex_text(a, width).drop_last() =~= sa);
        assert(hex_text(b, width).drop_last() =~= sb);
        assert(hex_text(a, width).last() == hex_char(a % 16));
        assert(hex_text(b, width).last() == hex_char(b % 16));
        lemma_hex_text_tells_apart(a / 16, b / 16, (width - 1) as nat);
    }
}

/// A name has 32 characters, all of them hexadecimal digits, and two numbers
/// have the same name only if they are equal.
pub proof fn law_names_tell_numbers_apart(a: u128, b: u128)
    ensures
        hex_text(a as nat, 32).len() == 32,
        forall|i: int|
            0 <= i < 32 ==> exists|v: nat|
                v < 16 && #[trigger] hex_text(a as nat, 32)[i] == hex_char(v),
        hex_text(a as nat, 32) == hex_text(b as nat, 32) ==> a == b,
{
    lemma_hex_text(a as nat, 32);
    assert(hex_span(32) == u128::MAX + 1) by {
        reveal_with_fuel(hex_span, 33);
    }
    if hex_text(a as nat, 32) == hex_text(b as nat, 32) {
        lemma_hex_text_tells_apart(a as nat, b as nat, 32);
    }
}

// ---------------------------------------------------------------------------
// The clients that are connected
// ---------------------------------------------------------------------------

/// A client that is connected, and the handle by which its connection can be
/// ended.
pub struct WebsocketConnection {
    pub data: Arc<WebsocketData>,
    pub handle: u64,
}

/// The mathematical content of a connection.
pub struct Attached {
    pub data: ClientData,
    pub handle: u64,
}

impl View for WebsocketConnection {
    type V = Attached;

    open spec fn view(&self) -> Attached {
        Attached { data: self.data@, handle: self.handle }
    }
}

/// The place of the first connection of the client `id`; behind the last one if
/// there is none.
pub open spec fn place_of_client(conns: Seq<Attached>, id: Seq<char>) -> nat
    decreases conns.len(),
{
    if conns.len() == 0 || conns[0].data.id == id {
        0
    } else {
        1 + place_of_client(conns.drop_first(), id)
    }
}

/// The connections without the first one of the client `id`.
pub open spec fn without_client(conns: Seq<Attached>, id: Seq<char>) -> Seq<Attached> {
    if place_of_client(conns, id) < conns.len() {
        conns.remove(place_of_client(conns, id) as int)
    } else {
        conns
    }
}

/// The place is behind all connections of other clients that come before it.
pub proof fn lemma_place_of_client(conns: Seq<Attached>, id: Seq<char>, i: int)
    requires
        0 <= i <= conns.len(),
        forall|j: int| 0 <= j < i ==> (#[trigger] conns[j]).data.id != id,
        i < conns.len() ==> conns[i].data.id == id,
    ensures
        place_of_client(conns, id) == i,
    decreases conns.len(),
{
    if i > 0 {
        let rest = conns.drop_first();
        assert(conns[0].data.id != id);
        assert forall|j: int| 0 <= j < i - 1 implies (#[trigger] rest[j]).data.id != id by {
            assert(rest[j] == conns[j + 1]);
        }
        lemma_place_of_client(rest, id, i - 1);
    }
}

/// The content of a list of connections.
pub open spec fn attached(conns: Seq<WebsocketConnection>) -> Seq<Attached> {
    conns.map_values(|conn: WebsocketConnection| conn@)
}

/// The clients that are connected to the balancer.
pub struct WebsocketServer {
    connections: Vec<WebsocketConnection>,
}

impl View for WebsocketServer {
    type V = Seq<Attached>;

    closed spec fn view(&self) -> Seq<Attached> {
        attached(self.connections@)
    }
}

impl WebsocketServer {
    /// A server without clients.
    pub fn new() -> (r: Self)
        ensures
            r@.len() == 0,
    {
        WebsocketServer { connections: Vec::new() }
    }

    /// The connections, first come first.
    pub fn get_connections(&self) -> (r: &Vec<WebsocketConnection>)
        ensures
            attached(r@) == self@,
    {
        &self.connections
    }

    /// Lists a client whose handshake is done.
    pub fn connection_opened(&mut self, data: Arc<WebsocketData>, handle: u64)
        ensures
            final(self)@ == old(self)@.push(Attached { data: data@, handle }),
    {
        self.connections.push(WebsocketConnection { data, handle });
        assert(self@ =~= old(self)@.push(Attached { data: data@, handle }));
    }

    /// Strikes off the first connection of a client.
    pub fn connection_closed(&mut self, id: &str)
        ensures
            final(self)@ == without_client(old(self)@, id@),
    {
        let ghost before = self@;
        let mut i: usize = 0;
        while i < self.connections.len()
            invariant
                i <= self.connections@.len(),
                self@ == before,
                before == attached(self.connections@),
                before == old(self)@,
                forall|j: int| 0 <= j < i ==> (#[trigger] before[j]).data.id != id@,
            ensures
                i <= self.connections@.len(),
                self@ == before,
                before == attached(self.connections@),
                forall|j: int| 0 <= j < i ==> (#[trigger] before[j]).data.id != id@,
                i < self.connections@.len() ==> before[i as int].data.id == id@,
            decreases self.connections@.len() - i,
        {
            assert(before[i as int] == self.connections@[i as int]@);
            if crate::text::same_text(self.connections[i].data.id.as_str(), id) {
                break;
            }
            i = i + 1;
        }
        proof {
            lemma_place_of_client(before, id@, i as int);
        }
        if i < self.connections.len() {
            self.connections.remove(i);
            assert(self@ =~= before.remove(i as int));
        }
    }
}

/// Closing a client undoes opening it, if no other connection has its name.
pub proof fn law_close_undoes_open(conns: Seq<Attached>, conn: Attached)
    requires
        forall|j: int| 0 <= j < conns.len() ==> (#[trigger] conns[j]).data.id != conn.data.id,
    ensures
        without_client(conns.push(conn), conn.data.id) == conns,
{
    let after = conns.push(conn);
    let n = conns.len() as int;
    assert forall|j: int| 0 <= j < n implies (#[trigger] after[j]).data.id != conn.data.id by {
        assert(after[j] == conns[j]);
    }
    lemma_place_of_client(after, conn.data.id, n);
    assert(after.remove(n) =~= conns);
}

/// Closing a client that is not connected changes nothing; closing one that is
/// takes out a single connection, the first one of that client.
pub proof fn law_close_takes_one(conns: Seq<Attached>, id: Seq<char>)
    ensures
        place_of_client(conns, id) == conns.len() ==> without_client(conns, id) == conns,
        place_of_client(conns, id) < conns.len() ==> {
            &&& conns[place_of_client(conns, id) as int].data.id == id
            &&& without_client(conns, id).len() == conns.len() - 1
        },
        place_of_client(conns, id) <= conns.len(),
        forall|j: int|
            0 <= j < place_of_client(conns, id) ==> (#[trigger] conns[j]).data.id != id,
    decreases conns.len(),
{
    if conns.len() > 0 && conns[0].data.id != id {
        let rest = conns.drop_first();
        law_close_takes_one(rest, id);
        assert forall|j: int| 0 <= j < place_of_client(conns, id) implies (
        #[trigger] conns[j]).data.id != id by {
            if j > 0 {
                assert(rest[j - 1] == conns[j]);
            }
        }
    }
}

/// The texts of a map stand under the same keys, each as it is.
pub proof fn law_texts(m: StringMap<String>, key: Seq<char>)
    ensures
        texts(m).contains_key(key) <==> m@.contains_key(key),
        m@.contains_key(key) ==> texts(m)[key] == m@[key]@,
{
}

/// The content of a client's data is all of its fields.
pub proof fn law_client_content(data: WebsocketData)
    ensures
        data@.id == data.id@,
        data@.path == data.path@,
        data@.distribution_id == data.distribution_id@,
        data@.headers == texts(data.headers),
        data@.query_params == texts(data.query_params),
{
}

/// The content of a connection is its client and its handle, and that of a list is
/// the content of each.
pub proof fn law_connection_content(conns: Seq<WebsocketConnection>, i: int)
    requires
        0 <= i < conns.len(),
    ensures
        attached(conns).len() == conns.len(),
        attached(conns)[i].data == conns[i].data@,
        attached(conns)[i].handle == conns[i].handle,
{
}

/// The parameters of an address are those of its query; without a query there are
/// none.
pub proof fn law_params(uri: UriFields)
    ensures
        uri.query matches Some(query) ==> params_of(uri) == query_map(query),
        uri.query is None ==> params_of(uri) == Map::<Seq<char>, Seq<char>>::empty(),
{
}

/// The hexadecimal digits of a number, most significant first: behind those of `n`
/// a further digit `v` makes those of sixteen times `n` and `v`. The digits are
/// `0` to `9` and `A` to `F`.
pub proof fn law_hex_text(n: nat, v: nat, width: nat)
    requires
        v < 16,
    ensures
        hex_text(n, 0) == Seq::<char>::empty(),
        v < 10 ==> hex_text(16 * n + v, width + 1) == hex_text(n, width).push((48 + v) as char),
        v >= 10 ==> hex_text(16 * n + v, width + 1) == hex_text(n, width).push(
            (65 + v - 10) as char,
        ),
{
    let m = 16 * n + v;
    assert(m / 16 == n && m % 16 == v);
    assert((width + 1 - 1) as nat == width);
}

/// Closing a client strikes off its first connection, place by place: those before
/// it stay where they are, and those behind it move up by one.
pub proof fn law_first_connection_goes(conns: Seq<Attached>, id: Seq<char>, p: int, j: int)
    requires
        0 <= p < conns.len(),
        conns[p].data.id == id,
        forall|k: int| 0 <= k < p ==> (#[trigger] conns[k]).data.id != id,
        0 <= j < conns.len() - 1,
    ensures
        without_client(conns, id).len() == conns.len() - 1,
        j < p ==> without_client(conns, id)[j] == conns[j],
        j >= p ==> without_client(conns, id)[j] == conns[j + 1],
{
    lemma_place_of_client(conns, id, p);
}

/// Closing a client that has no connection changes nothing.
pub proof fn law_closing_a_stranger(conns: Seq<Attached>, id: Seq<char>)
    requires
        forall|k: int| 0 <= k < conns.len() ==> (#[trigger] conns[k]).data.id != id,
    ensures
        without_client(conns, id) == conns,
{
    lemma_place_of_client(conns, id, conns.len() as int);
}

} // verus!
