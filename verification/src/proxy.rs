//! The relay between clients and locations: which connections there are, what
//! passes through them, and how a distribution is moved to another location.

use std::collections::HashSet;
use std::sync::Arc;

use dashmap::DashMap;
use vstd::prelude::*;
use vstd::string::*;
use vstd::utf8::*;

use crate::connect::{ConnectionAttempt, RETRIES};
use crate::frame::MessageError;
use crate::location_manager::{Location, LocationManager, LocationManagerMessage};
use crate::message::{Frame, MessageOpCode, RawMessage};
use crate::string_map::StringMap;
use crate::text::{same_bytes, same_text};
use crate::websocket::{
    lemma_place_of_client, place_of_client, without_client, Attached, ClientData, WebsocketData,
};

verus! {

// ---------------------------------------------------------------------------
// What passes through a connection
// ---------------------------------------------------------------------------

/// Looks at the messages of a client before they go to its location.
pub trait MessageListener {
    /// The message that goes on, or `None` if it stops here.
    fn handle(&self, msg: RawMessage) -> Option<RawMessage>;
}

/// Watches for the message by which a client says that it has moved.
#[derive(Debug)]
pub struct ControlMessageListener {
    pub move_done_message: String,
}

/// Whether a frame says that its client has moved: without its masking the
/// payload is the given text.
pub open spec fn says_moved(frame: Frame, text: Seq<char>) -> bool {
    frame.unmasked().payload == encode_utf8(text)
}

/// The frame that goes on to the location. The masking has been taken off the
/// payload of a frame that had to be compared, which one of another length than
/// the text has not.
pub open spec fn passed_on(frame: Frame, text: Seq<char>) -> Frame {
    if frame.payload.len() == encode_utf8(text).len() {
        frame.unmasked()
    } else {
        frame
    }
}

impl MessageListener for ControlMessageListener {
    fn handle(&self, msg: RawMessage) -> (r: Option<RawMessage>)
        ensures
            match r {
                Some(out) => {
                    &&& !says_moved(msg@, self.move_done_message@)
                    &&& out@ == passed_on(msg@, self.move_done_message@)
                },
                None => says_moved(msg@, self.move_done_message@),
            },
    {
        let mut msg = msg;
        let text = self.move_done_message.as_str().as_bytes();
        if msg.payload.len() == text.len() {
            msg.unmask();
            if same_bytes(msg.payload.as_slice(), text) {
                return None;
            }
        }
        Some(msg)
    }
}

/// A message that does not say that its client has moved goes on as it came,
/// unless it is masked and as long as the text that says so.
pub proof fn law_other_messages_pass(frame: Frame, text: Seq<char>)
    requires
        !frame.mask || frame.payload.len() != encode_utf8(text).len(),
    ensures
        passed_on(frame, text) == frame,
{
}

/// Masked or not, the text that says that a client has moved stops here, and no
/// other payload does.
pub proof fn law_move_done_is_caught(frame: Frame, text: Seq<char>)
    ensures
        !frame.mask ==> (says_moved(frame, text) <==> frame.payload == encode_utf8(text)),
        frame.mask && frame.mask_key.len() == 4 ==> (says_moved(frame, text) <==> frame.payload
            == crate::message::masked(encode_utf8(text), frame.mask_key)),
{
    if frame.mask && frame.mask_key.len() == 4 {
        let bytes = encode_utf8(text);
        let plain = Frame { payload: bytes, ..frame };
        crate::message::law_unmask_is_an_involution(frame);
        crate::message::law_unmask_is_an_involution(plain);
    }
}

/// What to do about a message for a location.
#[derive(Debug)]
pub enum SendStep {
    /// Write the message to the socket of the location.
    Write(RawMessage),
    /// Write nothing; wait for the next message.
    Skip,
    /// There will be no more messages: the relay is over.
    Stop,
}

/// What to do about a message from a location.
#[derive(Debug)]
pub enum ReceiveStep {
    /// Hand the message to the client.
    Forward(RawMessage),
    /// The relay is over.
    Stop,
    /// The relay is over because the socket failed.
    Fail(String),
}

/// One end of a relay, and the handle by which its connection is known.
pub struct WsConnection {
    pub data: Arc<WebsocketData>,
    pub handle: u64,
}

impl View for WsConnection {
    type V = Attached;

    open spec fn view(&self) -> Attached {
        Attached { data: self.data@, handle: self.handle }
    }
}

impl WsConnection {
    /// How the connection is shown to the operator: by its client.
    pub fn debug_text(&self) -> (r: String)
        ensures
            r@ == "WsConnection { data: "@ + self@.data.shown() + " }"@,
    {
        "WsConnection { data: ".to_owned().concat(self.data.debug_text().as_str()).concat(" }")
    }

    /// Decides about what came from the client: a message, or `None` at the end.
    /// What the listener makes of a message is written.
    pub fn send_step<T: MessageListener>(received: Option<RawMessage>, listener: &T) -> (r: SendStep)
        ensures
            match received {
                Some(msg) => exists|out: Option<RawMessage>| #[trigger]
                    call_ensures(T::handle, (listener, msg), out) && r == match out {
                        Some(out) => SendStep::Write(out),
                        None => SendStep::Skip,
                    },
                None => r is Stop,
            },
    {
        match received {
            Some(msg) => match listener.handle(msg) {
                Some(out) => SendStep::Write(out),
                None => SendStep::Skip,
            },
            None => SendStep::Stop,
        }
    }

    /// Decides about what came from the location.
    pub fn receive_step(received: Result<RawMessage, MessageError>) -> (r: ReceiveStep)
        ensures
            r == match received {
                Ok(msg) => ReceiveStep::Forward(msg),
                Err(MessageError::Socket(text)) => ReceiveStep::Fail(text),
                Err(_) => ReceiveStep::Stop,
            },
    {
        match received {
            Ok(msg) => ReceiveStep::Forward(msg),
            Err(MessageError::Socket(text)) => ReceiveStep::Fail(text),
            Err(_) => ReceiveStep::Stop,
        }
    }
}

/// How many bytes a value takes, apart from what it points to.
pub fn get_size<T>(_value: &T) -> (r: usize)
    ensures
        r as nat == vstd::layout::size_of::<T>(),
{
    std::mem::size_of::<T>()
}

// ---------------------------------------------------------------------------
// The table of connections
// ---------------------------------------------------------------------------

/// The content of a list of connections.
pub open spec fn seats(conns: Seq<WsConnection>) -> Seq<Attached> {
    conns.map_values(|conn: WsConnection| conn@)
}

/// The connections of each distribution.
#[verifier::external_body]
pub struct ConnectionTable {
    lists: DashMap<String, Vec<WsConnection>>,
}

/// The lists of connections that a table holds.
pub uninterp spec fn lists(table: ConnectionTable) -> Map<Seq<char>, Seq<Attached>>;

impl ConnectionTable {
    /// `DashMap::new`: a table without lists.
    #[verifier::external_body]
    fn new() -> (r: ConnectionTable)
        ensures
            (lists(r) == Map::<Seq<char>, Seq<Attached>>::empty()),
    {
        ConnectionTable { lists: DashMap::new() }
    }

    /// `DashMap::remove`: takes the entry of a key out, and hands its value over.
    #[verifier::external_body]
    fn take(&mut self, key: &str) -> (r: Option<Vec<WsConnection>>)
        ensures
            lists(*final(self)) == lists(*old(self)).remove(key@),
            match r {
                Some(conns) => lists(*old(self)).contains_key(key@) && seats(conns@) == lists(
                    *old(self),
                )[key@],
                None => !lists(*old(self)).contains_key(key@),
            },
    {
        self.lists.remove(key).map(|entry| entry.1)
    }

    /// `DashMap::insert`: sets the value under a key, and hands the earlier one
    /// over.
    #[verifier::external_body]
    fn put(&mut self, key: String, conns: Vec<WsConnection>) -> (r: Option<Vec<WsConnection>>)
        ensures
            lists(*final(self)) == lists(*old(self)).insert(key@, seats(conns@)),
            match r {
                Some(conns) => lists(*old(self)).contains_key(key@) && seats(conns@) == lists(
                    *old(self),
                )[key@],
                None => !lists(*old(self)).contains_key(key@),
            },
    {
        self.lists.insert(key, conns)
    }
}

// ---------------------------------------------------------------------------
// The state of the relay
// ---------------------------------------------------------------------------

/// The move of a distribution that is under way.
pub struct PendingMove {
    /// The connections that the clients have to leave.
    pub old_connections: Vec<WsConnection>,
    /// How many clients have not said yet that they have moved.
    pub pending_count: u32,
    /// The handle of the timer that ends the move.
    pub timeout_abort: u64,
}

/// The mathematical content of a `PendingMove`.
pub struct Move {
    pub old: Seq<Attached>,
    pub left: u32,
    pub timer: u64,
}

impl View for PendingMove {
    type V = Move;

    open spec fn view(&self) -> Move {
        Move {
            old: seats(self.old_connections@),
            left: self.pending_count,
            timer: self.timeout_abort,
        }
    }
}

/// The mathematical content of a `ProxyServer`.
pub struct ServerState {
    /// The connections of each distribution, first come first.
    pub lists: Map<Seq<char>, Seq<Attached>>,
    /// The moves that are under way, by distribution.
    pub pending: Map<Seq<char>, Move>,
    /// The connections that were taken off their lists by a move and are open
    /// still, by handle.
    pub moving: Set<u64>,
    /// The next handle that is given out.
    pub next_handle: u64,
    /// What clients are told when a move begins.
    pub start: Seq<char>,
    /// What clients say when they have moved.
    pub done: Seq<char>,
    /// What clients are told when a move has ended.
    pub end: Seq<char>,
}

/// Tells the connections of a distribution.
pub open spec fn of_distribution(d: Seq<char>) -> spec_fn(Attached) -> bool {
    |conn: Attached| conn.data.distribution_id == d
}

/// Tells the connections of all other distributions.
pub open spec fn of_others(d: Seq<char>) -> spec_fn(Attached) -> bool {
    |conn: Attached| conn.data.distribution_id != d
}

/// The handles of a list of connections.
pub open spec fn handles(conns: Seq<Attached>) -> Set<u64> {
    Set::new(|h: u64| exists|i: int| 0 <= i < conns.len() && (#[trigger] conns[i]).handle == h)
}

impl Move {
    /// The old connections are those of the distribution, and no more clients
    /// are waited for than there are old connections.
    pub open spec fn wf(self, d: Seq<char>) -> bool {
        &&& forall|i: int|
            0 <= i < self.old.len() ==> (#[trigger] self.old[i]).data.distribution_id == d
        &&& self.left <= self.old.len()
    }
}

impl ServerState {
    /// No two listed connections have the same handle, none that is moving is
    /// listed, and neither is any of the old connections of a move. No handle in
    /// use is one that is still to be given out.
    pub open spec fn wf(self) -> bool {
        &&& forall|d: Seq<char>, i: int|
            self.lists.contains_key(d) && 0 <= i < self.lists[d].len() ==> {
                &&& (#[trigger] self.lists[d][i]).handle < self.next_handle
                &&& !self.moving.contains(self.lists[d][i].handle)
            }
        &&& forall|d: Seq<char>, i: int, e: Seq<char>, j: int|
            self.lists.contains_key(d) && 0 <= i < self.lists[d].len() && self.lists.contains_key(e)
                && 0 <= j < self.lists[e].len() && (#[trigger] self.lists[d][i]).handle == (
            #[trigger] self.lists[e][j]).handle ==> d == e && i == j
        &&& forall|h: u64| #[trigger] self.moving.contains(h) ==> h < self.next_handle
        &&& forall|d: Seq<char>| #[trigger]
            self.pending.contains_key(d) ==> self.pending[d].wf(d)
        &&& forall|d: Seq<char>, i: int|
            self.pending.contains_key(d) && 0 <= i < self.pending[d].old.len() ==> (
            #[trigger] self.pending[d].old[i]).handle < self.next_handle
        &&& forall|d: Seq<char>, i: int, e: Seq<char>, j: int|
            self.pending.contains_key(d) && 0 <= i < self.pending[d].old.len()
                && self.lists.contains_key(e) && 0 <= j < self.lists[e].len() ==> (
            #[trigger] self.pending[d].old[i]).handle != (#[trigger] self.lists[e][j]).handle
    }

    /// The connections of a distribution.
    pub open spec fn listed(self, d: Seq<char>) -> Seq<Attached> {
        if self.lists.contains_key(d) {
            self.lists[d]
        } else {
            Seq::empty()
        }
    }

    /// The state after a connection has been opened: it is the last one of its
    /// distribution.
    pub open spec fn after_open(self, data: ClientData) -> ServerState {
        let conn = Attached { data, handle: self.next_handle };
        let d = data.distribution_id;
        ServerState {
            lists: self.lists.insert(d, self.listed(d).push(conn)),
            next_handle: (self.next_handle + 1) as u64,
            ..self
        }
    }

    /// The state after a connection has been closed. One that was moving is off
    /// its list already; else the first connection of the client goes, and the
    /// list with it if nothing is left.
    pub open spec fn after_close(self, data: ClientData, handle: u64) -> ServerState {
        let d = data.distribution_id;
        if self.moving.contains(handle) {
            ServerState { moving: self.moving.remove(handle), ..self }
        } else if self.lists.contains_key(d) {
            let rest = without_client(self.lists[d], data.id);
            ServerState {
                lists: if rest.len() == 0 {
                    self.lists.remove(d)
                } else {
                    self.lists.insert(d, rest)
                },
                ..self
            }
        } else {
            self
        }
    }

    /// Whether a distribution can be moved: it has a list of connections, and no
    /// move of it is under way.
    pub open spec fn can_move(self, d: Seq<char>) -> bool {
        !self.pending.contains_key(d) && self.lists.contains_key(d)
    }

    /// The connections that a move takes off the list.
    pub open spec fn going(self, d: Seq<char>) -> Seq<Attached> {
        self.listed(d).filter(of_distribution(d))
    }

    /// The connections that a move leaves on the list.
    pub open spec fn staying(self, d: Seq<char>) -> Seq<Attached> {
        self.listed(d).filter(of_others(d))
    }

    /// The state after a move has begun, if it can.
    pub open spec fn after_move(self, d: Seq<char>) -> ServerState {
        if self.can_move(d) {
            ServerState {
                lists: self.lists.insert(d, self.staying(d)),
                pending: self.pending.insert(
                    d,
                    Move {
                        old: self.going(d),
                        left: self.going(d).len() as u32,
                        timer: self.next_handle,
                    },
                ),
                moving: self.moving.union(handles(self.going(d))),
                next_handle: (self.next_handle + 1) as u64,
                ..self
            }
        } else {
            self
        }
    }

    /// The state after a client has said that it has moved.
    pub open spec fn after_done(self, d: Seq<char>) -> ServerState {
        if self.pending.contains_key(d) {
            let pm = self.pending[d];
            ServerState {
                pending: self.pending.insert(d, Move { left: (pm.left - 1) as u32, ..pm }),
                ..self
            }
        } else {
            self
        }
    }

    /// The state after the list of a distribution has been taken out.
    pub open spec fn after_take(self, d: Seq<char>) -> ServerState {
        ServerState { lists: self.lists.remove(d), ..self }
    }

    /// Whether connections can be listed under a distribution, in place of what
    /// is listed there: their handles were given out, each to one of them, and no
    /// other list and no move holds them.
    pub open spec fn can_list(self, d: Seq<char>, conns: Seq<Attached>) -> bool {
        &&& forall|i: int|
            0 <= i < conns.len() ==> (#[trigger] conns[i]).handle < self.next_handle
                && !self.moving.contains(conns[i].handle)
        &&& forall|i: int, j: int|
            0 <= i < conns.len() && 0 <= j < conns.len() && (#[trigger] conns[i]).handle == (
            #[trigger] conns[j]).handle ==> i == j
        &&& forall|i: int, e: Seq<char>, j: int|
            0 <= i < conns.len() && e != d && self.lists.contains_key(e) && 0 <= j
                < self.lists[e].len() ==> (#[trigger] conns[i]).handle != (
            #[trigger] self.lists[e][j]).handle
        &&& forall|i: int, e: Seq<char>, j: int|
            0 <= i < conns.len() && self.pending.contains_key(e) && 0 <= j
                < self.pending[e].old.len() ==> (#[trigger] conns[i]).handle != (
            #[trigger] self.pending[e].old[j]).handle
    }

    /// The state after connections have been listed under a distribution.
    pub open spec fn after_put(self, d: Seq<char>, conns: Seq<Attached>) -> ServerState {
        ServerState { lists: self.lists.insert(d, conns), ..self }
    }

    /// The state after a move has ended.
    pub open spec fn after_finish(self, d: Seq<char>) -> ServerState {
        ServerState { pending: self.pending.remove(d), ..self }
    }
}

proof fn lemma_filter_next(conns: Seq<Attached>, k: int, keep: spec_fn(Attached) -> bool)
    requires
        0 <= k < conns.len(),
    ensures
        conns.take(k + 1).filter(keep) == if keep(conns[k]) {
            conns.take(k).filter(keep).push(conns[k])
        } else {
            conns.take(k).filter(keep)
        },
{
    reveal(Seq::filter);
    assert(conns.take(k + 1).drop_last() =~= conns.take(k));
    assert(conns.take(k + 1).last() == conns[k]);
}

proof fn lemma_filter_all(conns: Seq<Attached>, d: Seq<char>)
    requires
        forall|i: int| 0 <= i < conns.len() ==> (#[trigger] conns[i]).data.distribution_id == d,
    ensures
        conns.filter(of_distribution(d)) == conns,
        conns.filter(of_others(d)) == Seq::<Attached>::empty(),
    decreases conns.len(),
{
    reveal(Seq::filter);
    if conns.len() > 0 {
        let rest = conns.drop_last();
        assert forall|i: int| 0 <= i < rest.len() implies (
        #[trigger] rest[i]).data.distribution_id == d by {
            assert(rest[i] == conns[i]);
        }
        lemma_filter_all(rest, d);
        assert(conns.last() == conns[conns.len() - 1]);
        assert(rest.push(conns.last()) =~= conns);
    }
}

proof fn lemma_handles_push(conns: Seq<Attached>, conn: Attached)
    ensures
        handles(conns.push(conn)) == handles(conns).insert(conn.handle),
{
    let after = conns.push(conn);
    assert forall|h: u64| handles(after).contains(h) == handles(conns).insert(conn.handle).contains(
        h,
    ) by {
        if handles(conns).contains(h) {
            let i = choose|i: int| 0 <= i < conns.len() && (#[trigger] conns[i]).handle == h;
            assert(after[i].handle == h);
        }
        if h == conn.handle {
            assert(after[conns.len() as int].handle == h);
        }
        if handles(after).contains(h) {
            let i = choose|i: int| 0 <= i < after.len() && (#[trigger] after[i]).handle == h;
            if i < conns.len() {
                assert(conns[i].handle == h);
            }
        }
    }
    assert(handles(after) =~= handles(conns).insert(conn.handle));
}

proof fn lemma_open_keeps_wf(state: ServerState, data: ClientData)
    requires
        state.wf(),
        state.next_handle < u64::MAX,
    ensures
        state.after_open(data).wf(),
{
    let after = state.after_open(data);
    let home = data.distribution_id;
    let n = state.listed(home).len() as int;
    assert forall|d: Seq<char>, i: int|
        after.lists.contains_key(d) && 0 <= i < after.lists[d].len() && !(d == home && i == n) implies (
    #[trigger] after.lists[d][i]) == state.lists[d][i] && state.lists.contains_key(d) && i
        < state.lists[d].len() by {}
    assert(after.lists[home][n] == (Attached { data, handle: state.next_handle }));
}

proof fn lemma_close_keeps_wf(state: ServerState, data: ClientData, handle: u64)
    requires
        state.wf(),
    ensures
        state.after_close(data, handle).wf(),
{
    let after = state.after_close(data, handle);
    let home = data.distribution_id;
    if !state.moving.contains(handle) && state.lists.contains_key(home) {
        let p = place_of_client(state.lists[home], data.id) as int;
        let taken = p < state.lists[home].len();
        let was = |d: Seq<char>, i: int|
            if d == home && taken && i >= p {
                i + 1
            } else {
                i
            };
        assert forall|d: Seq<char>, i: int|
            after.lists.contains_key(d) && 0 <= i < after.lists[d].len() implies (
        #[trigger] after.lists[d][i]) == state.lists[d][was(d, i)] && state.lists.contains_key(d)
            && 0 <= was(d, i) < state.lists[d].len() by {}
    }
}

/// Where the connections that a filter keeps come from.
proof fn lemma_filter_places(conns: Seq<Attached>, keep: spec_fn(Attached) -> bool) -> (places: Seq<
    int,
>)
    ensures
        places.len() == conns.filter(keep).len(),
        places.len() <= conns.len(),
        forall|i: int|
            0 <= i < places.len() ==> 0 <= #[trigger] places[i] < conns.len() && keep(
                conns[places[i]],
            ) && conns.filter(keep)[i] == conns[places[i]],
        forall|i: int, j: int| 0 <= i < j < places.len() ==> places[i] < places[j],
    decreases conns.len(),
{
    reveal(Seq::filter);
    if conns.len() == 0 {
        Seq::empty()
    } else {
        let rest = conns.drop_last();
        let n = conns.len() - 1;
        let earlier = lemma_filter_places(rest, keep);
        assert forall|i: int| 0 <= i < earlier.len() implies rest[#[trigger] earlier[i]]
            == conns[earlier[i]] by {}
        if keep(conns[n]) {
            let places = earlier.push(n);
            assert(conns.filter(keep) == rest.filter(keep).push(conns[n]));
            assert forall|i: int| 0 <= i < places.len() implies 0 <= #[trigger] places[i]
                < conns.len() && keep(conns[places[i]]) && conns.filter(keep)[i]
                == conns[places[i]] by {
                if i < n && i < earlier.len() {
                    assert(places[i] == earlier[i]);
                }
            }
            places
        } else {
            earlier
        }
    }
}

/// A filter keeps every connection that it tells.
proof fn lemma_filter_keeps(conns: Seq<Attached>, keep: spec_fn(Attached) -> bool, i: int)
    requires
        0 <= i < conns.len(),
        keep(conns[i]),
    ensures
        conns.filter(keep).contains(conns[i]),
    decreases conns.len(),
{
    reveal(Seq::filter);
    let rest = conns.drop_last();
    if i < conns.len() - 1 {
        assert(rest[i] == conns[i]);
        lemma_filter_keeps(rest, keep, i);
        let j = choose|j: int| 0 <= j < rest.filter(keep).len() && rest.filter(keep)[j] == conns[i];
        assert(conns.filter(keep)[j] == conns[i]);
    } else {
        let n = rest.filter(keep).len() as int;
        assert(conns.filter(keep)[n] == conns[i]);
    }
}

/// What a move takes and what it leaves are together as many as were listed.
proof fn lemma_parted_lengths(conns: Seq<Attached>, d: Seq<char>)
    ensures
        conns.filter(of_distribution(d)).len() + conns.filter(of_others(d)).len() == conns.len(),
    decreases conns.len(),
{
    reveal(Seq::filter);
    if conns.len() > 0 {
        lemma_parted_lengths(conns.drop_last(), d);
    }
}

proof fn lemma_move_keeps_wf(state: ServerState, d: Seq<char>)
    requires
        state.wf(),
        state.can_move(d),
        state.next_handle < u64::MAX,
        state.lists[d].len() <= u64::MAX,
    ensures
        state.after_move(d).wf(),
{
    let after = state.after_move(d);
    let conns = state.lists[d];
    let going = state.going(d);
    let gp = lemma_filter_places(conns, of_distribution(d));
    let sp = lemma_filter_places(conns, of_others(d));
    lemma_truncated(going.len());
    let was = |e: Seq<char>, i: int|
        if e == d {
            sp[i]
        } else {
            i
        };
    assert forall|e: Seq<char>, i: int|
        after.lists.contains_key(e) && 0 <= i < after.lists[e].len() implies (
    #[trigger] after.lists[e][i]) == state.lists[e][was(e, i)] && state.lists.contains_key(e) && 0
        <= was(e, i) < state.lists[e].len() by {}
    assert forall|i: int| 0 <= i < going.len() implies (#[trigger] going[i]).handle
        < state.next_handle by {
        assert(going[i] == state.lists[d][gp[i]]);
    }
    assert forall|i: int, e: Seq<char>, j: int|
        0 <= i < going.len() && after.lists.contains_key(e) && 0 <= j
            < after.lists[e].len() implies (#[trigger] going[i]).handle != (
    #[trigger] after.lists[e][j]).handle by {
        assert(going[i] == state.lists[d][gp[i]]);
        assert(after.lists[e][j] == state.lists[e][was(e, j)]);
        if going[i].handle == after.lists[e][j].handle {
            assert(e == d && gp[i] == sp[j]);
            assert(of_distribution(d)(conns[gp[i]]));
            assert(of_others(d)(conns[sp[j]]));
        }
    }
    assert forall|e: Seq<char>, i: int|
        after.lists.contains_key(e) && 0 <= i < after.lists[e].len() implies !after.moving.contains(
        (#[trigger] after.lists[e][i]).handle,
    ) by {
        let h = after.lists[e][i].handle;
        if handles(going).contains(h) {
            let j = choose|j: int| 0 <= j < going.len() && (#[trigger] going[j]).handle == h;
            assert(going[j].handle != after.lists[e][i].handle);
        }
    }
    assert forall|e: Seq<char>, i: int, f: Seq<char>, j: int|
        after.lists.contains_key(e) && 0 <= i < after.lists[e].len() && after.lists.contains_key(f)
            && 0 <= j < after.lists[f].len() && (#[trigger] after.lists[e][i]).handle == (
        #[trigger] after.lists[f][j]).handle implies e == f && i == j by {
        assert(state.lists[e][was(e, i)].handle == state.lists[f][was(f, j)].handle);
    }
    assert forall|h: u64| #[trigger] after.moving.contains(h) implies h < after.next_handle by {
        if handles(going).contains(h) {
            let j = choose|j: int| 0 <= j < going.len() && (#[trigger] going[j]).handle == h;
            assert(going[j].handle < state.next_handle);
        }
    }
    assert(after.pending[d].wf(d)) by {
        assert forall|i: int| 0 <= i < going.len() implies (
        #[trigger] going[i]).data.distribution_id == d by {
            assert(of_distribution(d)(conns[gp[i]]));
        }
    }
    assert forall|e: Seq<char>, i: int|
        after.pending.contains_key(e) && 0 <= i < after.pending[e].old.len() implies (
    #[trigger] after.pending[e].old[i]).handle < after.next_handle by {
        if e != d {
            assert(after.pending[e].old[i] == state.pending[e].old[i]);
        }
    }
    assert forall|e: Seq<char>, i: int, f: Seq<char>, j: int|
        after.pending.contains_key(e) && 0 <= i < after.pending[e].old.len()
            && after.lists.contains_key(f) && 0 <= j < after.lists[f].len() implies (
    #[trigger] after.pending[e].old[i]).handle != (#[trigger] after.lists[f][j]).handle by {
        if e != d {
            assert(after.pending[e].old[i] == state.pending[e].old[i]);
            assert(after.lists[f][j] == state.lists[f][was(f, j)]);
        } else {
            assert(after.pending[e].old[i] == going[i]);
        }
    }
}

proof fn lemma_put_keeps_wf(state: ServerState, d: Seq<char>, conns: Seq<Attached>)
    requires
        state.wf(),
        state.can_list(d, conns),
    ensures
        state.after_put(d, conns).wf(),
{
    let after = state.after_put(d, conns);
    assert forall|e: Seq<char>, i: int|
        after.lists.contains_key(e) && 0 <= i < after.lists[e].len() implies (
    #[trigger] after.lists[e][i]) == if e == d {
        conns[i]
    } else {
        state.lists[e][i]
    } by {}
}

proof fn lemma_take_keeps_wf(state: ServerState, d: Seq<char>)
    requires
        state.wf(),
    ensures
        state.after_take(d).wf(),
        state.after_take(d).can_list(d, state.listed(d)),
{
    let after = state.after_take(d);
    assert forall|e: Seq<char>, i: int|
        after.lists.contains_key(e) && 0 <= i < after.lists[e].len() implies (
    #[trigger] after.lists[e][i]) == state.lists[e][i] && state.lists.contains_key(e) by {}
    let conns = state.listed(d);
    assert forall|i: int| 0 <= i < conns.len() implies (#[trigger] conns[i])
        == state.lists[d][i] by {}
}

proof fn lemma_finish_keeps_wf(state: ServerState, d: Seq<char>)
    requires
        state.wf(),
    ensures
        state.after_finish(d).wf(),
{
    let after = state.after_finish(d);
    assert forall|e: Seq<char>| #[trigger] after.pending.contains_key(e) implies after.pending[e].wf(
        e,
    ) by {
        assert(state.pending.contains_key(e));
    }
    assert(after.lists == state.lists);
}

/// Cutting a number down to 32 bits makes it no larger.
proof fn lemma_truncated(n: nat)
    requires
        n <= u64::MAX,
    ensures
        (n as u32) <= n,
        n <= u32::MAX ==> (n as u32) == n,
{
    let m = n as u64;
    assert((m as u32) <= m) by (bit_vector);
}

/// The answer to the wish to move a distribution.
#[derive(Debug)]
pub enum MoveStart {
    /// A move of the distribution is under way already.
    AlreadyPending,
    /// The distribution does not exist: all its connections were closed.
    NoConnections,
    /// The move has begun. Its clients have to be told, through the connections
    /// with the given handles, and a timer has to be set under its own handle.
    Started { targets: Vec<u64>, timer: u64 },
}

/// How long a move may take, in seconds.
pub const MOVE_SECONDS: u64 = 20;

/// How long the old connections stay open after the end of a move, in seconds,
/// so that their clients have time to leave.
pub const LEAVE_SECONDS: u64 = 1;

/// The handles of a list of connections, in its order.
pub open spec fn handle_list(conns: Seq<Attached>) -> Seq<u64> {
    conns.map_values(|conn: Attached| conn.handle)
}

/// The relay between clients and locations. `L` is how the caller reaches the
/// location manager, which it may share with others.
pub struct ProxyServer<L> {
    location_manager: L,
    distribution: ConnectionTable,
    pending_moves: StringMap<PendingMove>,
    moving: HashSet<u64>,
    next_handle: u64,
    move_start_message: String,
    move_done_message: String,
    move_end_message: String,
}

impl<L> View for ProxyServer<L> {
    type V = ServerState;

    closed spec fn view(&self) -> ServerState {
        ServerState {
            lists: lists(self.distribution),
            pending: self.pending_moves@.map_values(|pm: PendingMove| pm@),
            moving: self.moving@,
            next_handle: self.next_handle,
            start: self.move_start_message@,
            done: self.move_done_message@,
            end: self.move_end_message@,
        }
    }
}

fn handles_of(conns: &Vec<WsConnection>) -> (r: Vec<u64>)
    ensures
        r@ == handle_list(seats(conns@)),
        r@.len() == conns@.len(),
        forall|i: int| 0 <= i < conns@.len() ==> r@[i] == (#[trigger] conns@[i]).handle,
{
    let mut r: Vec<u64> = Vec::new();
    let mut i: usize = 0;
    while i < conns.len()
        invariant
            i <= conns@.len(),
            r@.len() == i,
            forall|j: int| 0 <= j < i ==> r@[j] == (#[trigger] conns@[j]).handle,
        decreases conns@.len() - i,
    {
        r.push(conns[i].handle);
        i = i + 1;
    }
    assert(r@ =~= handle_list(seats(conns@)));
    r
}

fn text_frame(text: &String) -> (r: RawMessage)
    ensures
        r@ == Frame::text(encode_utf8(text@)),
        r.fin,
        r.opcode == MessageOpCode::TextFrame,
        !r.mask,
        r.payload@ == encode_utf8(text@),
{
    let mut payload: Vec<u8> = Vec::new();
    payload.extend_from_slice(text.as_str().as_bytes());
    assert(payload@ =~= encode_utf8(text@));
    RawMessage::text_message(payload)
}

impl<L> ProxyServer<L> {
    /// How the location manager is reached.
    pub closed spec fn manager(&self) -> L {
        self.location_manager
    }

    /// How the location manager is reached.
    pub fn location_manager(&self) -> (r: &L)
        ensures
            *r == self.manager(),
    {
        &self.location_manager
    }

    /// The table of moves has no key twice.
    pub closed spec fn table_wf(&self) -> bool {
        self.pending_moves.wf()
    }

    /// What every operation keeps.
    pub open spec fn wf(&self) -> bool {
        self.table_wf() && self@.wf()
    }

    /// Whether there are handles left to give out.
    pub fn has_handles(&self) -> (r: bool)
        ensures
            r == (self@.next_handle < u64::MAX),
    {
        self.next_handle < u64::MAX
    }

    /// The listener for the messages of a client.
    pub fn listener(&self) -> (r: ControlMessageListener)
        ensures
            r.move_done_message@ == self@.done,
    {
        ControlMessageListener { move_done_message: self.move_done_message.clone() }
    }

    /// What clients are told when a move begins.
    pub fn move_start_frame(&self) -> (r: RawMessage)
        ensures
            r@ == Frame::text(encode_utf8(self@.start)),
            r.fin,
            r.opcode == MessageOpCode::TextFrame,
            !r.mask,
            r.payload@ == encode_utf8(self@.start),
    {
        text_frame(&self.move_start_message)
    }

    /// What clients are told when a move has ended.
    pub fn move_end_frame(&self) -> (r: RawMessage)
        ensures
            r@ == Frame::text(encode_utf8(self@.end)),
            r.fin,
            r.opcode == MessageOpCode::TextFrame,
            !r.mask,
            r.payload@ == encode_utf8(self@.end),
    {
        text_frame(&self.move_end_message)
    }

    /// Lists a connection between a client and a location, and gives it a handle.
    pub fn connection_opened(&mut self, data: Arc<WebsocketData>) -> (r: u64)
        requires
            old(self).wf(),
            old(self)@.next_handle < u64::MAX,
        ensures
            final(self).wf(),
            final(self).manager() == old(self).manager(),
            final(self)@ == old(self)@.after_open(data@),
            r == old(self)@.next_handle,
    {
        let ghost before = self@;
        let handle: u64 = self.next_handle;
        self.next_handle = handle + 1;
        let d = data.distribution_id.clone();
        let mut conns: Vec<WsConnection> = match self.distribution.take(d.as_str()) {
            Some(conns) => conns,
            None => Vec::new(),
        };
        assert(seats(conns@) =~= before.listed(d@));
        conns.push(WsConnection { data, handle });
        assert(seats(conns@) =~= before.listed(d@).push(Attached { data: data@, handle }));
        self.distribution.put(d, conns);
        proof {
            assert(self@.lists =~= before.after_open(data@).lists);
            lemma_open_keeps_wf(before, data@);
        }
        handle
    }

    /// Takes the list of a distribution out and hands it over.
    pub fn take_list(&mut self, distribution_id: &str) -> (r: Option<Vec<WsConnection>>)
        requires
            old(self).wf(),
        ensures
            final(self).wf(),
            final(self).manager() == old(self).manager(),
            final(self)@ == old(self)@.after_take(distribution_id@),
            match r {
                Some(conns) => {
                    &&& old(self)@.lists.contains_key(distribution_id@)
                    &&& seats(conns@) == old(self)@.lists[distribution_id@]
                },
                None => !old(self)@.lists.contains_key(distribution_id@),
            },
    {
        proof {
            lemma_take_keeps_wf(self@, distribution_id@);
        }
        self.distribution.take(distribution_id)
    }

    /// Lists connections under a distribution, whichever they belong to, and
    /// hands over what was listed there.
    pub fn put_list(&mut self, distribution_id: String, conns: Vec<WsConnection>) -> (r: Option<
        Vec<WsConnection>,
    >)
        requires
            old(self).wf(),
            old(self)@.can_list(distribution_id@, seats(conns@)),
        ensures
            final(self).wf(),
            final(self).manager() == old(self).manager(),
            final(self)@ == old(self)@.after_put(distribution_id@, seats(conns@)),
            match r {
                Some(earlier) => {
                    &&& old(self)@.lists.contains_key(distribution_id@)
                    &&& seats(earlier@) == old(self)@.lists[distribution_id@]
                },
                None => !old(self)@.lists.contains_key(distribution_id@),
            },
    {
        proof {
            lemma_put_keeps_wf(self@, distribution_id@, seats(conns@));
        }
        self.distribution.put(distribution_id, conns)
    }

    /// Strikes off a connection that has ended, and counts it off its location.
    pub fn connection_closed(
        &mut self,
        locations: &mut LocationManager,
        location: u64,
        data: &WebsocketData,
        handle: u64,
    )
        requires
            old(self).wf(),
            old(locations)@.wf(),
        ensures
            final(self).wf(),
            final(self).manager() == old(self).manager(),
            final(self)@ == old(self)@.after_close(data@, handle),
            final(locations)@.wf(),
            final(locations)@ == old(locations)@.after_close(location),
    {
        broadcast use vstd::std_specs::hash::group_hash_axioms;

        let ghost before = self@;
        locations.connection_closed(location);
        if self.moving.contains(&handle) {
            self.moving.remove(&handle);
        } else {
            match self.distribution.take(data.distribution_id.as_str()) {
                Some(conns) => {
                    let mut conns = conns;
                    strike_off(&mut conns, data.id.as_str());
                    if conns.len() > 0 {
                        self.distribution.put(data.distribution_id.clone(), conns);
                    }
                    proof {
                        assert(self@.lists =~= before.after_close(data@, handle).lists);
                    }
                },
                None => {
                    assert(self@.lists =~= before.lists);
                },
            }
        }
        proof {
            lemma_close_keeps_wf(before, data@, handle);
        }
    }
}

/// Takes the first connection of a client out of a list.
fn strike_off(conns: &mut Vec<WsConnection>, id: &str)
    ensures
        seats(final(conns)@) == without_client(seats(old(conns)@), id@),
{
    let ghost before = seats(conns@);
    let mut i: usize = 0;
    while i < conns.len()
        invariant
            i <= conns@.len(),
            seats(conns@) == before,
            forall|j: int| 0 <= j < i ==> (#[trigger] before[j]).data.id != id@,
        ensures
            i <= conns@.len(),
            seats(conns@) == before,
            forall|j: int| 0 <= j < i ==> (#[trigger] before[j]).data.id != id@,
            i < conns@.len() ==> before[i as int].data.id == id@,
        decreases conns@.len() - i,
    {
        assert(before[i as int] == conns@[i as int]@);
        if same_text(conns[i].data.id.as_str(), id) {
            break;
        }
        i = i + 1;
    }
    proof {
        lemma_place_of_client(before, id@, i as int);
    }
    if i < conns.len() {
        conns.remove(i);
        assert(seats(conns@) =~= before.remove(i as int));
    }
}

/// Parts a list into the connections of a distribution, which are handed back,
/// and the others, which stay.
fn part_with(conns: &mut Vec<WsConnection>, d: &str) -> (r: Vec<WsConnection>)
    ensures
        seats(r@) == seats(old(conns)@).filter(of_distribution(d@)),
        seats(final(conns)@) == seats(old(conns)@).filter(of_others(d@)),
{
    let ghost all = seats(conns@);
    let ghost mut k: int = 0;
    let mut gone: Vec<WsConnection> = Vec::new();
    let mut i: usize = 0;
    proof {
        reveal(Seq::filter);
        assert(all.take(0) =~= Seq::empty());
        assert(seats(gone@) =~= all.take(0).filter(of_distribution(d@)));
        assert(seats(conns@) =~= all.take(0).filter(of_others(d@)) + all.skip(0));
    }
    while i < conns.len()
        invariant
            0 <= k <= all.len(),
            i == all.take(k).filter(of_others(d@)).len(),
            seats(gone@) == all.take(k).filter(of_distribution(d@)),
            seats(conns@) == all.take(k).filter(of_others(d@)) + all.skip(k),
        decreases conns@.len() - i,
    {
        let ghost listed = seats(conns@);
        let ghost kept = all.take(k).filter(of_others(d@));
        assert(listed.len() == kept.len() + all.skip(k).len());
        assert(all.skip(k)[0] == all[k]);
        assert(listed[i as int] == all[k]);
        assert(conns@[i as int]@ == listed[i as int]);
        proof {
            lemma_filter_next(all, k, of_distribution(d@));
            lemma_filter_next(all, k, of_others(d@));
        }
        if same_text(conns[i].data.distribution_id.as_str(), d) {
            let conn = conns.remove(i);
            assert(seats(conns@) =~= listed.remove(i as int));
            assert(listed.remove(i as int) =~= kept + all.skip(k + 1));
            let ghost so_far = seats(gone@);
            gone.push(conn);
            assert(seats(gone@) =~= so_far.push(all[k]));
        } else {
            assert(kept + all.skip(k) =~= kept.push(all[k]) + all.skip(k + 1));
            i = i + 1;
        }
        proof {
            k = k + 1;
        }
    }
    proof {
        assert(seats(conns@).len() == all.take(k).filter(of_others(d@)).len());
        assert(k == all.len());
        assert(all.take(k) =~= all);
        assert(all.take(k).filter(of_others(d@)) + all.skip(k) =~= all.filter(of_others(d@)));
    }
    gone
}

proof fn lemma_pending_insert(pending: Map<Seq<char>, PendingMove>, d: Seq<char>, pm: PendingMove)
    ensures
        pending.insert(d, pm).map_values(|pm: PendingMove| pm@) == pending.map_values(
            |pm: PendingMove| pm@,
        ).insert(d, pm@),
{
    assert(pending.insert(d, pm).map_values(|pm: PendingMove| pm@) =~= pending.map_values(
        |pm: PendingMove| pm@,
    ).insert(d, pm@));
}

proof fn lemma_pending_remove(pending: Map<Seq<char>, PendingMove>, d: Seq<char>)
    ensures
        pending.remove(d).map_values(|pm: PendingMove| pm@) == pending.map_values(
            |pm: PendingMove| pm@,
        ).remove(d),
{
    assert(pending.remove(d).map_values(|pm: PendingMove| pm@) =~= pending.map_values(
        |pm: PendingMove| pm@,
    ).remove(d));
}

impl<L> ProxyServer<L> {
    /// Begins to move a distribution: its connections are taken off the list and
    /// kept with the move until it ends.
    pub fn move_distribution(&mut self, distribution_id: String) -> (r: MoveStart)
        requires
            old(self).wf(),
            old(self)@.can_move(distribution_id@) ==> old(self)@.next_handle < u64::MAX,
        ensures
            final(self).wf(),
            final(self).manager() == old(self).manager(),
            final(self)@ == old(self)@.after_move(distribution_id@),
            match r {
                MoveStart::AlreadyPending => old(self)@.pending.contains_key(distribution_id@),
                MoveStart::NoConnections => {
                    &&& !old(self)@.pending.contains_key(distribution_id@)
                    &&& !old(self)@.lists.contains_key(distribution_id@)
                },
                MoveStart::Started { targets, timer } => {
                    &&& old(self)@.can_move(distribution_id@)
                    &&& targets@ == handle_list(old(self)@.going(distribution_id@))
                    &&& timer == old(self)@.next_handle
                },
            },
            r is AlreadyPending <==> old(self)@.pending.contains_key(distribution_id@),
            r is NoConnections <==> !old(self)@.pending.contains_key(distribution_id@) && !old(
                self,
            )@.lists.contains_key(distribution_id@),
            r matches MoveStart::Started { targets, timer } ==> {
                let pm = final(self)@.pending[distribution_id@];
                &&& final(self)@.pending.contains_key(distribution_id@)
                &&& targets@.len() == pm.old.len()
                &&& forall|i: int|
                    0 <= i < targets@.len() ==> #[trigger] targets@[i] == pm.old[i].handle
                &&& timer == pm.timer
                &&& forall|i: int|
                    0 <= i < old(self)@.lists[distribution_id@].len() && (#[trigger] old(
                        self,
                    )@.lists[distribution_id@][i]).data.distribution_id == distribution_id@
                        ==> targets@.contains(old(self)@.lists[distribution_id@][i].handle)
            },
            !(r is Started) ==> final(self)@ == old(self)@,
    {
        broadcast use vstd::std_specs::hash::group_hash_axioms;

        let ghost before = self@;
        let ghost d = distribution_id@;
        if self.pending_moves.contains_key(distribution_id.as_str()) {
            return MoveStart::AlreadyPending;
        }
        let mut conns: Vec<WsConnection> = match self.distribution.take(distribution_id.as_str()) {
            Some(conns) => conns,
            None => {
                assert(self@.lists =~= before.lists);
                return MoveStart::NoConnections;
            },
        };
        let n: usize = conns.len();
        assert(before.lists[d].len() == n);
        proof {
            lemma_move_keeps_wf(before, d);
        }
        let gone = part_with(&mut conns, distribution_id.as_str());
        self.distribution.put(distribution_id.clone(), conns);
        let timer: u64 = self.next_handle;
        self.next_handle = timer + 1;
        let ghost was_moving = self.moving@;
        let mut i: usize = 0;
        assert(handles(before.going(d).take(0)) =~= Set::<u64>::empty());
        assert(was_moving.union(Set::<u64>::empty()) =~= was_moving);
        while i < gone.len()
            invariant
                i <= gone@.len(),
                seats(gone@) == before.going(d),
                self.moving@ == was_moving.union(handles(before.going(d).take(i as int))),
                self.pending_moves.wf(),
                lists(self.distribution) == before.after_move(d).lists,
                self.pending_moves@ == old(self).pending_moves@,
                self.location_manager == old(self).location_manager,
                self.next_handle == timer + 1,
                self.move_start_message@ == before.start,
                self.move_done_message@ == before.done,
                self.move_end_message@ == before.end,
            decreases gone@.len() - i,
        {
            let ghost going = before.going(d);
            self.moving.insert(gone[i].handle);
            proof {
                assert(going[i as int] == gone@[i as int]@);
                assert(going.take(i + 1) =~= going.take(i as int).push(going[i as int]));
                lemma_handles_push(going.take(i as int), going[i as int]);
                assert(self.moving@ =~= was_moving.union(handles(going.take(i + 1))));
            }
            i = i + 1;
        }
        assert(before.going(d).take(i as int) =~= before.going(d));
        let targets: Vec<u64> = handles_of(&gone);
        let pm = PendingMove {
            pending_count: gone.len() as u32,
            old_connections: gone,
            timeout_abort: timer,
        };
        let ghost pending = self.pending_moves@;
        self.pending_moves.insert(distribution_id, pm);
        proof {
            lemma_pending_insert(pending, d, pm);
            assert(self@.pending == before.after_move(d).pending);
            assert(self@ == before.after_move(d));
            law_handle_list(before.going(d));
            assert forall|i: int|
                0 <= i < before.lists[d].len() && (
                #[trigger] before.lists[d][i]).data.distribution_id == d implies targets@.contains(
                before.lists[d][i].handle,
            ) by {
                lemma_filter_keeps(before.lists[d], of_distribution(d), i);
                let going = before.going(d);
                let k = choose|k: int| 0 <= k < going.len() && going[k] == before.lists[d][i];
                assert(targets@[k] == going[k].handle);
            }
        }
        MoveStart::Started { targets, timer }
    }

    /// Does what the location manager announces.
    pub fn manager_message(&mut self, msg: LocationManagerMessage) -> (r: MoveStart)
        requires
            old(self).wf(),
            match msg {
                LocationManagerMessage::MoveDistribution { distribution_id, new_loc: _ } => old(
                    self,
                )@.can_move(distribution_id@) ==> old(self)@.next_handle < u64::MAX,
            },
        ensures
            final(self).wf(),
            final(self).manager() == old(self).manager(),
            match msg {
                LocationManagerMessage::MoveDistribution { distribution_id, new_loc: _ } => {
                    &&& final(self)@ == old(self)@.after_move(distribution_id@)
                    &&& r is AlreadyPending <==> old(self)@.pending.contains_key(distribution_id@)
                    &&& r is Started <==> old(self)@.can_move(distribution_id@)
                    &&& r matches MoveStart::Started { targets, timer } ==> {
                        &&& targets@ == handle_list(old(self)@.going(distribution_id@))
                        &&& timer == old(self)@.next_handle
                    }
                },
            },
    {
        match msg {
            LocationManagerMessage::MoveDistribution { distribution_id, new_loc: _ } => {
                self.move_distribution(distribution_id)
            },
        }
    }

    /// How many clients of a distribution have not said yet that they have moved,
    /// if a move of it is under way.
    pub fn pending_count(&self, distribution_id: &str) -> (r: Option<u32>)
        requires
            self.wf(),
        ensures
            r == match self@.pending.get(distribution_id@) {
                Some(pm) => Some(pm.left),
                None => None,
            },
    {
        match self.pending_moves.get(distribution_id) {
            Some(pm) => Some(pm.pending_count),
            None => None,
        }
    }

    /// Counts a client that says that it has moved. `true` says that it was the
    /// last one, and that the move is to be ended.
    pub fn move_done(&mut self, distribution_id: &str) -> (r: bool)
        requires
            old(self).wf(),
            old(self)@.pending.contains_key(distribution_id@) ==> old(
                self,
            )@.pending[distribution_id@].left > 0,
        ensures
            final(self).wf(),
            final(self).manager() == old(self).manager(),
            final(self)@ == old(self)@.after_done(distribution_id@),
            r == (old(self)@.pending.contains_key(distribution_id@) && old(
                self,
            )@.pending[distribution_id@].left == 1),
    {
        let ghost before = self@;
        let ghost d = distribution_id@;
        let ghost pending = self.pending_moves@;
        match self.pending_moves.remove(distribution_id) {
            Some(pm) => {
                let mut pm = pm;
                assert(before.pending[d] == pm@);
                pm.pending_count = pm.pending_count - 1;
                let done: bool = pm.pending_count == 0;
                self.pending_moves.insert(distribution_id.to_owned(), pm);
                proof {
                    lemma_pending_remove(pending, d);
                    lemma_pending_insert(pending.remove(d), d, pm);
                    assert(self@.pending =~= before.after_done(d).pending);
                }
                done
            },
            None => {
                assert(pending.remove(d) =~= pending);
                false
            },
        }
    }

    /// The connections, by handle, through which the clients of a distribution
    /// have to be told that its move has ended: those that are listed now.
    pub fn move_end_targets(&mut self, distribution_id: &str) -> (r: Vec<u64>)
        requires
            old(self).wf(),
        ensures
            final(self).wf(),
            final(self).manager() == old(self).manager(),
            final(self)@ == old(self)@,
            r@ == handle_list(old(self)@.listed(distribution_id@)),
            !old(self)@.lists.contains_key(distribution_id@) ==> r@.len() == 0,
            old(self)@.lists.contains_key(distribution_id@) ==> {
                &&& r@.len() == old(self)@.lists[distribution_id@].len()
                &&& forall|i: int|
                    0 <= i < r@.len() ==> #[trigger] r@[i] == old(
                        self,
                    )@.lists[distribution_id@][i].handle
            },
    {
        let ghost before = self@;
        match self.distribution.take(distribution_id) {
            Some(conns) => {
                let r = handles_of(&conns);
                self.distribution.put(distribution_id.to_owned(), conns);
                assert(self@.lists =~= before.lists);
                r
            },
            None => {
                assert(self@.lists =~= before.lists);
                let r: Vec<u64> = Vec::new();
                assert(r@ =~= handle_list(before.listed(distribution_id@)));
                r
            },
        }
    }

    /// Ends a move and hands it over: its old connections and its timer are no
    /// longer needed.
    pub fn finish_move(&mut self, distribution_id: &str) -> (r: Option<PendingMove>)
        requires
            old(self).wf(),
        ensures
            final(self).wf(),
            final(self).manager() == old(self).manager(),
            final(self)@ == old(self)@.after_finish(distribution_id@),
            match r {
                Some(pm) => {
                    &&& old(self)@.pending.contains_key(distribution_id@)
                    &&& pm@ == old(self)@.pending[distribution_id@]
                },
                None => !old(self)@.pending.contains_key(distribution_id@),
            },
    {
        let ghost before = self@;
        let ghost pending = self.pending_moves@;
        let r = self.pending_moves.remove(distribution_id);
        proof {
            lemma_pending_remove(pending, distribution_id@);
            assert(self@ == before.after_finish(distribution_id@));
            lemma_finish_keeps_wf(before, distribution_id@);
        }
        r
    }
}

// ---------------------------------------------------------------------------
// New clients
// ---------------------------------------------------------------------------

/// Whether the location with the number `id` asks for secure connections.
pub open spec fn is_secure(locations: Seq<Location>, id: u64) -> bool {
    exists|i: int| 0 <= i < locations.len() && (#[trigger] locations[i]).id == id
        && locations[i].secure
}

impl<L> ProxyServer<L> {
    /// Picks the location for a new client, and says how it is to be reached.
    pub fn websocket_created(
        &self,
        locations: &mut LocationManager,
        data: &WebsocketData,
    ) -> (r: Result<ConnectionAttempt, String>)
        requires
            old(locations)@.wf(),
        ensures
            final(locations)@.wf(),
            final(locations)@ == old(locations)@.after_find(data@.distribution_id),
            match (r, old(locations)@.found(data@.distribution_id)) {
                (Ok(attempt), Some(id)) => attempt == (ConnectionAttempt {
                    location: id,
                    secure: is_secure(old(locations)@.locations, id),
                    retries: RETRIES,
                }),
                (Err(text), None) => text@ == "Couldn't find proxy location"@,
                _ => false,
            },
    {
        proof {
            crate::location_manager::law_found_is_alive(locations@, data@.distribution_id);
        }
        match locations.find_location(data.distribution_id.clone()) {
            Some(id) => {
                let ghost listed = locations@.locations;
                let secure: bool = match locations.location(id) {
                    Some(loc) => {
                        proof {
                            let i = choose|i: int| 0 <= i < listed.len() && listed[i] == loc@;
                            assert(listed[i].id == id);
                            if is_secure(listed, id) {
                                let j = choose|j: int|
                                    0 <= j < listed.len() && (#[trigger] listed[j]).id == id
                                        && listed[j].secure;
                                assert(i == j);
                            }
                        }
                        loc.secure
                    },
                    None => false,
                };
                Ok(ConnectionAttempt::new(id, secure))
            },
            None => Err("Couldn't find proxy location".to_owned()),
        }
    }
}

// ---------------------------------------------------------------------------
// The builder
// ---------------------------------------------------------------------------

/// Collects what a server needs.
pub struct ProxyServerBuilder<L> {
    lm: Option<L>,
    move_start_message: String,
    move_done_message: String,
    move_end_message: String,
}

impl<L> ProxyServerBuilder<L> {
    /// The location manager that was set last.
    pub closed spec fn manager(self) -> Option<L> {
        self.lm
    }

    /// What clients are told when a move begins.
    pub closed spec fn start(self) -> Seq<char> {
        self.move_start_message@
    }

    /// What clients say when they have moved.
    pub closed spec fn done(self) -> Seq<char> {
        self.move_done_message@
    }

    /// What clients are told when a move has ended.
    pub closed spec fn end(self) -> Seq<char> {
        self.move_end_message@
    }

    /// A builder without a location manager and with empty messages.
    pub fn new() -> (r: Self)
        ensures
            r.manager() is None,
            r.start().len() == 0,
            r.done().len() == 0,
            r.end().len() == 0,
    {
        ProxyServerBuilder {
            lm: None,
            move_start_message: String::new(),
            move_done_message: String::new(),
            move_end_message: String::new(),
        }
    }

    /// Sets the location manager.
    pub fn location_manager(self, lm: L) -> (r: Self)
        ensures
            r.manager() == Some(lm),
            r.start() == self.start(),
            r.done() == self.done(),
            r.end() == self.end(),
    {
        ProxyServerBuilder {
            lm: Some(lm),
            move_start_message: self.move_start_message,
            move_done_message: self.move_done_message,
            move_end_message: self.move_end_message,
        }
    }

    /// Whether a location manager was set.
    pub fn has_location_manager(&self) -> (r: bool)
        ensures
            r == self.manager().is_some(),
    {
        self.lm.is_some()
    }

    /// Sets what clients are told when a move begins.
    pub fn move_start_message(self, s: String) -> (r: Self)
        ensures
            r.manager() == self.manager(),
            r.start() == s@,
            r.done() == self.done(),
            r.end() == self.end(),
    {
        ProxyServerBuilder {
            lm: self.lm,
            move_start_message: s,
            move_done_message: self.move_done_message,
            move_end_message: self.move_end_message,
        }
    }

    /// Sets what clients say when they have moved.
    pub fn move_done_message(self, s: String) -> (r: Self)
        ensures
            r.manager() == self.manager(),
            r.start() == self.start(),
            r.done() == s@,
            r.end() == self.end(),
    {
        ProxyServerBuilder {
            lm: self.lm,
            move_start_message: self.move_start_message,
            move_done_message: s,
            move_end_message: self.move_end_message,
        }
    }

    /// Sets what clients are told when a move has ended.
    pub fn move_end_message(self, s: String) -> (r: Self)
        ensures
            r.manager() == self.manager(),
            r.start() == self.start(),
            r.done() == self.done(),
            r.end() == s@,
    {
        ProxyServerBuilder {
            lm: self.lm,
            move_start_message: self.move_start_message,
            move_done_message: self.move_done_message,
            move_end_message: s,
        }
    }

    /// A server without connections and without moves. You should set the
    /// location manager.
    pub fn build(self) -> (r: ProxyServer<L>)
        requires
            self.manager() is Some,
        ensures
            r.wf(),
            Some(r.manager()) == self.manager(),
            r@ == (ServerState {
                lists: Map::empty(),
                pending: Map::empty(),
                moving: Set::empty(),
                next_handle: 0,
                start: self.start(),
                done: self.done(),
                end: self.end(),
            }),
    {
        let r = ProxyServer {
            location_manager: self.lm.unwrap(),
            distribution: ConnectionTable::new(),
            pending_moves: StringMap::new(),
            moving: HashSet::new(),
            next_handle: 0,
            move_start_message: self.move_start_message,
            move_done_message: self.move_done_message,
            move_end_message: self.move_end_message,
        };
        assert(r@.pending =~= Map::<Seq<char>, Move>::empty());
        r
    }
}

// ---------------------------------------------------------------------------
// Laws
// ---------------------------------------------------------------------------

/// A move takes every connection of its distribution off the list and leaves
/// every other one; none is lost, and none is made up.
pub proof fn law_move_takes_all(state: ServerState, d: Seq<char>)
    requires
        state.can_move(d),
    ensures
        state.after_move(d).lists.contains_key(d),
        state.after_move(d).pending.contains_key(d),
        state.after_move(d).pending[d].old.len() + state.after_move(d).lists[d].len()
            == state.lists[d].len(),
        forall|i: int|
            0 <= i < state.lists[d].len() ==> {
                let conn = #[trigger] state.lists[d][i];
                if conn.data.distribution_id == d {
                    state.after_move(d).pending[d].old.contains(conn) && state.after_move(
                        d,
                    ).moving.contains(conn.handle)
                } else {
                    state.after_move(d).lists[d].contains(conn)
                }
            },
        forall|i: int|
            0 <= i < state.after_move(d).pending[d].old.len() ==> (#[trigger] state.after_move(
                d,
            ).pending[d].old[i]).data.distribution_id == d,
        state.after_move(d).pending[d].old.len() <= u32::MAX ==> state.after_move(
            d,
        ).pending[d].left == state.after_move(d).pending[d].old.len(),
{
    let conns = state.lists[d];
    let after = state.after_move(d);
    lemma_parted_lengths(conns, d);
    assert forall|i: int| 0 <= i < conns.len() implies {
        let conn = #[trigger] state.lists[d][i];
        if conn.data.distribution_id == d {
            after.pending[d].old.contains(conn) && after.moving.contains(conn.handle)
        } else {
            after.lists[d].contains(conn)
        }
    } by {
        let conn = conns[i];
        if conn.data.distribution_id == d {
            lemma_filter_keeps(conns, of_distribution(d), i);
            let going = state.going(d);
            let j = choose|j: int| 0 <= j < going.len() && going[j] == conn;
            assert(going[j].handle == conn.handle);
            assert(handles(going).contains(conn.handle));
        } else {
            lemma_filter_keeps(conns, of_others(d), i);
        }
    }
    let places = lemma_filter_places(conns, of_distribution(d));
    assert forall|i: int| 0 <= i < after.pending[d].old.len() implies (
    #[trigger] after.pending[d].old[i]).data.distribution_id == d by {
        assert(of_distribution(d)(conns[places[i]]));
    }
}

/// A list on which every connection is of its own distribution goes as it is, and
/// stays behind without connections.
pub proof fn law_whole_list_moves(state: ServerState, d: Seq<char>)
    requires
        state.can_move(d),
        forall|i: int|
            0 <= i < state.lists[d].len() ==> (#[trigger] state.lists[d][i]).data.distribution_id
                == d,
    ensures
        state.after_move(d).pending[d].old == state.lists[d],
        state.after_move(d).lists[d].len() == 0,
{
    lemma_filter_all(state.lists[d], d);
}

/// A distribution that cannot be moved is left as it is: a move that is under way
/// is not begun again, and one that has no list is not begun.
pub proof fn law_second_move_is_refused(state: ServerState, d: Seq<char>)
    ensures
        !state.can_move(d) ==> state.after_move(d) == state,
        state.after_move(d).after_move(d) == state.after_move(d),
{
}

/// Ending a move leaves every listed connection open: none of them is an old
/// connection of a move.
pub proof fn law_ending_spares_the_listed(state: ServerState, d: Seq<char>, e: Seq<char>, j: int)
    requires
        state.wf(),
        state.pending.contains_key(d),
        state.lists.contains_key(e),
        0 <= j < state.lists[e].len(),
    ensures
        !handles(state.pending[d].old).contains(state.lists[e][j].handle),
        !state.moving.contains(state.lists[e][j].handle),
{
    let h = state.lists[e][j].handle;
    if handles(state.pending[d].old).contains(h) {
        let i = choose|i: int|
            0 <= i < state.pending[d].old.len() && (#[trigger] state.pending[d].old[i]).handle == h;
        assert(state.pending[d].old[i].handle != state.lists[e][j].handle);
    }
}

/// A list that was taken out can be put back, and nothing has changed then.
pub proof fn law_taken_list_can_be_put_back(state: ServerState, d: Seq<char>)
    requires
        state.wf(),
        state.lists.contains_key(d),
    ensures
        state.after_take(d).can_list(d, state.lists[d]),
        state.after_take(d).after_put(d, state.lists[d]) == state,
{
    lemma_take_keeps_wf(state, d);
    assert(state.after_take(d).after_put(d, state.lists[d]).lists =~= state.lists);
}

/// What happens to one distribution leaves the lists and the moves of all others
/// as they are.
pub proof fn law_others_are_left_alone(
    state: ServerState,
    data: ClientData,
    handle: u64,
    other: Seq<char>,
)
    requires
        other != data.distribution_id,
    ensures
        state.after_open(data).listed(other) == state.listed(other),
        state.after_close(data, handle).listed(other) == state.listed(other),
        state.after_move(data.distribution_id).listed(other) == state.listed(other),
        state.after_move(data.distribution_id).pending.get(other) == state.pending.get(other),
        state.after_done(data.distribution_id).pending.get(other) == state.pending.get(other),
        state.after_finish(data.distribution_id).pending.get(other) == state.pending.get(other),
{
}

/// The old connections of a move and its timer stay with it until it ends,
/// whatever is opened, closed, moved or said to have moved meanwhile.
pub proof fn law_move_keeps_its_connections(
    state: ServerState,
    d: Seq<char>,
    data: ClientData,
    handle: u64,
    other: Seq<char>,
)
    requires
        state.pending.contains_key(d),
    ensures
        state.after_open(data).pending[d] == state.pending[d],
        state.after_close(data, handle).pending[d] == state.pending[d],
        state.after_move(other).pending[d] == state.pending[d],
        state.after_done(other).pending.contains_key(d),
        state.after_done(other).pending[d].old == state.pending[d].old,
        state.after_done(other).pending[d].timer == state.pending[d].timer,
{
}

/// A connection that was taken along by a move and ends afterwards changes no
/// list and no move.
pub proof fn law_moved_connection_ends_quietly(state: ServerState, d: Seq<char>, i: int)
    requires
        state.can_move(d),
        0 <= i < state.lists[d].len(),
        state.lists[d][i].data.distribution_id == d,
    ensures
        ({
            let conn = state.lists[d][i];
            let moved = state.after_move(d);
            let after = moved.after_close(conn.data, conn.handle);
            after.lists == moved.lists && after.pending == moved.pending && !after.moving.contains(
                conn.handle,
            )
        }),
{
    law_move_takes_all(state, d);
    let h = state.lists[d][i].handle;
    assert(state.after_move(d).moving.contains(h));
}

/// The state after `n` clients of a distribution have said that they have moved.
pub open spec fn after_dones(state: ServerState, d: Seq<char>, n: nat) -> ServerState
    decreases n,
{
    if n == 0 {
        state
    } else {
        after_dones(state, d, (n - 1) as nat).after_done(d)
    }
}

/// Every client that says that it has moved is counted once: after `n` of them
/// `n` fewer are waited for, so that the last of all clients ends the move and
/// none before it does.
pub proof fn law_last_client_ends_the_move(state: ServerState, d: Seq<char>, n: nat)
    requires
        state.pending.contains_key(d),
        n <= state.pending[d].left,
    ensures
        after_dones(state, d, n).pending.contains_key(d),
        after_dones(state, d, n).pending[d].left == state.pending[d].left - n,
        after_dones(state, d, n).pending[d].old == state.pending[d].old,
    decreases n,
{
    if n > 0 {
        law_last_client_ends_the_move(state, d, (n - 1) as nat);
    }
}

/// Ending a move makes its distribution free to be moved again, if it has a
/// list still.
pub proof fn law_finished_move_can_begin_again(state: ServerState, d: Seq<char>)
    requires
        state.can_move(d),
    ensures
        !state.after_move(d).can_move(d),
        state.after_move(d).after_finish(d).can_move(d),
{
}

/// A handle that is given out belongs to no connection that is listed or moving.
pub proof fn law_handles_are_fresh(state: ServerState, d: Seq<char>, i: int)
    requires
        state.wf(),
    ensures
        !state.moving.contains(state.next_handle),
        state.lists.contains_key(d) && 0 <= i < state.lists[d].len() ==> state.lists[d][i].handle
            != state.next_handle,
{
}

/// Closing a connection undoes opening it, if no other connection of its
/// distribution has the name of its client and its distribution was not left
/// without connections by a move.
pub proof fn law_close_undoes_open(state: ServerState, data: ClientData)
    requires
        state.wf(),
        forall|i: int|
            0 <= i < state.listed(data.distribution_id).len() ==> (#[trigger] state.listed(
                data.distribution_id,
            )[i]).data.id != data.id,
        state.lists.contains_key(data.distribution_id) ==> state.lists[data.distribution_id].len()
            > 0,
    ensures
        ({
            let after = state.after_open(data).after_close(data, state.next_handle);
            after.lists == state.lists && after.pending == state.pending && after.moving
                == state.moving
        }),
{
    let d = data.distribution_id;
    let conn = Attached { data, handle: state.next_handle };
    let opened = state.after_open(data);
    crate::websocket::law_close_undoes_open(state.listed(d), conn);
    assert(!opened.moving.contains(state.next_handle));
    assert(opened.lists[d] == state.listed(d).push(conn));
    assert(opened.after_close(data, state.next_handle).lists =~= state.lists);
}

/// The handles of a list are as many as its connections, and each stands in the
/// place of its connection.
pub proof fn law_handle_list(conns: Seq<Attached>)
    ensures
        handle_list(conns).len() == conns.len(),
        forall|i: int|
            0 <= i < conns.len() ==> #[trigger] handle_list(conns)[i] == conns[i].handle,
        forall|h: u64| #[trigger]
            handles(conns).contains(h) <==> exists|i: int|
                0 <= i < conns.len() && (#[trigger] conns[i]).handle == h,
{
}

/// A frame says that its client has moved exactly if, with the key laid over it
/// again byte by byte where it is masked, its payload is the text.
pub proof fn law_moved_by_the_byte(frame: Frame, text: Seq<char>)
    ensures
        says_moved(frame, text) <==> frame.payload.len() == encode_utf8(text).len() && forall|
            i: int,
        |
            0 <= i < frame.payload.len() ==> (if frame.mask {
                #[trigger] frame.payload[i] ^ frame.mask_key[i % 4]
            } else {
                frame.payload[i]
            }) == encode_utf8(text)[i],
{
    let bytes = encode_utf8(text);
    let plain = frame.unmasked().payload;
    assert forall|i: int| 0 <= i < frame.payload.len() implies plain[i] == (if frame.mask {
        #[trigger] frame.payload[i] ^ frame.mask_key[i % 4]
    } else {
        frame.payload[i]
    }) by {
        crate::message::law_unmask_reaches_every_byte(frame, i);
    }
    assert(plain.len() == frame.payload.len());
    if says_moved(frame, text) {
        assert forall|i: int| 0 <= i < frame.payload.len() implies (if frame.mask {
            #[trigger] frame.payload[i] ^ frame.mask_key[i % 4]
        } else {
            frame.payload[i]
        }) == bytes[i] by {
            assert(plain[i] == bytes[i]);
        }
    } else if frame.payload.len() == bytes.len() && forall|i: int|
        0 <= i < frame.payload.len() ==> (if frame.mask {
            #[trigger] frame.payload[i] ^ frame.mask_key[i % 4]
        } else {
            frame.payload[i]
        }) == bytes[i] {
        assert(plain =~= bytes);
    }
}

/// What goes on to the location, byte by byte: the frame as it came, but without
/// its masking if it is as long as the text that it was compared with.
pub proof fn law_passed_on_by_the_byte(frame: Frame, text: Seq<char>, i: int)
    requires
        0 <= i < frame.payload.len(),
    ensures
        passed_on(frame, text).fin == frame.fin,
        passed_on(frame, text).opcode == frame.opcode,
        passed_on(frame, text).mask == frame.mask,
        passed_on(frame, text).mask_key == frame.mask_key,
        passed_on(frame, text).payload.len() == frame.payload.len(),
        frame.mask && frame.payload.len() == encode_utf8(text).len() ==> passed_on(
            frame,
            text,
        ).payload[i] == frame.payload[i] ^ frame.mask_key[i % 4],
        !frame.mask || frame.payload.len() != encode_utf8(text).len() ==> passed_on(
            frame,
            text,
        ).payload[i] == frame.payload[i],
{
    crate::message::law_unmask_reaches_every_byte(frame, i);
}

/// What opening a connection changes: it stands behind the others of its
/// distribution under the next handle, and nothing else changes.
pub proof fn law_opening_by_parts(state: ServerState, data: ClientData, i: int, e: Seq<char>)
    requires
        state.next_handle < u64::MAX,
    ensures
        ({
            let d = data.distribution_id;
            let after = state.after_open(data);
            let n: int = if state.lists.contains_key(d) {
                state.lists[d].len() as int
            } else {
                0
            };
            &&& after.lists.contains_key(d)
            &&& after.lists[d].len() == n + 1
            &&& after.lists[d][n].data == data
            &&& after.lists[d][n].handle == state.next_handle
            &&& 0 <= i < n ==> after.lists[d][i] == state.lists[d][i]
            &&& e != d ==> after.lists.contains_key(e) == state.lists.contains_key(e)
            &&& e != d && state.lists.contains_key(e) ==> after.lists[e] == state.lists[e]
            &&& after.next_handle == state.next_handle + 1
            &&& after.pending == state.pending
            &&& after.moving == state.moving
            &&& after.start == state.start && after.done == state.done && after.end == state.end
        }),
{
}

/// What closing a connection changes. One that is moving leaves the moving ones and
/// nothing else; else the first connection of the client leaves the list, and a
/// list without connections is struck off.
pub proof fn law_closing_by_parts(
    state: ServerState,
    data: ClientData,
    handle: u64,
    p: int,
    j: int,
    e: Seq<char>,
)
    ensures
        ({
            let d = data.distribution_id;
            let after = state.after_close(data, handle);
            &&& after.pending == state.pending && after.next_handle == state.next_handle
            &&& after.start == state.start && after.done == state.done && after.end == state.end
            &&& state.moving.contains(handle) ==> after.lists == state.lists && after.moving
                == state.moving.remove(handle)
            &&& !state.moving.contains(handle) ==> {
                &&& after.moving == state.moving
                &&& !state.lists.contains_key(d) ==> after.lists == state.lists
                &&& e != d ==> after.lists.contains_key(e) == state.lists.contains_key(e)
                &&& e != d && state.lists.contains_key(e) ==> after.lists[e] == state.lists[e]
                &&& state.lists.contains_key(d) && 0 <= p < state.lists[d].len()
                    && state.lists[d][p].data.id == data.id && (forall|k: int|
                    0 <= k < p ==> (#[trigger] state.lists[d][k]).data.id != data.id) ==> {
                    &&& state.lists[d].len() == 1 ==> !after.lists.contains_key(d)
                    &&& state.lists[d].len() > 1 ==> after.lists.contains_key(d)
                        && after.lists[d].len() == state.lists[d].len() - 1
                    &&& 0 <= j < state.lists[d].len() - 1 ==> after.lists[d][j] == if j < p {
                        state.lists[d][j]
                    } else {
                        state.lists[d][j + 1]
                    }
                }
                &&& state.lists.contains_key(d) && state.lists[d].len() > 0 && (forall|k: int|
                    0 <= k < state.lists[d].len() ==> (#[trigger] state.lists[d][k]).data.id
                        != data.id) ==> after.lists.contains_key(d) && after.lists[d]
                    == state.lists[d]
            }
        }),
{
    let d = data.distribution_id;
    if !state.moving.contains(handle) && state.lists.contains_key(d) {
        let conns = state.lists[d];
        if 0 <= p < conns.len() && conns[p].data.id == data.id && (forall|k: int|
            0 <= k < p ==> (#[trigger] conns[k]).data.id != data.id) {
            lemma_place_of_client(conns, data.id, p);
        }
        if forall|k: int|
            0 <= k < conns.len() ==> (#[trigger] conns[k]).data.id != data.id {
            lemma_place_of_client(conns, data.id, conns.len() as int);
        }
    }
}

/// Where the connections of a list are after a move has begun, place by place. The
/// old connections of the move are those of its distribution and the list keeps
/// the others, both in the order in which they were listed; together they are
/// all that was listed. The result gives the places that the old ones and the
/// others had.
pub proof fn law_move_by_places(state: ServerState, d: Seq<char>) -> (r: (Seq<int>, Seq<int>))
    requires
        !state.pending.contains_key(d),
        state.lists.contains_key(d),
    ensures
        ({
            let (gone, kept) = r;
            let conns = state.lists[d];
            let after = state.after_move(d);
            &&& after.pending.contains_key(d)
            &&& after.lists.contains_key(d)
            &&& after.pending[d].old.len() == gone.len()
            &&& after.lists[d].len() == kept.len()
            &&& gone.len() + kept.len() == conns.len()
            &&& forall|i: int|
                0 <= i < gone.len() ==> 0 <= #[trigger] gone[i] < conns.len()
                    && conns[gone[i]].data.distribution_id == d && after.pending[d].old[i]
                    == conns[gone[i]]
            &&& forall|i: int|
                0 <= i < kept.len() ==> 0 <= #[trigger] kept[i] < conns.len()
                    && conns[kept[i]].data.distribution_id != d && after.lists[d][i]
                    == conns[kept[i]]
            &&& forall|i: int, j: int| 0 <= i < j < gone.len() ==> gone[i] < gone[j]
            &&& forall|i: int, j: int| 0 <= i < j < kept.len() ==> kept[i] < kept[j]
        }),
{
    let conns = state.lists[d];
    lemma_parted_lengths(conns, d);
    let gone = lemma_filter_places(conns, of_distribution(d));
    let kept = lemma_filter_places(conns, of_others(d));
    assert forall|i: int| 0 <= i < gone.len() implies 0 <= #[trigger] gone[i] < conns.len()
        && conns[gone[i]].data.distribution_id == d by {
        assert(of_distribution(d)(conns[gone[i]]));
    }
    assert forall|i: int| 0 <= i < kept.len() implies 0 <= #[trigger] kept[i] < conns.len()
        && conns[kept[i]].data.distribution_id != d by {
        assert(of_others(d)(conns[kept[i]]));
    }
    (gone, kept)
}

/// What else a move changes: it waits for as many clients as it takes connections
/// along, these are moving, its timer has the next handle, and nothing of other
/// distributions changes. Nothing happens if a move is under way or there is no
/// list.
pub proof fn law_move_by_parts(state: ServerState, d: Seq<char>, e: Seq<char>, h: u64)
    requires
        state.next_handle < u64::MAX,
    ensures
        ({
            let after = state.after_move(d);
            &&& state.pending.contains_key(d) || !state.lists.contains_key(d) ==> after == state
            &&& !state.pending.contains_key(d) && state.lists.contains_key(d) ==> {
                &&& after.pending[d].old.len() <= u32::MAX ==> after.pending[d].left
                    == after.pending[d].old.len()
                &&& after.pending[d].timer == state.next_handle
                &&& after.next_handle == state.next_handle + 1
                &&& after.moving.contains(h) <==> (state.moving.contains(h) || exists|i: int|
                    0 <= i < after.pending[d].old.len() && (
                    #[trigger] after.pending[d].old[i]).handle == h)
                &&& e != d ==> after.lists.contains_key(e) == state.lists.contains_key(e)
                &&& e != d && state.lists.contains_key(e) ==> after.lists[e] == state.lists[e]
                &&& e != d ==> after.pending.contains_key(e) == state.pending.contains_key(e)
                &&& e != d && state.pending.contains_key(e) ==> after.pending[e]
                    == state.pending[e]
                &&& after.start == state.start && after.done == state.done && after.end
                    == state.end
            }
        }),
{
}

/// What a client that says that it has moved changes: one fewer is waited for, if
/// its distribution is moved, and nothing else.
pub proof fn law_done_by_parts(state: ServerState, d: Seq<char>, e: Seq<char>)
    ensures
        ({
            let after = state.after_done(d);
            &&& after.lists == state.lists && after.moving == state.moving && after.next_handle
                == state.next_handle
            &&& after.start == state.start && after.done == state.done && after.end == state.end
            &&& after.pending.contains_key(e) == state.pending.contains_key(e)
            &&& e != d && state.pending.contains_key(e) ==> after.pending[e] == state.pending[e]
            &&& state.pending.contains_key(d) && state.pending[d].left > 0 ==> {
                &&& after.pending[d].left == state.pending[d].left - 1
                &&& after.pending[d].old == state.pending[d].old
                &&& after.pending[d].timer == state.pending[d].timer
            }
        }),
{
}

/// What the end of a move changes: the move is gone, and nothing else changes.
pub proof fn law_finish_by_parts(state: ServerState, d: Seq<char>, e: Seq<char>)
    ensures
        ({
            let after = state.after_finish(d);
            &&& after.lists == state.lists && after.moving == state.moving && after.next_handle
                == state.next_handle
            &&& after.start == state.start && after.done == state.done && after.end == state.end
            &&& !after.pending.contains_key(d)
            &&& e != d ==> after.pending.contains_key(e) == state.pending.contains_key(e)
            &&& e != d && state.pending.contains_key(e) ==> after.pending[e] == state.pending[e]
        }),
{
}

/// What taking a list out and putting one in change: that list, and nothing else.
pub proof fn law_lists_by_parts(
    state: ServerState,
    d: Seq<char>,
    conns: Seq<Attached>,
    e: Seq<char>,
)
    ensures
        ({
            let taken = state.after_take(d);
            let put = state.after_put(d, conns);
            &&& !taken.lists.contains_key(d)
            &&& put.lists.contains_key(d) && put.lists[d] == conns
            &&& e != d ==> taken.lists.contains_key(e) == state.lists.contains_key(e)
                && put.lists.contains_key(e) == state.lists.contains_key(e)
            &&& e != d && state.lists.contains_key(e) ==> taken.lists[e] == state.lists[e]
                && put.lists[e] == state.lists[e]
            &&& taken.pending == state.pending && put.pending == state.pending
            &&& taken.moving == state.moving && put.moving == state.moving
            &&& taken.next_handle == state.next_handle && put.next_handle == state.next_handle
        }),
{
}

/// A distribution can be moved exactly if it has a list and no move of it is under
/// way; what is listed under it is its list, or nothing.
pub proof fn law_server_words(state: ServerState, d: Seq<char>)
    ensures
        state.can_move(d) <==> !state.pending.contains_key(d) && state.lists.contains_key(d),
        state.lists.contains_key(d) ==> state.listed(d) == state.lists[d],
        !state.lists.contains_key(d) ==> state.listed(d).len() == 0,
        state.wf() ==> forall|e: Seq<char>, i: int|
            state.lists.contains_key(e) && 0 <= i < state.lists[e].len() ==> (
            #[trigger] state.lists[e][i]).handle < state.next_handle && !state.moving.contains(
                state.lists[e][i].handle,
            ),
        state.wf() ==> forall|d1: Seq<char>, i: int, d2: Seq<char>, j: int|
            state.lists.contains_key(d1) && 0 <= i < state.lists[d1].len()
                && state.lists.contains_key(d2) && 0 <= j < state.lists[d2].len() && (
            #[trigger] state.lists[d1][i]).handle == (#[trigger] state.lists[d2][j]).handle ==> d1
                == d2 && i == j,
{
}

/// The content of a connection is its client and its handle; that of a move is its
/// connections, the number of clients it waits for and its timer.
pub proof fn law_move_content(pm: PendingMove, i: int)
    requires
        0 <= i < pm.old_connections@.len(),
    ensures
        pm@.old.len() == pm.old_connections@.len(),
        pm@.old[i].data == pm.old_connections@[i].data@,
        pm@.old[i].handle == pm.old_connections@[i].handle,
        pm@.left == pm.pending_count,
        pm@.timer == pm.timeout_abort,
{
}

/// A location is secure if one with its number says so.
pub proof fn law_is_secure(locations: Seq<Location>, i: int)
    requires
        0 <= i < locations.len(),
        forall|j: int|
            0 <= j < locations.len() && (#[trigger] locations[j]).id == locations[i].id ==> i == j,
    ensures
        is_secure(locations, locations[i].id) == locations[i].secure,
{
}

/// A move may take twenty seconds, and the old connections stay open for one more.
pub proof fn law_time_to_move()
    ensures
        MOVE_SECONDS == 20,
        LEAVE_SECONDS == 1,
{
}

} // verus!
