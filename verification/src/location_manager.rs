//! Where the traffic goes: the backend locations, and which of them each
//! distribution of clients is routed to.

use dashmap::DashMap;
use vstd::prelude::*;
use vstd::string::*;

use crate::random::random_u64;
use crate::text::{bool_text, decimal_text, show_bool, show_number};
use crate::uri::{parsed_uri, ParsedUri, UriFields};

verus! {

// ---------------------------------------------------------------------------
// Locations
// ---------------------------------------------------------------------------

/// A backend that clients can be relayed to.
pub struct ProxyLocation {
    pub id: u64,
    pub uri: ParsedUri,
    pub connection_count: u32,
    pub dead: bool,
    pub secure: bool,
}

/// The mathematical content of a `ProxyLocation`.
pub struct Location {
    pub id: u64,
    pub uri: UriFields,
    pub connection_count: u32,
    pub dead: bool,
    pub secure: bool,
}

impl View for ProxyLocation {
    type V = Location;

    open spec fn view(&self) -> Location {
        Location {
            id: self.id,
            uri: self.uri@,
            connection_count: self.connection_count,
            dead: self.dead,
            secure: self.secure,
        }
    }
}

impl Location {
    /// How the location is shown to the operator.
    pub open spec fn shown(self) -> Seq<char> {
        "ProxyLocation { id: "@ + decimal_text(self.id as nat) + ", uri: "@ + self.uri.text
            + ", connection_count: "@ + decimal_text(self.connection_count as nat) + ", dead: "@
            + bool_text(self.dead) + ", secure: "@ + bool_text(self.secure) + " }"@
    }
}

/// Collects what a new location needs.
pub struct ProxyLocationBuilder {
    uri: Option<ParsedUri>,
    secure: Option<bool>,
}

impl ProxyLocationBuilder {
    /// The address that was set.
    pub closed spec fn uri_set(self) -> Option<ParsedUri> {
        self.uri
    }

    /// The choice between plain and secure connections that was set.
    pub closed spec fn secure_set(self) -> Option<bool> {
        self.secure
    }

    /// Sets the address.
    pub fn uri(self, uri: ParsedUri) -> (r: Self)
        ensures
            r.uri_set() == Some(uri),
            r.secure_set() == self.secure_set(),
    {
        ProxyLocationBuilder { uri: Some(uri), secure: self.secure }
    }

    /// Sets whether connections are secure.
    pub fn secure(self, secure: bool) -> (r: Self)
        ensures
            r.uri_set() == self.uri_set(),
            r.secure_set() == Some(secure),
    {
        ProxyLocationBuilder { uri: self.uri, secure: Some(secure) }
    }

    /// A location without connections, which is alive; it is plain unless said
    /// otherwise. Without an address there is none.
    pub fn build(self) -> (r: Result<ProxyLocation, String>)
        ensures
            match (r, self.uri_set()) {
                (Ok(loc), Some(uri)) => loc@ == (Location {
                    id: 0,
                    uri: uri@,
                    connection_count: 0,
                    dead: false,
                    secure: self.secure_set() == Some(true),
                }),
                (Err(text), None) => text@ == "`uri` must be initialized"@,
                _ => false,
            },
    {
        match self.uri {
            Some(uri) => {
                let secure: bool = match self.secure {
                    Some(secure) => secure,
                    None => false,
                };
                Ok(ProxyLocation { id: 0, uri, connection_count: 0, dead: false, secure })
            },
            None => Err("`uri` must be initialized".to_owned()),
        }
    }
}

impl Default for ProxyLocation {
    fn default() -> (r: Self)
        ensures
            parsed_uri(crate::uri::default_address()) == Some(r@.uri),
            r.connection_count == 0,
            !r.dead,
            !r.secure,
    {
        ProxyLocation {
            id: random_u64(),
            uri: ParsedUri::default_uri(),
            connection_count: 0,
            dead: false,
            secure: false,
        }
    }
}

impl ProxyLocation {
    /// A builder of a location.
    pub fn new() -> (r: ProxyLocationBuilder)
        ensures
            r.uri_set() is None,
            r.secure_set() is None,
    {
        ProxyLocationBuilder { uri: None, secure: None }
    }

    /// How the location is shown to the operator.
    pub fn debug_text(&self) -> (r: String)
        ensures
            r@ == self@.shown(),
            r@ == "ProxyLocation { id: "@ + decimal_text(self.id as nat) + ", uri: "@
                + self.uri.text@ + ", connection_count: "@ + decimal_text(
                self.connection_count as nat,
            ) + ", dead: "@ + (if self.dead {
                "true"@
            } else {
                "false"@
            }) + ", secure: "@ + (if self.secure {
                "true"@
            } else {
                "false"@
            }) + " }"@,
    {
        "ProxyLocation { id: ".to_owned().concat(show_number(self.id).as_str()).concat(
            ", uri: ",
        ).concat(self.uri.text.as_str()).concat(", connection_count: ").concat(
            show_number(self.connection_count as u64).as_str(),
        ).concat(", dead: ").concat(show_bool(self.dead)).concat(", secure: ").concat(
            show_bool(self.secure),
        ).concat(" }")
    }

    /// The address that a plain connection is made to: the authority of the
    /// location, or nothing.
    pub fn plain_address(&self) -> (r: String)
        ensures
            r@ == match self@.uri.authority {
                Some(authority) => authority,
                None => Seq::empty(),
            },
    {
        match &self.uri.authority {
            Some(authority) => authority.clone(),
            None => String::new(),
        }
    }

    /// The address that a secure connection is made to, and the name that its
    /// certificate has to carry.
    pub fn secure_address(&self) -> (r: (String, String))
        requires
            self@.uri.authority is Some,
        ensures
            Some(r.0@) == self@.uri.authority,
            r.1@ == match self@.uri.host {
                Some(host) => host,
                None => Seq::empty(),
            },
    {
        let host: String = match &self.uri.host {
            Some(host) => host.clone(),
            None => String::new(),
        };
        (self.plain_address(), host)
    }
}

// ---------------------------------------------------------------------------
// The route table
// ---------------------------------------------------------------------------

/// Which location each distribution is routed to, by the number of the location.
#[verifier::external_body]
pub struct RouteTable {
    routes: DashMap<String, u64>,
}

/// The routes that a table holds.
pub uninterp spec fn routes(table: RouteTable) -> Map<Seq<char>, u64>;

/// Whether a route stays when the location `gone` is given up.
fn leads_elsewhere(id: u64, gone: u64) -> (r: bool)
    ensures
        r == (id != gone),
{
    id != gone
}

/// The routes that do not lead to the location `gone`.
pub open spec fn routes_elsewhere(m: Map<Seq<char>, u64>, gone: u64) -> Map<Seq<char>, u64> {
    Map::new(|key: Seq<char>| m.contains_key(key) && m[key] != gone, |key: Seq<char>| m[key])
}

impl RouteTable {
    /// `DashMap::new`: a table without routes.
    #[verifier::external_body]
    fn new() -> (r: RouteTable)
        ensures
            (routes(r) == Map::<Seq<char>, u64>::empty()),
    {
        RouteTable { routes: DashMap::new() }
    }

    /// `DashMap::get`: the value under a key, here as a copy.
    #[verifier::external_body]
    fn get(&self, key: &str) -> (r: Option<u64>)
        ensures
            r == routes(*self).get(key@),
    {
        self.routes.get(key).map(|entry| *entry.value())
    }

    /// `DashMap::insert`: sets the value under a key.
    #[verifier::external_body]
    fn insert(&mut self, key: String, id: u64) -> (r: Option<u64>)
        ensures
            routes(*final(self)) == routes(*old(self)).insert(key@, id),
            r == routes(*old(self)).get(key@),
    {
        self.routes.insert(key, id)
    }

    /// `DashMap::retain`: keeps the entries for which the closure says so.
    #[verifier::external_body]
    fn retain_elsewhere(&mut self, gone: u64)
        ensures
            routes(*final(self)) == routes_elsewhere(routes(*old(self)), gone),
    {
        self.routes.retain(|_key, id| leads_elsewhere(*id, gone))
    }
}

// ---------------------------------------------------------------------------
// Routing
// ---------------------------------------------------------------------------

/// The mathematical content of a `LocationManager`.
pub struct Routing {
    pub locations: Seq<Location>,
    pub routes: Map<Seq<char>, u64>,
}

/// The content of a list of locations.
pub open spec fn location_fields(locations: Seq<ProxyLocation>) -> Seq<Location> {
    locations.map_values(|loc: ProxyLocation| loc@)
}

/// Whether no two locations have the same number.
pub open spec fn ids_distinct(locations: Seq<Location>) -> bool {
    forall|i: int, j: int|
        0 <= i < locations.len() && 0 <= j < locations.len() && (#[trigger] locations[i]).id == (
        #[trigger] locations[j]).id ==> i == j
}

/// Whether a location has the number `id`.
pub open spec fn is_listed(locations: Seq<Location>, id: u64) -> bool {
    exists|i: int| 0 <= i < locations.len() && (#[trigger] locations[i]).id == id
}

/// Whether a location that is alive has the number `id`.
pub open spec fn is_alive(locations: Seq<Location>, id: u64) -> bool {
    exists|i: int|
        0 <= i < locations.len() && (#[trigger] locations[i]).id == id && !locations[i].dead
}

/// Whether a location is the best one: alive, with the fewest connections, and
/// before all others that have as few.
pub open spec fn is_best(locations: Seq<Location>, i: int) -> bool {
    &&& 0 <= i < locations.len()
    &&& !locations[i].dead
    &&& forall|j: int|
        0 <= j < locations.len() && !(#[trigger] locations[j]).dead
            ==> locations[i].connection_count <= locations[j].connection_count && (j < i
            ==> locations[i].connection_count < locations[j].connection_count)
}

/// The number of the best location, if any is alive.
pub open spec fn best(locations: Seq<Location>) -> Option<u64> {
    if exists|i: int| is_best(locations, i) {
        Some(locations[choose|i: int| is_best(locations, i)].id)
    } else {
        None
    }
}

/// The locations, with `f` done to the one that has the number `id`.
pub open spec fn with_location(
    locations: Seq<Location>,
    id: u64,
    f: spec_fn(Location) -> Location,
) -> Seq<Location> {
    locations.map_values(
        |loc: Location|
            if loc.id == id {
                f(loc)
            } else {
                loc
            },
    )
}

impl Routing {
    /// No two locations share a number, and every route leads to a location that
    /// is listed and alive.
    pub open spec fn wf(self) -> bool {
        &&& ids_distinct(self.locations)
        &&& forall|d: Seq<char>| #[trigger]
            self.routes.contains_key(d) ==> is_alive(self.locations, self.routes[d])
    }

    /// Where a distribution is sent: where its route leads, or else to the best
    /// location.
    pub open spec fn found(self, d: Seq<char>) -> Option<u64> {
        if self.routes.contains_key(d) {
            Some(self.routes[d])
        } else {
            best(self.locations)
        }
    }

    /// The routing after a distribution has been sent somewhere: its route is
    /// kept.
    pub open spec fn after_find(self, d: Seq<char>) -> Routing {
        match self.found(d) {
            Some(id) => Routing { routes: self.routes.insert(d, id), ..self },
            None => self,
        }
    }

    /// The routing after a distribution has been moved: its route, if it has
    /// one, leads to the best location.
    pub open spec fn after_move(self, d: Seq<char>) -> Routing {
        match best(self.locations) {
            Some(id) => if self.routes.contains_key(d) {
                Routing { routes: self.routes.insert(d, id), ..self }
            } else {
                self
            },
            None => self,
        }
    }

    /// The routing after a location has been given up: it is dead, and no route
    /// leads to it.
    pub open spec fn after_death(self, id: u64) -> Routing {
        Routing {
            locations: with_location(
                self.locations,
                id,
                |loc: Location| Location { dead: true, ..loc },
            ),
            routes: routes_elsewhere(self.routes, id),
        }
    }

    /// The routing after a connection to a location has been opened.
    pub open spec fn after_open(self, id: u64) -> Routing {
        Routing {
            locations: with_location(
                self.locations,
                id,
                |loc: Location| Location { connection_count: one_more(loc.connection_count), ..loc },
            ),
            ..self
        }
    }

    /// The routing after a connection to a location has been closed.
    pub open spec fn after_close(self, id: u64) -> Routing {
        Routing {
            locations: with_location(
                self.locations,
                id,
                |loc: Location| Location { connection_count: one_less(loc.connection_count), ..loc },
            ),
            ..self
        }
    }

    /// The routing after a location has been added under a number.
    pub open spec fn after_add(self, loc: Location, uri: UriFields, id: u64) -> Routing {
        Routing { locations: self.locations.push(Location { id, uri, ..loc }), ..self }
    }
}

/// The next number of connections; counting starts again behind the largest.
pub open spec fn one_more(n: u32) -> u32 {
    if n == u32::MAX {
        0
    } else {
        (n + 1) as u32
    }
}

/// The previous number of connections.
pub open spec fn one_less(n: u32) -> u32 {
    if n == 0 {
        u32::MAX
    } else {
        (n - 1) as u32
    }
}

/// What the location manager announces.
#[derive(Clone)]
pub enum LocationManagerMessage {
    /// The clients of a distribution have to go to the given location.
    MoveDistribution { distribution_id: String, new_loc: u64 },
}

/// The locations and the routes to them.
pub struct LocationManager {
    locations: Vec<ProxyLocation>,
    distributions: RouteTable,
}

impl View for LocationManager {
    type V = Routing;

    closed spec fn view(&self) -> Routing {
        Routing {
            locations: location_fields(self.locations@),
            routes: routes(self.distributions),
        }
    }
}

proof fn lemma_best(locations: Seq<Location>, i: int)
    requires
        is_best(locations, i),
    ensures
        best(locations) == Some(locations[i].id),
{
    let j = choose|j: int| is_best(locations, j);
    assert(is_best(locations, j));
    if i < j {
        assert(!locations[i].dead);
    } else if j < i {
        assert(!locations[j].dead);
    }
}

proof fn lemma_best_is_alive(locations: Seq<Location>)
    ensures
        best(locations) matches Some(id) ==> is_alive(locations, id),
{
    if exists|i: int| is_best(locations, i) {
        let i = choose|i: int| is_best(locations, i);
        assert(!locations[i].dead);
    }
}

impl LocationManager {
    /// A manager without locations.
    pub fn new() -> (r: Self)
        ensures
            r@.wf(),
            r@.locations.len() == 0,
            r@.routes == Map::<Seq<char>, u64>::empty(),
    {
        LocationManager { locations: Vec::new(), distributions: RouteTable::new() }
    }

    /// The locations.
    pub fn locations(&self) -> (r: &Vec<ProxyLocation>)
        ensures
            location_fields(r@) == self@.locations,
    {
        &self.locations
    }

    /// Where the location with a number stands.
    fn find_id(&self, id: u64) -> (r: Option<usize>)
        ensures
            match r {
                Some(i) => i < self.locations@.len() && self.locations@[i as int].id == id,
                None => !is_listed(self@.locations, id),
            },
    {
        let mut i: usize = 0;
        while i < self.locations.len()
            invariant
                i <= self.locations@.len(),
                forall|j: int| 0 <= j < i ==> (#[trigger] self.locations@[j]).id != id,
            decreases self.locations@.len() - i,
        {
            if self.locations[i].id == id {
                return Some(i);
            }
            i = i + 1;
        }
        proof {
            assert forall|j: int| 0 <= j < self@.locations.len() implies (
            #[trigger] self@.locations[j]).id != id by {
                assert(self@.locations[j] == self.locations@[j]@);
            }
        }
        None
    }

    /// The location with a number.
    pub fn location(&self, id: u64) -> (r: Option<&ProxyLocation>)
        ensures
            match r {
                Some(loc) => loc.id == id && self@.locations.contains(loc@),
                None => !is_listed(self@.locations, id),
            },
    {
        match self.find_id(id) {
            Some(i) => {
                assert(self@.locations[i as int] == self.locations@[i as int]@);
                Some(&self.locations[i])
            },
            None => None,
        }
    }

    /// The place of the best location: of those that are alive, the one with the
    /// fewest connections, and of several such the first.
    fn find_best_place(&self) -> (r: Option<usize>)
        ensures
            match r {
                Some(i) => is_best(self@.locations, i as int),
                None => forall|j: int|
                    0 <= j < self@.locations.len() ==> (#[trigger] self@.locations[j]).dead,
            },
    {
        let mut found: Option<usize> = None;
        let mut i: usize = 0;
        while i < self.locations.len()
            invariant
                i <= self.locations@.len(),
                match found {
                    Some(b) => {
                        &&& b < i
                        &&& !self.locations@[b as int].dead
                        &&& forall|j: int|
                            0 <= j < i && !(#[trigger] self.locations@[j]).dead
                                ==> self.locations@[b as int].connection_count
                                <= self.locations@[j].connection_count && (j < b
                                ==> self.locations@[b as int].connection_count
                                < self.locations@[j].connection_count)
                    },
                    None => forall|j: int| 0 <= j < i ==> (#[trigger] self.locations@[j]).dead,
                },
            decreases self.locations@.len() - i,
        {
            if !self.locations[i].dead {
                match found {
                    Some(b) => {
                        if self.locations[i].connection_count < self.locations[b].connection_count {
                            found = Some(i);
                        }
                    },
                    None => {
                        found = Some(i);
                    },
                }
            }
            i = i + 1;
        }
        proof {
            assert forall|j: int| 0 <= j < self@.locations.len() implies
                #[trigger] self@.locations[j] == self.locations@[j]@ by {}
        }
        found
    }

    /// The number of the best location: of those that are alive, the one with the
    /// fewest connections, and of several such the first.
    pub fn find_best_location(&self) -> (r: Option<u64>)
        ensures
            r == best(self@.locations),
            r matches Some(id) ==> exists|i: int|
                0 <= i < self@.locations.len() && (#[trigger] self@.locations[i]).id == id && !self@.locations[i].dead && (forall|j: int|
                    0 <= j < self@.locations.len() && !(#[trigger] self@.locations[j]).dead
                        ==> self@.locations[i].connection_count <= self@.locations[j].connection_count && (j < i
                        ==> self@.locations[i].connection_count < self@.locations[j].connection_count)),
            r is None ==> forall|j: int| 0 <= j < self@.locations.len() ==> (#[trigger] self@.locations[j]).dead,
    {
        match self.find_best_place() {
            Some(i) => {
                proof {
                    lemma_best(self@.locations, i as int);
                }
                Some(self.locations[i].id)
            },
            None => None,
        }
    }

    /// Routes a distribution to the best location, which may be the one that it
    /// goes to already, if it is routed at all, and says what is to be announced.
    /// Nothing happens if no location is alive.
    pub fn move_distribution(&mut self, d_id: String) -> (r: Option<LocationManagerMessage>)
        requires
            old(self)@.wf(),
        ensures
            final(self)@.wf(),
            final(self)@ == old(self)@.after_move(d_id@),
            match (r, best(old(self)@.locations)) {
                (
                    Some(LocationManagerMessage::MoveDistribution { distribution_id, new_loc }),
                    Some(id),
                ) => distribution_id@ == d_id@ && new_loc == id,
                (None, None) => true,
                _ => false,
            },
            final(self)@.locations == old(self)@.locations,
            r matches Some(LocationManagerMessage::MoveDistribution { distribution_id, new_loc })
                ==> {
                &&& distribution_id@ == d_id@
                &&& final(self)@.routes == if old(self)@.routes.contains_key(d_id@) {
                    old(self)@.routes.insert(d_id@, new_loc)
                } else {
                    old(self)@.routes
                }
                &&& (exists|i: int|
                    0 <= i < old(self)@.locations.len() && (#[trigger] old(self)@.locations[i]).id == new_loc && !old(self)@.locations[i].dead && (forall|j: int|
                        0 <= j < old(self)@.locations.len() && !(#[trigger] old(self)@.locations[j]).dead
                            ==> old(self)@.locations[i].connection_count <= old(self)@.locations[j].connection_count && (j < i
                            ==> old(self)@.locations[i].connection_count < old(self)@.locations[j].connection_count)))
            },
            r is None ==> final(self)@.routes == old(self)@.routes,
            r is None ==> forall|j: int| 0 <= j < old(self)@.locations.len() ==> (#[trigger] old(self)@.locations[j]).dead,
    {
        let loc: u64 = match self.find_best_location() {
            Some(id) => id,
            None => {
                return None;
            },
        };
        proof {
            lemma_best_is_alive(self@.locations);
        }
        let ghost before = self@;
        if self.distributions.get(d_id.as_str()).is_some() {
            self.distributions.insert(d_id.clone(), loc);
        }
        proof {
            lemma_routed_to_live(before, d_id@, loc);
        }
        Some(LocationManagerMessage::MoveDistribution { distribution_id: d_id, new_loc: loc })
    }

    /// The location that a distribution goes to. A distribution without a route
    /// gets one to the best location; there is no location if none is alive.
    pub fn find_location(&mut self, distribution_id: String) -> (r: Option<u64>)
        requires
            old(self)@.wf(),
        ensures
            final(self)@.wf(),
            final(self)@ == old(self)@.after_find(distribution_id@),
            r == old(self)@.found(distribution_id@),
            final(self)@.locations == old(self)@.locations,
            old(self)@.routes.contains_key(distribution_id@) ==> r == Some(
                old(self)@.routes[distribution_id@],
            ),
            !old(self)@.routes.contains_key(distribution_id@) ==> (r matches Some(id) ==> exists|i: int|
                0 <= i < old(self)@.locations.len() && (#[trigger] old(self)@.locations[i]).id == id && !old(self)@.locations[i].dead && (forall|j: int|
                    0 <= j < old(self)@.locations.len() && !(#[trigger] old(self)@.locations[j]).dead
                        ==> old(self)@.locations[i].connection_count <= old(self)@.locations[j].connection_count && (j < i
                        ==> old(self)@.locations[i].connection_count < old(self)@.locations[j].connection_count))),
            !old(self)@.routes.contains_key(distribution_id@) && r is None ==> forall|j: int| 0 <= j < old(self)@.locations.len() ==> (#[trigger] old(self)@.locations[j]).dead,
            r matches Some(id) ==> final(self)@.routes == old(self)@.routes.insert(
                distribution_id@,
                id,
            ),
            r is None ==> final(self)@.routes == old(self)@.routes,
    {
        match self.distributions.get(distribution_id.as_str()) {
            Some(id) => {
                assert(self@.routes.insert(distribution_id@, id) =~= self@.routes);
                Some(id)
            },
            None => {
                match self.find_best_location() {
                    Some(id) => {
                        proof {
                            lemma_best_is_alive(self@.locations);
                        }
                        self.distributions.insert(distribution_id, id);
                        Some(id)
                    },
                    None => None,
                }
            },
        }
    }

    /// The location that a distribution is routed to.
    pub fn get_location_ref(&self, distribution_id: &str) -> (r: Option<&ProxyLocation>)
        requires
            self@.wf(),
        ensures
            match r {
                Some(loc) => {
                    &&& self@.routes.contains_key(distribution_id@)
                    &&& loc.id == self@.routes[distribution_id@]
                    &&& self@.locations.contains(loc@)
                },
                None => !self@.routes.contains_key(distribution_id@),
            },
    {
        match self.distributions.get(distribution_id) {
            Some(id) => self.location(id),
            None => None,
        }
    }

    /// Gives a location up: it is dead, and no distribution is routed to it.
    pub fn mark_dead(&mut self, id: u64)
        requires
            old(self)@.wf(),
        ensures
            final(self)@.wf(),
            final(self)@ == old(self)@.after_death(id),
    {
        let ghost before = self@;
        let ghost listed = self.locations@;
        match self.find_id(id) {
            Some(i) => {
                self.locations[i].dead = true;
                proof {
                    lemma_one_written(listed, self.locations@, i as int, id);
                }
            },
            None => {},
        }
        self.distributions.retain_elsewhere(id);
        proof {
            assert(self@.locations =~= before.after_death(id).locations);
            lemma_death_keeps_wf(before, id);
        }
    }

    /// Counts a connection that was opened to a location.
    pub fn connection_opened(&mut self, id: u64)
        requires
            old(self)@.wf(),
        ensures
            final(self)@.wf(),
            final(self)@ == old(self)@.after_open(id),
    {
        let ghost before = self@;
        let ghost listed = self.locations@;
        match self.find_id(id) {
            Some(i) => {
                let n: u32 = self.locations[i].connection_count;
                self.locations[i].connection_count = n.wrapping_add(1);
                proof {
                    assert(self.locations@[i as int].connection_count == one_more(n));
                    lemma_one_written(listed, self.locations@, i as int, id);
                }
            },
            None => {},
        }
        proof {
            assert(self@.locations =~= before.after_open(id).locations);
            lemma_same_liveness(before, self@);
        }
    }

    /// Counts a connection to a location that was closed.
    pub fn connection_closed(&mut self, id: u64)
        requires
            old(self)@.wf(),
        ensures
            final(self)@.wf(),
            final(self)@ == old(self)@.after_close(id),
    {
        let ghost before = self@;
        let ghost listed = self.locations@;
        match self.find_id(id) {
            Some(i) => {
                let n: u32 = self.locations[i].connection_count;
                self.locations[i].connection_count = n.wrapping_sub(1);
                proof {
                    assert(self.locations@[i as int].connection_count == one_less(n));
                    lemma_one_written(listed, self.locations@, i as int, id);
                }
            },
            None => {},
        }
        proof {
            assert(self@.locations =~= before.after_close(id).locations);
            lemma_same_liveness(before, self@);
        }
    }
}

/// There are fewer taken numbers than locations: a list that takes all numbers
/// below `n` has at least `n` entries.
proof fn lemma_taken_numbers(locations: Seq<Location>, n: nat)
    requires
        forall|k: u64| k < n ==> is_listed(locations, k),
        n <= u64::MAX + 1,
    ensures
        n <= locations.len(),
{
    let ids = locations.map_values(|loc: Location| loc.id as int);
    let low = vstd::set_lib::set_int_range(0, n as int);
    assert forall|k: int| low.contains(k) implies #[trigger] ids.to_set().contains(k) by {
        let id = k as u64;
        assert(is_listed(locations, id));
        let i = choose|i: int| 0 <= i < locations.len() && (#[trigger] locations[i]).id == id;
        assert(ids[i] == k);
    }
    vstd::set_lib::lemma_int_range(0, n as int);
    ids.lemma_cardinality_of_set();
    vstd::seq_lib::seq_to_set_is_finite(ids);
    vstd::set_lib::lemma_len_subset(low, ids.to_set());
}

impl LocationManager {
    /// A number that no location has: drawn by chance, or the smallest one if
    /// chance keeps hitting taken numbers.
    fn fresh_id(&self) -> (r: u64)
        ensures
            !is_listed(self@.locations, r),
    {
        let mut draws_left: u64 = u64::MAX;
        while draws_left > 0
            decreases draws_left,
        {
            let id: u64 = random_u64();
            if self.find_id(id).is_none() {
                return id;
            }
            draws_left = draws_left - 1;
        }
        let n: usize = self.locations.len();
        let mut id: u64 = 0;
        while self.find_id(id).is_some()
            invariant
                n == self@.locations.len(),
                forall|k: u64| k < id ==> is_listed(self@.locations, k),
            decreases u64::MAX - id,
        {
            proof {
                assert(is_listed(self@.locations, id)) by {
                    let i = choose|i: int|
                        0 <= i < self.locations@.len() && (#[trigger] self.locations@[i]).id == id;
                    assert(self@.locations[i].id == id);
                }
                lemma_taken_numbers(self@.locations, (id + 1) as nat);
            }
            id = id + 1;
        }
        id
    }

    /// Adds a location under a number that no other one has. A secure address
    /// without a port gets the port written out. `false` says that it takes
    /// none, and that nothing was added.
    pub fn add_location_as(&mut self, loc: ProxyLocation, id: u64) -> (r: bool)
        requires
            old(self)@.wf(),
            !is_listed(old(self)@.locations, id),
        ensures
            final(self)@.wf(),
            r == loc@.uri.with_default_port().is_some(),
            final(self)@ == match loc@.uri.with_default_port() {
                Some(uri) => old(self)@.after_add(loc@, uri, id),
                None => old(self)@,
            },
            r && loc@.uri.lacks_secure_port() && loc@.uri.wf() ==> final(self)@.locations.last().uri
                == loc@.uri.with_secure_port(),
    {
        let ghost before = self@;
        let ProxyLocation { id: _, uri, connection_count, dead, secure } = loc;
        match uri.with_default_port() {
            Some(uri) => {
                self.locations.push(ProxyLocation { id, uri, connection_count, dead, secure });
                proof {
                    assert(self@.locations =~= before.after_add(
                        loc@,
                        loc@.uri.with_default_port().unwrap(),
                        id,
                    ).locations);
                    lemma_added(before, self@.locations.last());
                }
                true
            },
            None => false,
        }
    }

    /// Adds a location under a number that chance picks, and says which.
    /// `None` says that the address takes no port, and that nothing was added.
    pub fn add_location(&mut self, loc: ProxyLocation) -> (r: Option<u64>)
        requires
            old(self)@.wf(),
        ensures
            final(self)@.wf(),
            match (r, loc@.uri.with_default_port()) {
                (Some(id), Some(uri)) => {
                    &&& !is_listed(old(self)@.locations, id)
                    &&& final(self)@ == old(self)@.after_add(loc@, uri, id)
                },
                (None, None) => final(self)@ == old(self)@,
                _ => false,
            },
            r is Some && loc@.uri.lacks_secure_port() && loc@.uri.wf() ==> (
            final(self)@.locations.last().uri == loc@.uri.with_secure_port()),
    {
        let id: u64 = self.fresh_id();
        if self.add_location_as(loc, id) {
            Some(id)
        } else {
            None
        }
    }
}

/// Routing stays well-formed when a location with a new number is added.
proof fn lemma_added(routing: Routing, loc: Location)
    requires
        routing.wf(),
        !is_listed(routing.locations, loc.id),
    ensures
        (Routing { locations: routing.locations.push(loc), ..routing }).wf(),
{
    let after = Routing { locations: routing.locations.push(loc), ..routing };
    assert forall|i: int, j: int|
        0 <= i < after.locations.len() && 0 <= j < after.locations.len() && (
        #[trigger] after.locations[i]).id == (#[trigger] after.locations[j]).id implies i == j by {
        if i < routing.locations.len() {
            assert(routing.locations[i].id == after.locations[i].id);
        }
        if j < routing.locations.len() {
            assert(routing.locations[j].id == after.locations[j].id);
        }
    }
    assert forall|d: Seq<char>| #[trigger] after.routes.contains_key(d) implies is_alive(
        after.locations,
        after.routes[d],
    ) by {
        let to = routing.routes[d];
        assert(is_alive(routing.locations, to));
        let i = choose|i: int|
            0 <= i < routing.locations.len() && (#[trigger] routing.locations[i]).id == to
                && !routing.locations[i].dead;
        assert(after.locations[i] == routing.locations[i]);
    }
}

/// Routing stays well-formed when a route is led to a location that is alive.
proof fn lemma_routed_to_live(routing: Routing, d: Seq<char>, id: u64)
    requires
        routing.wf(),
        is_alive(routing.locations, id),
    ensures
        (Routing { routes: routing.routes.insert(d, id), ..routing }).wf(),
{
}

/// What a list of locations holds after the one with the number `id` was written.
proof fn lemma_one_written(before: Seq<ProxyLocation>, after: Seq<ProxyLocation>, i: int, id: u64)
    requires
        ids_distinct(location_fields(before)),
        0 <= i < before.len(),
        before[i].id == id,
        after == before.update(i, after[i]),
    ensures
        location_fields(after) == location_fields(before).update(i, after[i]@),
        forall|j: int|
            0 <= j < before.len() && (#[trigger] location_fields(before)[j]).id == id ==> j == i,
{
    assert(location_fields(before)[i].id == id);
    assert(location_fields(after) =~= location_fields(before).update(i, after[i]@));
}

/// Routing stays well-formed when only addresses and counts change.
proof fn lemma_same_liveness(before: Routing, after: Routing)
    requires
        before.wf(),
        before.locations.len() == after.locations.len(),
        forall|i: int|
            0 <= i < before.locations.len() ==> (#[trigger] after.locations[i]).id
                == before.locations[i].id && after.locations[i].dead == before.locations[i].dead,
        after.routes == before.routes,
    ensures
        after.wf(),
{
    assert forall|i: int, j: int|
        0 <= i < after.locations.len() && 0 <= j < after.locations.len() && (
        #[trigger] after.locations[i]).id == (#[trigger] after.locations[j]).id implies i == j by {
        assert(before.locations[i].id == before.locations[j].id);
    }
    assert forall|d: Seq<char>| #[trigger] after.routes.contains_key(d) implies is_alive(
        after.locations,
        after.routes[d],
    ) by {
        let id = before.routes[d];
        assert(is_alive(before.locations, id));
        let i = choose|i: int|
            0 <= i < before.locations.len() && (#[trigger] before.locations[i]).id == id
                && !before.locations[i].dead;
        assert(after.locations[i].id == id);
    }
}

proof fn lemma_death_keeps_wf(before: Routing, id: u64)
    requires
        before.wf(),
    ensures
        before.after_death(id).wf(),
{
    let after = before.after_death(id);
    assert forall|i: int| 0 <= i < before.locations.len() implies (
    #[trigger] after.locations[i]).id == before.locations[i].id by {}
    assert forall|i: int, j: int|
        0 <= i < after.locations.len() && 0 <= j < after.locations.len() && (
        #[trigger] after.locations[i]).id == (#[trigger] after.locations[j]).id implies i == j by {
        assert(before.locations[i].id == before.locations[j].id);
    }
    assert forall|d: Seq<char>| #[trigger] after.routes.contains_key(d) implies is_alive(
        after.locations,
        after.routes[d],
    ) by {
        let to = before.routes[d];
        assert(before.routes.contains_key(d));
        let i = choose|i: int|
            0 <= i < before.locations.len() && (#[trigger] before.locations[i]).id == to
                && !before.locations[i].dead;
        assert(after.locations[i] == before.locations[i]);
    }
}

// ---------------------------------------------------------------------------
// Laws
// ---------------------------------------------------------------------------

proof fn lemma_best_exists(locations: Seq<Location>, n: int) -> (i: int)
    requires
        0 <= n <= locations.len(),
        exists|j: int| 0 <= j < n && !(#[trigger] locations[j]).dead,
    ensures
        0 <= i < n,
        is_best(locations.take(n), i),
    decreases n,
{
    let part = locations.take(n);
    let last = locations[n - 1];
    if exists|j: int| 0 <= j < n - 1 && !(#[trigger] locations[j]).dead {
        let i = lemma_best_exists(locations, n - 1);
        let shorter = locations.take(n - 1);
        assert forall|j: int| 0 <= j < n - 1 implies #[trigger] part[j] == shorter[j] by {}
        assert(part[n - 1] == last);
        if !last.dead && last.connection_count < part[i].connection_count {
            n - 1
        } else {
            i
        }
    } else {
        assert forall|j: int| 0 <= j < n && !(#[trigger] part[j]).dead implies j == n - 1 by {
            assert(part[j] == locations[j]);
        }
        assert(part[n - 1] == last);
        n - 1
    }
}

/// There is a best location exactly if any is alive. It is listed, alive, and
/// no location that is alive has fewer connections.
pub proof fn law_best_location(locations: Seq<Location>)
    ensures
        best(locations) is Some <==> exists|j: int|
            0 <= j < locations.len() && !(#[trigger] locations[j]).dead,
        best(locations) matches Some(id) ==> exists|i: int| #[trigger]
            is_best(locations, i) && locations[i].id == id,
{
    if exists|j: int| 0 <= j < locations.len() && !(#[trigger] locations[j]).dead {
        let i = lemma_best_exists(locations, locations.len() as int);
        assert(locations.take(locations.len() as int) =~= locations);
        lemma_best(locations, i);
    } else if exists|i: int| is_best(locations, i) {
        let i = choose|i: int| is_best(locations, i);
        assert(!locations[i].dead);
    }
}

/// A distribution is only ever sent to a location that is listed and alive.
pub proof fn law_found_is_alive(routing: Routing, d: Seq<char>)
    requires
        routing.wf(),
    ensures
        routing.found(d) matches Some(id) ==> is_alive(routing.locations, id),
{
    lemma_best_is_alive(routing.locations);
}

/// Sending one distribution somewhere leaves all others where they were.
pub proof fn law_find_leaves_others(routing: Routing, d: Seq<char>, other: Seq<char>)
    requires
        d != other,
    ensures
        routing.after_find(d).found(other) == routing.found(other),
{
}

/// A location that was given up is not alive, gets no distribution any more,
/// and the distributions of all other locations stay where they are.
pub proof fn law_dead_location_is_left(routing: Routing, id: u64, d: Seq<char>)
    requires
        routing.wf(),
    ensures
        routing.after_death(id).wf(),
        !is_alive(routing.after_death(id).locations, id),
        routing.after_death(id).found(d) != Some(id),
        routing.routes.contains_key(d) && routing.routes[d] != id ==> routing.after_death(id).found(
            d,
        ) == routing.found(d),
        forall|other: u64|
            other != id ==> is_alive(routing.after_death(id).locations, other) == is_alive(
                routing.locations,
                other,
            ),
{
    let after = routing.after_death(id);
    lemma_death_keeps_wf(routing, id);
    if is_alive(after.locations, id) {
        let i = choose|i: int|
            0 <= i < after.locations.len() && (#[trigger] after.locations[i]).id == id
                && !after.locations[i].dead;
        assert(routing.locations[i].id == id);
    }
    law_found_is_alive(after, d);
    assert forall|other: u64| other != id implies is_alive(after.locations, other) == is_alive(
        routing.locations,
        other,
    ) by {
        if is_alive(after.locations, other) {
            let i = choose|i: int|
                0 <= i < after.locations.len() && (#[trigger] after.locations[i]).id == other
                    && !after.locations[i].dead;
            assert(routing.locations[i] == after.locations[i]);
        }
        if is_alive(routing.locations, other) {
            let i = choose|i: int|
                0 <= i < routing.locations.len() && (#[trigger] routing.locations[i]).id == other
                    && !routing.locations[i].dead;
            assert(routing.locations[i] == after.locations[i]);
        }
    }
}

/// Nothing brings a dead location back: whatever is sent, moved, opened, closed or
/// given up, and whatever is added under another number, the location is alive
/// afterwards only if it was before; and only being given up ends its life.
pub proof fn law_dead_stays_dead(
    routing: Routing,
    d: Seq<char>,
    id: u64,
    other: u64,
    loc: Location,
    uri: UriFields,
)
    ensures
        is_alive(routing.after_find(d).locations, id) == is_alive(routing.locations, id),
        is_alive(routing.after_move(d).locations, id) == is_alive(routing.locations, id),
        is_alive(routing.after_open(other).locations, id) == is_alive(routing.locations, id),
        is_alive(routing.after_close(other).locations, id) == is_alive(routing.locations, id),
        is_alive(routing.after_death(other).locations, id) ==> is_alive(routing.locations, id),
        id != other ==> is_alive(routing.after_add(loc, uri, other).locations, id) == is_alive(
            routing.locations,
            id,
        ),
{
    lemma_alive_alike(routing.locations, routing.after_open(other).locations, id);
    lemma_alive_alike(routing.after_open(other).locations, routing.locations, id);
    lemma_alive_alike(routing.locations, routing.after_close(other).locations, id);
    lemma_alive_alike(routing.after_close(other).locations, routing.locations, id);
    let given_up = routing.after_death(other).locations;
    if is_alive(given_up, id) {
        let i = choose|i: int|
            0 <= i < given_up.len() && (#[trigger] given_up[i]).id == id && !given_up[i].dead;
        assert(routing.locations[i].id == id && !routing.locations[i].dead);
    }
    let added = routing.after_add(loc, uri, other).locations;
    if id != other && is_alive(added, id) {
        let i = choose|i: int|
            0 <= i < added.len() && (#[trigger] added[i]).id == id && !added[i].dead;
        assert(routing.locations[i] == added[i]);
    }
    if is_alive(routing.locations, id) {
        let i = choose|i: int|
            0 <= i < routing.locations.len() && (#[trigger] routing.locations[i]).id == id
                && !routing.locations[i].dead;
        assert(added[i] == routing.locations[i]);
    }
}

/// One thing that happens to the routing.
pub enum RoutingStep {
    Find(Seq<char>),
    Move(Seq<char>),
    Open(u64),
    Close(u64),
    Death(u64),
    Add(Location, UriFields, u64),
}

impl Routing {
    /// The routing after a step.
    pub open spec fn after(self, step: RoutingStep) -> Routing {
        match step {
            RoutingStep::Find(d) => self.after_find(d),
            RoutingStep::Move(d) => self.after_move(d),
            RoutingStep::Open(id) => self.after_open(id),
            RoutingStep::Close(id) => self.after_close(id),
            RoutingStep::Death(id) => self.after_death(id),
            RoutingStep::Add(loc, uri, id) => self.after_add(loc, uri, id),
        }
    }

    /// Whether a step can be taken: a location is added under a number that no
    /// other one has.
    pub open spec fn allows(self, step: RoutingStep) -> bool {
        match step {
            RoutingStep::Add(_, _, id) => !is_listed(self.locations, id),
            _ => true,
        }
    }

    /// Whether steps can be taken one after the other.
    pub open spec fn allows_all(self, steps: Seq<RoutingStep>) -> bool
        decreases steps.len(),
    {
        steps.len() == 0 || (self.allows(steps[0]) && self.after(steps[0]).allows_all(
            steps.drop_first(),
        ))
    }

    /// The routing after steps that are taken one after the other.
    pub open spec fn after_all(self, steps: Seq<RoutingStep>) -> Routing
        decreases steps.len(),
    {
        if steps.len() == 0 {
            self
        } else {
            self.after(steps[0]).after_all(steps.drop_first())
        }
    }
}

/// A distribution stays where it was sent, whatever happens afterwards, as long as
/// it is not moved itself and its location is not given up: asking again gives
/// the same answer. Asking twice in a row changes nothing the second time.
pub proof fn law_find_is_sticky(routing: Routing, d: Seq<char>, steps: Seq<RoutingStep>)
    requires
        routing.found(d) is Some,
        forall|i: int|
            0 <= i < steps.len() ==> #[trigger] steps[i] != RoutingStep::Move(d) && steps[i]
                != RoutingStep::Death(routing.found(d).unwrap()),
    ensures
        routing.after_find(d).after_all(steps).found(d) == routing.found(d),
        routing.after_find(d).after_find(d) == routing.after_find(d),
{
    let once = routing.after_find(d);
    let id = routing.found(d).unwrap();
    assert(once.routes.insert(d, id) =~= once.routes);
    lemma_route_stays(once, d, id, steps);
}

proof fn lemma_route_stays(routing: Routing, d: Seq<char>, id: u64, steps: Seq<RoutingStep>)
    requires
        routing.routes.contains_key(d),
        routing.routes[d] == id,
        forall|i: int|
            0 <= i < steps.len() ==> #[trigger] steps[i] != RoutingStep::Move(d) && steps[i]
                != RoutingStep::Death(id),
    ensures
        routing.after_all(steps).routes.contains_key(d),
        routing.after_all(steps).routes[d] == id,
    decreases steps.len(),
{
    if steps.len() > 0 {
        let rest = steps.drop_first();
        assert(steps[0] != RoutingStep::Move(d) && steps[0] != RoutingStep::Death(id));
        assert forall|i: int| 0 <= i < rest.len() implies #[trigger] rest[i]
            != RoutingStep::Move(d) && rest[i] != RoutingStep::Death(id) by {
            assert(rest[i] == steps[i + 1]);
        }
        lemma_route_stays(routing.after(steps[0]), d, id, rest);
    }
}

/// Routing that is well-formed is so after every step.
pub proof fn law_steps_keep_wf(routing: Routing, step: RoutingStep)
    requires
        routing.wf(),
        routing.allows(step),
    ensures
        routing.after(step).wf(),
{
    lemma_best_is_alive(routing.locations);
    match step {
        RoutingStep::Find(d) => {
            law_found_is_alive(routing, d);
            match routing.found(d) {
                Some(id) => {
                    lemma_routed_to_live(routing, d, id);
                },
                None => {},
            }
        },
        RoutingStep::Move(d) => {
            match best(routing.locations) {
                Some(id) => {
                    lemma_routed_to_live(routing, d, id);
                },
                None => {},
            }
        },
        RoutingStep::Open(_) => {
            lemma_same_liveness(routing, routing.after(step));
        },
        RoutingStep::Close(_) => {
            lemma_same_liveness(routing, routing.after(step));
        },
        RoutingStep::Death(id) => {
            lemma_death_keeps_wf(routing, id);
        },
        RoutingStep::Add(loc, uri, id) => {
            lemma_added(routing, Location { id, uri, ..loc });
        },
    }
}

/// A listed location stays listed in every step.
proof fn lemma_stays_listed(routing: Routing, step: RoutingStep, id: u64)
    requires
        is_listed(routing.locations, id),
    ensures
        is_listed(routing.after(step).locations, id),
{
    let i = choose|i: int|
        0 <= i < routing.locations.len() && (#[trigger] routing.locations[i]).id == id;
    assert(routing.after(step).locations[i].id == id);
}

/// A location that is dead is never picked again, whatever happens afterwards and
/// however few connections it has: no distribution is sent to it.
pub proof fn law_dead_location_is_never_picked(
    routing: Routing,
    id: u64,
    steps: Seq<RoutingStep>,
    d: Seq<char>,
)
    requires
        routing.wf(),
        is_listed(routing.locations, id),
        !is_alive(routing.locations, id),
        routing.allows_all(steps),
    ensures
        routing.after_all(steps).wf(),
        is_listed(routing.after_all(steps).locations, id),
        !is_alive(routing.after_all(steps).locations, id),
        best(routing.after_all(steps).locations) != Some(id),
        routing.after_all(steps).found(d) != Some(id),
    decreases steps.len(),
{
    if steps.len() == 0 {
        lemma_best_is_alive(routing.locations);
        law_found_is_alive(routing, d);
    } else {
        let step = steps[0];
        law_steps_keep_wf(routing, step);
        lemma_stays_listed(routing, step, id);
        match step {
            RoutingStep::Find(e) => {
                law_dead_stays_dead(routing, e, id, id, arbitrary(), arbitrary());
            },
            RoutingStep::Move(e) => {
                law_dead_stays_dead(routing, e, id, id, arbitrary(), arbitrary());
            },
            RoutingStep::Open(other) => {
                law_dead_stays_dead(routing, d, id, other, arbitrary(), arbitrary());
            },
            RoutingStep::Close(other) => {
                law_dead_stays_dead(routing, d, id, other, arbitrary(), arbitrary());
            },
            RoutingStep::Death(other) => {
                law_dead_stays_dead(routing, d, id, other, arbitrary(), arbitrary());
            },
            RoutingStep::Add(loc, uri, other) => {
                law_dead_stays_dead(routing, d, id, other, loc, uri);
            },
        }
        law_dead_location_is_never_picked(routing.after(step), id, steps.drop_first(), d);
    }
}

proof fn lemma_alive_alike(a: Seq<Location>, b: Seq<Location>, id: u64)
    requires
        a.len() == b.len(),
        forall|i: int|
            0 <= i < a.len() ==> (#[trigger] b[i]).id == a[i].id && b[i].dead == a[i].dead,
    ensures
        is_alive(a, id) ==> is_alive(b, id),
{
    if is_alive(a, id) {
        let i = choose|i: int| 0 <= i < a.len() && (#[trigger] a[i]).id == id && !a[i].dead;
        assert(b[i].id == id);
    }
}

/// A move sends the distribution to the best location if it was routed; it makes
/// no new route and leaves all other distributions where they were.
pub proof fn law_move_reroutes(routing: Routing, d: Seq<char>, other: Seq<char>)
    ensures
        routing.after_move(d).routes.dom() == routing.routes.dom(),
        routing.routes.contains_key(d) && best(routing.locations) is Some ==> routing.after_move(
            d,
        ).found(d) == best(routing.locations),
        other != d ==> routing.after_move(d).found(other) == routing.found(other),
{
    assert(routing.after_move(d).routes.dom() =~= routing.routes.dom());
}

/// Closing a connection undoes the count of opening it.
pub proof fn law_close_undoes_open(routing: Routing, id: u64)
    ensures
        routing.after_open(id).after_close(id) == routing,
{
    assert(routing.after_open(id).after_close(id).locations =~= routing.locations);
}

/// A location that was added is listed; the other ones and all routes stay as
/// they were.
pub proof fn law_added_location_is_listed(routing: Routing, loc: Location, uri: UriFields, id: u64)
    ensures
        is_listed(routing.after_add(loc, uri, id).locations, id),
        routing.after_add(loc, uri, id).locations.drop_last() == routing.locations,
        routing.after_add(loc, uri, id).routes == routing.routes,
{
    let after = routing.after_add(loc, uri, id);
    assert(after.locations[routing.locations.len() as int].id == id);
    assert(after.locations.drop_last() =~= routing.locations);
}

/// The best location by its connections: it is alive, no location that is alive has
/// fewer, and every one before it that is alive has more. There is none only if
/// all are dead.
pub proof fn law_fewest_connections(locations: Seq<Location>, i: int)
    ensures
        0 <= i < locations.len() && !locations[i].dead && (forall|j: int|
            0 <= j < locations.len() && !(#[trigger] locations[j]).dead
                ==> locations[i].connection_count <= locations[j].connection_count && (j < i
                ==> locations[i].connection_count < locations[j].connection_count)) ==> best(
            locations,
        ) == Some(locations[i].id),
        best(locations) matches Some(id) ==> exists|i: int|
            0 <= i < locations.len() && (#[trigger] locations[i]).id == id && !locations[i].dead && (forall|j: int|
                0 <= j < locations.len() && !(#[trigger] locations[j]).dead
                    ==> locations[i].connection_count <= locations[j].connection_count && (j < i
                    ==> locations[i].connection_count < locations[j].connection_count)),
        best(locations) is None <==> forall|j: int| 0 <= j < locations.len() ==> (#[trigger] locations[j]).dead,
{
    if 0 <= i < locations.len() && !locations[i].dead && (forall|j: int|
        0 <= j < locations.len() && !(#[trigger] locations[j]).dead
            ==> locations[i].connection_count <= locations[j].connection_count && (j < i
            ==> locations[i].connection_count < locations[j].connection_count)) {
        lemma_best(locations, i);
    }
    law_best_location(locations);
    if best(locations) is Some {
        let b = choose|b: int| is_best(locations, b);
        assert(is_best(locations, b));
        assert(locations[b].id == best(locations).unwrap());
    }
}

/// A distribution that has a route stays there. One that has none goes to the
/// location that is alive and has the fewest connections, the first of several
/// such, and nowhere only if all are dead.
pub proof fn law_where_a_distribution_goes(routing: Routing, d: Seq<char>)
    ensures
        routing.routes.contains_key(d) ==> routing.found(d) == Some(routing.routes[d]),
        !routing.routes.contains_key(d) ==> (routing.found(d) matches Some(id) ==> exists|i: int|
            0 <= i < routing.locations.len() && (#[trigger] routing.locations[i]).id == id && !routing.locations[i].dead && (forall|j: int|
                0 <= j < routing.locations.len() && !(#[trigger] routing.locations[j]).dead
                    ==> routing.locations[i].connection_count <= routing.locations[j].connection_count && (j < i
                    ==> routing.locations[i].connection_count < routing.locations[j].connection_count))),
        !routing.routes.contains_key(d) ==> (routing.found(d) is None <==> forall|j: int| 0 <= j < routing.locations.len() ==> (#[trigger] routing.locations[j]).dead),
{
    law_fewest_connections(routing.locations, 0);
}

/// Sending a distribution somewhere writes its route down, and nothing else.
pub proof fn law_find_writes_one_route(routing: Routing, d: Seq<char>, other: Seq<char>)
    ensures
        routing.after_find(d).locations == routing.locations,
        routing.found(d) matches Some(id) ==> routing.after_find(d).routes.contains_key(d)
            && routing.after_find(d).routes[d] == id,
        routing.found(d) is None ==> routing.after_find(d).routes == routing.routes,
        other != d ==> routing.after_find(d).routes.contains_key(other)
            == routing.routes.contains_key(other),
        other != d && routing.routes.contains_key(other) ==> routing.after_find(d).routes[other]
            == routing.routes[other],
{
}

/// A move writes down the route of a distribution that has one, to the location
/// with the fewest connections, and nothing else.
pub proof fn law_move_writes_one_route(routing: Routing, d: Seq<char>, other: Seq<char>)
    ensures
        routing.after_move(d).locations == routing.locations,
        routing.after_move(d).routes.contains_key(other) == routing.routes.contains_key(other),
        other != d && routing.routes.contains_key(other) ==> routing.after_move(d).routes[other]
            == routing.routes[other],
        routing.routes.contains_key(d) && (exists|j: int|
            0 <= j < routing.locations.len() && !(#[trigger] routing.locations[j]).dead) ==> (exists|i: int|
            0 <= i < routing.locations.len() && (#[trigger] routing.locations[i]).id == routing.after_move(d).routes[d] && !routing.locations[i].dead && (forall|j: int|
                0 <= j < routing.locations.len() && !(#[trigger] routing.locations[j]).dead
                    ==> routing.locations[i].connection_count <= routing.locations[j].connection_count && (j < i
                    ==> routing.locations[i].connection_count < routing.locations[j].connection_count))),
        routing.routes.contains_key(d) && (forall|j: int|
            0 <= j < routing.locations.len() ==> (#[trigger] routing.locations[j]).dead)
            ==> routing.after_move(d).routes[d] == routing.routes[d],
{
    law_fewest_connections(routing.locations, 0);
}

/// What giving a location up changes: the location is dead, and the routes that
/// led to it are gone.
pub proof fn law_death_by_parts(routing: Routing, id: u64, i: int, d: Seq<char>)
    requires
        0 <= i < routing.locations.len(),
    ensures
        routing.after_death(id).locations.len() == routing.locations.len(),
        routing.after_death(id).locations[i].dead == (routing.locations[i].dead
            || routing.locations[i].id == id),
        routing.after_death(id).locations[i].id == routing.locations[i].id,
        routing.after_death(id).locations[i].uri == routing.locations[i].uri,
        routing.after_death(id).locations[i].secure == routing.locations[i].secure,
        routing.after_death(id).locations[i].connection_count
            == routing.locations[i].connection_count,
        routing.after_death(id).routes.contains_key(d) <==> routing.routes.contains_key(d)
            && routing.routes[d] != id,
        routing.after_death(id).routes.contains_key(d) ==> routing.after_death(id).routes[d]
            == routing.routes[d],
{
}

/// What counting a connection changes: the count of its location goes up or down
/// by one, in the numbers modulo two to the power of 32, and nothing else changes.
pub proof fn law_counts_by_parts(routing: Routing, id: u64, i: int)
    requires
        0 <= i < routing.locations.len(),
    ensures
        ({
            let loc = routing.locations[i];
            let opened = routing.after_open(id).locations[i];
            let closed = routing.after_close(id).locations[i];
            &&& loc.id == id ==> opened.connection_count == (loc.connection_count + 1)
                % 0x1_0000_0000
            &&& loc.id == id ==> closed.connection_count == (loc.connection_count - 1)
                % 0x1_0000_0000
            &&& loc.id != id ==> opened == loc && closed == loc
            &&& opened.id == loc.id && opened.uri == loc.uri && opened.dead == loc.dead
                && opened.secure == loc.secure
            &&& closed.id == loc.id && closed.uri == loc.uri && closed.dead == loc.dead
                && closed.secure == loc.secure
        }),
        routing.after_open(id).locations.len() == routing.locations.len(),
        routing.after_close(id).locations.len() == routing.locations.len(),
        routing.after_open(id).routes == routing.routes,
        routing.after_close(id).routes == routing.routes,
{
}

/// What adding a location changes: one more stands behind the others, with the
/// given number and address and everything else as it was given.
pub proof fn law_addition_by_parts(
    routing: Routing,
    loc: Location,
    uri: UriFields,
    id: u64,
    i: int,
)
    requires
        0 <= i < routing.locations.len(),
    ensures
        ({
            let after = routing.after_add(loc, uri, id);
            let last = after.locations[after.locations.len() - 1];
            &&& after.locations.len() == routing.locations.len() + 1
            &&& after.locations[i] == routing.locations[i]
            &&& last.id == id
            &&& last.uri == uri
            &&& last.connection_count == loc.connection_count
            &&& last.dead == loc.dead
            &&& last.secure == loc.secure
            &&& after.routes == routing.routes
        }),
{
}

/// A location is listed if one has its number, and alive if one has its number and
/// is not dead; routing is well-formed if numbers are not shared and every route
/// leads to a location that is alive.
pub proof fn law_routing_words(routing: Routing, id: u64)
    ensures
        is_listed(routing.locations, id) <==> exists|i: int|
            0 <= i < routing.locations.len() && (#[trigger] routing.locations[i]).id == id,
        is_alive(routing.locations, id) <==> exists|i: int|
            0 <= i < routing.locations.len() && (#[trigger] routing.locations[i]).id == id
                && !routing.locations[i].dead,
        routing.wf() ==> forall|i: int, j: int|
            0 <= i < routing.locations.len() && 0 <= j < routing.locations.len() && (
            #[trigger] routing.locations[i]).id == (#[trigger] routing.locations[j]).id ==> i == j,
        routing.wf() ==> forall|d: Seq<char>| #[trigger]
            routing.routes.contains_key(d) ==> exists|i: int|
                0 <= i < routing.locations.len() && (#[trigger] routing.locations[i]).id
                    == routing.routes[d] && !routing.locations[i].dead,
{
    if routing.wf() {
        assert forall|d: Seq<char>| #[trigger] routing.routes.contains_key(d) implies exists|
            i: int,
        |
            0 <= i < routing.locations.len() && (#[trigger] routing.locations[i]).id
                == routing.routes[d] && !routing.locations[i].dead by {
            assert(is_alive(routing.locations, routing.routes[d]));
        }
    }
}

/// The content of a location is all of its fields, and that of a list is the
/// content of each.
pub proof fn law_location_content(locations: Seq<ProxyLocation>, i: int)
    requires
        0 <= i < locations.len(),
    ensures
        location_fields(locations).len() == locations.len(),
        location_fields(locations)[i].id == locations[i].id,
        location_fields(locations)[i].uri == locations[i].uri@,
        location_fields(locations)[i].connection_count == locations[i].connection_count,
        location_fields(locations)[i].dead == locations[i].dead,
        location_fields(locations)[i].secure == locations[i].secure,
{
}

} // verus!
