use websocket_balancer::location_manager::{LocationManager, LocationManagerMessage, ProxyLocation};
use websocket_balancer::uri::ParsedUri;

fn location(address: &str) -> ProxyLocation {
    ProxyLocation::new().uri(ParsedUri::parse(address).unwrap()).build().unwrap()
}

fn manager(n: u64) -> LocationManager {
    let mut lm = LocationManager::new();
    for id in 1..=n {
        assert!(lm.add_location_as(location(&format!("ws://10.0.0.{}:80", id)), id));
    }
    lm
}

fn send(lm: &mut LocationManager, d: &str) -> Option<u64> {
    lm.find_location(d.to_string())
}

#[test]
fn parts_of_an_address() {
    let uri = ParsedUri::parse("wss://example.org:9000/a/b?x=1&y").unwrap();
    assert_eq!(uri.text, "wss://example.org:9000/a/b?x=1&y");
    assert_eq!(uri.scheme.as_deref(), Some("wss"));
    assert_eq!(uri.authority.as_deref(), Some("example.org:9000"));
    assert_eq!(uri.host.as_deref(), Some("example.org"));
    assert_eq!(uri.port, Some(9000));
    assert_eq!(uri.query.as_deref(), Some("x=1&y"));
    assert_eq!(uri.path, "/a/b");
    let path = ParsedUri::parse("/only/a/path").unwrap();
    assert!(path.scheme.is_none());
    assert!(path.authority.is_none());
    assert!(path.port.is_none());
    assert!(ParsedUri::parse("not an address").is_none());
}

#[test]
fn default_location() {
    let loc = ProxyLocation::default();
    assert_eq!(loc.uri.authority.as_deref(), Some("127.0.0.1:80"));
    assert_eq!(loc.uri.scheme.as_deref(), Some("ws"));
    assert_eq!(loc.connection_count, 0);
    assert!(!loc.dead);
    assert!(!loc.secure);
}

#[test]
fn builder_of_a_location() {
    let loc = ProxyLocation::new()
        .uri(ParsedUri::parse("ws://127.0.0.1:13338").unwrap())
        .secure(true)
        .build()
        .unwrap();
    assert_eq!(loc.id, 0);
    assert_eq!(loc.connection_count, 0);
    assert!(!loc.dead);
    assert!(loc.secure);
    assert!(!location("ws://h:1").secure);
    assert_eq!(ProxyLocation::new().build().err().unwrap(), "`uri` must be initialized");
}

#[test]
fn addresses_of_a_location() {
    let loc = location("wss://example.org:9000/x");
    assert_eq!(loc.plain_address(), "example.org:9000");
    assert_eq!(
        loc.secure_address(),
        ("example.org:9000".to_string(), "example.org".to_string())
    );
    assert_eq!(location("/path").plain_address(), "");
}

#[test]
fn secure_address_gets_its_port() {
    let mut lm = LocationManager::new();
    assert!(lm.add_location_as(location("wss://example.org/chat?k=v"), 1));
    let uri = &lm.location(1).unwrap().uri;
    assert_eq!(uri.authority.as_deref(), Some("example.org:443"));
    assert_eq!(uri.port, Some(443));
    assert_eq!(uri.query.as_deref(), Some("k=v"));
    assert_eq!(uri.text, "wss://example.org:443/chat?k=v");
    assert_eq!(uri.scheme.as_deref(), Some("wss"));
    assert_eq!(uri.path, "/chat");
}

#[test]
fn secure_address_without_a_path_gets_its_port() {
    let mut lm = LocationManager::new();
    assert!(lm.add_location_as(location("wss://example.org"), 1));
    let uri = &lm.location(1).unwrap().uri;
    assert_eq!(uri.authority.as_deref(), Some("example.org:443"));
    assert_eq!(uri.scheme.as_deref(), Some("wss"));
    assert_eq!(uri.host.as_deref(), Some("example.org"));
    assert_eq!(uri.port, Some(443));
    assert_eq!(uri.query, None);
}

#[test]
fn other_addresses_keep_their_port() {
    let mut lm = LocationManager::new();
    assert!(lm.add_location_as(location("wss://example.org:1"), 1));
    assert!(lm.add_location_as(location("ws://example.org"), 2));
    assert_eq!(lm.location(1).unwrap().uri.port, Some(1));
    assert_eq!(lm.location(2).unwrap().uri.port, None);
    assert_eq!(lm.location(2).unwrap().uri.authority.as_deref(), Some("example.org"));
}

#[test]
fn authority_that_takes_no_port_is_refused() {
    let mut lm = LocationManager::new();
    assert!(lm.add_location(location("wss://example.org:")).is_none());
    assert_eq!(lm.locations().len(), 0);
}

#[test]
fn added_locations_get_numbers_of_their_own() {
    let mut lm = LocationManager::new();
    let mut ids = vec![];
    for i in 0..20 {
        let id = lm.add_location(location(&format!("ws://h{}:1", i))).unwrap();
        assert!(!ids.contains(&id));
        ids.push(id);
    }
    let listed: Vec<u64> = lm.locations().iter().map(|l| l.id).collect();
    assert_eq!(listed, ids);
    assert_eq!(lm.location(ids[3]).unwrap().uri.authority.as_deref(), Some("h3:1"));
}

#[test]
fn no_location_is_found_where_none_is_alive() {
    let mut lm = LocationManager::new();
    assert_eq!(send(&mut lm, "d"), None);
    let mut lm = manager(1);
    lm.mark_dead(1);
    assert_eq!(send(&mut lm, "d"), None);
    assert!(lm.get_location_ref("d").is_none());
    assert!(lm.move_distribution("d".to_string()).is_none());
}

#[test]
fn location_with_the_fewest_connections_is_best() {
    let mut lm = manager(3);
    lm.connection_opened(1);
    lm.connection_opened(1);
    lm.connection_opened(2);
    lm.connection_opened(3);
    assert_eq!(send(&mut lm, "a"), Some(2));
    lm.connection_opened(2);
    assert_eq!(send(&mut lm, "b"), Some(3));
    lm.mark_dead(3);
    assert_eq!(send(&mut lm, "c"), Some(1));
}

#[test]
fn first_of_equal_locations_is_best() {
    let mut lm = manager(3);
    assert_eq!(send(&mut lm, "a"), Some(1));
    assert_eq!(send(&mut lm, "b"), Some(1));
}

#[test]
fn distribution_stays_where_it_was_sent() {
    let mut lm = manager(2);
    assert_eq!(send(&mut lm, "a"), Some(1));
    lm.connection_opened(1);
    assert_eq!(send(&mut lm, "b"), Some(2));
    assert_eq!(send(&mut lm, "a"), Some(1));
    assert_eq!(lm.get_location_ref("a").unwrap().id, 1);
    assert_eq!(lm.get_location_ref("b").unwrap().id, 2);
    assert!(lm.get_location_ref("c").is_none());
}

#[test]
fn counting_connections() {
    let mut lm = manager(2);
    lm.connection_opened(2);
    assert_eq!(lm.location(2).unwrap().connection_count, 1);
    assert_eq!(lm.location(1).unwrap().connection_count, 0);
    lm.connection_closed(2);
    assert_eq!(lm.location(2).unwrap().connection_count, 0);
    lm.connection_closed(2);
    assert_eq!(lm.location(2).unwrap().connection_count, u32::MAX);
    lm.connection_opened(2);
    assert_eq!(lm.location(2).unwrap().connection_count, 0);
    lm.connection_opened(7);
    assert_eq!(lm.locations().len(), 2);
}

#[test]
fn dead_location_loses_its_distributions() {
    let mut lm = manager(2);
    assert_eq!(send(&mut lm, "a"), Some(1));
    lm.connection_opened(1);
    assert_eq!(send(&mut lm, "b"), Some(2));
    lm.mark_dead(1);
    assert!(lm.location(1).unwrap().dead);
    assert!(!lm.location(2).unwrap().dead);
    assert!(lm.get_location_ref("a").is_none());
    assert_eq!(lm.get_location_ref("b").unwrap().id, 2);
    assert_eq!(send(&mut lm, "a"), Some(2));
}

#[test]
fn move_leads_a_routed_distribution_to_the_best_location() {
    let mut lm = manager(2);
    assert_eq!(send(&mut lm, "a"), Some(1));
    lm.connection_opened(1);
    match lm.move_distribution("a".to_string()) {
        Some(LocationManagerMessage::MoveDistribution { distribution_id, new_loc }) => {
            assert_eq!(distribution_id, "a");
            assert_eq!(new_loc, 2);
        }
        None => panic!("nothing announced"),
    }
    assert_eq!(send(&mut lm, "a"), Some(2));
}

#[test]
fn move_makes_no_new_route() {
    let mut lm = manager(1);
    assert!(lm.move_distribution("a".to_string()).is_some());
    assert!(lm.get_location_ref("a").is_none());
}

#[test]
fn unknown_number_has_no_location() {
    assert!(manager(1).location(2).is_none());
}

#[test]
fn dead_location_stays_dead() {
    let mut lm = manager(2);
    lm.mark_dead(1);
    lm.connection_opened(2);
    lm.connection_opened(2);
    lm.connection_closed(1);
    assert_eq!(send(&mut lm, "a"), Some(2));
    assert!(lm.move_distribution("a".to_string()).is_some());
    assert_eq!(send(&mut lm, "a"), Some(2));
    assert!(lm.add_location_as(location("ws://10.0.0.9:80"), 9));
    assert!(lm.location(1).unwrap().dead);
    assert_eq!(send(&mut lm, "b"), Some(9));
}

#[test]
fn location_is_shown() {
    let mut lm = LocationManager::new();
    assert!(lm.add_location_as(location("ws://127.0.0.1:80"), 42));
    lm.connection_opened(42);
    lm.mark_dead(42);
    assert_eq!(
        lm.location(42).unwrap().debug_text(),
        "ProxyLocation { id: 42, uri: ws://127.0.0.1:80/, connection_count: 1, dead: true, secure: false }"
    );
}

#[test]
fn longest_secure_address_gets_its_port() {
    let host = "a".repeat(65534 - 6);
    let uri = ParsedUri::parse(&format!("wss://{}", host)).unwrap();
    assert!(ParsedUri::parse(&format!("wss://{}b", host)).is_none());
    let loc = ProxyLocation::new().uri(uri).build().unwrap();
    let mut lm = LocationManager::new();
    assert!(lm.add_location_as(loc, 1));
    let uri = &lm.location(1).unwrap().uri;
    assert_eq!(uri.port, Some(443));
    assert_eq!(uri.host.as_deref(), Some(host.as_str()));
    assert_eq!(uri.text, format!("wss://{}:443/", host));
}

#[test]
fn only_the_port_of_a_secure_address_is_written_out() {
    let cases = vec![
        ("wss://user:pw@h.org/p?q=?", "wss://user:pw@h.org:443/p?q=?", "h.org", "/p", Some("q=?")),
        ("wss://[::1]?x", "wss://[::1]:443/?x", "[::1]", "/", Some("x")),
        ("wss://h/a//b#frag", "wss://h:443/a//b", "h", "/a//b", None),
        ("wss://h?", "wss://h:443/?", "h", "/", Some("")),
    ];
    for (id, (given, text, host, path, query)) in cases.into_iter().enumerate() {
        let mut lm = LocationManager::new();
        assert!(lm.add_location_as(location(given), id as u64));
        let uri = &lm.location(id as u64).unwrap().uri;
        assert_eq!(uri.text, text);
        assert_eq!(uri.host.as_deref(), Some(host));
        assert_eq!(uri.path, path);
        assert_eq!(uri.query.as_deref(), query);
        assert_eq!(uri.port, Some(443));
        assert_eq!(uri.scheme.as_deref(), Some("wss"));
    }
}

#[test]
fn best_location_is_never_a_dead_one() {
    let mut lm = manager(2);
    assert_eq!(lm.find_best_location(), Some(1));
    lm.connection_opened(2);
    lm.mark_dead(1);
    assert_eq!(lm.find_best_location(), Some(2));
    assert!(lm.add_location_as(location("ws://h:1"), 3));
    assert_eq!(lm.find_best_location(), Some(3));
    lm.mark_dead(2);
    lm.mark_dead(3);
    assert_eq!(lm.find_best_location(), None);
}

#[test]
fn route_outlasts_everything_but_its_own_move_and_death() {
    let mut lm = manager(3);
    assert_eq!(send(&mut lm, "a"), Some(1));
    lm.connection_opened(1);
    assert_eq!(send(&mut lm, "b"), Some(2));
    assert!(lm.move_distribution("b".to_string()).is_some());
    lm.mark_dead(2);
    assert!(lm.add_location_as(location("ws://h:1"), 4));
    lm.connection_closed(3);
    assert_eq!(send(&mut lm, "a"), Some(1));
}
