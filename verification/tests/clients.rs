use std::sync::Arc;

use websocket_balancer::string_map::StringMap;
use websocket_balancer::uri::ParsedUri;
use websocket_balancer::websocket::{
    hex_name, names_are_lower, random_name, request_params, show_client, WebsocketData,
    WebsocketServer,
};

#[test]
fn names_are_hexadecimal() {
    assert_eq!(hex_name(0), "00000000000000000000000000000000");
    assert_eq!(hex_name(0xabc), "00000000000000000000000000000ABC");
    assert_eq!(hex_name(u128::MAX), "FFFFFFFFFFFFFFFFFFFFFFFFFFFFFFFF");
    assert_eq!(
        hex_name(0x0123456789abcdef_0fedcba987654321),
        "0123456789ABCDEF0FEDCBA987654321"
    );
}

#[test]
fn names_agree_with_the_formatter() {
    for n in [1u128, 15, 16, 255, 1 << 64, 1 << 127, 1234567890123456789].iter() {
        assert_eq!(hex_name(*n), format!("{:032X}", n));
    }
}

#[test]
fn names_picked_by_chance() {
    let a = random_name();
    let b = random_name();
    assert_eq!(a.len(), 32);
    assert!(a.chars().all(|c| c.is_ascii_digit() || ('A'..='F').contains(&c)));
    assert_ne!(a, b);
}

#[test]
fn data_of_a_request() {
    let uri = ParsedUri::parse("/chat?room=7&flag").unwrap();
    let mut headers = StringMap::new();
    assert!(headers.insert("host".to_string(), "h".to_string()).is_none());
    let data =
        WebsocketData::of_request(&uri, headers, "me".to_string(), "us".to_string());
    assert_eq!(data.id, "me");
    assert_eq!(data.distribution_id, "us");
    assert_eq!(data.path, "/chat?room=7&flag");
    assert_eq!(data.headers.get("host").map(|s| s.as_str()), Some("h"));
    assert_eq!(data.query_params.get("room").map(|s| s.as_str()), Some("7"));
    assert_eq!(data.query_params.get("flag").map(|s| s.as_str()), Some(""));
    assert_eq!(request_params(&ParsedUri::parse("/chat").unwrap()).len(), 0);
}

#[test]
fn data_of_nobody() {
    let data = WebsocketData::default();
    assert_eq!(data.id, "");
    assert_eq!(data.path, "/");
    assert_eq!(data.distribution_id, "");
    assert_eq!(data.headers.len(), 0);
    assert_eq!(data.query_params.len(), 0);
}

fn client(id: &str) -> Arc<WebsocketData> {
    let mut data = WebsocketData::default();
    data.id = id.to_string();
    Arc::new(data)
}

fn listed(server: &WebsocketServer) -> Vec<(String, u64)> {
    server.get_connections().iter().map(|c| (c.data.id.clone(), c.handle)).collect()
}

#[test]
fn clients_come_and_go() {
    let mut server = WebsocketServer::new();
    assert!(listed(&server).is_empty());
    server.connection_opened(client("a"), 1);
    server.connection_opened(client("b"), 2);
    server.connection_opened(client("c"), 3);
    server.connection_closed("b");
    assert_eq!(listed(&server), vec![("a".to_string(), 1), ("c".to_string(), 3)]);
    server.connection_closed("b");
    assert_eq!(listed(&server), vec![("a".to_string(), 1), ("c".to_string(), 3)]);
}

#[test]
fn first_of_two_connections_of_a_client_goes() {
    let mut server = WebsocketServer::new();
    server.connection_opened(client("a"), 1);
    server.connection_opened(client("a"), 2);
    server.connection_closed("a");
    assert_eq!(listed(&server), vec![("a".to_string(), 2)]);
}

#[test]
fn string_map_keeps_one_entry_per_key() {
    let mut m: StringMap<u32> = StringMap::new();
    assert_eq!(m.insert("a".to_string(), 1), None);
    assert_eq!(m.insert("b".to_string(), 2), None);
    assert_eq!(m.insert("a".to_string(), 3), Some(1));
    assert_eq!(m.len(), 2);
    assert_eq!(m.get("a"), Some(&3));
    assert!(m.contains_key("b"));
    assert!(!m.contains_key("c"));
    assert_eq!(m.remove("a"), Some(3));
    assert_eq!(m.remove("a"), None);
    assert_eq!(m.entries().len(), 1);
    assert_eq!(m.entries()[0], ("b".to_string(), 2));
}

#[test]
fn client_is_shown_without_headers_and_parameters() {
    let uri = ParsedUri::parse("/chat?room=7").unwrap();
    let mut headers = StringMap::new();
    headers.insert("cookie".to_string(), "hidden".to_string());
    let data = WebsocketData::of_request(&uri, headers, "m\ne".to_string(), "us".to_string());
    assert_eq!(
        data.debug_text(),
        " { id: \"m\\ne\", distribution_id: \"us\", path: /chat?room=7 }"
    );
    assert_eq!(show_client("I", "D", "P"), " { id: I, distribution_id: D, path: P }");
}

#[test]
fn header_names_in_lower_case() {
    let mut headers = StringMap::new();
    assert!(names_are_lower(&headers));
    headers.insert("x-\u{e9}1".to_string(), "V".to_string());
    assert!(names_are_lower(&headers));
    headers.insert("x-Name".to_string(), "v".to_string());
    assert!(!names_are_lower(&headers));
}
