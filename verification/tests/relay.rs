use std::sync::Arc;

use websocket_balancer::connect::{AfterFailure, ConnectionAttempt, RETRIES};
use websocket_balancer::handshake::HandshakeError;
use websocket_balancer::location_manager::{LocationManager, LocationManagerMessage, ProxyLocation};
use websocket_balancer::message::{MessageOpCode, RawMessage};
use websocket_balancer::proxy::{
    get_size, ControlMessageListener, MessageListener, MoveStart, ProxyServer, ProxyServerBuilder,
    ReceiveStep, SendStep, WsConnection,
};
use websocket_balancer::uri::ParsedUri;
use websocket_balancer::websocket::WebsocketData;
use websocket_balancer::websocket_util::MessageError;

fn manager(secure: bool) -> LocationManager {
    let mut lm = LocationManager::new();
    for id in 1..=2u64 {
        let loc = ProxyLocation::new()
            .uri(ParsedUri::parse(&format!("ws://10.0.0.{}:80", id)).unwrap())
            .secure(secure)
            .build()
            .unwrap();
        assert!(lm.add_location_as(loc, id));
    }
    lm
}

fn server() -> ProxyServer<&'static str> {
    ProxyServerBuilder::new()
        .location_manager("manager")
        .move_start_message("START".to_string())
        .move_done_message("DONE".to_string())
        .move_end_message("END".to_string())
        .build()
}

fn client(id: &str, d: &str) -> Arc<WebsocketData> {
    let mut data = WebsocketData::default();
    data.id = id.to_string();
    data.distribution_id = d.to_string();
    Arc::new(data)
}

fn masked(payload: &[u8], key: [u8; 4]) -> RawMessage {
    RawMessage {
        fin: true,
        opcode: MessageOpCode::TextFrame,
        mask: true,
        mask_key: key,
        payload: payload.iter().enumerate().map(|(i, b)| b ^ key[i % 4]).collect(),
    }
}

fn listener() -> ControlMessageListener {
    server().listener()
}

#[test]
fn client_says_that_it_has_moved() {
    assert!(listener().handle(RawMessage::text_message(b"DONE".to_vec())).is_none());
    assert!(listener().handle(masked(b"DONE", [1, 2, 3, 4])).is_none());
}

#[test]
fn other_messages_pass() {
    let out = listener().handle(RawMessage::text_message(b"DON'T".to_vec())).unwrap();
    assert_eq!(out.payload, b"DON'T".to_vec());
    let out = listener().handle(RawMessage::text_message(b"NONE".to_vec())).unwrap();
    assert_eq!(out.payload, b"NONE".to_vec());
    let msg = masked(b"hello", [1, 2, 3, 4]);
    let wire = msg.payload.clone();
    let out = listener().handle(msg).unwrap();
    assert_eq!(out.payload, wire);
    assert!(out.mask);
}

#[test]
fn compared_message_passes_without_its_masking() {
    let out = listener().handle(masked(b"NONE", [1, 2, 3, 4])).unwrap();
    assert_eq!(out.payload, b"NONE".to_vec());
    assert!(out.mask);
    assert_eq!(out.mask_key, [1, 2, 3, 4]);
}

#[test]
fn steps_of_sending() {
    let l = listener();
    match WsConnection::send_step(Some(RawMessage::text_message(b"x".to_vec())), &l) {
        SendStep::Write(msg) => assert_eq!(msg.payload, b"x".to_vec()),
        _ => panic!("not written"),
    }
    let done = RawMessage::text_message(b"DONE".to_vec());
    assert!(matches!(WsConnection::send_step(Some(done), &l), SendStep::Skip));
    assert!(matches!(WsConnection::send_step(None, &l), SendStep::Stop));
}

struct Deaf;

impl MessageListener for Deaf {
    fn handle(&self, _msg: RawMessage) -> Option<RawMessage> {
        None
    }
}

#[test]
fn listener_of_ones_own() {
    let msg = RawMessage::text_message(b"x".to_vec());
    assert!(matches!(WsConnection::send_step(Some(msg), &Deaf), SendStep::Skip));
}

#[test]
fn steps_of_receiving() {
    match WsConnection::receive_step(Ok(RawMessage::text_message(b"x".to_vec()))) {
        ReceiveStep::Forward(msg) => assert_eq!(msg.payload, b"x".to_vec()),
        _ => panic!("not forwarded"),
    }
    match WsConnection::receive_step(Err(MessageError::Socket("gone".to_string()))) {
        ReceiveStep::Fail(text) => assert_eq!(text, "gone"),
        _ => panic!("no failure"),
    }
    assert!(matches!(WsConnection::receive_step(Err(MessageError::Format)), ReceiveStep::Stop));
    let too_big = MessageError::MessageTooBig { size: 2, max_size: 1 };
    assert!(matches!(WsConnection::receive_step(Err(too_big)), ReceiveStep::Stop));
}

#[test]
fn new_client_is_sent_to_a_location() {
    let mut lm = manager(true);
    let attempt = server().websocket_created(&mut lm, &client("a", "d")).unwrap();
    assert_eq!(attempt.location, 1);
    assert!(attempt.secure);
    assert_eq!(attempt.retries, 5);
    assert_eq!(lm.get_location_ref("d").unwrap().id, 1);
    let attempt = server().websocket_created(&mut manager(false), &client("a", "d")).unwrap();
    assert!(!attempt.secure);
}

#[test]
fn new_client_without_a_location() {
    let mut lm = LocationManager::new();
    let e = server().websocket_created(&mut lm, &client("a", "d")).err().unwrap();
    assert_eq!(e, "Couldn't find proxy location");
}

#[test]
fn location_is_tried_six_times() {
    let mut lm = manager(false);
    let mut attempt = ConnectionAttempt::new(1, false);
    assert_eq!(attempt.retries, RETRIES);
    for left in (0..5u32).rev() {
        match attempt.failed(&mut lm, HandshakeError::Timeout) {
            AfterFailure::Retry { attempt: next, delay_millis } => {
                assert!(1 <= delay_millis && delay_millis < 200);
                assert_eq!(next.retries, left);
                assert_eq!(next.location, 1);
                attempt = next;
            }
            AfterFailure::GiveUp(_) => panic!("gave up early"),
        }
        assert!(!lm.location(1).unwrap().dead);
    }
    match attempt.failed(&mut lm, HandshakeError::IOError("refused".to_string())) {
        AfterFailure::GiveUp(text) => assert_eq!(text, "IO error happened: refused"),
        AfterFailure::Retry { .. } => panic!("tried again"),
    }
    assert!(lm.location(1).unwrap().dead);
    assert!(!lm.location(2).unwrap().dead);
}

#[test]
fn lasting_failure_ends_the_attempt_at_once() {
    let mut lm = manager(false);
    let attempt = ConnectionAttempt::new(1, true);
    match attempt.failed(&mut lm, HandshakeError::TlsError("bad".to_string())) {
        AfterFailure::GiveUp(text) => assert_eq!(text, "TLS error: bad"),
        AfterFailure::Retry { .. } => panic!("tried again"),
    }
    assert!(!lm.location(1).unwrap().dead);
}

fn started(r: MoveStart) -> (Vec<u64>, u64) {
    match r {
        MoveStart::Started { targets, timer } => (targets, timer),
        _ => panic!("not started"),
    }
}

#[test]
fn moving_a_distribution() {
    let mut s = server();
    let mut lm = manager(false);
    assert!(s.has_handles());
    let a = s.connection_opened(client("a", "d"));
    let b = s.connection_opened(client("b", "d"));
    let c = s.connection_opened(client("c", "e"));
    assert_eq!((a, b, c), (0, 1, 2));
    let (targets, timer) = started(s.move_distribution("d".to_string()));
    assert_eq!(targets, vec![a, b]);
    assert_eq!(timer, 3);
    assert_eq!(s.pending_count("d"), Some(2));
    assert_eq!(s.pending_count("e"), None);
    assert!(s.move_end_targets("d").is_empty());
    assert_eq!(s.move_end_targets("e"), vec![c]);

    let a2 = s.connection_opened(client("a", "d"));
    assert!(!s.move_done("d"));
    let b2 = s.connection_opened(client("b", "d"));
    assert!(s.move_done("d"));
    assert_eq!(s.pending_count("d"), Some(0));
    assert_eq!(s.move_end_targets("d"), vec![a2, b2]);

    let pm = s.finish_move("d").unwrap();
    let old: Vec<u64> = pm.old_connections.iter().map(|conn| conn.handle).collect();
    assert_eq!(old, vec![a, b]);
    assert_eq!(pm.timeout_abort, timer);
    assert_eq!(pm.pending_count, 0);
    assert!(s.finish_move("d").is_none());

    s.connection_closed(&mut lm, 1, &client("a", "d"), a);
    s.connection_closed(&mut lm, 1, &client("b", "d"), b);
    assert_eq!(s.move_end_targets("d"), vec![a2, b2]);
    s.connection_closed(&mut lm, 1, &client("a", "d"), a2);
    assert_eq!(s.move_end_targets("d"), vec![b2]);
}

#[test]
fn second_move_is_refused() {
    let mut s = server();
    s.connection_opened(client("a", "d"));
    started(s.move_distribution("d".to_string()));
    assert!(matches!(s.move_distribution("d".to_string()), MoveStart::AlreadyPending));
    assert_eq!(s.pending_count("d"), Some(1));
    assert!(s.finish_move("d").is_some());
    let (targets, _) = started(s.move_distribution("d".to_string()));
    assert!(targets.is_empty());
}

#[test]
fn distribution_without_connections_is_not_moved() {
    let mut s = server();
    let mut lm = manager(false);
    assert!(matches!(s.move_distribution("d".to_string()), MoveStart::NoConnections));
    let a = s.connection_opened(client("a", "d"));
    s.connection_closed(&mut lm, 1, &client("a", "d"), a);
    assert!(matches!(s.move_distribution("d".to_string()), MoveStart::NoConnections));
    assert_eq!(s.pending_count("d"), None);
}

#[test]
fn announcement_starts_a_move() {
    let mut s = server();
    let a = s.connection_opened(client("a", "d"));
    let msg = LocationManagerMessage::MoveDistribution {
        distribution_id: "d".to_string(),
        new_loc: 2,
    };
    let (targets, _) = started(s.manager_message(msg.clone()));
    assert_eq!(targets, vec![a]);
    assert!(matches!(s.manager_message(msg), MoveStart::AlreadyPending));
}

#[test]
fn done_without_a_move_counts_for_nothing() {
    let mut s = server();
    s.connection_opened(client("a", "d"));
    assert!(!s.move_done("d"));
    assert_eq!(s.pending_count("d"), None);
}

#[test]
fn closing_counts_the_location_down() {
    let mut s = server();
    let mut lm = manager(false);
    lm.connection_opened(2);
    let a = s.connection_opened(client("a", "d"));
    s.connection_closed(&mut lm, 2, &client("a", "d"), a);
    assert_eq!(lm.location(2).unwrap().connection_count, 0);
    assert!(s.move_end_targets("d").is_empty());
}

#[test]
fn first_connection_of_the_client_is_struck_off() {
    let mut s = server();
    let mut lm = manager(false);
    let x1 = s.connection_opened(client("x", "d"));
    let y = s.connection_opened(client("y", "d"));
    let x2 = s.connection_opened(client("x", "d"));
    s.connection_closed(&mut lm, 1, &client("x", "d"), x2);
    assert_eq!(s.move_end_targets("d"), vec![y, x2]);
    s.connection_closed(&mut lm, 1, &client("x", "d"), x1);
    assert_eq!(s.move_end_targets("d"), vec![y]);
}

#[test]
fn frames_that_tell_of_a_move() {
    let s = server();
    let start = s.move_start_frame();
    assert!(start.fin);
    assert_eq!(start.opcode, MessageOpCode::TextFrame);
    assert!(!start.mask);
    assert_eq!(start.mask_key, [0; 4]);
    assert_eq!(start.payload, b"START".to_vec());
    assert_eq!(s.move_end_frame().payload, b"END".to_vec());
    assert_eq!(s.listener().move_done_message, "DONE");
    let plain = ProxyServerBuilder::new().location_manager(7).build();
    assert!(plain.move_start_frame().payload.is_empty());
    assert!(plain.move_end_frame().payload.is_empty());
}

#[test]
fn sizes_of_values() {
    assert_eq!(get_size(&7u32), 4);
    assert_eq!(get_size(&[0u8; 10]), 10);
    assert_eq!(get_size(&()), 0);
}

#[test]
fn builder_keeps_the_last_location_manager() {
    assert!(!ProxyServerBuilder::<u8>::new().has_location_manager());
    let builder = ProxyServerBuilder::new().location_manager(1).location_manager(2);
    assert!(builder.has_location_manager());
    let s = builder.move_start_message("S".to_string()).build();
    assert_eq!(*s.location_manager(), 2);
    assert_eq!(*server().location_manager(), "manager");
}

#[test]
fn move_leaves_the_connections_of_other_distributions() {
    let mut s = server();
    let a = s.connection_opened(client("a", "d"));
    let b = s.connection_opened(client("b", "d"));
    let x = s.connection_opened(client("x", "e"));
    let c = s.connection_opened(client("c", "d"));
    let mut strangers = s.take_list("e").unwrap();
    assert!(s.take_list("e").is_none());
    let mut list = s.take_list("d").unwrap();
    let last = list.pop().unwrap();
    list.append(&mut strangers);
    list.push(last);
    assert!(s.put_list("d".to_string(), list).is_none());
    assert_eq!(s.move_end_targets("d"), vec![a, b, x, c]);

    let (targets, _) = started(s.move_distribution("d".to_string()));
    assert_eq!(targets, vec![a, b, c]);
    assert_eq!(s.pending_count("d"), Some(3));
    assert_eq!(s.move_end_targets("d"), vec![x]);
    let pm = s.finish_move("d").unwrap();
    let old: Vec<&str> = pm.old_connections.iter().map(|conn| conn.data.id.as_str()).collect();
    assert_eq!(old, vec!["a", "b", "c"]);
}

#[test]
fn list_put_in_place_of_another() {
    let mut s = server();
    let a = s.connection_opened(client("a", "d"));
    let list = s.take_list("d").unwrap();
    let b = s.connection_opened(client("b", "d"));
    let earlier = s.put_list("d".to_string(), list).unwrap();
    assert_eq!(earlier.len(), 1);
    assert_eq!(earlier[0].handle, b);
    assert_eq!(s.move_end_targets("d"), vec![a]);
}

#[test]
fn listed_connections_are_no_old_ones() {
    let mut s = server();
    let a = s.connection_opened(client("a", "d"));
    started(s.move_distribution("d".to_string()));
    let a2 = s.connection_opened(client("a", "d"));
    let listed = s.move_end_targets("d");
    assert_eq!(listed, vec![a2]);
    let pm = s.finish_move("d").unwrap();
    assert_eq!(pm.old_connections.len(), 1);
    assert_eq!(pm.old_connections[0].handle, a);
    assert!(pm.old_connections.iter().all(|conn| !listed.contains(&conn.handle)));
}

#[test]
fn connection_is_shown_by_its_client() {
    let conn = WsConnection { data: client("a\"b", "d"), handle: 3 };
    assert_eq!(
        conn.debug_text(),
        "WsConnection { data:  { id: \"a\\\"b\", distribution_id: \"d\", path: / } }"
    );
}
