use std::sync::Arc;

use websocket_balancer::console::{
    close_choice, find_by_name, listing, parse_command, parse_number, split, CloseChoice, Command,
};
use websocket_balancer::text::{cut, same_bytes, same_text, show_bool, show_number};
use websocket_balancer::websocket::{WebsocketData, WebsocketServer};

#[test]
fn print_command() {
    assert!(matches!(parse_command("p"), Command::Print(10)));
    assert!(matches!(parse_command("p 3"), Command::Print(3)));
    assert!(matches!(parse_command("p +4 x"), Command::Print(4)));
    assert!(matches!(parse_command("p x"), Command::Print(10)));
    assert!(matches!(parse_command("p  3"), Command::Print(10)));
}

#[test]
fn location_commands() {
    assert!(matches!(parse_command("proxies"), Command::Proxies));
    match parse_command("proxy move room 7") {
        Command::Move(name) => assert_eq!(name, "room"),
        _ => panic!("no move"),
    }
    assert!(matches!(parse_command("proxy move"), Command::MoveWithoutName));
    assert!(matches!(parse_command("proxy"), Command::ProxyNothing));
    assert!(matches!(parse_command("proxy stop"), Command::ProxyNothing));
}

#[test]
fn close_command() {
    match parse_command("close AB") {
        Command::Close(name) => assert_eq!(name, "AB"),
        _ => panic!("no close"),
    }
    assert!(matches!(parse_command("close"), Command::CloseWithoutName));
    assert!(matches!(parse_command("close a b"), Command::CloseWithoutName));
}

#[test]
fn remaining_commands() {
    assert!(matches!(parse_command("help"), Command::Help));
    assert!(matches!(parse_command(""), Command::Unknown));
    assert!(matches!(parse_command("P"), Command::Unknown));
}

#[test]
fn numbers_of_the_console() {
    for text in ["0", "7", "+7", "0042", "18446744073709551615", "18446744073709551616"].iter() {
        assert_eq!(parse_number(text), text.parse::<usize>().ok());
    }
    for text in ["", "+", "-1", "1-", "++1", "1 ", "99999999999999999999999", "\u{661}"].iter() {
        assert_eq!(parse_number(text), None);
        assert!(text.parse::<usize>().is_err());
    }
}

#[test]
fn numbers_written_are_read_back() {
    for n in [0u64, 9, 10, 99, 100, 1048576, u32::MAX as u64].iter() {
        assert_eq!(show_number(*n), n.to_string());
        assert_eq!(parse_number(&show_number(*n)), Some(*n as usize));
    }
    assert_eq!(show_number(u64::MAX), "18446744073709551615");
    assert_eq!((show_bool(true), show_bool(false)), ("true", "false"));
}

#[test]
fn words_of_a_line() {
    assert_eq!(split("a b", b' '), vec!["a", "b"]);
    assert_eq!(split("", b' '), vec![""]);
    assert_eq!(split(" é  ", b' '), vec!["", "é", "", ""]);
}

#[test]
fn cutting_texts() {
    assert_eq!(cut("a=b=c", b'='), ("a", Some("b=c")));
    assert_eq!(cut("ä=", b'='), ("ä", Some("")));
    assert_eq!(cut("none", b'='), ("none", None));
    assert!(same_text("äb", "äb"));
    assert!(!same_text("ab", "abc"));
    assert!(same_bytes(b"", b""));
    assert!(!same_bytes(b"a", b"b"));
}

#[test]
fn clients_by_the_start_of_their_name() {
    let mut server = WebsocketServer::new();
    for (handle, id) in ["AB1", "AC", "AB2", "B"].iter().enumerate() {
        let mut data = WebsocketData::default();
        data.id = id.to_string();
        server.connection_opened(Arc::new(data), handle as u64);
    }
    let found = |prefix: &str| -> Vec<u64> {
        find_by_name(server.get_connections(), prefix).iter().map(|c| c.handle).collect()
    };
    assert_eq!(found("AB"), vec![0, 2]);
    assert_eq!(found("AB1"), vec![0]);
    assert_eq!(found("AB11"), Vec::<u64>::new());
    assert_eq!(found(""), vec![0, 1, 2, 3]);
    match close_choice(&find_by_name(server.get_connections(), "AB")) {
        CloseChoice::Several(names) => assert_eq!(names, vec!["AB1", "AB2"]),
        CloseChoice::One(_) => panic!("closed one of two"),
    }
    match close_choice(&find_by_name(server.get_connections(), "AC")) {
        CloseChoice::One(handle) => assert_eq!(handle, 1),
        CloseChoice::Several(_) => panic!("closed none"),
    }
}

#[test]
fn listing_of_connections() {
    assert_eq!(listing(3, 10), (3, None));
    assert_eq!(listing(10, 10), (10, None));
    assert_eq!(listing(11, 10), (10, Some(1)));
    assert_eq!(listing(2, 0), (0, Some(2)));
}
