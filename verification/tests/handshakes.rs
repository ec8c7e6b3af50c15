use websocket_balancer::handshake::{
    handshake_data, parse_handshake, parse_query, HandshakeReader, HeaderLine, RequestHead,
    RequestSyntaxError,
};
use websocket_balancer::websocket_util::{read_headers, receive_handshake_data, HandshakeError};

const HEAD: &str = "GET /chat?room=7&flag&a=b=c&room=8 HTTP/1.1\r\nHost: example.org\r\nX-Name: one\r\nx-NAME: two\r\n\r\n";

fn packets(parts: &[&str]) -> Vec<Vec<u8>> {
    parts.iter().map(|p| p.as_bytes().to_vec()).collect()
}

#[test]
fn handshake_of_a_client() {
    let data = receive_handshake_data(&packets(&[HEAD])).unwrap();
    assert_eq!(data.path, "/chat");
    assert_eq!(data.id, "");
    assert_eq!(data.distribution_id, "");
    assert_eq!(data.query_params.get("room").map(|s| s.as_str()), Some("8"));
    assert_eq!(data.query_params.get("flag").map(|s| s.as_str()), Some(""));
    assert_eq!(data.query_params.get("a").map(|s| s.as_str()), Some("b=c"));
    assert_eq!(data.query_params.len(), 3);
    assert_eq!(data.headers.get("host").map(|s| s.as_str()), Some("example.org"));
    assert_eq!(data.headers.get("x-name").map(|s| s.as_str()), Some("two"));
    assert!(data.headers.get("X-Name").is_none());
    assert_eq!(data.headers.len(), 2);
}

#[test]
fn path_without_a_query() {
    let data = parse_handshake(b"GET /plain HTTP/1.1\r\n\r\n").unwrap();
    assert_eq!(data.path, "/plain");
    assert_eq!(data.query_params.len(), 0);
    assert_eq!(data.headers.len(), 0);
}

#[test]
fn empty_query_is_one_empty_name() {
    let data = parse_handshake(b"GET /p? HTTP/1.1\r\n\r\n").unwrap();
    assert_eq!(data.path, "/p");
    assert_eq!(data.query_params.get("").map(|s| s.as_str()), Some(""));
    assert_eq!(data.query_params.len(), 1);
}

#[test]
fn packets_do_not_matter() {
    let whole = read_headers(&packets(&[HEAD])).unwrap();
    for cut in 1..HEAD.len() {
        let split = read_headers(&packets(&[&HEAD[..cut], &HEAD[cut..]])).unwrap();
        assert_eq!(split, whole);
    }
    let bytes: Vec<Vec<u8>> = HEAD.bytes().map(|b| vec![b]).collect();
    assert_eq!(read_headers(&bytes).unwrap(), whole);
}

#[test]
fn bytes_of_the_last_packet_behind_the_head_are_kept() {
    let head = read_headers(&packets(&["GET / HTTP/1.1\r\n\r\nmore", "never read"])).unwrap();
    assert_eq!(head, b"GET / HTTP/1.1\r\n\r\nmore".to_vec());
}

#[test]
fn closed_socket_ends_the_handshake() {
    for parts in [&[][..], &["GET / HTTP/1.1\r\n"][..], &["GET /", "", "\r\n\r\n"][..]].iter() {
        match read_headers(&packets(parts)) {
            Err(HandshakeError::IOError(text)) => {
                assert_eq!(text, "Custom { kind: UnexpectedEof, error: \"EOF\" }");
            }
            _ => panic!("accepted"),
        }
        match receive_handshake_data(&packets(parts)) {
            Err(HandshakeError::IOError(_)) => {}
            _ => panic!("accepted"),
        }
    }
}

#[test]
fn reader_takes_packets_one_by_one() {
    let mut reader = HandshakeReader::new();
    assert!(!reader.feed(b"GET / HTTP/1.1\r").unwrap());
    assert!(!reader.feed(b"\n\r").unwrap());
    assert!(reader.feed(b"\n").unwrap());
    assert_eq!(reader.into_bytes(), b"GET / HTTP/1.1\r\n\r\n".to_vec());
}

fn syntax_error(head: &[u8]) -> RequestSyntaxError {
    match parse_handshake(head) {
        Err(HandshakeError::HeadersParsing(e)) => e,
        _ => panic!("no syntax error"),
    }
}

#[test]
fn syntax_errors_are_told_apart() {
    assert_eq!(syntax_error(b"GET / HTTP/1.1\r\nBad Name: x\r\n\r\n"), RequestSyntaxError::HeaderName);
    assert_eq!(syntax_error(b"GET / HTTP/1.1\r\nName: \x01\r\n\r\n"), RequestSyntaxError::HeaderValue);
    assert_eq!(syntax_error(b"GET / HTTP/1.1\rx\r\n\r\n"), RequestSyntaxError::NewLine);
    assert_eq!(syntax_error(b"G\x01T / HTTP/1.1\r\n\r\n"), RequestSyntaxError::Token);
    assert_eq!(syntax_error(b"GET / HTTP/3.1\r\n\r\n"), RequestSyntaxError::Version);
}

#[test]
fn thirty_headers_and_no_more() {
    let request = |n: usize| {
        let mut s = String::from("GET / HTTP/1.1\r\n");
        for i in 0..n {
            s.push_str(&format!("H{}: v\r\n", i));
        }
        s.push_str("\r\n");
        s
    };
    assert_eq!(parse_handshake(request(30).as_bytes()).unwrap().headers.len(), 30);
    assert_eq!(syntax_error(request(31).as_bytes()), RequestSyntaxError::TooManyHeaders);
}

fn line(name: &str, value: &[u8]) -> HeaderLine {
    HeaderLine { name: name.to_string(), value: value.to_vec() }
}

#[test]
fn bad_requests() {
    let no_path = RequestHead { path: None, headers: vec![] };
    assert!(matches!(handshake_data(no_path), Err(HandshakeError::BadRequest)));
    let no_text = RequestHead {
        path: Some("/".to_string()),
        headers: vec![line("Name", &[0xff])],
    };
    assert!(matches!(handshake_data(no_text), Err(HandshakeError::BadRequest)));
    assert!(matches!(
        parse_handshake(b"GET / HTTP/1.1\r\nName: \xff\r\n\r\n"),
        Err(HandshakeError::BadRequest)
    ));
    assert!(matches!(parse_handshake(b"\r\n\r\n"), Err(HandshakeError::BadRequest)));
}

#[test]
fn lines_behind_an_empty_one_are_not_used() {
    let head = RequestHead {
        path: Some("/x".to_string()),
        headers: vec![line("One", b"1"), line("", b""), line("Two", &[0xff])],
    };
    let data = handshake_data(head).unwrap();
    assert_eq!(data.headers.len(), 1);
    assert_eq!(data.headers.get("one").map(|s| s.as_str()), Some("1"));
}

#[test]
fn query_parameters() {
    let params = parse_query("a=1&b&c=&=d&a=2");
    assert_eq!(params.get("a").map(|s| s.as_str()), Some("2"));
    assert_eq!(params.get("b").map(|s| s.as_str()), Some(""));
    assert_eq!(params.get("c").map(|s| s.as_str()), Some(""));
    assert_eq!(params.get("").map(|s| s.as_str()), Some("d"));
    assert_eq!(params.len(), 4);
    let mut names: Vec<&str> = params.entries().iter().map(|e| e.0.as_str()).collect();
    names.sort();
    assert_eq!(names, vec!["", "a", "b", "c"]);
}

#[test]
fn handshake_errors_in_words() {
    let cases = vec![
        (HandshakeError::BadRequest, "Bad request"),
        (
            HandshakeError::HeadersParsing(RequestSyntaxError::TooManyHeaders),
            "Headers parsing error: TooManyHeaders",
        ),
        (HandshakeError::SocketClosed, "Handshake request was canceled"),
        (
            HandshakeError::MissedHeader("Upgrade".to_string()),
            "Missed header \"Upgrade\" in handshake request",
        ),
        (
            HandshakeError::BadHeaderValue("Upgrade".to_string(), "no".to_string()),
            "Header \"Upgrade\" has bad value \"no\"",
        ),
        (HandshakeError::IOError("x".to_string()), "IO error happened: x"),
        (HandshakeError::TlsError("y".to_string()), "TLS error: y"),
        (HandshakeError::Timeout, "Timeout"),
    ];
    for (e, text) in cases.iter() {
        assert_eq!(e.message(), *text);
    }
    assert_eq!(RequestSyntaxError::HeaderName.name(), "HeaderName");
    assert_eq!(RequestSyntaxError::Status.name(), "Status");
}

#[test]
fn keys_are_the_lower_case_names() {
    let head = b"GET / HTTP/1.1\r\nHOST: a\r\nhost: b\r\nX-Y_1: c\r\n\r\n";
    let data = parse_handshake(head).unwrap();
    let mut keys: Vec<&str> = data.headers.entries().iter().map(|e| e.0.as_str()).collect();
    keys.sort();
    assert_eq!(keys, vec!["host", "x-y_1"]);
    assert_eq!(data.headers.get("host").map(|s| s.as_str()), Some("b"));
}

#[test]
fn head_reaches_no_further_than_its_last_packet() {
    let rest = "x".repeat(100);
    let head = read_headers(&packets(&["GET / HTTP/1.1\r\n\r", &format!("\n{}", rest), "more"]));
    let head = head.unwrap();
    assert_eq!(head.len(), 14 + 3 + 101);
    assert!(head.len() >= 14 + 4);
}
