use websocket_balancer::frame::{FrameReader, ReadRequest, ReceiveProgress};
use websocket_balancer::message::{MessageOpCode, RawMessage};
use websocket_balancer::websocket::MAX_MESSAGE_SIZE;
use websocket_balancer::websocket_util::{receive_message, send_message, MessageError};

fn message(mask: bool, payload: Vec<u8>) -> RawMessage {
    RawMessage {
        fin: true,
        opcode: MessageOpCode::BinaryFrame,
        mask,
        mask_key: if mask { [9, 8, 7, 6] } else { [0; 4] },
        payload,
    }
}

#[test]
fn short_message_on_the_wire() {
    let bytes = send_message(RawMessage::text_message(b"hi".to_vec()));
    assert_eq!(bytes, vec![0x81, 0x02, b'h', b'i']);
}

#[test]
fn unfinished_ping_on_the_wire() {
    let msg = RawMessage {
        fin: false,
        opcode: MessageOpCode::Ping,
        mask: false,
        mask_key: [1, 1, 1, 1],
        payload: vec![],
    };
    assert_eq!(send_message(msg), vec![0x09, 0x00]);
}

#[test]
fn masked_message_carries_its_key() {
    let bytes = send_message(message(true, vec![5]));
    assert_eq!(bytes, vec![0x82, 0x81, 9, 8, 7, 6, 5]);
}

#[test]
fn length_forms_at_their_borders() {
    let b125 = send_message(message(false, vec![7; 125]));
    assert_eq!(&b125[0..2], &[0x82, 125]);
    assert_eq!(b125.len(), 127);
    let b126 = send_message(message(false, vec![7; 126]));
    assert_eq!(&b126[0..4], &[0x82, 126, 0, 126]);
    assert_eq!(b126.len(), 130);
    let b65534 = send_message(message(false, vec![7; 65534]));
    assert_eq!(&b65534[0..4], &[0x82, 126, 0xff, 0xfe]);
    let b65535 = send_message(message(true, vec![7; 65535]));
    assert_eq!(&b65535[0..10], &[0x82, 0xff, 0, 0, 0, 0, 0, 0, 0xff, 0xff]);
    assert_eq!(b65535.len(), 65535 + 14);
}

#[test]
fn what_is_sent_is_received() {
    for n in [0usize, 1, 125, 126, 127, 65534, 65535, 70000, 1024 * 1024].iter() {
        for mask in [false, true].iter() {
            let payload: Vec<u8> = (0..*n).map(|i| (i % 251) as u8).collect();
            let mut bytes = send_message(message(*mask, payload.clone()));
            let sent = bytes.len();
            bytes.extend_from_slice(&[1, 2, 3]);
            let (msg, used) = receive_message(&bytes).unwrap();
            assert_eq!(used, sent);
            assert!(msg.fin);
            assert_eq!(msg.opcode, MessageOpCode::BinaryFrame);
            assert_eq!(msg.mask, *mask);
            assert_eq!(msg.mask_key, message(*mask, vec![]).mask_key);
            assert_eq!(msg.payload, payload);
        }
    }
}

#[test]
fn flags_are_read_from_the_first_bytes() {
    let (msg, used) = receive_message(&[0x0a, 0x00]).unwrap();
    assert!(!msg.fin);
    assert_eq!(msg.opcode, MessageOpCode::Pong);
    assert!(!msg.mask);
    assert_eq!(msg.mask_key, [0; 4]);
    assert!(msg.payload.is_empty());
    assert_eq!(used, 2);
}

#[test]
fn too_big_message_is_refused() {
    assert_eq!(MAX_MESSAGE_SIZE, 1048576);
    let bytes = send_message(message(false, vec![0; 1024 * 1024 + 1]));
    match receive_message(&bytes) {
        Err(MessageError::MessageTooBig { size, max_size }) => {
            assert_eq!(size, 1048577);
            assert_eq!(max_size, 1048576);
        }
        _ => panic!("accepted"),
    }
}

#[test]
fn largest_announced_length_is_refused() {
    let bytes = [0x82, 127, 255, 255, 255, 255, 255, 255, 255, 255];
    match receive_message(&bytes) {
        Err(MessageError::MessageTooBig { size, .. }) => assert_eq!(size, u64::MAX),
        _ => panic!("accepted"),
    }
}

#[test]
fn early_end_is_a_failure_of_the_socket() {
    for bytes in [&[][..], &[0x82][..], &[0x82, 126][..], &[0x82, 127, 0, 0][..]].iter() {
        match receive_message(bytes) {
            Err(MessageError::Socket(text)) => assert_eq!(text, "Kind(UnexpectedEof)"),
            _ => panic!("accepted"),
        }
    }
}

#[test]
fn missing_payload_reads_as_zero() {
    let (msg, used) = receive_message(&[0x82, 0x04, 1, 2]).unwrap();
    assert_eq!(msg.payload, vec![1, 2, 0, 0]);
    assert_eq!(used, 4);
    let (msg, used) = receive_message(&[0x82, 0x81, 3]).unwrap();
    assert_eq!(msg.mask_key, [3, 0, 0, 0]);
    assert_eq!(msg.payload, vec![0]);
    assert_eq!(used, 3);
}

#[test]
fn reader_asks_for_the_parts_in_turn() {
    let reader = FrameReader::new();
    assert_eq!(reader.request(), ReadRequest::Exact(2));
    let reader = match reader.resume(&[0x82, 0xfe]).unwrap() {
        ReceiveProgress::Read(next) => next,
        ReceiveProgress::Done(_) => panic!("done"),
    };
    assert_eq!(reader.request(), ReadRequest::Exact(2));
    let reader = match reader.resume(&[0, 130]).unwrap() {
        ReceiveProgress::Read(next) => next,
        ReceiveProgress::Done(_) => panic!("done"),
    };
    assert_eq!(reader.request(), ReadRequest::UpTo(4));
    let reader = match reader.resume(&[1, 2, 3, 4]).unwrap() {
        ReceiveProgress::Read(next) => next,
        ReceiveProgress::Done(_) => panic!("done"),
    };
    assert_eq!(reader.request(), ReadRequest::UpTo(130));
    match reader.resume(&[5, 6]).unwrap() {
        ReceiveProgress::Read(_) => panic!("not done"),
        ReceiveProgress::Done(msg) => {
            assert_eq!(msg.mask_key, [1, 2, 3, 4]);
            assert_eq!(msg.payload.len(), 130);
            assert_eq!(&msg.payload[0..3], &[5, 6, 0]);
        }
    }
}

#[test]
fn message_errors_in_words() {
    let e = MessageError::MessageTooBig { size: 1048577, max_size: 1048576 };
    assert_eq!(e.message(), "Message size: 1048577 bytes too big. Max size is 1048576");
    assert_eq!(MessageError::Format.message(), "Bad message format");
    let e = MessageError::Socket("Kind(UnexpectedEof)".to_string());
    assert_eq!(e.message(), "Socket error while reading message: Kind(UnexpectedEof)");
}

#[test]
fn numbers_big_endian() {
    assert_eq!(websocket_balancer::wire::read_be(&[1, 2]), 258);
    assert_eq!(websocket_balancer::wire::read_be(&[]), 0);
    assert_eq!(websocket_balancer::wire::read_be(&[255; 8]), u64::MAX);
}

#[test]
fn reserved_bits_do_not_matter() {
    let plain = receive_message(&[0x81, 0x02, 1, 2]).unwrap();
    for bits in 1u8..8 {
        let (msg, used) = receive_message(&[0x81 | (bits << 4), 0x02, 1, 2]).unwrap();
        assert_eq!(used, plain.1);
        assert_eq!(msg.fin, plain.0.fin);
        assert_eq!(msg.opcode, plain.0.opcode);
        assert_eq!(msg.payload, plain.0.payload);
    }
}
