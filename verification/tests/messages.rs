use websocket_balancer::message::{MessageOpCode, RawMessage};

const CODES: [(u8, MessageOpCode); 7] = [
    (0, MessageOpCode::ContinuationFrame),
    (1, MessageOpCode::TextFrame),
    (2, MessageOpCode::BinaryFrame),
    (8, MessageOpCode::Close),
    (9, MessageOpCode::Ping),
    (10, MessageOpCode::Pong),
    (15, MessageOpCode::Unknown),
];

#[test]
fn op_codes_round_trip() {
    for (code, opcode) in CODES.iter() {
        assert_eq!(opcode.code(), *code);
        assert_eq!(MessageOpCode::from(*code), *opcode);
    }
}

#[test]
fn codes_without_a_name_are_unknown() {
    for code in [3u8, 4, 5, 6, 7, 11, 12, 13, 14, 16, 255].iter() {
        assert_eq!(MessageOpCode::from(*code), MessageOpCode::Unknown);
    }
}

fn masked_message() -> RawMessage {
    RawMessage {
        fin: true,
        opcode: MessageOpCode::TextFrame,
        mask: true,
        mask_key: [1, 2, 3, 4],
        payload: vec![0x10, 0x20, 0x30, 0x40, 0x50],
    }
}

#[test]
fn unmask_lays_the_key_over_the_payload() {
    let mut msg = masked_message();
    msg.unmask();
    assert_eq!(msg.payload, vec![0x11, 0x22, 0x33, 0x44, 0x51]);
    assert!(msg.mask);
    assert_eq!(msg.mask_key, [1, 2, 3, 4]);
}

#[test]
fn unmask_twice_gives_the_payload_back() {
    let mut msg = masked_message();
    msg.unmask();
    msg.unmask();
    assert_eq!(msg.payload, masked_message().payload);
}

#[test]
fn unmask_leaves_an_unmasked_message_alone() {
    let mut msg = masked_message();
    msg.mask = false;
    msg.unmask();
    assert_eq!(msg.payload, masked_message().payload);
}

#[test]
fn zero_key_masks_nothing() {
    let mut msg = masked_message();
    msg.mask_key = [0; 4];
    msg.unmask();
    assert_eq!(msg.payload, masked_message().payload);
}

#[test]
fn close_message_has_its_two_bytes() {
    let msg = RawMessage::close_message();
    assert!(msg.fin);
    assert_eq!(msg.opcode, MessageOpCode::Close);
    assert!(!msg.mask);
    assert_eq!(msg.mask_key, [0; 4]);
    assert_eq!(msg.payload, vec![0x0f, 0xa0]);
}

#[test]
fn text_message_holds_the_text() {
    let msg = RawMessage::text_message(b"hello".to_vec());
    assert!(msg.fin);
    assert_eq!(msg.opcode, MessageOpCode::TextFrame);
    assert!(!msg.mask);
    assert_eq!(msg.mask_key, [0; 4]);
    assert_eq!(msg.payload, b"hello".to_vec());
}
