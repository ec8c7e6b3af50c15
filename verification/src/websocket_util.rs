//! Frames and handshakes under one name.

pub use crate::frame::{receive_message, send_message, MessageError};
pub use crate::handshake::{read_headers, receive_handshake_data, HandshakeError};
