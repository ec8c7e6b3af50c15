//! The websocket frame codec: what is written for a message, and how a message
//! is put together again from what a socket delivers.

use vstd::prelude::*;
use vstd::slice::slice_subrange;
use vstd::string::*;

use crate::message::{Frame, MessageOpCode, RawMessage};
use crate::text::{decimal_text, show_number};
use crate::wire::{be_bytes, be_value, byte_span, law_be_round_trip, lemma_be_bytes_len};
use crate::wire::{law_be_eight, law_be_two, lemma_be_value_bound, lemma_byte_span_values, read_be};
use crate::write_buffer::{buffer_bytes, new_buffer, put_slice, put_u16, put_u64, put_u8};
use crate::write_buffer::written;

verus! {

/// No payload above this many bytes is accepted: one mebibyte.
pub const MAX_MESSAGE_SIZE: u64 = 1024 * 1024;

/// What can go wrong while a message is read.
#[derive(Debug)]
pub enum MessageError {
    /// The socket failed; the text is how the failure describes itself.
    Socket(String),
    /// The bytes are no message.
    Format,
    /// The announced payload is larger than is accepted.
    MessageTooBig { size: u64, max_size: u64 },
}

impl MessageError {
    /// The error in words.
    pub open spec fn shown(self) -> Seq<char> {
        match self {
            MessageError::Socket(text) => "Socket error while reading message: "@ + text@,
            MessageError::Format => "Bad message format"@,
            MessageError::MessageTooBig { size, max_size } => "Message size: "@ + decimal_text(
                size as nat,
            ) + " bytes too big. Max size is "@ + decimal_text(max_size as nat),
        }
    }

    /// The error in words.
    pub fn message(&self) -> (r: String)
        ensures
            r@ == self.shown(),
            self matches MessageError::Socket(text) ==> r@
                == "Socket error while reading message: "@ + text@,
            self is Format ==> r@ == "Bad message format"@,
            self matches MessageError::MessageTooBig { size, max_size } ==> r@ == "Message size: "@
                + decimal_text(*size as nat) + " bytes too big. Max size is "@ + decimal_text(
                *max_size as nat,
            ),
    {
        match self {
            MessageError::Socket(text) => "Socket error while reading message: ".to_owned().concat(
                text.as_str(),
            ),
            MessageError::Format => "Bad message format".to_owned(),
            MessageError::MessageTooBig { size, max_size } => "Message size: ".to_owned().concat(
                show_number(*size).as_str(),
            ).concat(" bytes too big. Max size is ").concat(show_number(*max_size).as_str()),
        }
    }
}

// ---------------------------------------------------------------------------
// Writing
// ---------------------------------------------------------------------------

/// The first byte of a frame: the final flag above the kind.
pub open spec fn first_byte(frame: Frame) -> u8 {
    ((if frame.fin { 128int } else { 0 }) + frame.opcode.wire_code()) as u8
}

/// What follows the first byte: the mask flag and the length of the payload, in
/// the short form up to 125 bytes, in two more bytes below 65535, and in eight
/// more bytes from there on.
pub open spec fn length_bytes(mask: bool, len: nat) -> Seq<u8> {
    let flag: int = if mask { 128 } else { 0 };
    if len <= 125 {
        seq![(flag + len) as u8]
    } else if len < 65535 {
        seq![(flag + 126) as u8] + be_bytes(len, 2)
    } else {
        seq![(flag + 127) as u8] + be_bytes(len, 8)
    }
}

/// The masking key, which travels only with a masked frame.
pub open spec fn key_bytes(frame: Frame) -> Seq<u8> {
    if frame.mask {
        frame.mask_key
    } else {
        Seq::empty()
    }
}

/// Everything that is written for a frame.
pub open spec fn encoded(frame: Frame) -> Seq<u8> {
    seq![first_byte(frame)] + length_bytes(frame.mask, frame.payload.len()) + key_bytes(frame)
        + frame.payload
}

/// The bytes to write to a socket for a message.
pub fn send_message(msg: RawMessage) -> (r: Vec<u8>)
    requires
        2 * (msg.payload@.len() + 14) <= isize::MAX,
    ensures
        r@ == encoded(msg@),
{
    let mut out = new_buffer();
    let len: usize = msg.payload.len();
    let fin_bit: u8 = if msg.fin { 1 } else { 0 };
    let mask_bit: u8 = if msg.mask { 1 } else { 0 };
    let code: u8 = msg.opcode.code();
    let mask_v: u8 = mask_bit << 7;
    proof {
        assert(fin_bit <= 1 && code < 16 ==> (fin_bit << 7) | code == 128 * fin_bit + code)
            by (bit_vector);
        assert(mask_bit <= 1 ==> mask_bit << 7 == 128 * mask_bit) by (bit_vector);
        assert(mask_v == 0 || mask_v == 128);
        lemma_be_bytes_len(len as nat, 2);
        lemma_be_bytes_len(len as nat, 8);
    }
    put_u8(&mut out, (fin_bit << 7) | code);
    if len <= 125 {
        let short: u8 = len as u8;
        assert((mask_v == 0 || mask_v == 128) && short <= 125 ==> mask_v | short == mask_v + short)
            by (bit_vector);
        put_u8(&mut out, mask_v | short);
    } else if len < 65535 {
        assert(mask_v == 0 || mask_v == 128 ==> mask_v | 126 == mask_v + 126) by (bit_vector);
        put_u8(&mut out, mask_v | 126);
        put_u16(&mut out, len as u16);
    } else {
        assert(mask_v == 0 || mask_v == 128 ==> mask_v | 127 == mask_v + 127) by (bit_vector);
        put_u8(&mut out, mask_v | 127);
        put_u64(&mut out, len as u64);
    }
    assert(written(out) =~= seq![first_byte(msg@)] + length_bytes(msg.mask, len as nat));
    if msg.mask {
        put_slice(&mut out, msg.mask_key.as_slice());
    }
    put_slice(&mut out, msg.payload.as_slice());
    assert(written(out) =~= encoded(msg@));
    buffer_bytes(&out)
}

// ---------------------------------------------------------------------------
// Reading
// ---------------------------------------------------------------------------

/// The final flag of a frame that starts with the two bytes of `head`.
pub open spec fn head_fin(head: u16) -> bool {
    head >= 0x8000
}

/// The kind of the frame.
pub open spec fn head_opcode(head: u16) -> MessageOpCode {
    MessageOpCode::of_code((head / 256 % 16) as u8)
}

/// The mask flag of the frame.
pub open spec fn head_masked(head: u16) -> bool {
    head / 128 % 2 == 1
}

/// The short length of the frame, or a sign that the length follows.
pub open spec fn head_short_len(head: u16) -> u16 {
    head % 128
}

/// How many bytes of length follow the first two bytes.
pub open spec fn extra_length_width(head: u16) -> nat {
    if head_short_len(head) == 126 {
        2
    } else if head_short_len(head) == 127 {
        8
    } else {
        0
    }
}

/// The bytes that were read, followed by zeros up to `n` bytes.
pub open spec fn zero_padded(bytes: Seq<u8>, n: nat) -> Seq<u8> {
    Seq::new(n, |i: int| if i < bytes.len() { bytes[i] } else { 0u8 })
}

/// The frame with the given start, key and payload.
pub open spec fn frame_of(head: u16, mask_key: Seq<u8>, payload: Seq<u8>) -> Frame {
    Frame {
        fin: head_fin(head),
        opcode: head_opcode(head),
        mask: head_masked(head),
        mask_key,
        payload,
    }
}

/// What to read from the socket next.
#[derive(Debug, Clone, Copy, PartialEq, Eq, Structural)]
pub enum ReadRequest {
    /// This many bytes; fewer are an error of the socket.
    Exact(usize),
    /// One read of at most this many bytes; what it does not deliver stays zero.
    UpTo(usize),
}

/// A message of which a part has been read.
#[derive(Debug)]
pub enum FrameReader {
    /// Nothing has been read.
    Head,
    /// The first two bytes say that `width` bytes of length follow.
    Length { head: u16, width: usize },
    /// The length is known and a masking key follows.
    Key { head: u16, len: u64 },
    /// Only the payload is missing.
    Payload { head: u16, len: u64, mask_key: [u8; 4] },
}

/// A step of reading a message.
#[derive(Debug)]
pub enum ReceiveProgress {
    /// More has to be read.
    Read(FrameReader),
    /// The message is complete.
    Done(RawMessage),
}

/// The mathematical content of a `FrameReader`.
pub enum ReaderState {
    Head,
    Length { head: u16, width: nat },
    Key { head: u16, len: nat },
    Payload { head: u16, len: nat, mask_key: Seq<u8> },
}

/// The mathematical content of a step.
pub enum Step {
    Read(ReaderState),
    Done(Frame),
    TooBig(nat),
}

impl View for FrameReader {
    type V = ReaderState;

    open spec fn view(&self) -> ReaderState {
        match *self {
            FrameReader::Head => ReaderState::Head,
            FrameReader::Length { head, width } => ReaderState::Length { head, width: width as nat },
            FrameReader::Key { head, len } => ReaderState::Key { head, len: len as nat },
            FrameReader::Payload { head, len, mask_key } => ReaderState::Payload {
                head,
                len: len as nat,
                mask_key: mask_key@,
            },
        }
    }
}

impl ReaderState {
    /// The states that reading goes through.
    pub open spec fn wf(self) -> bool {
        match self {
            ReaderState::Head => true,
            ReaderState::Length { head, width } => width == extra_length_width(head) && width > 0,
            ReaderState::Key { head, len } => head_masked(head) && len <= MAX_MESSAGE_SIZE,
            ReaderState::Payload { head, len, mask_key } => 0 < len <= MAX_MESSAGE_SIZE
                && mask_key.len() == 4,
        }
    }

    /// What is read in a state: how many bytes, and whether all of them have to
    /// come.
    pub open spec fn wants(self) -> (nat, bool) {
        match self {
            ReaderState::Head => (2, true),
            ReaderState::Length { head, width } => (width, true),
            ReaderState::Key { head, len } => (4, false),
            ReaderState::Payload { head, len, mask_key } => (len, false),
        }
    }

    /// How many reads may still follow.
    pub open spec fn reads_left(self) -> nat {
        match self {
            ReaderState::Head => 4,
            ReaderState::Length { .. } => 3,
            ReaderState::Key { .. } => 2,
            ReaderState::Payload { .. } => 1,
        }
    }

    /// Where reading stands once the length is known.
    pub open spec fn with_length(head: u16, len: nat) -> Step {
        if len > MAX_MESSAGE_SIZE {
            Step::TooBig(len)
        } else if head_masked(head) {
            Step::Read(ReaderState::Key { head, len })
        } else {
            Self::with_key(head, len, crate::message::zero_key())
        }
    }

    /// Where reading stands once the key is known.
    pub open spec fn with_key(head: u16, len: nat, mask_key: Seq<u8>) -> Step {
        if len > 0 {
            Step::Read(ReaderState::Payload { head, len, mask_key })
        } else {
            Step::Done(frame_of(head, mask_key, Seq::empty()))
        }
    }

    /// Where reading stands after the bytes that answered the request.
    pub open spec fn after(self, bytes: Seq<u8>) -> Step {
        match self {
            ReaderState::Head => {
                let head = be_value(bytes) as u16;
                if extra_length_width(head) > 0 {
                    Step::Read(ReaderState::Length { head, width: extra_length_width(head) })
                } else {
                    Self::with_length(head, head_short_len(head) as nat)
                }
            },
            ReaderState::Length { head, width } => Self::with_length(head, be_value(bytes)),
            ReaderState::Key { head, len } => Self::with_key(head, len, zero_padded(bytes, 4)),
            ReaderState::Payload { head, len, mask_key } => Step::Done(
                frame_of(head, mask_key, zero_padded(bytes, len)),
            ),
        }
    }
}

/// Whether an outcome of reading is the given step.
pub open spec fn is_step(r: Result<ReceiveProgress, MessageError>, step: Step) -> bool {
    match r {
        Ok(ReceiveProgress::Read(reader)) => step == Step::Read(reader@),
        Ok(ReceiveProgress::Done(msg)) => step == Step::Done(msg@),
        Err(MessageError::MessageTooBig { size, max_size }) => step == Step::TooBig(size as nat)
            && max_size == MAX_MESSAGE_SIZE,
        Err(_) => false,
    }
}

/// Puts the parts of a message together.
fn assemble(head: u16, mask_key: [u8; 4], payload: Vec<u8>) -> (r: RawMessage)
    ensures
        r@ == frame_of(head, mask_key@, payload@),
{
    let opcode_v: u8 = ((head & (0b0000_1111 << 8)) >> 8) as u8;
    proof {
        assert((head & (1u16 << 15) != 0) == (head >= 0x8000)) by (bit_vector);
        assert(((head & (0b0000_1111u16 << 8)) >> 8) == head / 256 % 16) by (bit_vector);
        assert((head & 0b1000_0000 != 0) == (head / 128 % 2 == 1)) by (bit_vector);
    }
    RawMessage {
        fin: head & (1 << 15) != 0,
        opcode: MessageOpCode::from(opcode_v),
        mask: head & 0b1000_0000 != 0,
        mask_key,
        payload,
    }
}

impl FrameReader {
    /// A reader for a new message.
    pub fn new() -> (r: Self)
        ensures
            r@ == ReaderState::Head,
            r@.wf(),
    {
        FrameReader::Head
    }

    /// What to read next.
    pub fn request(&self) -> (r: ReadRequest)
        requires
            self@.wf(),
        ensures
            match r {
                ReadRequest::Exact(n) => self@.wants() == (n as nat, true),
                ReadRequest::UpTo(n) => self@.wants() == (n as nat, false),
            },
    {
        match self {
            FrameReader::Head => ReadRequest::Exact(2),
            FrameReader::Length { head: _, width } => ReadRequest::Exact(*width),
            FrameReader::Key { .. } => ReadRequest::UpTo(4),
            FrameReader::Payload { head: _, len, mask_key: _ } => ReadRequest::UpTo(*len as usize),
        }
    }

    fn with_key(head: u16, len: u64, mask_key: [u8; 4]) -> (r: Result<
        ReceiveProgress,
        MessageError,
    >)
        requires
            len <= MAX_MESSAGE_SIZE,
        ensures
            is_step(r, ReaderState::with_key(head, len as nat, mask_key@)),
    {
        if len != 0 {
            Ok(ReceiveProgress::Read(FrameReader::Payload { head, len, mask_key }))
        } else {
            Ok(ReceiveProgress::Done(assemble(head, mask_key, Vec::new())))
        }
    }

    fn with_length(head: u16, len: u64) -> (r: Result<ReceiveProgress, MessageError>)
        ensures
            is_step(r, ReaderState::with_length(head, len as nat)),
    {
        if len > MAX_MESSAGE_SIZE {
            return Err(
                MessageError::MessageTooBig { size: len, max_size: MAX_MESSAGE_SIZE },
            );
        }
        assert((head & 0b1000_0000 != 0) == (head / 128 % 2 == 1)) by (bit_vector);
        if head & 0b1000_0000 != 0 {
            Ok(ReceiveProgress::Read(FrameReader::Key { head, len }))
        } else {
            let mask_key: [u8; 4] = [0, 0, 0, 0];
            assert(mask_key@ =~= crate::message::zero_key());
            Self::with_key(head, len, mask_key)
        }
    }

    /// Takes in the bytes that answered the last request.
    pub fn resume(self, bytes: &[u8]) -> (r: Result<ReceiveProgress, MessageError>)
        requires
            self@.wf(),
            self@.wants().1 ==> bytes@.len() == self@.wants().0,
            bytes@.len() <= self@.wants().0,
        ensures
            is_step(r, self@.after(bytes@)),
            r matches Ok(ReceiveProgress::Read(next)) ==> next@.wf() && next@.reads_left()
                < self@.reads_left(),
    {
        match self {
            FrameReader::Head => {
                proof {
                    lemma_be_value_bound(bytes@);
                    lemma_byte_span_values();
                }
                let head: u16 = read_be(bytes) as u16;
                let short_payload_len: u16 = head & 0b0111_1111;
                assert(head & 0b0111_1111 == head % 128) by (bit_vector);
                if short_payload_len == 126 {
                    Ok(ReceiveProgress::Read(FrameReader::Length { head, width: 2 }))
                } else if short_payload_len == 127 {
                    Ok(ReceiveProgress::Read(FrameReader::Length { head, width: 8 }))
                } else {
                    Self::with_length(head, short_payload_len as u64)
                }
            },
            FrameReader::Length { head, width: _ } => Self::with_length(head, read_be(bytes)),
            FrameReader::Key { head, len } => {
                let mut mask_key: [u8; 4] = [0, 0, 0, 0];
                let mut i: usize = 0;
                while i < bytes.len()
                    invariant
                        i <= bytes@.len() <= 4,
                        forall|j: int| 0 <= j < i ==> mask_key@[j] == bytes@[j],
                        forall|j: int| i <= j < 4 ==> mask_key@[j] == 0,
                    decreases bytes@.len() - i,
                {
                    mask_key[i] = bytes[i];
                    i = i + 1;
                }
                assert(mask_key@ =~= zero_padded(bytes@, 4));
                Self::with_key(head, len, mask_key)
            },
            FrameReader::Payload { head, len, mask_key } => {
                let mut payload: Vec<u8> = Vec::new();
                payload.extend_from_slice(bytes);
                assert(payload@ =~= bytes@);
                payload.resize(len as usize, 0);
                assert(payload@ =~= zero_padded(bytes@, len as nat)) by {
                    assert forall|i: int| 0 <= i < len implies payload@[i] == zero_padded(
                        bytes@,
                        len as nat,
                    )[i] by {
                        if i < bytes@.len() {
                            assert(payload@.subrange(0, bytes@.len() as int)[i] == bytes@[i]);
                        }
                    }
                }
                Ok(ReceiveProgress::Done(assemble(head, mask_key, payload)))
            },
        }
    }
}

// ---------------------------------------------------------------------------
// Whole messages
// ---------------------------------------------------------------------------

/// What comes of reading one message from bytes that are all there.
pub enum Received {
    /// A message, and how many bytes were taken for it.
    Message { frame: Frame, used: nat },
    /// A message with a payload of this size, which is above the limit.
    TooBig(nat),
    /// The bytes end within the start of a message.
    Ended,
}

/// The smaller of two lengths.
pub open spec fn at_most(limit: nat, n: nat) -> nat {
    if n < limit {
        n
    } else {
        limit
    }
}

/// The bytes of `input` from `from` on, at most `n` of them.
pub open spec fn window(input: Seq<u8>, from: nat, n: nat) -> Seq<u8> {
    if from <= input.len() {
        input.subrange(from as int, at_most(input.len(), from + n) as int)
    } else {
        Seq::empty()
    }
}

/// The length of the payload that a message announces.
pub open spec fn announced_length(input: Seq<u8>) -> nat {
    let head = be_value(window(input, 0, 2)) as u16;
    let width = extra_length_width(head);
    if width > 0 {
        be_value(window(input, 2, width))
    } else {
        head_short_len(head) as nat
    }
}

/// What comes of reading one message from `input`. The start of the message
/// has to be there; of the key and the payload, what is missing reads as zero.
pub open spec fn received(input: Seq<u8>) -> Received {
    let head = be_value(window(input, 0, 2)) as u16;
    let key_at = 2 + extra_length_width(head);
    let payload_at = key_at + if head_masked(head) { 4nat } else { 0nat };
    let len = announced_length(input);
    if input.len() < 2 || input.len() < key_at {
        Received::Ended
    } else if len > MAX_MESSAGE_SIZE {
        Received::TooBig(len)
    } else {
        Received::Message {
            frame: frame_of(
                head,
                zero_padded(window(input, key_at, (payload_at - key_at) as nat), 4),
                zero_padded(window(input, payload_at, len), len),
            ),
            used: at_most(input.len(), payload_at + len),
        }
    }
}

/// What comes of reading on from a state, with `pos` bytes taken already.
spec fn reading_on(state: ReaderState, input: Seq<u8>, pos: nat) -> Received
    decreases state.reads_left(),
{
    let (want, exact) = state.wants();
    let bytes = window(input, pos, want);
    if exact && bytes.len() < want {
        Received::Ended
    } else {
        match state.after(bytes) {
            Step::Read(next) => if next.reads_left() < state.reads_left() {
                reading_on(next, input, pos + bytes.len())
            } else {
                Received::Ended
            },
            Step::Done(frame) => Received::Message { frame, used: pos + bytes.len() },
            Step::TooBig(size) => Received::TooBig(size),
        }
    }
}

proof fn lemma_reading_from_key(head: u16, len: nat, input: Seq<u8>, pos: nat)
    requires
        pos <= input.len(),
        head_masked(head),
        len <= MAX_MESSAGE_SIZE,
    ensures
        reading_on(ReaderState::Key { head, len }, input, pos) == (Received::Message {
            frame: frame_of(
                head,
                zero_padded(window(input, pos, 4), 4),
                zero_padded(window(input, pos + 4, len), len),
            ),
            used: at_most(input.len(), pos + 4 + len),
        }),
{
    reveal_with_fuel(reading_on, 3);
    let key = window(input, pos, 4);
    let payload = window(input, pos + 4, len);
    let after_key = window(input, pos + key.len(), len);
    assert(after_key =~= payload);
    if len == 0 {
        assert(zero_padded(payload, len) =~= Seq::<u8>::empty());
    }
}

proof fn lemma_reading_with_length(head: u16, len: nat, input: Seq<u8>, pos: nat)
    requires
        pos <= input.len(),
    ensures
        ({
            let payload_at = pos + if head_masked(head) { 4nat } else { 0nat };
            let r = match ReaderState::with_length(head, len) {
                Step::Read(next) => reading_on(next, input, pos),
                Step::Done(frame) => Received::Message { frame, used: pos },
                Step::TooBig(size) => Received::TooBig(size),
            };
            r == if len > MAX_MESSAGE_SIZE {
                Received::TooBig(len)
            } else {
                Received::Message {
                    frame: frame_of(
                        head,
                        zero_padded(window(input, pos, (payload_at - pos) as nat), 4),
                        zero_padded(window(input, payload_at, len), len),
                    ),
                    used: at_most(input.len(), payload_at + len),
                }
            }
        }),
{
    reveal_with_fuel(reading_on, 2);
    if len <= MAX_MESSAGE_SIZE {
        if head_masked(head) {
            lemma_reading_from_key(head, len, input, pos);
        } else {
            assert(zero_padded(window(input, pos, 0), 4) =~= crate::message::zero_key());
            if len == 0 {
                assert(zero_padded(window(input, pos, len), len) =~= Seq::<u8>::empty());
            }
        }
    }
}

proof fn lemma_reading_is_received(input: Seq<u8>)
    ensures
        reading_on(ReaderState::Head, input, 0) == received(input),
{
    reveal_with_fuel(reading_on, 2);
    let bytes = window(input, 0, 2);
    let head = be_value(bytes) as u16;
    let width = extra_length_width(head);
    if input.len() >= 2 {
        if width > 0 {
            let state = ReaderState::Length { head, width };
            assert(reading_on(ReaderState::Head, input, 0) == reading_on(state, input, 2));
            if input.len() >= 2 + width {
                lemma_reading_with_length(head, be_value(window(input, 2, width)), input, 2 + width);
            }
        } else {
            lemma_reading_with_length(head, head_short_len(head) as nat, input, 2);
        }
    }
}

/// Reads one message from bytes that are all there, and says how many of them
/// it took. Bytes that end too early fail as a socket does that is closed.
pub fn receive_message(input: &[u8]) -> (r: Result<(RawMessage, usize), MessageError>)
    ensures
        match r {
            Ok((msg, used)) => received(input@) == (Received::Message {
                frame: msg@,
                used: used as nat,
            }),
            Err(MessageError::MessageTooBig { size, max_size }) => received(input@)
                == Received::TooBig(size as nat) && max_size == MAX_MESSAGE_SIZE,
            Err(MessageError::Socket(text)) => received(input@) == Received::Ended && text@
                == "Kind(UnexpectedEof)"@,
            Err(MessageError::Format) => false,
        },
{
    let mut reader = FrameReader::new();
    let mut pos: usize = 0;
    proof {
        lemma_reading_is_received(input@);
    }
    loop
        invariant
            pos <= input@.len(),
            reader@.wf(),
            reading_on(reader@, input@, pos as nat) == received(input@),
        decreases reader@.reads_left(),
    {
        let left: usize = input.len() - pos;
        let n: usize = match reader.request() {
            ReadRequest::Exact(want) => {
                if left < want {
                    return Err(MessageError::Socket("Kind(UnexpectedEof)".to_owned()));
                }
                want
            },
            ReadRequest::UpTo(want) => if left < want {
                left
            } else {
                want
            },
        };
        let bytes = slice_subrange(input, pos, pos + n);
        assert(bytes@ =~= window(input@, pos as nat, reader@.wants().0));
        match reader.resume(bytes) {
            Ok(ReceiveProgress::Read(next)) => {
                reader = next;
                pos = pos + n;
            },
            Ok(ReceiveProgress::Done(msg)) => {
                return Ok((msg, pos + n));
            },
            Err(e) => {
                return Err(e);
            },
        }
    }
}

// ---------------------------------------------------------------------------
// Laws
// ---------------------------------------------------------------------------

/// What a frame looks like to the receiver: the key of an unmasked frame does
/// not travel and reads as zero.
pub open spec fn as_received(frame: Frame) -> Frame {
    if frame.mask {
        frame
    } else {
        Frame { mask_key: crate::message::zero_key(), ..frame }
    }
}

/// The first two bytes of an encoded frame, read as one number, say again what
/// the frame says of itself.
proof fn lemma_encoded_head(frame: Frame, rest: Seq<u8>)
    ensures
        ({
            let input = encoded(frame) + rest;
            let head = be_value(window(input, 0, 2)) as u16;
            let len = frame.payload.len();
            &&& head_fin(head) == frame.fin
            &&& head_opcode(head) == frame.opcode
            &&& head_masked(head) == frame.mask
            &&& head_short_len(head) == if len <= 125 {
                len as int
            } else if len < 65535 {
                126
            } else {
                127
            }
        }),
{
    let input = encoded(frame) + rest;
    let len = frame.payload.len();
    lemma_be_bytes_len(len, 2);
    lemma_be_bytes_len(len, 8);
    let b0 = input[0];
    let b1 = input[1];
    assert(b0 == first_byte(frame));
    assert(b1 == length_bytes(frame.mask, len)[0]);
    let two = window(input, 0, 2);
    assert(two =~= seq![b0, b1]);
    assert(two.drop_last() =~= seq![b0]);
    assert(seq![b0].drop_last() =~= Seq::<u8>::empty());
    reveal_with_fuel(be_value, 3);
    assert(be_value(two) == b0 * 256 + b1);
    let head = be_value(two) as u16;
    assert(head == b0 * 256 + b1);
    assert(head / 256 == b0);
    crate::message::law_op_code_round_trip(frame.opcode);
}

/// Where the parts of an encoded frame lie.
proof fn lemma_encoded_parts(frame: Frame, rest: Seq<u8>)
    requires
        frame.mask_key.len() == 4,
        frame.payload.len() < byte_span(8),
    ensures
        ({
            let input = encoded(frame) + rest;
            let head = be_value(window(input, 0, 2)) as u16;
            let len = frame.payload.len();
            let key_at = 2 + extra_length_width(head);
            let payload_at = key_at + if frame.mask { 4nat } else { 0nat };
            &&& encoded(frame).len() == payload_at + len
            &&& announced_length(input) == len
            &&& frame.mask ==> window(input, key_at, 4) == frame.mask_key
            &&& window(input, payload_at, len) == frame.payload
        }),
{
    let input = encoded(frame) + rest;
    let len = frame.payload.len();
    lemma_encoded_head(frame, rest);
    lemma_be_bytes_len(len, 2);
    lemma_be_bytes_len(len, 8);
    lemma_byte_span_values();
    let head = be_value(window(input, 0, 2)) as u16;
    let width = extra_length_width(head);
    let key_at = 2 + width;
    let payload_at = key_at + if frame.mask { 4nat } else { 0nat };
    if width > 0 {
        assert(window(input, 2, width) =~= be_bytes(len, width));
        law_be_round_trip(len, width);
    }
    if frame.mask {
        assert(window(input, key_at, 4) =~= frame.mask_key);
    }
    assert(window(input, payload_at, len) =~= frame.payload);
}

/// What is sent is received: from the bytes written for a frame whose payload is
/// within the limit, whatever follows them, the receiver reads that frame and
/// takes exactly those bytes.
pub proof fn law_sent_is_received(frame: Frame, rest: Seq<u8>)
    requires
        frame.mask_key.len() == 4,
        frame.payload.len() <= MAX_MESSAGE_SIZE,
    ensures
        received(encoded(frame) + rest) == (Received::Message {
            frame: as_received(frame),
            used: encoded(frame).len(),
        }),
{
    lemma_byte_span_values();
    lemma_encoded_head(frame, rest);
    lemma_encoded_parts(frame, rest);
    let input = encoded(frame) + rest;
    let head = be_value(window(input, 0, 2)) as u16;
    let len = frame.payload.len();
    let key_at = 2 + extra_length_width(head);
    let payload_at = key_at + if frame.mask { 4nat } else { 0nat };
    assert(zero_padded(frame.payload, len) =~= frame.payload);
    if frame.mask {
        assert(zero_padded(frame.mask_key, 4) =~= frame.mask_key);
    } else {
        assert(zero_padded(window(input, key_at, 0), 4) =~= crate::message::zero_key());
    }
}

/// What is sent above the limit is refused by the receiver, which names its
/// size.
pub proof fn law_oversized_is_refused(frame: Frame, rest: Seq<u8>)
    requires
        frame.mask_key.len() == 4,
        MAX_MESSAGE_SIZE < frame.payload.len() < byte_span(8),
    ensures
        received(encoded(frame) + rest) == Received::TooBig(frame.payload.len()),
{
    lemma_encoded_head(frame, rest);
    lemma_encoded_parts(frame, rest);
}

/// The three bits of the first byte between the final flag and the kind do not
/// matter: what is received is the same whatever they are.
pub proof fn law_reserved_bits_do_not_matter(a: Seq<u8>, b: Seq<u8>)
    requires
        a.len() == b.len(),
        a.len() > 0,
        a[0] / 128 == b[0] / 128,
        a[0] % 16 == b[0] % 16,
        forall|i: int| 1 <= i < a.len() ==> #[trigger] a[i] == b[i],
    ensures
        received(a) == received(b),
{
    if a.len() >= 2 {
        let wa = window(a, 0, 2);
        let wb = window(b, 0, 2);
        lemma_two_bytes(wa);
        lemma_two_bytes(wb);
        assert(a[1] == b[1]);
        lemma_same_head(a[0], b[0], a[1]);
        let ha = be_value(wa) as u16;
        let width = extra_length_width(ha);
        let key_at = 2 + width;
        let payload_at = key_at + if head_masked(ha) { 4nat } else { 0nat };
        lemma_same_window(a, b, 2, width);
        lemma_same_window(a, b, key_at, (payload_at - key_at) as nat);
        lemma_same_window(a, b, payload_at, announced_length(a));
    }
}

proof fn lemma_same_window(a: Seq<u8>, b: Seq<u8>, from: nat, n: nat)
    requires
        a.len() == b.len(),
        from > 0,
        forall|i: int| 1 <= i < a.len() ==> #[trigger] a[i] == b[i],
    ensures
        window(a, from, n) == window(b, from, n),
{
    assert(window(a, from, n) =~= window(b, from, n));
}

/// What the first two bytes say, apart from the three bits that say nothing.
proof fn lemma_same_head(a: u8, b: u8, second: u8)
    requires
        a / 128 == b / 128,
        a % 16 == b % 16,
    ensures
        ({
            let ha = (a * 256 + second) as u16;
            let hb = (b * 256 + second) as u16;
            &&& head_fin(ha) == head_fin(hb)
            &&& head_opcode(ha) == head_opcode(hb)
            &&& head_masked(ha) == head_masked(hb)
            &&& head_short_len(ha) == head_short_len(hb)
        }),
{
    let ha = (a * 256 + second) as u16;
    let hb = (b * 256 + second) as u16;
    assert(ha / 256 == a && hb / 256 == b);
    assert(ha / 128 % 2 == second / 128 && hb / 128 % 2 == second / 128);
    assert(ha % 128 == second % 128 && hb % 128 == second % 128);
}

proof fn lemma_two_bytes(s: Seq<u8>)
    requires
        s.len() == 2,
    ensures
        be_value(s) == s[0] * 256 + s[1],
{
    law_be_two(s);
}

/// No message that is received has a payload above the limit.
pub proof fn law_received_is_within_limit(input: Seq<u8>)
    ensures
        received(input) matches Received::Message { frame, used } ==> frame.payload.len()
            <= MAX_MESSAGE_SIZE && used <= input.len(),
{
}

/// Where everything stands in the bytes of a frame: the final flag above the kind
/// in the first byte, the mask flag above the short length in the second, then
/// the length, the key and the payload.
pub proof fn law_frame_layout(frame: Frame)
    requires
        frame.mask_key.len() == 4,
        frame.payload.len() <= u64::MAX,
    ensures
        ({
            let e = encoded(frame);
            let n = frame.payload.len() as int;
            let key_at: int = if n <= 125 {
                2
            } else if n < 65535 {
                4
            } else {
                10
            };
            let payload_at: int = if frame.mask {
                key_at + 4
            } else {
                key_at
            };
            &&& e.len() == payload_at + n
            &&& e[0] / 128 == (if frame.fin {
                1
            } else {
                0int
            })
            &&& e[0] % 128 == frame.opcode.wire_code()
            &&& e[1] / 128 == (if frame.mask {
                1
            } else {
                0int
            })
            &&& n <= 125 ==> e[1] % 128 == n
            &&& 125 < n < 65535 ==> e[1] % 128 == 126 && e[2] * 256 + e[3] == n
            &&& 65535 <= n ==> e[1] % 128 == 127 && e[2] * 0x100_0000_0000_0000 + e[3]
                * 0x1_0000_0000_0000 + e[4] * 0x100_0000_0000 + e[5] * 0x1_0000_0000 + e[6]
                * 0x100_0000 + e[7] * 0x1_0000 + e[8] * 0x100 + e[9] == n
            &&& frame.mask ==> forall|i: int|
                0 <= i < 4 ==> #[trigger] e[key_at + i] == frame.mask_key[i]
            &&& forall|i: int| 0 <= i < n ==> #[trigger] e[payload_at + i] == frame.payload[i]
        }),
{
    let e = encoded(frame);
    let n = frame.payload.len();
    lemma_be_bytes_len(n, 2);
    lemma_be_bytes_len(n, 8);
    lemma_byte_span_values();
    assert(frame.opcode.wire_code() < 16);
    let lb = length_bytes(frame.mask, n);
    let kb = key_bytes(frame);
    assert forall|i: int| 0 <= i < lb.len() implies #[trigger] e[1 + i] == lb[i] by {}
    assert forall|i: int| 0 <= i < kb.len() implies #[trigger] e[1 + lb.len() + i] == kb[i] by {}
    assert forall|i: int| 0 <= i < n implies #[trigger] e[1 + lb.len() + kb.len() + i]
        == frame.payload[i] by {}
    if n <= 125 {
        assert(e[1] == lb[0]);
    } else if n < 65535 {
        let w = be_bytes(n, 2);
        law_be_round_trip(n, 2);
        law_be_two(w);
        assert(e[1] == lb[0] && e[2] == w[0] && e[3] == w[1]);
    } else {
        let w = be_bytes(n, 8);
        law_be_round_trip(n, 8);
        law_be_eight(w);
        assert(e[1] == lb[0]);
        assert(e[2] == w[0] && e[3] == w[1] && e[4] == w[2] && e[5] == w[3]);
        assert(e[6] == w[4] && e[7] == w[5] && e[8] == w[6] && e[9] == w[7]);
    }
}

/// What the bytes of a message say, byte by byte. Less than two bytes, or less than
/// the announced length takes, are no message; a payload of more than a mebibyte
/// is refused; else the flags, the kind, the key and the payload stand where they
/// are written, and bytes that are missing read as zero.
pub proof fn law_received_layout(input: Seq<u8>)
    ensures
        input.len() < 2 ==> received(input) == Received::Ended,
        input.len() >= 2 ==> {
            let short = input[1] % 128;
            let key_at: int = if short == 126 {
                4
            } else if short == 127 {
                10
            } else {
                2
            };
            let len: int = if short == 126 {
                input[2] * 256 + input[3]
            } else if short == 127 {
                input[2] * 0x100_0000_0000_0000 + input[3] * 0x1_0000_0000_0000 + input[4]
                    * 0x100_0000_0000 + input[5] * 0x1_0000_0000 + input[6] * 0x100_0000 + input[7]
                    * 0x1_0000 + input[8] * 0x100 + input[9]
            } else {
                short as int
            };
            let payload_at: int = if input[1] >= 128 {
                key_at + 4
            } else {
                key_at
            };
            &&& input.len() < key_at ==> received(input) == Received::Ended
            &&& input.len() >= key_at && len > 1048576 ==> received(input) == Received::TooBig(
                len as nat,
            )
            &&& input.len() >= key_at && len <= 1048576 ==> {
                &&& received(input) matches Received::Message { frame, used }
                &&& frame.fin == (input[0] >= 128)
                &&& frame.opcode == MessageOpCode::of_code((input[0] % 16) as u8)
                &&& frame.mask == (input[1] >= 128)
                &&& frame.mask_key.len() == 4
                &&& forall|i: int|
                    0 <= i < 4 ==> #[trigger] frame.mask_key[i] == if input[1] >= 128 && key_at + i
                        < input.len() {
                        input[key_at + i]
                    } else {
                        0
                    }
                &&& frame.payload.len() == len
                &&& forall|i: int|
                    0 <= i < len ==> #[trigger] frame.payload[i] == if payload_at + i
                        < input.len() {
                        input[payload_at + i]
                    } else {
                        0
                    }
                &&& used == if payload_at + len < input.len() {
                    payload_at + len
                } else {
                    input.len() as int
                }
            }
        },
{
    if input.len() >= 2 {
        let w = window(input, 0, 2);
        law_be_two(w);
        let head = be_value(w) as u16;
        assert(head == input[0] * 256 + input[1]);
        assert(head / 256 == input[0]);
        assert(head / 128 % 2 == input[1] / 128);
        assert(head % 128 == input[1] % 128);
        let width = extra_length_width(head);
        if input.len() >= 2 + width {
            let x = window(input, 2, width);
            if width == 2 {
                law_be_two(x);
                assert(x[0] == input[2] && x[1] == input[3]);
            } else if width == 8 {
                law_be_eight(x);
                assert(x[0] == input[2] && x[1] == input[3] && x[2] == input[4] && x[3]
                    == input[5]);
                assert(x[4] == input[6] && x[5] == input[7] && x[6] == input[8] && x[7]
                    == input[9]);
            }
        }
    }
}

} // verus!
