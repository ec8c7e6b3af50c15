//! Websocket messages, one frame each.

use vstd::prelude::*;

verus! {

/// The kinds of frame that the balancer tells apart.
#[derive(Debug, Clone, Copy, PartialEq, Eq, Structural)]
pub enum MessageOpCode {
    ContinuationFrame,
    TextFrame,
    BinaryFrame,
    Close,
    Ping,
    Pong,
    Unknown,
}

impl MessageOpCode {
    /// The four bits that stand for the kind on the wire. `Unknown` gathers
    /// every code without a name of its own and is written as 15.
    pub open spec fn wire_code(self) -> u8 {
        match self {
            MessageOpCode::ContinuationFrame => 0,
            MessageOpCode::TextFrame => 1,
            MessageOpCode::BinaryFrame => 2,
            MessageOpCode::Close => 8,
            MessageOpCode::Ping => 9,
            MessageOpCode::Pong => 10,
            MessageOpCode::Unknown => 15,
        }
    }

    /// The kind that a code on the wire stands for.
    pub open spec fn of_code(v: u8) -> MessageOpCode {
        if v == 0 {
            MessageOpCode::ContinuationFrame
        } else if v == 1 {
            MessageOpCode::TextFrame
        } else if v == 2 {
            MessageOpCode::BinaryFrame
        } else if v == 8 {
            MessageOpCode::Close
        } else if v == 9 {
            MessageOpCode::Ping
        } else if v == 10 {
            MessageOpCode::Pong
        } else {
            MessageOpCode::Unknown
        }
    }

    /// The code that is written for this kind.
    pub fn code(self) -> (r: u8)
        ensures
            r == self.wire_code(),
            r < 16,
    {
        match self {
            MessageOpCode::ContinuationFrame => 0,
            MessageOpCode::TextFrame => 1,
            MessageOpCode::BinaryFrame => 2,
            MessageOpCode::Close => 8,
            MessageOpCode::Ping => 9,
            MessageOpCode::Pong => 10,
            MessageOpCode::Unknown => 15,
        }
    }
}

impl vstd::std_specs::convert::FromSpecImpl<u8> for MessageOpCode {
    open spec fn obeys_from_spec() -> bool {
        true
    }

    open spec fn from_spec(v: u8) -> Self {
        MessageOpCode::of_code(v)
    }
}

impl From<u8> for MessageOpCode {
    fn from(v: u8) -> (r: Self) {
        match v {
            0 => MessageOpCode::ContinuationFrame,
            1 => MessageOpCode::TextFrame,
            2 => MessageOpCode::BinaryFrame,
            8 => MessageOpCode::Close,
            9 => MessageOpCode::Ping,
            10 => MessageOpCode::Pong,
            _ => MessageOpCode::Unknown,
        }
    }
}

/// Each kind has one code, and every other code is unknown.
pub proof fn law_op_code_table(v: u8)
    ensures
        MessageOpCode::of_code(v) == MessageOpCode::ContinuationFrame <==> v == 0,
        MessageOpCode::of_code(v) == MessageOpCode::TextFrame <==> v == 1,
        MessageOpCode::of_code(v) == MessageOpCode::BinaryFrame <==> v == 2,
        MessageOpCode::of_code(v) == MessageOpCode::Close <==> v == 8,
        MessageOpCode::of_code(v) == MessageOpCode::Ping <==> v == 9,
        MessageOpCode::of_code(v) == MessageOpCode::Pong <==> v == 10,
        MessageOpCode::of_code(v) == MessageOpCode::Unknown <==> !(v == 0 || v == 1 || v == 2 || v
            == 8 || v == 9 || v == 10),
        MessageOpCode::Unknown.wire_code() == 15,
{
}

/// Every kind is read back from the code that is written for it.
pub proof fn law_op_code_round_trip(opcode: MessageOpCode)
    ensures
        MessageOpCode::of_code(opcode.wire_code()) == opcode,
{
}

/// One websocket message as it travels. The payload stays as it came from the
/// wire: masked, if `mask` is set, until `unmask` is called.
#[derive(Debug)]
pub struct RawMessage {
    pub fin: bool,
    pub opcode: MessageOpCode,
    pub mask: bool,
    pub mask_key: [u8; 4],
    pub payload: Vec<u8>,
}

/// The mathematical content of a `RawMessage`.
pub struct Frame {
    pub fin: bool,
    pub opcode: MessageOpCode,
    pub mask: bool,
    pub mask_key: Seq<u8>,
    pub payload: Seq<u8>,
}

impl View for RawMessage {
    type V = Frame;

    open spec fn view(&self) -> Frame {
        Frame {
            fin: self.fin,
            opcode: self.opcode,
            mask: self.mask,
            mask_key: self.mask_key@,
            payload: self.payload@,
        }
    }
}

/// A masking key without effect.
pub open spec fn zero_key() -> Seq<u8> {
    seq![0u8, 0u8, 0u8, 0u8]
}

/// `data` with the key laid over it again and again.
pub open spec fn masked(data: Seq<u8>, key: Seq<u8>) -> Seq<u8> {
    Seq::new(data.len(), |i: int| data[i] ^ key[i % 4])
}

impl Frame {
    /// The frame after its masking has been taken off the payload. The flag and
    /// the key are left as they are.
    pub open spec fn unmasked(self) -> Frame {
        if self.mask {
            Frame { payload: masked(self.payload, self.mask_key), ..self }
        } else {
            self
        }
    }

    /// A final, unmasked text frame.
    pub open spec fn text(payload: Seq<u8>) -> Frame {
        Frame {
            fin: true,
            opcode: MessageOpCode::TextFrame,
            mask: false,
            mask_key: zero_key(),
            payload,
        }
    }

    /// The frame that closes a connection.
    pub open spec fn close() -> Frame {
        Frame {
            fin: true,
            opcode: MessageOpCode::Close,
            mask: false,
            mask_key: zero_key(),
            payload: seq![0x0fu8, 0xa0u8],
        }
    }
}

impl RawMessage {
    /// Takes the mask off the payload, or puts it on again.
    pub fn unmask(&mut self)
        ensures
            final(self)@ == old(self)@.unmasked(),
            final(self).fin == old(self).fin,
            final(self).opcode == old(self).opcode,
            final(self).mask == old(self).mask,
            final(self).mask_key@ == old(self).mask_key@,
            final(self).payload@.len() == old(self).payload@.len(),
            forall|i: int|
                0 <= i < old(self).payload@.len() ==> #[trigger] final(self).payload@[i] == if old(
                    self,
                ).mask {
                    old(self).payload@[i] ^ old(self).mask_key@[i % 4]
                } else {
                    old(self).payload@[i]
                },
    {
        if self.mask {
            let n: usize = self.payload.len();
            let mut i: usize = 0;
            let ghost start = self@;
            while i < n
                invariant
                    i <= n,
                    n == self.payload@.len(),
                    n == start.payload.len(),
                    self.mask_key@ == start.mask_key,
                    self.mask_key@.len() == 4,
                    self.fin == start.fin,
                    self.opcode == start.opcode,
                    self.mask == start.mask,
                    forall|j: int|
                        0 <= j < i ==> self.payload@[j] == start.payload[j] ^ start.mask_key[j % 4],
                    forall|j: int| i <= j < n ==> self.payload@[j] == start.payload[j],
                decreases n - i,
            {
                let v: u8 = self.payload[i] ^ self.mask_key[i % 4];
                self.payload.set(i, v);
                i = i + 1;
            }
            assert(self.payload@ =~= masked(start.payload, start.mask_key));
        }
    }

    /// The message that closes a connection.
    pub fn close_message() -> (r: Self)
        ensures
            r@ == Frame::close(),
            r.fin,
            r.opcode == MessageOpCode::Close,
            !r.mask,
            forall|i: int| 0 <= i < 4 ==> #[trigger] r.mask_key@[i] == 0,
            r.payload@.len() == 2,
            r.payload@[0] == 0x0f,
            r.payload@[1] == 0xa0,
    {
        let r = RawMessage {
            fin: true,
            opcode: MessageOpCode::Close,
            mask: false,
            mask_key: [0, 0, 0, 0],
            payload: vec![0x0f, 0xa0],
        };
        assert(r.mask_key@ =~= zero_key());
        assert(r.payload@ =~= seq![0x0fu8, 0xa0u8]);
        r
    }

    /// A text message over the given bytes.
    pub fn text_message(text: Vec<u8>) -> (r: RawMessage)
        ensures
            r@ == Frame::text(text@),
            r.fin,
            r.opcode == MessageOpCode::TextFrame,
            !r.mask,
            forall|i: int| 0 <= i < 4 ==> #[trigger] r.mask_key@[i] == 0,
            r.payload@ == text@,
    {
        let r = RawMessage {
            fin: true,
            opcode: MessageOpCode::TextFrame,
            mask: false,
            mask_key: [0, 0, 0, 0],
            payload: text,
        };
        assert(r.mask_key@ =~= zero_key());
        r
    }
}

/// Unmasking lays the key over every byte of the payload, from the first to the
/// last: byte `i` meets byte `i % 4` of the key. Nothing else of a frame changes,
/// and nothing at all of one that is not masked.
pub proof fn law_unmask_reaches_every_byte(frame: Frame, i: int)
    requires
        0 <= i < frame.payload.len(),
    ensures
        frame.unmasked().payload.len() == frame.payload.len(),
        frame.mask ==> frame.unmasked().payload[i] == frame.payload[i] ^ frame.mask_key[i % 4],
        !frame.mask ==> frame.unmasked().payload[i] == frame.payload[i],
        frame.unmasked().fin == frame.fin,
        frame.unmasked().opcode == frame.opcode,
        frame.unmasked().mask == frame.mask,
        frame.unmasked().mask_key == frame.mask_key,
{
}

/// Unmasking twice gives the frame back.
pub proof fn law_unmask_is_an_involution(frame: Frame)
    ensures
        frame.unmasked().unmasked() == frame,
{
    if frame.mask {
        let once = masked(frame.payload, frame.mask_key);
        let twice = masked(once, frame.mask_key);
        assert forall|i: int| 0 <= i < frame.payload.len() implies twice[i] == frame.payload[i] by {
            let a = frame.payload[i];
            let k = frame.mask_key[i % 4];
            assert((a ^ k) ^ k == a) by (bit_vector);
        }
        assert(twice =~= frame.payload);
    }
}

/// Laying the zero key over a payload changes nothing.
pub proof fn law_zero_key_masks_nothing(data: Seq<u8>)
    ensures
        masked(data, zero_key()) == data,
{
    assert forall|i: int| 0 <= i < data.len() implies masked(data, zero_key())[i] == data[i] by {
        let a = data[i];
        assert(a ^ 0u8 == a) by (bit_vector);
        assert(zero_key()[i % 4] == 0u8);
    }
    assert(masked(data, zero_key()) =~= data);
}

/// The content of a message is all of its fields.
pub proof fn law_message_content(msg: RawMessage)
    ensures
        msg@.fin == msg.fin,
        msg@.opcode == msg.opcode,
        msg@.mask == msg.mask,
        msg@.mask_key == msg.mask_key@,
        msg@.payload == msg.payload@,
{
}

} // verus!
