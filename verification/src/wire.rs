//! Numbers as they are written on the wire: big endian, most significant byte
//! first.

use vstd::prelude::*;

verus! {

/// The number that a run of bytes stands for.
pub open spec fn be_value(bytes: Seq<u8>) -> nat
    decreases bytes.len(),
{
    if bytes.len() == 0 {
        0
    } else {
        be_value(bytes.drop_last()) * 256 + bytes.last() as nat
    }
}

/// The low `width` bytes of a number.
pub open spec fn be_bytes(n: nat, width: nat) -> Seq<u8>
    decreases width,
{
    if width == 0 {
        Seq::empty()
    } else {
        be_bytes(n / 256, (width - 1) as nat).push((n % 256) as u8)
    }
}

/// How many numbers `width` bytes can hold.
pub open spec fn byte_span(width: nat) -> nat
    decreases width,
{
    if width == 0 {
        1
    } else {
        256 * byte_span((width - 1) as nat)
    }
}

pub proof fn lemma_be_value_bound(bytes: Seq<u8>)
    ensures
        be_value(bytes) < byte_span(bytes.len()),
    decreases bytes.len(),
{
    if bytes.len() > 0 {
        lemma_be_value_bound(bytes.drop_last());
    }
}

pub proof fn lemma_be_bytes_len(n: nat, width: nat)
    ensures
        be_bytes(n, width).len() == width,
    decreases width,
{
    if width > 0 {
        lemma_be_bytes_len(n / 256, (width - 1) as nat);
    }
}

pub proof fn lemma_byte_span_values()
    ensures
        byte_span(2) == 0x1_0000,
        byte_span(8) == 0x1_0000_0000_0000_0000,
{
    reveal_with_fuel(byte_span, 9);
}

pub proof fn lemma_byte_span_monotonic(a: nat, b: nat)
    requires
        a <= b,
    ensures
        byte_span(a) <= byte_span(b),
    decreases b,
{
    if a < b {
        lemma_byte_span_monotonic(a, (b - 1) as nat);
    }
}

/// A number that fits its width is read back from the bytes written for it.
pub proof fn law_be_round_trip(n: nat, width: nat)
    requires
        n < byte_span(width),
    ensures
        be_value(be_bytes(n, width)) == n,
    decreases width,
{
    if width > 0 {
        let rest = be_bytes(n / 256, (width - 1) as nat);
        law_be_round_trip(n / 256, (width - 1) as nat);
        assert(be_bytes(n, width).drop_last() =~= rest);
        assert(be_bytes(n, width).last() == (n % 256) as u8);
    }
}

/// No bytes stand for zero, and each further byte counts one where all bytes before
/// it count 256 times as much as they did.
pub proof fn law_be_value(bytes: Seq<u8>, b: u8)
    ensures
        be_value(Seq::empty()) == 0,
        be_value(bytes.push(b)) == 256 * be_value(bytes) + b,
{
    assert(bytes.push(b).drop_last() =~= bytes);
}

/// Two bytes as a number.
pub proof fn law_be_two(s: Seq<u8>)
    requires
        s.len() == 2,
    ensures
        be_value(s) == s[0] * 256 + s[1],
{
    reveal_with_fuel(be_value, 3);
    assert(s.drop_last().last() == s[0]);
    assert(s.drop_last().drop_last() =~= Seq::empty());
}

/// Eight bytes as a number.
pub proof fn law_be_eight(s: Seq<u8>)
    requires
        s.len() == 8,
    ensures
        be_value(s) == s[0] * 0x100_0000_0000_0000 + s[1] * 0x1_0000_0000_0000 + s[2]
            * 0x100_0000_0000 + s[3] * 0x1_0000_0000 + s[4] * 0x100_0000 + s[5] * 0x1_0000 + s[6]
            * 0x100 + s[7],
{
    assert(s.take(0) =~= Seq::empty());
    law_be_value(s.take(0), s[0]);
    assert(s.take(0).push(s[0]) =~= s.take(1));
    law_be_value(s.take(1), s[1]);
    assert(s.take(1).push(s[1]) =~= s.take(2));
    law_be_value(s.take(2), s[2]);
    assert(s.take(2).push(s[2]) =~= s.take(3));
    law_be_value(s.take(3), s[3]);
    assert(s.take(3).push(s[3]) =~= s.take(4));
    law_be_value(s.take(4), s[4]);
    assert(s.take(4).push(s[4]) =~= s.take(5));
    law_be_value(s.take(5), s[5]);
    assert(s.take(5).push(s[5]) =~= s.take(6));
    law_be_value(s.take(6), s[6]);
    assert(s.take(6).push(s[6]) =~= s.take(7));
    law_be_value(s.take(7), s[7]);
    assert(s.take(7).push(s[7]) =~= s);
}

/// Reads a number of at most eight bytes.
pub fn read_be(bytes: &[u8]) -> (r: u64)
    requires
        bytes@.len() <= 8,
    ensures
        r == be_value(bytes@),
{
    let mut r: u64 = 0;
    let mut i: usize = 0;
    while i < bytes.len()
        invariant
            i <= bytes@.len() <= 8,
            r == be_value(bytes@.take(i as int)),
        decreases bytes@.len() - i,
    {
        proof {
            assert(bytes@.take(i + 1).drop_last() =~= bytes@.take(i as int));
            lemma_be_value_bound(bytes@.take(i + 1));
            lemma_byte_span_monotonic((i + 1) as nat, 8);
            lemma_byte_span_values();
        }
        r = r * 256 + bytes[i] as u64;
        i = i + 1;
    }
    assert(bytes@.take(bytes@.len() as int) =~= bytes@);
    r
}

} // verus!
