//! Text: cutting it at separators, comparing it, and the few conversions that
//! the handshake needs.

use vstd::prelude::*;
use vstd::utf8::*;
use vstd::string::*;

verus! {

/// The part of `s` before the first `c`, or all of it.
pub open spec fn before(s: Seq<char>, c: char) -> Seq<char>
    decreases s.len(),
{
    if s.len() == 0 || s[0] == c {
        Seq::empty()
    } else {
        seq![s[0]] + before(s.drop_first(), c)
    }
}

/// The part of `s` behind the first `c`, if there is one.
pub open spec fn behind(s: Seq<char>, c: char) -> Option<Seq<char>> {
    if s.contains(c) {
        Some(s.skip(before(s, c).len() as int + 1))
    } else {
        None
    }
}

/// The pieces of `s` between the separators. There is always at least one, and
/// pieces may be empty.
pub open spec fn pieces(s: Seq<char>, c: char) -> Seq<Seq<char>>
    decreases s.len(),
{
    match behind(s, c) {
        None => seq![s],
        Some(rest) => if rest.len() < s.len() {
            seq![before(s, c)] + pieces(rest, c)
        } else {
            seq![s]
        },
    }
}

pub proof fn lemma_cut(s: Seq<char>, left: Seq<char>, c: char, right: Seq<char>)
    requires
        s == left.push(c) + right,
        !left.contains(c),
    ensures
        before(s, c) == left,
        behind(s, c) == Some(right),
    decreases left.len(),
{
    assert(s[left.len() as int] == c);
    if left.len() > 0 {
        assert(left[0] != c);
        let rest = left.drop_first();
        assert forall|i: int| 0 <= i < rest.len() implies rest[i] != c by {
            assert(rest[i] == left[i + 1]);
        }
        assert(s.drop_first() =~= rest.push(c) + right);
        lemma_cut(s.drop_first(), rest, c, right);
        assert(before(s, c) =~= left);
    } else {
        assert(before(s, c) =~= left);
    }
    assert(s.skip(left.len() as int + 1) =~= right);
}

pub proof fn lemma_no_cut(s: Seq<char>, c: char)
    requires
        !s.contains(c),
    ensures
        before(s, c) == s,
        behind(s, c) is None,
    decreases s.len(),
{
    if s.len() > 0 {
        assert(s[0] != c);
        let rest = s.drop_first();
        assert forall|i: int| 0 <= i < rest.len() implies rest[i] != c by {
            assert(rest[i] == s[i + 1]);
        }
        lemma_no_cut(rest, c);
        assert(before(s, c) =~= s);
    }
}

pub proof fn lemma_before_shorter(s: Seq<char>, c: char)
    requires
        s.contains(c),
    ensures
        before(s, c).len() < s.len(),
    decreases s.len(),
{
    if s[0] != c {
        let rest = s.drop_first();
        let i = choose|i: int| 0 <= i < s.len() && s[i] == c;
        assert(rest[i - 1] == c);
        lemma_before_shorter(rest, c);
    }
}

/// Whether `i` is the first place of `b` in `s`.
pub open spec fn is_first_place(s: Seq<u8>, b: u8, i: int) -> bool {
    &&& 0 <= i < s.len()
    &&& s[i] == b
    &&& forall|j: int| 0 <= j < i ==> s[j] != b
}

/// `memchr::memchr`: the first place of a byte in a run of bytes.
pub assume_specification[ memchr::memchr ](needle: u8, haystack: &[u8]) -> (r: Option<usize>)
    ensures
        match r {
            Some(i) => is_first_place(haystack@, needle, i as int),
            None => !haystack@.contains(needle),
        },
;

/// A character outside ASCII is encoded without bytes below 128, and one inside
/// as itself.
proof fn lemma_first_encoded_byte(s: Seq<char>)
    requires
        s.len() > 0,
    ensures
        encode_utf8(s).len() > 0,
        encode_utf8(s)[0] < 128 ==> s[0] as u32 == encode_utf8(s)[0] as u32 && encode_utf8(s).skip(1)
            == encode_utf8(s.drop_first()),
        (s[0] as u32) < 128 ==> encode_utf8(s)[0] as u32 == s[0] as u32,
{
    let v = s[0] as u32;
    char_is_scalar(s[0]);
    let head = encode_scalar(v);
    let tail = encode_utf8(s.drop_first());
    assert(encode_utf8(s) == head + tail);
    if has_width_1_encoding(v) {
        assert((v & 0x7F) as u8 == v) by (bit_vector)
            requires
                v <= 0x7F,
        ;
        assert(encode_utf8(s).skip(1) =~= tail);
    } else if has_width_2_encoding(v) {
        assert(0xC0u8 | ((v >> 6) & 0x1F) as u8 >= 128) by (bit_vector);
    } else if has_width_3_encoding(v) {
        assert(0xE0u8 | ((v >> 12) & 0x0F) as u8 >= 128) by (bit_vector);
    } else {
        assert(0xF0u8 | ((v >> 18) & 0x7) as u8 >= 128) by (bit_vector);
    }
}

/// A text holds an ASCII character exactly if its bytes hold it.
proof fn lemma_ascii_in_bytes(s: Seq<char>, b: u8)
    requires
        b < 128,
    ensures
        s.contains(b as char) ==> encode_utf8(s).contains(b),
    decreases s.len(),
{
    if s.contains(b as char) {
        let rest = s.drop_first();
        lemma_first_encoded_byte(s);
        if s[0] == b as char {
            assert(encode_utf8(s)[0] == b);
        } else {
            let i = choose|i: int| 0 <= i < s.len() && s[i] == b as char;
            assert(rest[i - 1] == b as char);
            lemma_ascii_in_bytes(rest, b);
            let j = choose|j: int| 0 <= j < encode_utf8(rest).len() && encode_utf8(rest)[j] == b;
            let head = encode_scalar(s[0] as u32);
            assert(encode_utf8(s) == head + encode_utf8(rest));
            assert(encode_utf8(s)[head.len() + j] == b);
        }
    }
}

/// Cuts a text at the first place of an ASCII separator.
pub fn cut<'a>(s: &'a str, sep: u8) -> (r: (&'a str, Option<&'a str>))
    requires
        sep < 128,
    ensures
        r.0@ == before(s@, sep as char),
        match r.1 {
            Some(rest) => behind(s@, sep as char) == Some(rest@),
            None => behind(s@, sep as char) is None,
        },
{
    let bytes = s.as_bytes();
    let ghost c = sep as char;
    match memchr::memchr(sep, bytes) {
        None => {
            proof {
                if s@.contains(c) {
                    lemma_ascii_in_bytes(s@, sep);
                }
                lemma_no_cut(s@, c);
            }
            (s, None)
        },
        Some(i) => {
            proof {
                encode_utf8_valid_utf8(s@);
                is_char_boundary_iff_is_leading_byte(bytes@, i as int);
                assert(is_leading_byte_width_1(bytes@[i as int]));
            }
            let (left, right) = s.split_at(i);
            proof {
                let all = bytes@;
                let n = all.len() as int;
                decode_utf8_split(all, i as int);
                encode_utf8_decode_utf8(s@);
                encode_utf8_decode_utf8(left@);
                encode_utf8_decode_utf8(right@);
                assert(s@ == left@ + right@);
                if left@.contains(c) {
                    lemma_ascii_in_bytes(left@, sep);
                    let j = choose|j: int| 0 <= j < i && encode_utf8(left@)[j] == sep;
                    assert(all[j] == sep);
                }
                let rb = encode_utf8(right@);
                assert(rb == all.subrange(i as int, n));
                assert(rb.len() > 0);
                assert(rb[0] == sep);
                if right@.len() == 0 {
                    assert(rb.len() == 0);
                }
                lemma_first_encoded_byte(right@);
                char_u32_cast(right@[0], sep as u32);
                assert(right@[0] == c);
                encode_utf8_valid_utf8(right@);
                encode_utf8_valid_utf8(right@.drop_first());
                reveal_with_fuel(is_char_boundary, 3);
                assert(length_of_first_scalar(rb) == 1);
                assert(is_char_boundary(rb, 1));
            }
            let (_, rest) = right.split_at(1);
            proof {
                let rb = encode_utf8(right@);
                assert(rb.subrange(1, rb.len() as int) =~= rb.skip(1));
                encode_utf8_decode_utf8(rest@);
                encode_utf8_decode_utf8(right@.drop_first());
                assert(rest@ == right@.drop_first());
                assert(s@ =~= left@.push(c) + rest@);
                lemma_cut(s@, left@, c, rest@);
            }
            (left, Some(rest))
        },
    }
}

/// Whether two runs of bytes are equal.
pub fn same_bytes(a: &[u8], b: &[u8]) -> (r: bool)
    ensures
        r == (a@ == b@),
{
    if a.len() != b.len() {
        return false;
    }
    let mut i: usize = 0;
    while i < a.len()
        invariant
            i <= a@.len(),
            a@.len() == b@.len(),
            forall|j: int| 0 <= j < i ==> a@[j] == b@[j],
        decreases a@.len() - i,
    {
        if a[i] != b[i] {
            return false;
        }
        i = i + 1;
    }
    assert(a@ =~= b@);
    true
}

/// Whether two texts are equal.
pub fn same_text(a: &str, b: &str) -> (r: bool)
    ensures
        r == (a@ == b@),
{
    proof {
        encode_utf8_decode_utf8(a@);
        encode_utf8_decode_utf8(b@);
    }
    same_bytes(a.as_bytes(), b.as_bytes())
}

/// `String::from_utf8`: the text whose encoding is the given bytes, if they are
/// well-formed UTF-8.
#[verifier::external_body]
pub(crate) fn text_of_bytes(bytes: Vec<u8>) -> (r: Option<String>)
    ensures
        match r {
            Some(s) => encode_utf8(s@) == bytes@,
            None => !valid_utf8(bytes@),
        },
{
    String::from_utf8(bytes).ok()
}

/// The lower case form of a character, for ASCII letters.
pub open spec fn ascii_lower(c: char) -> char {
    if 'A' <= c <= 'Z' {
        (c as u8 + 32) as char
    } else {
        c
    }
}

/// What `str::to_lowercase` returns.
pub uninterp spec fn lowercase(s: Seq<char>) -> Seq<char>;

/// `str::to_lowercase`: the lower case form of a text. It is a function of the
/// text; in an ASCII text the letters from `A` to `Z` become those from `a` to
/// `z` and nothing else changes.
#[verifier::external_body]
pub(crate) fn to_lowercase(s: &str) -> (r: String)
    ensures
        r@ == lowercase(s@),
        is_ascii_chars(s@) ==> r@ == s@.map_values(|c: char| ascii_lower(c)),
{
    s.to_lowercase()
}

/// The decimal digit of a value below ten.
pub open spec fn decimal_char(v: nat) -> char {
    (48 + v) as char
}

/// A number in decimal digits.
pub open spec fn decimal_text(n: nat) -> Seq<char>
    decreases n,
{
    if n < 10 {
        seq![decimal_char(n)]
    } else {
        decimal_text(n / 10).push(decimal_char(n % 10))
    }
}

fn decimal_digit(v: u64) -> (r: &'static str)
    requires
        v < 10,
    ensures
        r@ == seq![decimal_char(v as nat)],
{
    proof {
        reveal_strlit("0");
        reveal_strlit("1");
        reveal_strlit("2");
        reveal_strlit("3");
        reveal_strlit("4");
        reveal_strlit("5");
        reveal_strlit("6");
        reveal_strlit("7");
        reveal_strlit("8");
        reveal_strlit("9");
    }
    let r: &'static str = match v {
        0 => "0",
        1 => "1",
        2 => "2",
        3 => "3",
        4 => "4",
        5 => "5",
        6 => "6",
        7 => "7",
        8 => "8",
        _ => "9",
    };
    assert(r@ =~= seq![decimal_char(v as nat)]);
    r
}

/// Writes a number in decimal digits.
pub fn show_number(n: u64) -> (r: String)
    ensures
        r@ == decimal_text(n as nat),
    decreases n,
{
    if n < 10 {
        decimal_digit(n).to_owned()
    } else {
        let mut r = show_number(n / 10);
        r.append(decimal_digit(n % 10));
        assert(r@ =~= decimal_text(n as nat));
        r
    }
}

/// What `{:?}` writes for a text.
pub uninterp spec fn quoted(s: Seq<char>) -> Seq<char>;

/// `format!` with `{:?}` for `str`: the text between quotation marks, with what
/// cannot be shown written as escapes. It is a function of the text; which
/// characters are escaped, and how, is left unsaid.
#[verifier::external_body]
pub(crate) fn quote(s: &str) -> (r: String)
    ensures
        r@ == quoted(s@),
{
    format!("{:?}", s)
}

/// A truth value in words.
pub open spec fn bool_text(b: bool) -> Seq<char> {
    if b {
        "true"@
    } else {
        "false"@
    }
}

/// Writes a truth value in words.
pub fn show_bool(b: bool) -> (r: &'static str)
    ensures
        r@ == bool_text(b),
{
    if b {
        "true"
    } else {
        "false"
    }
}

// ---------------------------------------------------------------------------
// Laws
// ---------------------------------------------------------------------------

/// A text that holds a separator is cut at its first one: what stands before it
/// holds none, and the two parts with the separator between them are the text. A
/// text without one is not cut.
pub proof fn law_cut(s: Seq<char>, c: char)
    ensures
        s.contains(c) ==> {
            &&& behind(s, c) matches Some(rest)
            &&& s == before(s, c).push(c) + rest
            &&& !before(s, c).contains(c)
        },
        !s.contains(c) ==> behind(s, c) is None && before(s, c) == s,
{
    if s.contains(c) {
        lemma_before_shorter(s, c);
        lemma_before_is_first(s, c);
        let n = before(s, c).len() as int;
        assert(s =~= before(s, c).push(c) + s.skip(n + 1));
    } else {
        lemma_no_cut(s, c);
    }
}

proof fn lemma_before_is_first(s: Seq<char>, c: char)
    requires
        s.contains(c),
    ensures
        before(s, c).len() < s.len(),
        s[before(s, c).len() as int] == c,
        before(s, c) == s.take(before(s, c).len() as int),
        !before(s, c).contains(c),
    decreases s.len(),
{
    if s[0] == c {
        assert(before(s, c) =~= s.take(0));
    } else {
        let rest = s.drop_first();
        let i = choose|i: int| 0 <= i < s.len() && s[i] == c;
        assert(rest[i - 1] == c);
        lemma_before_is_first(rest, c);
        let b = before(s, c);
        assert(b =~= s.take(b.len() as int)) by {
            assert forall|j: int| 0 <= j < b.len() implies b[j] == s[j] by {
                if j > 0 {
                    assert(before(rest, c)[j - 1] == rest[j - 1]);
                }
            }
        }
        if b.contains(c) {
            let j = choose|j: int| 0 <= j < b.len() && b[j] == c;
            assert(before(rest, c)[j - 1] == c);
        }
    }
}

/// A text without a separator is one piece. One that is made of a piece without a
/// separator, a separator and a rest has that piece first, and then the pieces of
/// the rest.
pub proof fn law_pieces(piece: Seq<char>, rest: Seq<char>, c: char)
    requires
        !piece.contains(c),
    ensures
        pieces(piece, c) == seq![piece],
        pieces(piece.push(c) + rest, c) == seq![piece] + pieces(rest, c),
{
    lemma_no_cut(piece, c);
    lemma_cut(piece.push(c) + rest, piece, c, rest);
}

/// An upper case ASCII letter becomes the letter 32 codes further on; every other
/// character stays as it is.
pub proof fn law_ascii_lower(c: char)
    ensures
        65 <= c as u32 <= 90 ==> ascii_lower(c) as u32 == c as u32 + 32,
        !(65 <= c as u32 <= 90) ==> ascii_lower(c) == c,
{
}

/// The digits of a number, most significant first: a number below ten is one
/// digit, and a further digit behind those of `n` stands for ten times `n` and the
/// digit.
pub proof fn law_decimal_text(n: nat, v: nat)
    requires
        v < 10,
    ensures
        decimal_text(v).len() == 1,
        decimal_text(v)[0] as u32 == 48 + v,
        n > 0 ==> decimal_text(10 * n + v) == decimal_text(n).push((48 + v) as char),
{
    if n > 0 {
        let m = 10 * n + v;
        assert(m / 10 == n && m % 10 == v);
    }
}

} // verus!
