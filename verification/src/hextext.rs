//! Hexadecimal text.

use vstd::prelude::*;

verus! {

/// Whether a character is a hexadecimal digit, in either case.
pub open spec fn is_hex_digit(c: char) -> bool {
    ||| '0' as u32 <= c as u32 <= '9' as u32
    ||| 'a' as u32 <= c as u32 <= 'f' as u32
    ||| 'A' as u32 <= c as u32 <= 'F' as u32
}

/// The value of a hexadecimal digit.
pub open spec fn digit_value(c: char) -> nat {
    if '0' as u32 <= c as u32 <= '9' as u32 {
        (c as u32 - '0' as u32) as nat
    } else if 'a' as u32 <= c as u32 <= 'f' as u32 {
        (c as u32 - 'a' as u32 + 10) as nat
    } else {
        (c as u32 - 'A' as u32 + 10) as nat
    }
}

/// The lower-case digit of a value below sixteen.
pub open spec fn low_digit(v: nat) -> char {
    if v < 10 {
        ('0' as u32 + v) as char
    } else {
        ('a' as u32 + v - 10) as char
    }
}

/// Whether a text is the hexadecimal form of some bytes.
pub open spec fn is_hex(s: Seq<char>) -> bool {
    &&& s.len() % 2 == 0
    &&& forall|i: int| 0 <= i < s.len() ==> is_hex_digit(#[trigger] s[i])
}

/// The bytes that a hexadecimal text stands for, high digit first.
pub open spec fn hex_bytes(s: Seq<char>) -> Seq<u8> {
    Seq::new(
        s.len() / 2,
        |i: int| (16 * digit_value(s[2 * i]) + digit_value(s[2 * i + 1])) as u8,
    )
}

/// The lower-case hexadecimal form of some bytes.
pub open spec fn hex_text(b: Seq<u8>) -> Seq<char> {
    Seq::new(
        2 * b.len(),
        |i: int|
            low_digit(
                if i % 2 == 0 {
                    b[i / 2] as nat / 16
                } else {
                    b[i / 2] as nat % 16
                },
            ),
    )
}

/// The bytes that a hexadecimal text stands for.
///
/// Calls `hex::decode`, which takes the text two characters at a time and accepts digits of both
/// cases. It fails on an odd length and on any other character; a character outside ASCII is
/// among those, since none of its bytes is a digit.
#[verifier::external_body]
pub(crate) fn decode(text: &str) -> (bytes: Option<Vec<u8>>)
    ensures
        bytes is Some <==> is_hex(text@),
        bytes matches Some(b) ==> b@ == hex_bytes(text@),
{
    hex::decode(text).ok()
}

/// The lower-case hexadecimal form of `bytes`.
///
/// Calls `hex::encode`, which writes two digits per byte, high digit first.
#[verifier::external_body]
pub(crate) fn encode(bytes: &[u8]) -> (text: String)
    ensures
        text@ == hex_text(bytes@),
{
    hex::encode(bytes)
}

/// What is encoded is decoded to the same bytes.
pub proof fn law_hex_roundtrip(b: Seq<u8>)
    ensures
        is_hex(hex_text(b)),
        hex_bytes(hex_text(b)) == b,
{
    let s = hex_text(b);
    assert forall|i: int| 0 <= i < s.len() implies is_hex_digit(#[trigger] s[i]) by {
        lemma_digit(if i % 2 == 0 {
            b[i / 2] as nat / 16
        } else {
            b[i / 2] as nat % 16
        });
    }
    assert forall|i: int| 0 <= i < b.len() implies #[trigger] hex_bytes(s)[i] == b[i] by {
        lemma_digit(b[i] as nat / 16);
        lemma_digit(b[i] as nat % 16);
        assert(s[2 * i] == low_digit(b[i] as nat / 16));
        assert(s[2 * i + 1] == low_digit(b[i] as nat % 16));
    }
    assert(hex_bytes(s) =~= b);
}

/// A digit has the value that it was written for.
pub proof fn lemma_digit(v: nat)
    requires
        v < 16,
    ensures
        is_hex_digit(low_digit(v)),
        digit_value(low_digit(v)) == v,
{
}

/// Digits of either case stand for the numbers below sixteen: the lower-case digit of each has it
/// for its value, and so has the upper-case letter in its place.
pub proof fn law_digits_have_their_values(v: nat, c: char)
    requires
        v < 16,
        v >= 10 ==> c as u32 == 'A' as u32 + v - 10,
    ensures
        is_hex_digit(low_digit(v)),
        digit_value(low_digit(v)) == v,
        v >= 10 ==> is_hex_digit(c) && digit_value(c) == v,
{
}

/// A hexadecimal text is read two digits at a time, high digit first: the bytes of a text in two
/// parts are those of the parts.
pub proof fn law_hex_texts_join(a: Seq<char>, high: char, low: char, b: Seq<char>)
    requires
        is_hex(a),
        is_hex(b),
        is_hex_digit(high),
        is_hex_digit(low),
    ensures
        is_hex(a + seq![high, low] + b),
        hex_bytes(a + seq![high, low] + b) == hex_bytes(a) + seq![
            (16 * digit_value(high) + digit_value(low)) as u8,
        ] + hex_bytes(b),
{
    let s = a + seq![high, low] + b;
    let n = a.len() / 2;
    assert forall|i: int| 0 <= i < s.len() implies is_hex_digit(#[trigger] s[i]) by {
        if i < a.len() {
            assert(s[i] == a[i]);
        } else if i >= a.len() + 2 {
            assert(s[i] == b[i - a.len() - 2]);
        }
    }
    let joined = hex_bytes(a) + seq![(16 * digit_value(high) + digit_value(low)) as u8] + hex_bytes(
        b,
    );
    assert forall|i: int| 0 <= i < joined.len() implies hex_bytes(s)[i] == #[trigger] joined[i] by {
        if i < n {
            assert(s[2 * i] == a[2 * i] && s[2 * i + 1] == a[2 * i + 1]);
        } else if i > n {
            let j = i - n - 1;
            assert(s[2 * i] == b[2 * j] && s[2 * i + 1] == b[2 * j + 1]);
        }
    }
    assert(hex_bytes(s) =~= joined);
}

} // verus!
