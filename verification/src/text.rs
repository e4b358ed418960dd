//! Text: UTF-8, JSON bodies, words and numbers in digits.

use vstd::prelude::*;
use vstd::string::*;
use vstd::utf8::{decode_utf8, valid_utf8};
use crate::bytes::{le_bytes, le_value, lemma_le_value_of_bytes, lemma_pow256_machine, push_le};
use crate::hextext::{digit_value, encode, hex_bytes, hex_text, is_hex_digit, law_hex_roundtrip};

verus! {

/// The text of a byte sequence that need not be UTF-8, as `String::from_utf8_lossy` reads it.
pub uninterp spec fn lossy_text(bytes: Seq<u8>) -> Seq<char>;

/// What `serde_json::from_slice` finds in a JSON body: the texts under the first two keys and
/// the number under the third. Nothing where the body is not JSON.
pub uninterp spec fn json_members(
    body: Seq<u8>,
    first: Seq<char>,
    second: Seq<char>,
    number: Seq<char>,
) -> Option<(Option<Seq<char>>, Option<Seq<char>>, Option<u64>)>;

/// What `serde_json::from_str` finds in a JSON text: the text under the first key and the number
/// under the second. Nothing where the text is not JSON.
pub uninterp spec fn json_text_members(
    body: Seq<char>,
    text: Seq<char>,
    number: Seq<char>,
) -> Option<(Option<Seq<char>>, Option<u64>)>;

/// Whether a character is white space: the characters that Unicode gives the property
/// `White_Space`.
pub open spec fn is_white(c: char) -> bool {
    let u = c as u32;
    ||| 0x9 <= u <= 0xd
    ||| u == 0x20
    ||| u == 0x85
    ||| u == 0xa0
    ||| u == 0x1680
    ||| 0x2000 <= u <= 0x200a
    ||| 0x2028 <= u <= 0x2029
    ||| u == 0x202f
    ||| u == 0x205f
    ||| u == 0x3000
}

/// The contents of an optional text.
pub open spec fn text_view(text: Option<String>) -> Option<Seq<char>> {
    match text {
        None => None,
        Some(t) => Some(t@),
    }
}

/// The text that `bytes` encode.
///
/// Calls `std::str::from_utf8`, which gives the text of a valid UTF-8 sequence and fails on any
/// other.
#[verifier::external_body]
pub(crate) fn utf8_text(bytes: &[u8]) -> (text: Option<String>)
    ensures
        text is Some <==> valid_utf8(bytes@),
        text matches Some(t) ==> t@ == decode_utf8(bytes@),
{
    std::str::from_utf8(bytes).ok().map(|t| t.to_string())
}

/// The text that `bytes` encode, with a mark in the place of what is not UTF-8.
///
/// Calls `String::from_utf8_lossy`. What is relied on is that the text is a function of the
/// bytes alone, and that nothing is replaced in a valid UTF-8 sequence.
#[verifier::external_body]
pub(crate) fn utf8_text_lossy(bytes: &[u8]) -> (text: String)
    ensures
        text@ == lossy_text(bytes@),
        valid_utf8(bytes@) ==> text@ == decode_utf8(bytes@),
{
    String::from_utf8_lossy(bytes).into_owned()
}

/// The texts under `first` and `second` and the number under `number` in a JSON body.
///
/// Calls `serde_json::from_slice` and looks the three keys up in the value: `as_str` gives a
/// text, `as_u64` a number, and a key that is missing, holds another kind of value or is asked
/// of anything but an object gives nothing. What is relied on is that this is a function of the
/// body and the keys alone.
#[verifier::external_body]
pub(crate) fn read_json(body: &[u8], first: &str, second: &str, number: &str) -> (members: Option<
    (Option<String>, Option<String>, Option<u64>),
>)
    ensures
        members is Some <==> json_members(body@, first@, second@, number@) is Some,
        members matches Some((a, b, n)) ==> json_members(body@, first@, second@, number@) == Some(
            (text_view(a), text_view(b), n),
        ),
{
    let v: serde_json::Value = serde_json::from_slice(body).ok()?;
    let a = v[first].as_str().map(|t| t.to_string());
    let b = v[second].as_str().map(|t| t.to_string());
    Some((a, b, v[number].as_u64()))
}

/// The text under `text` and the number under `number` in a JSON text.
///
/// Calls `serde_json::from_str` and looks the two keys up in the value, as `read_json` does.
/// What is relied on is that this is a function of the body and the keys alone.
#[verifier::external_body]
pub(crate) fn read_json_text(body: &str, text: &str, number: &str) -> (members: Option<
    (Option<String>, Option<u64>),
>)
    ensures
        members is Some <==> json_text_members(body@, text@, number@) is Some,
        members matches Some((t, n)) ==> json_text_members(body@, text@, number@) == Some(
            (text_view(t), n),
        ),
{
    let v: serde_json::Value = serde_json::from_str(body).ok()?;
    Some((v[text].as_str().map(|t| t.to_string()), v[number].as_u64()))
}

/// Whether a character is white space.
fn white(c: char) -> (yes: bool)
    ensures
        yes == is_white(c),
{
    let u: u32 = c as u32;
    (0x9 <= u && u <= 0xd) || u == 0x20 || u == 0x85 || u == 0xa0 || u == 0x1680 || (0x2000 <= u
        && u <= 0x200a) || u == 0x2028 || u == 0x2029 || u == 0x202f || u == 0x205f || u == 0x3000
}

/// Whether a word begins at position `i` of a text.
pub open spec fn word_begins(s: Seq<char>, i: int) -> bool {
    !is_white(s[i]) && (i == 0 || is_white(s[i - 1]))
}

/// How many words a text has: maximal runs of characters that are not white space.
pub open spec fn word_count(s: Seq<char>) -> nat
    decreases s.len(),
{
    if s.len() == 0 {
        0
    } else {
        word_count(s.drop_last()) + if word_begins(s, s.len() - 1) {
            1nat
        } else {
            0nat
        }
    }
}

/// How many words a text has.
pub fn count_words(text: &str) -> (n: usize)
    ensures
        n == word_count(text@),
{
    let len: usize = text.unicode_len();
    let mut n: usize = 0;
    let mut inside: bool = false;
    let mut i: usize = 0;
    for c in it: text.chars()
        invariant
            it.seq() == text@,
            i == it.index() <= len == text@.len(),
            n <= i,
            n == word_count(text@.subrange(0, i as int)),
            inside == (i > 0 && !is_white(text@[i - 1])),
    {
        let blank = white(c);
        proof {
            let s = text@.subrange(0, i + 1);
            assert(s.drop_last() =~= text@.subrange(0, i as int));
            assert(s[s.len() - 1] == c);
            assert(i > 0 ==> s[i - 1] == text@[i - 1]);
        }
        if !blank && !inside {
            n = n + 1;
        }
        inside = !blank;
        i = i + 1;
    }
    assert(text@.subrange(0, i as int) =~= text@);
    n
}

/// The sixteen lower-case hexadecimal digits of a number, high digit first.
pub open spec fn hex16(n: u64) -> Seq<char> {
    hex_text(le_bytes(n as nat, 8).reverse())
}

/// The sixteen lower-case hexadecimal digits of a number, high digit first.
pub fn nonce_hex(n: u64) -> (text: String)
    ensures
        text@ == hex16(n),
{
    let mut low_first: Vec<u8> = Vec::new();
    push_le(&mut low_first, n, 8);
    let mut bytes: Vec<u8> = Vec::new();
    let len: usize = low_first.len();
    let mut i: usize = len;
    while i > 0
        invariant
            i <= len == low_first@.len(),
            bytes@ == low_first@.subrange(i as int, len as int).reverse(),
        decreases i,
    {
        i = i - 1;
        bytes.push(low_first[i]);
        assert(bytes@ =~= low_first@.subrange(i as int, len as int).reverse());
    }
    assert(low_first@ =~= le_bytes(n as nat, 8));
    assert(low_first@.subrange(0, len as int) =~= low_first@);
    encode(bytes.as_slice())
}

/// The number that some hexadecimal digits stand for.
pub open spec fn hex_value(s: Seq<char>) -> nat
    decreases s.len(),
{
    if s.len() == 0 {
        0
    } else {
        16 * hex_value(s.drop_last()) + digit_value(s.last())
    }
}

/// The digits of a number that may have a plus sign in front.
pub open spec fn unsigned_digits(s: Seq<char>) -> Seq<char> {
    if s.len() > 1 && s[0] == '+' {
        s.drop_first()
    } else {
        s
    }
}

/// The number that a hexadecimal text stands for: zero where it has none, or one that a `u64`
/// cannot hold.
pub open spec fn nonce_value(s: Seq<char>) -> u64 {
    let digits = unsigned_digits(s);
    if digits.len() > 0 && (forall|i: int|
        0 <= i < digits.len() ==> is_hex_digit(#[trigger] digits[i])) && hex_value(digits)
        <= u64::MAX {
        hex_value(digits) as u64
    } else {
        0
    }
}

proof fn lemma_hex_value_prefix(s: Seq<char>, i: int)
    requires
        0 <= i <= s.len(),
    ensures
        hex_value(s.subrange(0, i)) <= hex_value(s),
    decreases s.len(),
{
    if i == s.len() {
        assert(s.subrange(0, i) =~= s);
    } else {
        lemma_hex_value_prefix(s.drop_last(), i);
        assert(s.drop_last().subrange(0, i) =~= s.subrange(0, i));
    }
}

/// The value of a hexadecimal digit, where the character is one.
fn hex_digit(c: char) -> (v: Option<u64>)
    ensures
        v is Some <==> is_hex_digit(c),
        v matches Some(d) ==> d == digit_value(c) && d < 16,
{
    let code: u32 = c as u32;
    if 48 <= code && code <= 57 {
        Some((code - 48) as u64)
    } else if 97 <= code && code <= 102 {
        Some((code - 87) as u64)
    } else if 65 <= code && code <= 70 {
        Some((code - 55) as u64)
    } else {
        None
    }
}

/// The number that a hexadecimal text stands for, which is the input of a block's inference tag.
pub fn opoi_nonce(nonce_hex: &str) -> (n: u64)
    ensures
        n == nonce_value(nonce_hex@),
{
    let len: usize = nonce_hex.unicode_len();
    let ghost digits = unsigned_digits(nonce_hex@);
    if len == 0 {
        return 0;
    }
    let start: usize = if len > 1 && nonce_hex.get_char(0) == '+' {
        1
    } else {
        0
    };
    assert(digits =~= nonce_hex@.subrange(start as int, len as int));
    let mut acc: u64 = 0;
    let mut i: usize = start;
    while i < len
        invariant
            start <= i <= len == nonce_hex@.len(),
            digits == nonce_hex@.subrange(start as int, len as int),
            digits == unsigned_digits(nonce_hex@),
            acc == hex_value(digits.subrange(0, i - start)),
            forall|j: int| 0 <= j < i - start ==> is_hex_digit(#[trigger] digits[j]),
        decreases len - i,
    {
        let c = nonce_hex.get_char(i);
        assert(digits[i - start] == c);
        match hex_digit(c) {
            None => {
                return 0;
            },
            Some(d) => {
                proof {
                    let next = digits.subrange(0, i - start + 1);
                    assert(next.drop_last() =~= digits.subrange(0, i - start));
                    assert(next.last() == c);
                    lemma_hex_value_prefix(digits, i - start + 1);
                }
                if acc > (u64::MAX - d) / 16 {
                    return 0;
                }
                acc = acc * 16 + d;
                i = i + 1;
            },
        }
    }
    assert(digits.subrange(0, i - start) =~= digits);
    acc
}

/// The inference tag of a block: what `tag_fixed` gives for the nonce that a hexadecimal text
/// stands for.
pub fn compute_opoi_tag<F: Fn(u64) -> String>(nonce_hex: &str, tag_fixed: F) -> (tag: String)
    requires
        call_requires(tag_fixed, (nonce_value(nonce_hex@),)),
    ensures
        call_ensures(tag_fixed, (nonce_value(nonce_hex@),), tag),
{
    tag_fixed(opoi_nonce(nonce_hex))
}

proof fn lemma_hex_value_of_bytes(s: Seq<char>)
    requires
        s.len() % 2 == 0,
        forall|i: int| 0 <= i < s.len() ==> is_hex_digit(#[trigger] s[i]),
    ensures
        hex_value(s) == le_value(hex_bytes(s).reverse()),
    decreases s.len(),
{
    if s.len() > 0 {
        let one = s.drop_last();
        let two = one.drop_last();
        lemma_hex_value_of_bytes(two);
        let b = hex_bytes(s);
        let last = b[b.len() - 1];
        assert(s[2 * (b.len() - 1)] == one.last());
        assert(s[2 * (b.len() - 1) + 1] == s.last());
        assert(is_hex_digit(one.last()) && is_hex_digit(s.last()));
        assert(last == 16 * digit_value(one.last()) + digit_value(s.last()));
        assert(b.reverse().drop_first() =~= hex_bytes(two).reverse());
        assert(b.reverse()[0] == last);
        assert(hex_value(one) == 16 * hex_value(two) + digit_value(one.last()));
        assert(le_value(b.reverse()) == last as nat + 256 * le_value(hex_bytes(two).reverse()));
    }
}

/// A nonce is read back from its digits.
pub proof fn law_nonce_roundtrip(n: u64)
    ensures
        nonce_value(hex16(n)) == n,
        hex16(n).len() == 16,
{
    lemma_pow256_machine();
    lemma_le_value_of_bytes(n as nat, 8);
    let bytes = le_bytes(n as nat, 8).reverse();
    law_hex_roundtrip(bytes);
    let s = hex16(n);
    assert(is_hex_digit(s[0]));
    assert(unsigned_digits(s) == s);
    lemma_hex_value_of_bytes(s);
    assert(bytes.reverse() =~= le_bytes(n as nat, 8));
}

/// The decimal digits of a number.
pub open spec fn decimal(n: nat) -> Seq<char>
    decreases n,
{
    if n < 10 {
        seq![('0' as u32 + n) as char]
    } else {
        decimal(n / 10).push(('0' as u32 + n % 10) as char)
    }
}

/// The digit of a number below ten.
fn decimal_digit(d: usize) -> (text: &'static str)
    requires
        d < 10,
    ensures
        text@ == seq![('0' as u32 + d) as char],
{
    proof {
        reveal_strlit("0");
        reveal_strlit("1");
        reveal_strlit("2");
        reveal_strlit("3");
        reveal_strlit("4");
        reveal_strlit("5");
        reveal_strlit("6");
        reveal_strlit("7");
        reveal_strlit("8");
        reveal_strlit("9");
    }
    let text: &'static str = match d {
        0 => "0",
        1 => "1",
        2 => "2",
        3 => "3",
        4 => "4",
        5 => "5",
        6 => "6",
        7 => "7",
        8 => "8",
        _ => "9",
    };
    assert(text@ =~= seq![('0' as u32 + d) as char]);
    text
}

/// The decimal digits of a number.
pub fn decimal_text(n: usize) -> (text: String)
    ensures
        text@ == decimal(n as nat),
    decreases n,
{
    if n < 10 {
        String::from_str(decimal_digit(n))
    } else {
        let mut text = decimal_text(n / 10);
        text.append(decimal_digit(n % 10));
        assert(text@ =~= decimal(n as nat));
        text
    }
}

proof fn lemma_decimal_digit(d: nat, e: nat)
    requires
        d < 10,
        e < 10,
        ('0' as u32 + d) as char == ('0' as u32 + e) as char,
    ensures
        d == e,
{
    assert((('0' as u32 + d) as char) as u32 == '0' as u32 + d);
    assert((('0' as u32 + e) as char) as u32 == '0' as u32 + e);
}

/// Two numbers with the same digits are the same.
pub proof fn law_decimal_is_injective(m: nat, n: nat)
    requires
        decimal(m) == decimal(n),
    ensures
        m == n,
    decreases m,
{
    lemma_decimal_len(m);
    lemma_decimal_len(n);
    if m >= 10 {
        let dm = decimal(m);
        let dn = decimal(n);
        assert(n >= 10);
        assert(dm.drop_last() =~= decimal(m / 10));
        assert(dn.drop_last() =~= decimal(n / 10));
        law_decimal_is_injective(m / 10, n / 10);
        assert(dm.last() == dn.last());
        lemma_decimal_digit(m % 10, n % 10);
    } else {
        assert(n < 10);
        assert(decimal(m)[0] == ('0' as u32 + m) as char);
        assert(decimal(n)[0] == ('0' as u32 + n) as char);
        lemma_decimal_digit(m, n);
    }
}

/// A number below ten has one digit, any other has more.
proof fn lemma_decimal_len(n: nat)
    ensures
        decimal(n).len() >= 1,
        n < 10 <==> decimal(n).len() == 1,
    decreases n,
{
    if n >= 10 {
        lemma_decimal_len(n / 10);
    }
}

/// Words are counted apart: what stands on two sides of white space is counted on its own, an
/// empty text has no words, and a text without white space is one.
pub proof fn law_words_add_up(a: Seq<char>, c: char, b: Seq<char>)
    requires
        is_white(c),
    ensures
        word_count(a.push(c) + b) == word_count(a) + word_count(b),
        word_count(Seq::<char>::empty()) == 0,
    decreases b.len(),
{
    if b.len() == 0 {
        assert(a.push(c) + b =~= a.push(c));
        assert(a.push(c).drop_last() =~= a);
    } else {
        let s = a.push(c) + b;
        law_words_add_up(a, c, b.drop_last());
        assert(s.drop_last() =~= a.push(c) + b.drop_last());
        if b.len() == 1 {
            assert(s[s.len() - 2] == c);
        } else {
            assert(s[s.len() - 2] == b[b.len() - 2]);
        }
    }
}

/// A text without white space is one word.
pub proof fn law_solid_text_is_one_word(s: Seq<char>)
    requires
        s.len() > 0,
        forall|i: int| 0 <= i < s.len() ==> !is_white(#[trigger] s[i]),
    ensures
        word_count(s) == 1,
    decreases s.len(),
{
    assert(!is_white(s.last()));
    if s.len() == 1 {
        assert(s.drop_last() =~= Seq::empty());
        assert(word_count(Seq::<char>::empty()) == 0);
    } else {
        law_solid_text_is_one_word(s.drop_last());
        assert(!is_white(s[s.len() - 2]));
    }
}

/// A hexadecimal number grows by its digits: one more digit makes sixteen times the number, and
/// the digit, as long as that fits in 64 bits; after that it is no number any more.
pub proof fn law_nonce_grows_by_digits(s: Seq<char>, c: char)
    requires
        s.len() > 0,
        forall|i: int| 0 <= i < s.len() ==> is_hex_digit(#[trigger] s[i]),
        hex_value(s) <= u64::MAX,
        is_hex_digit(c),
    ensures
        nonce_value(seq![c]) == digit_value(c),
        ({
            let more = 16 * nonce_value(s) + digit_value(c);
            nonce_value(s.push(c)) == if more <= u64::MAX {
                more
            } else {
                0
            }
        }),
{
    let t = s.push(c);
    assert(is_hex_digit(s[0]));
    assert(t[0] == s[0]);
    assert(t.drop_last() =~= s);
    assert forall|i: int| 0 <= i < t.len() implies is_hex_digit(#[trigger] t[i]) by {
        if i < s.len() {
            assert(t[i] == s[i]);
        }
    }
    assert(seq![c].drop_last() =~= Seq::empty());
    assert(hex_value(seq![c]) == 16 * hex_value(Seq::empty()) + digit_value(c));
}

/// A text with a character that is no digit stands for no number.
pub proof fn law_other_text_is_no_nonce(s: Seq<char>, i: int)
    requires
        0 < i < s.len(),
        !is_hex_digit(s[i]),
    ensures
        nonce_value(s) == 0,
{
    let d = unsigned_digits(s);
    if s[0] == '+' {
        assert(d[i - 1] == s[i]);
    } else {
        assert(d[i] == s[i]);
    }
}

/// The number that decimal digits stand for.
pub open spec fn decimal_value(s: Seq<char>) -> int
    decreases s.len(),
{
    if s.len() == 0 {
        0
    } else {
        10 * decimal_value(s.drop_last()) + (s.last() as u32 - '0' as u32)
    }
}

/// The digits of a number stand for it.
pub proof fn law_decimal_has_its_value(n: nat)
    ensures
        decimal_value(decimal(n)) == n,
    decreases n,
{
    let s = decimal(n);
    if n < 10 {
        assert(s.drop_last() =~= Seq::empty());
        assert(decimal_value(Seq::empty()) == 0);
        assert(s.last() as u32 == '0' as u32 + n);
    } else {
        law_decimal_has_its_value(n / 10);
        assert(s.drop_last() =~= decimal(n / 10));
        assert(s.last() as u32 == '0' as u32 + n % 10);
    }
}

/// A plus sign in front of a number changes nothing.
pub proof fn law_plus_sign_is_skipped(s: Seq<char>)
    requires
        s.len() > 0,
        s[0] != '+',
    ensures
        nonce_value(seq!['+'] + s) == nonce_value(s),
        nonce_value(seq!['+', '+'] + s) == 0,
{
    assert((seq!['+'] + s).drop_first() =~= s);
    let t = seq!['+', '+'] + s;
    assert(t.drop_first()[0] == '+');
}

} // verus!
