//! Requests for inference in web-wallet form: a marker and a JSON body.

use vstd::prelude::*;
use vstd::string::*;
use vstd::utf8::{decode_utf8, encode_utf8, valid_utf8};
use crate::bytes::{block32, copy_range, le_value, lemma_le_bytes_of_value, lemma_pow256_machine, read_le};
use crate::hash::{blake2b, blake2b256, blake2b256_digest, blake2b_digest};
use crate::hextext::{decode, encode, hex_bytes, hex_text, is_hex, law_hex_roundtrip};
use crate::text::{json_members, json_text_members, read_json, read_json_text, text_view, utf8_text};

verus! {

/// How many tokens an answer may have where the request does not say.
pub const DEFAULT_MAX_TOKENS: u64 = 128;

/// The model that answers where the request does not name one.
pub const DEFAULT_MODEL: &'static str = "tinyllama";

/// The marker in front of a JSON request: `KRX:AI:1:`.
pub open spec fn krx_marker() -> Seq<u8> {
    seq![75u8, 82u8, 88u8, 58u8, 65u8, 73u8, 58u8, 49u8, 58u8]
}

/// Whether a payload is marked as a JSON request and has something behind the marker.
pub open spec fn is_marked(raw: Seq<u8>) -> bool {
    raw.len() > 9 && raw.subrange(0, 9) == krx_marker()
}

/// What stands behind the marker.
pub open spec fn marked_body(raw: Seq<u8>) -> Seq<u8> {
    raw.subrange(9, raw.len() as int)
}

/// The token limit that a request asks for.
pub open spec fn token_limit(n: Option<u64>) -> usize {
    match n {
        Some(v) => v as usize,
        None => DEFAULT_MAX_TOKENS as usize,
    }
}

/// The model, prompt and token limit that a JSON body with these members asks for. A prompt is
/// needed; the other two have defaults.
pub open spec fn asked_by(
    members: Option<(Option<Seq<char>>, Option<Seq<char>>, Option<u64>)>,
) -> Option<(Seq<char>, Seq<char>, usize)> {
    match members {
        Some((model, Some(prompt), n)) => Some(
            (
                match model {
                    Some(m) => m,
                    None => DEFAULT_MODEL@,
                },
                prompt,
                token_limit(n),
            ),
        ),
        _ => None,
    }
}

/// The model, prompt and token limit that a payload asks for.
pub open spec fn named_request(raw: Seq<u8>) -> Option<(Seq<char>, Seq<char>, usize)> {
    if is_marked(raw) {
        asked_by(json_members(marked_body(raw), "m"@, "p"@, "n"@))
    } else {
        None
    }
}

/// The contents of a parsed request.
pub open spec fn named_view(r: Option<(String, String, usize)>) -> Option<
    (Seq<char>, Seq<char>, usize),
> {
    match r {
        None => None,
        Some((model, prompt, n)) => Some((model@, prompt@, n)),
    }
}

/// The contents of some JSON members.
pub open spec fn members_view(
    m: Option<(Option<String>, Option<String>, Option<u64>)>,
) -> Option<(Option<Seq<char>>, Option<Seq<char>>, Option<u64>)> {
    match m {
        None => None,
        Some((a, b, n)) => Some((text_view(a), text_view(b), n)),
    }
}

/// Whether a payload is marked as a JSON request and has something behind the marker.
fn marked(raw: &[u8]) -> (yes: bool)
    ensures
        yes == is_marked(raw@),
{
    if raw.len() <= 9 {
        return false;
    }
    let head = copy_range(raw, 0, 9);
    let yes = head[0] == 75 && head[1] == 82 && head[2] == 88 && head[3] == 58 && head[4] == 65
        && head[5] == 73 && head[6] == 58 && head[7] == 49 && head[8] == 58;
    proof {
        if yes {
            assert(head@ =~= krx_marker());
        }
    }
    yes
}

/// The model, prompt and token limit that a JSON body with these members asks for: the text
/// under the model's key, the text under the prompt's and the number under the limit's.
pub fn request_from_members(
    members: Option<(Option<String>, Option<String>, Option<u64>)>,
) -> (r: Option<(String, String, usize)>)
    ensures
        named_view(r) == asked_by(members_view(members)),
{
    match members {
        None => None,
        Some((model, prompt, n)) => match prompt {
            None => None,
            Some(p) => {
                let m = match model {
                    Some(m) => m,
                    None => String::from_str(DEFAULT_MODEL),
                };
                let limit: u64 = match n {
                    Some(v) => v,
                    None => DEFAULT_MAX_TOKENS,
                };
                Some((m, p, limit as usize))
            },
        },
    }
}

/// The model, prompt and token limit that a payload asks for, where it is a JSON request.
pub fn parse_krx_ai_payload(raw: &[u8]) -> (r: Option<(String, String, usize)>)
    ensures
        named_view(r) == named_request(raw@),
{
    if !marked(raw) {
        return None;
    }
    let body = copy_range(raw, 9, raw.len());
    request_from_members(read_json(body.as_slice(), "m", "p", "n"))
}

/// The first eight bytes of a payload's BLAKE2b-256 digest in hexadecimal, by which a request is
/// known before its transaction has an id.
pub open spec fn payload_prefix(raw: Seq<u8>) -> Seq<char> {
    hex_text(blake2b256_digest(raw).subrange(0, 8))
}

/// The first eight bytes of a text's digest in hexadecimal.
pub open spec fn synthetic_answer(prompt: Seq<char>) -> Seq<char> {
    hex_text(blake2b_digest(encode_utf8(prompt)).subrange(0, 8))
}

/// The number that the first eight bytes of a payload's digest stand for.
pub open spec fn payload_id(raw: Seq<u8>) -> u64 {
    le_value(blake2b_digest(raw).subrange(0, 8)) as u64
}

/// The first half of a payload's digest, by which a response names its request.
pub open spec fn payload_hash(raw: Seq<u8>) -> Seq<u8> {
    blake2b_digest(raw).subrange(0, 32)
}

/// The first eight bytes of a payload's BLAKE2b-256 digest, in hexadecimal.
fn prefix_of(raw: &[u8]) -> (text: String)
    ensures
        text@ == payload_prefix(raw@),
{
    let digest = blake2b256(raw);
    let head = copy_range(digest.as_slice(), 0, 8);
    encode(head.as_slice())
}

/// The id by which a request is queued.
pub fn stable_id(raw: &[u8]) -> (id: u64)
    ensures
        id == payload_id(raw@),
{
    let digest = blake2b(raw);
    read_le(digest.as_slice(), 0, 8)
}

/// The hash by which a response names its request.
pub fn request_hash(raw: &[u8]) -> (hash: [u8; 32])
    ensures
        hash@ == payload_hash(raw@),
{
    let digest = blake2b(raw);
    block32(digest.as_slice(), 0)
}

/// The number made of eight digest bytes stands for them as well as their hexadecimal form
/// does: two prefixes are equal as numbers exactly where they are equal as texts.
pub proof fn law_id_stands_for_prefix(a: Seq<u8>, b: Seq<u8>)
    requires
        a.len() == 8,
        b.len() == 8,
    ensures
        le_value(a) as u64 == le_value(b) as u64 <==> hex_text(a) == hex_text(b),
{
    lemma_pow256_machine();
    lemma_le_bytes_of_value(a);
    lemma_le_bytes_of_value(b);
    law_hex_roundtrip(a);
    law_hex_roundtrip(b);
}

/// The prompt and token limit that a JSON text with these members asks for.
pub open spec fn prompt_of(members: Option<(Option<Seq<char>>, Option<u64>)>) -> Option<
    (Seq<char>, usize),
> {
    match members {
        Some((Some(prompt), n)) => Some((prompt, token_limit(n))),
        _ => None,
    }
}

/// The prompt and token limit that a JSON text with these members asks for: the text under the
/// prompt's key and the number under the limit's.
pub fn prompt_from_members(members: Option<(Option<String>, Option<u64>)>) -> (r: Option<
    (String, usize),
>)
    ensures
        match members {
            None => r is None,
            Some((prompt, n)) => match prompt_of(Some((text_view(prompt), n))) {
                None => r is None,
                Some((p, limit)) => r matches Some((q, got)) && q@ == p && got == limit,
            },
        },
{
    match members {
        None => None,
        Some((prompt, n)) => match prompt {
            None => None,
            Some(p) => {
                let limit: u64 = match n {
                    Some(v) => v,
                    None => DEFAULT_MAX_TOKENS,
                };
                Some((p, limit as usize))
            },
        },
    }
}

/// The prefix, prompt and token limit of the request that a transaction payload holds, where it
/// holds one: hexadecimal text of a marked UTF-8 body in JSON.
pub open spec fn extracted_request(payload_hex: Seq<char>) -> Option<
    (Seq<char>, Seq<char>, usize),
> {
    let raw = hex_bytes(payload_hex);
    let body = marked_body(raw);
    if is_hex(payload_hex) && is_marked(raw) && valid_utf8(body) {
        match prompt_of(json_text_members(decode_utf8(body), "p"@, "n"@)) {
            None => None,
            Some((prompt, limit)) => Some((payload_prefix(raw), prompt, limit)),
        }
    } else {
        None
    }
}

/// What is extracted depends on the payload's bytes alone, not on how its digits are spelled.
pub proof fn law_extraction_depends_on_bytes(payload_hex: Seq<char>, other_hex: Seq<char>)
    requires
        is_hex(payload_hex),
        is_hex(other_hex),
        hex_bytes(payload_hex) == hex_bytes(other_hex),
    ensures
        extracted_request(payload_hex) == extracted_request(other_hex),
{
}

/// The prefix, prompt and token limit of the request that a transaction payload holds, where it
/// holds one.
pub fn extract_ai_request(payload_hex: &str) -> (r: Option<(String, String, usize)>)
    ensures
        named_view(r) == extracted_request(payload_hex@),
{
    let raw = match decode(payload_hex) {
        None => {
            return None;
        },
        Some(raw) => raw,
    };
    if !marked(raw.as_slice()) {
        return None;
    }
    let body = copy_range(raw.as_slice(), 9, raw.len());
    let text = match utf8_text(body.as_slice()) {
        None => {
            return None;
        },
        Some(text) => text,
    };
    match prompt_from_members(read_json_text(text.as_str(), "p", "n")) {
        None => None,
        Some((prompt, limit)) => Some((prefix_of(raw.as_slice()), prompt, limit)),
    }
}

/// The answer of the stand-in for inference: the first eight bytes of the prompt's digest, in
/// hexadecimal.
pub fn run_synthetic_inference(prompt: &str) -> (answer: String)
    ensures
        answer@ == synthetic_answer(prompt@),
{
    let digest = blake2b(prompt.as_bytes());
    let head = copy_range(digest.as_slice(), 0, 8);
    encode(head.as_slice())
}

/// A marked JSON body keeps what it says: model, prompt and limit are those of its members, with
/// `tinyllama` and 128 where model or limit are not given. Without a prompt there is no request.
pub proof fn law_request_keeps_its_members(
    body: Seq<u8>,
    model: Option<Seq<char>>,
    prompt: Option<Seq<char>>,
    limit: Option<u64>,
)
    requires
        body.len() > 0,
        json_members(body, "m"@, "p"@, "n"@) == Some((model, prompt, limit)),
    ensures
        match (named_request(krx_marker() + body), prompt) {
            (None, None) => true,
            (Some((m, p, n)), Some(q)) => {
                &&& p == q
                &&& model matches Some(given) ==> m == given
                &&& model is None ==> m == "tinyllama"@
                &&& limit matches Some(given) ==> n == given as usize
                &&& limit is None ==> n == 128
            },
            _ => false,
        },
{
    let raw = krx_marker() + body;
    assert(raw.subrange(0, 9) =~= krx_marker());
    assert(raw.subrange(9, raw.len() as int) =~= body);
}

/// What is extracted from the hexadecimal text of a marked JSON body is its prompt and its limit,
/// under the first sixteen digits of the digest of all of it.
pub proof fn law_extraction_keeps_the_members(
    body: Seq<u8>,
    prompt: Seq<char>,
    limit: Option<u64>,
)
    requires
        body.len() > 0,
        valid_utf8(body),
        json_text_members(decode_utf8(body), "p"@, "n"@) == Some((Some(prompt), limit)),
    ensures
        extracted_request(hex_text(krx_marker() + body)) matches Some((prefix, p, n)) && {
            &&& p == prompt
            &&& limit matches Some(given) ==> n == given as usize
            &&& limit is None ==> n == 128
            &&& blake2b256_digest(krx_marker() + body).len() == 32 ==> prefix == hex_text(
                blake2b256_digest(krx_marker() + body),
            ).subrange(0, 16)
        },
{
    let raw = krx_marker() + body;
    law_hex_roundtrip(raw);
    assert(raw.subrange(0, 9) =~= krx_marker());
    assert(raw.subrange(9, raw.len() as int) =~= body);
    let d = blake2b256_digest(raw);
    if d.len() == 32 {
        assert(hex_text(d.subrange(0, 8)) =~= hex_text(d).subrange(0, 16));
    }
}

/// Id and hash of a payload belong together: the id is the number in the first eight bytes of the
/// hash, and the hash is half of the digest.
pub proof fn law_id_is_in_the_hash(raw: Seq<u8>)
    ensures
        blake2b_digest(raw).len() == 64 ==> {
            &&& payload_hash(raw).len() == 32
            &&& payload_hash(raw).is_prefix_of(blake2b_digest(raw))
            &&& payload_id(raw) as nat == le_value(payload_hash(raw).subrange(0, 8))
        },
{
    let d = blake2b_digest(raw);
    if d.len() == 64 {
        lemma_pow256_machine();
        lemma_le_bytes_of_value(d.subrange(0, 8));
        assert(payload_hash(raw).subrange(0, 8) =~= d.subrange(0, 8));
        assert(payload_hash(raw) =~= d.subrange(0, 32));
    }
}

/// The short names of payloads and prompts are the beginnings of their digests: sixteen digits
/// that stand for the first eight bytes.
pub proof fn law_short_names_begin_digests(raw: Seq<u8>, prompt: Seq<char>)
    ensures
        blake2b256_digest(raw).len() == 32 ==> {
            &&& payload_prefix(raw).len() == 16
            &&& is_hex(payload_prefix(raw))
            &&& hex_bytes(payload_prefix(raw)).is_prefix_of(blake2b256_digest(raw))
        },
        blake2b_digest(encode_utf8(prompt)).len() == 64 ==> {
            &&& synthetic_answer(prompt).len() == 16
            &&& is_hex(synthetic_answer(prompt))
            &&& hex_bytes(synthetic_answer(prompt)).is_prefix_of(
                blake2b_digest(encode_utf8(prompt)),
            )
        },
{
    law_hex_roundtrip(blake2b256_digest(raw).subrange(0, 8));
    law_hex_roundtrip(blake2b_digest(encode_utf8(prompt)).subrange(0, 8));
}

/// Only marked payloads ask for anything: without the nine bytes of the marker in front, and
/// something behind them, there is no request.
pub proof fn law_unmarked_payloads_ask_nothing(payload_hex: Seq<char>, i: int)
    requires
        0 <= i < 9,
        ({
            let raw = hex_bytes(payload_hex);
            raw.len() <= 9 || raw[i] != krx_marker()[i]
        }),
    ensures
        named_request(hex_bytes(payload_hex)) is None,
        extracted_request(payload_hex) is None,
{
    let raw = hex_bytes(payload_hex);
    if raw.len() > 9 {
        assert(raw.subrange(0, 9)[i] == raw[i]);
    }
}

} // verus!
