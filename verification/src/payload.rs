//! Payloads of the AI transactions. Requests, responses and challenges each have a fixed head of
//! little-endian fields, and a tail that takes the rest.

use vstd::prelude::*;
use crate::bytes::{block32, copy_range, le_bytes, le_value, lemma_le_bytes_of_value, lemma_le_value_of_bytes, lemma_pow256_machine, push_bytes, push_le, read_le};
use crate::hextext::{decode, hex_bytes, is_hex};

verus! {

/// The shortest request payload: `[model_id: 32] [max_tokens: 4] [fee: 8]` and no prompt.
pub const MIN_AI_REQUEST_PAYLOAD_LEN: usize = 44;

/// The longest request payload that is read.
pub const MAX_AI_REQUEST_PAYLOAD_LEN: usize = 4_096;

/// The shortest response payload: `[request_hash: 32] [challenge_window_end: 8]` and no result.
pub const MIN_AI_RESPONSE_PAYLOAD_LEN: usize = 40;

/// The longest response payload that is read.
pub const MAX_AI_RESPONSE_PAYLOAD_LEN: usize = 8_192;

/// The shortest challenge payload: `[response_hash: 32] [challenger_deposit: 8]
/// [challenger_spk_version: 2] [challenger_spk: 32]` and no proof data.
pub const MIN_AI_CHALLENGE_PAYLOAD_LEN: usize = 74;

/// The longest challenge payload that is read.
pub const MAX_AI_CHALLENGE_PAYLOAD_LEN: usize = 32_768;

/// The subnetwork of requests, as the node writes it.
pub const SUBNETWORK_ID_AI_REQUEST_HEX: &'static str = "0300000000000000000000000000000000000000";

/// The subnetwork of responses, as the node writes it.
pub const SUBNETWORK_ID_AI_RESPONSE_HEX: &'static str = "0400000000000000000000000000000000000000";

/// The subnetwork of challenges, as the node writes it.
pub const SUBNETWORK_ID_AI_CHALLENGE_HEX: &'static str = "0500000000000000000000000000000000000000";

/// Payload of a request transaction.
#[derive(Debug, Clone, PartialEq, Eq)]
pub struct AiRequestPayload {
    /// Identifier of the model that is asked.
    pub model_id: [u8; 32],
    /// How many tokens the answer may have.
    pub max_tokens: u32,
    /// What the miner who answers is paid, in sompi.
    pub fee: u64,
    /// The prompt, mostly UTF-8.
    pub prompt: Vec<u8>,
}

/// Payload of a response transaction.
#[derive(Debug, Clone, PartialEq, Eq)]
pub struct AiResponsePayload {
    /// What names the request that is answered. A transaction id can stand here; the miner, which
    /// may see a request before its transaction has one, puts the first half of the 64-byte
    /// BLAKE2b digest of the request's payload here.
    pub request_hash: [u8; 32],
    /// The score at which the response can no longer be challenged.
    pub challenge_window_end: u64,
    /// The result, or what it is found under: the miner stores its answers, and puts the content
    /// id of the stored answer here.
    pub result: Vec<u8>,
}

/// Payload of a challenge transaction, which disputes a response.
#[derive(Debug, Clone, PartialEq, Eq)]
pub struct AiChallengePayload {
    /// Payload hash of the disputed response.
    pub response_hash: [u8; 32],
    /// What the challenger stakes, in sompi.
    pub challenger_deposit: u64,
    /// Version of the script that the challenger is paid to.
    pub challenger_spk_version: u16,
    /// The script that the challenger is paid to.
    pub challenger_spk: [u8; 32],
    /// Evidence for the dispute.
    pub proof_data: Vec<u8>,
}

/// The wire form of a request.
pub open spec fn request_bytes(p: AiRequestPayload) -> Seq<u8> {
    p.model_id@ + le_bytes(p.max_tokens as nat, 4) + le_bytes(p.fee as nat, 8) + p.prompt@
}

/// The wire form of a response.
pub open spec fn response_bytes(p: AiResponsePayload) -> Seq<u8> {
    p.request_hash@ + le_bytes(p.challenge_window_end as nat, 8) + p.result@
}

/// The wire form of a challenge.
pub open spec fn challenge_bytes(p: AiChallengePayload) -> Seq<u8> {
    p.response_hash@ + le_bytes(p.challenger_deposit as nat, 8) + le_bytes(
        p.challenger_spk_version as nat,
        2,
    ) + p.challenger_spk@ + p.proof_data@
}

/// Whether `data` has a length that a request can have.
pub open spec fn request_len_ok(data: Seq<u8>) -> bool {
    MIN_AI_REQUEST_PAYLOAD_LEN <= data.len() <= MAX_AI_REQUEST_PAYLOAD_LEN
}

/// Whether `data` has a length that a response can have.
pub open spec fn response_len_ok(data: Seq<u8>) -> bool {
    MIN_AI_RESPONSE_PAYLOAD_LEN <= data.len() <= MAX_AI_RESPONSE_PAYLOAD_LEN
}

/// Whether `data` has a length that a challenge can have.
pub open spec fn challenge_len_ok(data: Seq<u8>) -> bool {
    MIN_AI_CHALLENGE_PAYLOAD_LEN <= data.len() <= MAX_AI_CHALLENGE_PAYLOAD_LEN
}

/// Whether the fields of `p` stand in `data` where a request has them.
pub open spec fn request_fields(data: Seq<u8>, p: AiRequestPayload) -> bool {
    &&& p.model_id@ == data.subrange(0, 32)
    &&& p.max_tokens == le_value(data.subrange(32, 36))
    &&& p.fee == le_value(data.subrange(36, 44))
    &&& p.prompt@ == data.subrange(44, data.len() as int)
}

/// Whether the fields of `p` stand in `data` where a response has them.
pub open spec fn response_fields(data: Seq<u8>, p: AiResponsePayload) -> bool {
    &&& p.request_hash@ == data.subrange(0, 32)
    &&& p.challenge_window_end == le_value(data.subrange(32, 40))
    &&& p.result@ == data.subrange(40, data.len() as int)
}

/// Whether the fields of `p` stand in `data` where a challenge has them.
pub open spec fn challenge_fields(data: Seq<u8>, p: AiChallengePayload) -> bool {
    &&& p.response_hash@ == data.subrange(0, 32)
    &&& p.challenger_deposit == le_value(data.subrange(32, 40))
    &&& p.challenger_spk_version == le_value(data.subrange(40, 42))
    &&& p.challenger_spk@ == data.subrange(42, 74)
    &&& p.proof_data@ == data.subrange(74, data.len() as int)
}

/// Whether reading `data` as a request gives `p`.
pub open spec fn reads_request(data: Seq<u8>, p: Option<AiRequestPayload>) -> bool {
    match p {
        None => !request_len_ok(data),
        Some(req) => request_len_ok(data) && request_fields(data, req),
    }
}

/// Whether reading `data` as a response gives `p`.
pub open spec fn reads_response(data: Seq<u8>, p: Option<AiResponsePayload>) -> bool {
    match p {
        None => !response_len_ok(data),
        Some(resp) => response_len_ok(data) && response_fields(data, resp),
    }
}

/// Whether reading `data` as a challenge gives `p`.
pub open spec fn reads_challenge(data: Seq<u8>, p: Option<AiChallengePayload>) -> bool {
    match p {
        None => !challenge_len_ok(data),
        Some(ch) => challenge_len_ok(data) && challenge_fields(data, ch),
    }
}

impl AiRequestPayload {
    /// A request with the given fields.
    pub fn new(model_id: [u8; 32], max_tokens: u32, fee: u64, prompt: Vec<u8>) -> (p: Self)
        ensures
            p == (AiRequestPayload { model_id, max_tokens, fee, prompt }),
    {
        AiRequestPayload { model_id, max_tokens, fee, prompt }
    }

    /// The wire form.
    pub fn serialize(&self) -> (out: Vec<u8>)
        ensures
            out@ == request_bytes(*self),
    {
        let mut out: Vec<u8> = Vec::new();
        push_bytes(&mut out, &self.model_id);
        push_le(&mut out, self.max_tokens as u64, 4);
        push_le(&mut out, self.fee, 8);
        push_bytes(&mut out, &self.prompt);
        assert(out@ =~= request_bytes(*self));
        out
    }

    /// Reads the wire form.
    pub fn deserialize(data: &[u8]) -> (p: Option<Self>)
        ensures
            reads_request(data@, p),
    {
        if data.len() < MIN_AI_REQUEST_PAYLOAD_LEN || data.len() > MAX_AI_REQUEST_PAYLOAD_LEN {
            return None;
        }
        proof {
            lemma_pow256_machine();
        }
        let model_id = block32(data, 0);
        let max_tokens: u32 = read_le(data, 32, 4) as u32;
        let fee: u64 = read_le(data, 36, 8);
        let prompt = copy_range(data, 44, data.len());
        Some(AiRequestPayload { model_id, max_tokens, fee, prompt })
    }

    /// Reads the wire form from hexadecimal text.
    pub fn from_hex(payload_hex: &str) -> (p: Option<Self>)
        ensures
            !is_hex(payload_hex@) ==> p is None,
            is_hex(payload_hex@) ==> reads_request(hex_bytes(payload_hex@), p),
    {
        match decode(payload_hex) {
            None => None,
            Some(bytes) => Self::deserialize(&bytes),
        }
    }
}

impl AiResponsePayload {
    /// A response with the given fields.
    pub fn new(request_hash: [u8; 32], challenge_window_end: u64, result: Vec<u8>) -> (p: Self)
        ensures
            p == (AiResponsePayload { request_hash, challenge_window_end, result }),
    {
        AiResponsePayload { request_hash, challenge_window_end, result }
    }

    /// The wire form.
    pub fn serialize(&self) -> (out: Vec<u8>)
        ensures
            out@ == response_bytes(*self),
    {
        let mut out: Vec<u8> = Vec::new();
        push_bytes(&mut out, &self.request_hash);
        push_le(&mut out, self.challenge_window_end, 8);
        push_bytes(&mut out, &self.result);
        assert(out@ =~= response_bytes(*self));
        out
    }

    /// Reads the wire form.
    pub fn deserialize(data: &[u8]) -> (p: Option<Self>)
        ensures
            reads_response(data@, p),
    {
        if data.len() < MIN_AI_RESPONSE_PAYLOAD_LEN || data.len() > MAX_AI_RESPONSE_PAYLOAD_LEN {
            return None;
        }
        let request_hash = block32(data, 0);
        let challenge_window_end: u64 = read_le(data, 32, 8);
        let result = copy_range(data, 40, data.len());
        Some(AiResponsePayload { request_hash, challenge_window_end, result })
    }

    /// Reads the wire form from hexadecimal text.
    pub fn from_hex(payload_hex: &str) -> (p: Option<Self>)
        ensures
            !is_hex(payload_hex@) ==> p is None,
            is_hex(payload_hex@) ==> reads_response(hex_bytes(payload_hex@), p),
    {
        match decode(payload_hex) {
            None => None,
            Some(bytes) => Self::deserialize(&bytes),
        }
    }
}

impl AiChallengePayload {
    /// A challenge with the given fields.
    pub fn new(
        response_hash: [u8; 32],
        challenger_deposit: u64,
        challenger_spk_version: u16,
        challenger_spk: [u8; 32],
        proof_data: Vec<u8>,
    ) -> (p: Self)
        ensures
            p == (AiChallengePayload {
                response_hash,
                challenger_deposit,
                challenger_spk_version,
                challenger_spk,
                proof_data,
            }),
    {
        AiChallengePayload {
            response_hash,
            challenger_deposit,
            challenger_spk_version,
            challenger_spk,
            proof_data,
        }
    }

    /// The wire form.
    pub fn serialize(&self) -> (out: Vec<u8>)
        ensures
            out@ == challenge_bytes(*self),
    {
        let mut out: Vec<u8> = Vec::new();
        push_bytes(&mut out, &self.response_hash);
        push_le(&mut out, self.challenger_deposit, 8);
        push_le(&mut out, self.challenger_spk_version as u64, 2);
        push_bytes(&mut out, &self.challenger_spk);
        push_bytes(&mut out, &self.proof_data);
        assert(out@ =~= challenge_bytes(*self));
        out
    }

    /// Reads the wire form.
    pub fn deserialize(data: &[u8]) -> (p: Option<Self>)
        ensures
            reads_challenge(data@, p),
    {
        if data.len() < MIN_AI_CHALLENGE_PAYLOAD_LEN || data.len() > MAX_AI_CHALLENGE_PAYLOAD_LEN {
            return None;
        }
        proof {
            lemma_pow256_machine();
        }
        let response_hash = block32(data, 0);
        let challenger_deposit: u64 = read_le(data, 32, 8);
        let challenger_spk_version: u16 = read_le(data, 40, 2) as u16;
        let challenger_spk = block32(data, 42);
        let proof_data = copy_range(data, 74, data.len());
        Some(
            AiChallengePayload {
                response_hash,
                challenger_deposit,
                challenger_spk_version,
                challenger_spk,
                proof_data,
            },
        )
    }

    /// Reads the wire form from hexadecimal text.
    pub fn from_hex(payload_hex: &str) -> (p: Option<Self>)
        ensures
            !is_hex(payload_hex@) ==> p is None,
            is_hex(payload_hex@) ==> reads_challenge(hex_bytes(payload_hex@), p),
    {
        match decode(payload_hex) {
            None => None,
            Some(bytes) => Self::deserialize(&bytes),
        }
    }
}

/// Two requests with the same contents.
pub open spec fn same_request(p: AiRequestPayload, q: AiRequestPayload) -> bool {
    p.model_id@ == q.model_id@ && p.max_tokens == q.max_tokens && p.fee == q.fee && p.prompt@
        == q.prompt@
}

/// Two responses with the same contents.
pub open spec fn same_response(p: AiResponsePayload, q: AiResponsePayload) -> bool {
    p.request_hash@ == q.request_hash@ && p.challenge_window_end == q.challenge_window_end
        && p.result@ == q.result@
}

/// Two challenges with the same contents.
pub open spec fn same_challenge(p: AiChallengePayload, q: AiChallengePayload) -> bool {
    &&& p.response_hash@ == q.response_hash@
    &&& p.challenger_deposit == q.challenger_deposit
    &&& p.challenger_spk_version == q.challenger_spk_version
    &&& p.challenger_spk@ == q.challenger_spk@
    &&& p.proof_data@ == q.proof_data@
}

/// A request is read back from its wire form, as long as its prompt leaves it within the longest
/// payload; a longer one is not read.
pub proof fn law_request_roundtrip(p: AiRequestPayload, back: Option<AiRequestPayload>)
    requires
        reads_request(request_bytes(p), back),
    ensures
        back is Some <==> MIN_AI_REQUEST_PAYLOAD_LEN + p.prompt@.len()
            <= MAX_AI_REQUEST_PAYLOAD_LEN,
        back matches Some(q) ==> same_request(p, q),
{
    lemma_pow256_machine();
    lemma_le_value_of_bytes(p.max_tokens as nat, 4);
    lemma_le_value_of_bytes(p.fee as nat, 8);
    let d = request_bytes(p);
    assert(d.subrange(0, 32) =~= p.model_id@);
    assert(d.subrange(32, 36) =~= le_bytes(p.max_tokens as nat, 4));
    assert(d.subrange(36, 44) =~= le_bytes(p.fee as nat, 8));
    assert(d.subrange(44, d.len() as int) =~= p.prompt@);
}

/// What is read as a request has the wire form that it was read from.
pub proof fn law_request_is_canonical(data: Seq<u8>, p: AiRequestPayload)
    requires
        reads_request(data, Some(p)),
    ensures
        request_bytes(p) == data,
{
    lemma_le_bytes_of_value(data.subrange(32, 36));
    lemma_le_bytes_of_value(data.subrange(36, 44));
    assert(request_bytes(p) =~= data);
}

/// A response is read back from its wire form, as long as its result leaves it within the longest
/// payload; a longer one is not read.
pub proof fn law_response_roundtrip(p: AiResponsePayload, back: Option<AiResponsePayload>)
    requires
        reads_response(response_bytes(p), back),
    ensures
        back is Some <==> MIN_AI_RESPONSE_PAYLOAD_LEN + p.result@.len()
            <= MAX_AI_RESPONSE_PAYLOAD_LEN,
        back matches Some(q) ==> same_response(p, q),
{
    lemma_pow256_machine();
    lemma_le_value_of_bytes(p.challenge_window_end as nat, 8);
    let d = response_bytes(p);
    assert(d.subrange(0, 32) =~= p.request_hash@);
    assert(d.subrange(32, 40) =~= le_bytes(p.challenge_window_end as nat, 8));
    assert(d.subrange(40, d.len() as int) =~= p.result@);
}

/// What is read as a response has the wire form that it was read from.
pub proof fn law_response_is_canonical(data: Seq<u8>, p: AiResponsePayload)
    requires
        reads_response(data, Some(p)),
    ensures
        response_bytes(p) == data,
{
    lemma_le_bytes_of_value(data.subrange(32, 40));
    assert(response_bytes(p) =~= data);
}

/// A challenge is read back from its wire form, as long as its evidence leaves it within the
/// longest payload; a longer one is not read.
pub proof fn law_challenge_roundtrip(p: AiChallengePayload, back: Option<AiChallengePayload>)
    requires
        reads_challenge(challenge_bytes(p), back),
    ensures
        back is Some <==> MIN_AI_CHALLENGE_PAYLOAD_LEN + p.proof_data@.len()
            <= MAX_AI_CHALLENGE_PAYLOAD_LEN,
        back matches Some(q) ==> same_challenge(p, q),
{
    lemma_pow256_machine();
    lemma_le_value_of_bytes(p.challenger_deposit as nat, 8);
    lemma_le_value_of_bytes(p.challenger_spk_version as nat, 2);
    let d = challenge_bytes(p);
    assert(d.subrange(0, 32) =~= p.response_hash@);
    assert(d.subrange(32, 40) =~= le_bytes(p.challenger_deposit as nat, 8));
    assert(d.subrange(40, 42) =~= le_bytes(p.challenger_spk_version as nat, 2));
    assert(d.subrange(42, 74) =~= p.challenger_spk@);
    assert(d.subrange(74, d.len() as int) =~= p.proof_data@);
}

/// What is read as a challenge has the wire form that it was read from.
pub proof fn law_challenge_is_canonical(data: Seq<u8>, p: AiChallengePayload)
    requires
        reads_challenge(data, Some(p)),
    ensures
        challenge_bytes(p) == data,
{
    lemma_le_bytes_of_value(data.subrange(32, 40));
    lemma_le_bytes_of_value(data.subrange(40, 42));
    assert(challenge_bytes(p) =~= data);
}

/// Where the fields of a request stand in its wire form.
pub proof fn law_request_layout(p: AiRequestPayload)
    ensures
        ({
            let d = request_bytes(p);
            &&& d.len() == 44 + p.prompt@.len()
            &&& d.subrange(0, 32) == p.model_id@
            &&& le_value(d.subrange(32, 36)) == p.max_tokens
            &&& le_value(d.subrange(36, 44)) == p.fee
            &&& d.subrange(44, d.len() as int) == p.prompt@
        }),
{
    lemma_pow256_machine();
    lemma_le_value_of_bytes(p.max_tokens as nat, 4);
    lemma_le_value_of_bytes(p.fee as nat, 8);
    let d = request_bytes(p);
    assert(d.subrange(0, 32) =~= p.model_id@);
    assert(d.subrange(32, 36) =~= le_bytes(p.max_tokens as nat, 4));
    assert(d.subrange(36, 44) =~= le_bytes(p.fee as nat, 8));
    assert(d.subrange(44, d.len() as int) =~= p.prompt@);
}

/// Where the fields of a response stand in its wire form.
pub proof fn law_response_layout(p: AiResponsePayload)
    ensures
        ({
            let d = response_bytes(p);
            &&& d.len() == 40 + p.result@.len()
            &&& d.subrange(0, 32) == p.request_hash@
            &&& le_value(d.subrange(32, 40)) == p.challenge_window_end
            &&& d.subrange(40, d.len() as int) == p.result@
        }),
{
    lemma_pow256_machine();
    lemma_le_value_of_bytes(p.challenge_window_end as nat, 8);
    let d = response_bytes(p);
    assert(d.subrange(0, 32) =~= p.request_hash@);
    assert(d.subrange(32, 40) =~= le_bytes(p.challenge_window_end as nat, 8));
    assert(d.subrange(40, d.len() as int) =~= p.result@);
}

/// Where the fields of a challenge stand in its wire form.
pub proof fn law_challenge_layout(p: AiChallengePayload)
    ensures
        ({
            let d = challenge_bytes(p);
            &&& d.len() == 74 + p.proof_data@.len()
            &&& d.subrange(0, 32) == p.response_hash@
            &&& le_value(d.subrange(32, 40)) == p.challenger_deposit
            &&& le_value(d.subrange(40, 42)) == p.challenger_spk_version
            &&& d.subrange(42, 74) == p.challenger_spk@
            &&& d.subrange(74, d.len() as int) == p.proof_data@
        }),
{
    lemma_pow256_machine();
    lemma_le_value_of_bytes(p.challenger_deposit as nat, 8);
    lemma_le_value_of_bytes(p.challenger_spk_version as nat, 2);
    let d = challenge_bytes(p);
    assert(d.subrange(0, 32) =~= p.response_hash@);
    assert(d.subrange(32, 40) =~= le_bytes(p.challenger_deposit as nat, 8));
    assert(d.subrange(40, 42) =~= le_bytes(p.challenger_spk_version as nat, 2));
    assert(d.subrange(42, 74) =~= p.challenger_spk@);
    assert(d.subrange(74, d.len() as int) =~= p.proof_data@);
}

/// Which lengths are read: from the fixed part alone up to the longest payload, both included.
pub proof fn law_accepted_lengths(data: Seq<u8>)
    ensures
        request_len_ok(data) <==> 44 <= data.len() <= 4_096,
        response_len_ok(data) <==> 40 <= data.len() <= 8_192,
        challenge_len_ok(data) <==> 74 <= data.len() <= 32_768,
{
}

} // verus!
