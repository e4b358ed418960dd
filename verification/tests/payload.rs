use keryx_pom::payload::{AiChallengePayload, AiRequestPayload, AiResponsePayload, MAX_AI_CHALLENGE_PAYLOAD_LEN, MAX_AI_REQUEST_PAYLOAD_LEN, MAX_AI_RESPONSE_PAYLOAD_LEN};

#[test]
fn ai_request_roundtrip() {
    let req = AiRequestPayload::new(
        [42u8; 32],
        256,
        1_000_000,
        b"What is the capital of France?".to_vec(),
    );
    let bytes = req.serialize();
    let parsed = AiRequestPayload::deserialize(&bytes).unwrap();
    assert_eq!(req, parsed);
}

#[test]
fn ai_response_roundtrip() {
    let resp = AiResponsePayload::new([7u8; 32], 900_000, b"Paris.".to_vec());
    let bytes = resp.serialize();
    let parsed = AiResponsePayload::deserialize(&bytes).unwrap();
    assert_eq!(resp, parsed);
}

#[test]
fn ai_request_rejects_too_short() {
    assert!(AiRequestPayload::deserialize(&[0u8; 10]).is_none());
}

#[test]
fn ai_response_rejects_too_short() {
    assert!(AiResponsePayload::deserialize(&[0u8; 10]).is_none());
}

#[test]
fn ai_request_rejects_oversized() {
    let huge = vec![0u8; MAX_AI_REQUEST_PAYLOAD_LEN + 1];
    assert!(AiRequestPayload::deserialize(&huge).is_none());
}

#[test]
fn ai_challenge_roundtrip() {
    let ch = AiChallengePayload::new([0xABu8; 32], 500_000, 0, [0xCDu8; 32], b"stub_proof".to_vec());
    let bytes = ch.serialize();
    let parsed = AiChallengePayload::deserialize(&bytes).unwrap();
    assert_eq!(ch, parsed);
}

#[test]
fn ai_challenge_empty_proof_roundtrip() {
    let ch = AiChallengePayload::new([1u8; 32], 1_000, 0, [2u8; 32], vec![]);
    let bytes = ch.serialize();
    let parsed = AiChallengePayload::deserialize(&bytes).unwrap();
    assert_eq!(ch, parsed);
}

#[test]
fn ai_challenge_rejects_too_short() {
    assert!(AiChallengePayload::deserialize(&[0u8; 10]).is_none());
}

#[test]
fn ai_challenge_spk_roundtrip() {
    let spk = [0x42u8; 32];
    let ch = AiChallengePayload::new([0u8; 32], 0, 1, spk, [0xAAu8; 32].to_vec());
    let bytes = ch.serialize();
    let parsed = AiChallengePayload::deserialize(&bytes).unwrap();
    assert_eq!(parsed.challenger_spk_version, 1);
    assert_eq!(parsed.challenger_spk, spk);
    assert_eq!(parsed.proof_data, [0xAAu8; 32]);
}

#[test]
fn request_wire_form_is_exact() {
    let req = AiRequestPayload::new([9u8; 32], 0x0403_0201, 0x0807_0605_0403_0201, vec![0xEE, 0xFF]);
    let mut expected = vec![9u8; 32];
    expected.extend_from_slice(&[1, 2, 3, 4]);
    expected.extend_from_slice(&[1, 2, 3, 4, 5, 6, 7, 8]);
    expected.extend_from_slice(&[0xEE, 0xFF]);
    assert_eq!(req.serialize(), expected);
}

#[test]
fn challenge_wire_form_is_exact() {
    let ch = AiChallengePayload::new([1u8; 32], 0x10, 0x0201, [3u8; 32], vec![5]);
    let mut expected = vec![1u8; 32];
    expected.extend_from_slice(&[0x10, 0, 0, 0, 0, 0, 0, 0, 0x01, 0x02]);
    expected.extend_from_slice(&[3u8; 32]);
    expected.push(5);
    assert_eq!(ch.serialize(), expected);
}

#[test]
fn length_limits_are_inclusive() {
    assert!(AiRequestPayload::deserialize(&[0u8; 43]).is_none());
    assert!(AiRequestPayload::deserialize(&[0u8; 44]).unwrap().prompt.is_empty());
    assert!(AiRequestPayload::deserialize(&vec![0u8; MAX_AI_REQUEST_PAYLOAD_LEN]).is_some());
    assert!(AiResponsePayload::deserialize(&[0u8; 39]).is_none());
    assert!(AiResponsePayload::deserialize(&[0u8; 40]).is_some());
    assert!(AiResponsePayload::deserialize(&vec![0u8; MAX_AI_RESPONSE_PAYLOAD_LEN]).is_some());
    assert!(AiResponsePayload::deserialize(&vec![0u8; MAX_AI_RESPONSE_PAYLOAD_LEN + 1]).is_none());
    assert!(AiChallengePayload::deserialize(&[0u8; 73]).is_none());
    assert!(AiChallengePayload::deserialize(&[0u8; 74]).is_some());
    assert!(AiChallengePayload::deserialize(&vec![0u8; MAX_AI_CHALLENGE_PAYLOAD_LEN]).is_some());
    assert!(AiChallengePayload::deserialize(&vec![0u8; MAX_AI_CHALLENGE_PAYLOAD_LEN + 1]).is_none());
}

#[test]
fn too_long_a_prompt_is_not_read_back() {
    let req = AiRequestPayload::new([0u8; 32], 1, 1, vec![0u8; MAX_AI_REQUEST_PAYLOAD_LEN - 43]);
    assert!(AiRequestPayload::deserialize(&req.serialize()).is_none());
}

#[test]
fn payloads_are_read_from_hex_of_both_cases() {
    let req = AiRequestPayload::new([0xABu8; 32], 7, 8, b"hi".to_vec());
    let text = hex::encode(req.serialize());
    assert_eq!(AiRequestPayload::from_hex(&text).unwrap(), req);
    assert_eq!(AiRequestPayload::from_hex(&text.to_uppercase()).unwrap(), req);
    let resp = AiResponsePayload::new([1u8; 32], 2, b"x".to_vec());
    assert_eq!(AiResponsePayload::from_hex(&hex::encode(resp.serialize())).unwrap(), resp);
    let ch = AiChallengePayload::new([1u8; 32], 2, 3, [4u8; 32], vec![]);
    assert_eq!(AiChallengePayload::from_hex(&hex::encode(ch.serialize())).unwrap(), ch);
}

#[test]
fn malformed_hex_is_no_payload() {
    let good = "00".repeat(44);
    assert!(AiRequestPayload::from_hex(&good).is_some());
    assert!(AiRequestPayload::from_hex(&good[1..]).is_none());
    assert!(AiRequestPayload::from_hex(&format!("zz{}", good)).is_none());
    assert!(AiRequestPayload::from_hex(&format!("\u{e9}{}", good)).is_none());
    assert!(AiRequestPayload::from_hex("").is_none());
}
