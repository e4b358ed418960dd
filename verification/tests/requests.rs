use keryx_pom::intake::{offer, requested_model, RequestPool, Tx};
use keryx_pom::payload::{AiRequestPayload, SUBNETWORK_ID_AI_REQUEST_HEX};
use keryx_pom::request::{extract_ai_request, parse_krx_ai_payload, prompt_from_members, request_from_members, request_hash, run_synthetic_inference, stable_id};
use keryx_pom::text::{compute_opoi_tag, count_words, decimal_text, nonce_hex, opoi_nonce};

const GEMMA: &str = "4b52583a41493a313a7b226d223a2267656d6d61222c2270223a226869207468657265222c226e223a377d";
const GEMMA_PREFIX: &str = "039623cbc08096aa";
const GEMMA_ID: &str = "405b70986feb9442";
const NATIVE: &str = "0000000000000000000000000000000000000000";

fn raw(json: &str) -> Vec<u8> {
    [b"KRX:AI:1:".as_slice(), json.as_bytes()].concat()
}

fn known(_: &String) -> Option<[u8; 32]> {
    Some([1; 32])
}

fn json_tx(json: &str) -> Tx {
    Tx {
        subnetwork_id: NATIVE.to_string(),
        payload: hex::encode(raw(json)),
        inputs: 1,
        transaction_id: None,
    }
}

fn binary_tx(model: [u8; 32], fee: u64, prompt: &[u8], txid: Option<&str>) -> Tx {
    let payload = AiRequestPayload::new(model, 64, fee, prompt.to_vec()).serialize();
    Tx {
        subnetwork_id: SUBNETWORK_ID_AI_REQUEST_HEX.to_string(),
        payload: hex::encode(payload),
        inputs: 0,
        transaction_id: txid.map(|t| t.to_string()),
    }
}

#[test]
fn json_request_is_parsed() {
    let payload = hex::decode(GEMMA).unwrap();
    assert_eq!(parse_krx_ai_payload(&payload), Some(("gemma".to_string(), "hi there".to_string(), 7)));
    assert_eq!(requested_model(GEMMA), Some("gemma".to_string()));
}

#[test]
fn json_request_has_defaults() {
    assert_eq!(
        parse_krx_ai_payload(&raw(r#"{"p":"hi"}"#)),
        Some(("tinyllama".to_string(), "hi".to_string(), 128))
    );
    assert_eq!(
        parse_krx_ai_payload(&raw(r#"{"p":"hi","m":5,"n":-1}"#)),
        Some(("tinyllama".to_string(), "hi".to_string(), 128))
    );
}

#[test]
fn what_is_no_json_request_is_refused() {
    assert_eq!(parse_krx_ai_payload(b""), None);
    assert_eq!(parse_krx_ai_payload(b"KRX:AI:1:"), None);
    assert_eq!(parse_krx_ai_payload(b"KRX:AI:2:{\"p\":\"hi\"}"), None);
    assert_eq!(parse_krx_ai_payload(&raw("not json")), None);
    assert_eq!(parse_krx_ai_payload(&raw(r#"{"m":"gemma"}"#)), None);
    assert_eq!(parse_krx_ai_payload(&raw(r#"["p"]"#)), None);
    assert_eq!(requested_model("zz"), None);
}

#[test]
fn members_decide_the_request() {
    let p = || Some("q".to_string());
    assert_eq!(request_from_members(None), None);
    assert_eq!(request_from_members(Some((p(), None, Some(3)))), None);
    assert_eq!(
        request_from_members(Some((Some("m".to_string()), p(), Some(3)))),
        Some(("m".to_string(), "q".to_string(), 3))
    );
    assert_eq!(prompt_from_members(None), None);
    assert_eq!(prompt_from_members(Some((None, None))), None);
    assert_eq!(prompt_from_members(Some((p(), None))), Some(("q".to_string(), 128)));
}

#[test]
fn request_is_extracted_with_its_prefix() {
    assert_eq!(
        extract_ai_request(GEMMA),
        Some((GEMMA_PREFIX.to_string(), "hi there".to_string(), 7))
    );
    assert_eq!(
        extract_ai_request(&hex::encode(raw(r#"{"p":"hi"}"#))),
        Some(("c9a7b588aaf10dfa".to_string(), "hi".to_string(), 128))
    );
    assert_eq!(extract_ai_request(&GEMMA.to_uppercase()), extract_ai_request(GEMMA));
    assert_eq!(extract_ai_request(""), None);
    assert_eq!(extract_ai_request("4b5"), None);
    assert_eq!(extract_ai_request("4b52583a41493a313a"), None);
    let mut not_utf8 = raw(r#"{"p":"hi"}"#);
    not_utf8.push(0xff);
    assert_eq!(extract_ai_request(&hex::encode(not_utf8)), None);
}

#[test]
fn ids_come_from_the_digest() {
    let payload = hex::decode(GEMMA).unwrap();
    assert_eq!(stable_id(&payload), 4797718367587818304);
    assert_eq!(hex::encode(stable_id(&payload).to_le_bytes()), GEMMA_ID);
    assert_eq!(
        hex::encode(request_hash(&payload)),
        "405b70986feb944257f8e0d35241918d5564dcbf4117276fc3511ce88d609bf0"
    );
    assert_eq!(run_synthetic_inference("hello"), "e4cfa39a3d37be31");
}

#[test]
fn nonces_are_written_and_read() {
    assert_eq!(nonce_hex(0), "0000000000000000");
    assert_eq!(nonce_hex(0xDEADBEEF), "00000000deadbeef");
    assert_eq!(nonce_hex(u64::MAX), "ffffffffffffffff");
    for n in [0u64, 1, 0x0123456789abcdef, u64::MAX] {
        assert_eq!(opoi_nonce(&nonce_hex(n)), n);
    }
    assert_eq!(compute_opoi_tag("00000000000000ff", |n| format!("tag {}", n)), "tag 255");
    assert_eq!(compute_opoi_tag("none", |n| format!("tag {}", n)), "tag 0");
    assert_eq!(opoi_nonce("+fF"), 255);
    assert_eq!(opoi_nonce("00000000000000000000001"), 1);
    for bad in ["", "+", "-1", "xyz", "12 ", "10000000000000000", "++1"] {
        assert_eq!(opoi_nonce(bad), u64::from_str_radix(bad, 16).unwrap_or(0));
        assert_eq!(opoi_nonce(bad), 0);
    }
}

#[test]
fn words_are_counted() {
    for text in ["", "one", "  two  words ", "a\tb\nc\u{a0}d\u{3000}e", "\u{e9}\u{e8} x"] {
        assert_eq!(count_words(text), text.split_whitespace().count());
    }
    assert_eq!(count_words("a\tb\nc\u{a0}d\u{3000}e"), 5);
}

#[test]
fn numbers_are_written_in_decimal() {
    for n in [0usize, 7, 10, 99, 100, 4096, usize::MAX] {
        assert_eq!(decimal_text(n), n.to_string());
    }
}

#[test]
fn binary_request_is_offered_with_its_reward() {
    let o = offer(&binary_tx([4; 32], 500, b"hi \xff", Some("t1")), &None).unwrap();
    assert_eq!(o.model_id, [4; 32]);
    assert_eq!(o.prompt, "hi \u{fffd}");
    assert_eq!(o.max_tokens, 64);
    assert_eq!(o.reward, 500);
}

#[test]
fn json_request_is_offered_without_reward() {
    let known = Some([1; 32]);
    let o = offer(&json_tx(r#"{"m":"g","p":"hi","n":3}"#), &known).unwrap();
    assert_eq!((o.model_id, o.prompt.as_str(), o.max_tokens, o.reward), ([1; 32], "hi", 3, 0));
    assert!(offer(&json_tx(r#"{"m":"g","p":"hi"}"#), &None).is_none());
    let mut coinbase = json_tx(r#"{"p":"hi"}"#);
    coinbase.inputs = 0;
    assert!(offer(&coinbase, &known).is_none());
    let mut broken = json_tx(r#"{"p":"hi"}"#);
    broken.payload.push('0');
    assert!(offer(&broken, &known).is_none());
    let mut short = binary_tx([4; 32], 1, b"", None);
    short.payload.truncate(20);
    assert!(offer(&short, &known).is_none());
}

#[test]
fn json_requests_are_routed_by_name() {
    let asked = std::cell::RefCell::new(Vec::new());
    let find = |name: &String| {
        asked.borrow_mut().push(name.clone());
        match name.as_str() {
            "a" => Some([1; 32]),
            "b" => Some([2; 32]),
            _ => None,
        }
    };
    let mut coinbase = json_tx(r#"{"m":"a","p":"0"}"#);
    coinbase.inputs = 0;
    let txs = vec![
        coinbase,
        json_tx(r#"{"m":"b","p":"1"}"#),
        json_tx(r#"{"m":"x","p":"2"}"#),
        binary_tx([2; 32], 0, b"3", None),
        json_tx(r#"{"p":"4"}"#),
        json_tx(r#"{"m":"a","p":"5"}"#),
    ];
    let mut pool = RequestPool::new();
    pool.scan_txs_for_ai_requests(&txs, &vec![[1; 32], [2; 32]], find);
    assert_eq!(*asked.borrow(), ["b", "x", "tinyllama", "a"]);
    let queued: Vec<(u8, String)> = std::iter::from_fn(|| pool.take_next()).map(|r| (r.model_id[0], r.prompt)).collect();
    assert_eq!(queued, [(2, "1".to_string()), (2, "3".to_string()), (1, "5".to_string())]);
}

#[test]
fn white_space_is_that_of_unicode() {
    let white = |c: char| {
        let u = c as u32;
        matches!(u, 0x9..=0xd | 0x20 | 0x85 | 0xa0 | 0x1680 | 0x2000..=0x200a | 0x2028 | 0x2029 | 0x202f | 0x205f | 0x3000)
    };
    let mut text = String::new();
    for c in '\0'..=char::MAX {
        text.clear();
        text.push('a');
        text.push(c);
        text.push('b');
        assert_eq!(count_words(&text) == 2, white(c), "{:x}", c as u32);
    }
}

#[test]
fn requests_are_queued_once_and_in_order() {
    let loaded = vec![[1u8; 32], [4; 32]];
    let first = vec![
        binary_tx([4; 32], 500, b"a", Some("t1")),
        binary_tx([9; 32], 500, b"b", Some("t2")),
        json_tx(r#"{"p":"c"}"#),
        binary_tx([4; 32], 0, b"d", Some("t4")),
        binary_tx([4; 32], 7, b"e", Some("")),
        binary_tx([4; 32], 7, b"f", None),
    ];
    let mut pool = RequestPool::new();
    pool.scan_txs_for_ai_requests(&first, &loaded, known);
    pool.scan_txs_for_ai_requests(&first, &loaded, known);
    assert_eq!(pool.txids.len(), 1);
    let mut prompts = Vec::new();
    let mut ids = Vec::new();
    while let Some(r) = pool.take_next() {
        assert_eq!(r.id, stable_id(&r.raw));
        ids.push(r.id);
        prompts.push(r.prompt);
    }
    assert_eq!(prompts, ["a", "c", "d", "e", "f"]);
    pool.scan_txs_for_ai_requests(&first, &loaded, known);
    assert!(pool.take_next().is_none());
    assert_eq!(pool.take_receipt(ids[0]), Some(("t1".to_string(), 500)));
    assert_eq!(pool.take_receipt(ids[0]), None);
}

#[test]
fn a_confirmed_request_gets_its_receipt_later() {
    let loaded = vec![[4u8; 32]];
    let mut pool = RequestPool::new();
    pool.scan_txs_for_ai_requests(&vec![binary_tx([4; 32], 500, b"a", None)], &loaded, known);
    assert!(pool.txids.is_empty());
    pool.scan_txs_for_ai_requests(&vec![binary_tx([4; 32], 500, b"a", Some("t1"))], &loaded, known);
    assert_eq!(pool.queue.len(), 1);
    assert_eq!(pool.txids.len(), 1);
}
