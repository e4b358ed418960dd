use keryx_pom::intake::Tx;
use keryx_pom::node::{answer_text, Action, Block, Event, KeryxdHandler};
use keryx_pom::payload::{AiRequestPayload, AiResponsePayload, SUBNETWORK_ID_AI_REQUEST_HEX, SUBNETWORK_ID_AI_RESPONSE_HEX};
use keryx_pom::request::request_hash;
use keryx_pom::template::{advance_template_ctr, draw_template_ctr, extra_data, initial_template_ctr};

const MODEL: [u8; 32] = [4; 32];

fn request(prompt: &str, fee: u64) -> Tx {
    let payload = AiRequestPayload::new(MODEL, 64, fee, prompt.as_bytes().to_vec()).serialize();
    Tx {
        subnetwork_id: SUBNETWORK_ID_AI_REQUEST_HEX.to_string(),
        payload: hex::encode(payload),
        inputs: 1,
        transaction_id: Some(format!("tx-{}", prompt)),
    }
}

fn block(txs: Vec<Tx>, daa: Option<u64>) -> Option<Block> {
    Some(Block { transactions: txs, hash: Some("h".to_string()), daa_score: daa })
}

trait Handle {
    fn handle(&mut self, event: &Event, loaded: &Vec<[u8; 32]>) -> Vec<Action>;
}

impl Handle for KeryxdHandler {
    fn handle(&mut self, event: &Event, loaded: &Vec<[u8; 32]>) -> Vec<Action> {
        self.handle_message(event, loaded, |name| if name == "known" { Some(MODEL) } else { None })
    }
}

fn handler(escrow: bool) -> KeryxdHandler {
    let key = if escrow { Some("ab".to_string()) } else { None };
    KeryxdHandler::new("miner".to_string(), false, key)
}

fn template(block: Option<Block>, is_synced: bool, failed: bool, received: Option<&str>) -> Event {
    Event::BlockTemplate { block, is_synced, failed, received: received.map(|r| r.to_string()) }
}

fn loaded() -> Vec<[u8; 32]> {
    vec![MODEL]
}

fn names(actions: &[Action]) -> Vec<&'static str> {
    actions
        .iter()
        .map(|a| match a {
            Action::FetchTemplate => "fetch template",
            Action::FetchBlock { .. } => "fetch block",
            Action::RegisterForTemplates => "register templates",
            Action::RegisterForBlocks => "register blocks",
            Action::StartInference { .. } => "start",
            Action::PublishAnswer { .. } => "publish",
            Action::CheckEscrow => "escrow",
            Action::ReportClaim { .. } => "report",
            Action::Mine => "mine",
            Action::Pause => "pause",
            Action::Fail => "fail",
        })
        .collect()
}

#[test]
fn introduction_registers_and_asks_for_work() {
    let mut h = handler(false);
    let actions = h.handle(&Event::Info, &loaded());
    assert_eq!(names(&actions), ["register templates", "register blocks", "fetch template"]);
    assert_eq!(names(&h.handle(&Event::NewBlockTemplate, &loaded())), ["fetch template"]);
    assert!(h.handle(&Event::Other, &loaded()).is_empty());
}

#[test]
fn added_blocks_are_scanned() {
    let mut h = handler(true);
    let e = Event::BlockAdded { block: block(vec![request("a", 5), request("b", 6)], None) };
    let actions = h.handle(&e, &loaded());
    assert_eq!(names(&actions), ["start", "escrow"]);
    match &actions[0] {
        Action::StartInference { request } => {
            assert_eq!(request.prompt, "a");
            assert_eq!(h.in_flight.as_ref(), Some(&request.raw));
        }
        _ => panic!("no request was started"),
    }
    assert_eq!(h.pool.queue.len(), 1);
    assert_eq!(names(&h.handle(&e, &loaded())), ["escrow"]);
    assert_eq!(h.pool.queue.len(), 1);
}

#[test]
fn added_blocks_without_transactions_are_fetched() {
    let mut h = handler(false);
    let actions = h.handle(&Event::BlockAdded { block: block(Vec::new(), None) }, &loaded());
    assert!(matches!(&actions[..], [Action::FetchBlock { hash }] if hash == "h"));
    for hash in [None, Some(String::new())] {
        let b = Some(Block { transactions: Vec::new(), hash, daa_score: None });
        assert!(h.handle(&Event::BlockAdded { block: b }, &loaded()).is_empty());
    }
    assert!(h.handle(&Event::BlockAdded { block: None }, &loaded()).is_empty());
}

#[test]
fn fetched_blocks_are_scanned_unless_they_failed() {
    let mut h = handler(true);
    let failed = Event::FullBlock { block: block(vec![request("a", 5)], None), failed: true };
    assert!(h.handle(&failed, &loaded()).is_empty());
    let missing = Event::FullBlock { block: None, failed: false };
    assert!(h.handle(&missing, &loaded()).is_empty());
    let got = Event::FullBlock { block: block(vec![request("a", 5)], None), failed: false };
    assert_eq!(names(&h.handle(&got, &loaded())), ["start", "escrow"]);
}

#[test]
fn unloaded_models_are_not_run() {
    let mut h = handler(false);
    let e = Event::BlockAdded { block: block(vec![request("a", 5)], None) };
    assert!(h.handle(&e, &vec![[7u8; 32]]).is_empty());
    assert!(h.pool.queue.is_empty());
}

#[test]
fn named_models_are_looked_up() {
    let mut h = handler(false);
    let json = |m: &str, p: &str| Tx {
        subnetwork_id: String::new(),
        payload: hex::encode(format!("KRX:AI:1:{{\"m\":\"{}\",\"p\":\"{}\"}}", m, p)),
        inputs: 1,
        transaction_id: None,
    };
    let e = Event::BlockAdded { block: block(vec![json("other", "a"), json("known", "b")], None) };
    let actions = h.handle(&e, &loaded());
    assert!(matches!(&actions[..], [Action::StartInference { request }] if request.prompt == "b" && request.model_id == MODEL));
    assert!(h.pool.queue.is_empty());
    let mut again = handler(false);
    let actions = again.handle_routed(&e, &vec![Some(MODEL), None], &loaded());
    assert!(matches!(&actions[..], [Action::StartInference { request }] if request.prompt == "a"));
}

#[test]
fn templates_decide_about_mining() {
    let mut h = handler(false);
    let l = loaded();
    assert_eq!(names(&h.handle(&template(block(vec![], None), true, false, None), &l)), ["mine"]);
    assert_eq!(names(&h.handle(&template(block(vec![], None), false, false, None), &l)), ["pause"]);
    assert_eq!(names(&h.handle(&template(None, false, false, None), &l)), ["pause"]);
    assert!(h.handle(&template(None, true, false, None), &l).is_empty());
    assert_eq!(names(&h.handle(&template(block(vec![], None), true, true, None), &l)), ["fail"]);
    h.mine_when_not_synced = true;
    assert_eq!(names(&h.handle(&template(block(vec![], None), false, false, None), &l)), ["mine"]);
    assert_eq!(names(&h.handle(&template(None, false, false, None), &l)), ["pause"]);
    let e = template(block(vec![request("a", 5)], None), true, false, None);
    assert_eq!(names(&h.handle(&e, &l)), ["start", "mine"]);
}

#[test]
fn highest_score_counts() {
    let mut h = handler(false);
    let l = loaded();
    h.handle(&template(block(vec![], Some(50)), true, false, None), &l);
    assert_eq!(h.last_known_daa, 50);
    h.handle(&template(block(vec![], Some(40)), true, false, None), &l);
    assert_eq!(h.last_known_daa, 50);
    h.handle(&template(block(vec![], None), true, false, None), &l);
    assert_eq!(h.last_known_daa, 50);
    h.handle(&Event::BlockAdded { block: block(vec![], Some(90)) }, &l);
    assert_eq!(h.last_known_daa, 50);
}

#[test]
fn answers_are_published_one_at_a_time() {
    let mut h = handler(true);
    let l = loaded();
    let both = vec![request("a", 5), request("b", 6)];
    h.handle(&Event::BlockAdded { block: block(both, None) }, &l);
    let waiting = template(block(vec![request("c", 7)], Some(100)), true, false, None);
    assert_eq!(names(&h.handle(&waiting, &l)), ["mine"]);
    let done = template(block(vec![request("d", 8)], Some(200)), true, false, Some("the answer"));
    let actions = h.handle(&done, &l);
    assert_eq!(names(&actions), ["publish", "fetch template"]);
    assert_eq!(h.pool.queue.len(), 2);
    let (raw, answer) = match &actions[0] {
        Action::PublishAnswer { raw, answer } => (raw.clone(), answer.clone()),
        _ => panic!("no answer was published"),
    };
    assert_eq!(answer, "the answer");
    assert!(h.in_flight.is_none());

    assert!(h.publish_answer(&raw, &answer, None).is_none());
    let p = h.publish_answer(&raw, &answer, Some(b"cid".to_vec())).unwrap();
    assert_eq!(p.response_length, 2);
    assert_eq!(p.tx.subnetwork_id, SUBNETWORK_ID_AI_RESPONSE_HEX);
    assert_eq!((p.tx.version, p.tx.lock_time, p.tx.gas, p.tx.mass), (0, 0, 0, 0));
    let response = AiResponsePayload::from_hex(&p.tx.payload).unwrap();
    assert_eq!(response, AiResponsePayload::new(request_hash(&raw), 1200, b"cid".to_vec()));
    let claim = p.claim.unwrap();
    assert_eq!((claim.txid.as_str(), claim.daa_score, claim.reward), ("tx-a", 200, 5));
    assert!(h.publish_answer(&raw, &answer, Some(b"cid".to_vec())).unwrap().claim.is_none());

    let next = h.try_start_inference().unwrap();
    assert_eq!(next.prompt, "b");
    assert!(h.try_start_inference().is_none());
    assert!(h.poll_inference(&None).is_none());
    assert_eq!(h.poll_inference(&Some("x".to_string())), Some((next.raw, "x".to_string())));
    assert!(h.poll_inference(&Some("x".to_string())).is_none());
}

#[test]
fn rewards_are_claimed_only_under_watch() {
    let mut h = handler(false);
    h.handle(&Event::BlockAdded { block: block(vec![request("a", 5)], None) }, &loaded());
    let raw = h.in_flight.clone().unwrap();
    let p = h.publish_answer(&raw, &"x".to_string(), Some(vec![1])).unwrap();
    assert!(p.claim.is_none());
    assert!(h.pool.txids.is_empty());
}

#[test]
fn replies_go_to_the_escrow_that_waits() {
    let e = |claim_pending| Event::TransactionSubmitted { error: Some("no".to_string()), claim_pending };
    let mut h = handler(true);
    assert!(h.handle(&e(false), &loaded()).is_empty());
    let actions = h.handle(&e(true), &loaded());
    assert!(matches!(&actions[..], [Action::ReportClaim { error: Some(m) }] if m == "no"));
    assert!(handler(false).handle(&e(true), &loaded()).is_empty());
}

#[test]
fn templates_are_asked_for_in_turns() {
    let mut h = handler(true);
    let r = h.template_request("0.2.3/x", 0, 0xab, "tag", &vec![[0x11; 32], [0x22; 32]]);
    assert_eq!(r.pay_address, "miner");
    let ids = format!("{},{}", "11".repeat(32), "22".repeat(32));
    assert_eq!(r.extra_data, format!("0.2.3/x/escrow:ab/00000000000000ab/ai:v1:tag/ai:cap:{}", ids));
    h.add_devfund("fund".to_string(), 200);
    assert_eq!(h.template_request("b", 200, 1, "t", &vec![]).pay_address, "fund");
    assert_eq!(h.template_request("b", 201, 1, "t", &vec![]).pay_address, "miner");
    let paid = (0..10_000u16)
        .filter(|c| h.template_request("b", *c, 1, "t", &vec![]).pay_address == "fund")
        .count();
    assert_eq!(paid, 201);
    let mut ctr = 7_777;
    let mut paid = 0;
    for _ in 0..10_000 {
        paid += (h.template_request("b", ctr, 1, "t", &vec![]).pay_address == "fund") as usize;
        ctr = advance_template_ctr(ctr);
    }
    assert_eq!(paid, 201);
}

#[test]
fn templates_have_fresh_nonces_and_their_tags() {
    let h = handler(false);
    let ask = || h.client_get_block_template("b", 0, &vec![], |n| format!("<{}>", n)).extra_data;
    let (one, two) = (ask(), ask());
    assert_ne!(one, two);
    let digits = &one[2..18];
    assert_eq!(one, format!("b/{}/ai:v1:<{}>", digits, u64::from_str_radix(digits, 16).unwrap()));
    assert!(draw_template_ctr() < 10_000);
}

#[test]
fn answers_without_an_engine_say_so() {
    assert_eq!(answer_text(None), "[no engine for model]");
    assert_eq!(answer_text(Some("x".to_string())), "x");
}

#[test]
fn coinbase_leaves_out_what_is_not_there() {
    assert_eq!(extra_data("b", &None, 0x10, "t", &vec![]), "b/0000000000000010/ai:v1:t");
    assert_ne!(extra_data("b", &None, 1, "t", &vec![]), extra_data("b", &None, 2, "t", &vec![]));
}

#[test]
fn counter_turns_over() {
    assert_eq!(advance_template_ctr(0), 1);
    assert_eq!(advance_template_ctr(9_999), 0);
    assert_eq!(advance_template_ctr(20_000), 1);
    assert_eq!(initial_template_ctr(123_456), 3_456);
    let mut c = 42;
    for _ in 0..10_000 {
        c = advance_template_ctr(c);
    }
    assert_eq!(c, 42);
}
