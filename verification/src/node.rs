//! The miner's side of the conversation with its node: what it does on each message.

use vstd::prelude::*;
use vstd::string::*;
use crate::hextext::{encode, hex_bytes, hex_text, is_hex, law_hex_roundtrip};
use crate::intake::{PoolView, QueuedRequest, RequestPool, RequestView, Tx, TxView, are_routed, ids_view, law_scan_appends, law_take_keeps_pool_wf, pool_wf, route_all, scan_all, txs_view};
use crate::payload::{AiResponsePayload, SUBNETWORK_ID_AI_RESPONSE_HEX, reads_response};
use crate::request::{payload_hash, payload_id, request_hash, stable_id};
use crate::template::{TemplateRequest, coinbase_text, draw, extra_data, law_coinbase_says_everything, payee};
use crate::text::{compute_opoi_tag, count_words, law_nonce_roundtrip, nonce_hex, nonce_value, text_view, word_count};
use crate::bytes::{le_bytes, lemma_le_value_of_bytes, lemma_pow256_machine};

verus! {

/// How far ahead of the last known score the time to challenge an answer ends.
pub const CHALLENGE_WINDOW: u64 = 1000;

/// What of a block the miner looks at.
pub struct Block {
    /// Its transactions. A notice of a block can come without them.
    pub transactions: Vec<Tx>,
    /// Its hash, where the node gives it.
    pub hash: Option<String>,
    /// Its score, where it has a header.
    pub daa_score: Option<u64>,
}

/// A message of the node.
pub enum Event {
    /// A block was added to the chain.
    BlockAdded { block: Option<Block> },
    /// There is a new block template to be had.
    NewBlockTemplate,
    /// The block template that was asked for, and what the inference in flight has given by now.
    BlockTemplate {
        block: Option<Block>,
        is_synced: bool,
        failed: bool,
        received: Option<String>,
    },
    /// The full block that was asked for.
    FullBlock { block: Option<Block>, failed: bool },
    /// The reply to a transaction that was sent, and whether the escrow waits for one.
    TransactionSubmitted { error: Option<String>, claim_pending: bool },
    /// The node has introduced itself.
    Info,
    /// Anything that calls for nothing.
    Other,
}

/// What the miner does about a message.
pub enum Action {
    /// Ask for a block template.
    FetchTemplate,
    /// Ask for a block with its transactions.
    FetchBlock { hash: String },
    /// Ask to be told of new templates.
    RegisterForTemplates,
    /// Ask to be told of added blocks.
    RegisterForBlocks,
    /// Run a model on a request.
    StartInference { request: QueuedRequest },
    /// Store an answer and publish it.
    PublishAnswer { raw: Vec<u8>, answer: String },
    /// Look the message's block through for escrow, and send the claim that comes of it.
    CheckEscrow,
    /// Tell the escrow how its claim was received.
    ReportClaim { error: Option<String> },
    /// Mine on the message's block.
    Mine,
    /// Stop mining.
    Pause,
    /// Give up: the node refused to give a template.
    Fail,
}

/// The contents of a block.
#[verifier::ext_equal]
pub struct BlockView {
    pub transactions: Seq<TxView>,
    pub hash: Option<Seq<char>>,
    pub daa_score: Option<u64>,
}

/// The contents of a message.
#[verifier::ext_equal]
pub enum EventView {
    BlockAdded { block: Option<BlockView> },
    NewBlockTemplate,
    BlockTemplate {
        block: Option<BlockView>,
        is_synced: bool,
        failed: bool,
        received: Option<Seq<char>>,
    },
    FullBlock { block: Option<BlockView>, failed: bool },
    TransactionSubmitted { error: Option<Seq<char>>, claim_pending: bool },
    Info,
    Other,
}

/// The contents of an action.
#[verifier::ext_equal]
pub enum ActionView {
    FetchTemplate,
    FetchBlock { hash: Seq<char> },
    RegisterForTemplates,
    RegisterForBlocks,
    StartInference { request: RequestView },
    PublishAnswer { raw: Seq<u8>, answer: Seq<char> },
    CheckEscrow,
    ReportClaim { error: Option<Seq<char>> },
    Mine,
    Pause,
    Fail,
}

impl Block {
    /// The contents of a block whose transactions name the models `models`.
    pub open spec fn naming(&self, models: Seq<Option<[u8; 32]>>) -> BlockView {
        BlockView {
            transactions: txs_view(self.transactions@, models),
            hash: text_view(self.hash),
            daa_score: self.daa_score,
        }
    }
}

/// The contents of an optional block whose transactions name the models `models`.
pub open spec fn block_view(block: Option<Block>, models: Seq<Option<[u8; 32]>>) -> Option<
    BlockView,
> {
    match block {
        None => None,
        Some(b) => Some(b.naming(models)),
    }
}

impl Event {
    /// The transactions that a message is about.
    pub open spec fn transactions(&self) -> Seq<Tx> {
        match *self {
            Event::BlockAdded { block: Some(b) } => b.transactions@,
            Event::BlockTemplate { block: Some(b), .. } => b.transactions@,
            Event::FullBlock { block: Some(b), .. } => b.transactions@,
            _ => Seq::empty(),
        }
    }

    /// The contents of a message whose transactions name the models `models`.
    pub open spec fn naming(&self, models: Seq<Option<[u8; 32]>>) -> EventView {
        match *self {
            Event::BlockAdded { block } => EventView::BlockAdded {
                block: block_view(block, models),
            },
            Event::NewBlockTemplate => EventView::NewBlockTemplate,
            Event::BlockTemplate { block, is_synced, failed, received } => EventView::BlockTemplate {
                block: block_view(block, models),
                is_synced,
                failed,
                received: text_view(received),
            },
            Event::FullBlock { block, failed } => EventView::FullBlock {
                block: block_view(block, models),
                failed,
            },
            Event::TransactionSubmitted { error, claim_pending } => EventView::TransactionSubmitted {
                error: text_view(error),
                claim_pending,
            },
            Event::Info => EventView::Info,
            Event::Other => EventView::Other,
        }
    }

    /// What the lookup `find` gives for the models that the transactions of a message name.
    fn route_models<F: Fn(&String) -> Option<[u8; 32]>>(&self, find: &F) -> (models: Vec<
        Option<[u8; 32]>,
    >)
        requires
            forall|name: String| #[trigger] call_requires(*find, (&name,)),
        ensures
            are_routed(*find, self.transactions(), models@),
    {
        match self {
            Event::BlockAdded { block: Some(b) } => route_all(&b.transactions, find),
            Event::BlockTemplate { block: Some(b), .. } => route_all(&b.transactions, find),
            Event::FullBlock { block: Some(b), .. } => route_all(&b.transactions, find),
            _ => Vec::new(),
        }
    }
}

impl View for Action {
    type V = ActionView;

    open spec fn view(&self) -> ActionView {
        match *self {
            Action::FetchTemplate => ActionView::FetchTemplate,
            Action::FetchBlock { hash } => ActionView::FetchBlock { hash: hash@ },
            Action::RegisterForTemplates => ActionView::RegisterForTemplates,
            Action::RegisterForBlocks => ActionView::RegisterForBlocks,
            Action::StartInference { request } => ActionView::StartInference { request: request@ },
            Action::PublishAnswer { raw, answer } => ActionView::PublishAnswer {
                raw: raw@,
                answer: answer@,
            },
            Action::CheckEscrow => ActionView::CheckEscrow,
            Action::ReportClaim { error } => ActionView::ReportClaim { error: text_view(error) },
            Action::Mine => ActionView::Mine,
            Action::Pause => ActionView::Pause,
            Action::Fail => ActionView::Fail,
        }
    }
}

/// The contents of some actions.
pub open spec fn actions_view(actions: Seq<Action>) -> Seq<ActionView> {
    Seq::new(actions.len(), |i: int| actions[i]@)
}

/// What the miner knows while it talks to its node.
pub struct KeryxdHandler {
    /// Who is paid for blocks.
    pub miner_address: String,
    /// Whether to mine while the node is behind.
    pub mine_when_not_synced: bool,
    /// The development fund, where one is set.
    pub devfund_address: Option<String>,
    /// The fund's share, in hundredths of a percent.
    pub devfund_percent: u16,
    /// The requests that wait.
    pub pool: RequestPool,
    /// The payload of the request that a model works on.
    pub in_flight: Option<Vec<u8>>,
    /// The highest score of a template so far.
    pub last_known_daa: u64,
    /// The key that escrow is paid to, where there is one.
    pub escrow_pubkey: Option<String>,
    /// Whether the escrow is watched.
    pub watching: bool,
}

/// The contents of a handler.
#[verifier::ext_equal]
pub struct HandlerView {
    pub miner_address: Seq<char>,
    pub mine_when_not_synced: bool,
    pub devfund_address: Option<Seq<char>>,
    pub devfund_percent: u16,
    pub pool: PoolView,
    pub in_flight: Option<Seq<u8>>,
    pub last_known_daa: u64,
    pub escrow_pubkey: Option<Seq<char>>,
    pub watching: bool,
}

/// The contents of an optional payload.
pub open spec fn raw_view(raw: Option<Vec<u8>>) -> Option<Seq<u8>> {
    match raw {
        None => None,
        Some(b) => Some(b@),
    }
}

impl View for KeryxdHandler {
    type V = HandlerView;

    open spec fn view(&self) -> HandlerView {
        HandlerView {
            miner_address: self.miner_address@,
            mine_when_not_synced: self.mine_when_not_synced,
            devfund_address: text_view(self.devfund_address),
            devfund_percent: self.devfund_percent,
            pool: self.pool@,
            in_flight: raw_view(self.in_flight),
            last_known_daa: self.last_known_daa,
            escrow_pubkey: text_view(self.escrow_pubkey),
            watching: self.watching,
        }
    }
}

/// The request that is worked on next: the one that waits longest, where no other is in flight.
pub open spec fn next_request(h: HandlerView) -> Option<RequestView> {
    if h.in_flight is None && h.pool.queue.len() > 0 {
        Some(h.pool.queue[0])
    } else {
        None
    }
}

/// The handler once the next request, if there is one, is in flight.
pub open spec fn with_next_started(h: HandlerView) -> HandlerView {
    match next_request(h) {
        None => h,
        Some(r) => HandlerView {
            pool: PoolView { queue: h.pool.queue.drop_first(), ..h.pool },
            in_flight: Some(r.raw),
            ..h
        },
    }
}

/// The handler once some transactions were taken in.
pub open spec fn with_txs(h: HandlerView, txs: Seq<TxView>, loaded: Seq<Seq<u8>>) -> HandlerView {
    HandlerView { pool: scan_all(h.pool, txs, loaded), ..h }
}

/// The handler once a score was noticed: the highest one counts.
pub open spec fn with_score(h: HandlerView, daa_score: Option<u64>) -> HandlerView {
    match daa_score {
        Some(d) => if d > h.last_known_daa {
            HandlerView { last_known_daa: d, ..h }
        } else {
            h
        },
        None => h,
    }
}

/// What starting the next request calls for.
pub open spec fn start_actions(h: HandlerView) -> Seq<ActionView> {
    match next_request(h) {
        None => Seq::empty(),
        Some(r) => seq![ActionView::StartInference { request: r }],
    }
}

/// What a block of the chain calls for on the side of the escrow.
pub open spec fn escrow_actions(h: HandlerView) -> Seq<ActionView> {
    if h.watching {
        seq![ActionView::CheckEscrow]
    } else {
        Seq::empty()
    }
}

/// The transactions of an optional block.
pub open spec fn block_txs(block: Option<BlockView>) -> Seq<TxView> {
    match block {
        Some(b) => b.transactions,
        None => Seq::empty(),
    }
}

/// What a template calls for on the side of mining. A template that comes with an error is given
/// up on. Otherwise the miner mines on its block if the node is in step, or need not be, and
/// stops if it is not. A node that is in step and sends no block changes nothing.
pub open spec fn mining_actions(
    h: HandlerView,
    has_block: bool,
    is_synced: bool,
    failed: bool,
) -> Seq<ActionView> {
    if failed {
        seq![ActionView::Fail]
    } else if has_block && (is_synced || h.mine_when_not_synced) {
        seq![ActionView::Mine]
    } else if !is_synced {
        seq![ActionView::Pause]
    } else {
        Seq::empty()
    }
}

/// What the handler becomes, and does, on a block of the chain.
pub open spec fn on_chain_block(h: HandlerView, txs: Seq<TxView>, loaded: Seq<Seq<u8>>) -> (
    HandlerView,
    Seq<ActionView>,
) {
    let scanned = with_txs(h, txs, loaded);
    (with_next_started(scanned), start_actions(scanned) + escrow_actions(h))
}

/// What the handler becomes, and does, on a block template.
pub open spec fn on_template(
    h: HandlerView,
    block: Option<BlockView>,
    is_synced: bool,
    failed: bool,
    received: Option<Seq<char>>,
    loaded: Seq<Seq<u8>>,
) -> (HandlerView, Seq<ActionView>) {
    let scored = with_score(
        h,
        match block {
            Some(b) => b.daa_score,
            None => None,
        },
    );
    match (scored.in_flight, received) {
        (Some(raw), Some(answer)) => (
            HandlerView { in_flight: None, ..scored },
            seq![ActionView::PublishAnswer { raw, answer }, ActionView::FetchTemplate],
        ),
        _ => {
            let scanned = with_txs(scored, block_txs(block), loaded);
            (
                with_next_started(scanned),
                start_actions(scanned) + mining_actions(h, block is Some, is_synced, failed),
            )
        },
    }
}

/// What the handler becomes, and does, on a message.
pub open spec fn step(h: HandlerView, e: EventView, loaded: Seq<Seq<u8>>) -> (
    HandlerView,
    Seq<ActionView>,
) {
    match e {
        EventView::BlockAdded { block: Some(b) } => if b.transactions.len() > 0 {
            on_chain_block(h, b.transactions, loaded)
        } else {
            (
                h,
                match b.hash {
                    Some(hash) => if hash.len() > 0 {
                        seq![ActionView::FetchBlock { hash }]
                    } else {
                        Seq::empty()
                    },
                    None => Seq::empty(),
                },
            )
        },
        EventView::NewBlockTemplate => (h, seq![ActionView::FetchTemplate]),
        EventView::BlockTemplate { block, is_synced, failed, received } => on_template(
            h,
            block,
            is_synced,
            failed,
            received,
            loaded,
        ),
        EventView::FullBlock { block: Some(b), failed: false } => on_chain_block(
            h,
            b.transactions,
            loaded,
        ),
        EventView::TransactionSubmitted { error, claim_pending } => (
            h,
            if h.watching && claim_pending {
                seq![ActionView::ReportClaim { error }]
            } else {
                Seq::empty()
            },
        ),
        EventView::Info => (
            h,
            seq![
                ActionView::RegisterForTemplates,
                ActionView::RegisterForBlocks,
                ActionView::FetchTemplate,
            ],
        ),
        _ => (h, Seq::empty()),
    }
}

/// Whether a request for a template names who is to be paid at the counter `ctr`, and says in the
/// coinbase what it has to.
pub open spec fn asks_for(
    r: TemplateRequest,
    h: HandlerView,
    build: Seq<char>,
    ctr: u16,
    nonce: u64,
    tag: Seq<char>,
    loaded: Seq<Seq<u8>>,
) -> bool {
    &&& r.pay_address@ == payee(h.miner_address, h.devfund_address, h.devfund_percent, ctr)
    &&& r.extra_data@ == coinbase_text(build, h.escrow_pubkey, nonce, tag, loaded)
}

/// What is answered where there is no model to run.
pub const NO_ENGINE: &'static str = "[no engine for model]";

/// The answer to publish for what a model gave.
pub fn answer_text(result: Option<String>) -> (answer: String)
    ensures
        answer@ == match result {
            Some(text) => text@,
            None => NO_ENGINE@,
        },
{
    match result {
        Some(text) => text,
        None => String::from_str(NO_ENGINE),
    }
}

/// A transaction that carries an answer. It has no inputs and no outputs.
pub struct ResponseTx {
    pub version: u32,
    pub lock_time: u64,
    /// The subnetwork, in hexadecimal.
    pub subnetwork_id: String,
    pub gas: u64,
    /// The payload, in hexadecimal.
    pub payload: String,
    pub mass: u64,
}

/// A reward that is claimed once the time to challenge the answer is over.
pub struct EscrowClaim {
    /// The transaction that holds it.
    pub txid: String,
    /// The score at which the answer was given.
    pub daa_score: u64,
    /// How much it is.
    pub reward: u64,
}

/// What follows from an answer that was stored.
pub struct Publication {
    /// The transaction to send.
    pub tx: ResponseTx,
    /// How many words the answer has. The payload of a response has no place for it, so it is
    /// not sent.
    pub response_length: u32,
    /// The reward to watch.
    pub claim: Option<EscrowClaim>,
}

/// Whether a transaction carries the answer that is stored under `cid` to the request `raw`,
/// open to challenge until `window_end`.
pub open spec fn carries_answer(
    tx: ResponseTx,
    raw: Seq<u8>,
    window_end: u64,
    cid: Seq<u8>,
) -> bool {
    &&& tx.version == 0
    &&& tx.lock_time == 0
    &&& tx.gas == 0
    &&& tx.mass == 0
    &&& tx.subnetwork_id@ == SUBNETWORK_ID_AI_RESPONSE_HEX@
    &&& tx.payload@ == hex_text(
        payload_hash(raw) + crate::bytes::le_bytes(window_end as nat, 8) + cid,
    )
}

impl KeryxdHandler {
    /// A handler that has heard nothing yet.
    pub fn new(
        miner_address: String,
        mine_when_not_synced: bool,
        escrow_pubkey: Option<String>,
    ) -> (h: KeryxdHandler)
        ensures
            h@ == (HandlerView {
                miner_address: miner_address@,
                mine_when_not_synced,
                devfund_address: None,
                devfund_percent: 0,
                pool: (PoolView {
                    queue: Seq::empty(),
                    seen: Set::empty(),
                    txids: Map::empty(),
                }),
                in_flight: None,
                last_known_daa: 0,
                escrow_pubkey: text_view(escrow_pubkey),
                watching: escrow_pubkey is Some,
            }),
            pool_wf(h@.pool),
    {
        let watching = escrow_pubkey.is_some();
        KeryxdHandler {
            miner_address,
            mine_when_not_synced,
            devfund_address: None,
            devfund_percent: 0,
            pool: RequestPool::new(),
            in_flight: None,
            last_known_daa: 0,
            escrow_pubkey,
            watching,
        }
    }

    /// Sets the development fund and its share.
    pub fn add_devfund(&mut self, address: String, percent: u16)
        ensures
            final(self)@ == (HandlerView {
                devfund_address: Some(address@),
                devfund_percent: percent,
                ..old(self)@
            }),
    {
        self.devfund_address = Some(address);
        self.devfund_percent = percent;
    }

    /// The request for the next block template, where the counter stands at `ctr`. The coinbase
    /// has a random nonce, so that blocks that are mined side by side do not share one, and the
    /// tag that `tag_fixed` gives for it.
    pub fn client_get_block_template<F: Fn(u64) -> String>(
        &self,
        build: &str,
        ctr: u16,
        loaded: &Vec<[u8; 32]>,
        tag_fixed: F,
    ) -> (r: TemplateRequest)
        requires
            forall|nonce: u64| call_requires(tag_fixed, (nonce,)),
        ensures
            exists|nonce: u64, tag: String| #[trigger]
                call_ensures(tag_fixed, (nonce,), tag) && asks_for(
                    r,
                    self@,
                    build@,
                    ctr,
                    nonce,
                    tag@,
                    ids_view(loaded@),
                ),
    {
        let nonce: u64 = draw();
        let digits = nonce_hex(nonce);
        proof {
            law_nonce_roundtrip(nonce);
        }
        let tag = compute_opoi_tag(digits.as_str(), tag_fixed);
        let r = self.template_request(build, ctr, nonce, tag.as_str(), loaded);
        assert(call_ensures(tag_fixed, (nonce,), tag) && asks_for(
            r,
            self@,
            build@,
            ctr,
            nonce,
            tag@,
            ids_view(loaded@),
        ));
        r
    }

    /// The request for the next block template, where the counter stands at `ctr`, with a given
    /// nonce and tag.
    pub fn template_request(
        &self,
        build: &str,
        ctr: u16,
        nonce: u64,
        tag: &str,
        loaded: &Vec<[u8; 32]>,
    ) -> (r: TemplateRequest)
        ensures
            asks_for(r, self@, build@, ctr, nonce, tag@, ids_view(loaded@)),
    {
        let pay_address = match &self.devfund_address {
            Some(fund) => if ctr <= self.devfund_percent {
                fund.clone()
            } else {
                self.miner_address.clone()
            },
            None => self.miner_address.clone(),
        };
        TemplateRequest {
            pay_address,
            extra_data: extra_data(build, &self.escrow_pubkey, nonce, tag, loaded),
        }
    }

    /// Puts the next request in flight, where no other is, and gives it out.
    pub fn try_start_inference(&mut self) -> (r: Option<QueuedRequest>)
        ensures
            final(self)@ == with_next_started(old(self)@),
            r is Some <==> next_request(old(self)@) is Some,
            r matches Some(q) ==> next_request(old(self)@) == Some(q@),
    {
        let ghost before = self@;
        if self.in_flight.is_some() {
            return None;
        }
        match self.pool.take_next() {
            None => {
                assert(self@ =~= before);
                None
            },
            Some(q) => {
                let raw = crate::bytes::copy_range(q.raw.as_slice(), 0, q.raw.len());
                assert(raw@ =~= q.raw@);
                self.in_flight = Some(raw);
                assert(self@ =~= with_next_started(before));
                Some(q)
            },
        }
    }

    /// Takes the request in flight back where its answer has come.
    pub fn poll_inference(&mut self, received: &Option<String>) -> (done: Option<(Vec<u8>, String)>)
        ensures
            match (old(self)@.in_flight, *received) {
                (Some(raw), Some(answer)) => {
                    &&& done matches Some((r, a)) && r@ == raw && a@ == answer@
                    &&& final(self)@ == (HandlerView { in_flight: None, ..old(self)@ })
                },
                _ => done is None && final(self)@ == old(self)@,
            },
    {
        match received {
            None => None,
            Some(answer) => match self.in_flight.take() {
                None => None,
                Some(raw) => Some((raw, answer.clone())),
            },
        }
    }

    /// Keeps the highest score so far.
    fn note_score(&mut self, daa_score: Option<u64>)
        ensures
            final(self)@ == with_score(old(self)@, daa_score),
    {
        if let Some(d) = daa_score {
            if d > self.last_known_daa {
                self.last_known_daa = d;
            }
        }
    }

    /// Starts the next request, and adds what that calls for.
    fn start_into(&mut self, actions: &mut Vec<Action>)
        ensures
            final(self)@ == with_next_started(old(self)@),
            actions_view(final(actions)@) == actions_view(old(actions)@) + start_actions(
                old(self)@,
            ),
    {
        let ghost before = self@;
        let ghost prev = actions_view(actions@);
        match self.try_start_inference() {
            None => {
                assert(actions_view(actions@) =~= prev + start_actions(before));
            },
            Some(request) => {
                actions.push(Action::StartInference { request });
                assert(actions_view(actions@) =~= prev + start_actions(before));
            },
        }
    }

    /// Takes in a block of the chain whose transactions name the models `models`.
    fn take_chain_block(
        &mut self,
        txs: &Vec<Tx>,
        models: &Vec<Option<[u8; 32]>>,
        loaded: &Vec<[u8; 32]>,
    ) -> (actions: Vec<Action>)
        requires
            models@.len() == txs@.len(),
        ensures
            (final(self)@, actions_view(actions@)) == on_chain_block(
                old(self)@,
                txs_view(txs@, models@),
                ids_view(loaded@),
            ),
    {
        let ghost before = self@;
        self.pool.scan_routed_txs(txs, models, loaded);
        assert(self@ =~= with_txs(before, txs_view(txs@, models@), ids_view(loaded@)));
        let mut actions: Vec<Action> = Vec::new();
        self.start_into(&mut actions);
        if self.watching {
            actions.push(Action::CheckEscrow);
        }
        assert(actions_view(actions@) =~= on_chain_block(
            before,
            txs_view(txs@, models@),
            ids_view(loaded@),
        ).1);
        actions
    }

    /// Takes in a block template whose transactions name the models `models`.
    fn take_template(
        &mut self,
        block: &Option<Block>,
        is_synced: bool,
        failed: bool,
        received: &Option<String>,
        models: &Vec<Option<[u8; 32]>>,
        loaded: &Vec<[u8; 32]>,
    ) -> (actions: Vec<Action>)
        requires
            *block matches Some(b) ==> models@.len() == b.transactions@.len(),
        ensures
            (final(self)@, actions_view(actions@)) == on_template(
                old(self)@,
                block_view(*block, models@),
                is_synced,
                failed,
                text_view(*received),
                ids_view(loaded@),
            ),
    {
        let ghost before = self@;
        let ghost expected = on_template(
            before,
            block_view(*block, models@),
            is_synced,
            failed,
            text_view(*received),
            ids_view(loaded@),
        );
        if let Some(b) = block {
            self.note_score(b.daa_score);
        }
        let mut actions: Vec<Action> = Vec::new();
        if let Some((raw, answer)) = self.poll_inference(received) {
            actions.push(Action::PublishAnswer { raw, answer });
            actions.push(Action::FetchTemplate);
            assert(actions_view(actions@) =~= expected.1);
            return actions;
        }
        let ghost scored = self@;
        if let Some(b) = block {
            self.pool.scan_routed_txs(&b.transactions, models, loaded);
        }
        assert(self@ =~= with_txs(scored, block_txs(block_view(*block, models@)), ids_view(loaded@)));
        self.start_into(&mut actions);
        if failed {
            actions.push(Action::Fail);
        } else if block.is_some() && (is_synced || self.mine_when_not_synced) {
            actions.push(Action::Mine);
        } else if !is_synced {
            actions.push(Action::Pause);
        }
        assert(actions_view(actions@) =~= expected.1);
        actions
    }

    /// What to do about a message, in order, where the `loaded` models can be run. The lookup
    /// `find` gives the ids of the models that JSON payloads name.
    pub fn handle_message<F: Fn(&String) -> Option<[u8; 32]>>(
        &mut self,
        event: &Event,
        loaded: &Vec<[u8; 32]>,
        find: F,
    ) -> (actions: Vec<Action>)
        requires
            forall|name: String| #[trigger] call_requires(find, (&name,)),
        ensures
            exists|models: Seq<Option<[u8; 32]>>| #[trigger]
                are_routed(find, event.transactions(), models) && (
                final(self)@,
                actions_view(actions@),
            ) == step(old(self)@, event.naming(models), ids_view(loaded@)),
    {
        let models = event.route_models(&find);
        let actions = self.handle_routed(event, &models, loaded);
        assert(are_routed(find, event.transactions(), models@));
        actions
    }

    /// What to do about a message, in order, whose transactions name the models `models`.
    pub fn handle_routed(
        &mut self,
        event: &Event,
        models: &Vec<Option<[u8; 32]>>,
        loaded: &Vec<[u8; 32]>,
    ) -> (actions: Vec<Action>)
        requires
            models@.len() == event.transactions().len(),
        ensures
            (final(self)@, actions_view(actions@)) == step(
                old(self)@,
                event.naming(models@),
                ids_view(loaded@),
            ),
    {
        let ghost expected = step(self@, event.naming(models@), ids_view(loaded@));
        let mut actions: Vec<Action> = Vec::new();
        match event {
            Event::BlockAdded { block } => {
                if let Some(b) = block {
                    if b.transactions.len() > 0 {
                        return self.take_chain_block(&b.transactions, models, loaded);
                    }
                    if let Some(hash) = &b.hash {
                        if hash.as_str().unicode_len() > 0 {
                            actions.push(Action::FetchBlock { hash: hash.clone() });
                        }
                    }
                }
            },
            Event::NewBlockTemplate => {
                actions.push(Action::FetchTemplate);
            },
            Event::BlockTemplate { block, is_synced, failed, received } => {
                return self.take_template(block, *is_synced, *failed, received, models, loaded);
            },
            Event::FullBlock { block, failed } => {
                if !*failed {
                    if let Some(b) = block {
                        return self.take_chain_block(&b.transactions, models, loaded);
                    }
                }
            },
            Event::TransactionSubmitted { error, claim_pending } => {
                if self.watching && *claim_pending {
                    let reply = match error {
                        None => None,
                        Some(e) => Some(e.clone()),
                    };
                    actions.push(Action::ReportClaim { error: reply });
                }
            },
            Event::Info => {
                actions.push(Action::RegisterForTemplates);
                actions.push(Action::RegisterForBlocks);
                actions.push(Action::FetchTemplate);
            },
            Event::Other => {},
        }
        assert(actions_view(actions@) =~= expected.1);
        actions
    }

    /// What follows from storing an answer to the request `raw`. Where it could not be stored
    /// nothing does. Otherwise the answer is sent under its `cid`, and the reward that is
    /// remembered for the request is claimed, if there is one and the escrow is watched.
    pub fn publish_answer(
        &mut self,
        raw: &Vec<u8>,
        answer: &String,
        cid: Option<Vec<u8>>,
    ) -> (p: Option<Publication>)
        requires
            cid is Some ==> old(self).last_known_daa + CHALLENGE_WINDOW <= u64::MAX,
        ensures
            match cid {
                None => p is None && final(self)@ == old(self)@,
                Some(c) => {
                    let id = payload_id(raw@);
                    let txids = old(self)@.pool.txids;
                    &&& p matches Some(got) && {
                        &&& carries_answer(
                            got.tx,
                            raw@,
                            (old(self)@.last_known_daa + CHALLENGE_WINDOW) as u64,
                            c@,
                        )
                        &&& got.response_length == word_count(answer@) as u32
                        &&& match got.claim {
                            Some(k) => {
                                &&& old(self)@.watching
                                &&& txids.contains_key(id)
                                &&& (k.txid@, k.reward) == txids[id]
                                &&& k.daa_score == old(self)@.last_known_daa
                            },
                            None => !old(self)@.watching || !txids.contains_key(id),
                        }
                    }
                    &&& final(self)@ == (HandlerView {
                        pool: PoolView { txids: txids.remove(id), ..old(self)@.pool },
                        ..old(self)@
                    })
                },
            },
    {
        let result = match cid {
            None => {
                return None;
            },
            Some(c) => c,
        };
        let hash = request_hash(raw.as_slice());
        let window_end: u64 = self.last_known_daa + CHALLENGE_WINDOW;
        let words: usize = count_words(answer.as_str());
        let response = AiResponsePayload::new(hash, window_end, result);
        let bytes = response.serialize();
        let tx = ResponseTx {
            version: 0,
            lock_time: 0,
            subnetwork_id: String::from_str(SUBNETWORK_ID_AI_RESPONSE_HEX),
            gas: 0,
            payload: encode(bytes.as_slice()),
            mass: 0,
        };
        let id: u64 = stable_id(raw.as_slice());
        let claim = match self.pool.take_receipt(id) {
            None => None,
            Some((txid, reward)) => if self.watching {
                Some(EscrowClaim { txid, daa_score: self.last_known_daa, reward })
            } else {
                None
            },
        };
        Some(Publication { tx, response_length: words as u32, claim })
    }
}

/// The score only ever grows.
pub proof fn law_score_never_falls(h: HandlerView, e: EventView, loaded: Seq<Seq<u8>>)
    ensures
        h.last_known_daa <= step(h, e, loaded).0.last_known_daa,
{
}

/// A message of the chain never makes the miner ask for a template: only news of a template, a
/// finished answer and the node's introduction do.
pub proof fn law_added_blocks_fetch_no_template(
    h: HandlerView,
    block: Option<BlockView>,
    failed: bool,
    loaded: Seq<Seq<u8>>,
)
    ensures
        !step(h, EventView::BlockAdded { block }, loaded).1.contains(ActionView::FetchTemplate),
        !step(h, EventView::FullBlock { block, failed }, loaded).1.contains(
            ActionView::FetchTemplate,
        ),
{
}

/// At most one request is in flight: a model is started only where nothing was in flight, it is
/// the first thing that is done, and its request is in flight from then on.
pub proof fn law_one_request_in_flight(
    h: HandlerView,
    e: EventView,
    loaded: Seq<Seq<u8>>,
    i: int,
    request: RequestView,
)
    requires
        0 <= i < step(h, e, loaded).1.len(),
        step(h, e, loaded).1[i] == (ActionView::StartInference { request }),
    ensures
        i == 0,
        h.in_flight is None,
        step(h, e, loaded).0.in_flight == Some(request.raw),
{
}

/// A request stays in flight until its answer has come and is published.
pub proof fn law_request_in_flight_is_answered(
    h: HandlerView,
    e: EventView,
    loaded: Seq<Seq<u8>>,
    raw: Seq<u8>,
)
    requires
        h.in_flight == Some(raw),
    ensures
        match e {
            EventView::BlockTemplate { received: Some(answer), .. } => {
                &&& step(h, e, loaded).0.in_flight is None
                &&& step(h, e, loaded).1[0] == (ActionView::PublishAnswer { raw, answer })
            },
            _ => step(h, e, loaded).0.in_flight == Some(raw),
        },
{
}

/// The ids of the requests that some actions start.
pub open spec fn started_by(actions: Seq<ActionView>) -> Set<u64> {
    if actions.len() > 0 && actions[0] is StartInference {
        set![actions[0]->request.id]
    } else {
        Set::empty()
    }
}

/// Whether a handler that has started the requests `started` accounts for them: they are all
/// known, and none of them waits.
pub open spec fn accounts_for(h: HandlerView, started: Set<u64>) -> bool {
    &&& pool_wf(h.pool)
    &&& started.subset_of(h.pool.seen)
    &&& forall|i: int|
        0 <= i < h.pool.queue.len() ==> !started.contains(#[trigger] h.pool.queue[i].id)
}

proof fn lemma_scan_accounts(h: HandlerView, txs: Seq<TxView>, loaded: Seq<Seq<u8>>, started: Set<u64>)
    requires
        accounts_for(h, started),
    ensures
        accounts_for(with_txs(h, txs, loaded), started),
    decreases txs.len(),
{
    if txs.len() > 0 {
        lemma_scan_accounts(h, txs.drop_last(), loaded, started);
    }
}

proof fn lemma_start_accounts(h: HandlerView, started: Set<u64>)
    requires
        accounts_for(h, started),
    ensures
        accounts_for(
            with_next_started(h),
            started.union(
                match next_request(h) {
                    Some(r) => set![r.id],
                    None => Set::empty(),
                },
            ),
        ),
        next_request(h) matches Some(r) ==> !started.contains(r.id),
{
    match next_request(h) {
        None => {
            assert(started.union(Set::empty()) =~= started);
        },
        Some(r) => {
            law_take_keeps_pool_wf(h.pool);
            let next = with_next_started(h);
            assert forall|i: int| 0 <= i < next.pool.queue.len() implies !started.union(
                set![r.id],
            ).contains(#[trigger] next.pool.queue[i].id) by {
                assert(next.pool.queue[i] == h.pool.queue[i + 1]);
                assert(h.pool.queue[0].id != h.pool.queue[i + 1].id);
            }
        },
    }
}

/// No request is ever started twice, whatever messages come.
pub proof fn law_no_request_is_started_twice(
    h: HandlerView,
    e: EventView,
    loaded: Seq<Seq<u8>>,
    started: Set<u64>,
)
    requires
        accounts_for(h, started),
    ensures
        started.disjoint(started_by(step(h, e, loaded).1)),
        accounts_for(step(h, e, loaded).0, started.union(started_by(step(h, e, loaded).1))),
{
    let (next, actions) = step(h, e, loaded);
    assert(started.union(Set::empty()) =~= started);
    match e {
        EventView::BlockAdded { block: Some(b) } => {
            lemma_scan_accounts(h, b.transactions, loaded, started);
            lemma_start_accounts(with_txs(h, b.transactions, loaded), started);
        },
        EventView::FullBlock { block: Some(b), failed: false } => {
            lemma_scan_accounts(h, b.transactions, loaded, started);
            lemma_start_accounts(with_txs(h, b.transactions, loaded), started);
        },
        EventView::BlockTemplate { block, is_synced, failed, received } => {
            let scored = with_score(
                h,
                match block {
                    Some(b) => b.daa_score,
                    None => None,
                },
            );
            assert(accounts_for(scored, started));
            lemma_scan_accounts(scored, block_txs(block), loaded, started);
            lemma_start_accounts(with_txs(scored, block_txs(block), loaded), started);
        },
        _ => {},
    }
}

/// What a template means for mining, where no answer has come. A template with an error is given
/// up on and nothing else; the miner mines exactly where there is a block and the node is in
/// step or need not be, and stops exactly where it does not mine and the node is not in step.
pub proof fn law_template_decides_mining(
    h: HandlerView,
    block: Option<BlockView>,
    is_synced: bool,
    failed: bool,
    loaded: Seq<Seq<u8>>,
)
    ensures
        ({
            let e = EventView::BlockTemplate { block, is_synced, failed, received: None };
            let actions = step(h, e, loaded).1;
            let mines = !failed && block is Some && (is_synced || h.mine_when_not_synced);
            &&& actions.contains(ActionView::Fail) <==> failed
            &&& actions.contains(ActionView::Mine) <==> mines
            &&& actions.contains(ActionView::Pause) <==> !failed && !mines && !is_synced
            &&& !actions.contains(ActionView::FetchTemplate)
        }),
{
    let e = EventView::BlockTemplate { block, is_synced, failed, received: None };
    let actions = step(h, e, loaded).1;
    let scored = with_score(
        h,
        match block {
            Some(b) => b.daa_score,
            None => None,
        },
    );
    let first = start_actions(with_txs(scored, block_txs(block), loaded));
    let last = mining_actions(h, block is Some, is_synced, failed);
    assert(actions == first + last);
    if last.len() > 0 {
        assert(actions[first.len() as int] == last[0]);
    }
}

/// The score after a template is the highest of the one before and the template's own.
pub proof fn law_highest_score_is_kept(
    h: HandlerView,
    b: BlockView,
    score: u64,
    is_synced: bool,
    failed: bool,
    received: Option<Seq<char>>,
    loaded: Seq<Seq<u8>>,
)
    requires
        b.daa_score == Some(score),
    ensures
        ({
            let e = EventView::BlockTemplate { block: Some(b), is_synced, failed, received };
            let after = step(h, e, loaded).0.last_known_daa;
            &&& after >= score
            &&& after >= h.last_known_daa
            &&& after == score || after == h.last_known_daa
        }),
{
}

/// The request that waits longest is worked on next, whatever a block of the chain brings.
pub proof fn law_oldest_request_is_started(h: HandlerView, b: BlockView, loaded: Seq<Seq<u8>>)
    requires
        h.in_flight is None,
        h.pool.queue.len() > 0,
        b.transactions.len() > 0,
    ensures
        ({
            let (after, actions) = step(h, EventView::BlockAdded { block: Some(b) }, loaded);
            &&& actions.len() > 0
            &&& actions[0] == (ActionView::StartInference { request: h.pool.queue[0] })
            &&& after.in_flight == Some(h.pool.queue[0].raw)
            &&& h.pool.queue.drop_first().is_prefix_of(after.pool.queue)
        }),
{
    law_scan_appends(h.pool, b.transactions, loaded);
    let scanned = scan_all(h.pool, b.transactions, loaded).queue;
    assert(scanned[0] == h.pool.queue[0]);
    assert(h.pool.queue.drop_first() =~= scanned.drop_first().subrange(
        0,
        h.pool.queue.len() - 1,
    ));
}

/// Every block of the chain that comes with transactions is looked through for escrow where it is
/// watched, and one that comes without is fetched by its hash.
pub proof fn law_chain_blocks_are_looked_at(h: HandlerView, b: BlockView, loaded: Seq<Seq<u8>>)
    ensures
        ({
            let added = step(h, EventView::BlockAdded { block: Some(b) }, loaded);
            let full = step(h, EventView::FullBlock { block: Some(b), failed: false }, loaded);
            &&& b.transactions.len() > 0 ==> added == full
            &&& full.1.contains(ActionView::CheckEscrow) <==> h.watching
            &&& full.0.pool.seen == scan_all(h.pool, b.transactions, loaded).seen
            &&& full.0.pool.txids == scan_all(h.pool, b.transactions, loaded).txids
            &&& b.transactions.len() == 0 && b.hash is Some && b.hash->0.len() > 0 ==> added.1
                == seq![ActionView::FetchBlock { hash: b.hash->0 }]
            &&& b.transactions.len() == 0 ==> added.0 == h
        }),
{
    let scanned = with_txs(h, b.transactions, loaded);
    let actions = step(h, EventView::FullBlock { block: Some(b), failed: false }, loaded).1;
    let first = start_actions(scanned);
    assert(actions == first + escrow_actions(h));
    if h.watching {
        assert(actions[first.len() as int] == ActionView::CheckEscrow);
    }
}

/// What is sent can be read: from a transaction that carries an answer, of an accepted length,
/// the request, the end of the window and the content id are read back.
pub proof fn law_answer_is_read_back(
    tx: ResponseTx,
    raw: Seq<u8>,
    window_end: u64,
    cid: Seq<u8>,
    back: AiResponsePayload,
)
    requires
        carries_answer(tx, raw, window_end, cid),
        is_hex(tx.payload@),
        reads_response(hex_bytes(tx.payload@), Some(back)),
    ensures
        payload_hash(raw).len() == 32 ==> {
            &&& back.request_hash@ == payload_hash(raw)
            &&& back.challenge_window_end == window_end
            &&& back.result@ == cid
        },
{
    let d = payload_hash(raw) + le_bytes(window_end as nat, 8) + cid;
    law_hex_roundtrip(d);
    lemma_pow256_machine();
    lemma_le_value_of_bytes(window_end as nat, 8);
    if payload_hash(raw).len() == 32 {
        assert(d.subrange(0, 32) =~= payload_hash(raw));
        assert(d.subrange(32, 40) =~= le_bytes(window_end as nat, 8));
        assert(d.subrange(40, d.len() as int) =~= cid);
    }
}

/// Messages without transactions leave the handler as it is. News of a template makes it ask for
/// one; the node's introduction makes it register and ask; the node's reply to a transaction is
/// reported exactly where a claim waits for it.
pub proof fn law_notices_are_answered(
    h: HandlerView,
    error: Option<Seq<char>>,
    claim_pending: bool,
    loaded: Seq<Seq<u8>>,
)
    ensures
        ({
            let news = step(h, EventView::NewBlockTemplate, loaded);
            let info = step(h, EventView::Info, loaded);
            let reply = step(h, EventView::TransactionSubmitted { error, claim_pending }, loaded);
            let other = step(h, EventView::Other, loaded);
            &&& news.0 == h && info.0 == h && reply.0 == h && other.0 == h
            &&& news.1 == seq![ActionView::FetchTemplate]
            &&& info.1.contains(ActionView::RegisterForTemplates)
            &&& info.1.contains(ActionView::RegisterForBlocks)
            &&& info.1.contains(ActionView::FetchTemplate)
            &&& info.1.len() == 3
            &&& h.watching && claim_pending ==> reply.1 == seq![ActionView::ReportClaim { error }]
            &&& !h.watching || !claim_pending ==> reply.1.len() == 0
            &&& other.1.len() == 0
        }),
{
    let info = step(h, EventView::Info, loaded).1;
    assert(info[0] == ActionView::RegisterForTemplates);
    assert(info[1] == ActionView::RegisterForBlocks);
    assert(info[2] == ActionView::FetchTemplate);
}

/// A template without an answer takes in its transactions as a block of the chain does: what
/// waits, what is known and what is in flight come out the same.
pub proof fn law_template_transactions_are_taken_in(
    h: HandlerView,
    b: BlockView,
    is_synced: bool,
    failed: bool,
    loaded: Seq<Seq<u8>>,
)
    ensures
        ({
            let e = EventView::BlockTemplate { block: Some(b), is_synced, failed, received: None };
            let template = step(h, e, loaded);
            let chain = step(h, EventView::FullBlock { block: Some(b), failed: false }, loaded);
            &&& template.0.pool == chain.0.pool
            &&& template.0.in_flight == chain.0.in_flight
            &&& chain.0.last_known_daa == h.last_known_daa
        }),
{
}

/// An answer that has come is all that a template is used for: it is published, another template
/// is asked for, and what waits is left alone.
pub proof fn law_answer_is_published_first(
    h: HandlerView,
    block: Option<BlockView>,
    is_synced: bool,
    failed: bool,
    raw: Seq<u8>,
    answer: Seq<char>,
    loaded: Seq<Seq<u8>>,
)
    requires
        h.in_flight == Some(raw),
    ensures
        ({
            let e = EventView::BlockTemplate { block, is_synced, failed, received: Some(answer) };
            let (after, actions) = step(h, e, loaded);
            &&& actions.len() == 2
            &&& actions[0] == (ActionView::PublishAnswer { raw, answer })
            &&& actions[1] == ActionView::FetchTemplate
            &&& after.in_flight is None
            &&& after.pool == h.pool
        }),
{
}

/// A block that could not be fetched, and a message without one, change nothing.
pub proof fn law_missing_blocks_change_nothing(
    h: HandlerView,
    block: Option<BlockView>,
    loaded: Seq<Seq<u8>>,
)
    ensures
        step(h, EventView::FullBlock { block, failed: true }, loaded).0 == h,
        step(h, EventView::FullBlock { block, failed: true }, loaded).1.len() == 0,
        step(h, EventView::FullBlock { block: None, failed: false }, loaded).0 == h,
        step(h, EventView::FullBlock { block: None, failed: false }, loaded).1.len() == 0,
        step(h, EventView::BlockAdded { block: None }, loaded).0 == h,
        step(h, EventView::BlockAdded { block: None }, loaded).1.len() == 0,
{
}

/// Who is paid and what is said are settled once for all messages: no message changes the
/// addresses, the share, the escrow key or how the handler was set up.
pub proof fn law_messages_keep_the_setup(h: HandlerView, e: EventView, loaded: Seq<Seq<u8>>)
    ensures
        ({
            let after = step(h, e, loaded).0;
            &&& after.miner_address == h.miner_address
            &&& after.devfund_address == h.devfund_address
            &&& after.devfund_percent == h.devfund_percent
            &&& after.escrow_pubkey == h.escrow_pubkey
            &&& after.watching == h.watching
            &&& after.mine_when_not_synced == h.mine_when_not_synced
        }),
{
}

/// The request for a template pays the fund where it is its turn and the miner otherwise, and
/// says the nonce after the build and the escrow key.
pub proof fn law_template_pays_and_tells(
    r: TemplateRequest,
    h: HandlerView,
    build: Seq<char>,
    ctr: u16,
    nonce: u64,
    tag: Seq<char>,
    loaded: Seq<Seq<u8>>,
)
    requires
        asks_for(r, h, build, ctr, nonce, tag, loaded),
    ensures
        h.devfund_address is None || ctr > h.devfund_percent ==> r.pay_address@ == h.miner_address,
        h.devfund_address matches Some(fund) ==> ctr <= h.devfund_percent ==> r.pay_address@
            == fund,
        ({
            let at = build.len() + match h.escrow_pubkey {
                Some(pk) => 8 + pk.len() as int,
                None => 0,
            } + 1;
            nonce_value(r.extra_data@.subrange(at, at + 16)) == nonce
        }),
{
    law_coinbase_says_everything(build, h.escrow_pubkey, nonce, tag, loaded);
}

} // verus!
