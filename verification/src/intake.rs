//! The intake of requests for inference: which transactions ask for it, and in what order they
//! are answered.

use vstd::prelude::*;
use vstd::string::*;
use std::collections::{HashMap, HashSet, VecDeque};
use crate::bytes::{eq32, le_bytes, le_value, lemma_le_value_of_bytes, lemma_pow256_machine};
use crate::hextext::{decode, hex_bytes, hex_text, is_hex, law_hex_roundtrip};
use crate::payload::{AiRequestPayload, SUBNETWORK_ID_AI_REQUEST_HEX, request_bytes, request_len_ok};
use crate::request::{krx_marker, named_request, parse_krx_ai_payload, payload_id, stable_id};
use crate::text::{json_members, lossy_text, text_view, utf8_text_lossy};

verus! {

broadcast use vstd::std_specs::hash::group_hash_axioms;

/// What of a transaction decides whether it asks for inference.
pub struct Tx {
    /// The subnetwork, in hexadecimal.
    pub subnetwork_id: String,
    /// The payload, in hexadecimal.
    pub payload: String,
    /// How many inputs it spends. A coinbase has none.
    pub inputs: usize,
    /// Its id, where the node gives it.
    pub transaction_id: Option<String>,
}

/// A request in the queue.
pub struct QueuedRequest {
    /// What it is known by.
    pub id: u64,
    /// The payload.
    pub raw: Vec<u8>,
    /// The model that is asked.
    pub model_id: [u8; 32],
    /// What it is asked.
    pub prompt: String,
    /// How long the answer may be.
    pub max_tokens: usize,
}

/// The requests that wait, those that were ever taken in, and the rewards that are held in
/// escrow for them.
pub struct RequestPool {
    /// The requests that wait, the next one first.
    pub queue: VecDeque<QueuedRequest>,
    /// The ids of all requests that were ever queued.
    pub seen: HashSet<u64>,
    /// Transaction and reward of the requests that pay one.
    pub txids: HashMap<u64, (String, u64)>,
}

/// The contents of a transaction, with the id of the model that it names, where that model is
/// known.
#[verifier::ext_equal]
pub struct TxView {
    pub subnetwork_id: Seq<char>,
    pub payload: Seq<char>,
    pub inputs: nat,
    pub transaction_id: Option<Seq<char>>,
    pub named_model: Option<Seq<u8>>,
}

/// The contents of a queued request.
#[verifier::ext_equal]
pub struct RequestView {
    pub id: u64,
    pub raw: Seq<u8>,
    pub model_id: Seq<u8>,
    pub prompt: Seq<char>,
    pub max_tokens: usize,
}

/// The contents of a pool.
#[verifier::ext_equal]
pub struct PoolView {
    pub queue: Seq<RequestView>,
    pub seen: Set<u64>,
    pub txids: Map<u64, (Seq<char>, u64)>,
}

/// What a transaction offers: a request, and the reward for answering it.
#[verifier::ext_equal]
pub struct OfferView {
    pub raw: Seq<u8>,
    pub model_id: Seq<u8>,
    pub prompt: Seq<char>,
    pub max_tokens: usize,
    pub reward: u64,
}

/// What a transaction offers.
pub struct Offer {
    pub raw: Vec<u8>,
    pub model_id: [u8; 32],
    pub prompt: String,
    pub max_tokens: usize,
    pub reward: u64,
}

/// The contents of an optional id.
pub open spec fn id_view(id: Option<[u8; 32]>) -> Option<Seq<u8>> {
    match id {
        None => None,
        Some(b) => Some(b@),
    }
}

/// The contents of some ids.
pub open spec fn ids_view(ids: Seq<[u8; 32]>) -> Seq<Seq<u8>> {
    Seq::new(ids.len(), |i: int| ids[i]@)
}

impl Tx {
    /// The contents of a transaction that names the model `model`.
    pub open spec fn naming(&self, model: Option<[u8; 32]>) -> TxView {
        TxView {
            subnetwork_id: self.subnetwork_id@,
            payload: self.payload@,
            inputs: self.inputs as nat,
            transaction_id: text_view(self.transaction_id),
            named_model: id_view(model),
        }
    }

    /// The name of the model that a transaction asks for by name: one with inputs, outside the
    /// request subnetwork, with a JSON payload.
    pub open spec fn asked_name(&self) -> Option<Seq<char>> {
        if self.subnetwork_id@ != SUBNETWORK_ID_AI_REQUEST_HEX@ && self.inputs > 0 && is_hex(
            self.payload@,
        ) {
            match named_request(hex_bytes(self.payload@)) {
                Some((model, _, _)) => Some(model),
                None => None,
            }
        } else {
            None
        }
    }
}

/// Whether `model` is what the lookup `find` gave for the name that a transaction asks for. One
/// that asks for none is not looked up.
pub open spec fn is_routed<F: Fn(&String) -> Option<[u8; 32]>>(
    find: F,
    tx: Tx,
    model: Option<[u8; 32]>,
) -> bool {
    match tx.asked_name() {
        Some(asked) => exists|name: String|
            name@ == asked && #[trigger] call_ensures(find, (&name,), model),
        None => model is None,
    }
}

/// Whether `models` are what the lookup `find` gave for some transactions, one by one.
pub open spec fn are_routed<F: Fn(&String) -> Option<[u8; 32]>>(
    find: F,
    txs: Seq<Tx>,
    models: Seq<Option<[u8; 32]>>,
) -> bool {
    &&& models.len() == txs.len()
    &&& forall|i: int| 0 <= i < txs.len() ==> is_routed(find, txs[i], #[trigger] models[i])
}

impl View for QueuedRequest {
    type V = RequestView;

    open spec fn view(&self) -> RequestView {
        RequestView {
            id: self.id,
            raw: self.raw@,
            model_id: self.model_id@,
            prompt: self.prompt@,
            max_tokens: self.max_tokens,
        }
    }
}

impl View for Offer {
    type V = OfferView;

    open spec fn view(&self) -> OfferView {
        OfferView {
            raw: self.raw@,
            model_id: self.model_id@,
            prompt: self.prompt@,
            max_tokens: self.max_tokens,
            reward: self.reward,
        }
    }
}

/// The contents of some transactions that name the models `models`.
pub open spec fn txs_view(txs: Seq<Tx>, models: Seq<Option<[u8; 32]>>) -> Seq<TxView> {
    Seq::new(txs.len(), |i: int| txs[i].naming(models[i]))
}

impl View for RequestPool {
    type V = PoolView;

    open spec fn view(&self) -> PoolView {
        PoolView {
            queue: Seq::new(self.queue@.len(), |i: int| self.queue@[i]@),
            seen: self.seen@,
            txids: self.txids@.map_values(|v: (String, u64)| (v.0@, v.1)),
        }
    }
}

/// What a transaction offers. In the request subnetwork that is a binary payload of an accepted
/// length, with its prompt read as text. In any other, a transaction with inputs can carry a
/// JSON payload that names a known model; it pays no reward.
pub open spec fn offer_of(tx: TxView) -> Option<OfferView> {
    let raw = hex_bytes(tx.payload);
    if tx.subnetwork_id == SUBNETWORK_ID_AI_REQUEST_HEX@ {
        if is_hex(tx.payload) && request_len_ok(raw) {
            Some(
                OfferView {
                    raw,
                    model_id: raw.subrange(0, 32),
                    prompt: lossy_text(raw.subrange(44, raw.len() as int)),
                    max_tokens: le_value(raw.subrange(32, 36)) as usize,
                    reward: le_value(raw.subrange(36, 44)) as u64,
                },
            )
        } else {
            None
        }
    } else if tx.inputs > 0 && is_hex(tx.payload) {
        match (named_request(raw), tx.named_model) {
            (Some((_, prompt, max_tokens)), Some(model_id)) => Some(
                OfferView { raw, model_id, prompt, max_tokens, reward: 0 },
            ),
            _ => None,
        }
    } else {
        None
    }
}

/// What a transaction offers to a miner that holds the `loaded` models.
pub open spec fn offer_to(tx: TxView, loaded: Seq<Seq<u8>>) -> Option<OfferView> {
    match offer_of(tx) {
        Some(o) => if loaded.contains(o.model_id) {
            Some(o)
        } else {
            None
        },
        None => None,
    }
}

/// The queue entry of an offer.
pub open spec fn entry(o: OfferView) -> RequestView {
    RequestView {
        id: payload_id(o.raw),
        raw: o.raw,
        model_id: o.model_id,
        prompt: o.prompt,
        max_tokens: o.max_tokens,
    }
}

/// The transaction and reward to remember for an offer: a reward above zero in a transaction
/// with a known id.
pub open spec fn receipt(tx: TxView, o: OfferView) -> Option<(Seq<char>, u64)> {
    match tx.transaction_id {
        Some(t) => if o.reward > 0 && t.len() > 0 {
            Some((t, o.reward))
        } else {
            None
        },
        None => None,
    }
}

/// The pool after one transaction: what it offers is queued unless it was seen before, and its
/// receipt is kept either way.
pub open spec fn scan_one(s: PoolView, tx: TxView, loaded: Seq<Seq<u8>>) -> PoolView {
    match offer_to(tx, loaded) {
        None => s,
        Some(o) => {
            let id = payload_id(o.raw);
            let fresh = !s.seen.contains(id);
            PoolView {
                queue: if fresh {
                    s.queue.push(entry(o))
                } else {
                    s.queue
                },
                seen: if fresh {
                    s.seen.insert(id)
                } else {
                    s.seen
                },
                txids: match receipt(tx, o) {
                    Some(r) => s.txids.insert(id, r),
                    None => s.txids,
                },
            }
        },
    }
}

/// The pool after some transactions, taken in order.
pub open spec fn scan_all(s: PoolView, txs: Seq<TxView>, loaded: Seq<Seq<u8>>) -> PoolView
    decreases txs.len(),
{
    if txs.len() == 0 {
        s
    } else {
        scan_one(scan_all(s, txs.drop_last(), loaded), txs.last(), loaded)
    }
}

/// Whether every queued request is among those seen, no id stands twice in the queue, and each
/// request is queued under the id of its payload.
pub open spec fn pool_wf(s: PoolView) -> bool {
    &&& forall|i: int| 0 <= i < s.queue.len() ==> s.seen.contains(#[trigger] s.queue[i].id)
    &&& forall|i: int, j: int|
        0 <= i < j < s.queue.len() ==> (#[trigger] s.queue[i]).id != (#[trigger] s.queue[j]).id
    &&& forall|i: int|
        0 <= i < s.queue.len() ==> (#[trigger] s.queue[i]).id == payload_id(s.queue[i].raw)
}

/// The name of the model that a payload asks for, where it is a JSON request.
pub fn requested_model(payload: &str) -> (name: Option<String>)
    ensures
        text_view(name) == if is_hex(payload@) {
            match named_request(hex_bytes(payload@)) {
                Some((model, _, _)) => Some(model),
                None => None,
            }
        } else {
            None
        },
{
    match decode(payload) {
        None => None,
        Some(raw) => match parse_krx_ai_payload(raw.as_slice()) {
            None => None,
            Some((model, _, _)) => Some(model),
        },
    }
}

/// What the lookup `find` gives for the model that a transaction asks for by name.
fn route<F: Fn(&String) -> Option<[u8; 32]>>(tx: &Tx, find: &F) -> (model: Option<[u8; 32]>)
    requires
        forall|name: String| #[trigger] call_requires(*find, (&name,)),
    ensures
        is_routed(*find, *tx, model),
{
    if tx.subnetwork_id == String::from_str(SUBNETWORK_ID_AI_REQUEST_HEX) || tx.inputs == 0 {
        return None;
    }
    match requested_model(tx.payload.as_str()) {
        None => None,
        Some(name) => {
            let model = find(&name);
            assert(call_ensures(*find, (&name,), model));
            model
        },
    }
}

/// What the lookup `find` gives for the models that some transactions ask for by name.
pub(crate) fn route_all<F: Fn(&String) -> Option<[u8; 32]>>(txs: &Vec<Tx>, find: &F) -> (models:
    Vec<Option<[u8; 32]>>)
    requires
        forall|name: String| #[trigger] call_requires(*find, (&name,)),
    ensures
        are_routed(*find, txs@, models@),
{
    let mut models: Vec<Option<[u8; 32]>> = Vec::new();
    let mut i: usize = 0;
    while i < txs.len()
        invariant
            forall|name: String| #[trigger] call_requires(*find, (&name,)),
            i <= txs@.len(),
            models@.len() == i,
            forall|j: int| 0 <= j < i ==> is_routed(*find, txs@[j], #[trigger] models@[j]),
        decreases txs@.len() - i,
    {
        models.push(route(&txs[i], find));
        i = i + 1;
    }
    models
}

/// What a transaction that names the model `model` offers.
pub fn offer(tx: &Tx, model: &Option<[u8; 32]>) -> (o: Option<Offer>)
    ensures
        o is Some <==> offer_of(tx.naming(*model)) is Some,
        o matches Some(got) ==> offer_of(tx.naming(*model)) == Some(got@),
{
    let binary = tx.subnetwork_id == String::from_str(SUBNETWORK_ID_AI_REQUEST_HEX);
    if !binary && tx.inputs == 0 {
        return None;
    }
    let raw = match decode(tx.payload.as_str()) {
        None => {
            return None;
        },
        Some(raw) => raw,
    };
    if binary {
        match AiRequestPayload::deserialize(raw.as_slice()) {
            None => None,
            Some(req) => {
                let prompt = utf8_text_lossy(req.prompt.as_slice());
                let o = Offer {
                    model_id: req.model_id,
                    prompt,
                    max_tokens: req.max_tokens as usize,
                    reward: req.fee,
                    raw,
                };
                assert(offer_of(tx.naming(*model)) == Some(o@));
                Some(o)
            },
        }
    } else {
        match parse_krx_ai_payload(raw.as_slice()) {
            None => None,
            Some((_, prompt, max_tokens)) => match *model {
                None => None,
                Some(model_id) => {
                    let o = Offer { raw, model_id, prompt, max_tokens, reward: 0 };
                    assert(offer_of(tx.naming(*model)) == Some(o@));
                    Some(o)
                },
            },
        }
    }
}

/// Whether an id is among some ids.
fn holds_id(ids: &Vec<[u8; 32]>, id: &[u8; 32]) -> (yes: bool)
    ensures
        yes == ids_view(ids@).contains(id@),
{
    let ghost views = ids_view(ids@);
    let mut i: usize = 0;
    while i < ids.len()
        invariant
            i <= ids@.len(),
            views == ids_view(ids@),
            forall|j: int| 0 <= j < i ==> #[trigger] views[j] != id@,
        decreases ids@.len() - i,
    {
        if eq32(&ids[i], id) {
            assert(views[i as int] == id@);
            return true;
        }
        i = i + 1;
    }
    false
}

impl RequestPool {
    /// A pool that has seen nothing.
    pub fn new() -> (pool: RequestPool)
        ensures
            pool@ == (PoolView { queue: Seq::empty(), seen: Set::empty(), txids: Map::empty() }),
            pool_wf(pool@),
    {
        let pool = RequestPool {
            queue: VecDeque::new(),
            seen: HashSet::new(),
            txids: HashMap::new(),
        };
        assert(pool@ =~= (PoolView {
            queue: Seq::empty(),
            seen: Set::empty(),
            txids: Map::empty(),
        }));
        pool
    }

    /// Takes in one transaction that names the model `model`.
    fn scan_tx(&mut self, tx: &Tx, model: &Option<[u8; 32]>, loaded: &Vec<[u8; 32]>)
        ensures
            final(self)@ == scan_one(old(self)@, tx.naming(*model), ids_view(loaded@)),
    {
        let ghost before = self@;
        let o = match offer(tx, model) {
            None => {
                return ;
            },
            Some(o) => o,
        };
        if !holds_id(loaded, &o.model_id) {
            return ;
        }
        let id: u64 = stable_id(o.raw.as_slice());
        let ghost offered = o@;
        let reward: u64 = o.reward;
        if !self.seen.contains(&id) {
            self.seen.insert(id);
            self.queue.push_back(
                QueuedRequest {
                    id,
                    raw: o.raw,
                    model_id: o.model_id,
                    prompt: o.prompt,
                    max_tokens: o.max_tokens,
                },
            );
            assert(self@.queue =~= before.queue.push(entry(offered)));
        } else {
            assert(self@.queue =~= before.queue);
        }
        let ghost middle = self@;
        assert(middle.txids =~= before.txids);
        if reward > 0 {
            if let Some(t) = &tx.transaction_id {
                if t.as_str().unicode_len() > 0 {
                    self.txids.insert(id, (t.clone(), reward));
                    assert(self@.txids =~= before.txids.insert(id, (t@, reward)));
                }
            }
        }
        assert(self@.queue =~= middle.queue);
        assert(self@ =~= scan_one(before, tx.naming(*model), ids_view(loaded@)));
    }

    /// Takes in some transactions in order: what they offer to a miner that holds the `loaded`
    /// models is queued once, and the rewards that they pay are remembered. The lookup `find`
    /// gives the ids of the models that JSON payloads name.
    pub fn scan_txs_for_ai_requests<F: Fn(&String) -> Option<[u8; 32]>>(
        &mut self,
        txs: &Vec<Tx>,
        loaded: &Vec<[u8; 32]>,
        find: F,
    )
        requires
            forall|name: String| #[trigger] call_requires(find, (&name,)),
        ensures
            exists|models: Seq<Option<[u8; 32]>>| #[trigger]
                are_routed(find, txs@, models) && final(self)@ == scan_all(
                    old(self)@,
                    txs_view(txs@, models),
                    ids_view(loaded@),
                ),
    {
        let models = route_all(txs, &find);
        self.scan_routed_txs(txs, &models, loaded);
        assert(are_routed(find, txs@, models@));
    }

    /// Takes in some transactions in order, which name the models `models`.
    pub fn scan_routed_txs(
        &mut self,
        txs: &Vec<Tx>,
        models: &Vec<Option<[u8; 32]>>,
        loaded: &Vec<[u8; 32]>,
    )
        requires
            models@.len() == txs@.len(),
        ensures
            final(self)@ == scan_all(
                old(self)@,
                txs_view(txs@, models@),
                ids_view(loaded@),
            ),
    {
        let ghost before = self@;
        let ghost views = txs_view(txs@, models@);
        let ghost ids = ids_view(loaded@);
        let mut i: usize = 0;
        while i < txs.len()
            invariant
                i <= txs@.len(),
                models@.len() == txs@.len(),
                views == txs_view(txs@, models@),
                ids == ids_view(loaded@),
                self@ == scan_all(before, views.subrange(0, i as int), ids),
            decreases txs@.len() - i,
        {
            self.scan_tx(&txs[i], &models[i], loaded);
            proof {
                let next = views.subrange(0, i + 1);
                assert(next.drop_last() =~= views.subrange(0, i as int));
                assert(next.last() == txs@[i as int].naming(models@[i as int]));
            }
            i = i + 1;
        }
        assert(views.subrange(0, i as int) =~= views);
    }

    /// Takes the request that waits longest out of the queue.
    pub fn take_next(&mut self) -> (next: Option<QueuedRequest>)
        ensures
            match next {
                None => old(self)@.queue.len() == 0 && final(self)@ == old(self)@,
                Some(r) => {
                    &&& old(self)@.queue.len() > 0
                    &&& r@ == old(self)@.queue[0]
                    &&& final(self)@ == (PoolView {
                        queue: old(self)@.queue.drop_first(),
                        ..old(self)@
                    })
                },
            },
    {
        let ghost before = self@;
        let next = self.queue.pop_front();
        match next {
            None => {
                assert(self@ =~= before);
                None
            },
            Some(r) => {
                assert(self@.queue =~= before.queue.drop_first());
                assert(self@ =~= (PoolView { queue: before.queue.drop_first(), ..before }));
                Some(r)
            },
        }
    }

    /// Takes out the transaction and reward that are remembered for a request.
    pub fn take_receipt(&mut self, id: u64) -> (r: Option<(String, u64)>)
        ensures
            r is Some <==> old(self)@.txids.contains_key(id),
            r matches Some((t, reward)) ==> (t@, reward) == old(self)@.txids[id],
            final(self)@ == (PoolView { txids: old(self)@.txids.remove(id), ..old(self)@ }),
    {
        let ghost before = self@;
        let r = self.txids.remove(&id);
        assert(self@.queue =~= before.queue);
        assert(self@.txids =~= before.txids.remove(id));
        assert(self@ =~= (PoolView { txids: before.txids.remove(id), ..before }));
        r
    }
}

/// Scanning keeps a pool well-formed: nothing is ever queued twice.
pub proof fn law_scan_keeps_pool_wf(s: PoolView, txs: Seq<TxView>, loaded: Seq<Seq<u8>>)
    requires
        pool_wf(s),
    ensures
        pool_wf(scan_all(s, txs, loaded)),
    decreases txs.len(),
{
    if txs.len() > 0 {
        law_scan_keeps_pool_wf(s, txs.drop_last(), loaded);
    }
}

/// Taking the next request out keeps a pool well-formed.
pub proof fn law_take_keeps_pool_wf(s: PoolView)
    requires
        pool_wf(s),
        s.queue.len() > 0,
    ensures
        pool_wf((PoolView { queue: s.queue.drop_first(), ..s })),
{
    let t = PoolView { queue: s.queue.drop_first(), ..s };
    assert forall|i: int| 0 <= i < t.queue.len() implies t.seen.contains(
        #[trigger] t.queue[i].id,
    ) && t.queue[i].id == payload_id(t.queue[i].raw) by {
        assert(t.queue[i] == s.queue[i + 1]);
    }
    assert forall|i: int, j: int| 0 <= i < j < t.queue.len() implies (#[trigger] t.queue[i]).id != (
    #[trigger] t.queue[j]).id by {
        assert(t.queue[i] == s.queue[i + 1]);
        assert(t.queue[j] == s.queue[j + 1]);
    }
}

/// Scanning only appends: requests that wait keep their places, and an id that was seen stays
/// seen.
pub proof fn law_scan_appends(s: PoolView, txs: Seq<TxView>, loaded: Seq<Seq<u8>>)
    ensures
        s.queue.is_prefix_of(scan_all(s, txs, loaded).queue),
        s.seen.subset_of(scan_all(s, txs, loaded).seen),
    decreases txs.len(),
{
    if txs.len() > 0 {
        law_scan_appends(s, txs.drop_last(), loaded);
    }
}

/// What was offered once is not queued again: where every offer was seen, scanning leaves the
/// queue as it is.
pub proof fn law_seen_requests_are_not_queued(
    s: PoolView,
    txs: Seq<TxView>,
    loaded: Seq<Seq<u8>>,
)
    requires
        forall|i: int|
            0 <= i < txs.len() ==> (offer_to(#[trigger] txs[i], loaded) matches Some(o)
                ==> s.seen.contains(payload_id(o.raw))),
    ensures
        scan_all(s, txs, loaded).queue == s.queue,
        scan_all(s, txs, loaded).seen == s.seen,
    decreases txs.len(),
{
    if txs.len() > 0 {
        let head = txs.drop_last();
        assert forall|i: int| 0 <= i < head.len() implies (offer_to(#[trigger] head[i], loaded) matches Some(
            o,
        ) ==> s.seen.contains(payload_id(o.raw))) by {
            assert(head[i] == txs[i]);
        }
        law_seen_requests_are_not_queued(s, head, loaded);
        assert(txs.last() == txs[txs.len() - 1]);
    }
}

/// Whatever a transaction offers is seen once it was scanned.
pub proof fn law_scanned_requests_are_seen(s: PoolView, txs: Seq<TxView>, loaded: Seq<Seq<u8>>)
    ensures
        forall|i: int|
            0 <= i < txs.len() ==> (offer_to(#[trigger] txs[i], loaded) matches Some(o)
                ==> scan_all(s, txs, loaded).seen.contains(payload_id(o.raw))),
    decreases txs.len(),
{
    if txs.len() > 0 {
        let head = txs.drop_last();
        law_scanned_requests_are_seen(s, head, loaded);
        assert forall|i: int| 0 <= i < txs.len() implies (offer_to(#[trigger] txs[i], loaded) matches Some(
            o,
        ) ==> scan_all(s, txs, loaded).seen.contains(payload_id(o.raw))) by {
            if i < head.len() {
                assert(head[i] == txs[i]);
            }
        }
    }
}

/// The receipts of some transactions, the last one of an id winning.
spec fn receipts(txs: Seq<TxView>, loaded: Seq<Seq<u8>>) -> Map<u64, (Seq<char>, u64)>
    decreases txs.len(),
{
    if txs.len() == 0 {
        Map::empty()
    } else {
        let head = receipts(txs.drop_last(), loaded);
        match offer_to(txs.last(), loaded) {
            None => head,
            Some(o) => match receipt(txs.last(), o) {
                Some(r) => head.insert(payload_id(o.raw), r),
                None => head,
            },
        }
    }
}

proof fn lemma_receipts(s: PoolView, txs: Seq<TxView>, loaded: Seq<Seq<u8>>)
    ensures
        scan_all(s, txs, loaded).txids == s.txids.union_prefer_right(receipts(txs, loaded)),
    decreases txs.len(),
{
    if txs.len() == 0 {
        assert(s.txids =~= s.txids.union_prefer_right(receipts(txs, loaded)));
    } else {
        lemma_receipts(s, txs.drop_last(), loaded);
        assert(scan_all(s, txs, loaded).txids =~= s.txids.union_prefer_right(
            receipts(txs, loaded),
        ));
    }
}

/// The same transactions, met a second time, change nothing.
pub proof fn law_rescan_changes_nothing(s: PoolView, txs: Seq<TxView>, loaded: Seq<Seq<u8>>)
    ensures
        scan_all(scan_all(s, txs, loaded), txs, loaded) == scan_all(s, txs, loaded),
{
    let once = scan_all(s, txs, loaded);
    law_scanned_requests_are_seen(s, txs, loaded);
    law_seen_requests_are_not_queued(once, txs, loaded);
    lemma_receipts(s, txs, loaded);
    lemma_receipts(once, txs, loaded);
    assert(scan_all(once, txs, loaded).txids =~= once.txids);
}

/// A block that is scanned in two parts is scanned as a whole.
pub proof fn law_scan_splits(
    s: PoolView,
    first: Seq<TxView>,
    second: Seq<TxView>,
    loaded: Seq<Seq<u8>>,
)
    ensures
        scan_all(s, first + second, loaded) == scan_all(
            scan_all(s, first, loaded),
            second,
            loaded,
        ),
    decreases second.len(),
{
    if second.len() == 0 {
        assert(first + second =~= first);
    } else {
        law_scan_splits(s, first, second.drop_last(), loaded);
        assert((first + second).drop_last() =~= first + second.drop_last());
    }
}

/// What is queued is what was asked: a transaction of the request subnetwork that carries the
/// wire form of a request, of an accepted length, offers that request, with its model, its limit
/// and its reward as they are and its prompt as text.
pub proof fn law_offer_is_the_request(tx: TxView, p: AiRequestPayload)
    requires
        tx.subnetwork_id == SUBNETWORK_ID_AI_REQUEST_HEX@,
        tx.payload == hex_text(request_bytes(p)),
        request_len_ok(request_bytes(p)),
    ensures
        offer_of(tx) matches Some(o) && {
            &&& o.raw == request_bytes(p)
            &&& o.model_id == p.model_id@
            &&& o.max_tokens == p.max_tokens
            &&& o.reward == p.fee
            &&& o.prompt == lossy_text(p.prompt@)
        },
{
    let d = request_bytes(p);
    law_hex_roundtrip(d);
    lemma_pow256_machine();
    lemma_le_value_of_bytes(p.max_tokens as nat, 4);
    lemma_le_value_of_bytes(p.fee as nat, 8);
    assert(d.subrange(0, 32) =~= p.model_id@);
    assert(d.subrange(32, 36) =~= le_bytes(p.max_tokens as nat, 4));
    assert(d.subrange(36, 44) =~= le_bytes(p.fee as nat, 8));
    assert(d.subrange(44, d.len() as int) =~= p.prompt@);
}

/// A transaction with inputs outside the request subnetwork that carries a marked JSON body with
/// a prompt offers that prompt to the model that it names, with the limit that it gives or the
/// default, and for no reward.
pub proof fn law_offer_is_the_json_request(
    tx: TxView,
    body: Seq<u8>,
    model: Option<Seq<char>>,
    prompt: Seq<char>,
    limit: Option<u64>,
    model_id: Seq<u8>,
)
    requires
        tx.subnetwork_id != SUBNETWORK_ID_AI_REQUEST_HEX@,
        tx.inputs > 0,
        body.len() > 0,
        tx.payload == hex_text(krx_marker() + body),
        json_members(body, "m"@, "p"@, "n"@) == Some((model, Some(prompt), limit)),
        tx.named_model == Some(model_id),
    ensures
        offer_of(tx) matches Some(o) && {
            &&& o.raw == krx_marker() + body
            &&& o.model_id == model_id
            &&& o.prompt == prompt
            &&& o.reward == 0
            &&& limit matches Some(n) ==> o.max_tokens == n as usize
            &&& limit is None ==> o.max_tokens == 128
        },
{
    let raw = krx_marker() + body;
    law_hex_roundtrip(raw);
    assert(raw.subrange(0, 9) =~= krx_marker());
    assert(raw.subrange(9, raw.len() as int) =~= body);
}

/// A fresh offer to a model that is loaded is queued last, as it was offered, and is seen from
/// then on.
pub proof fn law_fresh_offer_is_queued(
    s: PoolView,
    tx: TxView,
    loaded: Seq<Seq<u8>>,
    o: OfferView,
)
    requires
        offer_of(tx) == Some(o),
        loaded.contains(o.model_id),
        !s.seen.contains(payload_id(o.raw)),
    ensures
        ({
            let n = scan_all(s, seq![tx], loaded);
            &&& n.queue.len() == s.queue.len() + 1
            &&& n.queue.drop_last() == s.queue
            &&& n.queue.last().id == payload_id(o.raw)
            &&& n.queue.last().raw == o.raw
            &&& n.queue.last().model_id == o.model_id
            &&& n.queue.last().prompt == o.prompt
            &&& n.queue.last().max_tokens == o.max_tokens
            &&& n.seen == s.seen.insert(payload_id(o.raw))
        }),
{
    let n = scan_all(s, seq![tx], loaded);
    assert(seq![tx].drop_last() =~= Seq::empty());
    assert(scan_all(s, Seq::empty(), loaded) == s);
    assert(n == scan_one(s, tx, loaded));
    assert(n.queue.drop_last() =~= s.queue);
}

/// What is offered to a model that is not loaded, and what offers nothing, leaves no trace.
pub proof fn law_other_transactions_leave_no_trace(s: PoolView, tx: TxView, loaded: Seq<Seq<u8>>)
    requires
        offer_of(tx) matches Some(o) ==> !loaded.contains(o.model_id),
    ensures
        scan_all(s, seq![tx], loaded) == s,
{
    assert(seq![tx].drop_last() =~= Seq::empty());
    assert(scan_all(s, Seq::empty(), loaded) == s);
}

/// The reward of a loaded offer is remembered in full, with its transaction, where there is one
/// and the transaction has an id; nothing else that is remembered changes.
pub proof fn law_reward_is_remembered(
    s: PoolView,
    tx: TxView,
    loaded: Seq<Seq<u8>>,
    o: OfferView,
    txid: Seq<char>,
)
    requires
        offer_of(tx) == Some(o),
        loaded.contains(o.model_id),
        tx.transaction_id == Some(txid),
    ensures
        ({
            let (before, after) = (s.txids, scan_all(s, seq![tx], loaded).txids);
            let id = payload_id(o.raw);
            &&& o.reward > 0 && txid.len() > 0 ==> after.contains_key(id) && after[id] == (
                txid,
                o.reward,
            )
            &&& o.reward == 0 || txid.len() == 0 ==> after == before
            &&& forall|other: u64|
                other != id ==> (#[trigger] after.contains_key(other) == before.contains_key(other))
                    && (before.contains_key(other) ==> after[other] == before[other])
        }),
{
    assert(seq![tx].drop_last() =~= Seq::empty());
    assert(scan_all(s, Seq::empty(), loaded) == s);
    assert(scan_all(s, seq![tx], loaded) == scan_one(s, tx, loaded));
}

/// The model that a JSON request names is looked up under that name wherever the transaction can
/// carry one: in every subnetwork but that of the binary requests, with any inputs at all. No
/// other transaction is looked up.
pub proof fn law_named_models_are_looked_up<F: Fn(&String) -> Option<[u8; 32]>>(
    find: F,
    tx: Tx,
    model: Option<[u8; 32]>,
    asked: Seq<char>,
    prompt: Seq<char>,
    limit: usize,
)
    requires
        is_routed(find, tx, model),
    ensures
        ({
            ||| tx.subnetwork_id@ == SUBNETWORK_ID_AI_REQUEST_HEX@
            ||| tx.inputs == 0
            ||| !is_hex(tx.payload@)
            ||| named_request(hex_bytes(tx.payload@)) is None
        }) ==> model is None,
        tx.subnetwork_id@ != SUBNETWORK_ID_AI_REQUEST_HEX@ && tx.inputs > 0 && is_hex(tx.payload@)
            && named_request(hex_bytes(tx.payload@)) == Some((asked, prompt, limit)) ==> exists|
            name: String,
        |
            name@ == asked && #[trigger] call_ensures(find, (&name,), model),
{
}

/// What is queued is not queued again: a loaded offer that was seen changes neither the queue nor
/// what is seen.
pub proof fn law_seen_offer_is_not_queued(
    s: PoolView,
    tx: TxView,
    loaded: Seq<Seq<u8>>,
    o: OfferView,
)
    requires
        offer_of(tx) == Some(o),
        s.seen.contains(payload_id(o.raw)),
    ensures
        scan_all(s, seq![tx], loaded).queue == s.queue,
        scan_all(s, seq![tx], loaded).seen == s.seen,
{
    assert(seq![tx].drop_last() =~= Seq::empty());
    assert(scan_all(s, Seq::empty(), loaded) == s);
}

/// Nothing else is offered: not by a payload that is no hexadecimal text, not in the request
/// subnetwork by one of another length, and elsewhere neither without inputs nor without a JSON
/// request that names a known model.
pub proof fn law_nothing_else_is_offered(tx: TxView)
    requires
        ({
            let raw = hex_bytes(tx.payload);
            ||| !is_hex(tx.payload)
            ||| tx.subnetwork_id == SUBNETWORK_ID_AI_REQUEST_HEX@ && !request_len_ok(raw)
            ||| tx.subnetwork_id != SUBNETWORK_ID_AI_REQUEST_HEX@ && (tx.inputs == 0
                || named_request(raw) is None || tx.named_model is None)
        }),
    ensures
        offer_of(tx) is None,
{
}

} // verus!
