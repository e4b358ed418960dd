//! Possession proofs: the walk over the weights, the proof that opens it, and the verifier.

use vstd::prelude::*;
use crate::bytes::{eq32, le_bytes, le_value, lemma_le_bytes_len, lemma_le_bytes_of_value, lemma_le_value_of_bytes, lemma_pow256_machine, pow256, push_bytes, push_le, read_le};
use crate::hash::{blake, blake3_digest};
use crate::index::{chunk_at, law_chunk_is_included, WeightIndex};
use crate::merkle::{collide, digests, fold_path, law_path_leads_to_root, law_root_binds_leaf, law_tree_binds_leaf, leaf_digests, merkle_proof, merkle_root, path_collision, path_of, root_of, sized, tree_collision, verify_merkle};
use crate::mix::{block_seed, bytes_of, chunk_to_words, law_bytes_then_words, law_words_then_bytes, le_leq, next_state, pom_block_seed, pom_pow_value, pow_value, transition, words_of, words_to_bytes, CHUNK_WORDS};

verus! {

/// Steps of a walk.
pub const POM_WALK_STEPS: u32 = 256;

/// Steps that a proof opens.
pub const POM_OPENINGS: usize = 32;

/// The DAA score from which on blocks carry a possession proof.
pub const POM_ACTIVATION_DAA: u64 = 1000;

/// One opened step of a walk: the state before it, the chunk it read, and the inclusion paths
/// of the chunk and of the two states.
#[derive(Clone, Debug)]
pub struct PomOpening {
    /// The walk state before the step.
    pub state_before: u64,
    /// The chunk that the step read.
    pub chunk: [u8; 32],
    /// The path of the chunk to the weight root.
    pub weight_path: Vec<[u8; 32]>,
    /// The path of the state before the step to the trace root.
    pub trace_path_before: Vec<[u8; 32]>,
    /// The path of the state after the step to the trace root.
    pub trace_path_after: Vec<[u8; 32]>,
}

/// A possession proof: the committed walk, its outcome and the opened steps.
#[derive(Clone, Debug)]
pub struct PomProof {
    /// The model tier that was walked.
    pub tier: u8,
    /// The Merkle root over the states of the walk.
    pub trace_root: [u8; 32],
    /// The proof-of-work value of the final state.
    pub pow_value: [u8; 32],
    /// The final state.
    pub final_state: u64,
    /// The path of the initial state to the trace root.
    pub initial_trace_path: Vec<[u8; 32]>,
    /// The path of the final state to the trace root.
    pub final_trace_path: Vec<[u8; 32]>,
    /// The opened steps.
    pub openings: Vec<PomOpening>,
}

/// The leaf of a walk state in the trace tree.
pub open spec fn state_leaf(state: u64) -> Seq<u8> {
    blake3_digest(le_bytes(state as nat, 8))
}

/// The leaves of a trace.
pub open spec fn trace_leaves(trace: Seq<u64>) -> Seq<Seq<u8>> {
    Seq::new(trace.len(), |i: int| state_leaf(trace[i]))
}

/// The digest that the challenges of a proof are drawn from.
pub open spec fn challenge_seed(
    pre_pow_hash: Seq<u8>,
    nonce: u64,
    trace_root: Seq<u8>,
    pow: Seq<u8>,
) -> Seq<u8> {
    blake3_digest(pre_pow_hash + le_bytes(nonce as nat, 8) + trace_root + pow)
}

/// The step that challenge `j` asks to open, of a walk of `k` steps.
pub open spec fn challenge(seed: Seq<u8>, j: nat, k: u32) -> u32 {
    (le_value(blake3_digest(seed + le_bytes(j, 8)).subrange(0, 8)) % (k as nat)) as u32
}

/// The `t` steps that a proof has to open.
pub open spec fn challenge_steps(
    pre_pow_hash: Seq<u8>,
    nonce: u64,
    trace_root: Seq<u8>,
    pow: Seq<u8>,
    t: nat,
    k: u32,
) -> Seq<u32> {
    Seq::new(
        t,
        |j: int| challenge(challenge_seed(pre_pow_hash, nonce, trace_root, pow), j as nat, k),
    )
}

/// The chunk that a walk reads in state `state`.
pub open spec fn offset(state: u64, n_chunks: u64) -> u64 {
    (state as nat % n_chunks as nat) as u64
}

/// State `i` of the walk from `seed` over the chunks that `chunks` gives.
pub open spec fn walk_state(
    seed: u64,
    n_chunks: u64,
    chunks: spec_fn(u64) -> Seq<u64>,
    i: nat,
) -> u64
    decreases i,
{
    if i == 0 {
        seed
    } else {
        let s = walk_state(seed, n_chunks, chunks, (i - 1) as nat);
        next_state(s, chunks(offset(s, n_chunks)))
    }
}

/// The states of the walk of `k` steps.
pub open spec fn walk_trace(
    seed: u64,
    n_chunks: u64,
    chunks: spec_fn(u64) -> Seq<u64>,
    k: nat,
) -> Seq<u64> {
    Seq::new(k + 1, |i: int| walk_state(seed, n_chunks, chunks, i as nat))
}

/// Whether a walk can go from `s` to `next` by reading a chunk through `read`.
pub open spec fn is_step<F: Fn(u64) -> [u64; CHUNK_WORDS]>(
    read: F,
    n_chunks: u64,
    s: u64,
    next: u64,
) -> bool {
    exists|c: [u64; CHUNK_WORDS]|
        #[trigger] call_ensures(read, (offset(s, n_chunks),), c) && next == next_state(s, c@)
}

/// Whether `trace` holds the states of a walk of `k` steps from `seed` that reads through `read`.
pub open spec fn is_walk<F: Fn(u64) -> [u64; CHUNK_WORDS]>(
    read: F,
    n_chunks: u64,
    seed: u64,
    k: nat,
    trace: Seq<u64>,
) -> bool {
    &&& trace.len() == k + 1
    &&& trace[0] == seed
    &&& forall|i: int|
        0 <= i < k ==> is_step(read, n_chunks, #[trigger] trace[i], trace[i + 1])
}

/// Whether the header of a proof commits to `trace` and to its outcome.
pub open spec fn commits_to(
    proof: PomProof,
    tier: u8,
    pre_pow_hash: Seq<u8>,
    trace: Seq<u64>,
) -> bool {
    &&& proof.tier == tier
    &&& proof.trace_root@ == root_of(trace_leaves(trace))
    &&& proof.final_state == trace.last()
    &&& proof.pow_value@ == pow_value(trace.last(), pre_pow_hash)
    &&& digests(proof.initial_trace_path@) == path_of(trace_leaves(trace), 0)
    &&& digests(proof.final_trace_path@) == path_of(trace_leaves(trace), trace.len() - 1)
}

/// Whether an opening shows step `i` of `trace`.
pub open spec fn shows_step(op: PomOpening, trace: Seq<u64>, i: int) -> bool {
    &&& op.state_before == trace[i]
    &&& digests(op.trace_path_before@) == path_of(trace_leaves(trace), i)
    &&& digests(op.trace_path_after@) == path_of(trace_leaves(trace), i + 1)
}

/// Whether the chunk of an opening and its path are what `read` and `path` give.
pub open spec fn shows_chunk<
    F: Fn(u64) -> [u64; CHUNK_WORDS],
    WP: Fn(u64) -> Vec<[u8; 32]>,
>(op: PomOpening, n_chunks: u64, read: F, path: WP) -> bool {
    let off = offset(op.state_before, n_chunks);
    &&& exists|c: [u64; CHUNK_WORDS]|
        #[trigger] call_ensures(read, (off,), c) && op.chunk@ == bytes_of(c@)
    &&& call_ensures(path, (off,), op.weight_path)
}

/// The steps that a proof has to open, drawn from its own header.
pub open spec fn asked_of(proof: PomProof, pre_pow_hash: Seq<u8>, nonce: u64, t: nat, k: u32) -> Seq<
    u32,
> {
    challenge_steps(pre_pow_hash, nonce, proof.trace_root@, proof.pow_value@, t, k)
}

/// Whether `proof` is the proof of the walk `trace`, with chunks and paths that `read` and `path`
/// gave.
pub open spec fn opens<F: Fn(u64) -> [u64; CHUNK_WORDS], WP: Fn(u64) -> Vec<[u8; 32]>>(
    proof: PomProof,
    tier: u8,
    pre_pow_hash: Seq<u8>,
    nonce: u64,
    n_chunks: u64,
    k: u32,
    t: nat,
    read: F,
    path: WP,
    trace: Seq<u64>,
) -> bool {
    &&& commits_to(proof, tier, pre_pow_hash, trace)
    &&& proof.openings@.len() == t
    &&& forall|j: int|
        0 <= j < t ==> {
            &&& shows_step(
                #[trigger] proof.openings@[j],
                trace,
                asked_of(proof, pre_pow_hash, nonce, t, k)[j] as int,
            )
            &&& shows_chunk(proof.openings@[j], n_chunks, read, path)
        }
}

/// Whether the committed walk is in the state of an opening before step `i`.
pub open spec fn state_holds(op: PomOpening, i: u32, trace_root: Seq<u8>) -> bool {
    fold_path(state_leaf(op.state_before), i as int, digests(op.trace_path_before@)) == trace_root
}

/// Whether an opening is consistent with step `i` of the committed walk and with the weights.
pub open spec fn opening_holds(
    op: PomOpening,
    i: u32,
    trace_root: Seq<u8>,
    n_chunks: u64,
    r_t: Seq<u8>,
) -> bool {
    &&& state_holds(op, i, trace_root)
    &&& fold_path(
        blake3_digest(op.chunk@),
        offset(op.state_before, n_chunks) as int,
        digests(op.weight_path@),
    ) == r_t
    &&& fold_path(
        state_leaf(next_state(op.state_before, words_of(op.chunk@))),
        i + 1,
        digests(op.trace_path_after@),
    ) == trace_root
}

/// Whether a proof states the proof-of-work value of its own final state, within the target.
pub open spec fn claims_work(proof: PomProof, pre_pow_hash: Seq<u8>, target: Seq<u8>) -> bool {
    &&& pow_value(proof.final_state, pre_pow_hash) == proof.pow_value@
    &&& le_value(proof.pow_value@) <= le_value(target)
}

/// Whether the header of a proof commits to a walk of `k` steps that starts in `seed` and ends in
/// the final state that the proof states.
pub open spec fn ends_hold(seed: u64, proof: PomProof, k: u32) -> bool {
    &&& fold_path(state_leaf(seed), 0, digests(proof.initial_trace_path@)) == proof.trace_root@
    &&& fold_path(state_leaf(proof.final_state), k as int, digests(proof.final_trace_path@))
        == proof.trace_root@
}

/// Whether a proof is accepted.
pub open spec fn accepted(
    pre_pow_hash: Seq<u8>,
    nonce: u64,
    seed: u64,
    proof: PomProof,
    n_chunks: u64,
    k: u32,
    t: nat,
    r_t: Seq<u8>,
    target: Seq<u8>,
) -> bool {
    &&& proof.openings@.len() == t
    &&& claims_work(proof, pre_pow_hash, target)
    &&& ends_hold(seed, proof, k)
    &&& forall|j: int|
        0 <= j < t ==> opening_holds(
            #[trigger] proof.openings@[j],
            asked_of(proof, pre_pow_hash, nonce, t, k)[j],
            proof.trace_root@,
            n_chunks,
            r_t,
        )
}

/// Whether a proof can be decided upon. What asks for a step of a walk without steps cannot, nor
/// what asks for a chunk of a model without chunks, unless the proof is refused before that.
pub open spec fn decidable(
    pre_pow_hash: Seq<u8>,
    nonce: u64,
    seed: u64,
    proof: PomProof,
    n_chunks: u64,
    k: u32,
    t: nat,
    target: Seq<u8>,
) -> bool {
    ||| t == 0
    ||| proof.openings@.len() != t
    ||| !claims_work(proof, pre_pow_hash, target)
    ||| !ends_hold(seed, proof, k)
    ||| k > 0 && (n_chunks > 0 || !state_holds(
        proof.openings@[0],
        asked_of(proof, pre_pow_hash, nonce, t, k)[0],
        proof.trace_root@,
    ))
}

/// The leaf of a walk state.
pub fn trace_leaf(state: u64) -> (leaf: [u8; 32])
    ensures
        leaf@ == state_leaf(state),
{
    let mut buf: Vec<u8> = Vec::new();
    push_le(&mut buf, state, 8);
    assert(buf@ =~= le_bytes(state as nat, 8));
    blake(&buf)
}

/// The steps that a proof has to open.
pub fn challenges(
    pre_pow_hash: &[u8; 32],
    nonce: u64,
    trace_root: &[u8; 32],
    pow_value: &[u8; 32],
    t: usize,
    k: u32,
) -> (steps: Vec<u32>)
    requires
        t > 0 ==> k > 0,
    ensures
        steps@ == challenge_steps(pre_pow_hash@, nonce, trace_root@, pow_value@, t as nat, k),
        forall|j: int| 0 <= j < t ==> #[trigger] steps@[j] < k,
{
    let mut fs: Vec<u8> = Vec::new();
    push_bytes(&mut fs, pre_pow_hash);
    push_le(&mut fs, nonce, 8);
    push_bytes(&mut fs, trace_root);
    push_bytes(&mut fs, pow_value);
    assert(fs@ =~= pre_pow_hash@ + le_bytes(nonce as nat, 8) + trace_root@ + pow_value@);
    let seed = blake(&fs);
    let mut out: Vec<u32> = Vec::new();
    let ghost steps = challenge_steps(
        pre_pow_hash@,
        nonce,
        trace_root@,
        pow_value@,
        t as nat,
        k,
    );
    let mut j: usize = 0;
    while j < t
        invariant
            t > 0 ==> k > 0,
            j <= t,
            seed@ == challenge_seed(pre_pow_hash@, nonce, trace_root@, pow_value@),
            steps == challenge_steps(
                pre_pow_hash@,
                nonce,
                trace_root@,
                pow_value@,
                t as nat,
                k,
            ),
            out@.len() == j,
            forall|i: int| 0 <= i < j ==> #[trigger] out@[i] == steps[i] && out@[i] < k,
        decreases t - j,
    {
        let mut buf: Vec<u8> = Vec::new();
        push_bytes(&mut buf, &seed);
        push_le(&mut buf, j as u64, 8);
        assert(buf@ =~= seed@ + le_bytes(j as nat, 8));
        let d = blake(&buf);
        let v: u64 = read_le(&d, 0, 8);
        out.push((v % (k as u64)) as u32);
        j = j + 1;
    }
    assert(out@ =~= steps);
    out
}

/// The final state of a walk of `k` steps.
pub fn walk_final<F: Fn(u64) -> [u64; CHUNK_WORDS]>(
    seed: u64,
    n_chunks: u64,
    k: u32,
    read_chunk: F,
) -> (state: u64)
    requires
        n_chunks > 0,
        forall|o: u64| o < n_chunks ==> #[trigger] call_requires(read_chunk, (o,)),
    ensures
        exists|trace: Seq<u64>| #[trigger]
            is_walk(read_chunk, n_chunks, seed, k as nat, trace) && state == trace.last(),
{
    let mut state: u64 = seed;
    let mut i: u32 = 0;
    let ghost mut trace: Seq<u64> = seq![seed];
    while i < k
        invariant
            n_chunks > 0,
            forall|o: u64| o < n_chunks ==> #[trigger] call_requires(read_chunk, (o,)),
            i <= k,
            is_walk(read_chunk, n_chunks, seed, i as nat, trace),
            state == trace.last(),
        decreases k - i,
    {
        let off: u64 = state % n_chunks;
        let chunk = read_chunk(off);
        let next: u64 = transition(state, &chunk);
        proof {
            assert(off == offset(state, n_chunks));
            assert(is_step(read_chunk, n_chunks, state, next));
            let longer = trace.push(next);
            assert forall|x: int| 0 <= x < i + 1 implies is_step(
                read_chunk,
                n_chunks,
                #[trigger] longer[x],
                longer[x + 1],
            ) by {
                if x < i {
                    assert(longer[x] == trace[x]);
                    assert(longer[x + 1] == trace[x + 1]);
                }
            }
            trace = longer;
        }
        state = next;
        i = i + 1;
    }
    state
}

/// The states of a walk of `k` steps.
fn walk<F: Fn(u64) -> [u64; CHUNK_WORDS]>(
    seed: u64,
    n_chunks: u64,
    k: u32,
    read_chunk: &F,
) -> (trace: Vec<u64>)
    requires
        n_chunks > 0,
        forall|o: u64| o < n_chunks ==> #[trigger] call_requires(*read_chunk, (o,)),
    ensures
        is_walk(*read_chunk, n_chunks, seed, k as nat, trace@),
{
    let mut trace: Vec<u64> = Vec::new();
    let mut state: u64 = seed;
    let mut i: u32 = 0;
    trace.push(seed);
    while i < k
        invariant
            n_chunks > 0,
            forall|o: u64| o < n_chunks ==> #[trigger] call_requires(*read_chunk, (o,)),
            i <= k,
            is_walk(*read_chunk, n_chunks, seed, i as nat, trace@),
            state == trace@.last(),
        decreases k - i,
    {
        let off: u64 = state % n_chunks;
        let chunk = read_chunk(off);
        let next: u64 = transition(state, &chunk);
        let ghost before = trace@;
        trace.push(next);
        proof {
            assert(off == offset(state, n_chunks));
            assert(is_step(*read_chunk, n_chunks, state, next));
            assert forall|x: int| 0 <= x < i + 1 implies is_step(
                *read_chunk,
                n_chunks,
                #[trigger] trace@[x],
                trace@[x + 1],
            ) by {
                if x < i {
                    assert(trace@[x] == before[x]);
                    assert(trace@[x + 1] == before[x + 1]);
                }
            }
        }
        state = next;
        i = i + 1;
    }
    trace
}

/// The leaves of a trace.
fn leaves_of_trace(trace: &Vec<u64>) -> (leaves: Vec<[u8; 32]>)
    ensures
        digests(leaves@) == trace_leaves(trace@),
        leaves@.len() == trace@.len(),
{
    let mut leaves: Vec<[u8; 32]> = Vec::new();
    let mut i: usize = 0;
    while i < trace.len()
        invariant
            i <= trace@.len(),
            leaves@.len() == i,
            forall|j: int| 0 <= j < i ==> #[trigger] leaves@[j]@ == state_leaf(trace@[j]),
        decreases trace@.len() - i,
    {
        leaves.push(trace_leaf(trace[i]));
        i = i + 1;
    }
    assert(digests(leaves@) =~= trace_leaves(trace@));
    leaves
}

/// Walks `k` steps from `seed`, commits to the states, and opens the `t` steps that the
/// commitment asks for. `read_chunk` gives the words of a chunk, `weight_path` its inclusion
/// path.
pub fn build_proof<F, WP>(
    tier: u8,
    pre_pow_hash: &[u8; 32],
    nonce: u64,
    seed: u64,
    n_chunks: u64,
    k: u32,
    t: usize,
    read_chunk: F,
    weight_path: WP,
) -> (proof: PomProof) where F: Fn(u64) -> [u64; CHUNK_WORDS], WP: Fn(u64) -> Vec<[u8; 32]>
    requires
        n_chunks > 0,
        t > 0 ==> k > 0,
        forall|o: u64| o < n_chunks ==> #[trigger] call_requires(read_chunk, (o,)),
        forall|o: u64| o < n_chunks ==> #[trigger] call_requires(weight_path, (o,)),
    ensures
        exists|trace: Seq<u64>| #[trigger]
            is_walk(read_chunk, n_chunks, seed, k as nat, trace) && opens(
                proof,
                tier,
                pre_pow_hash@,
                nonce,
                n_chunks,
                k,
                t as nat,
                read_chunk,
                weight_path,
                trace,
            ),
{
    let trace = walk(seed, n_chunks, k, &read_chunk);
    let leaves = leaves_of_trace(&trace);
    let trace_root = merkle_root(&leaves);
    let final_state: u64 = trace[k as usize];
    let pow_value = pom_pow_value(final_state, pre_pow_hash);
    let steps = challenges(pre_pow_hash, nonce, &trace_root, &pow_value, t, k);
    let mut openings: Vec<PomOpening> = Vec::new();
    let mut j: usize = 0;
    while j < t
        invariant
            n_chunks > 0,
            forall|o: u64| o < n_chunks ==> #[trigger] call_requires(read_chunk, (o,)),
            forall|o: u64| o < n_chunks ==> #[trigger] call_requires(weight_path, (o,)),
            trace@.len() == k + 1,
            leaves@.len() == k + 1,
            digests(leaves@) == trace_leaves(trace@),
            steps@.len() == t,
            forall|i: int| 0 <= i < t ==> #[trigger] steps@[i] < k,
            j <= t,
            openings@.len() == j,
            forall|i: int|
                0 <= i < j ==> {
                    &&& shows_step(#[trigger] openings@[i], trace@, steps@[i] as int)
                    &&& shows_chunk(openings@[i], n_chunks, read_chunk, weight_path)
                },
        decreases t - j,
    {
        assert(steps@[j as int] < k);
        let i: usize = steps[j] as usize;
        let state_before: u64 = trace[i];
        let off: u64 = state_before % n_chunks;
        assert(off == offset(state_before, n_chunks));
        let words = read_chunk(off);
        let chunk = words_to_bytes(&words);
        let path = weight_path(off);
        let opening = PomOpening {
            state_before,
            chunk,
            weight_path: path,
            trace_path_before: merkle_proof(&leaves, i),
            trace_path_after: merkle_proof(&leaves, i + 1),
        };
        assert(shows_step(opening, trace@, steps@[j as int] as int));
        assert(shows_chunk(opening, n_chunks, read_chunk, weight_path));
        openings.push(opening);
        j = j + 1;
    }
    let proof = PomProof {
        tier,
        trace_root,
        pow_value,
        final_state,
        initial_trace_path: merkle_proof(&leaves, 0),
        final_trace_path: merkle_proof(&leaves, k as usize),
        openings,
    };
    assert(is_walk(read_chunk, n_chunks, seed, k as nat, trace@));
    proof
}

/// Whether a proof states the proof-of-work value of its own final state, within the target.
fn check_work(proof: &PomProof, pre_pow_hash: &[u8; 32], target: &[u8; 32]) -> (ok: bool)
    ensures
        ok == claims_work(*proof, pre_pow_hash@, target@),
{
    if !eq32(&pom_pow_value(proof.final_state, pre_pow_hash), &proof.pow_value) {
        return false;
    }
    le_leq(&proof.pow_value, target)
}

/// Whether the committed walk starts in `seed` and ends in the stated final state.
fn check_ends(seed: u64, proof: &PomProof, k: u32) -> (ok: bool)
    ensures
        ok == ends_hold(seed, *proof, k),
{
    if !verify_merkle(trace_leaf(seed), 0, &proof.initial_trace_path, &proof.trace_root) {
        return false;
    }
    verify_merkle(
        trace_leaf(proof.final_state),
        k as u64,
        &proof.final_trace_path,
        &proof.trace_root,
    )
}

/// Whether the committed walk is in the state of an opening before step `i`.
fn check_state(op: &PomOpening, i: u32, trace_root: &[u8; 32]) -> (ok: bool)
    ensures
        ok == state_holds(*op, i, trace_root@),
{
    verify_merkle(trace_leaf(op.state_before), i as u64, &op.trace_path_before, trace_root)
}

/// Whether an opening is consistent with step `i` of the committed walk and with the weights.
fn check_opening(
    op: &PomOpening,
    i: u32,
    trace_root: &[u8; 32],
    n_chunks: u64,
    r_t: &[u8; 32],
) -> (ok: bool)
    requires
        n_chunks > 0 || !state_holds(*op, i, trace_root@),
    ensures
        ok == opening_holds(*op, i, trace_root@, n_chunks, r_t@),
{
    if !check_state(op, i, trace_root) {
        return false;
    }
    let off: u64 = op.state_before % n_chunks;
    assert(off == offset(op.state_before, n_chunks));
    if !verify_merkle(blake(&op.chunk), off, &op.weight_path, r_t) {
        return false;
    }
    let state_after: u64 = transition(op.state_before, &chunk_to_words(&op.chunk));
    verify_merkle(trace_leaf(state_after), i as u64 + 1, &op.trace_path_after, trace_root)
}

/// Whether a proof holds for the block, the weights with root `r_t` and the target.
pub fn verify_proof(
    pre_pow_hash: &[u8; 32],
    nonce: u64,
    seed: u64,
    proof: &PomProof,
    n_chunks: u64,
    k: u32,
    t: usize,
    r_t: &[u8; 32],
    target: &[u8; 32],
) -> (ok: bool)
    requires
        decidable(pre_pow_hash@, nonce, seed, *proof, n_chunks, k, t as nat, target@),
    ensures
        ok == accepted(
            pre_pow_hash@,
            nonce,
            seed,
            *proof,
            n_chunks,
            k,
            t as nat,
            r_t@,
            target@,
        ),
{
    if proof.openings.len() != t {
        return false;
    }
    if !check_work(proof, pre_pow_hash, target) {
        return false;
    }
    if !check_ends(seed, proof, k) {
        return false;
    }
    let steps = challenges(pre_pow_hash, nonce, &proof.trace_root, &proof.pow_value, t, k);
    let mut j: usize = 0;
    while j < t
        invariant
            t > 0 ==> n_chunks > 0 || !state_holds(
                proof.openings@[0],
                steps@[0],
                proof.trace_root@,
            ),
            proof.openings@.len() == t,
            steps@ == asked_of(*proof, pre_pow_hash@, nonce, t as nat, k),
            steps@.len() == t,
            j <= t,
            forall|i: int|
                0 <= i < j ==> opening_holds(
                    #[trigger] proof.openings@[i],
                    steps@[i],
                    proof.trace_root@,
                    n_chunks,
                    r_t@,
                ),
        decreases t - j,
    {
        if !check_opening(&proof.openings[j], steps[j], &proof.trace_root, n_chunks, r_t) {
            return false;
        }
        j = j + 1;
    }
    true
}

/// Whether a proof holds for the block, the weights with root `r_t` and the target, where that
/// can be decided upon.
pub fn verify_any_proof(
    pre_pow_hash: &[u8; 32],
    nonce: u64,
    seed: u64,
    proof: &PomProof,
    n_chunks: u64,
    k: u32,
    t: usize,
    r_t: &[u8; 32],
    target: &[u8; 32],
) -> (ok: Option<bool>)
    ensures
        ok is Some <==> decidable(
            pre_pow_hash@,
            nonce,
            seed,
            *proof,
            n_chunks,
            k,
            t as nat,
            target@,
        ),
        ok matches Some(b) ==> b == accepted(
            pre_pow_hash@,
            nonce,
            seed,
            *proof,
            n_chunks,
            k,
            t as nat,
            r_t@,
            target@,
        ),
{
    let reaches_steps = t > 0 && proof.openings.len() == t && check_work(
        proof,
        pre_pow_hash,
        target,
    ) && check_ends(seed, proof, k);
    if reaches_steps && k == 0 {
        return None;
    }
    if reaches_steps && n_chunks == 0 {
        let steps = challenges(pre_pow_hash, nonce, &proof.trace_root, &proof.pow_value, t, k);
        if check_state(&proof.openings[0], steps[0], &proof.trace_root) {
            return None;
        }
    }
    Some(verify_proof(pre_pow_hash, nonce, seed, proof, n_chunks, k, t, r_t, target))
}

/// The states of the walk of `k` steps over the chunks of an index.
pub open spec fn index_trace(index: WeightIndex, seed: u64, k: u32) -> Seq<u64> {
    walk_trace(seed, index.n_chunks, index.reader(), k as nat)
}

/// Whether an opening shows a chunk of an index with its inclusion path.
pub open spec fn shows_index_chunk(op: PomOpening, index: WeightIndex) -> bool {
    let off = offset(op.state_before, index.n_chunks) as int;
    &&& op.chunk@ == chunk_at(index.layout(), off)
    &&& digests(op.weight_path@) == path_of(index.leaves(), off)
}

/// Whether `proof` is the proof of the walk from `seed` over the chunks of an index.
pub open spec fn proves_index(
    proof: PomProof,
    index: WeightIndex,
    tier: u8,
    pre_pow_hash: Seq<u8>,
    nonce: u64,
    seed: u64,
    k: u32,
    t: nat,
) -> bool {
    let trace = index_trace(index, seed, k);
    &&& commits_to(proof, tier, pre_pow_hash, trace)
    &&& proof.openings@.len() == t
    &&& forall|j: int|
        0 <= j < t ==> {
            &&& shows_step(
                #[trigger] proof.openings@[j],
                trace,
                asked_of(proof, pre_pow_hash, nonce, t, k)[j] as int,
            )
            &&& shows_index_chunk(proof.openings@[j], index)
        }
}

/// Whether the walk that `nonce` starts over an index ends within the target.
#[verifier::opaque]
pub open spec fn wins(
    index: WeightIndex,
    pre_pow_hash: Seq<u8>,
    timestamp: u64,
    target: Seq<u8>,
    k: u32,
    nonce: u64,
) -> bool {
    let seed = block_seed(pre_pow_hash, timestamp, nonce);
    le_value(pow_value(index_trace(index, seed, k).last(), pre_pow_hash)) <= le_value(target)
}

/// The nonce after the last of `max_nonces` from `nonce_start` on, at most the largest nonce.
pub open spec fn nonce_end(nonce_start: u64, max_nonces: u64) -> u64 {
    if nonce_start + max_nonces > u64::MAX {
        u64::MAX
    } else {
        (nonce_start + max_nonces) as u64
    }
}

/// Whether no nonce from `from` up to `to` wins.
pub open spec fn none_wins(
    index: WeightIndex,
    pre_pow_hash: Seq<u8>,
    timestamp: u64,
    target: Seq<u8>,
    k: u32,
    from: u64,
    to: u64,
) -> bool {
    forall|n: u64|
        from <= n < to ==> !#[trigger] wins(index, pre_pow_hash, timestamp, target, k, n)
}

/// A walk through a reader that gives one chunk per offset has one course: two such walks from
/// one seed go through the same states.
pub proof fn law_walk_is_determined<F: Fn(u64) -> [u64; CHUNK_WORDS]>(
    read: F,
    chunks: spec_fn(u64) -> Seq<u64>,
    n_chunks: u64,
    seed: u64,
    k: nat,
    trace: Seq<u64>,
)
    requires
        n_chunks > 0,
        is_walk(read, n_chunks, seed, k, trace),
        forall|o: u64, c: [u64; CHUNK_WORDS]|
            o < n_chunks && #[trigger] call_ensures(read, (o,), c) ==> c@ == chunks(o),
    ensures
        trace == walk_trace(seed, n_chunks, chunks, k),
{
    assert forall|i: int| 0 <= i <= k implies #[trigger] trace[i] == walk_state(
        seed,
        n_chunks,
        chunks,
        i as nat,
    ) by {
        lemma_walk_state_of(read, chunks, n_chunks, seed, k, trace, i as nat);
    }
    assert(trace =~= walk_trace(seed, n_chunks, chunks, k));
}

/// State `i` of a walk through a reader that gives one chunk per offset.
proof fn lemma_walk_state_of<F: Fn(u64) -> [u64; CHUNK_WORDS]>(
    read: F,
    chunks: spec_fn(u64) -> Seq<u64>,
    n_chunks: u64,
    seed: u64,
    k: nat,
    trace: Seq<u64>,
    i: nat,
)
    requires
        n_chunks > 0,
        i <= k,
        is_walk(read, n_chunks, seed, k, trace),
        forall|o: u64, c: [u64; CHUNK_WORDS]|
            o < n_chunks && #[trigger] call_ensures(read, (o,), c) ==> c@ == chunks(o),
    ensures
        trace[i as int] == walk_state(seed, n_chunks, chunks, i),
    decreases i,
{
    if i > 0 {
        let h = (i - 1) as nat;
        lemma_walk_state_of(read, chunks, n_chunks, seed, k, trace, h);
        let s = trace[h as int];
        assert(is_step(read, n_chunks, s, trace[h as int + 1]));
        lemma_offset_in_range(s, n_chunks);
        let c = choose|c: [u64; CHUNK_WORDS]|
            #[trigger] call_ensures(read, (offset(s, n_chunks),), c) && trace[i as int]
                == next_state(s, c@);
        assert(c@ == chunks(offset(s, n_chunks)));
    }
}

/// A walk goes on where it is: a walk of `a + b` steps ends where one of `b` steps ends that
/// starts from the end of one of `a`.
pub proof fn law_walks_compose(
    seed: u64,
    n_chunks: u64,
    chunks: spec_fn(u64) -> Seq<u64>,
    a: nat,
    b: nat,
)
    ensures
        walk_state(seed, n_chunks, chunks, a + b) == walk_state(
            walk_state(seed, n_chunks, chunks, a),
            n_chunks,
            chunks,
            b,
        ),
    decreases b,
{
    if b > 0 {
        law_walks_compose(seed, n_chunks, chunks, a, (b - 1) as nat);
    }
}

/// A walk only reads chunks that exist.
pub proof fn lemma_offset_in_range(state: u64, n_chunks: u64)
    requires
        n_chunks > 0,
    ensures
        offset(state, n_chunks) < n_chunks,
        offset(state, n_chunks) == state % n_chunks,
{
    vstd::arithmetic::div_mod::lemma_mod_bound(state as int, n_chunks as int);
}

/// Proofs are accepted for what they prove: a proof of the walk over an index is accepted
/// against the root of that index exactly where its proof-of-work value is within the target.
pub proof fn law_built_proof_is_accepted(
    proof: PomProof,
    index: WeightIndex,
    tier: u8,
    pre_pow_hash: Seq<u8>,
    nonce: u64,
    seed: u64,
    k: u32,
    t: nat,
    target: Seq<u8>,
)
    requires
        index.wf(),
        t > 0 ==> k > 0,
        proves_index(proof, index, tier, pre_pow_hash, nonce, seed, k, t),
    ensures
        accepted(
            pre_pow_hash,
            nonce,
            seed,
            proof,
            index.n_chunks,
            k,
            t,
            index.r_t@,
            target,
        ) <==> le_value(proof.pow_value@) <= le_value(target),
{
    let n = index.n_chunks;
    let trace = index_trace(index, seed, k);
    let leaves = trace_leaves(trace);
    law_path_leads_to_root(leaves, 0);
    law_path_leads_to_root(leaves, k as int);
    let asked = asked_of(proof, pre_pow_hash, nonce, t, k);
    assert forall|j: int| 0 <= j < t implies opening_holds(
        #[trigger] proof.openings@[j],
        asked[j],
        proof.trace_root@,
        n,
        index.r_t@,
    ) by {
        let op = proof.openings@[j];
        let i = asked[j] as int;
        lemma_challenge_in_range(
            challenge_seed(pre_pow_hash, nonce, proof.trace_root@, proof.pow_value@),
            j as nat,
            k,
        );
        law_path_leads_to_root(leaves, i);
        law_path_leads_to_root(leaves, i + 1);
        lemma_offset_in_range(op.state_before, n);
        let off = offset(op.state_before, n);
        law_chunk_is_included(index, off as int);
        assert(trace[i + 1] == next_state(trace[i], index.reader()(offset(trace[i], n))));
    }
}

/// The same for any weights: where `read` gives the chunks that `chunks` says, and `path` their
/// paths in the tree over their digests, what is proved of a walk through them is accepted
/// against the root of that tree exactly where its proof-of-work value is within the target.
pub proof fn law_reader_proof_is_accepted<
    F: Fn(u64) -> [u64; CHUNK_WORDS],
    WP: Fn(u64) -> Vec<[u8; 32]>,
>(
    proof: PomProof,
    read: F,
    path: WP,
    chunks: spec_fn(u64) -> Seq<u64>,
    leaves: Seq<Seq<u8>>,
    tier: u8,
    pre_pow_hash: Seq<u8>,
    nonce: u64,
    seed: u64,
    n_chunks: u64,
    k: u32,
    t: nat,
    trace: Seq<u64>,
    target: Seq<u8>,
)
    requires
        n_chunks > 0,
        t > 0 ==> k > 0,
        leaves.len() == n_chunks,
        forall|o: u64|
            o < n_chunks ==> #[trigger] leaves[o as int] == blake3_digest(bytes_of(chunks(o))),
        forall|o: u64, c: [u64; CHUNK_WORDS]|
            o < n_chunks && #[trigger] call_ensures(read, (o,), c) ==> c@ == chunks(o),
        forall|o: u64, p: Vec<[u8; 32]>|
            o < n_chunks && #[trigger] call_ensures(path, (o,), p) ==> digests(p@) == path_of(
                leaves,
                o as int,
            ),
        is_walk(read, n_chunks, seed, k as nat, trace),
        opens(proof, tier, pre_pow_hash, nonce, n_chunks, k, t, read, path, trace),
    ensures
        accepted(
            pre_pow_hash,
            nonce,
            seed,
            proof,
            n_chunks,
            k,
            t,
            root_of(leaves),
            target,
        ) <==> le_value(proof.pow_value@) <= le_value(target),
{
    let states = trace_leaves(trace);
    law_path_leads_to_root(states, 0);
    law_path_leads_to_root(states, k as int);
    let asked = asked_of(proof, pre_pow_hash, nonce, t, k);
    assert forall|j: int| 0 <= j < t implies opening_holds(
        #[trigger] proof.openings@[j],
        asked[j],
        proof.trace_root@,
        n_chunks,
        root_of(leaves),
    ) by {
        let op = proof.openings@[j];
        let i = asked[j] as int;
        lemma_challenge_in_range(
            challenge_seed(pre_pow_hash, nonce, proof.trace_root@, proof.pow_value@),
            j as nat,
            k,
        );
        assert(shows_step(op, trace, i));
        assert(shows_chunk(op, n_chunks, read, path));
        law_path_leads_to_root(states, i);
        law_path_leads_to_root(states, i + 1);
        lemma_offset_in_range(op.state_before, n_chunks);
        let off = offset(op.state_before, n_chunks);
        law_path_leads_to_root(leaves, off as int);
        let c = choose|c: [u64; CHUNK_WORDS]|
            #[trigger] call_ensures(read, (off,), c) && op.chunk@ == bytes_of(c@);
        law_bytes_then_words(c@);
        assert(is_step(read, n_chunks, trace[i], trace[i + 1]));
        let d = choose|d: [u64; CHUNK_WORDS]|
            #[trigger] call_ensures(read, (off,), d) && trace[i + 1] == next_state(trace[i], d@);
        assert(c@ == chunks(off));
        assert(d@ == chunks(off));
    }
}

/// A challenge asks for a step that the walk has.
pub proof fn lemma_challenge_in_range(seed: Seq<u8>, j: nat, k: u32)
    requires
        k > 0,
    ensures
        challenge(seed, j, k) < k,
{
    let v = le_value(blake3_digest(seed + le_bytes(j, 8)).subrange(0, 8));
    vstd::arithmetic::div_mod::lemma_mod_bound(v as int, k as int);
}

/// A proof that opens at least one step is accepted against one weight root only.
pub proof fn law_one_weight_root(
    pre_pow_hash: Seq<u8>,
    nonce: u64,
    seed: u64,
    proof: PomProof,
    n_chunks: u64,
    k: u32,
    t: nat,
    r: Seq<u8>,
    s: Seq<u8>,
    target: Seq<u8>,
)
    requires
        t > 0,
        r != s,
        accepted(pre_pow_hash, nonce, seed, proof, n_chunks, k, t, r, target),
    ensures
        !accepted(pre_pow_hash, nonce, seed, proof, n_chunks, k, t, s, target),
{
    let op = proof.openings@[0];
    assert(opening_holds(
        op,
        asked_of(proof, pre_pow_hash, nonce, t, k)[0],
        proof.trace_root@,
        n_chunks,
        r,
    ));
}

/// The chunks of a model, in order.
pub open spec fn chunks_of(index: WeightIndex) -> Seq<Seq<u8>> {
    Seq::new(index.layout().len() / 32, |i: int| chunk_at(index.layout(), i))
}

/// The two inputs with the same digest that an opening shows which verifies against a model
/// without holding its chunk.
pub open spec fn opening_collision(index: WeightIndex, op: PomOpening) -> (Seq<u8>, Seq<u8>) {
    tree_collision(
        chunks_of(index),
        op.chunk@,
        offset(op.state_before, index.n_chunks) as int,
        digests(op.weight_path@),
    )
}

/// What an accepted proof opens is the model: the chunk of every opening is the chunk that the
/// model has at the offset that the walk reads, or the opening shows two different inputs with
/// the same digest.
pub proof fn law_accepted_openings_show_the_model(
    index: WeightIndex,
    pre_pow_hash: Seq<u8>,
    nonce: u64,
    seed: u64,
    proof: PomProof,
    k: u32,
    t: nat,
    target: Seq<u8>,
    j: int,
)
    requires
        index.wf(),
        accepted(pre_pow_hash, nonce, seed, proof, index.n_chunks, k, t, index.r_t@, target),
        0 <= j < t,
    ensures
        ({
            let op = proof.openings@[j];
            op.chunk@ == chunk_at(
                index.layout(),
                offset(op.state_before, index.n_chunks) as int,
            ) || collide(opening_collision(index, op))
        }),
{
    let op = proof.openings@[j];
    let off = offset(op.state_before, index.n_chunks) as int;
    lemma_offset_in_range(op.state_before, index.n_chunks);
    assert(opening_holds(
        op,
        asked_of(proof, pre_pow_hash, nonce, t, k)[j],
        proof.trace_root@,
        index.n_chunks,
        index.r_t@,
    ));
    assert(leaf_digests(chunks_of(index)) =~= index.leaves());
    assert(sized(digests(op.weight_path@)));
    law_tree_binds_leaf(chunks_of(index), op.chunk@, off, digests(op.weight_path@));
}

/// The two inputs with the same digest that a proof shows which is accepted for two seeds.
pub open spec fn seed_collision(proof: PomProof, seed: u64, other_seed: u64) -> (
    Seq<u8>,
    Seq<u8>,
) {
    let states = (le_bytes(seed as nat, 8), le_bytes(other_seed as nat, 8));
    let path = digests(proof.initial_trace_path@);
    if collide(states) {
        states
    } else {
        path_collision(state_leaf(seed), state_leaf(other_seed), 0, path, path)
    }
}

/// A proof is bound to its seed, and so to its block and nonce: where it is accepted for two, it
/// shows two different inputs with the same digest.
pub proof fn law_proof_binds_seed(
    pre_pow_hash: Seq<u8>,
    nonce: u64,
    seed: u64,
    other_hash: Seq<u8>,
    other_nonce: u64,
    other_seed: u64,
    proof: PomProof,
    n_chunks: u64,
    k: u32,
    t: nat,
    r_t: Seq<u8>,
    target: Seq<u8>,
)
    requires
        accepted(pre_pow_hash, nonce, seed, proof, n_chunks, k, t, r_t, target),
        accepted(other_hash, other_nonce, other_seed, proof, n_chunks, k, t, r_t, target),
    ensures
        seed == other_seed || collide(seed_collision(proof, seed, other_seed)),
{
    let path = digests(proof.initial_trace_path@);
    law_root_binds_leaf(state_leaf(seed), state_leaf(other_seed), 0, path, path);
    if seed != other_seed {
        lemma_pow256_machine();
        lemma_le_value_of_bytes(seed as nat, 8);
        lemma_le_value_of_bytes(other_seed as nat, 8);
        assert(le_bytes(seed as nat, 8) != le_bytes(other_seed as nat, 8));
    }
}

/// The final state of the walk from `seed` over the chunks of an index.
fn walk_index(index: &WeightIndex, seed: u64, k: u32) -> (state: u64)
    requires
        index.wf(),
    ensures
        state == index_trace(*index, seed, k).last(),
{
    let read = |o: u64| -> (c: [u64; CHUNK_WORDS])
        requires
            index.wf(),
            o < index.n_chunks,
        ensures
            c@ == index.chunk_words(o),
        { index.read_chunk(o) };
    let state: u64 = walk_final(seed, index.n_chunks, k, read);
    proof {
        let trace = choose|trace: Seq<u64>| #[trigger]
            is_walk(read, index.n_chunks, seed, k as nat, trace) && state == trace.last();
        law_walk_is_determined(read, index.reader(), index.n_chunks, seed, k as nat, trace);
    }
    state
}

/// Whether the walk that `nonce` starts over an index ends within the target.
pub fn nonce_wins(
    index: &WeightIndex,
    pre_pow_hash: &[u8; 32],
    timestamp: u64,
    target: &[u8; 32],
    k: u32,
    nonce: u64,
) -> (yes: bool)
    requires
        index.wf(),
    ensures
        yes == wins(*index, pre_pow_hash@, timestamp, target@, k, nonce),
{
    let seed: u64 = pom_block_seed(pre_pow_hash, timestamp, nonce);
    let final_state: u64 = walk_index(index, seed, k);
    reveal(wins);
    le_leq(&pom_pow_value(final_state, pre_pow_hash), target)
}

/// Whether `proof` is the proof of the walk that `nonce` starts over an index, and is accepted.
pub open spec fn proves_nonce(
    proof: PomProof,
    index: WeightIndex,
    tier: u8,
    pre_pow_hash: Seq<u8>,
    timestamp: u64,
    target: Seq<u8>,
    k: u32,
    t: nat,
    nonce: u64,
) -> bool {
    let seed = block_seed(pre_pow_hash, timestamp, nonce);
    &&& proves_index(proof, index, tier, pre_pow_hash, nonce, seed, k, t)
    &&& accepted(
        pre_pow_hash,
        nonce,
        seed,
        proof,
        index.n_chunks,
        k,
        t,
        index.r_t@,
        target,
    )
}

/// Walks from one nonce, and proves the walk where it wins.
fn try_nonce(
    index: &WeightIndex,
    tier: u8,
    pre_pow_hash: &[u8; 32],
    timestamp: u64,
    target: &[u8; 32],
    k: u32,
    t: usize,
    nonce: u64,
) -> (proof: Option<PomProof>)
    requires
        index.wf(),
        k > 0 || t == 0 || !wins(*index, pre_pow_hash@, timestamp, target@, k, nonce),
    ensures
        proof is Some <==> wins(*index, pre_pow_hash@, timestamp, target@, k, nonce),
        proof matches Some(p) ==> proves_nonce(
            p,
            *index,
            tier,
            pre_pow_hash@,
            timestamp,
            target@,
            k,
            t as nat,
            nonce,
        ),
{
    if !nonce_wins(index, pre_pow_hash, timestamp, target, k, nonce) {
        return None;
    }
    reveal(wins);
    let seed: u64 = pom_block_seed(pre_pow_hash, timestamp, nonce);
    let proof = prove_index(index, tier, pre_pow_hash, nonce, seed, k, t);
    proof {
        law_built_proof_is_accepted(
            proof,
            *index,
            tier,
            pre_pow_hash@,
            nonce,
            seed,
            k,
            t as nat,
            target@,
        );
    }
    Some(proof)
}

/// Tries the `max_nonces` nonces from `nonce_start` on, in order, and proves the walk of the
/// first that wins.
pub fn mine_pom(
    index: &WeightIndex,
    tier: u8,
    pre_pow_hash: &[u8; 32],
    timestamp: u64,
    target: &[u8; 32],
    k: u32,
    t: usize,
    nonce_start: u64,
    max_nonces: u64,
) -> (found: Option<(u64, PomProof)>)
    requires
        index.wf(),
        k > 0 || t == 0 || none_wins(
            *index,
            pre_pow_hash@,
            timestamp,
            target@,
            k,
            nonce_start,
            nonce_end(nonce_start, max_nonces),
        ),
    ensures
        match found {
            None => {
                &&& none_wins(
                    *index,
                    pre_pow_hash@,
                    timestamp,
                    target@,
                    k,
                    nonce_start,
                    nonce_end(nonce_start, max_nonces),
                )
                &&& forall|n: u64|
                    nonce_start <= n < nonce_start + max_nonces && n < u64::MAX ==> !#[trigger] wins(
                        *index,
                        pre_pow_hash@,
                        timestamp,
                        target@,
                        k,
                        n,
                    )
            },
            Some((nonce, proof)) => {
                &&& nonce_start <= nonce < nonce_end(nonce_start, max_nonces)
                &&& wins(*index, pre_pow_hash@, timestamp, target@, k, nonce)
                &&& none_wins(
                    *index,
                    pre_pow_hash@,
                    timestamp,
                    target@,
                    k,
                    nonce_start,
                    nonce,
                )
                &&& proves_nonce(
                    proof,
                    *index,
                    tier,
                    pre_pow_hash@,
                    timestamp,
                    target@,
                    k,
                    t as nat,
                    nonce,
                )
            },
        },
{
    let end: u64 = nonce_start.saturating_add(max_nonces);
    let mut nonce: u64 = nonce_start;
    while nonce < end
        invariant
            index.wf(),
            end == nonce_end(nonce_start, max_nonces),
            k > 0 || t == 0 || none_wins(
                *index,
                pre_pow_hash@,
                timestamp,
                target@,
                k,
                nonce_start,
                end,
            ),
            nonce_start <= nonce <= end,
            none_wins(*index, pre_pow_hash@, timestamp, target@, k, nonce_start, nonce),
        decreases end - nonce,
    {
        match try_nonce(index, tier, pre_pow_hash, timestamp, target, k, t, nonce) {
            Some(proof) => {
                return Some((nonce, proof));
            },
            None => {},
        }
        nonce = nonce + 1;
    }
    None
}

/// The proof of the walk from `seed` over the chunks of an index.
pub fn prove_index(
    index: &WeightIndex,
    tier: u8,
    pre_pow_hash: &[u8; 32],
    nonce: u64,
    seed: u64,
    k: u32,
    t: usize,
) -> (proof: PomProof)
    requires
        index.wf(),
        t > 0 ==> k > 0,
    ensures
        proves_index(proof, *index, tier, pre_pow_hash@, nonce, seed, k, t as nat),
{
    let read = |o: u64| -> (c: [u64; CHUNK_WORDS])
        requires
            index.wf(),
            o < index.n_chunks,
        ensures
            c@ == index.chunk_words(o),
        { index.read_chunk(o) };
    let path = |o: u64| -> (p: Vec<[u8; 32]>)
        requires
            index.wf(),
            o < index.n_chunks,
        ensures
            digests(p@) == path_of(index.leaves(), o as int),
        { index.merkle_path(o) };
    let proof = build_proof(
        tier,
        pre_pow_hash,
        nonce,
        seed,
        index.n_chunks,
        k,
        t,
        read,
        path,
    );
    proof {
        let n = index.n_chunks;
        let trace = choose|trace: Seq<u64>| #[trigger]
            is_walk(read, n, seed, k as nat, trace) && opens(
                proof,
                tier,
                pre_pow_hash@,
                nonce,
                n,
                k,
                t as nat,
                read,
                path,
                trace,
            );
        law_walk_is_determined(read, index.reader(), n, seed, k as nat, trace);
        assert forall|j: int| 0 <= j < t implies shows_index_chunk(
            #[trigger] proof.openings@[j],
            *index,
        ) by {
            let op = proof.openings@[j];
            lemma_offset_in_range(op.state_before, n);
            let off = offset(op.state_before, n);
            assert(shows_chunk(op, n, read, path));
            let c = choose|c: [u64; CHUNK_WORDS]|
                #[trigger] call_ensures(read, (off,), c) && op.chunk@ == bytes_of(c@);
            assert(c@ == index.chunk_words(off));
            law_words_then_bytes(chunk_at(index.layout(), off as int));
        }
    }
    proof
}

/// What is hashed to the leaves of a trace: its states, eight bytes each.
pub open spec fn state_blocks(trace: Seq<u64>) -> Seq<Seq<u8>> {
    Seq::new(trace.len(), |i: int| le_bytes(trace[i] as nat, 8))
}

/// The two inputs with the same digest that a state shows which verifies at position `i` of a
/// trace without being there.
pub open spec fn state_collision(trace: Seq<u64>, state: u64, i: int, path: Seq<[u8; 32]>) -> (
    Seq<u8>,
    Seq<u8>,
) {
    tree_collision(state_blocks(trace), le_bytes(state as nat, 8), i, digests(path))
}

/// A state that verifies at a position of a trace is the state that the trace has there, or shows
/// two different inputs with the same digest.
pub proof fn law_root_binds_state(trace: Seq<u64>, state: u64, i: int, path: Seq<[u8; 32]>)
    requires
        0 <= i < trace.len(),
        fold_path(state_leaf(state), i, digests(path)) == root_of(trace_leaves(trace)),
    ensures
        state == trace[i] || collide(state_collision(trace, state, i, path)),
{
    let blocks = state_blocks(trace);
    assert forall|x: int| 0 <= x < blocks.len() implies #[trigger] blocks[x].len() != 64 by {
        lemma_le_bytes_len(trace[x] as nat, 8);
    }
    lemma_le_bytes_len(state as nat, 8);
    assert(leaf_digests(blocks) =~= trace_leaves(trace));
    assert(sized(digests(path)));
    law_tree_binds_leaf(blocks, le_bytes(state as nat, 8), i, digests(path));
    if state != trace[i] {
        lemma_pow256_machine();
        lemma_le_value_of_bytes(state as nat, 8);
        lemma_le_value_of_bytes(trace[i] as nat, 8);
    }
}

/// Accepted proofs open real steps. Whatever trace of `k + 1` states a proof has committed to,
/// opening `j` holds the state that the trace has before the step that was asked for, and the
/// trace goes on from there by reading the chunk of the opening, or one of its two paths shows
/// two different inputs with the same digest.
pub proof fn law_accepted_openings_are_steps(
    pre_pow_hash: Seq<u8>,
    nonce: u64,
    seed: u64,
    proof: PomProof,
    n_chunks: u64,
    k: u32,
    t: nat,
    r_t: Seq<u8>,
    target: Seq<u8>,
    trace: Seq<u64>,
    j: int,
)
    requires
        accepted(pre_pow_hash, nonce, seed, proof, n_chunks, k, t, r_t, target),
        k > 0,
        trace.len() == k + 1,
        root_of(trace_leaves(trace)) == proof.trace_root@,
        0 <= j < t,
    ensures
        proof.openings@.len() == t,
        ({
            let op = proof.openings@[j];
            let i = asked_of(proof, pre_pow_hash, nonce, t, k)[j] as int;
            let words = words_of(op.chunk@);
            let after = next_state(op.state_before, words);
            ||| op.state_before == trace[i] && trace[i + 1] == next_state(trace[i], words)
            ||| collide(state_collision(trace, op.state_before, i, op.trace_path_before@))
            ||| collide(state_collision(trace, after, i + 1, op.trace_path_after@))
        }),
{
    let op = proof.openings@[j];
    let step = asked_of(proof, pre_pow_hash, nonce, t, k)[j];
    lemma_challenge_in_range(
        challenge_seed(pre_pow_hash, nonce, proof.trace_root@, proof.pow_value@),
        j as nat,
        k,
    );
    assert(opening_holds(op, step, proof.trace_root@, n_chunks, r_t));
    let after = next_state(op.state_before, words_of(op.chunk@));
    law_root_binds_state(trace, op.state_before, step as int, op.trace_path_before@);
    law_root_binds_state(trace, after, step + 1, op.trace_path_after@);
}

/// Accepted proofs are proofs of work. Whatever trace of `k + 1` states a proof has committed to,
/// it starts in the seed and ends in a state whose proof-of-work value is within the target, or
/// one of the two paths of the ends shows two different inputs with the same digest.
pub proof fn law_accepted_proof_has_work(
    pre_pow_hash: Seq<u8>,
    nonce: u64,
    seed: u64,
    proof: PomProof,
    n_chunks: u64,
    k: u32,
    t: nat,
    r_t: Seq<u8>,
    target: Seq<u8>,
    trace: Seq<u64>,
)
    requires
        accepted(pre_pow_hash, nonce, seed, proof, n_chunks, k, t, r_t, target),
        trace.len() == k + 1,
        root_of(trace_leaves(trace)) == proof.trace_root@,
    ensures
        trace[0] == seed || collide(state_collision(trace, seed, 0, proof.initial_trace_path@)),
        ({
            ||| le_value(pow_value(trace[k as int], pre_pow_hash)) <= le_value(target)
            ||| collide(
                state_collision(trace, proof.final_state, k as int, proof.final_trace_path@),
            )
        }),
        proof.pow_value@ == pow_value(proof.final_state, pre_pow_hash),
{
    law_root_binds_state(trace, seed, 0, proof.initial_trace_path@);
    law_root_binds_state(trace, proof.final_state, k as int, proof.final_trace_path@);
}

/// Challenges are drawn apart. With `header` for the hash, the nonce, the trace root and the
/// proof-of-work value one after the other, and `w` for eight bytes that stand for `j`, step `j`
/// is what the first eight bytes of the digest of the header's digest and `w` leave modulo `k`.
pub proof fn law_challenges_are_drawn_apart(
    header: Seq<u8>,
    nonce: u64,
    w: Seq<u8>,
    t: nat,
    k: u32,
    j: int,
)
    requires
        header.len() == 104,
        le_value(header.subrange(32, 40)) == nonce,
        w.len() == 8,
        le_value(w) == j,
        0 <= j < t,
        k > 0,
    ensures
        ({
            let steps = challenge_steps(
                header.subrange(0, 32),
                nonce,
                header.subrange(40, 72),
                header.subrange(72, 104),
                t,
                k,
            );
            let drawn = blake3_digest(blake3_digest(header) + w);
            &&& steps.len() == t
            &&& steps[j] as nat == le_value(drawn.subrange(0, 8)) % (k as nat)
        }),
{
    lemma_le_bytes_of_value(w);
    lemma_le_bytes_of_value(header.subrange(32, 40));
    assert(header =~= header.subrange(0, 32) + le_bytes(nonce as nat, 8) + header.subrange(40, 72)
        + header.subrange(72, 104));
    let v = le_value(blake3_digest(blake3_digest(header) + w).subrange(0, 8));
    vstd::arithmetic::div_mod::lemma_mod_bound(v as int, k as int);
}

/// Two different challenges of one proof come from different inputs, so that they rest on one
/// digest only by a collision.
pub proof fn law_challenge_inputs_differ(seed: Seq<u8>, i: nat, j: nat)
    requires
        i < pow256(8),
        j < pow256(8),
        i != j,
    ensures
        seed + le_bytes(i, 8) != seed + le_bytes(j, 8),
{
    lemma_le_value_of_bytes(i, 8);
    lemma_le_value_of_bytes(j, 8);
    let (a, b) = (seed + le_bytes(i, 8), seed + le_bytes(j, 8));
    let n = seed.len() as int;
    assert(a.subrange(n, n + 8) =~= le_bytes(i, 8));
    assert(b.subrange(n, n + 8) =~= le_bytes(j, 8));
}

/// A range has as many nonces as were asked for, as long as they fit in 64 bits; one that does
/// not stops short of the largest nonce.
pub proof fn law_range_has_max_nonces(nonce_start: u64, max_nonces: u64)
    ensures
        nonce_start + max_nonces <= u64::MAX ==> nonce_end(nonce_start, max_nonces) - nonce_start
            == max_nonces,
        nonce_start + max_nonces > u64::MAX ==> nonce_end(nonce_start, max_nonces) == u64::MAX,
{
}

/// A range without a winner is exhausted: no nonce of it wins.
pub proof fn law_exhausted_range_has_no_winner(
    index: WeightIndex,
    pre_pow_hash: Seq<u8>,
    timestamp: u64,
    target: Seq<u8>,
    k: u32,
    nonce_start: u64,
    max_nonces: u64,
    nonce: u64,
)
    requires
        none_wins(
            index,
            pre_pow_hash,
            timestamp,
            target,
            k,
            nonce_start,
            nonce_end(nonce_start, max_nonces),
        ),
        nonce_start <= nonce < nonce_start + max_nonces,
        nonce < u64::MAX,
    ensures
        !wins(index, pre_pow_hash, timestamp, target, k, nonce),
{
}

/// A nonce wins exactly where the proof of its walk is accepted, so that mining passes over no
/// nonce that the verifier would take.
pub proof fn law_nonce_wins_where_its_proof_is_accepted(
    proof: PomProof,
    index: WeightIndex,
    tier: u8,
    pre_pow_hash: Seq<u8>,
    timestamp: u64,
    nonce: u64,
    k: u32,
    t: nat,
    target: Seq<u8>,
)
    requires
        index.wf(),
        t > 0 ==> k > 0,
        proves_index(
            proof,
            index,
            tier,
            pre_pow_hash,
            nonce,
            block_seed(pre_pow_hash, timestamp, nonce),
            k,
            t,
        ),
    ensures
        wins(index, pre_pow_hash, timestamp, target, k, nonce) <==> accepted(
            pre_pow_hash,
            nonce,
            block_seed(pre_pow_hash, timestamp, nonce),
            proof,
            index.n_chunks,
            k,
            t,
            index.r_t@,
            target,
        ),
        proof.tier == tier,
{
    reveal(wins);
    law_built_proof_is_accepted(
        proof,
        index,
        tier,
        pre_pow_hash,
        nonce,
        block_seed(pre_pow_hash, timestamp, nonce),
        k,
        t,
        target,
    );
}

/// Every proof can be decided upon where walks have steps and the model has chunks.
pub proof fn law_ordinary_proofs_are_decidable(
    pre_pow_hash: Seq<u8>,
    nonce: u64,
    seed: u64,
    proof: PomProof,
    n_chunks: u64,
    k: u32,
    t: nat,
    target: Seq<u8>,
)
    requires
        k > 0,
        n_chunks > 0,
    ensures
        decidable(pre_pow_hash, nonce, seed, proof, n_chunks, k, t, target),
{
}

/// A walk reads the chunk whose number the state leaves modulo the number of chunks: its first
/// step from any state, and so, since walks go on where they are, every step.
pub proof fn law_walk_reads_by_state(
    seed: u64,
    n_chunks: u64,
    chunks: spec_fn(u64) -> Seq<u64>,
    i: nat,
    q: nat,
    off: u64,
)
    requires
        off < n_chunks,
        walk_state(seed, n_chunks, chunks, i) == q * n_chunks + off,
    ensures
        walk_state(seed, n_chunks, chunks, 0) == seed,
        walk_state(seed, n_chunks, chunks, i + 1) == next_state(
            walk_state(seed, n_chunks, chunks, i),
            chunks(off),
        ),
{
    let s = walk_state(seed, n_chunks, chunks, i);
    vstd::arithmetic::div_mod::lemma_fundamental_div_mod_converse(
        s as int,
        n_chunks as int,
        q as int,
        off as int,
    );
}

/// A proof is asked for steps that its own header draws: with `header` for the hash, the nonce,
/// the proof's trace root and its proof-of-work value, and `w` for eight bytes that stand for
/// `j`, opening `j` is asked for the step that the digest of the header's digest and `w` gives.
pub proof fn law_proof_is_asked_by_its_header(
    proof: PomProof,
    header: Seq<u8>,
    nonce: u64,
    w: Seq<u8>,
    t: nat,
    k: u32,
    j: int,
)
    requires
        header.len() == 104,
        le_value(header.subrange(32, 40)) == nonce,
        header.subrange(40, 72) == proof.trace_root@,
        header.subrange(72, 104) == proof.pow_value@,
        w.len() == 8,
        le_value(w) == j,
        0 <= j < t,
        k > 0,
    ensures
        asked_of(proof, header.subrange(0, 32), nonce, t, k).len() == t,
        asked_of(proof, header.subrange(0, 32), nonce, t, k)[j] as nat == le_value(
            blake3_digest(blake3_digest(header) + w).subrange(0, 8),
        ) % (k as nat),
{
    law_challenges_are_drawn_apart(header, nonce, w, t, k, j);
}

} // verus!
