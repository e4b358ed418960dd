//! What a search for a nonce on a graphics card is given, and what its answer means.

use vstd::prelude::*;
use crate::index::{full_chunks, layout_of, WeightIndex, CHUNK_BYTES};
use crate::mix::{chunk_to_words, words_of};
use crate::possession::{nonce_wins, wins, POM_WALK_STEPS};

verus! {

/// How many nonces a block of threads tries.
pub const THREADS: u64 = 256;

/// A tensor on the card.
#[derive(Clone, Copy, Debug)]
pub struct Resident {
    /// How many bytes it takes.
    pub size: usize,
    /// Where it lies.
    pub base: u64,
}

/// How many full chunks a tensor has.
pub open spec fn chunks_in(t: Resident) -> nat {
    t.size as nat / 32
}

/// The tensors that have a full chunk.
pub open spec fn kept(tensors: Seq<Resident>) -> Seq<Resident>
    decreases tensors.len(),
{
    if tensors.len() == 0 {
        Seq::empty()
    } else if chunks_in(tensors.last()) > 0 {
        kept(tensors.drop_last()).push(tensors.last())
    } else {
        kept(tensors.drop_last())
    }
}

/// How many full chunks some tensors have.
pub open spec fn chunk_total(tensors: Seq<Resident>) -> nat
    decreases tensors.len(),
{
    if tensors.len() == 0 {
        0
    } else {
        chunk_total(tensors.drop_last()) + chunks_in(tensors.last())
    }
}

/// The chunks of a model on the card: where each tensor that has some lies, and how many chunks
/// come before it.
pub struct PomGpuMiner {
    /// Where the tensors lie.
    pub bases: Vec<u64>,
    /// How many chunks come before each tensor, and at the end how many there are.
    pub prefix: Vec<u64>,
    /// How many chunks there are.
    pub n_total_chunks: u64,
}

/// What the search on the card is given.
pub struct Launch {
    /// The header's hash before the nonce, as words.
    pub pre_pow_hash: [u64; 4],
    /// The target, as words.
    pub target: [u64; 4],
    /// How many steps a walk has.
    pub walk_steps: u32,
    /// How many blocks of threads are started.
    pub grid: u32,
    /// How many threads a block has.
    pub block: u32,
    /// What the card's answer is set to before it starts.
    pub no_winner: u64,
}

impl PomGpuMiner {
    /// Whether this is the gather index of some tensors.
    pub open spec fn gathers(&self, tensors: Seq<Resident>) -> bool {
        let have = kept(tensors);
        &&& self.bases@.len() == have.len()
        &&& forall|i: int| 0 <= i < have.len() ==> #[trigger] self.bases@[i] == have[i].base
        &&& self.prefix@.len() == have.len() + 1
        &&& forall|i: int|
            0 <= i <= have.len() ==> #[trigger] self.prefix@[i] == chunk_total(have.subrange(0, i))
        &&& self.n_total_chunks == chunk_total(tensors)
    }

    /// Builds the gather index of a model from its tensors, given in canonical order. There is
    /// none where no tensor holds a full chunk.
    pub fn load(tensors: &Vec<Resident>) -> (miner: Option<PomGpuMiner>)
        requires
            chunk_total(tensors@) <= u64::MAX,
        ensures
            miner is None <==> chunk_total(tensors@) == 0,
            miner matches Some(m) ==> m.gathers(tensors@),
    {
        let mut bases: Vec<u64> = Vec::new();
        let mut prefix: Vec<u64> = Vec::new();
        prefix.push(0);
        let mut total: u64 = 0;
        let mut i: usize = 0;
        proof {
            lemma_kept_total(tensors@.subrange(0, 0));
            assert(kept(tensors@.subrange(0, 0)).subrange(0, 0) =~= Seq::empty());
        }
        while i < tensors.len()
            invariant
                i <= tensors@.len(),
                chunk_total(tensors@) <= u64::MAX,
                total == chunk_total(tensors@.subrange(0, i as int)),
                (PomGpuMiner { bases, prefix, n_total_chunks: total }).gathers(
                    tensors@.subrange(0, i as int),
                ),
            decreases tensors@.len() - i,
        {
            let ghost before = tensors@.subrange(0, i as int);
            let ghost after = tensors@.subrange(0, i + 1);
            let ghost prefix0 = prefix@;
            proof {
                assert(after.drop_last() =~= before);
                lemma_chunk_total_grows(tensors@, i + 1);
                lemma_kept_total(before);
                lemma_kept_total(after);
            }
            let t = tensors[i];
            if Self::has_chunk(t.size) {
                let chunks: u64 = (t.size / CHUNK_BYTES) as u64;
                total = total + chunks;
                bases.push(t.base);
                prefix.push(total);
                proof {
                    let have = kept(after);
                    assert(have == kept(before).push(t));
                    assert forall|j: int| 0 <= j <= have.len() implies #[trigger] prefix@[j]
                        == chunk_total(have.subrange(0, j)) by {
                        if j < have.len() {
                            assert(have.subrange(0, j) =~= kept(before).subrange(0, j));
                            assert(prefix@[j] == prefix0[j]);
                        } else {
                            assert(have.subrange(0, j) =~= have);
                        }
                    }
                }
            }
            i = i + 1;
        }
        assert(tensors@.subrange(0, i as int) =~= tensors@);
        if total == 0 {
            return None;
        }
        Some(PomGpuMiner { bases, prefix, n_total_chunks: total })
    }

    /// Whether a tensor of `size` bytes has a full chunk, so that the card needs to know where it
    /// lies.
    pub fn has_chunk(size: usize) -> (yes: bool)
        ensures
            yes == (chunks_in((Resident { size, base: 0 })) > 0),
    {
        size >= CHUNK_BYTES
    }

    /// How many chunks there are.
    pub fn n_chunks(&self) -> (n: u64)
        ensures
            n == self.n_total_chunks,
    {
        self.n_total_chunks
    }

    /// How many tensors the card gathers from.
    pub fn tensor_count(&self) -> (n: u32)
        ensures
            n == self.bases@.len() as u32,
    {
        self.bases.len() as u32
    }
}

/// The words of a 32-byte block.
pub fn words4(b: &[u8; 32]) -> (words: [u64; 4])
    ensures
        words@ == words_of(b@),
{
    chunk_to_words(b)
}

/// How many blocks of threads it takes to try `batch` nonces.
pub open spec fn grid_for(batch: u64) -> u32 {
    ((batch + 255) / 256) as u32
}

/// What the search of `batch` nonces is given.
pub fn launch(pre_pow_hash: &[u8; 32], target_le: &[u8; 32], batch: u64) -> (l: Launch)
    requires
        batch + 255 <= u64::MAX,
    ensures
        l.pre_pow_hash@ == words_of(pre_pow_hash@),
        l.target@ == words_of(target_le@),
        l.walk_steps == POM_WALK_STEPS,
        l.grid == grid_for(batch),
        l.block == THREADS,
        l.no_winner == u64::MAX,
{
    Launch {
        pre_pow_hash: words4(pre_pow_hash),
        target: words4(target_le),
        walk_steps: POM_WALK_STEPS,
        grid: ((batch + 255) / 256) as u32,
        block: 256,
        no_winner: u64::MAX,
    }
}

/// Whether a nonce is among the `batch` nonces from `start` on.
pub open spec fn in_batch(nonce: u64, start: u64, batch: u64) -> bool {
    start <= nonce < start + batch
}

/// The nonce that the card's answer stands for. The card answers with the lowest nonce that wins,
/// and with the largest nonce where it found none, so that this one answer can mean both; whether
/// that nonce itself wins decides.
pub open spec fn answered(answer: u64, start: u64, batch: u64, last_wins: bool) -> Option<u64> {
    if answer != u64::MAX || (in_batch(u64::MAX, start, batch) && last_wins) {
        Some(answer)
    } else {
        None
    }
}

/// Whether `nonce` is the lowest nonce of a batch that wins over an index, or there is none.
pub open spec fn is_lowest(
    nonce: Option<u64>,
    index: WeightIndex,
    pre_pow_hash: Seq<u8>,
    timestamp: u64,
    target: Seq<u8>,
    start: u64,
    batch: u64,
) -> bool {
    match nonce {
        Some(n) => {
            &&& in_batch(n, start, batch)
            &&& wins(index, pre_pow_hash, timestamp, target, POM_WALK_STEPS, n)
            &&& forall|m: u64|
                in_batch(m, start, batch) && m < n ==> !#[trigger] wins(
                    index,
                    pre_pow_hash,
                    timestamp,
                    target,
                    POM_WALK_STEPS,
                    m,
                )
        },
        None => forall|m: u64|
            in_batch(m, start, batch) ==> !#[trigger] wins(
                index,
                pre_pow_hash,
                timestamp,
                target,
                POM_WALK_STEPS,
                m,
            ),
    }
}

/// The nonce that the card's answer stands for, where `last_wins` says whether the largest nonce
/// wins.
pub fn winner(answer: u64, start: u64, batch: u64, last_wins: bool) -> (nonce: Option<u64>)
    ensures
        nonce == answered(answer, start, batch, last_wins),
{
    if answer != u64::MAX {
        Some(answer)
    } else if last_wins && batch > u64::MAX - start {
        Some(answer)
    } else {
        None
    }
}

/// The nonce that the card's answer to a search over the model of `index` stands for. Where the
/// answer can mean two things, the walk of the largest nonce decides.
pub fn mined_nonce(
    index: &WeightIndex,
    pre_pow_hash: &[u8; 32],
    timestamp: u64,
    target_le: &[u8; 32],
    start: u64,
    batch: u64,
    answer: u64,
) -> (nonce: Option<u64>)
    requires
        index.wf(),
    ensures
        nonce == answered(
            answer,
            start,
            batch,
            wins(*index, pre_pow_hash@, timestamp, target_le@, POM_WALK_STEPS, u64::MAX),
        ),
{
    let last_wins = answer == u64::MAX && batch > u64::MAX - start && nonce_wins(
        index,
        pre_pow_hash,
        timestamp,
        target_le,
        POM_WALK_STEPS,
        u64::MAX,
    );
    winner(answer, start, batch, last_wins)
}

/// A card that answers with the lowest nonce that wins, or with the largest nonce where it found
/// none below that, gives the lowest nonce that wins.
pub proof fn law_answer_is_lowest(
    index: WeightIndex,
    pre_pow_hash: Seq<u8>,
    timestamp: u64,
    target: Seq<u8>,
    start: u64,
    batch: u64,
    answer: u64,
)
    requires
        answer != u64::MAX ==> is_lowest(
            Some(answer),
            index,
            pre_pow_hash,
            timestamp,
            target,
            start,
            batch,
        ),
        answer == u64::MAX ==> forall|m: u64|
            in_batch(m, start, batch) && m < u64::MAX ==> !#[trigger] wins(
                index,
                pre_pow_hash,
                timestamp,
                target,
                POM_WALK_STEPS,
                m,
            ),
    ensures
        is_lowest(
            answered(
                answer,
                start,
                batch,
                wins(index, pre_pow_hash, timestamp, target, POM_WALK_STEPS, u64::MAX),
            ),
            index,
            pre_pow_hash,
            timestamp,
            target,
            start,
            batch,
        ),
{
}

/// Every nonce of a batch has a thread, and no block of threads is without one, as long as the
/// number of blocks fits.
pub proof fn law_grid_covers_batch(batch: u64)
    requires
        batch <= u32::MAX * THREADS,
    ensures
        batch <= grid_for(batch) * THREADS,
        grid_for(batch) > 0 ==> (grid_for(batch) - 1) * THREADS < batch,
{
    assert((batch + 255) / 256 <= u32::MAX);
}

proof fn lemma_chunk_total_grows(tensors: Seq<Resident>, i: int)
    requires
        0 <= i <= tensors.len(),
    ensures
        chunk_total(tensors.subrange(0, i)) <= chunk_total(tensors),
    decreases tensors.len(),
{
    if i == tensors.len() {
        assert(tensors.subrange(0, i) =~= tensors);
    } else {
        lemma_chunk_total_grows(tensors.drop_last(), i);
        assert(tensors.drop_last().subrange(0, i) =~= tensors.subrange(0, i));
    }
}

proof fn lemma_kept_total(tensors: Seq<Resident>)
    ensures
        chunk_total(kept(tensors)) == chunk_total(tensors),
        forall|i: int| 0 <= i < kept(tensors).len() ==> chunks_in(#[trigger] kept(tensors)[i]) > 0,
    decreases tensors.len(),
{
    if tensors.len() > 0 {
        let head = tensors.drop_last();
        lemma_kept_total(head);
        if chunks_in(tensors.last()) > 0 {
            assert(kept(tensors).drop_last() =~= kept(head));
        }
    }
}

/// Every chunk lies in exactly one tensor: the counts in front of the tensors start at zero,
/// grow with each tensor and end at the number of chunks.
pub proof fn law_prefix_grows(miner: PomGpuMiner, tensors: Seq<Resident>, i: int, j: int)
    requires
        miner.gathers(tensors),
        0 <= i < j <= miner.bases@.len(),
    ensures
        miner.prefix@[0] == 0,
        miner.prefix@[i] < miner.prefix@[j],
        miner.prefix@[miner.bases@.len() as int] == miner.n_total_chunks,
{
    let have = kept(tensors);
    lemma_kept_total(tensors);
    assert(have.subrange(0, 0) =~= Seq::empty());
    assert(have.subrange(0, have.len() as int) =~= have);
    assert(miner.prefix@[have.len() as int] == chunk_total(have));
    assert(miner.prefix@[0] == chunk_total(have.subrange(0, 0)));
    assert(have.subrange(0, j).drop_last() =~= have.subrange(0, j - 1));
    assert(have.subrange(0, j).last() == have[j - 1]);
    assert(have.subrange(0, j - 1).subrange(0, i) =~= have.subrange(0, i));
    lemma_chunk_total_grows(have.subrange(0, j - 1), i);
    assert(miner.prefix@[i] == chunk_total(have.subrange(0, i)));
    assert(miner.prefix@[j] == chunk_total(have.subrange(0, j)));
}

/// The card and the host count the same chunks: tensors of the same sizes have as many on the
/// card as the canonical layout has.
pub proof fn law_card_and_host_agree(resident: Seq<Resident>, tensors: Seq<Seq<u8>>)
    requires
        resident.len() == tensors.len(),
        forall|i: int|
            0 <= i < tensors.len() ==> (#[trigger] resident[i]).size == tensors[i].len(),
    ensures
        32 * chunk_total(resident) == layout_of(tensors).len(),
    decreases tensors.len(),
{
    if tensors.len() > 0 {
        let r = resident.drop_last();
        let t = tensors.drop_last();
        assert forall|i: int| 0 <= i < t.len() implies (#[trigger] r[i]).size == t[i].len() by {
            assert(r[i] == resident[i]);
        }
        law_card_and_host_agree(r, t);
        assert(resident.last() == resident[tensors.len() - 1]);
        assert(full_chunks(tensors.last()).len() == 32 * (tensors.last().len() / 32));
    }
}

/// The card gathers from exactly the tensors with a full chunk, in order.
pub proof fn law_tensors_with_chunks_are_kept(a: Seq<Resident>, t: Resident, b: Seq<Resident>)
    ensures
        kept(a + b) == kept(a) + kept(b),
        t.size >= 32 ==> kept(seq![t]) == seq![t],
        t.size < 32 ==> kept(seq![t]).len() == 0,
    decreases b.len(),
{
    assert(seq![t].drop_last() =~= Seq::empty());
    assert(kept(Seq::empty()).push(t) =~= seq![t]);
    if b.len() == 0 {
        assert(a + b =~= a);
        assert(kept(a) + kept(b) =~= kept(a));
    } else {
        law_tensors_with_chunks_are_kept(a, t, b.drop_last());
        assert((a + b).drop_last() =~= a + b.drop_last());
        assert(kept(a + b) =~= kept(a) + kept(b));
    }
}

/// Between one tensor and the next the count grows by the full chunks of the one.
pub proof fn law_prefix_counts_chunks(miner: PomGpuMiner, tensors: Seq<Resident>, i: int)
    requires
        miner.gathers(tensors),
        0 <= i < miner.bases@.len(),
    ensures
        ({
            let (size, n) = (kept(tensors)[i].size, miner.prefix@[i + 1] - miner.prefix@[i]);
            &&& 32 * n <= size < 32 * n + 32
            &&& miner.bases@[i] == kept(tensors)[i].base
        }),
{
    let have = kept(tensors);
    assert(have.subrange(0, i + 1).drop_last() =~= have.subrange(0, i));
    assert(have.subrange(0, i + 1).last() == have[i]);
    assert(miner.prefix@[i + 1] == chunk_total(have.subrange(0, i + 1)));
    assert(miner.prefix@[i] == chunk_total(have.subrange(0, i)));
}

} // verus!
