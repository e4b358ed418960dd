//! The 64-bit mixer, and the seeds and values that are folded with it.

use vstd::prelude::*;
use crate::bytes::{le_bytes, le_value, lemma_le_bytes_len, lemma_le_bytes_of_value, lemma_le_value_of_bytes, lemma_le_value_split, lemma_pow256_machine, pow256, push_le, read_le, block32};

verus! {

/// Words in a chunk of 32 bytes.
pub const CHUNK_WORDS: usize = 4;

/// Salt of a walk that starts from a bare seed.
pub const SEED_SALT: u64 = 0x4B65727978500;

/// Salt of a walk that starts from a block.
pub const BLOCK_SALT: u64 = 0x4B65727978531;

/// Product of two words, reduced to 64 bits.
pub open spec fn word_product(a: u64, b: u64) -> u64 {
    ((a as nat * b as nat) % 0x1_0000_0000_0000_0000) as u64
}

/// The mixer: three xor-shifts with an odd multiplication after each of the first two.
pub open spec fn mix(x: u64) -> u64 {
    let a = word_product(x ^ (x >> 30), 0xbf58476d1ce4e5b9);
    let b = word_product(a ^ (a >> 27), 0x94d049bb133111eb);
    b ^ (b >> 31)
}

/// Undoes [`mix`].
pub open spec fn unmix(y: u64) -> u64 {
    let b = word_product(y ^ (y >> 31) ^ (y >> 62), 0x319642b2d24d8ec3);
    let a = word_product(b ^ (b >> 27) ^ (b >> 54), 0x96de1b173f119089);
    a ^ (a >> 30) ^ (a >> 60)
}

/// The four words of a 32-byte block.
pub open spec fn words_of(block: Seq<u8>) -> Seq<u64> {
    Seq::new(4, |i: int| le_value(block.subrange(8 * i, 8 * i + 8)) as u64)
}

/// The bytes of four words.
pub open spec fn bytes_of(words: Seq<u64>) -> Seq<u8> {
    le_bytes(words[0] as nat, 8) + le_bytes(words[1] as nat, 8) + le_bytes(words[2] as nat, 8)
        + le_bytes(words[3] as nat, 8)
}

/// The walk state that follows `state` when it reads a chunk of four words.
pub open spec fn next_state(state: u64, chunk: Seq<u64>) -> u64 {
    mix(state ^ chunk[0] ^ chunk[1] ^ chunk[2] ^ chunk[3])
}

/// The walk state that a block starts from.
pub open spec fn block_seed(pre_pow_hash: Seq<u8>, timestamp: u64, nonce: u64) -> u64 {
    let p = words_of(pre_pow_hash);
    mix(mix(mix(mix(mix(mix(nonce ^ BLOCK_SALT) ^ timestamp) ^ p[0]) ^ p[1]) ^ p[2]) ^ p[3])
}

/// The four words of the proof-of-work value of a final walk state.
pub open spec fn pow_words(final_state: u64, pre_pow_hash: Seq<u8>) -> Seq<u64> {
    let p = words_of(pre_pow_hash);
    let o0 = mix(final_state ^ p[0] ^ 0x9E3779B97F4A7C15);
    let o1 = mix(o0 ^ p[1] ^ 0xC2B2AE3D27D4EB4F);
    let o2 = mix(o1 ^ p[2] ^ 0x165667B19E3779F9);
    let o3 = mix(o2 ^ p[3] ^ 0xD6E8FEB86659FD93);
    seq![o0, o1, o2, o3]
}

/// The proof-of-work value of a final walk state: 256 bits, least significant byte first.
pub open spec fn pow_value(final_state: u64, pre_pow_hash: Seq<u8>) -> Seq<u8> {
    bytes_of(pow_words(final_state, pre_pow_hash))
}

/// Mixes one word.
pub fn mix64(x: u64) -> (y: u64)
    ensures
        y == mix(x),
{
    let a: u64 = (x ^ (x >> 30)).wrapping_mul(0xbf58476d1ce4e5b9);
    let b: u64 = (a ^ (a >> 27)).wrapping_mul(0x94d049bb133111eb);
    b ^ (b >> 31)
}

/// The walk state that a bare seed starts from.
pub fn seed_state(pow_seed: u64) -> (state: u64)
    ensures
        state == mix(pow_seed ^ SEED_SALT),
{
    mix64(pow_seed ^ SEED_SALT)
}

/// One step of the walk.
pub fn transition(state: u64, chunk: &[u64; CHUNK_WORDS]) -> (next: u64)
    ensures
        next == next_state(state, chunk@),
{
    mix64(state ^ chunk[0] ^ chunk[1] ^ chunk[2] ^ chunk[3])
}

/// The words of a chunk.
pub fn chunk_to_words(c: &[u8; 32]) -> (words: [u64; CHUNK_WORDS])
    ensures
        words@ == words_of(c@),
{
    let words = [read_le(c, 0, 8), read_le(c, 8, 8), read_le(c, 16, 8), read_le(c, 24, 8)];
    assert(words@ =~= words_of(c@));
    words
}

/// The bytes of a chunk.
pub fn words_to_bytes(w: &[u64; CHUNK_WORDS]) -> (block: [u8; 32])
    ensures
        block@ == bytes_of(w@),
{
    let mut out: Vec<u8> = Vec::new();
    push_le(&mut out, w[0], 8);
    push_le(&mut out, w[1], 8);
    push_le(&mut out, w[2], 8);
    push_le(&mut out, w[3], 8);
    proof {
        lemma_bytes_of_len(w@);
        assert(out@ =~= bytes_of(w@));
        assert(out@.subrange(0, 32) =~= out@);
    }
    block32(&out, 0)
}

/// Whether one 256-bit little-endian number is at most another.
pub fn le_leq(a: &[u8; 32], b: &[u8; 32]) -> (leq: bool)
    ensures
        leq == (le_value(a@) <= le_value(b@)),
{
    let mut i: usize = 32;
    while i > 0
        invariant
            i <= 32,
            a@.subrange(i as int, 32) == b@.subrange(i as int, 32),
        decreases i,
    {
        let ghost high = i as int;
        i = i - 1;
        if a[i] != b[i] {
            proof {
                if a@[i as int] < b@[i as int] {
                    lemma_top_byte_decides(a@, b@, i as int);
                } else {
                    assert(a@.subrange(high, 32) =~= b@.subrange(high, 32));
                    lemma_top_byte_decides(b@, a@, i as int);
                }
            }
            return a[i] < b[i];
        }
        assert(a@.subrange(i as int, 32) =~= seq![a@[i as int]] + a@.subrange(high, 32));
        assert(b@.subrange(i as int, 32) =~= seq![b@[i as int]] + b@.subrange(high, 32));
    }
    assert(a@ =~= a@.subrange(0, 32));
    assert(b@ =~= b@.subrange(0, 32));
    true
}

/// The words of a pre-proof-of-work hash.
pub fn pph_words(pre_pow_hash: &[u8; 32]) -> (words: [u64; 4])
    ensures
        words@ == words_of(pre_pow_hash@),
{
    chunk_to_words(pre_pow_hash)
}

/// The seed of a block: its initial walk state.
pub fn pom_block_seed(pre_pow_hash: &[u8; 32], timestamp: u64, nonce: u64) -> (seed: u64)
    ensures
        seed == block_seed(pre_pow_hash@, timestamp, nonce),
{
    let p = pph_words(pre_pow_hash);
    let mut s: u64 = mix64(nonce ^ BLOCK_SALT);
    s = mix64(s ^ timestamp);
    s = mix64(s ^ p[0]);
    s = mix64(s ^ p[1]);
    s = mix64(s ^ p[2]);
    s = mix64(s ^ p[3]);
    s
}

/// The proof-of-work value of a final walk state.
pub fn pom_pow_value(final_state: u64, pre_pow_hash: &[u8; 32]) -> (value: [u8; 32])
    ensures
        value@ == pow_value(final_state, pre_pow_hash@),
{
    let p = pph_words(pre_pow_hash);
    let o0: u64 = mix64(final_state ^ p[0] ^ 0x9E3779B97F4A7C15);
    let o1: u64 = mix64(o0 ^ p[1] ^ 0xC2B2AE3D27D4EB4F);
    let o2: u64 = mix64(o1 ^ p[2] ^ 0x165667B19E3779F9);
    let o3: u64 = mix64(o2 ^ p[3] ^ 0xD6E8FEB86659FD93);
    let words = [o0, o1, o2, o3];
    assert(words@ =~= pow_words(final_state, pre_pow_hash@));
    words_to_bytes(&words)
}

/// Four words make 32 bytes.
pub proof fn lemma_bytes_of_len(words: Seq<u64>)
    ensures
        bytes_of(words).len() == 32,
{
    lemma_le_bytes_len(words[0] as nat, 8);
    lemma_le_bytes_len(words[1] as nat, 8);
    lemma_le_bytes_len(words[2] as nat, 8);
    lemma_le_bytes_len(words[3] as nat, 8);
}

/// Of two numbers that agree above byte `i`, the one with the smaller byte there is smaller.
proof fn lemma_top_byte_decides(a: Seq<u8>, b: Seq<u8>, i: int)
    requires
        a.len() == b.len(),
        0 <= i < a.len(),
        a.subrange(i + 1, a.len() as int) == b.subrange(i + 1, b.len() as int),
        a[i] < b[i],
    ensures
        le_value(a) < le_value(b),
{
    let n = a.len() as int;
    let al = a.subrange(0, i);
    let ah = a.subrange(i, n);
    let bl = b.subrange(0, i);
    let bh = b.subrange(i, n);
    assert(a =~= al + ah);
    assert(b =~= bl + bh);
    lemma_le_value_split(al, ah);
    lemma_le_value_split(bl, bh);
    lemma_le_bytes_of_value(al);
    assert(ah.drop_first() =~= a.subrange(i + 1, n));
    assert(bh.drop_first() =~= b.subrange(i + 1, n));
    let p = pow256(i as nat);
    let x = le_value(ah);
    let y = le_value(bh);
    assert(p * x + p <= p * y) by (nonlinear_arith)
        requires
            x + 1 <= y,
            0 <= p,
    ;
}

/// The words of a chunk and its bytes say the same: going from bytes to words and back changes
/// nothing.
pub proof fn law_words_then_bytes(block: Seq<u8>)
    requires
        block.len() == 32,
    ensures
        bytes_of(words_of(block)) == block,
{
    lemma_pow256_machine();
    assert forall|i: int| 0 <= i < 4 implies #[trigger] le_bytes(words_of(block)[i] as nat, 8)
        == block.subrange(8 * i, 8 * i + 8) by {
        lemma_le_bytes_of_value(block.subrange(8 * i, 8 * i + 8));
    }
    assert(bytes_of(words_of(block)) =~= block);
}

/// Going from words to bytes and back changes nothing.
pub proof fn law_bytes_then_words(words: Seq<u64>)
    requires
        words.len() == 4,
    ensures
        words_of(bytes_of(words)) == words,
{
    lemma_pow256_machine();
    lemma_bytes_of_len(words);
    let all = bytes_of(words);
    assert forall|i: int| 0 <= i < 4 implies #[trigger] words_of(all)[i] == words[i] by {
        lemma_le_value_of_bytes(words[0] as nat, 8);
        lemma_le_value_of_bytes(words[1] as nat, 8);
        lemma_le_value_of_bytes(words[2] as nat, 8);
        lemma_le_value_of_bytes(words[3] as nat, 8);
        assert(all.subrange(8 * i, 8 * i + 8) =~= le_bytes(words[i] as nat, 8));
    }
    assert(words_of(all) =~= words);
}

/// Multiplying by an odd constant and then by its inverse changes nothing.
proof fn lemma_word_product_inverse(x: u64, c: u64, d: u64)
    requires
        (c as nat * d as nat) % 0x1_0000_0000_0000_0000 == 1,
    ensures
        word_product(word_product(x, c), d) == x,
{
    let m: int = 0x1_0000_0000_0000_0000;
    let xi = x as int;
    let ci = c as int;
    let di = d as int;
    vstd::arithmetic::div_mod::lemma_mul_mod_noop_left(xi * ci, di, m);
    assert((xi * ci) * di == xi * (ci * di)) by (nonlinear_arith);
    vstd::arithmetic::div_mod::lemma_mul_mod_noop_right(xi, ci * di, m);
    assert(xi * 1 == xi);
    vstd::arithmetic::div_mod::lemma_small_mod(x as nat, m as nat);
}

/// The mixer is a permutation of the 64-bit words: [`unmix`] undoes it.
pub proof fn law_mix_is_undone(x: u64)
    ensures
        unmix(mix(x)) == x,
{
    let s = x ^ (x >> 30);
    let a = word_product(s, 0xbf58476d1ce4e5b9);
    let t = a ^ (a >> 27);
    let b = word_product(t, 0x94d049bb133111eb);
    let y = b ^ (b >> 31);
    assert(y ^ (y >> 31) ^ (y >> 62) == b) by (bit_vector)
        requires
            y == b ^ (b >> 31),
    ;
    assert((0x94d049bb133111eb_u64 as nat * 0x319642b2d24d8ec3_u64 as nat)
        % 0x1_0000_0000_0000_0000 == 1) by (nonlinear_arith);
    lemma_word_product_inverse(t, 0x94d049bb133111eb, 0x319642b2d24d8ec3);
    assert(t ^ (t >> 27) ^ (t >> 54) == a) by (bit_vector)
        requires
            t == a ^ (a >> 27),
    ;
    assert((0xbf58476d1ce4e5b9_u64 as nat * 0x96de1b173f119089_u64 as nat)
        % 0x1_0000_0000_0000_0000 == 1) by (nonlinear_arith);
    lemma_word_product_inverse(s, 0xbf58476d1ce4e5b9, 0x96de1b173f119089);
    assert(s ^ (s >> 30) ^ (s >> 60) == x) by (bit_vector)
        requires
            s == x ^ (x >> 30),
    ;
}

/// Two nonces that are tried for one block never start from the same walk state.
pub proof fn law_block_seeds_are_distinct(pre_pow_hash: Seq<u8>, timestamp: u64, m: u64, n: u64)
    requires
        m != n,
    ensures
        block_seed(pre_pow_hash, timestamp, m) != block_seed(pre_pow_hash, timestamp, n),
{
    lemma_folds_differ(m, n, BLOCK_SALT);
    let (a, b) = (mix(m ^ BLOCK_SALT), mix(n ^ BLOCK_SALT));
    lemma_folds_differ(a, b, timestamp);
    lemma_hash_folds_differ(mix(a ^ timestamp), mix(b ^ timestamp), words_of(pre_pow_hash));
}

/// One nonce that is tried for one block at two times never starts from the same walk state.
pub proof fn law_times_give_distinct_seeds(pre_pow_hash: Seq<u8>, s: u64, t: u64, nonce: u64)
    requires
        s != t,
    ensures
        block_seed(pre_pow_hash, s, nonce) != block_seed(pre_pow_hash, t, nonce),
{
    let a = mix(nonce ^ BLOCK_SALT);
    assert(s != t ==> a ^ s != a ^ t) by (bit_vector);
    law_mix_is_undone(a ^ s);
    law_mix_is_undone(a ^ t);
    lemma_hash_folds_differ(mix(a ^ s), mix(a ^ t), words_of(pre_pow_hash));
}

/// Folding the words of a hash in keeps different states different.
proof fn lemma_hash_folds_differ(a: u64, b: u64, p: Seq<u64>)
    requires
        a != b,
    ensures
        mix(mix(mix(mix(a ^ p[0]) ^ p[1]) ^ p[2]) ^ p[3]) != mix(
            mix(mix(mix(b ^ p[0]) ^ p[1]) ^ p[2]) ^ p[3],
        ),
{
    lemma_folds_differ(a, b, p[0]);
    let (a2, b2) = (mix(a ^ p[0]), mix(b ^ p[0]));
    lemma_folds_differ(a2, b2, p[1]);
    let (a3, b3) = (mix(a2 ^ p[1]), mix(b2 ^ p[1]));
    lemma_folds_differ(a3, b3, p[2]);
    let (a4, b4) = (mix(a3 ^ p[2]), mix(b3 ^ p[2]));
    lemma_folds_differ(a4, b4, p[3]);
}

/// Two final states of one block never have the same proof-of-work value.
pub proof fn law_pow_values_are_distinct(pre_pow_hash: Seq<u8>, s: u64, t: u64)
    requires
        s != t,
    ensures
        pow_value(s, pre_pow_hash) != pow_value(t, pre_pow_hash),
{
    let p = words_of(pre_pow_hash);
    let c: u64 = 0x9E3779B97F4A7C15;
    assert(s ^ p[0] ^ c != t ^ p[0] ^ c) by {
        let q = p[0];
        assert(s != t ==> s ^ q ^ c != t ^ q ^ c) by (bit_vector);
    }
    law_mix_is_undone(s ^ p[0] ^ c);
    law_mix_is_undone(t ^ p[0] ^ c);
    law_bytes_then_words(pow_words(s, pre_pow_hash));
    law_bytes_then_words(pow_words(t, pre_pow_hash));
    assert(pow_words(s, pre_pow_hash)[0] != pow_words(t, pre_pow_hash)[0]);
}

/// A fold step keeps different words different.
proof fn lemma_folds_differ(a: u64, b: u64, w: u64)
    requires
        a != b,
    ensures
        mix(a ^ w) != mix(b ^ w),
{
    assert(a != b ==> a ^ w != b ^ w) by (bit_vector);
    law_mix_is_undone(a ^ w);
    law_mix_is_undone(b ^ w);
}

/// Whether two sequences of four words differ at position `i` and nowhere else.
pub open spec fn differ_only_at(c: Seq<u64>, d: Seq<u64>, i: int) -> bool {
    &&& c.len() == 4
    &&& d.len() == 4
    &&& 0 <= i < 4
    &&& c[i] != d[i]
    &&& forall|j: int| 0 <= j < 4 && j != i ==> #[trigger] c[j] == d[j]
}

/// Every word of a chunk counts: two chunks that differ in one word, whichever it is, lead one
/// state to different next states.
pub proof fn law_every_word_counts(state: u64, c: Seq<u64>, d: Seq<u64>, i: int)
    requires
        differ_only_at(c, d, i),
    ensures
        next_state(state, c) != next_state(state, d),
{
    let (c0, c1, c2, c3) = (c[0], c[1], c[2], c[3]);
    let (d0, d1, d2, d3) = (d[0], d[1], d[2], d[3]);
    assert((c0 != d0 && c1 == d1 && c2 == d2 && c3 == d3) || (c0 == d0 && c1 != d1 && c2 == d2
        && c3 == d3) || (c0 == d0 && c1 == d1 && c2 != d2 && c3 == d3) || (c0 == d0 && c1 == d1
        && c2 == d2 && c3 != d3));
    assert(state ^ c0 ^ c1 ^ c2 ^ c3 != state ^ d0 ^ d1 ^ d2 ^ d3) by (bit_vector)
        requires
            (c0 != d0 && c1 == d1 && c2 == d2 && c3 == d3) || (c0 == d0 && c1 != d1 && c2 == d2
                && c3 == d3) || (c0 == d0 && c1 == d1 && c2 != d2 && c3 == d3) || (c0 == d0 && c1
                == d1 && c2 == d2 && c3 != d3),
    ;
    law_mix_is_undone(state ^ c0 ^ c1 ^ c2 ^ c3);
    law_mix_is_undone(state ^ d0 ^ d1 ^ d2 ^ d3);
}

/// State and words are folded alike: what is folded into the state might as well be folded into
/// any one word. A chunk of zeros only mixes the state.
pub proof fn law_state_and_words_fold_alike(state: u64, c: Seq<u64>, i: int, v: u64)
    requires
        c.len() == 4,
        0 <= i < 4,
    ensures
        next_state(state ^ v, c) == next_state(state, c.update(i, c[i] ^ v)),
        next_state(state, seq![0u64, 0u64, 0u64, 0u64]) == mix(state),
{
    let (c0, c1, c2, c3) = (c[0], c[1], c[2], c[3]);
    assert(state ^ v ^ c0 ^ c1 ^ c2 ^ c3 == state ^ (c0 ^ v) ^ c1 ^ c2 ^ c3) by (bit_vector);
    assert(state ^ v ^ c0 ^ c1 ^ c2 ^ c3 == state ^ c0 ^ (c1 ^ v) ^ c2 ^ c3) by (bit_vector);
    assert(state ^ v ^ c0 ^ c1 ^ c2 ^ c3 == state ^ c0 ^ c1 ^ (c2 ^ v) ^ c3) by (bit_vector);
    assert(state ^ v ^ c0 ^ c1 ^ c2 ^ c3 == state ^ c0 ^ c1 ^ c2 ^ (c3 ^ v)) by (bit_vector);
    assert(state ^ 0 ^ 0 ^ 0 ^ 0 == state) by (bit_vector);
}

/// A step can be taken back by whoever knows the chunk.
pub proof fn law_step_is_undone(state: u64, c: Seq<u64>)
    requires
        c.len() == 4,
    ensures
        unmix(next_state(state, c)) ^ c[3] ^ c[2] ^ c[1] ^ c[0] == state,
{
    let (c0, c1, c2, c3) = (c[0], c[1], c[2], c[3]);
    law_mix_is_undone(state ^ c0 ^ c1 ^ c2 ^ c3);
    assert((state ^ c0 ^ c1 ^ c2 ^ c3) ^ c3 ^ c2 ^ c1 ^ c0 == state) by (bit_vector);
}

/// What folding `w` into a state and mixing gives is taken back.
proof fn lemma_fold_is_undone(a: u64, w: u64)
    ensures
        unmix(mix(a ^ w)) ^ w == a,
{
    law_mix_is_undone(a ^ w);
    assert((a ^ w) ^ w == a) by (bit_vector);
}

/// The nonce is found back from the seed by whoever knows the rest of the block: the hash is
/// peeled off from its last word, then the time.
pub proof fn law_nonce_is_found_back(pre_pow_hash: Seq<u8>, timestamp: u64, nonce: u64)
    ensures
        ({
            let p = words_of(pre_pow_hash);
            let after_hash = block_seed(pre_pow_hash, timestamp, nonce);
            let before_hash = unmix(
                unmix(unmix(unmix(after_hash) ^ p[3]) ^ p[2]) ^ p[1],
            ) ^ p[0];
            unmix(unmix(before_hash) ^ timestamp) ^ BLOCK_SALT == nonce
        }),
{
    let p = words_of(pre_pow_hash);
    let s0 = mix(nonce ^ BLOCK_SALT);
    let s1 = mix(s0 ^ timestamp);
    let s2 = mix(s1 ^ p[0]);
    let s3 = mix(s2 ^ p[1]);
    let s4 = mix(s3 ^ p[2]);
    lemma_fold_is_undone(nonce, BLOCK_SALT);
    lemma_fold_is_undone(s0, timestamp);
    lemma_fold_is_undone(s1, p[0]);
    lemma_fold_is_undone(s2, p[1]);
    lemma_fold_is_undone(s3, p[2]);
    lemma_fold_is_undone(s4, p[3]);
}

/// The final state is found back from the first word of its proof-of-work value by whoever knows
/// the hash.
pub proof fn law_final_state_is_found_back(final_state: u64, pre_pow_hash: Seq<u8>)
    ensures
        unmix(words_of(pow_value(final_state, pre_pow_hash))[0]) ^ 0x9E3779B97F4A7C15 ^ words_of(
            pre_pow_hash,
        )[0] == final_state,
{
    let q = words_of(pre_pow_hash)[0];
    law_bytes_then_words(pow_words(final_state, pre_pow_hash));
    law_mix_is_undone(final_state ^ q ^ 0x9E3779B97F4A7C15);
    assert((final_state ^ q ^ 0x9E3779B97F4A7C15) ^ 0x9E3779B97F4A7C15 ^ q == final_state)
        by (bit_vector);
}

/// Every word of the hash counts: two hashes that differ in one word, whichever it is, give one
/// block different seeds, and one final state different proof-of-work values from that word on.
pub proof fn law_every_hash_word_counts(
    p: Seq<u8>,
    q: Seq<u8>,
    i: int,
    timestamp: u64,
    nonce: u64,
    final_state: u64,
)
    requires
        differ_only_at(words_of(p), words_of(q), i),
    ensures
        block_seed(p, timestamp, nonce) != block_seed(q, timestamp, nonce),
        forall|j: int|
            i <= j < 4 ==> #[trigger] words_of(pow_value(final_state, p))[j] != words_of(
                pow_value(final_state, q),
            )[j],
{
    let (u, v) = (words_of(p), words_of(q));
    let s = mix(mix(nonce ^ BLOCK_SALT) ^ timestamp);
    let (a0, b0) = (mix(s ^ u[0]), mix(s ^ v[0]));
    let (a1, b1) = (mix(a0 ^ u[1]), mix(b0 ^ v[1]));
    let (a2, b2) = (mix(a1 ^ u[2]), mix(b1 ^ v[2]));
    lemma_fold_tells(s, s, u[0], v[0]);
    lemma_fold_tells(a0, b0, u[1], v[1]);
    lemma_fold_tells(a1, b1, u[2], v[2]);
    lemma_fold_tells(a2, b2, u[3], v[3]);
    law_bytes_then_words(pow_words(final_state, p));
    law_bytes_then_words(pow_words(final_state, q));
    let (o, r) = (pow_words(final_state, p), pow_words(final_state, q));
    lemma_salted_fold_tells(final_state, final_state, u[0], v[0], 0x9E3779B97F4A7C15);
    lemma_salted_fold_tells(o[0], r[0], u[1], v[1], 0xC2B2AE3D27D4EB4F);
    lemma_salted_fold_tells(o[1], r[1], u[2], v[2], 0x165667B19E3779F9);
    lemma_salted_fold_tells(o[2], r[2], u[3], v[3], 0xD6E8FEB86659FD93);
    assert(words_of(pow_value(final_state, p)) == o);
    assert(words_of(pow_value(final_state, q)) == r);
}

proof fn lemma_fold_tells(a: u64, b: u64, v: u64, w: u64)
    ensures
        a == b && v != w ==> mix(a ^ v) != mix(b ^ w),
        a != b && v == w ==> mix(a ^ v) != mix(b ^ w),
{
    assert(a == b && v != w ==> a ^ v != b ^ w) by (bit_vector);
    assert(a != b && v == w ==> a ^ v != b ^ w) by (bit_vector);
    law_mix_is_undone(a ^ v);
    law_mix_is_undone(b ^ w);
}

proof fn lemma_salted_fold_tells(a: u64, b: u64, v: u64, w: u64, c: u64)
    ensures
        a == b && v != w ==> mix(a ^ v ^ c) != mix(b ^ w ^ c),
        a != b && v == w ==> mix(a ^ v ^ c) != mix(b ^ w ^ c),
        a == b && v == w ==> mix(a ^ v ^ c) == mix(b ^ w ^ c),
{
    assert(a == b && v != w ==> a ^ v ^ c != b ^ w ^ c) by (bit_vector);
    assert(a != b && v == w ==> a ^ v ^ c != b ^ w ^ c) by (bit_vector);
    law_mix_is_undone(a ^ v ^ c);
    law_mix_is_undone(b ^ w ^ c);
}

/// Every word of the proof-of-work value depends on the final state: two final states of one
/// block differ in all of them.
pub proof fn law_all_pow_words_differ(pre_pow_hash: Seq<u8>, s: u64, t: u64, i: int)
    requires
        s != t,
        0 <= i < 4,
    ensures
        words_of(pow_value(s, pre_pow_hash))[i] != words_of(pow_value(t, pre_pow_hash))[i],
{
    let p = words_of(pre_pow_hash);
    let (o, r) = (pow_words(s, pre_pow_hash), pow_words(t, pre_pow_hash));
    law_bytes_then_words(o);
    law_bytes_then_words(r);
    lemma_salted_fold_tells(s, t, p[0], p[0], 0x9E3779B97F4A7C15);
    lemma_salted_fold_tells(o[0], r[0], p[1], p[1], 0xC2B2AE3D27D4EB4F);
    lemma_salted_fold_tells(o[1], r[1], p[2], p[2], 0x165667B19E3779F9);
    lemma_salted_fold_tells(o[2], r[2], p[3], p[3], 0xD6E8FEB86659FD93);
}

/// The words of a block are its digits: read as numbers to the base of a word, words and bytes
/// stand for the same number.
pub proof fn law_words_are_digits(block: Seq<u8>)
    requires
        block.len() == 32,
    ensures
        ({
            let w = words_of(block);
            let base = 0x1_0000_0000_0000_0000nat;
            le_value(block) == w[0] + base * (w[1] + base * (w[2] + base * w[3]))
        }),
{
    lemma_pow256_machine();
    let w = words_of(block);
    let t1 = block.subrange(8, 32);
    let t2 = block.subrange(16, 32);
    let t3 = block.subrange(24, 32);
    lemma_le_bytes_of_value(block.subrange(0, 8));
    lemma_le_bytes_of_value(block.subrange(8, 16));
    lemma_le_bytes_of_value(block.subrange(16, 24));
    lemma_le_bytes_of_value(t3);
    lemma_le_value_split(block.subrange(0, 8), t1);
    lemma_le_value_split(block.subrange(8, 16), t2);
    lemma_le_value_split(block.subrange(16, 24), t3);
    assert(block.subrange(0, 8) + t1 =~= block);
    assert(block.subrange(8, 16) + t2 =~= t1);
    assert(block.subrange(16, 24) + t3 =~= t2);
    assert(w[0] == le_value(block.subrange(0, 8)));
    assert(w[1] == le_value(block.subrange(8, 16)));
    assert(w[2] == le_value(block.subrange(16, 24)));
    assert(w[3] == le_value(t3));
}

} // verus!
