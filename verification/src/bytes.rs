//! Little-endian numbers and fixed-size byte blocks.

use vstd::prelude::*;

verus! {

/// The number that a little-endian byte sequence stands for.
pub open spec fn le_value(s: Seq<u8>) -> nat
    decreases s.len(),
{
    if s.len() == 0 {
        0
    } else {
        s[0] as nat + 256 * le_value(s.drop_first())
    }
}

/// The `n` low-order bytes of `x`, least significant byte first.
pub open spec fn le_bytes(x: nat, n: nat) -> Seq<u8>
    decreases n,
{
    if n == 0 {
        Seq::empty()
    } else {
        seq![(x % 256) as u8] + le_bytes(x / 256, (n - 1) as nat)
    }
}

/// `256` to the power `n`: how many numbers `n` bytes can hold.
pub open spec fn pow256(n: nat) -> nat
    decreases n,
{
    if n == 0 {
        1
    } else {
        256 * pow256((n - 1) as nat)
    }
}

/// `n` bytes come out of `le_bytes`.
pub proof fn lemma_le_bytes_len(x: nat, n: nat)
    ensures
        le_bytes(x, n).len() == n,
    decreases n,
{
    if n > 0 {
        lemma_le_bytes_len(x / 256, (n - 1) as nat);
    }
}

/// A number is read back from its own bytes.
pub proof fn lemma_le_value_of_bytes(x: nat, n: nat)
    requires
        x < pow256(n),
    ensures
        le_value(le_bytes(x, n)) == x,
        le_bytes(x, n).len() == n,
    decreases n,
{
    if n > 0 {
        lemma_le_value_of_bytes(x / 256, (n - 1) as nat);
        assert(le_bytes(x, n).drop_first() =~= le_bytes(x / 256, (n - 1) as nat));
    }
}

/// A byte sequence is written back from its own value.
pub proof fn lemma_le_bytes_of_value(s: Seq<u8>)
    ensures
        le_bytes(le_value(s), s.len()) == s,
        le_value(s) < pow256(s.len()),
    decreases s.len(),
{
    if s.len() == 0 {
        assert(le_bytes(le_value(s), s.len()) =~= s);
    } else {
        let rest = s.drop_first();
        lemma_le_bytes_of_value(rest);
        assert(le_value(s) % 256 == s[0] as nat);
        assert(le_value(s) / 256 == le_value(rest));
        assert(le_bytes(le_value(s), s.len()) =~= s);
    }
}

/// What the machine integers can hold, in bytes.
pub proof fn lemma_pow256_machine()
    ensures
        pow256(2) == 0x1_0000,
        pow256(4) == 0x1_0000_0000,
        pow256(8) == 0x1_0000_0000_0000_0000,
{
    reveal_with_fuel(pow256, 9);
}

/// A longer sequence can hold more.
pub proof fn lemma_pow256_monotone(m: nat, n: nat)
    requires
        m <= n,
    ensures
        pow256(m) <= pow256(n),
        0 < pow256(m),
    decreases n,
{
    if n > 0 {
        if m == n {
            lemma_pow256_monotone((m - 1) as nat, (n - 1) as nat);
        } else {
            lemma_pow256_monotone(m, (n - 1) as nat);
        }
    }
}

/// The value of a sequence that is split in two.
pub proof fn lemma_le_value_split(s: Seq<u8>, t: Seq<u8>)
    ensures
        le_value(s + t) == le_value(s) + pow256(s.len()) * le_value(t),
    decreases s.len(),
{
    if s.len() == 0 {
        assert(s + t =~= t);
        assert(pow256(0) * le_value(t) == le_value(t)) by (nonlinear_arith)
            requires
                pow256(0) == 1,
        ;
    } else {
        let rest = s.drop_first();
        lemma_le_value_split(rest, t);
        assert((s + t).drop_first() =~= rest + t);
        assert((s + t)[0] == s[0]);
        let p = pow256(rest.len());
        let v = le_value(t);
        assert(256 * (le_value(rest) + p * v) == 256 * le_value(rest) + (256 * p) * v)
            by (nonlinear_arith);
    }
}

/// Appends the `n` low-order bytes of `x`, least significant byte first.
pub fn push_le(out: &mut Vec<u8>, x: u64, n: usize)
    ensures
        final(out)@ == old(out)@ + le_bytes(x as nat, n as nat),
{
    let mut rest: u64 = x;
    let mut i: usize = 0;
    let ghost before = out@;
    assert(out@ + le_bytes(rest as nat, n as nat) =~= before + le_bytes(x as nat, n as nat));
    while i < n
        invariant
            i <= n,
            out@ + le_bytes(rest as nat, (n - i) as nat) == before + le_bytes(x as nat, n as nat),
        decreases n - i,
    {
        let b: u8 = (rest % 256) as u8;
        let ghost prev = out@;
        out.push(b);
        assert(prev + le_bytes(rest as nat, (n - i) as nat) =~= out@ + le_bytes(
            rest as nat / 256,
            (n - i - 1) as nat,
        ));
        rest = rest / 256;
        i = i + 1;
    }
    assert(out@ + le_bytes(rest as nat, 0) =~= out@);
}

/// Reads the `n` bytes at `at` as a little-endian number.
pub fn read_le(data: &[u8], at: usize, n: usize) -> (x: u64)
    requires
        n <= 8,
        at + n <= data@.len(),
    ensures
        x == le_value(data@.subrange(at as int, at + n)),
        x < pow256(n as nat),
{
    let mut acc: u64 = 0;
    let mut i: usize = n;
    proof {
        lemma_pow256_machine();
    }
    while i > 0
        invariant
            i <= n <= 8,
            at + n <= data.len() == data@.len(),
            acc == le_value(data@.subrange(at + i, at + n)),
            pow256(8) == 0x1_0000_0000_0000_0000,
        decreases i,
    {
        let ghost tail = data@.subrange(at + i, at + n);
        let ghost more = data@.subrange(at + i - 1, at + n);
        proof {
            assert(more.drop_first() =~= tail);
            lemma_le_bytes_of_value(more);
            lemma_pow256_monotone(more.len(), 8);
        }
        i = i - 1;
        acc = acc * 256 + data[at + i] as u64;
    }
    proof {
        lemma_le_bytes_of_value(data@.subrange(at as int, at + n));
    }
    acc
}

/// The 32 bytes at `at`.
pub fn block32(data: &[u8], at: usize) -> (block: [u8; 32])
    requires
        at + 32 <= data@.len(),
    ensures
        block@ == data@.subrange(at as int, at + 32),
{
    let mut block = [0u8; 32];
    let mut i: usize = 0;
    while i < 32
        invariant
            i <= 32,
            at + 32 <= data.len() == data@.len(),
            forall|j: int| 0 <= j < i ==> block@[j] == data@[at + j],
        decreases 32 - i,
    {
        block[i] = data[at + i];
        i = i + 1;
    }
    assert(block@ =~= data@.subrange(at as int, at + 32));
    block
}

/// The bytes from `from` up to `to`, in a vector of their own.
pub fn copy_range(data: &[u8], from: usize, to: usize) -> (out: Vec<u8>)
    requires
        from <= to <= data@.len(),
    ensures
        out@ == data@.subrange(from as int, to as int),
{
    let mut out: Vec<u8> = Vec::new();
    let mut i: usize = from;
    while i < to
        invariant
            from <= i <= to <= data@.len(),
            out@ == data@.subrange(from as int, i as int),
        decreases to - i,
    {
        out.push(data[i]);
        assert(data@.subrange(from as int, i + 1) =~= data@.subrange(from as int, i as int).push(
            data@[i as int],
        ));
        i = i + 1;
    }
    out
}

/// Appends a byte sequence.
pub fn push_bytes(out: &mut Vec<u8>, data: &[u8])
    ensures
        final(out)@ == old(out)@ + data@,
{
    let ghost before = out@;
    let mut i: usize = 0;
    assert(out@ =~= before + data@.subrange(0, 0));
    while i < data.len()
        invariant
            i <= data@.len(),
            out@ == before + data@.subrange(0, i as int),
        decreases data@.len() - i,
    {
        out.push(data[i]);
        i = i + 1;
        assert(out@ =~= before + data@.subrange(0, i as int));
    }
    assert(data@.subrange(0, data@.len() as int) =~= data@);
}

/// Whether two 32-byte blocks hold the same bytes.
pub fn eq32(a: &[u8; 32], b: &[u8; 32]) -> (same: bool)
    ensures
        same == (a@ == b@),
{
    let mut i: usize = 0;
    while i < 32
        invariant
            i <= 32,
            forall|j: int| 0 <= j < i ==> a@[j] == b@[j],
        decreases 32 - i,
    {
        if a[i] != b[i] {
            assert(a@[i as int] != b@[i as int]);
            return false;
        }
        i = i + 1;
    }
    assert(a@ =~= b@);
    true
}

} // verus!
