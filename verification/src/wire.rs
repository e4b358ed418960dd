//! The wire form of possession proofs: fields in declaration order, integers little-endian, each
//! list after its length in four bytes.

use vstd::prelude::*;
use crate::bytes::{block32, le_bytes, le_value, lemma_le_bytes_of_value, lemma_le_value_of_bytes, lemma_pow256_machine, push_bytes, push_le, read_le};
use crate::merkle::digests;
use crate::possession::{PomOpening, PomProof};

verus! {

/// The contents of an opening.
#[verifier::ext_equal]
pub struct OpeningView {
    pub state_before: u64,
    pub chunk: Seq<u8>,
    pub weight_path: Seq<Seq<u8>>,
    pub trace_path_before: Seq<Seq<u8>>,
    pub trace_path_after: Seq<Seq<u8>>,
}

/// The contents of a proof.
#[verifier::ext_equal]
pub struct ProofView {
    pub tier: u8,
    pub trace_root: Seq<u8>,
    pub pow_value: Seq<u8>,
    pub final_state: u64,
    pub initial_trace_path: Seq<Seq<u8>>,
    pub final_trace_path: Seq<Seq<u8>>,
    pub openings: Seq<OpeningView>,
}

impl View for PomOpening {
    type V = OpeningView;

    open spec fn view(&self) -> OpeningView {
        OpeningView {
            state_before: self.state_before,
            chunk: self.chunk@,
            weight_path: digests(self.weight_path@),
            trace_path_before: digests(self.trace_path_before@),
            trace_path_after: digests(self.trace_path_after@),
        }
    }
}

/// The contents of some openings.
pub open spec fn opening_views(openings: Seq<PomOpening>) -> Seq<OpeningView> {
    Seq::new(openings.len(), |i: int| openings[i]@)
}

impl View for PomProof {
    type V = ProofView;

    open spec fn view(&self) -> ProofView {
        ProofView {
            tier: self.tier,
            trace_root: self.trace_root@,
            pow_value: self.pow_value@,
            final_state: self.final_state,
            initial_trace_path: digests(self.initial_trace_path@),
            final_trace_path: digests(self.final_trace_path@),
            openings: opening_views(self.openings@),
        }
    }
}

/// The bytes of some digests, one after the other.
pub open spec fn flat(path: Seq<Seq<u8>>) -> Seq<u8> {
    Seq::new(32 * path.len(), |i: int| path[i / 32][i % 32])
}

/// The wire form of a path.
pub open spec fn path_bytes(path: Seq<Seq<u8>>) -> Seq<u8> {
    le_bytes(path.len(), 4) + flat(path)
}

/// The wire form of an opening.
pub open spec fn opening_bytes(op: OpeningView) -> Seq<u8> {
    le_bytes(op.state_before as nat, 8) + op.chunk + path_bytes(op.weight_path) + path_bytes(
        op.trace_path_before,
    ) + path_bytes(op.trace_path_after)
}

/// The wire forms of some openings, one after the other.
pub open spec fn openings_bytes(ops: Seq<OpeningView>) -> Seq<u8>
    decreases ops.len(),
{
    if ops.len() == 0 {
        Seq::empty()
    } else {
        opening_bytes(ops[0]) + openings_bytes(ops.drop_first())
    }
}

/// The wire form of a proof.
pub open spec fn proof_bytes(p: ProofView) -> Seq<u8> {
    seq![p.tier] + p.trace_root + p.pow_value + le_bytes(p.final_state as nat, 8) + path_bytes(
        p.initial_trace_path,
    ) + path_bytes(p.final_trace_path) + le_bytes(p.openings.len(), 4) + openings_bytes(
        p.openings,
    )
}

/// Whether the length of a list fits in four bytes.
pub open spec fn countable(n: nat) -> bool {
    n <= u32::MAX
}

/// Whether an opening has a wire form.
pub open spec fn opening_fits(op: OpeningView) -> bool {
    &&& countable(op.weight_path.len())
    &&& countable(op.trace_path_before.len())
    &&& countable(op.trace_path_after.len())
}

/// Whether a proof has a wire form.
pub open spec fn proof_fits(p: ProofView) -> bool {
    &&& countable(p.initial_trace_path.len())
    &&& countable(p.final_trace_path.len())
    &&& countable(p.openings.len())
    &&& forall|i: int| 0 <= i < p.openings.len() ==> opening_fits(#[trigger] p.openings[i])
}

/// Whether reading `data` gives `p`: the proof that it is the wire form of, where there is one.
pub open spec fn reads_proof(data: Seq<u8>, p: Option<PomProof>) -> bool {
    match p {
        Some(q) => proof_fits(q@) && proof_bytes(q@) == data,
        None => forall|q: PomProof| proof_fits(#[trigger] q@) ==> proof_bytes(q@) != data,
    }
}

/// Whether every node of a path has the length of a digest.
spec fn path_sized(path: Seq<Seq<u8>>) -> bool {
    forall|i: int| 0 <= i < path.len() ==> #[trigger] path[i].len() == 32
}

/// Whether an opening has a wire form and digests of the right length.
spec fn opening_sized(op: OpeningView) -> bool {
    &&& opening_fits(op)
    &&& op.chunk.len() == 32
    &&& path_sized(op.weight_path)
    &&& path_sized(op.trace_path_before)
    &&& path_sized(op.trace_path_after)
}

/// Whether a proof has a wire form and digests of the right length.
spec fn proof_sized(p: ProofView) -> bool {
    &&& proof_fits(p)
    &&& p.trace_root.len() == 32
    &&& p.pow_value.len() == 32
    &&& path_sized(p.initial_trace_path)
    &&& path_sized(p.final_trace_path)
    &&& forall|i: int| 0 <= i < p.openings.len() ==> opening_sized(#[trigger] p.openings[i])
}

/// What is left of `s` from position `at` on.
spec fn rest(s: Seq<u8>, at: int) -> Seq<u8> {
    s.subrange(at, s.len() as int)
}

/// Reads a path off the front of `s`.
spec fn take_path(s: Seq<u8>) -> Option<(Seq<Seq<u8>>, Seq<u8>)> {
    if s.len() < 4 {
        None
    } else {
        let n = le_value(s.subrange(0, 4));
        if s.len() < 4 + 32 * n {
            None
        } else {
            Some((Seq::new(n, |i: int| s.subrange(4 + 32 * i, 36 + 32 * i)), rest(s, (4 + 32 * n) as int)))
        }
    }
}

/// Reads an opening off the front of `s`.
spec fn take_opening(s: Seq<u8>) -> Option<(OpeningView, Seq<u8>)> {
    if s.len() < 40 {
        None
    } else {
        match take_path(rest(s, 40)) {
            None => None,
            Some((weight_path, s1)) => match take_path(s1) {
                None => None,
                Some((trace_path_before, s2)) => match take_path(s2) {
                    None => None,
                    Some((trace_path_after, s3)) => Some(
                        (
                            OpeningView {
                                state_before: le_value(s.subrange(0, 8)) as u64,
                                chunk: s.subrange(8, 40),
                                weight_path,
                                trace_path_before,
                                trace_path_after,
                            },
                            s3,
                        ),
                    ),
                },
            },
        }
    }
}

/// Reads `n` openings off the front of `s`.
spec fn take_openings(s: Seq<u8>, n: nat) -> Option<(Seq<OpeningView>, Seq<u8>)>
    decreases n,
{
    if n == 0 {
        Some((Seq::empty(), s))
    } else {
        match take_opening(s) {
            None => None,
            Some((op, s1)) => match take_openings(s1, (n - 1) as nat) {
                None => None,
                Some((ops, s2)) => Some((seq![op] + ops, s2)),
            },
        }
    }
}

/// Reads the openings of a proof, with their number in front.
spec fn take_opening_list(s: Seq<u8>) -> Option<(Seq<OpeningView>, Seq<u8>)> {
    if s.len() < 4 {
        None
    } else {
        take_openings(rest(s, 4), le_value(s.subrange(0, 4)))
    }
}

/// Reads a proof off the front of `s`.
spec fn take_proof(s: Seq<u8>) -> Option<(ProofView, Seq<u8>)> {
    if s.len() < 73 {
        None
    } else {
        match take_path(rest(s, 73)) {
            None => None,
            Some((initial_trace_path, s1)) => match take_path(s1) {
                None => None,
                Some((final_trace_path, s2)) => match take_opening_list(s2) {
                    None => None,
                    Some((openings, s3)) => Some(
                        (
                            ProofView {
                                tier: s[0],
                                trace_root: s.subrange(1, 33),
                                pow_value: s.subrange(33, 65),
                                final_state: le_value(s.subrange(65, 73)) as u64,
                                initial_trace_path,
                                final_trace_path,
                                openings,
                            },
                            s3,
                        ),
                    ),
                },
            },
        }
    }
}

proof fn lemma_take_written_path(path: Seq<Seq<u8>>, after: Seq<u8>)
    requires
        countable(path.len()),
        path_sized(path),
    ensures
        take_path(path_bytes(path) + after) == Some((path, after)),
{
    lemma_pow256_machine();
    lemma_le_value_of_bytes(path.len(), 4);
    let s = path_bytes(path) + after;
    assert(s.subrange(0, 4) =~= le_bytes(path.len(), 4));
    let got = Seq::new(path.len(), |i: int| s.subrange(4 + 32 * i, 36 + 32 * i));
    assert forall|i: int| 0 <= i < path.len() implies #[trigger] got[i] == path[i] by {
        assert forall|j: int| 0 <= j < 32 implies got[i][j] == #[trigger] path[i][j] by {
            assert(s[4 + 32 * i + j] == flat(path)[32 * i + j]);
            assert((32 * i + j) / 32 == i);
            assert((32 * i + j) % 32 == j);
        }
        assert(got[i] =~= path[i]);
    }
    assert(got =~= path);
    assert(rest(s, (4 + 32 * path.len()) as int) =~= after);
}

proof fn lemma_taken_path_was_written(s: Seq<u8>)
    ensures
        take_path(s) matches Some((path, after)) ==> {
            &&& countable(path.len())
            &&& path_sized(path)
            &&& s == path_bytes(path) + after
        },
{
    if let Some((path, after)) = take_path(s) {
        lemma_pow256_machine();
        lemma_le_bytes_of_value(s.subrange(0, 4));
        let w = path_bytes(path) + after;
        assert(flat(path).len() == 32 * path.len());
        assert forall|i: int| 0 <= i < 32 * path.len() implies #[trigger] flat(path)[i] == s[4 + i] by {
            assert(path[i / 32] == s.subrange(4 + 32 * (i / 32), 36 + 32 * (i / 32)));
        }
        assert(s =~= w);
    }
}

proof fn lemma_take_written_opening(op: OpeningView, after: Seq<u8>)
    requires
        opening_sized(op),
    ensures
        take_opening(opening_bytes(op) + after) == Some((op, after)),
{
    lemma_pow256_machine();
    lemma_le_value_of_bytes(op.state_before as nat, 8);
    let s = opening_bytes(op) + after;
    let t3 = path_bytes(op.trace_path_after) + after;
    let t2 = path_bytes(op.trace_path_before) + t3;
    let t1 = path_bytes(op.weight_path) + t2;
    assert(rest(s, 40) =~= t1);
    assert(s.subrange(0, 8) =~= le_bytes(op.state_before as nat, 8));
    assert(s.subrange(8, 40) =~= op.chunk);
    lemma_take_written_path(op.weight_path, t2);
    lemma_take_written_path(op.trace_path_before, t3);
    lemma_take_written_path(op.trace_path_after, after);
}

proof fn lemma_taken_opening_was_written(s: Seq<u8>)
    ensures
        take_opening(s) matches Some((op, after)) ==> {
            &&& opening_sized(op)
            &&& s == opening_bytes(op) + after
        },
{
    if let Some((op, after)) = take_opening(s) {
        lemma_pow256_machine();
        lemma_le_bytes_of_value(s.subrange(0, 8));
        let s0 = rest(s, 40);
        lemma_taken_path_was_written(s0);
        let s1 = (take_path(s0)->0).1;
        lemma_taken_path_was_written(s1);
        let s2 = (take_path(s1)->0).1;
        lemma_taken_path_was_written(s2);
        assert(s =~= s.subrange(0, 8) + s.subrange(8, 40) + s0);
        assert(s =~= opening_bytes(op) + after);
    }
}

proof fn lemma_take_written_openings(ops: Seq<OpeningView>, after: Seq<u8>)
    requires
        forall|i: int| 0 <= i < ops.len() ==> opening_sized(#[trigger] ops[i]),
    ensures
        take_openings(openings_bytes(ops) + after, ops.len()) == Some((ops, after)),
    decreases ops.len(),
{
    let s = openings_bytes(ops) + after;
    if ops.len() == 0 {
        assert(s =~= after);
        assert(ops =~= Seq::empty());
    } else {
        let tail = ops.drop_first();
        assert(s =~= opening_bytes(ops[0]) + (openings_bytes(tail) + after));
        lemma_take_written_opening(ops[0], openings_bytes(tail) + after);
        assert forall|i: int| 0 <= i < tail.len() implies opening_sized(#[trigger] tail[i]) by {
            assert(tail[i] == ops[i + 1]);
        }
        lemma_take_written_openings(tail, after);
        assert(seq![ops[0]] + tail =~= ops);
    }
}

proof fn lemma_taken_openings_were_written(s: Seq<u8>, n: nat)
    ensures
        take_openings(s, n) matches Some((ops, after)) ==> {
            &&& ops.len() == n
            &&& forall|i: int| 0 <= i < ops.len() ==> opening_sized(#[trigger] ops[i])
            &&& s == openings_bytes(ops) + after
        },
    decreases n,
{
    if let Some((ops, after)) = take_openings(s, n) {
        if n == 0 {
            assert(s =~= openings_bytes(ops) + after);
        } else {
            lemma_taken_opening_was_written(s);
            let (op, s1) = take_opening(s)->0;
            lemma_taken_openings_were_written(s1, (n - 1) as nat);
            let (tail, _) = take_openings(s1, (n - 1) as nat)->0;
            assert(ops.drop_first() =~= tail);
            assert(s =~= openings_bytes(ops) + after);
        }
    }
}

proof fn lemma_take_written_proof(p: ProofView, after: Seq<u8>)
    requires
        proof_sized(p),
    ensures
        take_proof(proof_bytes(p) + after) == Some((p, after)),
{
    lemma_pow256_machine();
    lemma_le_value_of_bytes(p.final_state as nat, 8);
    lemma_le_value_of_bytes(p.openings.len(), 4);
    let s = proof_bytes(p) + after;
    let t4 = openings_bytes(p.openings) + after;
    let t3 = le_bytes(p.openings.len(), 4) + t4;
    let t2 = path_bytes(p.final_trace_path) + t3;
    let t1 = path_bytes(p.initial_trace_path) + t2;
    assert(rest(s, 73) =~= t1);
    assert(s.subrange(1, 33) =~= p.trace_root);
    assert(s.subrange(33, 65) =~= p.pow_value);
    assert(s.subrange(65, 73) =~= le_bytes(p.final_state as nat, 8));
    lemma_take_written_path(p.initial_trace_path, t2);
    lemma_take_written_path(p.final_trace_path, t3);
    assert(t3.subrange(0, 4) =~= le_bytes(p.openings.len(), 4));
    assert(rest(t3, 4) =~= t4);
    lemma_take_written_openings(p.openings, after);
}

proof fn lemma_regroup(
    a: Seq<u8>,
    b: Seq<u8>,
    c: Seq<u8>,
    d: Seq<u8>,
    e: Seq<u8>,
    f: Seq<u8>,
)
    ensures
        a + (b + (c + (d + (e + f)))) == a + b + c + d + e + f,
{
    assert(a + (b + (c + (d + (e + f)))) =~= a + b + c + d + e + f);
}

proof fn lemma_taken_list_was_written(s: Seq<u8>)
    ensures
        take_opening_list(s) matches Some((ops, after)) ==> {
            &&& countable(ops.len())
            &&& forall|i: int| 0 <= i < ops.len() ==> opening_sized(#[trigger] ops[i])
            &&& s == le_bytes(ops.len(), 4) + (openings_bytes(ops) + after)
        },
{
    if s.len() >= 4 {
        lemma_pow256_machine();
        lemma_le_bytes_of_value(s.subrange(0, 4));
        lemma_taken_openings_were_written(rest(s, 4), le_value(s.subrange(0, 4)));
        assert(s =~= s.subrange(0, 4) + rest(s, 4));
    }
}

proof fn lemma_split_head(s: Seq<u8>)
    requires
        s.len() >= 73,
    ensures
        s == seq![s[0]] + s.subrange(1, 33) + s.subrange(33, 65) + le_bytes(
            le_value(s.subrange(65, 73)) as u64 as nat,
            8,
        ) + rest(s, 73),
{
    lemma_pow256_machine();
    lemma_le_bytes_of_value(s.subrange(65, 73));
    assert(s =~= seq![s[0]] + s.subrange(1, 33) + s.subrange(33, 65) + s.subrange(65, 73) + rest(
        s,
        73,
    ));
}

proof fn lemma_taken_proof_was_written(s: Seq<u8>)
    ensures
        take_proof(s) matches Some((p, after)) ==> {
            &&& proof_sized(p)
            &&& s == proof_bytes(p) + after
        },
{
    if let Some((p, after)) = take_proof(s) {
        let s0 = rest(s, 73);
        let s1 = (take_path(s0)->0).1;
        let s2 = (take_path(s1)->0).1;
        lemma_split_head(s);
        lemma_taken_path_was_written(s0);
        lemma_taken_path_was_written(s1);
        lemma_taken_list_was_written(s2);
        lemma_regroup(
            seq![p.tier] + p.trace_root + p.pow_value + le_bytes(p.final_state as nat, 8),
            path_bytes(p.initial_trace_path),
            path_bytes(p.final_trace_path),
            le_bytes(p.openings.len(), 4),
            openings_bytes(p.openings),
            after,
        );
    }
}

proof fn lemma_exec_proof_sized(p: PomProof)
    requires
        proof_fits(p@),
    ensures
        proof_sized(p@),
{
    assert forall|i: int| 0 <= i < p@.openings.len() implies opening_sized(
        #[trigger] p@.openings[i],
    ) by {
        assert(opening_fits(p@.openings[i]));
    }
}

/// Two proofs with one wire form have the same contents.
pub proof fn law_wire_form_is_injective(p: PomProof, q: PomProof)
    requires
        proof_fits(p@),
        proof_fits(q@),
        proof_bytes(p@) == proof_bytes(q@),
    ensures
        p@ == q@,
{
    lemma_exec_proof_sized(p);
    lemma_exec_proof_sized(q);
    lemma_take_written_proof(p@, Seq::empty());
    lemma_take_written_proof(q@, Seq::empty());
}

/// Appends a path.
fn push_path(out: &mut Vec<u8>, path: &Vec<[u8; 32]>)
    requires
        countable(path@.len()),
    ensures
        final(out)@ == old(out)@ + path_bytes(digests(path@)),
{
    let ghost before = out@;
    push_le(out, path.len() as u64, 4);
    let ghost head = out@;
    let ghost all = digests(path@);
    let mut i: usize = 0;
    assert(out@ =~= head + flat(all.subrange(0, 0)));
    while i < path.len()
        invariant
            i <= path@.len(),
            all == digests(path@),
            out@ == head + flat(all.subrange(0, i as int)),
        decreases path@.len() - i,
    {
        push_bytes(out, &path[i]);
        i = i + 1;
        assert(out@ =~= head + flat(all.subrange(0, i as int)));
    }
    assert(all.subrange(0, i as int) =~= all);
    assert(out@ =~= before + path_bytes(all));
}

/// Appends an opening.
fn push_opening(out: &mut Vec<u8>, op: &PomOpening)
    requires
        opening_fits(op@),
    ensures
        final(out)@ == old(out)@ + opening_bytes(op@),
{
    let ghost before = out@;
    push_le(out, op.state_before, 8);
    push_bytes(out, &op.chunk);
    push_path(out, &op.weight_path);
    push_path(out, &op.trace_path_before);
    push_path(out, &op.trace_path_after);
    assert(out@ =~= before + opening_bytes(op@));
}

/// Whether a path has a wire form.
fn path_countable(path: &Vec<[u8; 32]>) -> (ok: bool)
    ensures
        ok == countable(digests(path@).len()),
{
    path.len() as u64 <= u32::MAX as u64
}

/// Whether all openings have a wire form.
fn openings_fit(openings: &Vec<PomOpening>) -> (ok: bool)
    ensures
        ok == forall|i: int|
            0 <= i < openings@.len() ==> opening_fits(#[trigger] opening_views(openings@)[i]),
{
    let ghost views = opening_views(openings@);
    let mut i: usize = 0;
    while i < openings.len()
        invariant
            i <= openings@.len(),
            views == opening_views(openings@),
            forall|j: int| 0 <= j < i ==> opening_fits(#[trigger] views[j]),
        decreases openings@.len() - i,
    {
        let op = &openings[i];
        if !(path_countable(&op.weight_path) && path_countable(&op.trace_path_before)
            && path_countable(&op.trace_path_after)) {
            assert(!opening_fits(views[i as int]));
            return false;
        }
        i = i + 1;
    }
    true
}

/// Appends all openings.
fn push_openings(out: &mut Vec<u8>, openings: &Vec<PomOpening>)
    requires
        forall|i: int|
            0 <= i < openings@.len() ==> opening_fits(#[trigger] opening_views(openings@)[i]),
    ensures
        final(out)@ == old(out)@ + openings_bytes(opening_views(openings@)),
{
    let ghost before = out@;
    let ghost views = opening_views(openings@);
    let n: usize = openings.len();
    let mut i: usize = 0;
    assert(views.subrange(0, n as int) =~= views);
    while i < n
        invariant
            i <= n == openings@.len(),
            views == opening_views(openings@),
            forall|j: int| 0 <= j < n ==> opening_fits(#[trigger] views[j]),
            out@ + openings_bytes(views.subrange(i as int, n as int)) == before + openings_bytes(
                views,
            ),
        decreases n - i,
    {
        let ghost prev = out@;
        let ghost left = views.subrange(i as int, n as int);
        assert(opening_fits(views[i as int]));
        push_opening(out, &openings[i]);
        i = i + 1;
        proof {
            assert(left.drop_first() =~= views.subrange(i as int, n as int));
            assert(prev + openings_bytes(left) =~= out@ + openings_bytes(
                views.subrange(i as int, n as int),
            ));
        }
    }
    assert(out@ + openings_bytes(views.subrange(i as int, n as int)) =~= out@);
}

/// Reads a path at `at`, and gives the position after it.
fn read_path(data: &[u8], at: usize) -> (r: Option<(Vec<[u8; 32]>, usize)>)
    requires
        at <= data@.len(),
    ensures
        match r {
            None => take_path(rest(data@, at as int)) is None,
            Some((path, next)) => {
                &&& at <= next <= data@.len()
                &&& take_path(rest(data@, at as int)) == Some(
                    (digests(path@), rest(data@, next as int)),
                )
            },
        },
{
    let ghost s = rest(data@, at as int);
    let len: usize = data.len();
    if len - at < 4 {
        return None;
    }
    assert(s.subrange(0, 4) =~= data@.subrange(at as int, at + 4));
    let n: u64 = read_le(data, at, 4);
    let room: usize = (len - at - 4) / 32;
    if n > room as u64 {
        return None;
    }
    let count: usize = n as usize;
    let mut path: Vec<[u8; 32]> = Vec::new();
    let mut i: usize = 0;
    while i < count
        invariant
            i <= count,
            len == data@.len(),
            at + 4 + 32 * count <= len,
            s == rest(data@, at as int),
            path@.len() == i,
            forall|j: int|
                0 <= j < i ==> #[trigger] path@[j]@ == s.subrange(4 + 32 * j, 36 + 32 * j),
        decreases count - i,
    {
        let block = block32(data, at + 4 + 32 * i);
        assert(block@ =~= s.subrange(4 + 32 * i, 36 + 32 * i));
        path.push(block);
        i = i + 1;
    }
    let next: usize = at + 4 + 32 * count;
    proof {
        assert(digests(path@) =~= (take_path(s)->0).0);
        assert(rest(data@, next as int) =~= rest(s, 4 + 32 * count));
    }
    Some((path, next))
}

/// Reads an opening at `at`, and gives the position after it.
fn read_opening(data: &[u8], at: usize) -> (r: Option<(PomOpening, usize)>)
    requires
        at <= data@.len(),
    ensures
        match r {
            None => take_opening(rest(data@, at as int)) is None,
            Some((op, next)) => {
                &&& at <= next <= data@.len()
                &&& take_opening(rest(data@, at as int)) == Some((op@, rest(data@, next as int)))
            },
        },
{
    let ghost s = rest(data@, at as int);
    if data.len() - at < 40 {
        return None;
    }
    assert(s.subrange(0, 8) =~= data@.subrange(at as int, at + 8));
    assert(s.subrange(8, 40) =~= data@.subrange(at + 8, at + 40));
    assert(rest(s, 40) =~= rest(data@, at + 40));
    let state_before: u64 = read_le(data, at, 8);
    let chunk = block32(data, at + 8);
    let (weight_path, a1) = match read_path(data, at + 40) {
        None => {
            return None;
        },
        Some(r) => r,
    };
    let (trace_path_before, a2) = match read_path(data, a1) {
        None => {
            return None;
        },
        Some(r) => r,
    };
    let (trace_path_after, a3) = match read_path(data, a2) {
        None => {
            return None;
        },
        Some(r) => r,
    };
    let op = PomOpening {
        state_before,
        chunk,
        weight_path,
        trace_path_before,
        trace_path_after,
    };
    assert(op@ =~= (take_opening(s)->0).0);
    Some((op, a3))
}

/// Reads `n` openings at `at`, and gives the position after them.
fn read_openings(data: &[u8], at: usize, n: u64) -> (r: Option<(Vec<PomOpening>, usize)>)
    requires
        at <= data@.len(),
    ensures
        match r {
            None => take_openings(rest(data@, at as int), n as nat) is None,
            Some((ops, next)) => {
                &&& at <= next <= data@.len()
                &&& take_openings(rest(data@, at as int), n as nat) == Some(
                    (opening_views(ops@), rest(data@, next as int)),
                )
            },
        },
{
    let ghost s = rest(data@, at as int);
    let mut ops: Vec<PomOpening> = Vec::new();
    let mut pos: usize = at;
    let mut i: u64 = 0;
    proof {
        if let Some((tail, after)) = take_openings(s, n as nat) {
            assert(opening_views(ops@) + tail =~= tail);
        }
    }
    while i < n
        invariant
            i <= n,
            at <= pos <= data@.len(),
            match take_openings(rest(data@, pos as int), (n - i) as nat) {
                None => take_openings(s, n as nat) is None,
                Some((tail, after)) => take_openings(s, n as nat) == Some(
                    (opening_views(ops@) + tail, after),
                ),
            },
            s == rest(data@, at as int),
        decreases n - i,
    {
        let ghost here = rest(data@, pos as int);
        let ghost seen = opening_views(ops@);
        match read_opening(data, pos) {
            None => {
                return None;
            },
            Some((op, next)) => {
                ops.push(op);
                pos = next;
                i = i + 1;
                proof {
                    assert(opening_views(ops@) =~= seen.push(op@));
                    if let Some((tail, after)) = take_openings(
                        rest(data@, pos as int),
                        (n - i) as nat,
                    ) {
                        assert(seen + (seq![op@] + tail) =~= opening_views(ops@) + tail);
                    }
                }
            },
        }
    }
    assert(opening_views(ops@) + Seq::<OpeningView>::empty() =~= opening_views(ops@));
    Some((ops, pos))
}

/// Reads a proof off the front of `data`, and gives the position after it.
fn read_proof(data: &[u8]) -> (r: Option<(PomProof, usize)>)
    ensures
        match r {
            None => take_proof(data@) is None,
            Some((p, next)) => {
                &&& next <= data@.len()
                &&& take_proof(data@) == Some((p@, rest(data@, next as int)))
            },
        },
{
    if data.len() < 73 {
        return None;
    }
    let tier: u8 = data[0];
    let trace_root = block32(data, 1);
    let pow_value = block32(data, 33);
    let final_state: u64 = read_le(data, 65, 8);
    let (initial_trace_path, a1) = match read_path(data, 73) {
        None => {
            return None;
        },
        Some(r) => r,
    };
    let (final_trace_path, a2) = match read_path(data, a1) {
        None => {
            return None;
        },
        Some(r) => r,
    };
    let ghost s2 = rest(data@, a2 as int);
    if data.len() - a2 < 4 {
        return None;
    }
    assert(s2.subrange(0, 4) =~= data@.subrange(a2 as int, a2 + 4));
    assert(rest(s2, 4) =~= rest(data@, a2 + 4));
    let n: u64 = read_le(data, a2, 4);
    let (openings, a3) = match read_openings(data, a2 + 4, n) {
        None => {
            return None;
        },
        Some(r) => r,
    };
    let p = PomProof {
        tier,
        trace_root,
        pow_value,
        final_state,
        initial_trace_path,
        final_trace_path,
        openings,
    };
    assert(p@ =~= (take_proof(data@)->0).0);
    Some((p, a3))
}

impl PomProof {
    /// The wire form. A proof with a list too long to count in four bytes has none.
    pub fn to_bytes(&self) -> (out: Option<Vec<u8>>)
        ensures
            out is Some <==> proof_fits(self@),
            out matches Some(b) ==> b@ == proof_bytes(self@),
    {
        if !path_countable(&self.initial_trace_path) || !path_countable(&self.final_trace_path) {
            return None;
        }
        if self.openings.len() as u64 > u32::MAX as u64 || !openings_fit(&self.openings) {
            return None;
        }
        let mut out: Vec<u8> = Vec::new();
        out.push(self.tier);
        push_bytes(&mut out, &self.trace_root);
        push_bytes(&mut out, &self.pow_value);
        push_le(&mut out, self.final_state, 8);
        push_path(&mut out, &self.initial_trace_path);
        push_path(&mut out, &self.final_trace_path);
        push_le(&mut out, self.openings.len() as u64, 4);
        push_openings(&mut out, &self.openings);
        assert(out@ =~= proof_bytes(self@));
        Some(out)
    }

    /// Reads the wire form: the proof whose wire form is exactly `data`, where there is one.
    pub fn from_bytes(data: &[u8]) -> (p: Option<PomProof>)
        ensures
            reads_proof(data@, p),
    {
        proof {
            lemma_taken_proof_was_written(data@);
            assert forall|q: PomProof| proof_fits(#[trigger] q@) && proof_bytes(q@)
                == data@ implies take_proof(data@) == Some((q@, Seq::<u8>::empty())) by {
                lemma_exec_proof_sized(q);
                lemma_take_written_proof(q@, Seq::empty());
                assert(proof_bytes(q@) + Seq::<u8>::empty() =~= data@);
            }
        }
        match read_proof(data) {
            None => None,
            Some((q, next)) => {
                if next == data.len() {
                    assert(rest(data@, next as int) =~= Seq::empty());
                    assert(proof_bytes(q@) + Seq::<u8>::empty() =~= proof_bytes(q@));
                    Some(q)
                } else {
                    assert(rest(data@, next as int).len() > 0);
                    None
                }
            },
        }
    }
}

/// A proof is read back from its wire form, with the same contents.
pub proof fn law_wire_roundtrip(p: PomProof, back: Option<PomProof>)
    requires
        proof_fits(p@),
        reads_proof(proof_bytes(p@), back),
    ensures
        back matches Some(q) && q@ == p@,
{
    if let Some(q) = back {
        law_wire_form_is_injective(q, p);
    }
}

/// Where the nodes of a path stand in its wire form.
pub proof fn law_path_layout(path: Seq<Seq<u8>>, i: int)
    requires
        countable(path.len()),
        forall|j: int| 0 <= j < path.len() ==> #[trigger] path[j].len() == 32,
        0 <= i < path.len(),
    ensures
        path_bytes(path).len() == 4 + 32 * path.len(),
        le_value(path_bytes(path).subrange(0, 4)) == path.len(),
        path_bytes(path).subrange(4 + 32 * i, 36 + 32 * i) == path[i],
{
    lemma_take_written_path(path, Seq::empty());
    let s = path_bytes(path);
    assert(s + Seq::<u8>::empty() =~= s);
    lemma_pow256_machine();
    lemma_le_value_of_bytes(path.len(), 4);
    let taken = Seq::new(path.len(), |j: int| s.subrange(4 + 32 * j, 36 + 32 * j));
    assert(s.subrange(0, 4) =~= le_bytes(path.len(), 4));
    assert(taken =~= path);
    assert(taken[i] == path[i]);
}

/// Where the fields of a proof stand in its wire form: tier, trace root, proof-of-work value and
/// final state at fixed places, then the two paths, the number of openings and the openings.
pub proof fn law_proof_layout(p: PomProof)
    requires
        proof_fits(p@),
    ensures
        ({
            let s = proof_bytes(p@);
            let first = 4 + 32 * p.initial_trace_path@.len() as int;
            let second = 4 + 32 * p.final_trace_path@.len() as int;
            let list = 73 + first + second;
            &&& s[0] == p.tier
            &&& s.subrange(1, 33) == p.trace_root@
            &&& s.subrange(33, 65) == p.pow_value@
            &&& le_value(s.subrange(65, 73)) == p.final_state
            &&& s.subrange(73, 73 + first) == path_bytes(digests(p.initial_trace_path@))
            &&& s.subrange(73 + first, list) == path_bytes(digests(p.final_trace_path@))
            &&& le_value(s.subrange(list, list + 4)) == p.openings@.len()
            &&& s.subrange(list + 4, s.len() as int) == openings_bytes(opening_views(p.openings@))
        }),
{
    lemma_pow256_machine();
    lemma_le_value_of_bytes(p.final_state as nat, 8);
    lemma_le_value_of_bytes(p.openings@.len(), 4);
    lemma_le_value_of_bytes(p.initial_trace_path@.len(), 4);
    lemma_le_value_of_bytes(p.final_trace_path@.len(), 4);
    let s = proof_bytes(p@);
    let (a, b) = (
        path_bytes(digests(p.initial_trace_path@)),
        path_bytes(digests(p.final_trace_path@)),
    );
    let first = a.len() as int;
    let list = 73 + first + b.len();
    assert(s.subrange(1, 33) =~= p.trace_root@);
    assert(s.subrange(33, 65) =~= p.pow_value@);
    assert(s.subrange(65, 73) =~= le_bytes(p.final_state as nat, 8));
    assert(s.subrange(73, 73 + first) =~= a);
    assert(s.subrange(73 + first, list) =~= b);
    assert(s.subrange(list, list + 4) =~= le_bytes(p.openings@.len(), 4));
    assert(s.subrange(list + 4, s.len() as int) =~= openings_bytes(opening_views(p.openings@)));
}

/// Where the fields of an opening stand in its wire form, and that openings stand one after the
/// other.
pub proof fn law_opening_layout(op: PomOpening, a: Seq<OpeningView>, b: Seq<OpeningView>)
    ensures
        ({
            let s = opening_bytes(op@);
            &&& le_value(s.subrange(0, 8)) == op.state_before
            &&& s.subrange(8, 40) == op.chunk@
            &&& s.subrange(40, s.len() as int) == path_bytes(digests(op.weight_path@))
                + path_bytes(digests(op.trace_path_before@)) + path_bytes(
                digests(op.trace_path_after@),
            )
        }),
        openings_bytes(seq![op@]) == opening_bytes(op@),
        openings_bytes(a + b) == openings_bytes(a) + openings_bytes(b),
    decreases a.len(),
{
    lemma_pow256_machine();
    lemma_le_value_of_bytes(op.state_before as nat, 8);
    let s = opening_bytes(op@);
    assert(s.subrange(0, 8) =~= le_bytes(op.state_before as nat, 8));
    assert(s.subrange(8, 40) =~= op.chunk@);
    assert(s.subrange(40, s.len() as int) =~= path_bytes(digests(op.weight_path@)) + path_bytes(
        digests(op.trace_path_before@),
    ) + path_bytes(digests(op.trace_path_after@)));
    assert(seq![op@].drop_first() =~= Seq::empty());
    assert(openings_bytes(Seq::empty()) =~= Seq::empty());
    assert(openings_bytes(seq![op@]) =~= opening_bytes(op@));
    if a.len() == 0 {
        assert(a + b =~= b);
        assert(openings_bytes(a) + openings_bytes(b) =~= openings_bytes(b));
    } else {
        law_opening_layout(op, a.drop_first(), b);
        assert((a + b).drop_first() =~= a.drop_first() + b);
        assert(openings_bytes(a + b) =~= openings_bytes(a) + openings_bytes(b));
    }
}

} // verus!
