//! The weight index: the canonical chunks of a model, the Merkle tree over them, and the order
//! in which the tensors of a model are laid out.

use vstd::prelude::*;
use vstd::relations::sorted_by;
use vstd::utf8::{encode_utf8, encode_utf8_decode_utf8};
use crate::bytes::{block32, push_bytes};
use crate::hash::{blake, blake3_digest};
use crate::merkle::{digests, fold_path, has_path, law_path_leads_to_root, lemma_levels, level_up, levels_of, parents, path_of, root_of, sibling_at};
use crate::mix::{CHUNK_WORDS, bytes_of, chunk_to_words, law_words_then_bytes, words_of};

verus! {

/// Bytes in a chunk.
pub const CHUNK_BYTES: usize = 32;

/// The part of a tensor that the canonical layout keeps: its full chunks.
pub open spec fn full_chunks(tensor: Seq<u8>) -> Seq<u8> {
    tensor.subrange(0, 32 * (tensor.len() as int / 32))
}

/// The canonical layout of some tensors: their full chunks, one after the other.
pub open spec fn layout_of(tensors: Seq<Seq<u8>>) -> Seq<u8>
    decreases tensors.len(),
{
    if tensors.len() == 0 {
        Seq::empty()
    } else {
        layout_of(tensors.drop_last()) + full_chunks(tensors.last())
    }
}

/// The contents of a vector of byte vectors.
pub open spec fn contents(tensors: Seq<Vec<u8>>) -> Seq<Seq<u8>> {
    Seq::new(tensors.len(), |i: int| tensors[i]@)
}

/// The chunk at position `i` of a layout.
pub open spec fn chunk_at(layout: Seq<u8>, i: int) -> Seq<u8> {
    layout.subrange(32 * i, 32 * i + 32)
}

/// The leaves of a layout: the digests of its chunks.
pub open spec fn leaves_of(layout: Seq<u8>) -> Seq<Seq<u8>> {
    Seq::new(layout.len() / 32, |i: int| blake3_digest(chunk_at(layout, i)))
}

/// The levels that a stored tree holds.
pub open spec fn stored_levels(tree: Seq<Vec<[u8; 32]>>) -> Seq<Seq<Seq<u8>>> {
    Seq::new(tree.len(), |i: int| digests(tree[i]@))
}

/// The chunks of a model with the Merkle tree over their digests, so that an inclusion path
/// costs one lookup per level.
pub struct WeightIndex {
    /// How many chunks the model has.
    pub n_chunks: u64,
    /// The Merkle root over the digests of all chunks.
    pub r_t: [u8; 32],
    /// The chunks and their tree.
    pub store: ChunkStore,
}

/// The chunks of a model and the Merkle tree over their digests.
pub struct ChunkStore {
    /// The tree, from the leaves up to the root.
    tree: Vec<Vec<[u8; 32]>>,
    /// The bytes of all chunks.
    data: Vec<u8>,
}

impl ChunkStore {
    /// The bytes of all chunks, in order.
    pub closed spec fn bytes(&self) -> Seq<u8> {
        self.data@
    }

    /// The levels of the tree.
    pub closed spec fn levels(&self) -> Seq<Seq<Seq<u8>>> {
        stored_levels(self.tree@)
    }
}

impl WeightIndex {
    /// The bytes of all chunks, in order.
    pub open spec fn layout(&self) -> Seq<u8> {
        self.store.bytes()
    }

    /// The levels of the stored tree.
    pub open spec fn levels(&self) -> Seq<Seq<Seq<u8>>> {
        self.store.levels()
    }

    /// The digests of all chunks, in order.
    pub open spec fn leaves(&self) -> Seq<Seq<u8>> {
        leaves_of(self.layout())
    }

    /// The words of chunk `off`.
    pub open spec fn chunk_words(&self, off: u64) -> Seq<u64> {
        words_of(chunk_at(self.layout(), off as int))
    }

    /// The chunks as a function of their position.
    pub open spec fn reader(&self) -> spec_fn(u64) -> Seq<u64> {
        |off: u64| self.chunk_words(off)
    }

    /// What every index holds: at least one chunk, whole chunks only, and the tree and the root
    /// of exactly these chunks.
    pub open spec fn wf(&self) -> bool {
        &&& 0 < self.n_chunks <= usize::MAX
        &&& self.layout().len() == 32 * self.n_chunks
        &&& self.levels() == levels_of(self.leaves())
        &&& self.r_t@ == root_of(self.leaves())
    }

    /// Builds the index of a model from its tensors, given in canonical order. There is none
    /// where no tensor holds a full chunk.
    pub fn from_tensors(tensors: &Vec<Vec<u8>>) -> (index: Option<WeightIndex>)
        ensures
            index is None <==> layout_of(contents(tensors@)).len() == 0,
            index matches Some(ix) ==> ix.wf() && ix.layout() == layout_of(contents(tensors@)),
    {
        let mut builder = WeightIndexBuilder::new();
        let mut i: usize = 0;
        let ghost all = contents(tensors@);
        assert(all.subrange(0, 0) =~= Seq::empty());
        while i < tensors.len()
            invariant
                i <= tensors@.len(),
                all == contents(tensors@),
                builder.wf(),
                builder.layout() == layout_of(all.subrange(0, i as int)),
            decreases tensors@.len() - i,
        {
            builder.push_tensor(&tensors[i]);
            i = i + 1;
            assert(all.subrange(0, i as int).drop_last() =~= all.subrange(0, i - 1));
        }
        assert(all.subrange(0, i as int) =~= all);
        builder.build()
    }

    /// Builds the index of a model file from the names of its tensors, in any order, and from
    /// what `read` gives for each of them. The tensors are read in canonical order, up to the
    /// first that cannot be.
    pub fn build_from_gguf<F: Fn(&String) -> Option<Vec<u8>>>(names: Vec<String>, read: F) -> (r:
        Result<WeightIndex, BuildError>)
        requires
            forall|name: String| #[trigger] call_requires(read, (&name,)),
        ensures
            exists|sorted: Seq<String>, got: Seq<Option<Vec<u8>>>|
                {
                    &&& in_canonical_order(names_view(sorted))
                    &&& names_view(sorted).to_multiset() == names_view(names@).to_multiset()
                    &&& #[trigger] were_read(read, sorted, got)
                    &&& builds(sorted, got, r)
                },
    {
        let sorted = canonical_order(names);
        let mut builder = WeightIndexBuilder::new();
        let mut i: usize = 0;
        let ghost mut got: Seq<Option<Vec<u8>>> = Seq::empty();
        assert(read_contents(got) =~= Seq::empty());
        while i < sorted.len()
            invariant
                forall|name: String| #[trigger] call_requires(read, (&name,)),
                in_canonical_order(names_view(sorted@)),
                names_view(sorted@).to_multiset() == names_view(names@).to_multiset(),
                i <= sorted@.len(),
                got.len() == i,
                were_read(read, sorted@, got),
                forall|j: int| 0 <= j < i ==> #[trigger] got[j] is Some,
                builder.wf(),
                builder.layout() == layout_of(read_contents(got)),
            decreases sorted@.len() - i,
        {
            let tensor = read(&sorted[i]);
            let ghost before = got;
            proof {
                got = got.push(tensor);
                assert forall|j: int| 0 <= j < got.len() implies call_ensures(
                    read,
                    (&sorted@[j],),
                    #[trigger] got[j],
                ) by {
                    if j < i {
                        assert(got[j] == before[j]);
                    }
                }
                assert(were_read(read, sorted@, got));
            }
            match tensor {
                None => {
                    let r = Err(BuildError::Unreadable(i));
                    assert(builds(sorted@, got, r));
                    return r;
                },
                Some(bytes) => {
                    builder.push_tensor(bytes.as_slice());
                    proof {
                        assert(read_contents(got).drop_last() =~= read_contents(before));
                        assert(read_contents(got).last() == bytes@);
                    }
                },
            }
            i = i + 1;
        }
        let r = match builder.build() {
            None => Err(BuildError::NoChunks),
            Some(index) => Ok(index),
        };
        assert(were_read(read, sorted@, got) && builds(sorted@, got, r));
        r
    }

    /// The words of the chunk at `off`.
    pub fn read_chunk(&self, off: u64) -> (words: [u64; CHUNK_WORDS])
        requires
            self.wf(),
            off < self.n_chunks,
        ensures
            words@ == self.chunk_words(off),
    {
        assert(self.store.data.len() == 32 * self.n_chunks);
        let base: usize = (off as usize) * 32;
        let block = block32(&self.store.data, base);
        chunk_to_words(&block)
    }

    /// The inclusion path of the chunk at `off`.
    pub fn merkle_path(&self, off: u64) -> (path: Vec<[u8; 32]>)
        requires
            self.wf(),
            has_path(self.n_chunks as nat, off as usize as int),
        ensures
            digests(path@) == path_of(self.leaves(), off as usize as int),
    {
        let mut path: Vec<[u8; 32]> = Vec::new();
        let mut idx: usize = off as usize;
        let mut l: usize = 0;
        let ghost whole = path_of(self.leaves(), idx as int);
        let ghost levels = levels_of(self.leaves());
        let ghost mut level = self.leaves();
        proof {
            lemma_levels(level);
            assert(levels.subrange(0, levels.len() as int) =~= levels);
            assert(digests(path@) + path_of(level, idx as int) =~= whole);
        }
        while l < self.store.tree.len() - 1
            invariant
                self.store.tree@.len() == levels.len(),
                stored_levels(self.store.tree@) == levels,
                l < levels.len(),
                level.len() > 0,
                levels.subrange(l as int, levels.len() as int) == levels_of(level),
                has_path(level.len(), idx as int),
                digests(path@) + path_of(level, idx as int) == whole,
            decreases levels.len() - l,
        {
            let ghost rest = levels.subrange(l as int, levels.len() as int);
            let ghost before = digests(path@);
            proof {
                lemma_levels(level);
                assert(rest[0] == levels[l as int]);
                assert(stored_levels(self.store.tree@)[l as int] == level);
            }
            let sib = sibling_at(&self.store.tree[l], idx);
            path.push(sib);
            idx = idx / 2;
            l = l + 1;
            proof {
                let up = parents(level);
                lemma_levels(up);
                assert(levels_of(level).drop_first() =~= levels_of(up));
                assert(rest.drop_first() =~= levels.subrange(l as int, levels.len() as int));
                assert(digests(path@) =~= before.push(sib@));
                level = up;
                assert(digests(path@) + path_of(level, idx as int) =~= whole);
            }
        }
        proof {
            lemma_levels(level);
            assert(levels_of(level).len() == 1);
            assert(digests(path@) + path_of(level, idx as int) =~= digests(path@));
        }
        path
    }
}

/// Why a model has no index.
#[derive(Clone, Copy, Debug, PartialEq, Eq, Structural)]
pub enum BuildError {
    /// A tensor could not be read: the one at this position of the canonical order.
    Unreadable(usize),
    /// No tensor holds a full chunk.
    NoChunks,
}

/// The contents of the tensors that were read.
pub open spec fn read_contents(got: Seq<Option<Vec<u8>>>) -> Seq<Seq<u8>> {
    Seq::new(got.len(), |i: int| got[i]->0@)
}

/// Whether `got` is what `read` gave for the first of some names.
pub open spec fn were_read<F: Fn(&String) -> Option<Vec<u8>>>(
    read: F,
    names: Seq<String>,
    got: Seq<Option<Vec<u8>>>,
) -> bool {
    &&& got.len() <= names.len()
    &&& forall|i: int|
        0 <= i < got.len() ==> call_ensures(read, (&names[i],), #[trigger] got[i])
}

/// Whether `r` comes of reading `got`, in the order of `names`: all tensors if they could be
/// read, and no more than up to the first that could not.
pub open spec fn builds(
    names: Seq<String>,
    got: Seq<Option<Vec<u8>>>,
    r: Result<WeightIndex, BuildError>,
) -> bool {
    match r {
        Err(BuildError::Unreadable(n)) => {
            &&& got.len() == n + 1
            &&& got[n as int] is None
            &&& forall|i: int| 0 <= i < n ==> #[trigger] got[i] is Some
        },
        Err(BuildError::NoChunks) => {
            &&& got.len() == names.len()
            &&& forall|i: int| 0 <= i < got.len() ==> #[trigger] got[i] is Some
            &&& layout_of(read_contents(got)).len() == 0
        },
        Ok(index) => {
            &&& got.len() == names.len()
            &&& forall|i: int| 0 <= i < got.len() ==> #[trigger] got[i] is Some
            &&& layout_of(read_contents(got)).len() > 0
            &&& index.wf()
            &&& index.layout() == layout_of(read_contents(got))
        },
    }
}

/// Collects the chunks of a model, tensor by tensor.
pub struct WeightIndexBuilder {
    leaves: Vec<[u8; 32]>,
    data: Vec<u8>,
}

impl WeightIndexBuilder {
    /// The bytes of the chunks so far.
    pub closed spec fn layout(&self) -> Seq<u8> {
        self.data@
    }

    /// What every builder holds: whole chunks only, and their digests.
    pub closed spec fn wf(&self) -> bool {
        &&& self.data@.len() == 32 * self.leaves@.len()
        &&& digests(self.leaves@) == leaves_of(self.data@)
    }

    /// A builder without chunks.
    pub fn new() -> (builder: WeightIndexBuilder)
        ensures
            builder.wf(),
            builder.layout() == Seq::<u8>::empty(),
    {
        let builder = WeightIndexBuilder { leaves: Vec::new(), data: Vec::new() };
        assert(digests(builder.leaves@) =~= leaves_of(builder.data@));
        builder
    }

    /// Appends the full chunks of the next tensor; what is left over after them is dropped.
    pub fn push_tensor(&mut self, tensor: &[u8])
        requires
            old(self).wf(),
        ensures
            final(self).wf(),
            final(self).layout() == old(self).layout() + full_chunks(tensor@),
    {
        let full: usize = tensor.len() / 32;
        let mut c: usize = 0;
        let ghost before = self.data@;
        assert(self.data@ =~= before + tensor@.subrange(0, 0));
        while c < full
            invariant
                full == tensor@.len() / 32,
                tensor@.len() == tensor.len(),
                c <= full,
                self.wf(),
                self.data@ == before + tensor@.subrange(0, 32 * c),
            decreases full - c,
        {
            let ghost data0 = self.data@;
            let ghost leaves0 = self.leaves@;
            let chunk = block32(tensor, c * 32);
            self.leaves.push(blake(&chunk));
            push_bytes(&mut self.data, &chunk);
            c = c + 1;
            proof {
                let n = leaves0.len() as int;
                assert forall|i: int| 0 <= i < n implies #[trigger] leaves_of(self.data@)[i]
                    == leaves_of(data0)[i] by {
                    assert(chunk_at(self.data@, i) =~= chunk_at(data0, i));
                }
                assert(chunk_at(self.data@, n) =~= chunk@);
                assert forall|i: int| 0 <= i < n implies #[trigger] digests(self.leaves@)[i]
                    == leaves_of(self.data@)[i] by {
                    assert(digests(leaves0)[i] == leaves_of(data0)[i]);
                }
                assert(digests(self.leaves@) =~= leaves_of(self.data@));
                assert(self.data@ =~= before + tensor@.subrange(0, 32 * c));
            }
        }
    }

    /// Builds the tree over the chunks. There is none without chunks.
    pub fn build(self) -> (index: Option<WeightIndex>)
        requires
            self.wf(),
        ensures
            index is None <==> self.layout().len() == 0,
            index matches Some(ix) ==> ix.wf() && ix.layout() == self.layout(),
    {
        if self.leaves.len() == 0 {
            return None;
        }
        let ghost leaves = digests(self.leaves@);
        let n_chunks: u64 = self.leaves.len() as u64;
        let data = self.data;
        let mut level: Vec<[u8; 32]> = self.leaves;
        let mut tree: Vec<Vec<[u8; 32]>> = Vec::new();
        assert(stored_levels(tree@) + levels_of(digests(level@)) =~= levels_of(leaves));
        while level.len() > 1
            invariant
                level@.len() > 0,
                stored_levels(tree@) + levels_of(digests(level@)) == levels_of(leaves),
                root_of(digests(level@)) == root_of(leaves),
            decreases level@.len(),
        {
            let ghost below = stored_levels(tree@);
            let ghost here = digests(level@);
            let next = level_up(&level);
            tree.push(level);
            level = next;
            proof {
                assert(level@.len() == digests(level@).len());
                assert(stored_levels(tree@) =~= below.push(here));
                assert(stored_levels(tree@) + levels_of(digests(level@)) =~= below + levels_of(here));
            }
        }
        let r_t: [u8; 32] = level[0];
        let ghost below = stored_levels(tree@);
        let ghost top = digests(level@);
        tree.push(level);
        assert(stored_levels(tree@) =~= below + seq![top]);
        Some(WeightIndex { n_chunks, r_t, store: ChunkStore { tree, data } })
    }
}

/// Lexicographic order of byte sequences.
pub open spec fn bytes_leq(a: Seq<u8>, b: Seq<u8>) -> bool
    decreases a.len(),
{
    if a.len() == 0 {
        true
    } else if b.len() == 0 {
        false
    } else if a[0] != b[0] {
        a[0] < b[0]
    } else {
        bytes_leq(a.drop_first(), b.drop_first())
    }
}

/// The order of tensor names: that of their UTF-8 bytes.
pub open spec fn name_leq(a: Seq<char>, b: Seq<char>) -> bool {
    bytes_leq(encode_utf8(a), encode_utf8(b))
}

/// The contents of some names.
pub open spec fn names_view(names: Seq<String>) -> Seq<Seq<char>> {
    Seq::new(names.len(), |i: int| names[i]@)
}

/// Whether names stand in canonical order.
pub open spec fn in_canonical_order(names: Seq<Seq<char>>) -> bool {
    forall|i: int, j: int| 0 <= i < j < names.len() ==> name_leq(names[i], names[j])
}

proof fn lemma_bytes_leq_total(a: Seq<u8>, b: Seq<u8>)
    ensures
        bytes_leq(a, b) || bytes_leq(b, a),
    decreases a.len(),
{
    if a.len() > 0 && b.len() > 0 {
        lemma_bytes_leq_total(a.drop_first(), b.drop_first());
    }
}

proof fn lemma_bytes_leq_transitive(a: Seq<u8>, b: Seq<u8>, c: Seq<u8>)
    requires
        bytes_leq(a, b),
        bytes_leq(b, c),
    ensures
        bytes_leq(a, c),
    decreases a.len(),
{
    if a.len() > 0 && b.len() > 0 && c.len() > 0 && a[0] == b[0] && b[0] == c[0] {
        lemma_bytes_leq_transitive(a.drop_first(), b.drop_first(), c.drop_first());
    }
}

proof fn lemma_bytes_leq_antisymmetric(a: Seq<u8>, b: Seq<u8>)
    requires
        bytes_leq(a, b),
        bytes_leq(b, a),
    ensures
        a == b,
    decreases a.len(),
{
    if a.len() == 0 {
        assert(a =~= b);
    } else {
        lemma_bytes_leq_antisymmetric(a.drop_first(), b.drop_first());
        assert(a =~= seq![a[0]] + a.drop_first());
        assert(b =~= seq![b[0]] + b.drop_first());
    }
}

/// Whether the name `a` comes before `b`, or is the same.
fn name_at_most(a: &str, b: &str) -> (leq: bool)
    ensures
        leq == name_leq(a@, b@),
{
    let x: &[u8] = a.as_bytes();
    let y: &[u8] = b.as_bytes();
    let mut i: usize = 0;
    assert(x@.subrange(0, x@.len() as int) =~= x@);
    assert(y@.subrange(0, y@.len() as int) =~= y@);
    while i < x.len() && i < y.len()
        invariant
            i <= x@.len(),
            i <= y@.len(),
            x@ == encode_utf8(a@),
            y@ == encode_utf8(b@),
            bytes_leq(x@, y@) == bytes_leq(
                x@.subrange(i as int, x@.len() as int),
                y@.subrange(i as int, y@.len() as int),
            ),
        decreases x@.len() - i,
    {
        if x[i] != y[i] {
            assert(x@.subrange(i as int, x@.len() as int)[0] == x@[i as int]);
            assert(y@.subrange(i as int, y@.len() as int)[0] == y@[i as int]);
            return x[i] < y[i];
        }
        assert(x@.subrange(i as int, x@.len() as int).drop_first() =~= x@.subrange(
            i + 1,
            x@.len() as int,
        ));
        assert(y@.subrange(i as int, y@.len() as int).drop_first() =~= y@.subrange(
            i + 1,
            y@.len() as int,
        ));
        i = i + 1;
    }
    i == x.len()
}

/// The tensor names of a model in canonical order.
pub fn canonical_order(names: Vec<String>) -> (sorted: Vec<String>)
    ensures
        in_canonical_order(names_view(sorted@)),
        names_view(sorted@).to_multiset() == names_view(names@).to_multiset(),
{
    broadcast use {
        vstd::seq_lib::group_to_multiset_ensures,
        vstd::multiset::group_multiset_axioms,
    };

    let ghost given = names_view(names@).to_multiset();
    let mut rest: Vec<String> = names;
    let mut sorted: Vec<String> = Vec::new();
    assert(names_view(sorted@).to_multiset().add(names_view(rest@).to_multiset()) =~= given);
    while rest.len() > 0
        invariant
            in_canonical_order(names_view(sorted@)),
            names_view(sorted@).to_multiset().add(names_view(rest@).to_multiset()) == given,
        decreases rest@.len(),
    {
        let ghost rest0 = names_view(rest@);
        let ghost sorted0 = names_view(sorted@);
        match rest.pop() {
            None => {},
            Some(name) => {
                let mut at: usize = 0;
                while at < sorted.len() && name_at_most(&sorted[at], &name)
                    invariant
                        at <= sorted@.len(),
                        sorted0 == names_view(sorted@),
                        forall|i: int| 0 <= i < at ==> name_leq(#[trigger] sorted0[i], name@),
                    decreases sorted@.len() - at,
                {
                    at = at + 1;
                }
                proof {
                    assert(rest0 =~= names_view(rest@).push(name@));
                    assert forall|i: int| at <= i < sorted0.len() implies name_leq(
                        name@,
                        #[trigger] sorted0[i],
                    ) by {
                        let n = encode_utf8(name@);
                        let first = encode_utf8(sorted0[at as int]);
                        lemma_bytes_leq_total(n, first);
                        if i > at {
                            assert(name_leq(sorted0[at as int], sorted0[i]));
                            lemma_bytes_leq_transitive(n, first, encode_utf8(sorted0[i]));
                        }
                    }
                }
                sorted.insert(at, name);
                proof {
                    assert(names_view(sorted@) =~= sorted0.insert(at as int, name@));
                    assert(in_canonical_order(names_view(sorted@)));
                    vstd::seq_lib::to_multiset_insert(sorted0, at as int, name@);
                    vstd::seq_lib::to_multiset_build(names_view(rest@), name@);
                    assert(names_view(sorted@).to_multiset().add(names_view(rest@).to_multiset())
                        =~= sorted0.to_multiset().add(rest0.to_multiset()));
                }
            },
        }
    }
    assert(names_view(rest@).to_multiset() =~= vstd::multiset::Multiset::empty());
    assert(names_view(sorted@).to_multiset() =~= given);
    sorted
}

/// There is one canonical order: names in it are determined by which names there are, however
/// they were listed.
pub proof fn law_canonical_order_is_unique(a: Seq<Seq<char>>, b: Seq<Seq<char>>)
    requires
        in_canonical_order(a),
        in_canonical_order(b),
        a.to_multiset() == b.to_multiset(),
    ensures
        a == b,
{
    let leq = |x: Seq<char>, y: Seq<char>| name_leq(x, y);
    assert forall|x: Seq<char>| #[trigger] leq(x, x) by {
        lemma_bytes_leq_total(encode_utf8(x), encode_utf8(x));
    }
    assert forall|x: Seq<char>, y: Seq<char>| #[trigger] leq(x, y) || #[trigger] leq(y, x) by {
        lemma_bytes_leq_total(encode_utf8(x), encode_utf8(y));
    }
    assert forall|x: Seq<char>, y: Seq<char>| #[trigger] leq(x, y) && #[trigger] leq(
        y,
        x,
    ) implies x == y by {
        lemma_bytes_leq_antisymmetric(encode_utf8(x), encode_utf8(y));
        encode_utf8_decode_utf8(x);
        encode_utf8_decode_utf8(y);
    }
    assert forall|x: Seq<char>, y: Seq<char>, z: Seq<char>| #[trigger] leq(x, y) && #[trigger] leq(
        y,
        z,
    ) implies leq(x, z) by {
        lemma_bytes_leq_transitive(encode_utf8(x), encode_utf8(y), encode_utf8(z));
    }
    assert(sorted_by(a, leq));
    assert(sorted_by(b, leq));
    vstd::seq_lib::lemma_sorted_unique(a, b, leq);
}

/// The chunk at any position of an index verifies with its path against the root of the index.
pub proof fn law_chunk_is_included(index: WeightIndex, off: int)
    requires
        index.wf(),
        0 <= off < index.n_chunks,
    ensures
        fold_path(
            blake3_digest(chunk_at(index.layout(), off)),
            off,
            path_of(index.leaves(), off),
        ) == index.r_t@,
{
    law_path_leads_to_root(index.leaves(), off);
}

/// Installs the index of the model in use and its tier. The first one that is installed stays.
pub fn set_index(slot: &mut Option<(WeightIndex, u8)>, index: WeightIndex, tier: u8)
    ensures
        *final(slot) == match *old(slot) {
            None => Some((index, tier)),
            Some(installed) => Some(installed),
        },
{
    if slot.is_none() {
        *slot = Some((index, tier));
    }
}

/// The index of the model in use and its tier, if installed.
pub fn active_index(slot: &Option<(WeightIndex, u8)>) -> (active: Option<&(WeightIndex, u8)>)
    ensures
        active == match *slot {
            None => None,
            Some(installed) => Some(&installed),
        },
{
    slot.as_ref()
}

/// The layout keeps a tensor's beginning, in whole chunks, and drops less than one chunk of it.
pub proof fn law_full_chunks_are_kept(tensor: Seq<u8>)
    ensures
        full_chunks(tensor).is_prefix_of(tensor),
        full_chunks(tensor).len() % 32 == 0,
        tensor.len() - full_chunks(tensor).len() < 32,
{
}

/// Tensors are laid out one after the other: what comes of two lists is what comes of the one and
/// then of the other, and a single tensor gives its full chunks.
pub proof fn law_layouts_join(a: Seq<Seq<u8>>, t: Seq<u8>, b: Seq<Seq<u8>>)
    ensures
        layout_of(a + b) == layout_of(a) + layout_of(b),
        layout_of(seq![t]) == full_chunks(t),
    decreases b.len(),
{
    assert(seq![t].drop_last() =~= Seq::empty());
    assert(layout_of(Seq::empty()) + full_chunks(t) =~= full_chunks(t));
    if b.len() == 0 {
        assert(a + b =~= a);
        assert(layout_of(a) + layout_of(b) =~= layout_of(a));
    } else {
        law_layouts_join(a, t, b.drop_last());
        assert((a + b).drop_last() =~= a + b.drop_last());
        assert(layout_of(a + b) =~= layout_of(a) + layout_of(b));
    }
}

/// The chunks of an index are its layout, byte by byte, and its leaves are their digests.
pub proof fn law_chunks_are_the_layout(index: WeightIndex, at: int, off: u64, block: Seq<u8>)
    requires
        index.wf(),
        0 <= at < index.layout().len(),
        off < index.n_chunks,
        block.len() == 32,
        forall|j: int| 0 <= j < 32 ==> #[trigger] block[j] == index.layout()[32 * off + j],
    ensures
        index.layout().len() == 32 * index.n_chunks,
        index.layout()[at] == bytes_of(index.chunk_words((at / 32) as u64))[at % 32],
        index.leaves().len() == index.n_chunks,
        index.leaves()[off as int] == blake3_digest(block),
{
    let i = at / 32;
    law_words_then_bytes(chunk_at(index.layout(), i));
    assert(chunk_at(index.layout(), i)[at % 32] == index.layout()[at]);
    assert(chunk_at(index.layout(), off as int) =~= block);
}

/// Names are ordered by the first byte in which they differ, and a name comes before those that
/// go on from it.
pub proof fn law_first_difference_decides(a: Seq<u8>, b: Seq<u8>, i: int)
    requires
        0 <= i <= a.len(),
        i < b.len(),
        forall|j: int| 0 <= j < i ==> #[trigger] a[j] == b[j],
        i == a.len() || a[i] < b[i],
    ensures
        bytes_leq(a, b),
        !bytes_leq(b, a),
    decreases i,
{
    if i > 0 {
        let (x, y) = (a.drop_first(), b.drop_first());
        assert(a[0] == b[0]);
        assert forall|j: int| 0 <= j < i - 1 implies #[trigger] x[j] == y[j] by {
            assert(a[j + 1] == b[j + 1]);
        }
        law_first_difference_decides(x, y, i - 1);
    }
}

/// A model is refused only for a reason: where every tensor was read there is an index as soon as
/// one of them has a full chunk, and where one was not there is none.
pub proof fn law_build_succeeds_where_it_can(
    names: Seq<String>,
    got: Seq<Option<Vec<u8>>>,
    r: Result<WeightIndex, BuildError>,
    i: int,
)
    requires
        builds(names, got, r),
        0 <= i < got.len(),
    ensures
        got[i] is None ==> r == Err::<WeightIndex, BuildError>(BuildError::Unreadable(i as usize)),
        (forall|j: int| 0 <= j < got.len() ==> #[trigger] got[j] is Some) && got[i]->0@.len() >= 32
            ==> r is Ok && got.len() == names.len(),
{
    if got[i] is Some && got[i]->0@.len() >= 32 {
        lemma_layout_holds_tensor(read_contents(got), i);
    }
}

proof fn lemma_layout_holds_tensor(tensors: Seq<Seq<u8>>, i: int)
    requires
        0 <= i < tensors.len(),
    ensures
        layout_of(tensors).len() >= full_chunks(tensors[i]).len(),
    decreases tensors.len(),
{
    if i < tensors.len() - 1 {
        lemma_layout_holds_tensor(tensors.drop_last(), i);
        assert(tensors.drop_last()[i] == tensors[i]);
    }
}

/// An index is built of what was read, tensor after tensor: the full chunks of each stand between
/// those of the tensors before it and those of the tensors behind it. Where no tensor has a full
/// chunk there is no index.
pub proof fn law_index_is_built_of_all_tensors(
    names: Seq<String>,
    got: Seq<Option<Vec<u8>>>,
    r: Result<WeightIndex, BuildError>,
    i: int,
)
    requires
        builds(names, got, r),
        0 <= i < got.len(),
    ensures
        r matches Ok(index) ==> index.layout() == layout_of(read_contents(got.subrange(0, i)))
            + full_chunks(got[i]->0@) + layout_of(
            read_contents(got.subrange(i + 1, got.len() as int)),
        ),
        (forall|j: int|
            0 <= j < got.len() ==> #[trigger] got[j] is Some && got[j]->0@.len() < 32) ==> r == Err::<
            WeightIndex,
            BuildError,
        >(BuildError::NoChunks),
{
    let all = read_contents(got);
    let (front, back) = (
        read_contents(got.subrange(0, i)),
        read_contents(got.subrange(i + 1, got.len() as int)),
    );
    let one = seq![got[i]->0@];
    assert(all =~= front + one + back);
    law_layouts_join(front + one, got[i]->0@, back);
    law_layouts_join(front, got[i]->0@, one);
    if forall|j: int| 0 <= j < got.len() ==> #[trigger] got[j] is Some && got[j]->0@.len() < 32 {
        assert forall|j: int| 0 <= j < all.len() implies (#[trigger] all[j]).len() < 32 by {
            assert(got[j] is Some);
        }
        lemma_small_tensors_leave_nothing(all);
    }
}

proof fn lemma_small_tensors_leave_nothing(tensors: Seq<Seq<u8>>)
    requires
        forall|j: int| 0 <= j < tensors.len() ==> (#[trigger] tensors[j]).len() < 32,
    ensures
        layout_of(tensors).len() == 0,
    decreases tensors.len(),
{
    if tensors.len() > 0 {
        assert(tensors.last().len() < 32);
        let head = tensors.drop_last();
        assert forall|j: int| 0 <= j < head.len() implies (#[trigger] head[j]).len() < 32 by {
            assert(head[j] == tensors[j]);
        }
        lemma_small_tensors_leave_nothing(head);
    }
}

/// Names are fully ordered: of any two one comes first, equal names stand in either order, and
/// only equal names do.
pub proof fn law_names_are_fully_ordered(a: Seq<char>, b: Seq<char>)
    ensures
        name_leq(a, a),
        name_leq(a, b) || name_leq(b, a),
        name_leq(a, b) && name_leq(b, a) ==> a == b,
{
    lemma_bytes_leq_total(encode_utf8(a), encode_utf8(a));
    lemma_bytes_leq_total(encode_utf8(a), encode_utf8(b));
    if name_leq(a, b) && name_leq(b, a) {
        lemma_bytes_leq_antisymmetric(encode_utf8(a), encode_utf8(b));
        encode_utf8_decode_utf8(a);
        encode_utf8_decode_utf8(b);
    }
}

} // verus!
