//! Merkle trees of 32-byte digests. An odd last node is paired with itself.

use vstd::prelude::*;
use vstd::arithmetic::power2::{lemma2_to64, lemma_pow2_pos, lemma_pow2_unfold, pow2};
use crate::bytes::eq32;
use crate::hash::{blake, blake3_digest};

verus! {

/// The digests that an array of 32-byte blocks holds.
pub open spec fn digests(blocks: Seq<[u8; 32]>) -> Seq<Seq<u8>> {
    Seq::new(blocks.len(), |i: int| blocks[i]@)
}

/// The digest of an inner node.
pub open spec fn pair_digest(left: Seq<u8>, right: Seq<u8>) -> Seq<u8> {
    blake3_digest(left + right)
}

/// The level above `level`.
pub open spec fn parents(level: Seq<Seq<u8>>) -> Seq<Seq<u8>> {
    Seq::new(
        (level.len() + 1) / 2,
        |j: int|
            pair_digest(
                level[2 * j],
                if 2 * j + 1 < level.len() {
                    level[2 * j + 1]
                } else {
                    level[2 * j]
                },
            ),
    )
}

/// The root of the tree over `level`.
pub open spec fn root_of(level: Seq<Seq<u8>>) -> Seq<u8>
    decreases level.len(),
{
    if level.len() <= 1 {
        level[0]
    } else {
        root_of(parents(level))
    }
}

/// The node that is hashed together with node `i` of `level`.
pub open spec fn sibling(level: Seq<Seq<u8>>, i: int) -> Seq<u8> {
    let s = if i % 2 == 0 {
        i + 1
    } else {
        i - 1
    };
    if s < level.len() {
        level[s]
    } else {
        level[i]
    }
}

/// The inclusion path of node `i` of `level`: its siblings on the way to the root.
pub open spec fn path_of(level: Seq<Seq<u8>>, i: int) -> Seq<Seq<u8>>
    decreases level.len(),
{
    if level.len() <= 1 {
        Seq::empty()
    } else {
        seq![sibling(level, i)] + path_of(parents(level), i / 2)
    }
}

/// All levels of the tree over `level`, from the leaves up to the root.
pub open spec fn levels_of(level: Seq<Seq<u8>>) -> Seq<Seq<Seq<u8>>>
    decreases level.len(),
{
    if level.len() <= 1 {
        seq![level]
    } else {
        seq![level] + levels_of(parents(level))
    }
}

/// What a leaf at position `index` hashes to when it is combined with the nodes of `path`.
pub open spec fn fold_path(leaf: Seq<u8>, index: int, path: Seq<Seq<u8>>) -> Seq<u8>
    decreases path.len(),
{
    if path.len() == 0 {
        leaf
    } else {
        let up = if index % 2 == 0 {
            pair_digest(leaf, path[0])
        } else {
            pair_digest(path[0], leaf)
        };
        fold_path(up, index / 2, path.drop_first())
    }
}

/// Whether position `index` has a path in a tree of `n` leaves: a leaf, or the copy that an odd
/// last leaf is paired with. A tree of one leaf, or of none, has no siblings and takes any
/// position.
pub open spec fn has_path(n: nat, index: int) -> bool {
    n > 1 ==> 0 <= index / 2 < (n + 1) / 2
}

/// The digest of an inner node.
pub fn hash_pair(left: &[u8; 32], right: &[u8; 32]) -> (node: [u8; 32])
    ensures
        node@ == pair_digest(left@, right@),
{
    let mut buf = [0u8; 64];
    let mut i: usize = 0;
    while i < 32
        invariant
            i <= 32,
            forall|j: int| 0 <= j < i ==> buf@[j] == left@[j],
            forall|j: int| 0 <= j < i ==> buf@[32 + j] == right@[j],
        decreases 32 - i,
    {
        buf[i] = left[i];
        buf[32 + i] = right[i];
        i = i + 1;
    }
    assert(buf@ =~= left@ + right@);
    blake(&buf)
}

/// Hashes one level of the tree to the level above it.
pub(crate) fn level_up(level: &[[u8; 32]]) -> (next: Vec<[u8; 32]>)
    ensures
        digests(next@) == parents(digests(level@)),
{
    let n: usize = level.len();
    let half: usize = n / 2 + n % 2;
    let mut next: Vec<[u8; 32]> = Vec::new();
    let mut j: usize = 0;
    while j < half
        invariant
            n == level@.len(),
            half == (n + 1) / 2,
            j <= half,
            next@.len() == j,
            forall|i: int| 0 <= i < j ==> #[trigger] next@[i]@ == parents(digests(level@))[i],
        decreases half - j,
    {
        let i: usize = 2 * j;
        let r: [u8; 32] = if i + 1 < n {
            level[i + 1]
        } else {
            level[i]
        };
        next.push(hash_pair(&level[i], &r));
        j = j + 1;
    }
    assert(digests(next@) =~= parents(digests(level@)));
    next
}

/// A copy of a level.
pub(crate) fn copy_level(level: &[[u8; 32]]) -> (copy: Vec<[u8; 32]>)
    ensures
        copy@ == level@,
{
    vstd::slice::slice_to_vec(level)
}

/// The root of the tree over `leaves`.
pub fn merkle_root(leaves: &[[u8; 32]]) -> (root: [u8; 32])
    requires
        leaves@.len() > 0,
    ensures
        root@ == root_of(digests(leaves@)),
{
    let mut level: Vec<[u8; 32]> = copy_level(leaves);
    while level.len() > 1
        invariant
            level@.len() > 0,
            root_of(digests(level@)) == root_of(digests(leaves@)),
        decreases level@.len(),
    {
        level = level_up(&level);
        assert(level@.len() == digests(level@).len());
    }
    level[0]
}

/// The sibling of node `idx` of a level.
pub(crate) fn sibling_at(level: &[[u8; 32]], idx: usize) -> (node: [u8; 32])
    requires
        level@.len() > 1,
        has_path(level@.len(), idx as int),
    ensures
        node@ == sibling(digests(level@), idx as int),
{
    let n: usize = level.len();
    if idx % 2 == 0 {
        if idx + 1 < n {
            level[idx + 1]
        } else {
            level[idx]
        }
    } else {
        level[idx - 1]
    }
}

/// The inclusion path of leaf `index`.
pub fn merkle_proof(leaves: &[[u8; 32]], index: usize) -> (path: Vec<[u8; 32]>)
    requires
        has_path(leaves@.len(), index as int),
    ensures
        digests(path@) == path_of(digests(leaves@), index as int),
{
    let mut path: Vec<[u8; 32]> = Vec::new();
    let mut level: Vec<[u8; 32]> = copy_level(leaves);
    let mut idx: usize = index;
    assert(digests(path@) + path_of(digests(level@), idx as int) =~= path_of(
        digests(leaves@),
        index as int,
    ));
    while level.len() > 1
        invariant
            has_path(level@.len(), idx as int),
            digests(path@) + path_of(digests(level@), idx as int) == path_of(
                digests(leaves@),
                index as int,
            ),
        decreases level@.len(),
    {
        let sib = sibling_at(&level, idx);
        let ghost before = digests(path@);
        let ghost whole = path_of(digests(level@), idx as int);
        path.push(sib);
        level = level_up(&level);
        idx = idx / 2;
        proof {
            assert(level@.len() == digests(level@).len());
            assert(digests(path@) =~= before.push(sib@));
            assert(digests(path@) + path_of(digests(level@), idx as int) =~= before + whole);
        }
    }
    assert(digests(path@) + path_of(digests(level@), idx as int) =~= digests(path@));
    path
}

/// Whether `leaf` at position `index` hashes to `root` along `path`.
pub fn verify_merkle(leaf: [u8; 32], index: u64, path: &[[u8; 32]], root: &[u8; 32]) -> (ok: bool)
    ensures
        ok == (fold_path(leaf@, index as int, digests(path@)) == root@),
{
    let mut acc: [u8; 32] = leaf;
    let mut idx: u64 = index;
    let mut i: usize = 0;
    assert(digests(path@.subrange(0, path@.len() as int)) =~= digests(path@));
    while i < path.len()
        invariant
            i <= path@.len(),
            fold_path(acc@, idx as int, digests(path@.subrange(i as int, path@.len() as int)))
                == fold_path(leaf@, index as int, digests(path@)),
        decreases path@.len() - i,
    {
        let ghost here = digests(path@.subrange(i as int, path@.len() as int));
        acc = if idx % 2 == 0 {
            hash_pair(&acc, &path[i])
        } else {
            hash_pair(&path[i], &acc)
        };
        idx = idx / 2;
        i = i + 1;
        assert(here.drop_first() =~= digests(path@.subrange(i as int, path@.len() as int)));
    }
    eq32(&acc, root)
}

/// Every leaf of a tree verifies with its own path against the root of that tree.
pub proof fn law_path_leads_to_root(level: Seq<Seq<u8>>, i: int)
    requires
        0 <= i < level.len(),
    ensures
        fold_path(level[i], i, path_of(level, i)) == root_of(level),
    decreases level.len(),
{
    if level.len() > 1 {
        let up = parents(level);
        let path = path_of(level, i);
        assert(path.drop_first() =~= path_of(up, i / 2));
        assert(path[0] == sibling(level, i));
        if i % 2 == 0 {
            assert(up[i / 2] == pair_digest(level[i], path[0]));
        } else {
            assert(2 * (i / 2) == i - 1);
            assert(up[i / 2] == pair_digest(path[0], level[i]));
        }
        law_path_leads_to_root(up, i / 2);
    } else {
        assert(path_of(level, i).len() == 0);
    }
}

/// Whether two inputs are different and have the same digest.
pub open spec fn collide(pair: (Seq<u8>, Seq<u8>)) -> bool {
    pair.0 != pair.1 && blake3_digest(pair.0) == blake3_digest(pair.1)
}

/// What is hashed when a node at position `index` meets its sibling.
pub open spec fn fold_input(node: Seq<u8>, index: int, sib: Seq<u8>) -> Seq<u8> {
    if index % 2 == 0 {
        node + sib
    } else {
        sib + node
    }
}

/// The first pair of different inputs with the same digest on the way up from two nodes, along
/// two paths of one length. Where there is none, the pair that the two ways end with.
pub open spec fn path_collision(
    a: Seq<u8>,
    b: Seq<u8>,
    index: int,
    p: Seq<Seq<u8>>,
    q: Seq<Seq<u8>>,
) -> (Seq<u8>, Seq<u8>)
    decreases p.len(),
{
    if p.len() == 0 {
        (a, b)
    } else {
        let x = fold_input(a, index, p[0]);
        let y = fold_input(b, index, q[0]);
        if collide((x, y)) {
            (x, y)
        } else {
            path_collision(
                blake3_digest(x),
                blake3_digest(y),
                index / 2,
                p.drop_first(),
                q.drop_first(),
            )
        }
    }
}

/// Two leaves that verify at one position with paths of one length against one root are the
/// same leaf, or the two ways up meet in a collision.
pub proof fn law_root_binds_leaf(
    a: Seq<u8>,
    b: Seq<u8>,
    index: int,
    p: Seq<Seq<u8>>,
    q: Seq<Seq<u8>>,
)
    requires
        p.len() == q.len(),
        sized(p),
        sized(q),
        fold_path(a, index, p) == fold_path(b, index, q),
    ensures
        a == b || collide(path_collision(a, b, index, p, q)),
    decreases p.len(),
{
    if p.len() > 0 && a != b {
        let x = fold_input(a, index, p[0]);
        let y = fold_input(b, index, q[0]);
        if x == y {
            if index % 2 == 0 {
                assert(a =~= x.subrange(0, x.len() - 32));
                assert(b =~= y.subrange(0, y.len() - 32));
            } else {
                assert(a =~= x.subrange(32, x.len() as int));
                assert(b =~= y.subrange(32, y.len() as int));
            }
        } else if !collide((x, y)) {
            lemma_sized_tail(p);
            lemma_sized_tail(q);
            law_root_binds_leaf(
                blake3_digest(x),
                blake3_digest(y),
                index / 2,
                p.drop_first(),
                q.drop_first(),
            );
        }
    }
}

/// Whether every node of a level has the length of a digest.
pub open spec fn sized(level: Seq<Seq<u8>>) -> bool {
    forall|i: int| 0 <= i < level.len() ==> #[trigger] level[i].len() == 32
}

proof fn lemma_sized_tail(p: Seq<Seq<u8>>)
    requires
        sized(p),
        p.len() > 0,
    ensures
        sized(p.drop_first()),
{
    let rest = p.drop_first();
    assert forall|i: int| 0 <= i < rest.len() implies #[trigger] rest[i].len() == 32 by {
        assert(rest[i] == p[i + 1]);
    }
}

/// The levels of a tree: the leaves first, each next one the parents of the one before, and the
/// root alone at the top.
pub proof fn lemma_levels(level: Seq<Seq<u8>>)
    requires
        level.len() > 0,
    ensures
        levels_of(level).len() > 0,
        levels_of(level)[0] == level,
        levels_of(level).last().len() == 1,
        levels_of(level).last()[0] == root_of(level),
    decreases level.len(),
{
    if level.len() > 1 {
        lemma_levels(parents(level));
        assert(levels_of(level).last() == levels_of(parents(level)).last());
    }
}

/// The digests of some blocks.
pub open spec fn leaf_digests(blocks: Seq<Seq<u8>>) -> Seq<Seq<u8>> {
    Seq::new(blocks.len(), |i: int| blake3_digest(blocks[i]))
}

/// The number of levels between the nodes of `level` and the root.
pub open spec fn depth(level: Seq<Seq<u8>>) -> nat
    decreases level.len(),
{
    if level.len() <= 1 {
        0
    } else {
        depth(parents(level)) + 1
    }
}

/// The level that is `m` levels above `level`.
pub open spec fn above(level: Seq<Seq<u8>>, m: nat) -> Seq<Seq<u8>>
    decreases m,
{
    if m == 0 {
        level
    } else {
        parents(above(level, (m - 1) as nat))
    }
}

/// What is hashed to node `j` of the level above `level`.
pub open spec fn node_input(level: Seq<Seq<u8>>, j: int) -> Seq<u8> {
    level[2 * j] + if 2 * j + 1 < level.len() {
        level[2 * j + 1]
    } else {
        level[2 * j]
    }
}

/// Where a node that leads to the root is found: at a position of its level, or not at all
/// because of two different inputs with the same digest.
pub enum Found {
    At(int),
    Collision(Seq<u8>, Seq<u8>),
}

/// Where a node is found that leads to the root of the tree over `level` along `p`: the way is
/// followed from the root down, through the tree's own nodes.
pub open spec fn find_node(level: Seq<Seq<u8>>, a: Seq<u8>, index: int, p: Seq<Seq<u8>>) -> Found
    decreases level.len(),
{
    if level.len() <= 1 {
        Found::At(0)
    } else {
        let x = fold_input(a, index, p[0]);
        match find_node(parents(level), blake3_digest(x), index / 2, p.drop_first()) {
            Found::Collision(u, v) => Found::Collision(u, v),
            Found::At(j) => if node_input(level, j) != x {
                Found::Collision(node_input(level, j), x)
            } else if index % 2 == 0 || 2 * j + 1 >= level.len() {
                Found::At(2 * j)
            } else {
                Found::At(2 * j + 1)
            },
        }
    }
}

/// What has been hashed, and where it stands, after `m` nodes of a path.
pub open spec fn fold_part(a: Seq<u8>, index: int, p: Seq<Seq<u8>>, m: nat) -> (Seq<u8>, int)
    decreases m,
{
    if m == 0 {
        (a, index)
    } else {
        let (acc, at) = fold_part(a, index, p, (m - 1) as nat);
        (blake3_digest(fold_input(acc, at, p[m - 1])), at / 2)
    }
}

/// The two inputs with the same digest that a block shows which verifies at a position of a tree
/// over other blocks. A path that is too long makes an inner node of a leaf, one that is too
/// short a leaf of an inner node; one of the right length meets the block's own path.
pub open spec fn tree_collision(
    blocks: Seq<Seq<u8>>,
    block: Seq<u8>,
    index: int,
    p: Seq<Seq<u8>>,
) -> (Seq<u8>, Seq<u8>) {
    let level = leaf_digests(blocks);
    let a = blake3_digest(block);
    if p.len() == depth(level) {
        if collide((block, blocks[index])) {
            (block, blocks[index])
        } else {
            path_collision(a, level[index], index, p, path_of(level, index))
        }
    } else if p.len() > depth(level) {
        let m = (p.len() - depth(level)) as nat;
        let (acc, at) = fold_part(a, index, p, m);
        let (before, before_at) = fold_part(a, index, p, (m - 1) as nat);
        match find_node(level, acc, at, p.subrange(m as int, p.len() as int)) {
            Found::Collision(x, y) => (x, y),
            Found::At(i) => (blocks[i], fold_input(before, before_at, p[m - 1])),
        }
    } else {
        let m = (depth(level) - p.len()) as nat;
        match find_node(above(level, m), a, index, p) {
            Found::Collision(x, y) => (x, y),
            Found::At(i) => (block, node_input(above(level, (m - 1) as nat), i)),
        }
    }
}

proof fn lemma_path(level: Seq<Seq<u8>>, i: int)
    requires
        sized(level),
        0 <= i < level.len(),
    ensures
        path_of(level, i).len() == depth(level),
        sized(path_of(level, i)),
    decreases level.len(),
{
    if level.len() > 1 {
        lemma_path(parents(level), i / 2);
        let p = path_of(level, i);
        let rest = path_of(parents(level), i / 2);
        assert forall|j: int| 0 <= j < p.len() implies #[trigger] p[j].len() == 32 by {
            if j > 0 {
                assert(p[j] == rest[j - 1]);
            }
        }
    }
}

proof fn lemma_find_node(level: Seq<Seq<u8>>, a: Seq<u8>, index: int, p: Seq<Seq<u8>>)
    requires
        level.len() > 0,
        sized(level),
        sized(p),
        p.len() == depth(level),
        fold_path(a, index, p) == root_of(level),
    ensures
        match find_node(level, a, index, p) {
            Found::At(i) => 0 <= i < level.len() && level[i] == a,
            Found::Collision(x, y) => collide((x, y)),
        },
    decreases level.len(),
{
    if level.len() > 1 {
        let x = fold_input(a, index, p[0]);
        lemma_sized_tail(p);
        lemma_find_node(parents(level), blake3_digest(x), index / 2, p.drop_first());
        if let Found::At(j) = find_node(
            parents(level),
            blake3_digest(x),
            index / 2,
            p.drop_first(),
        ) {
            let input = node_input(level, j);
            assert(parents(level)[j] == blake3_digest(input));
            if input == x {
                if index % 2 == 0 {
                    assert(a =~= x.subrange(0, x.len() - 32));
                    assert(level[2 * j] =~= input.subrange(0, input.len() - 32));
                } else {
                    assert(a =~= x.subrange(32, x.len() as int));
                    assert(input.subrange(32, input.len() as int) =~= if 2 * j + 1 < level.len() {
                        level[2 * j + 1]
                    } else {
                        level[2 * j]
                    });
                }
            }
        }
    }
}

proof fn lemma_fold_part(a: Seq<u8>, index: int, p: Seq<Seq<u8>>, m: nat)
    requires
        m <= p.len(),
    ensures
        fold_path(a, index, p) == ({
            let (acc, at) = fold_part(a, index, p, m);
            fold_path(acc, at, p.subrange(m as int, p.len() as int))
        }),
    decreases m,
{
    if m == 0 {
        assert(p.subrange(0, p.len() as int) =~= p);
    } else {
        lemma_fold_part(a, index, p, (m - 1) as nat);
        let rest = p.subrange(m - 1, p.len() as int);
        assert(rest[0] == p[m - 1]);
        assert(rest.drop_first() =~= p.subrange(m as int, p.len() as int));
    }
}

proof fn lemma_above(level: Seq<Seq<u8>>, m: nat)
    requires
        level.len() > 0,
        sized(level),
        m <= depth(level),
    ensures
        above(level, m).len() > 0,
        sized(above(level, m)),
        root_of(above(level, m)) == root_of(level),
        depth(above(level, m)) == depth(level) - m,
    decreases m,
{
    if m > 0 {
        lemma_above(level, (m - 1) as nat);
    }
}

/// Whatever verifies at the position of a leaf against the root of a tree is that leaf, however
/// long its path, or it shows two different inputs with the same digest. No leaf can pass for an
/// inner node, since none is the digest of a block as long as two digests.
pub proof fn law_tree_binds_leaf(
    blocks: Seq<Seq<u8>>,
    block: Seq<u8>,
    index: int,
    p: Seq<Seq<u8>>,
)
    requires
        sized(p),
        forall|i: int| 0 <= i < blocks.len() ==> #[trigger] blocks[i].len() != 64,
        block.len() != 64,
        0 <= index < blocks.len(),
        fold_path(blake3_digest(block), index, p) == root_of(leaf_digests(blocks)),
    ensures
        block == blocks[index] || collide(tree_collision(blocks, block, index, p)),
{
    let level = leaf_digests(blocks);
    let a = blake3_digest(block);
    let d = depth(level);
    assert(sized(level));
    if p.len() == d {
        lemma_path(level, index);
        law_path_leads_to_root(level, index);
        law_root_binds_leaf(a, level[index], index, p, path_of(level, index));
    } else if p.len() > d {
        let m = (p.len() - d) as nat;
        let (acc, at) = fold_part(a, index, p, m);
        let rest = p.subrange(m as int, p.len() as int);
        let (before, before_at) = fold_part(a, index, p, (m - 1) as nat);
        assert forall|i: int| 0 <= i < rest.len() implies #[trigger] rest[i].len() == 32 by {
            assert(rest[i] == p[i + m]);
        }
        assert(p[m - 1].len() == 32);
        assert(before.len() == 32);
        lemma_fold_part(a, index, p, m);
        lemma_find_node(level, acc, at, rest);
        if let Found::At(i) = find_node(level, acc, at, rest) {
            assert(blocks[i].len() != 64);
            assert(fold_input(before, before_at, p[m - 1]).len() == 64);
        }
    } else {
        let m = (d - p.len()) as nat;
        let below = above(level, (m - 1) as nat);
        lemma_above(level, m);
        lemma_above(level, (m - 1) as nat);
        lemma_find_node(above(level, m), a, index, p);
        if let Found::At(i) = find_node(above(level, m), a, index, p) {
            assert(below[2 * i].len() == 32);
            assert(node_input(below, i).len() == 64);
        }
    }
}

/// An odd last node is paired with itself: repeating it changes nothing about the root.
pub proof fn law_odd_level_is_doubled(level: Seq<Seq<u8>>)
    requires
        level.len() > 1,
        level.len() % 2 == 1,
    ensures
        root_of(level.push(level.last())) == root_of(level),
{
    assert(parents(level.push(level.last())) =~= parents(level));
}

/// The root of two trees side by side is the digest of their roots, where both are full and
/// equally large.
pub proof fn law_roots_join(left: Seq<Seq<u8>>, right: Seq<Seq<u8>>, m: nat)
    requires
        left.len() == pow2(m),
        right.len() == pow2(m),
    ensures
        root_of(left + right) == blake3_digest(root_of(left) + root_of(right)),
    decreases m,
{
    let both = left + right;
    if m == 0 {
        lemma2_to64();
        assert(parents(both).len() == 1);
        assert(root_of(parents(both)) == parents(both)[0]);
        assert(both[0] == left[0] && both[1] == right[0]);
    } else {
        lemma_pow2_unfold(m);
        lemma_pow2_pos((m - 1) as nat);
        assert(parents(both) =~= parents(left) + parents(right));
        law_roots_join(parents(left), parents(right), (m - 1) as nat);
    }
}

} // verus!
