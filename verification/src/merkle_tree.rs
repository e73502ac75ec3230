//! A binary Merkle tree over SHA-256 digests.
//!
//! The leaves stand at level 0. A node of the level above is the digest of
//! its two children; where the level below has run out, a digest that stands
//! for "nothing" takes the child's place. A membership proof for a node is the
//! list of the siblings met on the way from that node up to the root.

use crate::field::Scalar;
use crate::hash::{sha256, spec_sha256, HashNode};
use vstd::arithmetic::power2::is_pow2;
use vstd::prelude::*;

verus! {

/// The bytes of a list of field elements, one after the other.
pub open spec fn scalars_bytes(s: Seq<Scalar>) -> Seq<u8> {
    Seq::new(32 * s.len(), |j: int| s[j / 32].bytes@[j % 32])
}

/// The digest of a leaf that holds the field elements `leaf`.
pub open spec fn leaf_hash(leaf: Seq<Scalar>) -> HashNode {
    spec_sha256(seq![0u8] + scalars_bytes(leaf))
}

/// The digest of a node with the children `left` and `right`.
pub open spec fn node_hash(left: HashNode, right: HashNode) -> HashNode {
    spec_sha256(seq![1u8] + left.bytes@ + right.bytes@)
}

/// The digest that stands where a level has no leaf.
pub open spec fn pad_hash() -> HashNode {
    spec_sha256(Seq::<u8>::empty())
}

/// The node of index `idx` at `level` of the tree over `leaves`.
pub open spec fn node(leaves: Seq<HashNode>, level: nat, idx: nat) -> HashNode
    decreases level,
{
    if level == 0 {
        if idx < leaves.len() {
            leaves[idx as int]
        } else {
            pad_hash()
        }
    } else {
        node_hash(
            node(leaves, (level - 1) as nat, 2 * idx),
            node(leaves, (level - 1) as nat, 2 * idx + 1),
        )
    }
}

/// The number of levels above the leaves of a tree over `n` leaves: the least
/// `h` with `n <= 2^h`.
pub open spec fn height(n: nat) -> nat
    decreases n,
{
    if n <= 1 {
        0
    } else {
        1 + height((n + 1) / 2)
    }
}

/// The root of the tree over `leaves`.
pub open spec fn merkle_root(leaves: Seq<HashNode>) -> HashNode {
    node(leaves, height(leaves.len()), 0)
}

/// The index of the other child of the parent of the node of index `idx`.
pub open spec fn sibling(idx: nat) -> nat {
    if idx % 2 == 0 {
        idx + 1
    } else {
        (idx - 1) as nat
    }
}

/// The siblings on the way from the node of index `idx` at `level` up to the
/// level `top`, lowest first.
pub open spec fn path_from(leaves: Seq<HashNode>, level: nat, idx: nat, top: nat) -> Seq<HashNode>
    decreases top - level,
{
    if level >= top {
        Seq::empty()
    } else {
        seq![node(leaves, level, sibling(idx))] + path_from(leaves, level + 1, idx / 2, top)
    }
}

/// The digest reached from the digest `start` of the node of index `idx` by
/// hashing it with each sibling of `path` in turn.
pub open spec fn climb(start: HashNode, idx: nat, path: Seq<HashNode>) -> HashNode
    decreases path.len(),
{
    if path.len() == 0 {
        start
    } else {
        let parent = if idx % 2 == 0 {
            node_hash(start, path[0])
        } else {
            node_hash(path[0], start)
        };
        climb(parent, idx / 2, path.drop_first())
    }
}

/// The index that `steps` halvings make of `idx`.
pub open spec fn halved(idx: nat, steps: nat) -> nat
    decreases steps,
{
    if steps == 0 {
        idx
    } else {
        halved(idx / 2, (steps - 1) as nat)
    }
}

/// Two to the power `level`: the number of leaves below a node at `level`.
pub open spec fn span(level: nat) -> nat
    decreases level,
{
    if level == 0 {
        1
    } else {
        2 * span((level - 1) as nat)
    }
}

/// Twice as many leaves make a tree one level higher.
pub proof fn lemma_height_of_double(n: nat)
    requires
        n >= 1,
    ensures
        height(2 * n) == 1 + height(n),
{
    assert((2 * n + 1) / 2 == n);
}

/// A tree over `n * 2^level` leaves is `level` levels higher than one over `n`.
pub proof fn lemma_height_of_multiple(n: nat, level: nat)
    requires
        n >= 1,
    ensures
        height(n * span(level)) == height(n) + level,
        n * span(level) >= 1,
    decreases level,
{
    if level > 0 {
        lemma_height_of_multiple(n, (level - 1) as nat);
        let below = n * span((level - 1) as nat);
        assert(n * span(level) == 2 * below) by (nonlinear_arith)
            requires
                span(level) == 2 * span((level - 1) as nat),
                below == n * span((level - 1) as nat),
        ;
        lemma_height_of_double(below);
    } else {
        assert(n * span(0) == n) by (nonlinear_arith)
            requires
                span(0) == 1,
        ;
    }
}

/// A power of two is two to the power of the height of a tree over as many
/// leaves.
pub proof fn lemma_span_of_height(m: nat)
    requires
        vstd::arithmetic::power2::is_pow2(m as int),
    ensures
        span(height(m)) == m,
    decreases m,
{
    reveal(vstd::arithmetic::power2::is_pow2);
    if m > 1 {
        lemma_span_of_height(m / 2);
        assert((m + 1) / 2 == m / 2);
    }
}

/// The nodes above a run of leaves that starts at a multiple of `2^level`
/// are nodes of the whole tree: the node `j` at `level` over the run
/// `window`, which starts at the leaf `base * 2^level`, is the node
/// `base + j` of the tree over `leaves`.
pub proof fn lemma_window(
    leaves: Seq<HashNode>,
    window: Seq<HashNode>,
    level: nat,
    base: nat,
    j: nat,
)
    requires
        base * span(level) + window.len() <= leaves.len(),
        window == leaves.subrange(
            (base * span(level)) as int,
            (base * span(level) + window.len()) as int,
        ),
        (j + 1) * span(level) <= window.len(),
    ensures
        node(window, level, j) == node(leaves, level, base + j),
    decreases level,
{
    if level == 0 {
        assert(span(0) == 1);
        assert(base * 1 == base) by (nonlinear_arith);
        assert((j + 1) * 1 == j + 1) by (nonlinear_arith);
        assert(window[j as int] == leaves[(base + j) as int]);
    } else {
        let below = (level - 1) as nat;
        let u = span(below);
        assert(span(level) == 2 * u);
        assert((2 * base) * u == base * (2 * u)) by (nonlinear_arith);
        assert((2 * j + 1) * u <= (j + 1) * (2 * u) && (2 * j + 2) * u == (j + 1) * (2 * u))
            by (nonlinear_arith)
            requires
                u >= 0,
        ;
        lemma_window(leaves, window, below, 2 * base, 2 * j);
        lemma_window(leaves, window, below, 2 * base, 2 * j + 1);
        assert(2 * base + 2 * j == 2 * (base + j));
    }
}

/// Hashing a node with the siblings on its way leads to its ancestor: from
/// the node `idx` at `level`, the siblings up to the level `top` lead to the
/// node at `top` whose index `top - level` halvings make of `idx`. There are
/// `top - level` siblings on the way.
pub proof fn lemma_climb(leaves: Seq<HashNode>, level: nat, idx: nat, top: nat)
    requires
        level <= top,
    ensures
        path_from(leaves, level, idx, top).len() == top - level,
        climb(node(leaves, level, idx), idx, path_from(leaves, level, idx, top)) == node(
            leaves,
            top,
            halved(idx, (top - level) as nat),
        ),
    decreases top - level,
{
    if level < top {
        lemma_climb(leaves, level + 1, idx / 2, top);
        let path = path_from(leaves, level, idx, top);
        let rest = path_from(leaves, level + 1, idx / 2, top);
        assert(path.drop_first() =~= rest);
        assert(path[0] == node(leaves, level, sibling(idx)));
        let parent = if idx % 2 == 0 {
            node_hash(node(leaves, level, idx), path[0])
        } else {
            node_hash(path[0], node(leaves, level, idx))
        };
        assert(parent == node(leaves, level + 1, idx / 2)) by {
            if idx % 2 == 0 {
                assert(2 * (idx / 2) == idx);
            } else {
                assert(2 * (idx / 2) + 1 == idx);
            }
        }
    }
}

/// As many halvings as a tree over `len` nodes is high, or more, lead from
/// every index below `len` to zero.
pub proof fn lemma_halved_to_root(idx: nat, len: nat, steps: nat)
    requires
        idx < len,
        height(len) <= steps,
    ensures
        halved(idx, steps) == 0,
    decreases steps,
{
    if steps > 0 {
        if len <= 1 {
            lemma_halved_to_root(0, 1, (steps - 1) as nat);
        } else {
            lemma_halved_to_root(idx / 2, (len + 1) / 2, (steps - 1) as nat);
        }
    }
}

/// A membership proof: the siblings on the way up to the root, lowest first.
#[derive(Clone, Debug, PartialEq, Eq, Hash)]
pub struct MerkleProof {
    pub path: Vec<HashNode>,
}

/// A Merkle tree with all its levels.
pub struct MerkleTree {
    levels: Vec<Vec<HashNode>>,
    pads: Vec<HashNode>,
}

/// Computes the digest of a leaf that holds the field elements `leaf`.
pub fn hash_leaf(leaf: &[Scalar]) -> (r: HashNode)
    ensures
        r == leaf_hash(leaf@),
{
    let mut data: Vec<u8> = Vec::new();
    data.push(0u8);
    let mut i: usize = 0;
    while i < leaf.len()
        invariant
            i <= leaf.len(),
            data.len() == 1 + 32 * i,
            data[0] == 0u8,
            forall|j: int|
                1 <= j < 1 + 32 * i ==> #[trigger] data[j] == leaf[(j - 1) / 32].bytes@[(j - 1) % 32],
        decreases leaf.len() - i,
    {
        let mut b: usize = 0;
        while b < 32
            invariant
                i < leaf.len(),
                b <= 32,
                data.len() == 1 + 32 * i + b,
                data[0] == 0u8,
                forall|j: int|
                    1 <= j < 1 + 32 * i + b ==> #[trigger] data[j] == leaf[(j - 1) / 32].bytes@[(j
                        - 1) % 32],
            decreases 32 - b,
        {
            data.push(leaf[i].bytes[b]);
            b += 1;
        }
        i += 1;
    }
    assert(data@ =~= seq![0u8] + scalars_bytes(leaf@));
    sha256(data.as_slice())
}

/// Computes the digest of a node with the children `left` and `right`.
pub fn hash_node(left: &HashNode, right: &HashNode) -> (r: HashNode)
    ensures
        r == node_hash(*left, *right),
{
    let mut data: Vec<u8> = Vec::new();
    data.push(1u8);
    let mut b: usize = 0;
    while b < 32
        invariant
            b <= 32,
            data.len() == 1 + b,
            data[0] == 1u8,
            forall|j: int| 1 <= j < 1 + b ==> #[trigger] data[j] == left.bytes@[j - 1],
        decreases 32 - b,
    {
        data.push(left.bytes[b]);
        b += 1;
    }
    b = 0;
    while b < 32
        invariant
            b <= 32,
            data.len() == 33 + b,
            data[0] == 1u8,
            forall|j: int| 1 <= j < 33 ==> #[trigger] data[j] == left.bytes@[j - 1],
            forall|j: int| 33 <= j < 33 + b ==> #[trigger] data[j] == right.bytes@[j - 33],
        decreases 32 - b,
    {
        data.push(right.bytes[b]);
        b += 1;
    }
    assert(data@ =~= seq![1u8] + left.bytes@ + right.bytes@);
    sha256(data.as_slice())
}

/// Computes the digest reached from `start`, the digest of the node of index
/// `idx`, by hashing it with each sibling of `path` in turn.
pub fn merkle_climb(start: &HashNode, idx: u64, path: &Vec<HashNode>) -> (r: HashNode)
    ensures
        r == climb(*start, idx as nat, path@),
{
    let mut cur = *start;
    let mut at: u64 = idx;
    let mut t: usize = 0;
    assert(path@.skip(0) =~= path@);
    while t < path.len()
        invariant
            t <= path.len(),
            climb(cur, at as nat, path@.skip(t as int)) == climb(*start, idx as nat, path@),
        decreases path.len() - t,
    {
        let ghost rest = path@.skip(t as int);
        assert(rest[0] == path[t as int]);
        assert(rest.drop_first() =~= path@.skip(t + 1));
        cur = if at % 2 == 0 {
            hash_node(&cur, &path[t])
        } else {
            hash_node(&path[t], &cur)
        };
        at = at / 2;
        t += 1;
    }
    assert(path@.skip(t as int) =~= Seq::<HashNode>::empty());
    cur
}

impl MerkleTree {
    /// The leaves that the tree was built over.
    pub closed spec fn leaves(&self) -> Seq<HashNode> {
        self.levels[0]@
    }

    /// The levels hold the nodes of the tree over the leaves.
    pub closed spec fn wf(&self) -> bool {
        &&& self.levels.len() == height(self.leaves().len()) + 1
        &&& self.pads.len() == self.levels.len()
        &&& forall|h: nat, j: nat|
            h < self.levels.len() && j < self.levels[h as int].len() ==> self.levels[h as int][j as int]
                == #[trigger] node(self.leaves(), h, j)
        &&& forall|h: nat, j: nat|
            h < self.levels.len() && self.levels[h as int].len() <= j ==> #[trigger] node(
                self.leaves(),
                h,
                j,
            ) == self.pads[h as int]
    }

    /// Builds the tree over `leaves`.
    pub fn from_leaves(leaves: Vec<HashNode>) -> (t: MerkleTree)
        ensures
            t.wf(),
            t.leaves() == leaves@,
    {
        let ghost all = leaves@;
        let empty: Vec<u8> = Vec::new();
        let pad = sha256(empty.as_slice());
        let mut levels: Vec<Vec<HashNode>> = Vec::new();
        let mut pads: Vec<HashNode> = Vec::new();
        levels.push(leaves);
        pads.push(pad);
        while levels[levels.len() - 1].len() > 1
            invariant
                levels.len() >= 1,
                pads.len() == levels.len(),
                levels[0]@ == all,
                height(all.len()) == levels.len() - 1 + height(levels[levels.len() - 1].len() as nat),
                forall|h: nat, j: nat|
                    h < levels.len() && j < levels[h as int].len() ==> levels[h as int][j as int]
                        == #[trigger] node(all, h, j),
                forall|h: nat, j: nat|
                    h < levels.len() && levels[h as int].len() <= j ==> #[trigger] node(all, h, j)
                        == pads[h as int],
            decreases levels[levels.len() - 1].len(),
        {
            let h: usize = levels.len() - 1;
            let below = &levels[h];
            let pad_below = pads[h];
            let count: usize = below.len() / 2 + below.len() % 2;
            let mut next: Vec<HashNode> = Vec::new();
            let mut j: usize = 0;
            while j < count
                invariant
                    j <= count,
                    count == (below.len() + 1) / 2,
                    next.len() == j,
                    h == levels.len() - 1,
                    below == &levels[h as int],
                    pad_below == pads[h as int],
                    pads.len() == levels.len(),
                    forall|i: nat|
                        i < below.len() ==> below[i as int] == #[trigger] node(all, h as nat, i),
                    forall|i: nat|
                        below.len() <= i ==> #[trigger] node(all, h as nat, i) == pad_below,
                    forall|i: nat| i < j ==> next[i as int] == #[trigger] node(all, (h + 1) as nat, i),
                decreases count - j,
            {
                let left = below[2 * j];
                let right = if 2 * j + 1 < below.len() {
                    below[2 * j + 1]
                } else {
                    pad_below
                };
                assert(left == node(all, h as nat, (2 * j) as nat));
                assert(right == node(all, h as nat, (2 * j + 1) as nat));
                next.push(hash_node(&left, &right));
                j += 1;
            }
            let pad_next = hash_node(&pad_below, &pad_below);
            assert forall|i: nat| next.len() <= i implies #[trigger] node(all, (h + 1) as nat, i)
                == pad_next by {
                assert(node(all, h as nat, 2 * i) == pad_below);
                assert(node(all, h as nat, 2 * i + 1) == pad_below);
            }
            let ghost old_levels = levels@;
            let ghost old_pads = pads@;
            let ghost next_nodes = next@;
            levels.push(next);
            pads.push(pad_next);
            proof {
                assert forall|g: nat, i: nat|
                    g < levels.len() && i < levels[g as int].len() implies levels[g as int][i as int]
                    == #[trigger] node(all, g, i) by {
                    if g < old_levels.len() {
                        assert(levels[g as int] == old_levels[g as int]);
                        assert(old_levels[g as int][i as int] == node(all, g, i));
                    } else {
                        assert(g == h + 1);
                        assert(levels[g as int]@ == next_nodes);
                        assert(next_nodes[i as int] == node(all, (h + 1) as nat, i));
                    }
                }
                assert forall|g: nat, i: nat|
                    g < levels.len() && levels[g as int].len() <= i implies #[trigger] node(all, g, i)
                    == pads[g as int] by {
                    if g < old_levels.len() {
                        assert(levels[g as int] == old_levels[g as int]);
                        assert(pads[g as int] == old_pads[g as int]);
                        assert(node(all, g, i) == old_pads[g as int]);
                    } else {
                        assert(g == h + 1);
                        assert(levels[g as int]@ == next_nodes);
                        assert(node(all, (h + 1) as nat, i) == pad_next);
                    }
                }
            }
        }
        MerkleTree { levels, pads }
    }

    /// The number of levels above the leaves.
    pub fn height(&self) -> (r: usize)
        requires
            self.wf(),
        ensures
            r == height(self.leaves().len()),
    {
        self.levels.len() - 1
    }

    /// The node of index `idx` at `level`.
    pub fn node_at(&self, level: usize, idx: usize) -> (r: HashNode)
        requires
            self.wf(),
            level <= height(self.leaves().len()),
        ensures
            r == node(self.leaves(), level as nat, idx as nat),
    {
        if idx < self.levels[level].len() {
            self.levels[level][idx]
        } else {
            self.pads[level]
        }
    }

    /// The root of the tree.
    pub fn root(&self) -> (r: HashNode)
        requires
            self.wf(),
        ensures
            r == merkle_root(self.leaves()),
    {
        self.node_at(self.levels.len() - 1, 0)
    }

    /// The membership proof of the node of index `idx` at `level`.
    pub fn lookup(&self, level: usize, idx: usize) -> (r: MerkleProof)
        requires
            self.wf(),
        ensures
            r.path@ == path_from(
                self.leaves(),
                level as nat,
                idx as nat,
                height(self.leaves().len()),
            ),
    {
        let top: usize = self.levels.len() - 1;
        let mut path: Vec<HashNode> = Vec::new();
        let mut h: usize = level;
        let mut at: usize = idx;
        while h < top
            invariant
                self.wf(),
                top == height(self.leaves().len()),
                path@ + path_from(self.leaves(), h as nat, at as nat, top as nat) == path_from(
                    self.leaves(),
                    level as nat,
                    idx as nat,
                    top as nat,
                ),
            decreases top - h,
        {
            assert(usize::MAX % 2 == 1) by {
                assert(usize::MAX == 0xffff_ffff || usize::MAX == 0xffff_ffff_ffff_ffff);
            }
            let other: usize = if at % 2 == 0 {
                at + 1
            } else {
                at - 1
            };
            let ghost before = path@;
            path.push(self.node_at(h, other));
            proof {
                let rest = path_from(self.leaves(), (h + 1) as nat, (at / 2) as nat, top as nat);
                assert(path@ + rest =~= before + (seq![node(self.leaves(), h as nat, other as nat)]
                    + rest));
            }
            h += 1;
            at = at / 2;
        }
        assert(path@ + Seq::<HashNode>::empty() =~= path@);
        MerkleProof { path }
    }
}

/// The number of halvings that lead from the power of two `m` to one.
pub fn log2_exact(m: u32) -> (r: usize)
    requires
        is_pow2(m as int),
    ensures
        r == height(m as nat),
{
    let mut x: u32 = m;
    let mut s: usize = 0;
    while x > 1
        invariant
            is_pow2(x as int),
            s + height(x as nat) == height(m as nat),
            s + x <= m,
        decreases x,
    {
        proof {
            reveal(is_pow2);
        }
        x = x / 2;
        s += 1;
    }
    s
}

/// The number of levels above the leaves of a tree over `len` leaves.
pub fn tree_height(len: usize) -> (r: usize)
    ensures
        r == height(len as nat),
{
    let mut x: usize = len;
    let mut h: usize = 0;
    while x > 1
        invariant
            h + height(x as nat) == height(len as nat),
            h + x <= len,
        decreases x,
    {
        x = x / 2 + x % 2;
        h += 1;
    }
    h
}

} // verus!
