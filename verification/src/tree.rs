//! The dense array-backed binary tree and the sparse tree induced by a
//! path-set.

use vstd::prelude::*;

use crate::constants::{D, TREE_SLOTS};
use crate::dtypes::{node_index, Direction, Metadata, Path};
use crate::utils::lemma_node_index_bound;

verus! {

/// A fixed-shape binary tree backed by a one-indexed array: slot 0 is
/// unused, the root lives at 1, and node `i` has children `2i` and
/// `2i + 1`.  Every slot may independently be present or absent.
#[derive(Debug, PartialEq)]
pub struct BinaryTree<T> {
    /// The node array; `value[i]` is the node with heap index `i`.
    pub value: Vec<Option<T>>,
}

/// The node stored at the end of walking `p` from the root, if any.
pub open spec fn node_at<T>(tree: Seq<Option<T>>, p: Seq<Direction>) -> Option<T> {
    if node_index(p) < tree.len() {
        tree[node_index(p) as int]
    } else {
        None
    }
}

/// The present nodes among the first `j` prefixes of `p` (lengths `0` to
/// `j - 1`), in root-to-leaf order.
pub open spec fn nodes_along<T>(tree: Seq<Option<T>>, p: Seq<Direction>, j: int) -> Seq<T>
    decreases j,
{
    if j <= 0 {
        Seq::empty()
    } else {
        let rest = nodes_along(tree, p, j - 1);
        match node_at(tree, p.take(j - 1)) {
            Some(v) => rest.push(v),
            None => rest,
        }
    }
}

impl<T> BinaryTree<T> {
    /// The tree fits its backing array bound.
    pub open spec fn wf(&self) -> bool {
        self.value@.len() <= TREE_SLOTS
    }

    /// A tree of the given depth with every slot absent.
    pub fn new_with_depth(depth: usize) -> (r: Self)
        requires
            depth <= 25,
        ensures
            r.value@.len() == 1usize << ((depth + 1) as usize),
            forall|i: int| 0 <= i < r.value@.len() ==> r.value@[i] is None,
            depth <= D ==> r.wf(),
            depth == D ==> r.value@.len() == TREE_SLOTS,
    {
        let slots: usize = 1usize << (depth + 1);
        let mut value: Vec<Option<T>> = Vec::new();
        for _i in 0..slots
            invariant
                value@.len() == _i,
                forall|i: int| 0 <= i < _i ==> value@[i] is None,
        {
            value.push(None);
        }
        proof {
            if depth <= D {
                let e: usize = (depth + 1) as usize;
                assert((1usize << e) <= 0x80000usize) by (bit_vector)
                    requires e <= 19usize;
            }
            if depth == D {
                assert(1usize << 19usize == 524288usize) by (bit_vector);
            }
        }
        BinaryTree { value }
    }

    /// The heap index reached by walking `path` from the root.
    fn walk_index(path: &Path) -> (idx: usize)
        requires
            path@.len() <= D,
        ensures
            idx == node_index(path@),
            idx < TREE_SLOTS,
    {
        let mut idx: usize = 1;
        let plen: usize = path.0.len();
        assert(path@.take(0) =~= Seq::<Direction>::empty());
        for j in 0..plen
            invariant
                plen == path@.len(),
                plen <= D,
                idx as nat == node_index(path@.take(j as int)),
                idx >= 1,
        {
            proof {
                lemma_prefix_index_bound(path@, j as int);
            }
            let bit: u8 = path.0[j].to_bit();
            idx = 2 * idx + (bit as usize);
            proof {
                assert(path@.take(j + 1).drop_last() =~= path@.take(j as int));
            }
        }
        proof {
            assert(path@.take(plen as int) =~= path@);
            lemma_node_index_bound(path@);
            vstd::arithmetic::power2::lemma2_to64();
        }
        idx
    }

    /// The node reached by walking `path` from the root, if present.
    pub fn get(&self, path: &Path) -> (r: Option<&T>)
        requires
            self.wf(),
            path@.len() <= D,
        ensures
            match r {
                Some(v) => node_at(self.value@, path@) == Some(*v),
                None => node_at(self.value@, path@) is None,
            },
    {
        let idx = Self::walk_index(path);
        if idx < self.value.len() {
            self.value[idx].as_ref()
        } else {
            None
        }
    }

    /// The present nodes from the root to the end of `path`, in
    /// root-to-leaf order; absent nodes are silently omitted.
    pub fn get_all_nodes_along_path(&self, path: &Path) -> (r: Vec<&T>)
        requires
            self.wf(),
            path@.len() <= D,
        ensures
            r@.map_values(|x: &T| *x) == nodes_along(self.value@, path@, path@.len() as int + 1),
    {
        let mut r: Vec<&T> = Vec::new();
        let mut idx: usize = 1;
        let plen: usize = path.0.len();
        proof {
            assert(path@.take(0) =~= Seq::<Direction>::empty());
            assert(node_index(Seq::<Direction>::empty()) == 1);
            assert(nodes_along(self.value@, path@, 0) =~= Seq::<T>::empty());
        }
        if idx < self.value.len() {
            if let Some(v) = self.value[idx].as_ref() {
                r.push(v);
                proof {
                    assert(node_at(self.value@, path@.take(0)) == Some(*v));
                }
            }
        }
        assert(r@.map_values(|x: &T| *x) =~= nodes_along(self.value@, path@, 1));
        for j in 0..plen
            invariant
                plen == path@.len(),
                plen <= D,
                self.wf(),
                idx as nat == node_index(path@.take(j as int)),
                idx >= 1,
                r@.map_values(|x: &T| *x) == nodes_along(self.value@, path@, j + 1),
        {
            proof {
                lemma_prefix_index_bound(path@, j as int);
            }
            let bit: u8 = path.0[j].to_bit();
            idx = 2 * idx + (bit as usize);
            proof {
                assert(path@.take(j + 1).drop_last() =~= path@.take(j as int));
            }
            if idx < self.value.len() {
                if let Some(v) = self.value[idx].as_ref() {
                    r.push(v);
                }
            }
            assert(r@.map_values(|x: &T| *x) =~= nodes_along(self.value@, path@, j + 2));
        }
        assert(path@.take(plen as int) =~= path@);
        r
    }
}

/// A subtree induced by a path-set, stored packed: `packed_buckets[pos]`
/// is the node whose dense heap index is `packed_indices[pos]`, and `rev`
/// maps each dense index back to its packed position (`usize::MAX` marks
/// an index outside the tree).
#[derive(Debug, PartialEq)]
pub struct SparseBinaryTree<T> {
    /// The nodes, in path-set order.
    pub packed_buckets: Vec<T>,
    /// The dense heap index of each packed node.
    pub packed_indices: Vec<usize>,
    /// Reverse lookup from dense heap index to packed position.
    pub rev: Vec<usize>,
}

impl<T> SparseBinaryTree<T> {
    /// The structural invariant: packed vectors are parallel, indices are
    /// in range, and `rev` is the inverse of `packed_indices`.
    pub open spec fn wf(&self) -> bool {
        &&& self.rev@.len() == TREE_SLOTS
        &&& self.packed_buckets@.len() == self.packed_indices@.len()
        &&& self.packed_indices@.len() < TREE_SLOTS
        &&& forall|pos: int|
            0 <= pos < self.packed_indices@.len() ==> 1 <= #[trigger] self.packed_indices@[pos]
                < TREE_SLOTS
        &&& forall|pos: int|
            0 <= pos < self.packed_indices@.len() ==> self.rev@[#[trigger] self.packed_indices@[pos] as int]
                == pos
        &&& forall|i: int|
            0 <= i < TREE_SLOTS && #[trigger] self.rev@[i] != usize::MAX ==> self.rev@[i]
                < self.packed_indices@.len() && self.packed_indices@[self.rev@[i] as int] == i
    }

    /// Whether the dense index `idx` belongs to the tree.
    pub open spec fn has_index(&self, idx: usize) -> bool {
        self.packed_indices@.contains(idx)
    }

    /// An empty sparse tree.
    pub fn new() -> (r: Self)
        ensures
            r.wf(),
            r.packed_buckets@.len() == 0,
            r.packed_indices@.len() == 0,
    {
        let mut rev: Vec<usize> = Vec::new();
        let slots: usize = crate::constants::TREE_SLOTS;
        for _i in 0..slots
            invariant
                rev@.len() == _i,
                forall|i: int| 0 <= i < _i ==> rev@[i] == usize::MAX,
        {
            rev.push(usize::MAX);
        }
        SparseBinaryTree { packed_buckets: Vec::new(), packed_indices: Vec::new(), rev }
    }

    /// A sparse tree holding `values` at the dense indices `indices`
    /// (parallel, duplicate-free, in range).
    pub fn new_with_data(values: Vec<T>, indices: Vec<usize>) -> (r: Self)
        requires
            values@.len() == indices@.len(),
            forall|a: int, b: int| 0 <= a < b < indices@.len() ==> indices@[a] != indices@[b],
            forall|i: int| 0 <= i < indices@.len() ==> 1 <= #[trigger] indices@[i] < TREE_SLOTS,
        ensures
            r.wf(),
            r.packed_buckets == values,
            r.packed_indices == indices,
    {
        proof {
            lemma_distinct_bounded(indices@, 1, TREE_SLOTS as int);
        }
        let mut rev: Vec<usize> = Vec::new();
        let slots: usize = crate::constants::TREE_SLOTS;
        for _i in 0..slots
            invariant
                rev@.len() == _i,
                forall|i: int| 0 <= i < _i ==> rev@[i] == usize::MAX,
        {
            rev.push(usize::MAX);
        }
        let n: usize = indices.len();
        for pos in 0..n
            invariant
                n == indices@.len(),
                n < TREE_SLOTS,
                rev@.len() == TREE_SLOTS,
                forall|a: int, b: int| 0 <= a < b < indices@.len() ==> indices@[a] != indices@[b],
                forall|i: int| 0 <= i < indices@.len() ==> 1 <= #[trigger] indices@[i] < TREE_SLOTS,
                forall|p: int|
                    0 <= p < pos ==> rev@[#[trigger] indices@[p] as int] == p,
                forall|i: int|
                    0 <= i < TREE_SLOTS && #[trigger] rev@[i] != usize::MAX ==> rev@[i] < pos
                        && indices@[rev@[i] as int] == i,
        {
            let idx: usize = indices[pos];
            rev.set(idx, pos);
        }
        SparseBinaryTree { packed_buckets: values, packed_indices: indices, rev }
    }

    /// The deepest prefix length `j <= j0` whose node index lies in
    /// `indices`, if any.
    pub open spec fn lca_len(indices: Seq<usize>, p: Seq<Direction>, j0: int) -> Option<int>
        decreases j0 + 1,
    {
        if j0 < 0 {
            None
        } else if indices.contains(node_index(p.take(j0)) as usize) {
            Some(j0)
        } else {
            Self::lca_len(indices, p, j0 - 1)
        }
    }

    /// The lowest (deepest) ancestor of `path` present in the tree:
    /// returns its packed position and dense index.  With the root in the
    /// tree this never fails.
    pub fn lca_idx(&self, path: &Path) -> (r: Option<(usize, usize)>)
        requires
            self.wf(),
            path@.len() <= D,
        ensures
            match r {
                Some((pos, idx)) => {
                    &&& Self::lca_len(self.packed_indices@, path@, path@.len() as int) matches Some(
                        j,
                    )
                    &&& idx == node_index(path@.take(
                        Self::lca_len(self.packed_indices@, path@, path@.len() as int).unwrap(),
                    ))
                    &&& pos < self.packed_indices@.len()
                    &&& self.packed_indices@[pos as int] == idx
                },
                None => Self::lca_len(self.packed_indices@, path@, path@.len() as int) is None,
            },
    {
        let mut idx: usize = 1;
        let plen: usize = path.0.len();
        let mut best: Option<(usize, usize)> = None;
        assert(path@.take(0) =~= Seq::<Direction>::empty());
        proof {
            assert(node_index(Seq::<Direction>::empty()) == 1);
            assert(node_index(path@.take(0)) == 1);
        }
        let root_pos: usize = self.rev[1];
        if root_pos != usize::MAX {
            best = Some((root_pos, 1));
            proof {
                assert(self.packed_indices@[root_pos as int] == 1usize);
                assert(self.packed_indices@.contains(1usize));
                assert(Self::lca_len(self.packed_indices@, path@, 0) == Some(0int));
            }
        } else {
            proof {
                assert(!self.packed_indices@.contains(1usize)) by {
                    if self.packed_indices@.contains(1usize) {
                        let p0 = choose|p0: int|
                            0 <= p0 < self.packed_indices@.len() && self.packed_indices@[p0]
                                == 1usize;
                        assert(self.rev@[1] == p0);
                    }
                }
                assert(Self::lca_len(self.packed_indices@, path@, -1) is None);
                assert(Self::lca_len(self.packed_indices@, path@, 0) is None);
            }
        }
        for j in 0..plen
            invariant
                plen == path@.len(),
                plen <= D,
                self.wf(),
                idx as nat == node_index(path@.take(j as int)),
                idx >= 1,
                idx < TREE_SLOTS,
                match best {
                    Some((pos, bidx)) => {
                        &&& Self::lca_len(self.packed_indices@, path@, j as int) matches Some(jj)
                        &&& bidx == node_index(path@.take(
                            Self::lca_len(self.packed_indices@, path@, j as int).unwrap(),
                        ))
                        &&& pos < self.packed_indices@.len()
                        &&& self.packed_indices@[pos as int] == bidx
                    },
                    None => Self::lca_len(self.packed_indices@, path@, j as int) is None,
                },
        {
            proof {
                lemma_prefix_index_bound(path@, j as int);
            }
            let bit: u8 = path.0[j].to_bit();
            idx = 2 * idx + (bit as usize);
            proof {
                assert(path@.take(j + 1).drop_last() =~= path@.take(j as int));
                lemma_prefix_index_bound(path@, j + 1);
            }
            let pos: usize = self.rev[idx];
            if pos != usize::MAX {
                proof {
                    assert(self.packed_indices@[pos as int] == idx);
                    assert(self.packed_indices@.contains(idx));
                    assert(Self::lca_len(self.packed_indices@, path@, j + 1) == Some(j + 1));
                }
                best = Some((pos, idx));
            } else {
                proof {
                    assert(!self.packed_indices@.contains(idx)) by {
                        if self.packed_indices@.contains(idx) {
                            let p0 = choose|p0: int|
                                0 <= p0 < self.packed_indices@.len() && self.packed_indices@[p0]
                                    == idx;
                            assert(self.rev@[idx as int] == p0);
                        }
                    }
                    assert(Self::lca_len(self.packed_indices@, path@, j + 1)
                        == Self::lca_len(self.packed_indices@, path@, j as int));
                }
            }
        }
        assert(path@.take(plen as int) =~= path@);
        best
    }
}

/// A duplicate-free sequence of values in `[lo, hi)` has at most
/// `hi - lo` elements.
pub proof fn lemma_distinct_bounded(s: Seq<usize>, lo: int, hi: int)
    requires
        forall|a: int, b: int| 0 <= a < b < s.len() ==> s[a] != s[b],
        forall|i: int| 0 <= i < s.len() ==> lo <= (#[trigger] s[i] as int) < hi,
        lo <= hi,
    ensures
        s.len() <= hi - lo,
{
    let si = Seq::new(s.len(), |i: int| s[i] as int);
    assert(si.no_duplicates());
    si.unique_seq_to_set();
    vstd::set_lib::lemma_int_range(lo, hi);
    assert(si.to_set().subset_of(vstd::set_lib::set_int_range(lo, hi))) by {
        assert forall|x: int| si.to_set().contains(x) implies vstd::set_lib::set_int_range(
            lo,
            hi,
        ).contains(x) by {
            assert(si.contains(x));
            let i = choose|i: int| 0 <= i < si.len() && si[i] == x;
        }
    }
    vstd::set_lib::lemma_len_subset(si.to_set(), vstd::set_lib::set_int_range(lo, hi));
}

/// Every prefix of a path of length at most `D` reaches a heap index
/// below `TREE_SLOTS`.
pub proof fn lemma_prefix_index_bound(p: Seq<Direction>, j: int)
    requires
        0 <= j <= p.len(),
        p.len() <= 18,
    ensures
        1 <= node_index(p.take(j)),
        node_index(p.take(j)) < 0x80000,
{
    lemma_node_index_bound(p.take(j));
    vstd::arithmetic::power2::lemma2_to64();
    if j + 1 < 19 {
        vstd::arithmetic::power2::lemma_pow2_strictly_increases((j + 1) as nat, 19);
    }
}

impl<T> SparseBinaryTree<T> {
    /// A well-formed sparse tree has pairwise-distinct dense indices.
    pub proof fn lemma_indices_distinct(&self)
        requires
            self.wf(),
        ensures
            forall|a: int, b: int|
                0 <= a < b < self.packed_indices@.len() ==> self.packed_indices@[a]
                    != self.packed_indices@[b],
    {
        assert forall|a: int, b: int|
            0 <= a < b < self.packed_indices@.len() implies self.packed_indices@[a]
            != self.packed_indices@[b] by {
            if self.packed_indices@[a] == self.packed_indices@[b] {
                assert(self.rev@[self.packed_indices@[a] as int] == a);
                assert(self.rev@[self.packed_indices@[b] as int] == b);
            }
        }
    }
}

impl BinaryTree<Metadata> {
    /// Copies every node of the sparse tree into this dense tree at its
    /// dense index; all other slots are untouched.
    pub fn overwrite_from_sparse(&mut self, sp: &SparseBinaryTree<Metadata>)
        requires
            old(self).value@.len() == TREE_SLOTS,
            sp.wf(),
        ensures
            final(self).value@.len() == TREE_SLOTS,
            forall|pos: int|
                0 <= pos < sp.packed_indices@.len() ==> ((#[trigger] final(self).value@[sp.packed_indices@[pos] as int]) matches Some(m)
                    && m.entries() == sp.packed_buckets@[pos].entries()
                    && m@.len() == sp.packed_buckets@[pos]@.len()),
            forall|i: int|
                0 <= i < TREE_SLOTS && !sp.packed_indices@.contains(i as usize) ==> final(self).value@[i] == old(self).value@[i],
    {
        proof {
            sp.lemma_indices_distinct();
        }
        let n: usize = sp.packed_indices.len();
        for pos in 0..n
            invariant
                n == sp.packed_indices@.len(),
                sp.wf(),
                forall|a: int, b: int|
                    0 <= a < b < sp.packed_indices@.len() ==> sp.packed_indices@[a]
                        != sp.packed_indices@[b],
                self.value@.len() == TREE_SLOTS,
                forall|p: int|
                    0 <= p < pos ==> ((#[trigger] self.value@[sp.packed_indices@[p] as int])
                        matches Some(m) && m.entries() == sp.packed_buckets@[p].entries()
                        && m@.len() == sp.packed_buckets@[p]@.len()),
                forall|i: int|
                    0 <= i < TREE_SLOTS && !sp.packed_indices@.contains(i as usize)
                        ==> self.value@[i] == old(self).value@[i],
        {
            let idx: usize = sp.packed_indices[pos];
            let m: Metadata = sp.packed_buckets[pos].clone();
            self.value.set(idx, Some(m));
            proof {
                assert(sp.packed_indices@.contains(idx)) by {
                    assert(sp.packed_indices@[pos as int] == idx);
                }
                assert forall|p: int|
                    0 <= p < pos + 1 implies ((#[trigger] self.value@[sp.packed_indices@[p] as int])
                    matches Some(m2) && m2.entries() == sp.packed_buckets@[p].entries()
                    && m2@.len() == sp.packed_buckets@[p]@.len()) by {
                    if p < pos {
                        assert(sp.packed_indices@[p] != idx);
                    }
                }
            }
        }
    }
}

impl<T> SparseBinaryTree<T> {
    /// With the root (index 1) in the tree, every path has an ancestor.
    pub proof fn lemma_lca_exists(indices: Seq<usize>, p: Seq<Direction>, j0: int)
        requires
            indices.contains(1usize),
            j0 >= 0,
        ensures
            Self::lca_len(indices, p, j0) is Some,
        decreases j0,
    {
        if j0 == 0 {
            assert(p.take(0) =~= Seq::<Direction>::empty());
            assert(node_index(p.take(0)) == 1);
        } else {
            if !indices.contains(node_index(p.take(j0)) as usize) {
                Self::lemma_lca_exists(indices, p, j0 - 1);
            }
        }
    }
}

/// The depth of heap index `n`: the root (1) has depth 0, and each level
/// doubles the index.
pub open spec fn depth_of(n: nat) -> nat
    decreases n,
{
    if n <= 1 {
        0
    } else {
        1 + depth_of(n / 2)
    }
}

/// The deepest present node among the first `n` slots.
pub open spec fn max_depth<T>(tree: Seq<Option<T>>, n: int) -> nat
    decreases n,
{
    if n <= 1 {
        0
    } else {
        let rest = max_depth(tree, n - 1);
        if tree[n - 1] is Some && depth_of((n - 1) as nat) > rest {
            depth_of((n - 1) as nat)
        } else {
            rest
        }
    }
}

/// The height of a tree: the depth of its deepest present node.
pub open spec fn spec_height<T>(tree: Seq<Option<T>>) -> nat {
    max_depth(tree, tree.len() as int)
}

/// The node the last item placed at `p`'s heap index, if any item was.
pub open spec fn placed<T>(items: Seq<(T, Path)>, p: Seq<Direction>) -> Option<T>
    decreases items.len(),
{
    if items.len() == 0 {
        None
    } else if node_index(items.last().1@) == node_index(p) {
        Some(items.last().0)
    } else {
        placed(items.drop_last(), p)
    }
}

/// The value `get_leaf` addresses: the node at depth `height` reached by
/// reading `index` as a bit path, absent when `index` does not fit that
/// level or the node is missing.
pub open spec fn leaf_at<T>(tree: Seq<Option<T>>, index: int) -> Option<T> {
    let h = spec_height(tree);
    if index < 0 || index >= vstd::arithmetic::power2::pow2(h) {
        None
    } else if vstd::arithmetic::power2::pow2(h) + index < tree.len() {
        tree[vstd::arithmetic::power2::pow2(h) as int + index]
    } else {
        None
    }
}

/// An index below `2^(b+1)` sits at depth at most `b`.
proof fn lemma_depth_of_bound(n: nat, b: nat)
    requires
        n < vstd::arithmetic::power2::pow2(b + 1),
    ensures
        depth_of(n) <= b,
    decreases n,
{
    if n > 1 {
        vstd::arithmetic::power2::lemma2_to64();
        vstd::arithmetic::power2::lemma_pow2_unfold(b + 1);
        vstd::arithmetic::power2::lemma_pow2_pos(b);
        assert(b >= 1);
        lemma_depth_of_bound(n / 2, (b - 1) as nat);
    }
}

/// The exec computation of `depth_of`.
fn index_depth(i: usize) -> (d: usize)
    requires
        i >= 1,
    ensures
        d == depth_of(i as nat),
    decreases i,
{
    if i <= 1 {
        0
    } else {
        let rest = index_depth(i / 2);
        proof {
            if i >= 2 {
                lemma_depth_grows(i as nat);
            }
        }
        1 + rest
    }
}

/// `depth_of` never exceeds the index itself, so the recursion above
/// cannot overflow.
proof fn lemma_depth_grows(n: nat)
    requires
        n >= 1,
    ensures
        depth_of(n) < n,
    decreases n,
{
    if n > 1 {
        lemma_depth_grows(n / 2);
    }
}

impl<T> BinaryTree<T> {
    /// A tree holding a single value at the root.
    pub fn new(value: T) -> (r: Self)
        ensures
            r.wf(),
            r.value@.len() == 2,
            r.value@[0] is None,
            r.value@[1] == Some(value),
    {
        let mut v: Vec<Option<T>> = Vec::new();
        v.push(None);
        v.push(Some(value));
        BinaryTree { value: v }
    }

    /// A tree with no nodes at all.
    pub fn new_empty() -> (r: Self)
        ensures
            r.wf(),
            r.value@.len() == 1,
            r.value@[0] is None,
    {
        let mut v: Vec<Option<T>> = Vec::new();
        v.push(None);
        BinaryTree { value: v }
    }

    /// Builds a tree by placing each value at the node its path names, in
    /// order; a later item for the same node overwrites an earlier one.
    pub fn from_vec_with_paths(items: Vec<(T, Path)>) -> (r: Self)
        requires
            forall|k: int| 0 <= k < items@.len() ==> (#[trigger] items@[k]).1@.len() <= D,
        ensures
            r.wf(),
            r.value@[0] is None,
            r.value@.len() == TREE_SLOTS,
            forall|p: Seq<Direction>|
                p.len() <= D ==> node_at(r.value@, p) == placed(items@, #[trigger] p.take(
                    p.len() as int,
                )),
    {
        let ghost orig = items@;
        let mut items = items;
        let mut bt: BinaryTree<T> = Self::new_with_depth(D);
        let mut i: usize = 0;
        let n: usize = items.len();
        proof {
            assert forall|p: Seq<Direction>| p.len() <= D implies node_at(bt.value@, p) == placed(
                orig.take(0),
                #[trigger] p.take(p.len() as int),
            ) by {
                assert(orig.take(0) =~= Seq::<(T, Path)>::empty());
                assert(p.take(p.len() as int) =~= p);
            }
        }
        while i < n
            invariant
                n == orig.len(),
                items@ =~= orig.skip(i as int),
                0 <= i <= n,
                forall|k: int| 0 <= k < orig.len() ==> (#[trigger] orig[k]).1@.len() <= D,
                bt.value@.len() == TREE_SLOTS,
                bt.value@[0] is None,
                forall|p: Seq<Direction>|
                    p.len() <= D ==> node_at(bt.value@, p) == placed(
                        orig.take(i as int),
                        #[trigger] p.take(p.len() as int),
                    ),
            decreases n - i,
        {
            let (value, path): (T, Path) = items.remove(0);
            proof {
                assert(orig.skip(i as int)[0] == orig[i as int]);
                assert(orig.skip(i as int).remove(0) =~= orig.skip(i + 1));
            }
            let idx: usize = Self::walk_index(&path);
            let ghost tree1 = bt.value@;
            bt.value.set(idx, Some(value));
            proof {
                let pv = path@;
                lemma_node_index_bound(pv);
                assert forall|p: Seq<Direction>| p.len() <= D implies node_at(bt.value@, p)
                    == placed(orig.take(i + 1), #[trigger] p.take(p.len() as int)) by {
                    assert(p.take(p.len() as int) =~= p);
                    assert(orig.take(i + 1).last() == orig[i as int]);
                    assert(orig.take(i + 1).drop_last() =~= orig.take(i as int));
                    if node_index(pv) == node_index(p) {
                        assert(node_at(bt.value@, p) == Some(orig[i as int].0));
                    } else {
                        assert(node_at(bt.value@, p) == node_at(tree1, p));
                    }
                }
            }
            i = i + 1;
        }
        proof {
            assert(orig.take(n as int) =~= orig);
        }
        bt
    }

    /// The depth of the deepest present node (0 for an empty tree).
    pub fn height(&self) -> (h: usize)
        requires
            self.wf(),
        ensures
            h == spec_height(self.value@),
            h <= 18,
    {
        let n: usize = self.value.len();
        let mut h: usize = 0;
        let mut i: usize = 1;
        while i < n
            invariant
                n == self.value@.len(),
                n <= TREE_SLOTS,
                1 <= i || n == 0,
                i <= n || (n == 0 && i == 1),
                h == max_depth(self.value@, i as int),
                h <= 18,
            decreases n - i,
        {
            if self.value[i].is_some() {
                let d: usize = index_depth(i);
                proof {
                    vstd::arithmetic::power2::lemma2_to64();
                    lemma_depth_of_bound(i as nat, 18);
                }
                if d > h {
                    h = d;
                }
            }
            i = i + 1;
        }
        proof {
            if n == 0 {
                assert(max_depth(self.value@, 0) == 0);
                assert(max_depth(self.value@, 1) == 0);
            }
        }
        h
    }

    /// The leaf at `index` within the bottom (deepest) level, if present.
    pub fn get_leaf(&self, index: usize) -> (r: Option<&T>)
        requires
            self.wf(),
        ensures
            match r {
                Some(v) => leaf_at(self.value@, index as int) == Some(*v),
                None => leaf_at(self.value@, index as int) is None,
            },
    {
        let h: usize = self.height();
        proof {
            vstd::arithmetic::power2::lemma2_to64();
            assert(vstd::arithmetic::power2::pow2(h as nat) == (1usize << h) as nat) by {
                crate::tree::lemma_shift_is_pow2(h);
            }
        }
        let level: usize = 1usize << h;
        if index >= level {
            return None;
        }
        let li: usize = level + index;
        if li < self.value.len() {
            self.value[li].as_ref()
        } else {
            None
        }
    }
}

/// A left shift of 1 by up to 18 computes the matching power of two.
pub proof fn lemma_shift_is_pow2(h: usize)
    requires
        h <= 18,
    ensures
        (1usize << h) as nat == vstd::arithmetic::power2::pow2(h as nat),
        1usize << h >= 1,
{
    vstd::arithmetic::power2::lemma2_to64();
    let hv: usize = h;
    assert((1usize << hv) == (if hv == 0 { 0x1usize } else if hv == 1 { 0x2usize }
        else if hv == 2 { 0x4usize } else if hv == 3 { 0x8usize } else if hv == 4 { 0x10usize }
        else if hv == 5 { 0x20usize } else if hv == 6 { 0x40usize } else if hv == 7 { 0x80usize }
        else if hv == 8 { 0x100usize } else if hv == 9 { 0x200usize } else if hv == 10 { 0x400usize }
        else if hv == 11 { 0x800usize } else if hv == 12 { 0x1000usize } else if hv == 13 { 0x2000usize }
        else if hv == 14 { 0x4000usize } else if hv == 15 { 0x8000usize } else if hv == 16 { 0x10000usize }
        else if hv == 17 { 0x20000usize } else { 0x40000usize })) by (bit_vector)
        requires hv <= 18usize;
}

} // verus!
