//! Padding, trimming, and the path-set helper.

use vstd::prelude::*;

use crate::constants::{D, TREE_SLOTS};
use crate::dtypes::{node_index, Direction, Path};

verus! {

/// `m` zero-extended to length `t`; `m` unchanged if already at least that
/// long.
pub open spec fn pad_spec(m: Seq<u8>, t: int) -> Seq<u8> {
    if m.len() >= t {
        m
    } else {
        m + Seq::new((t - m.len()) as nat, |i: int| 0u8)
    }
}

/// `m` with its longest trailing run of zero bytes removed.
pub open spec fn trim_spec(m: Seq<u8>) -> Seq<u8>
    decreases m.len(),
{
    if m.len() == 0 {
        m
    } else if m.last() != 0 {
        m
    } else {
        trim_spec(m.drop_last())
    }
}

/// Pads a message to a target length by appending zeros; a message already
/// at least that long is returned unchanged.
pub fn pad_message(message: &[u8], target_length: usize) -> (r: Vec<u8>)
    ensures
        r@ == pad_spec(message@, target_length as int),
{
    let n: usize = message.len();
    let mut r: Vec<u8> = Vec::new();
    for i in 0..n
        invariant
            n == message@.len(),
            r@ == message@.take(i as int),
    {
        r.push(message[i]);
        assert(r@ =~= message@.take(i + 1));
    }
    assert(r@ =~= message@);
    while r.len() < target_length
        invariant
            message@.len() <= r@.len(),
            r@.len() <= vstd::math::max(message@.len() as int, target_length as int),
            r@.take(message@.len() as int) == message@,
            forall|j: int| message@.len() <= j < r@.len() ==> r@[j] == 0u8,
        decreases target_length - r.len(),
    {
        r.push(0u8);
        assert(r@.take(message@.len() as int) =~= message@);
    }
    assert(r@ =~= pad_spec(message@, target_length as int));
    r
}

/// Trims trailing zero bytes from a byte slice.
pub fn trim_zeros(buffer: &[u8]) -> (r: Vec<u8>)
    ensures
        r@ == trim_spec(buffer@),
{
    let mut end: usize = buffer.len();
    assert(buffer@.take(end as int) =~= buffer@);
    while end > 0 && buffer[end - 1] == 0
        invariant
            end <= buffer@.len(),
            trim_spec(buffer@.take(end as int)) == trim_spec(buffer@),
        decreases end,
    {
        assert(buffer@.take(end as int).drop_last() =~= buffer@.take(end - 1));
        end = end - 1;
    }
    let mut r: Vec<u8> = Vec::new();
    for i in 0..end
        invariant
            end <= buffer@.len(),
            r@ == buffer@.take(end as int).take(i as int),
    {
        r.push(buffer[i]);
        assert(r@ =~= buffer@.take(end as int).take(i + 1));
    }
    assert(r@ =~= buffer@.take(end as int));
    proof {
        let t = buffer@.take(end as int);
        if end == 0 {
            assert(t =~= Seq::<u8>::empty());
        } else {
            assert(t.last() != 0);
        }
    }
    r
}

/// Removing one trailing zero does not change the trimmed value.
proof fn lemma_trim_push_zero(s: Seq<u8>)
    ensures
        trim_spec(s.push(0u8)) == trim_spec(s),
{
    assert(s.push(0u8).drop_last() =~= s);
}

/// Zero-padding and trimming cancel: trimming a zero-padded message gives
/// the message back, provided the message is empty or ends in a non-zero
/// byte.
pub proof fn lemma_trim_of_padded(m: Seq<u8>, t: int)
    requires
        m.len() == 0 || m.last() != 0,
    ensures
        trim_spec(pad_spec(m, t)) == m,
    decreases t,
{
    if m.len() >= t {
        if m.len() != 0 {
            assert(trim_spec(m) == m);
        }
    } else {
        let prev = pad_spec(m, t - 1);
        assert(pad_spec(m, t) =~= prev.push(0u8));
        lemma_trim_push_zero(prev);
        lemma_trim_of_padded(m, t - 1);
    }
}

/// A vector of `n` zero bytes.
pub fn zero_bytes(n: usize) -> (r: Vec<u8>)
    ensures
        r@.len() == n,
        forall|i: int| 0 <= i < n ==> r@[i] == 0u8,
{
    let mut r: Vec<u8> = Vec::new();
    for i in 0..n
        invariant
            r@.len() == i,
            forall|j: int| 0 <= j < i ==> r@[j] == 0u8,
    {
        r.push(0u8);
    }
    r
}

/// The concatenation of two byte vectors.
pub fn concat_bytes(a: &Vec<u8>, b: &Vec<u8>) -> (r: Vec<u8>)
    ensures
        r@ == a@ + b@,
{
    let mut r: Vec<u8> = Vec::new();
    let na: usize = a.len();
    for i in 0..na
        invariant
            na == a@.len(),
            r@ == a@.take(i as int),
    {
        r.push(a[i]);
        assert(r@ =~= a@.take(i + 1));
    }
    assert(r@ =~= a@);
    let nb: usize = b.len();
    for i in 0..nb
        invariant
            nb == b@.len(),
            r@ == a@ + b@.take(i as int),
    {
        r.push(b[i]);
        assert(r@ =~= a@ + b@.take(i + 1));
    }
    assert(r@ =~= a@ + b@);
    r
}

/// An exact copy of an index vector.
pub fn copy_indices(v: &Vec<usize>) -> (r: Vec<usize>)
    ensures
        r@ == v@,
{
    let mut r: Vec<usize> = Vec::new();
    let n: usize = v.len();
    for i in 0..n
        invariant
            n == v@.len(),
            r@ == v@.take(i as int),
    {
        r.push(v[i]);
        assert(r@ =~= v@.take(i + 1));
    }
    assert(r@ =~= v@);
    r
}

/// The write-then-read round trip: a ciphertext that decrypts to the
/// zero-padded form of a message trims back to exactly that message,
/// provided the message is empty or ends in a non-zero byte (a trailing
/// zero is indistinguishable from padding).
pub proof fn lemma_decrypt_of_encrypt_trims(k: Seq<u8>, ct: Seq<u8>, m: Seq<u8>, t: int)
    requires
        crate::crypto::dec_of(k, ct) == Some(pad_spec(m, t)),
        m.len() == 0 || m.last() != 0,
    ensures
        trim_spec(crate::crypto::dec_of(k, ct).unwrap()) == m,
{
    lemma_trim_of_padded(m, t);
}

/// Whether `v` holds `x`.
fn contains_index(v: &Vec<usize>, x: usize) -> (r: bool)
    ensures
        r == v@.contains(x),
{
    let n: usize = v.len();
    for i in 0..n
        invariant
            n == v@.len(),
            forall|j: int| 0 <= j < i ==> v@[j] != x,
    {
        if v[i] == x {
            return true;
        }
    }
    false
}

/// Whether `n` is the index of a node on the root-to-leaf walk of one of
/// `paths` (the root, index 1, always qualifies).
pub open spec fn in_path_index_set(paths: Seq<Path>, n: nat) -> bool {
    n == 1 || exists|pi: int, j: int|
        0 <= pi < paths.len() && 0 <= j <= paths[pi]@.len() && n == node_index(paths[pi]@.take(j))
}

/// The union of the dense indices of every node from the root to each leaf,
/// for every path, as a duplicate-free vector that always contains the root.
pub fn get_path_indices(paths: Vec<Path>) -> (r: Vec<usize>)
    requires
        forall|pi: int| 0 <= pi < paths@.len() ==> #[trigger] paths@[pi]@.len() <= D,
    ensures
        forall|a: int, b: int| 0 <= a < b < r@.len() ==> r@[a] != r@[b],
        forall|k: int| 0 <= k < r@.len() ==> in_path_index_set(paths@, #[trigger] r@[k] as nat),
        forall|n: nat| in_path_index_set(paths@, n) ==> r@.contains(n as usize),
        r@.contains(1usize),
{
    let mut r: Vec<usize> = Vec::new();
    r.push(1);
    proof {
        assert(r@[0] == 1usize);
    }
    let np: usize = paths.len();
    for pi in 0..np
        invariant
            np == paths@.len(),
            forall|p: int| 0 <= p < paths@.len() ==> #[trigger] paths@[p]@.len() <= D,
            r@.contains(1usize),
            forall|a: int, b: int| 0 <= a < b < r@.len() ==> r@[a] != r@[b],
            forall|k: int|
                0 <= k < r@.len() ==> in_path_index_set(paths@, #[trigger] r@[k] as nat),
            forall|p: int, j: int|
                0 <= p < pi && 0 <= j <= paths@[p]@.len() ==> r@.contains(
                    node_index(#[trigger] paths@[p]@.take(j)) as usize,
                ),
    {
        let path: &Path = &paths[pi];
        let mut idx: usize = 1;
        let plen: usize = path.0.len();
        assert(path@.take(0) =~= Seq::<Direction>::empty());
        for j in 0..plen
            invariant
                np == paths@.len(),
                pi < np,
                path == &paths@[pi as int],
                plen == path@.len(),
                plen <= D,
                idx as nat == node_index(path@.take(j as int)),
                idx >= 1,
                r@.contains(1usize),
                forall|a: int, b: int| 0 <= a < b < r@.len() ==> r@[a] != r@[b],
                forall|k: int|
                    0 <= k < r@.len() ==> in_path_index_set(paths@, #[trigger] r@[k] as nat),
                forall|p: int, jj: int|
                    0 <= p < pi && 0 <= jj <= paths@[p]@.len() ==> r@.contains(
                        node_index(#[trigger] paths@[p]@.take(jj)) as usize,
                    ),
                forall|jj: int|
                    0 <= jj <= j ==> r@.contains(node_index(#[trigger] path@.take(jj)) as usize),
        {
            proof {
                lemma_node_index_bound(path@.take(j as int));
                vstd::arithmetic::power2::lemma2_to64();
                if j + 1 < 19 {
                    vstd::arithmetic::power2::lemma_pow2_strictly_increases((j + 1) as nat, 19);
                }
                assert(idx < 0x80000);
            }
            let d: Direction = path.0[j];
            let bit: u8 = d.to_bit();
            idx = 2 * idx + (bit as usize);
            proof {
                assert(path@.take(j + 1).drop_last() =~= path@.take(j as int));
            }
            if !contains_index(&r, idx) {
                let ghost r0 = r@;
                let ghost new_idx = idx;
                r.push(idx);
                proof {
                    assert(r@ == r0.push(new_idx));
                    lemma_push_contains(r0, new_idx, 1usize);
                    assert(in_path_index_set(paths@, new_idx as nat)) by {
                        assert(0 <= pi < paths@.len() && 0 <= j + 1 <= paths@[pi as int]@.len()
                            && new_idx as nat == node_index(paths@[pi as int]@.take(j + 1)));
                    }
                    assert forall|p: int, jj: int|
                        0 <= p < pi && 0 <= jj <= paths@[p]@.len() implies r@.contains(
                        node_index(#[trigger] paths@[p]@.take(jj)) as usize,
                    ) by {
                        lemma_push_contains(r0, new_idx, node_index(paths@[p]@.take(jj)) as usize);
                    }
                    assert forall|jj: int| 0 <= jj <= j + 1 implies r@.contains(
                        node_index(#[trigger] path@.take(jj)) as usize,
                    ) by {
                        if jj <= j {
                            lemma_push_contains(r0, new_idx, node_index(path@.take(jj)) as usize);
                        } else {
                            assert(r@[r0.len() as int] == new_idx);
                        }
                    }
                }
            } else {
                proof {
                    assert forall|jj: int| 0 <= jj <= j + 1 implies r@.contains(
                        node_index(#[trigger] path@.take(jj)) as usize,
                    ) by {}
                }
            }
        }
    }
    r
}

/// Pushing onto a sequence keeps every element it already contained.
proof fn lemma_push_contains<A>(s: Seq<A>, x: A, y: A)
    requires
        s.contains(y),
    ensures
        s.push(x).contains(y),
{
    let i = choose|i: int| 0 <= i < s.len() && s[i] == y;
    assert(s.push(x)[i] == y);
}

/// Every node index is at least 1 and below `2^(len + 1)`.
pub proof fn lemma_node_index_bound(p: Seq<Direction>)
    ensures
        1 <= node_index(p),
        node_index(p) < vstd::arithmetic::power2::pow2((p.len() + 1) as nat),
    decreases p.len(),
{
    vstd::arithmetic::power2::lemma_pow2_unfold((p.len() + 1) as nat);
    if p.len() == 0 {
        vstd::arithmetic::power2::lemma2_to64();
    } else {
        lemma_node_index_bound(p.drop_last());
    }
}

/// Every index of a path-set over paths of length at most `D` lies in
/// `[1, TREE_SLOTS)`.
pub proof fn lemma_indices_in_range(paths: Seq<Path>, r: Seq<usize>)
    requires
        forall|pi: int| 0 <= pi < paths.len() ==> #[trigger] paths[pi]@.len() <= D,
        forall|k: int| 0 <= k < r.len() ==> in_path_index_set(paths, #[trigger] r[k] as nat),
    ensures
        forall|k: int| 0 <= k < r.len() ==> 1 <= #[trigger] r[k] < TREE_SLOTS,
{
    assert forall|k: int| 0 <= k < r.len() implies 1 <= #[trigger] r[k] < TREE_SLOTS by {
        let n = r[k] as nat;
        assert(in_path_index_set(paths, n));
        if n != 1 {
            let (pi, j) = choose|pi: int, j: int|
                0 <= pi < paths.len() && 0 <= j <= paths[pi]@.len() && n == node_index(
                    paths[pi]@.take(j),
                );
            crate::tree::lemma_prefix_index_bound(paths[pi]@, j);
        }
    }
}

} // verus!
