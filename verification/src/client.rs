//! The client: key-schedule derivation, message writing through the
//! coordinator, and the path decryption walk for reads.

use vstd::prelude::*;

use crate::constants::{D, DELTA, INNER_BLOCK_SIZE, MESSAGE_SIZE, TREE_SLOTS};
use crate::crypto::{
    be_bytes_of, dec_chars, dec_of, decimal_string, decrypt, encrypt, kdf, kdf_of, prf, prf_of, random_bytes,
    u64_be_bytes, EncryptionType,
};
use crate::dtypes::{node_index, Bucket, Direction, Key, Path};
use crate::error::MycoError;
use crate::server1::{derived_path, Server1};
use crate::server2::{keys_bytes, Server2};
use crate::tree::SparseBinaryTree;
use crate::utils::{
    copy_indices, get_path_indices, lemma_indices_in_range, pad_spec, trim_spec, trim_zeros,
};
use vstd::string::StrSliceExecFns;

verus! {

/// The key triple the client derives for one shared key: the message key,
/// the oblivious key, and the PRF key.
pub type DerivedKeys = (Vec<u8>, Vec<u8>, Vec<u8>);

/// The derived triples a client holds, looked up by the shared key's
/// bytes; a later insert for the same key replaces the earlier one.
#[derive(Debug)]
pub struct KeyTable(pub Vec<(Key, DerivedKeys)>);

/// The triple stored for key bytes `kb`, if any: the latest insert for
/// those bytes wins.
pub open spec fn lookup(s: Seq<(Key, DerivedKeys)>, kb: Seq<u8>) -> Option<
    (Seq<u8>, Seq<u8>, Seq<u8>),
>
    decreases s.len(),
{
    if s.len() == 0 {
        None
    } else if s.last().0@ == kb {
        Some((s.last().1.0@, s.last().1.1@, s.last().1.2@))
    } else {
        lookup(s.drop_last(), kb)
    }
}

/// Whether two byte vectors hold the same bytes.
fn bytes_eq(a: &Vec<u8>, b: &Vec<u8>) -> (r: bool)
    ensures
        r == (a@ == b@),
{
    if a.len() != b.len() {
        return false;
    }
    let n: usize = a.len();
    for i in 0..n
        invariant
            n == a@.len(),
            n == b@.len(),
            forall|j: int| 0 <= j < i ==> a@[j] == b@[j],
    {
        if a[i] != b[i] {
            return false;
        }
    }
    proof {
        assert(a@ =~= b@);
    }
    true
}

impl KeyTable {
    /// An empty table.
    pub fn new() -> (r: Self)
        ensures
            r.0@.len() == 0,
            forall|kb: Seq<u8>| lookup(r.0@, kb) is None,
    {
        KeyTable(Vec::new())
    }

    /// The triple stored for `k`, if any.
    pub fn get(&self, k: &Key) -> (r: Option<&DerivedKeys>)
        ensures
            match r {
                Some(t) => lookup(self.0@, k@) == Some((t.0@, t.1@, t.2@)),
                None => lookup(self.0@, k@) is None,
            },
    {
        let n: usize = self.0.len();
        let mut i: usize = n;
        proof {
            assert(self.0@.take(n as int) =~= self.0@);
        }
        while i > 0
            invariant
                n == self.0@.len(),
                i <= n,
                lookup(self.0@.take(i as int), k@) == lookup(self.0@, k@),
            decreases i,
        {
            proof {
                assert(self.0@.take(i as int).last() == self.0@[i - 1]);
                assert(self.0@.take(i as int).drop_last() =~= self.0@.take(i - 1));
            }
            if bytes_eq(&self.0[i - 1].0.0, &k.0) {
                return Some(&self.0[i - 1].1);
            }
            i = i - 1;
        }
        proof {
            assert(self.0@.take(0) =~= Seq::<(Key, DerivedKeys)>::empty());
        }
        None
    }

    /// Whether the table holds a triple for `k`.
    pub fn contains_key(&self, k: &Key) -> (r: bool)
        ensures
            r == (lookup(self.0@, k@) is Some),
    {
        match self.get(k) {
            Some(_) => true,
            None => false,
        }
    }

    /// Stores `triple` for `k`; a later insert for the same key bytes
    /// shadows any earlier one.
    pub fn insert(&mut self, k: Key, triple: DerivedKeys)
        ensures
            final(self).0@ == old(self).0@.push((k, triple)),
            lookup(final(self).0@, k@) == Some((triple.0@, triple.1@, triple.2@)),
            forall|kb2: Seq<u8>|
                kb2 != k@ ==> #[trigger] lookup(final(self).0@, kb2) == lookup(old(self).0@, kb2),
    {
        let ghost old_tab = self.0@;
        self.0.push((k, triple));
        proof {
            assert(self.0@.drop_last() =~= old_tab);
        }
    }
}

/// What double-decrypting a block yields: the inner plaintext when both
/// the oblivious layer and the message layer open, `None` otherwise.
pub open spec fn chain_hit(block: Seq<u8>, k_oblv_t: Seq<u8>, k_msg: Seq<u8>) -> Option<Seq<u8>> {
    match dec_of(k_oblv_t, block) {
        Some(ct) => dec_of(k_msg, ct),
        None => None,
    }
}

/// The first block of `blocks` (in order) that opens under both keys,
/// trimmed; `None` when none opens.
pub open spec fn first_hit_in(blocks: Seq<Seq<u8>>, k_oblv_t: Seq<u8>, k_msg: Seq<u8>) -> Option<
    Seq<u8>,
>
    decreases blocks.len(),
{
    if blocks.len() == 0 {
        None
    } else {
        match chain_hit(blocks[0], k_oblv_t, k_msg) {
            Some(pm) => Some(trim_spec(pm)),
            None => first_hit_in(blocks.drop_first(), k_oblv_t, k_msg),
        }
    }
}

/// The answer of walking `lp` through the storage tree from prefix length
/// `j` on: the first block that opens under both keys, scanning each
/// bucket in block order and the buckets root to leaf.
pub open spec fn walk_first_hit(
    s2: Server2,
    lp: Seq<Direction>,
    k_oblv_t: Seq<u8>,
    k_msg: Seq<u8>,
    j: int,
) -> Option<Seq<u8>>
    decreases lp.len() + 1 - j,
{
    if j < 0 || j > lp.len() {
        None
    } else {
        match first_hit_in(s2.tree_bucket(node_index(lp.take(j)) as int), k_oblv_t, k_msg) {
            Some(m) => Some(m),
            None => walk_first_hit(s2, lp, k_oblv_t, k_msg, j + 1),
        }
    }
}

/// Whether packed position `pos` lies on the walk of `lp` from the root.
pub open spec fn pos_on_path(st: SparseBinaryTree<Bucket>, lp: Seq<Direction>, pos: int) -> bool {
    exists|j: int|
        0 <= j <= lp.len() && st.packed_indices@[pos] == node_index(#[trigger] lp.take(j)) as usize
}

/// Some block of some bucket along the walk of `lp` double-decrypts under
/// the two keys to a plaintext whose trimmed form is `m`.
pub open spec fn tree_hit(
    s2: Server2,
    lp: Seq<Direction>,
    k_oblv_t: Seq<u8>,
    k_msg: Seq<u8>,
    m: Seq<u8>,
) -> bool {
    exists|j: int, bi: int|
        #![trigger chain_hit(s2.tree_bucket(node_index(lp.take(j)) as int)[bi], k_oblv_t, k_msg)]
        {
            &&& 0 <= j <= lp.len()
            &&& 0 <= bi < s2.tree_bucket(node_index(lp.take(j)) as int).len()
            &&& (chain_hit(s2.tree_bucket(node_index(lp.take(j)) as int)[bi], k_oblv_t, k_msg)
                matches Some(pm) && m == trim_spec(pm))
        }
}

/// No block of any bucket along the walk of `lp` double-decrypts under
/// the two keys.
pub open spec fn tree_clear(
    s2: Server2,
    lp: Seq<Direction>,
    k_oblv_t: Seq<u8>,
    k_msg: Seq<u8>,
) -> bool {
    forall|j: int, bi: int|
        #![trigger chain_hit(s2.tree_bucket(node_index(lp.take(j)) as int)[bi], k_oblv_t, k_msg)]
        0 <= j <= lp.len() && 0 <= bi < s2.tree_bucket(node_index(lp.take(j)) as int).len()
            ==> chain_hit(s2.tree_bucket(node_index(lp.take(j)) as int)[bi], k_oblv_t, k_msg)
            is None
}

/// Some bucket on the walk of `lp` through the fetched tree holds a block
/// that opens under both keys to a plaintext whose trimmed form is `m`.
pub open spec fn st_hit(
    st: SparseBinaryTree<Bucket>,
    lp: Seq<Direction>,
    k_oblv_t: Seq<u8>,
    k_msg: Seq<u8>,
    m: Seq<u8>,
) -> bool {
    exists|pos: int, bi: int|
        #![trigger st.packed_buckets@[pos]@[bi]]
        {
            &&& 0 <= pos < st.packed_buckets@.len()
            &&& pos_on_path(st, lp, pos)
            &&& 0 <= bi < st.packed_buckets@[pos]@.len()
            &&& (chain_hit(st.packed_buckets@[pos]@[bi]@, k_oblv_t, k_msg) matches Some(pm)
                && m == trim_spec(pm))
        }
}

/// No bucket on the walk of `lp` through the fetched tree holds a block
/// that opens under both keys.
pub open spec fn st_clear(
    st: SparseBinaryTree<Bucket>,
    lp: Seq<Direction>,
    k_oblv_t: Seq<u8>,
    k_msg: Seq<u8>,
) -> bool {
    forall|pos: int, bi: int|
        #![trigger st.packed_buckets@[pos]@[bi]]
        0 <= pos < st.packed_buckets@.len() && pos_on_path(st, lp, pos) && 0 <= bi
            < st.packed_buckets@[pos]@.len() ==> chain_hit(
            st.packed_buckets@[pos]@[bi]@,
            k_oblv_t,
            k_msg,
        ) is None
}

/// Scans one bucket: returns the first block, in block order, that opens
/// under both keys, trimmed.
fn scan_bucket(bucket: &Bucket, k_oblv_t: &Vec<u8>, k_msg: &Vec<u8>) -> (r: Option<Vec<u8>>)
    ensures
        r matches Some(m) ==> first_hit_in(bucket.bytes(), k_oblv_t@, k_msg@) == Some(m@),
        r is None ==> first_hit_in(bucket.bytes(), k_oblv_t@, k_msg@) is None,
        r matches Some(m) ==> exists|bi: int|
            0 <= bi < bucket@.len() && (chain_hit((#[trigger] bucket@[bi])@, k_oblv_t@, k_msg@)
                matches Some(pm) && m@ == trim_spec(pm)),
        r is None ==> forall|bi: int|
            0 <= bi < bucket@.len() ==> chain_hit(
                (#[trigger] bucket@[bi])@,
                k_oblv_t@,
                k_msg@,
            ) is None,
{
    let blen: usize = bucket.0.len();
    proof {
        assert(bucket.bytes().skip(0) =~= bucket.bytes());
    }
    for bi in 0..blen
        invariant
            blen == bucket@.len(),
            forall|b2: int|
                0 <= b2 < bi ==> chain_hit((#[trigger] bucket@[b2])@, k_oblv_t@, k_msg@) is None,
            first_hit_in(bucket.bytes().skip(bi as int), k_oblv_t@, k_msg@) == first_hit_in(
                bucket.bytes(),
                k_oblv_t@,
                k_msg@,
            ),
    {
        let block: &crate::dtypes::Block = &bucket.0[bi];
        proof {
            assert(bucket.bytes().skip(bi as int)[0] == bucket@[bi as int]@);
            assert(bucket.bytes().skip(bi as int).drop_first() =~= bucket.bytes().skip(bi + 1));
        }
        match decrypt(k_oblv_t.as_slice(), block.0.as_slice()) {
            Err(_) => {},
            Ok(ct) => {
                match decrypt(k_msg.as_slice(), ct.as_slice()) {
                    Err(_) => {},
                    Ok(pm) => {
                        let m: Vec<u8> = trim_zeros(pm.as_slice());
                        proof {
                            assert(chain_hit(bucket@[bi as int]@, k_oblv_t@, k_msg@) == Some(pm@));
                            assert(first_hit_in(bucket.bytes().skip(bi as int), k_oblv_t@, k_msg@)
                                == Some(trim_spec(pm@)));
                        }
                        return Some(m);
                    },
                }
            },
        }
        proof {
            assert(chain_hit(bucket@[bi as int]@, k_oblv_t@, k_msg@) is None);
        }
    }
    proof {
        assert(bucket.bytes().skip(blen as int) =~= Seq::<Seq<u8>>::empty());
    }
    None
}

/// Walks `path` through the fetched sparse tree and returns the first
/// block that opens under both keys, trimmed — scanning each bucket in
/// block order and the buckets root to leaf; `None` when no block on the
/// path does.
fn scan_path(st: &SparseBinaryTree<Bucket>, path: &Path, k_oblv_t: &Vec<u8>, k_msg: &Vec<u8>) -> (r:
    Option<Vec<u8>>)
    requires
        st.wf(),
        path@.len() <= D,
    ensures
        r matches Some(m) ==> st_hit(*st, path@, k_oblv_t@, k_msg@, m@),
        r is None ==> st_clear(*st, path@, k_oblv_t@, k_msg@),
        r matches Some(m) ==> st_walk_first(*st, path@, k_oblv_t@, k_msg@, 0) == Some(m@),
        r is None ==> st_walk_first(*st, path@, k_oblv_t@, k_msg@, 0) is None,
{
    let plen: usize = path.0.len();
    let mut idx: usize = 1;
    proof {
        assert(path@.take(0) =~= Seq::<Direction>::empty());
    }
    let root_pos: usize = st.rev[idx];
    if root_pos != usize::MAX {
        match scan_bucket(&st.packed_buckets[root_pos], k_oblv_t, k_msg) {
            Some(m) => {
                proof {
                    assert(st.packed_indices@[root_pos as int] == 1usize);
                    assert(pos_on_path(*st, path@, root_pos as int)) by {
                        assert(st.packed_indices@[root_pos as int] == node_index(
                            path@.take(0),
                        ) as usize);
                    }
                    lemma_prefix_bucket(*st, path@, 0, root_pos as int);
                    assert(st_walk_first(*st, path@, k_oblv_t@, k_msg@, 0) == Some(m@));
                }
                return Some(m);
            },
            None => {
                proof {
                    lemma_prefix_bucket(*st, path@, 0, root_pos as int);
                    assert(st_walk_first(*st, path@, k_oblv_t@, k_msg@, 0) == st_walk_first(
                        *st,
                        path@,
                        k_oblv_t@,
                        k_msg@,
                        1,
                    ));
                }
            },
        }
    } else {
        proof {
            lemma_prefix_no_bucket(*st, path@, 0);
            assert(first_hit_in(bucket_at_prefix(*st, path@, 0), k_oblv_t@, k_msg@) is None);
            assert(st_walk_first(*st, path@, k_oblv_t@, k_msg@, 0) == st_walk_first(
                *st,
                path@,
                k_oblv_t@,
                k_msg@,
                1,
            ));
        }
    }
    for j in 0..plen
        invariant
            st.wf(),
            plen == path@.len(),
            plen <= D,
            idx as nat == node_index(path@.take(j as int)),
            idx >= 1,
            forall|j2: int, bi: int|
                0 <= j2 <= j && 0 <= bi < bucket_at_prefix(*st, path@, j2).len() ==> chain_hit(
                    #[trigger] bucket_at_prefix(*st, path@, j2)[bi],
                    k_oblv_t@,
                    k_msg@,
                ) is None,
            st_walk_first(*st, path@, k_oblv_t@, k_msg@, 0) == st_walk_first(
                *st,
                path@,
                k_oblv_t@,
                k_msg@,
                j + 1,
            ),
    {
        proof {
            crate::tree::lemma_prefix_index_bound(path@, j as int);
        }
        let bit: u8 = path.0[j].to_bit();
        idx = 2 * idx + (bit as usize);
        proof {
            assert(path@.take(j + 1).drop_last() =~= path@.take(j as int));
            crate::tree::lemma_prefix_index_bound(path@, j + 1);
        }
        let pos: usize = st.rev[idx];
        if pos != usize::MAX {
            match scan_bucket(&st.packed_buckets[pos], k_oblv_t, k_msg) {
                Some(m) => {
                    proof {
                        assert(st.packed_indices@[pos as int] == idx);
                        assert(pos_on_path(*st, path@, pos as int)) by {
                            assert(st.packed_indices@[pos as int] == node_index(
                                path@.take(j + 1),
                            ) as usize);
                        }
                        lemma_prefix_bucket(*st, path@, j + 1, pos as int);
                        assert(st_walk_first(*st, path@, k_oblv_t@, k_msg@, j + 1) == Some(m@));
                    }
                    return Some(m);
                },
                None => {
                    proof {
                        lemma_prefix_bucket(*st, path@, j + 1, pos as int);
                        assert(st_walk_first(*st, path@, k_oblv_t@, k_msg@, j + 1)
                            == st_walk_first(*st, path@, k_oblv_t@, k_msg@, j + 2));
                    }
                },
            }
        } else {
            proof {
                lemma_prefix_no_bucket(*st, path@, j + 1);
                assert(first_hit_in(bucket_at_prefix(*st, path@, j + 1), k_oblv_t@, k_msg@)
                    is None);
                assert(st_walk_first(*st, path@, k_oblv_t@, k_msg@, j + 1) == st_walk_first(
                    *st,
                    path@,
                    k_oblv_t@,
                    k_msg@,
                    j + 2,
                ));
            }
        }
    }
    proof {
        assert forall|pos: int, bi: int|
            #![trigger st.packed_buckets@[pos]@[bi]]
            0 <= pos < st.packed_buckets@.len() && pos_on_path(*st, path@, pos) && 0 <= bi
                < st.packed_buckets@[pos]@.len() implies chain_hit(
            st.packed_buckets@[pos]@[bi]@,
            k_oblv_t@,
            k_msg@,
        ) is None by {
            let j2 = choose|j2: int|
                0 <= j2 <= path@.len() && st.packed_indices@[pos] == node_index(
                    #[trigger] path@.take(j2),
                ) as usize;
            lemma_prefix_bucket(*st, path@, j2, pos);
            assert(bucket_at_prefix(*st, path@, j2)[bi] == st.packed_buckets@[pos]@[bi]@);
        }
        assert(st_walk_first(*st, path@, k_oblv_t@, k_msg@, plen + 1) is None);
    }
    None
}

/// The block bytes of the bucket stored at the `j`-th prefix of `lp`, or
/// the empty list when that node is not in the tree.
pub open spec fn bucket_at_prefix(
    st: SparseBinaryTree<Bucket>,
    lp: Seq<Direction>,
    j: int,
) -> Seq<Seq<u8>> {
    if st.packed_indices@.contains(node_index(lp.take(j)) as usize) {
        st.packed_buckets@[st.rev@[node_index(lp.take(j)) as int] as int].bytes()
    } else {
        Seq::empty()
    }
}

/// The answer of walking `lp` through the fetched sparse tree from prefix
/// length `j` on: the first block that opens under both keys, in block
/// order within each bucket and root to leaf across buckets.
pub open spec fn st_walk_first(
    st: SparseBinaryTree<Bucket>,
    lp: Seq<Direction>,
    k_oblv_t: Seq<u8>,
    k_msg: Seq<u8>,
    j: int,
) -> Option<Seq<u8>>
    decreases lp.len() + 1 - j,
{
    if j < 0 || j > lp.len() {
        None
    } else {
        match first_hit_in(bucket_at_prefix(st, lp, j), k_oblv_t, k_msg) {
            Some(m) => Some(m),
            None => st_walk_first(st, lp, k_oblv_t, k_msg, j + 1),
        }
    }
}

/// When the prefix node is present, its bucket's blocks are exactly what
/// the scan just cleared.
proof fn lemma_prefix_bucket(st: SparseBinaryTree<Bucket>, lp: Seq<Direction>, j: int, pos: int)
    requires
        st.wf(),
        0 <= j <= lp.len(),
        lp.len() <= D,
        0 <= pos < st.packed_buckets@.len(),
        st.packed_indices@[pos] == node_index(lp.take(j)) as usize,
    ensures
        bucket_at_prefix(st, lp, j) == st.packed_buckets@[pos].bytes(),
{
    crate::tree::lemma_prefix_index_bound(lp, j);
    assert(st.packed_indices@.contains(node_index(lp.take(j)) as usize)) by {
        assert(0 <= pos < st.packed_indices@.len() && st.packed_indices@[pos] == node_index(
            lp.take(j),
        ) as usize);
    }
    assert(st.rev@[st.packed_indices@[pos] as int] == pos);
}

/// When the prefix node is absent, there is nothing to scan there.
proof fn lemma_prefix_no_bucket(st: SparseBinaryTree<Bucket>, lp: Seq<Direction>, j: int)
    requires
        st.wf(),
        0 <= j <= lp.len(),
        node_index(lp.take(j)) < TREE_SLOTS,
        st.rev@[node_index(lp.take(j)) as int] == usize::MAX,
    ensures
        bucket_at_prefix(st, lp, j) == Seq::<Seq<u8>>::empty(),
{
    if st.packed_indices@.contains(node_index(lp.take(j)) as usize) {
        let p0 = choose|p0: int|
            0 <= p0 < st.packed_indices@.len() && st.packed_indices@[p0] == node_index(
                lp.take(j),
            ) as usize;
        assert(st.rev@[st.packed_indices@[p0] as int] == p0);
    }
}

/// Translates a hit in the fetched tree to a hit in the storage server's
/// tree, given that the fetched buckets mirror the server's.
proof fn lemma_hit_translate(
    st: SparseBinaryTree<Bucket>,
    s2: Server2,
    lp: Seq<Direction>,
    kob: Seq<u8>,
    km: Seq<u8>,
    m: Seq<u8>,
)
    requires
        st.wf(),
        lp.len() <= D,
        forall|pos: int|
            0 <= pos < st.packed_buckets@.len() ==> (#[trigger] st.packed_buckets@[pos]).bytes()
                == s2.tree_bucket(st.packed_indices@[pos] as int),
        st_hit(st, lp, kob, km, m),
    ensures
        tree_hit(s2, lp, kob, km, m),
{
    let (pos, bi) = choose|pos: int, bi: int|
        #![trigger st.packed_buckets@[pos]@[bi]]
        {
            &&& 0 <= pos < st.packed_buckets@.len()
            &&& pos_on_path(st, lp, pos)
            &&& 0 <= bi < st.packed_buckets@[pos]@.len()
            &&& (chain_hit(st.packed_buckets@[pos]@[bi]@, kob, km) matches Some(pm)
                && m == trim_spec(pm))
        };
    let j = choose|j: int|
        0 <= j <= lp.len() && st.packed_indices@[pos] == node_index(#[trigger] lp.take(j)) as usize;
    crate::tree::lemma_prefix_index_bound(lp, j);
    assert(st.packed_buckets@[pos].bytes()[bi] == st.packed_buckets@[pos]@[bi]@);
    assert(s2.tree_bucket(node_index(lp.take(j)) as int)[bi] == st.packed_buckets@[pos]@[bi]@);
    assert(chain_hit(s2.tree_bucket(node_index(lp.take(j)) as int)[bi], kob, km) matches Some(pm)
        && m == trim_spec(pm));
}

/// Translates a clear scan to the storage server's tree, given that the
/// fetched indices cover every prefix of the walk.
proof fn lemma_clear_translate(
    st: SparseBinaryTree<Bucket>,
    s2: Server2,
    lp: Seq<Direction>,
    kob: Seq<u8>,
    km: Seq<u8>,
)
    requires
        st.wf(),
        lp.len() <= D,
        forall|pos: int|
            0 <= pos < st.packed_buckets@.len() ==> (#[trigger] st.packed_buckets@[pos]).bytes()
                == s2.tree_bucket(st.packed_indices@[pos] as int),
        forall|j: int|
            0 <= j <= lp.len() ==> st.packed_indices@.contains(
                node_index(#[trigger] lp.take(j)) as usize,
            ),
        st_clear(st, lp, kob, km),
    ensures
        tree_clear(s2, lp, kob, km),
{
    assert forall|j: int, bi: int|
        #![trigger chain_hit(s2.tree_bucket(node_index(lp.take(j)) as int)[bi], kob, km)]
        0 <= j <= lp.len() && 0 <= bi < s2.tree_bucket(node_index(lp.take(j)) as int).len()
        implies chain_hit(s2.tree_bucket(node_index(lp.take(j)) as int)[bi], kob, km)
        is None by {
        assert(st.packed_indices@.contains(node_index(lp.take(j)) as usize));
        let pos = choose|pos: int|
            0 <= pos < st.packed_indices@.len() && st.packed_indices@[pos] == node_index(
                lp.take(j),
            ) as usize;
        assert(pos_on_path(st, lp, pos)) by {
            assert(st.packed_indices@[pos] == node_index(lp.take(j)) as usize);
        }
        crate::tree::lemma_prefix_index_bound(lp, j);
        assert(st.packed_buckets@[pos].bytes() == s2.tree_bucket(node_index(lp.take(j)) as int));
        assert(st.packed_buckets@[pos]@.len() == s2.tree_bucket(
            node_index(lp.take(j)) as int,
        ).len());
        assert(chain_hit(st.packed_buckets@[pos]@[bi]@, kob, km) is None);
        assert(st.packed_buckets@[pos].bytes()[bi] == st.packed_buckets@[pos]@[bi]@);
    }
}

/// Translates the walk's first-hit answer to the storage server's tree,
/// given that the fetched buckets mirror the server's and the fetched
/// indices cover every prefix of the walk.
proof fn lemma_walk_translate(
    st: SparseBinaryTree<Bucket>,
    s2: Server2,
    lp: Seq<Direction>,
    kob: Seq<u8>,
    km: Seq<u8>,
    j: int,
)
    requires
        st.wf(),
        lp.len() <= D,
        forall|pos: int|
            0 <= pos < st.packed_buckets@.len() ==> (#[trigger] st.packed_buckets@[pos]).bytes()
                == s2.tree_bucket(st.packed_indices@[pos] as int),
        forall|j2: int|
            0 <= j2 <= lp.len() ==> st.packed_indices@.contains(
                node_index(#[trigger] lp.take(j2)) as usize,
            ),
        0 <= j,
    ensures
        st_walk_first(st, lp, kob, km, j) == walk_first_hit(s2, lp, kob, km, j),
    decreases lp.len() + 1 - j,
{
    if j <= lp.len() {
        assert(st.packed_indices@.contains(node_index(lp.take(j)) as usize));
        let pos = choose|pos: int|
            0 <= pos < st.packed_indices@.len() && st.packed_indices@[pos] == node_index(
                lp.take(j),
            ) as usize;
        lemma_prefix_bucket(st, lp, j, pos);
        crate::tree::lemma_prefix_index_bound(lp, j);
        assert(st.packed_buckets@[pos].bytes() == s2.tree_bucket(st.packed_indices@[pos] as int));
        assert(st.packed_indices@[pos] as int == node_index(lp.take(j)) as int);
        assert(bucket_at_prefix(st, lp, j) == s2.tree_bucket(node_index(lp.take(j)) as int));
        lemma_walk_translate(st, s2, lp, kob, km, j + 1);
    }
}

/// A successful write left exactly one more message in some queue row of
/// the coordinator: its ciphertext opens under the message key to the
/// padded message, its oblivious key and destination path are the derived
/// ones.
pub open spec fn write_queued(
    s1_0: Server1,
    s1_1: Server1,
    k_msg: Seq<u8>,
    k_oblv_t: Seq<u8>,
    msg: Seq<u8>,
    f: Seq<u8>,
    cs: Seq<u8>,
) -> bool {
    exists|pos: int|
        #![trigger s1_1.message_queue@[pos]]
        {
            &&& 0 <= pos < s1_0.message_queue@.len()
            &&& s1_1.message_queue@[pos]@.len() == s1_0.message_queue@[pos]@.len() + 1
            &&& dec_of(k_msg, s1_1.message_queue@[pos]@.last().ct@) == Some(
                pad_spec(msg, MESSAGE_SIZE as int),
            )
            &&& s1_1.message_queue@[pos]@.last().k_oblv_t@ == k_oblv_t
            &&& s1_1.message_queue@[pos]@.last().path@ == derived_path(s1_0.k_s1_t@, f, cs)
        }
}

/// A Myco client: its name, its count of successful writes, and the key
/// triples it has derived.
#[derive(Debug)]
pub struct Client {
    /// The client's name, mixed into path derivation as the suffix `cs`.
    pub id: String,
    /// The number of successful writes since construction.
    pub epoch: usize,
    /// The derived key triples, by shared key.
    pub keys: KeyTable,
}

impl Client {
    /// Every stored triple holds three 16-byte derived keys.
    pub open spec fn wf(&self) -> bool {
        forall|j: int|
            0 <= j < self.keys.0@.len() ==> ((#[trigger] self.keys.0@[j]).1.0@.len() == 16
                && self.keys.0@[j].1.1@.len() == 16 && self.keys.0@[j].1.2@.len() == 16)
    }

    /// A fresh client with no keys and no writes.
    pub fn new(id: String) -> (r: Self)
        ensures
            r.wf(),
            r.id == id,
            r.epoch == 0,
            r.keys.0@.len() == 0,
    {
        Client { id, epoch: 0, keys: KeyTable::new() }
    }

    /// Derives and stores the message, oblivious, and PRF keys for a
    /// shared key.  Idempotent on repeated keys.
    pub fn setup(&mut self, k: &Key) -> (r: Result<(), MycoError>)
        requires
            old(self).wf(),
        ensures
            r is Ok,
            final(self).wf(),
            final(self).id == old(self).id,
            final(self).epoch == old(self).epoch,
            lookup(final(self).keys.0@, k@) == Some(
                (kdf_of(k@, "MSG"@), kdf_of(k@, "ORAM"@), kdf_of(k@, "PRF"@)),
            ),
            forall|kb2: Seq<u8>|
                kb2 != k@ ==> #[trigger] lookup(final(self).keys.0@, kb2) == lookup(
                    old(self).keys.0@,
                    kb2,
                ),
    {
        let k_msg: Vec<u8> = match kdf(k.0.as_slice(), "MSG") {
            Ok(v) => v,
            Err(e) => {
                return Err(e);
            },
        };
        let k_oblv: Vec<u8> = match kdf(k.0.as_slice(), "ORAM") {
            Ok(v) => v,
            Err(e) => {
                return Err(e);
            },
        };
        let k_prf: Vec<u8> = match kdf(k.0.as_slice(), "PRF") {
            Ok(v) => v,
            Err(e) => {
                return Err(e);
            },
        };
        let ghost old_tab = self.keys.0@;
        self.keys.insert(k.clone(), (k_msg, k_oblv, k_prf));
        proof {
            assert forall|j: int| 0 <= j < self.keys.0@.len() implies ((
            #[trigger] self.keys.0@[j]).1.0@.len() == 16 && self.keys.0@[j].1.1@.len() == 16
                && self.keys.0@[j].1.2@.len() == 16) by {
                if j < old_tab.len() {
                    assert(self.keys.0@[j] == old_tab[j]);
                }
            }
        }
        Ok(())
    }

    /// Writes a message under a shared key: encrypts it, derives this
    /// epoch's PRF tag and oblivious key, hands the bundle to the
    /// coordinator, and counts the write on success.
    pub fn write(&mut self, msg: &[u8], k: &Key, s1: &mut Server1) -> (r: Result<(), MycoError>)
        requires
            old(self).wf(),
            old(s1).wf(),
            old(s1).epoch + DELTA <= u64::MAX,
            msg@.len() <= MESSAGE_SIZE,
            old(self).epoch < usize::MAX,
        ensures
            final(self).wf(),
            final(self).id == old(self).id,
            final(self).keys == old(self).keys,
            final(s1).wf(),
            final(s1).epoch == old(s1).epoch,
            final(s1).k_s1_t == old(s1).k_s1_t,
            final(s1).pathset_indices == old(s1).pathset_indices,
            final(s1).pt == old(s1).pt,
            final(s1).metadata_pt == old(s1).metadata_pt,
            final(s1).p == old(s1).p,
            final(s1).metadata == old(s1).metadata,
            lookup(old(self).keys.0@, k@) is None ==> r == Err::<(), MycoError>(
                MycoError::KeyNotFound,
            ),
            r is Ok ==> lookup(old(self).keys.0@, k@) is Some,
            r is Ok ==> final(self).epoch == old(self).epoch + 1,
            r is Err ==> final(self).epoch == old(self).epoch,
            r is Err ==> final(s1).message_queue == old(s1).message_queue,
            lookup(old(self).keys.0@, k@) matches Some(t) ==> {
                &&& (r is Ok <==> SparseBinaryTree::<Bucket>::lca_len(
                    old(s1).pt.packed_indices@,
                    derived_path(
                        old(s1).k_s1_t@,
                        prf_of(t.2, be_bytes_of(old(self).epoch as u64)),
                        vstd::utf8::encode_utf8(old(self).id@),
                    ),
                    D as int,
                ) is Some)
                &&& (old(s1).pathset_indices@.contains(1usize) ==> r is Ok)
                &&& (r is Ok ==> write_queued(
                    *old(s1),
                    *final(s1),
                    t.0,
                    kdf_of(t.1, dec_chars(old(self).epoch as nat)),
                    msg@,
                    prf_of(t.2, be_bytes_of(old(self).epoch as u64)),
                    vstd::utf8::encode_utf8(old(self).id@),
                ))
            },
            r matches Err(e) ==> (e == MycoError::KeyNotFound || e == MycoError::LcaNotFound),
    {
        let (k_msg, k_oblv, k_prf): (Vec<u8>, Vec<u8>, Vec<u8>) = match self.keys.get(k) {
            None => {
                return Err(MycoError::KeyNotFound);
            },
            Some(t) => (
                crate::dtypes::copy_bytes(&t.0),
                crate::dtypes::copy_bytes(&t.1),
                crate::dtypes::copy_bytes(&t.2),
            ),
        };
        proof {
            let j = lemma_lookup_len(self.keys.0@, k@);
        }
        let epoch_bytes: Vec<u8> = u64_be_bytes(self.epoch as u64);
        let f: Vec<u8> = match prf(k_prf.as_slice(), epoch_bytes.as_slice()) {
            Ok(v) => v,
            Err(_) => {
                return Err(MycoError::LcaNotFound);
            },
        };
        let label: String = decimal_string(self.epoch as u64);
        let k_oblv_t: Vec<u8> = match kdf(k_oblv.as_slice(), label.as_str()) {
            Ok(v) => v,
            Err(_) => {
                return Err(MycoError::LcaNotFound);
            },
        };
        let ct: Vec<u8> = match encrypt(k_msg.as_slice(), msg, EncryptionType::Encrypt) {
            Ok(v) => v,
            Err(_) => {
                return Err(MycoError::LcaNotFound);
            },
        };
        let cs: Vec<u8> = self.id.as_str().as_bytes_vec();
        match s1.queue_write(ct, f, Key::new(k_oblv_t), cs) {
            Ok(_) => {
                proof {
                    if old(s1).pathset_indices@.contains(1usize) {
                    }
                }
                self.epoch = self.epoch + 1;
                Ok(())
            },
            Err(e) => {
                proof {
                    if old(s1).pathset_indices@.contains(1usize) {
                        SparseBinaryTree::<Bucket>::lemma_lca_exists(
                            old(s1).pt.packed_indices@,
                            derived_path(
                                old(s1).k_s1_t@,
                                prf_of(k_prf@, be_bytes_of(old(self).epoch as u64)),
                                vstd::utf8::encode_utf8(old(self).id@),
                            ),
                            D as int,
                        );
                    }
                }
                Err(e)
            },
        }
    }
}

/// A key found by lookup sits at some position of the table, so its
/// components inherit the table's well-formedness.
proof fn lemma_lookup_len(s: Seq<(Key, DerivedKeys)>, kb: Seq<u8>) -> (j: int)
    requires
        lookup(s, kb) is Some,
    ensures
        0 <= j < s.len(),
        (s[j].1.0@, s[j].1.1@, s[j].1.2@) == lookup(s, kb).unwrap(),
    decreases s.len(),
{
    if s.last().0@ == kb {
        s.len() - 1
    } else {
        let j = lemma_lookup_len(s.drop_last(), kb);
        assert(s.drop_last()[j] == s[j]);
        j
    }
}

/// The path a reader expects a write from epoch `read_epoch` to live on,
/// when reading `epoch_past` epochs back with the PRF key ring as
/// published: the writer's PRF tag and suffix, routed under the epoch key
/// the ring holds for that epoch.
pub open spec fn read_path(
    s2: Server2,
    k_prf: Seq<u8>,
    cs: Seq<u8>,
    read_epoch: u64,
    epoch_past: int,
) -> Seq<Direction> {
    derived_path(
        keys_bytes(s2.prf_keys@)[s2.prf_keys@.len() - 1 - epoch_past],
        prf_of(k_prf, be_bytes_of(read_epoch)),
        cs,
    )
}

impl Client {
    /// Reads the message written under `k` by the client named `cs`,
    /// `epoch_past` epochs back: fetches the expected path from the
    /// storage server and walks it, stripping both encryption layers.
    pub fn read(&self, k: &Key, cs: String, epoch_past: usize, s2: &Server2) -> (r: Result<
        Vec<u8>,
        MycoError,
    >)
        requires
            self.wf(),
            s2.wf(),
            epoch_past < self.epoch,
        ensures
            lookup(self.keys.0@, k@) is None ==> r == Err::<Vec<u8>, MycoError>(
                MycoError::KeyNotFound,
            ),
            lookup(self.keys.0@, k@) is Some && epoch_past >= s2.prf_keys@.len() ==> r == Err::<
                Vec<u8>,
                MycoError,
            >(MycoError::NoMessageFound),
            lookup(self.keys.0@, k@) matches Some(t) ==> epoch_past < s2.prf_keys@.len() ==> {
                let re = (self.epoch - 1 - epoch_past) as u64;
                let lp = read_path(*s2, t.2, vstd::utf8::encode_utf8(cs@), re, epoch_past as int);
                let kob = kdf_of(t.1, dec_chars(re as nat));
                &&& (r matches Ok(m) ==> tree_hit(*s2, lp, kob, t.0, m@))
                &&& (r matches Ok(m) ==> walk_first_hit(*s2, lp, kob, t.0, 0) == Some(m@))
                &&& (r is Err ==> r == Err::<Vec<u8>, MycoError>(MycoError::NoMessageFound)
                    && tree_clear(*s2, lp, kob, t.0) && walk_first_hit(*s2, lp, kob, t.0, 0)
                    is None)
            },
    {
        let (k_msg, k_oblv, k_prf): (Vec<u8>, Vec<u8>, Vec<u8>) = match self.keys.get(k) {
            None => {
                return Err(MycoError::KeyNotFound);
            },
            Some(t) => (
                crate::dtypes::copy_bytes(&t.0),
                crate::dtypes::copy_bytes(&t.1),
                crate::dtypes::copy_bytes(&t.2),
            ),
        };
        let read_epoch: usize = self.epoch - 1 - epoch_past;
        let label: String = decimal_string(read_epoch as u64);
        let k_oblv_t: Vec<u8> = match kdf(k_oblv.as_slice(), label.as_str()) {
            Ok(v) => v,
            Err(_) => {
                return Err(MycoError::KeyNotFound);
            },
        };
        let epoch_bytes: Vec<u8> = u64_be_bytes(read_epoch as u64);
        let f: Vec<u8> = match prf(k_prf.as_slice(), epoch_bytes.as_slice()) {
            Ok(v) => v,
            Err(_) => {
                return Err(MycoError::KeyNotFound);
            },
        };
        let server_keys: Vec<Key> = match s2.get_prf_keys() {
            Ok(v) => v,
            Err(_) => {
                return Err(MycoError::NoMessageFound);
            },
        };
        proof {
            assert(keys_bytes(server_keys@).len() == keys_bytes(s2.prf_keys@).len());
        }
        if epoch_past >= server_keys.len() {
            return Err(MycoError::NoMessageFound);
        }
        let k_s1_t: &Key = &server_keys[server_keys.len() - 1 - epoch_past];
        proof {
            assert(k_s1_t@ == keys_bytes(server_keys@)[server_keys@.len() - 1 - epoch_past]);
            assert(k_s1_t@ == keys_bytes(s2.prf_keys@)[s2.prf_keys@.len() - 1 - epoch_past as int]);
        }
        let cs_bytes: Vec<u8> = cs.as_str().as_bytes_vec();
        let input: Vec<u8> = crate::utils::concat_bytes(&f, &cs_bytes);
        let l: Vec<u8> = match prf(k_s1_t.0.as_slice(), input.as_slice()) {
            Ok(v) => v,
            Err(_) => {
                return Err(MycoError::NoMessageFound);
            },
        };
        let l_path: Path = Path::from_bytes(&l);
        let ghost lp = l_path@;
        let walk_path: Path = l_path.clone();
        let mut paths_vec: Vec<Path> = Vec::new();
        paths_vec.push(l_path);
        let ghost pvs = paths_vec@;
        let indices: Vec<usize> = get_path_indices(paths_vec);
        proof {
            lemma_indices_in_range(pvs, indices@);
        }
        let idx_fetch: Vec<usize> = copy_indices(&indices);
        let buckets: Vec<Bucket> = match s2.read_paths_client(idx_fetch) {
            Ok(v) => v,
            Err(_) => {
                return Err(MycoError::NoMessageFound);
            },
        };
        let st: SparseBinaryTree<Bucket> = SparseBinaryTree::new_with_data(buckets, indices);
        proof {
            assert forall|j: int| 0 <= j <= lp.len() implies st.packed_indices@.contains(
                node_index(#[trigger] lp.take(j)) as usize,
            ) by {
                assert(pvs[0]@ == lp);
                assert(crate::utils::in_path_index_set(pvs, node_index(lp.take(j)))) by {
                    if node_index(lp.take(j)) != 1 {
                        assert(0 <= 0 < pvs.len() && 0 <= j <= pvs[0]@.len() && node_index(
                            lp.take(j),
                        ) == node_index(pvs[0]@.take(j)));
                    }
                }
            }
        }
        let result: Option<Vec<u8>> = scan_path(&st, &walk_path, &k_oblv_t, &k_msg);
        proof {
            let re = (self.epoch - 1 - epoch_past) as u64;
            let lpx = read_path(*s2, k_prf@, vstd::utf8::encode_utf8(cs@), re, epoch_past as int);
            assert(lpx == lp);
            match &result {
                Some(m) => {
                    lemma_hit_translate(st, *s2, lp, k_oblv_t@, k_msg@, m@);
                },
                None => {
                    lemma_clear_translate(st, *s2, lp, k_oblv_t@, k_msg@);
                },
            }
            lemma_walk_translate(st, *s2, lp, k_oblv_t@, k_msg@, 0);
        }
        match result {
            Some(m) => Ok(m),
            None => Err(MycoError::NoMessageFound),
        }
    }

    /// Generates and queues a fake write: a uniform random tag, key, and
    /// ciphertext, each of the same length a real write sends (a 32-byte
    /// PRF tag, a 16-byte per-epoch key, a single-encryption ciphertext),
    /// so the coordinator cannot tell it from a real one.
    pub fn fake_write(&self, s1: &mut Server1) -> (r: Result<(), MycoError>)
        requires
            old(s1).wf(),
            old(s1).epoch + DELTA <= u64::MAX,
        ensures
            final(s1).wf(),
            final(s1).epoch == old(s1).epoch,
            final(s1).k_s1_t == old(s1).k_s1_t,
            final(s1).pathset_indices == old(s1).pathset_indices,
            final(s1).pt == old(s1).pt,
            final(s1).metadata_pt == old(s1).metadata_pt,
            final(s1).p == old(s1).p,
            final(s1).metadata == old(s1).metadata,
            old(s1).pathset_indices@.contains(1usize) ==> r is Ok,
            r matches Err(e) ==> e == MycoError::LcaNotFound,
            r is Err ==> final(s1).message_queue == old(s1).message_queue,
            r is Ok ==> exists|pos: int|
                #![trigger final(s1).message_queue@[pos]]
                {
                    &&& 0 <= pos < old(s1).message_queue@.len()
                    &&& final(s1).message_queue@[pos]@.len() == old(s1).message_queue@[pos]@.len()
                        + 1
                    &&& final(s1).message_queue@[pos]@.drop_last() == old(s1).message_queue@[pos]@
                    &&& final(s1).message_queue@[pos]@.last().ct@.len() == INNER_BLOCK_SIZE
                    &&& final(s1).message_queue@[pos]@.last().k_oblv_t@.len() == 16
                    &&& final(s1).message_queue@[pos]@.last().t_exp == old(s1).epoch + DELTA
                    &&& final(s1).message_queue@[pos]@.last().path@.len() == D
                    &&& forall|p2: int|
                        0 <= p2 < final(s1).message_queue@.len() && p2 != pos
                            ==> final(s1).message_queue@[p2] == old(s1).message_queue@[p2]
                },
    {
        let f: Vec<u8> = random_bytes(32);
        let k_oblv_t: Key = Key::random();
        let ct: Vec<u8> = random_bytes(INNER_BLOCK_SIZE);
        let cs: Vec<u8> = self.id.as_str().as_bytes_vec();
        let ghost fv = f@;
        let r = s1.queue_write(ct, f, k_oblv_t, cs);
        proof {
            if old(s1).pathset_indices@.contains(1usize) {
                SparseBinaryTree::<Bucket>::lemma_lca_exists(
                    old(s1).pt.packed_indices@,
                    derived_path(
                        old(s1).k_s1_t@,
                        fv,
                        vstd::utf8::encode_utf8(self.id@),
                    ),
                    D as int,
                );
            }
        }
        r
    }

    /// Performs a fake read: fetches the buckets along a uniformly random
    /// length-`D` path, root to leaf — the same query shape as a real
    /// single-key read, so the storage server cannot tell the two apart.
    pub fn fake_read(&self, s2: &Server2) -> (r: Vec<Bucket>)
        requires
            s2.wf(),
        ensures
            r@.len() == D + 1,
            exists|lp: Seq<Direction>|
                #![trigger lp.len()]
                lp.len() == D && forall|j: int|
                    0 <= j <= D ==> (#[trigger] r@[j]).bytes() == s2.tree_bucket(
                        node_index(lp.take(j)) as int,
                    ),
    {
        let path: Path = Path::random();
        let plen: usize = path.0.len();
        let mut indices: Vec<usize> = Vec::new();
        indices.push(1);
        let mut idx: usize = 1;
        proof {
            assert(path@.take(0) =~= Seq::<Direction>::empty());
        }
        for j in 0..plen
            invariant
                plen == path@.len(),
                plen == D,
                idx as nat == node_index(path@.take(j as int)),
                indices@.len() == j + 1,
                forall|jj: int|
                    0 <= jj <= j ==> #[trigger] indices@[jj] as nat == node_index(
                        path@.take(jj),
                    ),
                forall|jj: int| 0 <= jj <= j ==> 1 <= #[trigger] indices@[jj] < TREE_SLOTS,
        {
            proof {
                crate::tree::lemma_prefix_index_bound(path@, j as int);
            }
            let bit: u8 = path.0[j].to_bit();
            idx = 2 * idx + (bit as usize);
            proof {
                assert(path@.take(j + 1).drop_last() =~= path@.take(j as int));
                crate::tree::lemma_prefix_index_bound(path@, j + 1);
            }
            indices.push(idx);
        }
        let ghost lp = path@;
        let ghost idxs = indices@;
        match s2.read_paths_client(indices) {
            Ok(v) => {
                proof {
                    assert(lp.len() == D);
                    assert forall|j: int| 0 <= j <= D implies (#[trigger] v@[j]).bytes()
                        == s2.tree_bucket(node_index(lp.take(j)) as int) by {
                        assert(idxs[j] as nat == node_index(lp.take(j)));
                    }
                }
                v
            },
            Err(_) => {
                proof {
                    assert(false);
                }
                Vec::new()
            },
        }
    }
}

/// The derived query data for one read: the expected path and the two
/// decryption keys, as the client's table and the server's key ring
/// determine them.
pub open spec fn query_derived(
    c: Client,
    s2: Server2,
    cs: Seq<char>,
    epoch_past: int,
    k: Key,
    q: (Path, Vec<u8>, Vec<u8>),
) -> bool {
    lookup(c.keys.0@, k@) matches Some(t) && {
        let re = (c.epoch - 1 - epoch_past) as u64;
        &&& q.0@ == read_path(s2, t.2, vstd::utf8::encode_utf8(cs), re, epoch_past)
        &&& q.1@ == kdf_of(t.1, dec_chars(re as nat))
        &&& q.2@ == t.0
    }
}

/// One read query's answer is correct for the storage server's tree:
/// `Some(m)` exactly when `m` is the first block on the expected path, in
/// root-to-leaf order, that opens under both keys; `None` only when no
/// block on that path opens.
pub open spec fn query_answered(
    c: Client,
    s2: Server2,
    cs: Seq<char>,
    epoch_past: int,
    k: Key,
    ans: Option<Vec<u8>>,
) -> bool {
    lookup(c.keys.0@, k@) matches Some(t) && {
        let re = (c.epoch - 1 - epoch_past) as u64;
        let lp = read_path(s2, t.2, vstd::utf8::encode_utf8(cs), re, epoch_past);
        let kob = kdf_of(t.1, dec_chars(re as nat));
        match ans {
            Some(m) => tree_hit(s2, lp, kob, t.0, m@) && walk_first_hit(s2, lp, kob, t.0, 0)
                == Some(m@),
            None => tree_clear(s2, lp, kob, t.0),
        }
    }
}

impl Client {
    /// Reads a batch of queries in one fetch: derives each key's expected
    /// path, downloads the union of the paths, and walks each query's
    /// path separately.  The result has one slot per query, in order;
    /// a query whose message is absent yields `None`.
    pub fn read_batch(
        &self,
        keys: Vec<Key>,
        cs: String,
        epoch_past: usize,
        batch_size: usize,
        s2: &Server2,
    ) -> (r: Result<Vec<Option<Vec<u8>>>, MycoError>)
        requires
            self.wf(),
            s2.wf(),
            epoch_past < self.epoch,
        ensures
            keys@.len() != batch_size ==> r == Err::<Vec<Option<Vec<u8>>>, MycoError>(
                MycoError::InvalidBatchSize,
            ),
            keys@.len() == batch_size && epoch_past >= s2.prf_keys@.len() ==> r == Err::<
                Vec<Option<Vec<u8>>>,
                MycoError,
            >(MycoError::NoMessageFound),
            r matches Err(e) ==> (e == MycoError::InvalidBatchSize || e == MycoError::NoMessageFound
                || e == MycoError::KeyNotFound),
            keys@.len() == batch_size ==> r != Err::<Vec<Option<Vec<u8>>>, MycoError>(
                MycoError::InvalidBatchSize,
            ),
            keys@.len() == batch_size && epoch_past < s2.prf_keys@.len() && (forall|qi: int|
                0 <= qi < keys@.len() ==> lookup(self.keys.0@, (#[trigger] keys@[qi])@)
                    is Some) ==> r is Ok,
            r matches Ok(v) ==> v@.len() == keys@.len(),
            r matches Ok(v) ==> forall|qi: int|
                0 <= qi < keys@.len() ==> query_answered(
                    *self,
                    *s2,
                    cs@,
                    epoch_past as int,
                    #[trigger] keys@[qi],
                    v@[qi],
                ),
    {
        if keys.len() != batch_size {
            return Err(MycoError::InvalidBatchSize);
        }
        let server_keys: Vec<Key> = match s2.get_prf_keys() {
            Ok(v) => v,
            Err(_) => {
                return Err(MycoError::NoMessageFound);
            },
        };
        proof {
            assert(keys_bytes(server_keys@).len() == keys_bytes(s2.prf_keys@).len());
        }
        if epoch_past >= server_keys.len() {
            return Err(MycoError::NoMessageFound);
        }
        let k_s1_t: &Key = &server_keys[server_keys.len() - 1 - epoch_past];
        proof {
            assert(k_s1_t@ == keys_bytes(server_keys@)[server_keys@.len() - 1 - epoch_past]);
            assert(k_s1_t@ == keys_bytes(s2.prf_keys@)[s2.prf_keys@.len() - 1 - epoch_past as int]);
        }
        let read_epoch: usize = self.epoch - 1 - epoch_past;
        let label: String = decimal_string(read_epoch as u64);
        let epoch_bytes: Vec<u8> = u64_be_bytes(read_epoch as u64);
        let cs_bytes: Vec<u8> = cs.as_str().as_bytes_vec();
        let nq: usize = keys.len();
        let mut queries: Vec<(Path, Vec<u8>, Vec<u8>)> = Vec::new();
        let mut paths_vec: Vec<Path> = Vec::new();
        for qi in 0..nq
            invariant
                nq == keys@.len(),
                nq == batch_size,
                self.wf(),
                s2.wf(),
                epoch_past < self.epoch,
                epoch_past < s2.prf_keys@.len(),
                read_epoch == self.epoch - 1 - epoch_past,
                k_s1_t@ == keys_bytes(s2.prf_keys@)[s2.prf_keys@.len() - 1 - epoch_past as int],
                label@ == dec_chars(read_epoch as nat),
                epoch_bytes@ == be_bytes_of(read_epoch as u64),
                cs_bytes@ == vstd::utf8::encode_utf8(cs@),
                queries@.len() == qi,
                paths_vec@.len() == qi,
                forall|q: int|
                    0 <= q < qi ==> query_derived(
                        *self,
                        *s2,
                        cs@,
                        epoch_past as int,
                        #[trigger] keys@[q],
                        queries@[q],
                    ),
                forall|q: int| 0 <= q < qi ==> (#[trigger] paths_vec@[q])@ == queries@[q].0@,
                forall|q: int| 0 <= q < qi ==> (#[trigger] paths_vec@[q])@.len() == D,
        {
            let k: &Key = &keys[qi];
            let (k_msg, k_oblv, k_prf): (Vec<u8>, Vec<u8>, Vec<u8>) = match self.keys.get(k) {
                None => {
                    return Err(MycoError::KeyNotFound);
                },
                Some(t) => (
                    crate::dtypes::copy_bytes(&t.0),
                    crate::dtypes::copy_bytes(&t.1),
                    crate::dtypes::copy_bytes(&t.2),
                ),
            };
            let k_oblv_t: Vec<u8> = match kdf(k_oblv.as_slice(), label.as_str()) {
                Ok(v) => v,
                Err(_) => {
                    return Err(MycoError::KeyNotFound);
                },
            };
            let f: Vec<u8> = match prf(k_prf.as_slice(), epoch_bytes.as_slice()) {
                Ok(v) => v,
                Err(_) => {
                    return Err(MycoError::KeyNotFound);
                },
            };
            let input: Vec<u8> = crate::utils::concat_bytes(&f, &cs_bytes);
            let l: Vec<u8> = match prf(k_s1_t.0.as_slice(), input.as_slice()) {
                Ok(v) => v,
                Err(_) => {
                    return Err(MycoError::KeyNotFound);
                },
            };
            let l_path: Path = Path::from_bytes(&l);
            paths_vec.push(l_path.clone());
            queries.push((l_path, k_oblv_t, k_msg));
            proof {
                assert(query_derived(
                    *self,
                    *s2,
                    cs@,
                    epoch_past as int,
                    keys@[qi as int],
                    queries@[qi as int],
                ));
            }
        }
        let ghost pvs = paths_vec@;
        let indices: Vec<usize> = get_path_indices(paths_vec);
        proof {
            lemma_indices_in_range(pvs, indices@);
            assert forall|q: int| 0 <= q < nq implies (#[trigger] queries@[q]).0@.len() == D by {
                assert(pvs[q]@ == queries@[q].0@);
            }
        }
        let idx_fetch: Vec<usize> = copy_indices(&indices);
        let buckets: Vec<Bucket> = match s2.read_paths_client(idx_fetch) {
            Ok(v) => v,
            Err(_) => {
                return Err(MycoError::NoMessageFound);
            },
        };
        let st: SparseBinaryTree<Bucket> = SparseBinaryTree::new_with_data(buckets, indices);
        proof {
            assert forall|q: int, j: int|
                #![trigger queries@[q].0@.take(j)]
                0 <= q < nq && 0 <= j <= queries@[q].0@.len() implies st.packed_indices@.contains(
                node_index(queries@[q].0@.take(j)) as usize,
            ) by {
                assert(pvs[q]@ == queries@[q].0@);
                assert(crate::utils::in_path_index_set(
                    pvs,
                    node_index(queries@[q].0@.take(j)),
                )) by {
                    if node_index(queries@[q].0@.take(j)) != 1 {
                        assert(0 <= q < pvs.len() && 0 <= j <= pvs[q]@.len() && node_index(
                            queries@[q].0@.take(j),
                        ) == node_index(pvs[q]@.take(j)));
                    }
                }
            }
        }
        let mut out: Vec<Option<Vec<u8>>> = Vec::new();
        for qi in 0..nq
            invariant
                nq == keys@.len(),
                nq == queries@.len(),
                st.wf(),
                forall|q: int|
                    0 <= q < nq ==> query_derived(
                        *self,
                        *s2,
                        cs@,
                        epoch_past as int,
                        #[trigger] keys@[q],
                        queries@[q],
                    ),
                forall|q: int| 0 <= q < nq ==> (#[trigger] queries@[q]).0@.len() == D,
                forall|pos: int|
                    0 <= pos < st.packed_buckets@.len() ==> (
                    #[trigger] st.packed_buckets@[pos]).bytes() == s2.tree_bucket(
                        st.packed_indices@[pos] as int,
                    ),
                forall|q: int, j: int|
                    #![trigger queries@[q].0@.take(j)]
                    0 <= q < nq && 0 <= j <= queries@[q].0@.len() ==> st.packed_indices@.contains(
                        node_index(queries@[q].0@.take(j)) as usize,
                    ),
                out@.len() == qi,
                forall|q: int|
                    0 <= q < qi ==> query_answered(
                        *self,
                        *s2,
                        cs@,
                        epoch_past as int,
                        #[trigger] keys@[q],
                        out@[q],
                    ),
        {
            let query: &(Path, Vec<u8>, Vec<u8>) = &queries[qi];
            let result: Option<Vec<u8>> = scan_path(&st, &query.0, &query.1, &query.2);
            proof {
                let lp = queries@[qi as int].0@;
                match &result {
                    Some(m) => {
                        lemma_hit_translate(
                            st,
                            *s2,
                            lp,
                            queries@[qi as int].1@,
                            queries@[qi as int].2@,
                            m@,
                        );
                        lemma_walk_translate(
                            st,
                            *s2,
                            lp,
                            queries@[qi as int].1@,
                            queries@[qi as int].2@,
                            0,
                        );
                    },
                    None => {
                        lemma_clear_translate(st, *s2, lp, queries@[qi as int].1@, queries@[
                            qi as int].2@);
                    },
                }
            }
            out.push(result);
            proof {
                assert(query_answered(
                    *self,
                    *s2,
                    cs@,
                    epoch_past as int,
                    keys@[qi as int],
                    out@[qi as int],
                ));
            }
        }
        Ok(out)
    }
}

} // verus!
