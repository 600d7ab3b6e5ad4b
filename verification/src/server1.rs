//! The write coordinator: per-epoch batch initialisation, write queueing,
//! and the oblivious batch write with bucket eviction, padding to the
//! fixed capacity `Z`, and the metadata shadow tree.

use vstd::prelude::*;

use crate::constants::{
    BLOCK_SIZE, D, DELTA, INNER_BLOCK_SIZE, MAX_BLOCK_BYTES, NONCE_SIZE, NU, TAG_SIZE, TREE_SLOTS,
    Z,
};
use crate::crypto::{dec_of, decrypt, encrypt, prf, prf_of, random_bytes, shuffle_seeded, EncryptionType};
use crate::dtypes::{
    bucket_blocks_ok, entry_view, node_index, unpack_bits, Block, Bucket, Direction, Key, Metadata,
    Path, Timestamp,
};
use crate::error::MycoError;
use crate::server2::Server2;
use crate::tree::{BinaryTree, SparseBinaryTree};
use vstd::multiset::Multiset;
use vstd::pervasive::VecAdditionalExecFns;
use crate::utils::{concat_bytes, copy_indices, get_path_indices, in_path_index_set, pad_spec};

verus! {

/// One message waiting to be installed by the next batch write: the
/// (outer-layer) ciphertext, the per-epoch oblivious key, the expiry
/// epoch, and the intended destination path.
#[derive(Debug)]
pub struct QueueEntry {
    /// The ciphertext to be wrapped in the oblivious layer.
    pub ct: Vec<u8>,
    /// The per-epoch oblivious key the wrapping uses.
    pub k_oblv_t: Key,
    /// The epoch at which the message expires.
    pub t_exp: Timestamp,
    /// The destination path derived from the epoch PRF.
    pub path: Path,
}

/// What every queued message satisfies: a 16-byte oblivious key, a
/// ciphertext within the machine block cap, a path that fits the tree,
/// and a non-zero expiry.
pub open spec fn entry_ok(e: QueueEntry) -> bool {
    &&& e.k_oblv_t@.len() == 16
    &&& e.ct@.len() + NONCE_SIZE + TAG_SIZE <= MAX_BLOCK_BYTES
    &&& e.path@.len() <= D
    &&& e.t_exp != 0
}

/// Every entry of a queue row is well-formed.
pub open spec fn row_ok(row: Seq<QueueEntry>) -> bool {
    forall|j: int| 0 <= j < row.len() ==> entry_ok(#[trigger] row[j])
}

/// What every metadata entry at rest satisfies: a live entry (non-zero
/// expiry) carries a 16-byte key, and its path fits the tree.
pub open spec fn meta_entry_ok(e: (Path, Key, Timestamp)) -> bool {
    &&& e.2 != 0 ==> e.1@.len() == 16
    &&& e.0@.len() <= D
}

/// Every entry of a metadata bucket is well-formed.
pub open spec fn meta_ok(m: Metadata) -> bool {
    forall|b: int| 0 <= b < m@.len() ==> meta_entry_ok(#[trigger] m@[b])
}

/// The path a write is routed to: the first `D` bits of
/// `PRF(k, f ∥ cs)`.
pub open spec fn derived_path(k: Seq<u8>, f: Seq<u8>, cs: Seq<u8>) -> Seq<Direction> {
    unpack_bits(prf_of(k, f + cs), D as int)
}

/// The block/metadata pairs a bucket and its shadow hold, by position.
pub open spec fn zip_pairs(b: Bucket, m: Metadata) -> Seq<(Block, (Path, Key, Timestamp))> {
    Seq::new(vstd::math::min(b@.len() as int, m@.len() as int) as nat, |i: int| (b@[i], m@[i]))
}

/// Whether a block/metadata pair is sound: either a padding pair (zero
/// expiry, empty key, a block of exactly `BLOCK_SIZE` random bytes) or a
/// live pair whose block decrypts under the key stored beside it.
pub open spec fn pair_sound(pr: (Block, (Path, Key, Timestamp))) -> bool {
    if pr.1.2 == 0 {
        pr.1.1@.len() == 0 && pr.0@.len() == BLOCK_SIZE
    } else {
        pr.1.1@.len() == 16 && dec_of(pr.1.1@, pr.0@) is Some
    }
}

/// The write coordinator.
pub struct Server1 {
    /// The current epoch.
    pub epoch: u64,
    /// The key used to derive this epoch's write paths.
    pub k_s1_t: Key,
    /// The number of clients in the batch in progress.
    pub num_clients: usize,
    /// This epoch's working tree, read from the storage server.
    pub p: SparseBinaryTree<Bucket>,
    /// The tree of buckets being built for this epoch.
    pub pt: SparseBinaryTree<Bucket>,
    /// The shadow tree of metadata being built for this epoch.
    pub metadata_pt: SparseBinaryTree<Metadata>,
    /// The persistent dense metadata tree.
    pub metadata: BinaryTree<Metadata>,
    /// This epoch's path-set indices.
    pub pathset_indices: Vec<usize>,
    /// Queued writes, one row per packed path-set position.
    pub message_queue: Vec<Vec<QueueEntry>>,
}

impl Server1 {
    /// The structural invariant: the three sparse trees and the queue are
    /// parallel to the path-set, queued entries and metadata at rest are
    /// well-formed, and the working buckets respect the capacity `Z`.
    pub open spec fn wf(&self) -> bool {
        &&& self.pt.wf()
        &&& self.metadata_pt.wf()
        &&& self.p.wf()
        &&& self.pt.packed_indices@ == self.pathset_indices@
        &&& self.metadata_pt.packed_indices@ == self.pathset_indices@
        &&& self.p.packed_indices@ == self.pathset_indices@
        &&& self.message_queue@.len() == self.pathset_indices@.len()
        &&& forall|pos: int|
            0 <= pos < self.message_queue@.len() ==> row_ok(
                (#[trigger] self.message_queue@[pos])@,
            )
        &&& forall|pos: int|
            0 <= pos < self.p.packed_buckets@.len() ==> (#[trigger] self.p.packed_buckets@[pos])@.len()
                <= Z
        &&& forall|pos: int|
            0 <= pos < self.p.packed_buckets@.len() ==> bucket_blocks_ok(
                #[trigger] self.p.packed_buckets@[pos],
            )
        &&& self.metadata.value@.len() == TREE_SLOTS
        &&& forall|i: int|
            0 <= i < TREE_SLOTS ==> ((#[trigger] self.metadata.value@[i]) matches Some(m)
                ==> meta_ok(m))
    }

    /// A fresh coordinator with no epoch in progress.
    pub fn new() -> (r: Self)
        ensures
            r.wf(),
            r.epoch == 0,
            r.num_clients == 0,
            r.pathset_indices@.len() == 0,
            forall|i: int| 0 <= i < TREE_SLOTS ==> r.metadata.value@[i] is None,
    {
        let r = Server1 {
            epoch: 0,
            k_s1_t: Key::new(Vec::new()),
            num_clients: 0,
            p: SparseBinaryTree::new(),
            pt: SparseBinaryTree::new(),
            metadata_pt: SparseBinaryTree::new(),
            metadata: BinaryTree::new_with_depth(D),
            pathset_indices: Vec::new(),
            message_queue: Vec::new(),
        };
        proof {
            assert(r.pt.packed_indices@ =~= r.pathset_indices@);
            assert(r.metadata_pt.packed_indices@ =~= r.pathset_indices@);
            assert(r.p.packed_indices@ =~= r.pathset_indices@);
        }
        r
    }

    /// Starts a new epoch: samples `NU · num_clients` random paths, reads
    /// their buckets from the storage server into the working tree `p`,
    /// allocates the empty shadow trees and queue, and draws a fresh
    /// epoch key.
    pub fn batch_init(&mut self, s2: &mut Server2, num_clients: usize)
        requires
            old(self).wf(),
            old(s2).wf(),
        ensures
            final(self).wf(),
            final(s2).wf(),
            final(self).epoch == old(self).epoch,
            final(self).metadata == old(self).metadata,
            final(self).num_clients == num_clients,
            final(self).k_s1_t@.len() == 16,
            final(s2).tree == old(s2).tree,
            final(s2).epoch == old(s2).epoch,
            final(s2).prf_keys == old(s2).prf_keys,
            final(s2).pathset_indices@ == final(self).pathset_indices@,
            final(self).pathset_indices@.contains(1usize),
            forall|pos: int|
                0 <= pos < final(self).pt.packed_buckets@.len() ==> (#[trigger] final(self).pt.packed_buckets@[pos])@.len() == 0,
            forall|pos: int|
                0 <= pos < final(self).metadata_pt.packed_buckets@.len() ==> (#[trigger] final(self).metadata_pt.packed_buckets@[pos])@.len() == 0,
            forall|pos: int|
                0 <= pos < final(self).message_queue@.len() ==> (#[trigger] final(self).message_queue@[pos])@.len() == 0,
            forall|pos: int|
                0 <= pos < final(self).p.packed_buckets@.len() ==> (#[trigger] final(self).p.packed_buckets@[pos]).bytes() == final(s2).tree_bucket(
                    final(self).pathset_indices@[pos] as int,
                ),
            num_clients == 0 ==> final(self).pathset_indices@ == seq![1usize],
    {
        let count: usize = NU * num_clients;
        let mut paths: Vec<Path> = Vec::new();
        for _i in 0..count
            invariant
                paths@.len() == _i,
                forall|p: int| 0 <= p < _i ==> (#[trigger] paths@[p])@.len() == D,
        {
            paths.push(Path::random());
        }
        let ghost paths_view = paths@;
        let indices: Vec<usize> = get_path_indices(paths);
        proof {
            assert forall|k: int|
                0 <= k < indices@.len() implies 1 <= #[trigger] indices@[k] < TREE_SLOTS by {
                let n = indices@[k] as nat;
                assert(in_path_index_set(paths_view, n));
                if n != 1 {
                    let (pi, j) = choose|pi: int, j: int|
                        0 <= pi < paths_view.len() && 0 <= j <= paths_view[pi]@.len() && n
                            == node_index(paths_view[pi]@.take(j));
                    crate::tree::lemma_prefix_index_bound(paths_view[pi]@, j);
                }
            }
            if num_clients == 0 {
                assert(indices@.len() <= 1) by {
                    if indices@.len() >= 2 {
                        assert(in_path_index_set(paths_view, indices@[0] as nat));
                        assert(in_path_index_set(paths_view, indices@[1] as nat));
                        assert(indices@[0] == 1usize && indices@[1] == 1usize);
                    }
                }
                assert(indices@.contains(1usize));
                let k = choose|k: int| 0 <= k < indices@.len() && indices@[k] == 1usize;
                assert(indices@ =~= seq![1usize]);
            }
        }
        let own_indices: Vec<usize> = copy_indices(&indices);
        let buckets: Vec<Bucket> = match s2.read_and_store_path_indices(indices) {
            Ok(v) => v,
            Err(e) => {
                proof {
                    assert(false);
                }
                Vec::new()
            },
        };
        let n: usize = buckets.len();
        let mut empty_buckets: Vec<Bucket> = Vec::new();
        let mut empty_metadata: Vec<Metadata> = Vec::new();
        let mut queue: Vec<Vec<QueueEntry>> = Vec::new();
        for _i in 0..n
            invariant
                empty_buckets@.len() == _i,
                empty_metadata@.len() == _i,
                queue@.len() == _i,
                forall|p: int| 0 <= p < _i ==> (#[trigger] empty_buckets@[p])@.len() == 0,
                forall|p: int| 0 <= p < _i ==> (#[trigger] empty_metadata@[p])@.len() == 0,
                forall|p: int| 0 <= p < _i ==> (#[trigger] queue@[p])@.len() == 0,
        {
            empty_buckets.push(Bucket::new_empty());
            empty_metadata.push(Metadata::new_empty());
            queue.push(Vec::new());
        }
        self.p = SparseBinaryTree::new_with_data(buckets, copy_indices(&own_indices));
        self.pt = SparseBinaryTree::new_with_data(empty_buckets, copy_indices(&own_indices));
        self.metadata_pt = SparseBinaryTree::new_with_data(
            empty_metadata,
            copy_indices(&own_indices),
        );
        self.pathset_indices = own_indices;
        self.message_queue = queue;
        self.num_clients = num_clients;
        self.k_s1_t = Key::random();
    }

    /// Queues one write: derives the destination path from
    /// `PRF(k_{S1,t}, f ∥ cs)`, finds its lowest ancestor in the epoch's
    /// path-set, and appends the message there.  Fails with `LcaNotFound`
    /// only when the path-set is empty (no epoch in progress).
    pub fn queue_write(&mut self, ct: Vec<u8>, f: Vec<u8>, k_oblv_t: Key, cs: Vec<u8>) -> (r:
        Result<(), MycoError>)
        requires
            old(self).wf(),
            k_oblv_t@.len() == 16,
            ct@.len() + NONCE_SIZE + TAG_SIZE <= MAX_BLOCK_BYTES,
            old(self).epoch + DELTA <= u64::MAX,
        ensures
            final(self).wf(),
            final(self).epoch == old(self).epoch,
            final(self).k_s1_t == old(self).k_s1_t,
            final(self).num_clients == old(self).num_clients,
            final(self).pathset_indices == old(self).pathset_indices,
            final(self).pt == old(self).pt,
            final(self).metadata_pt == old(self).metadata_pt,
            final(self).p == old(self).p,
            final(self).metadata == old(self).metadata,
            r is Ok <==> SparseBinaryTree::<Bucket>::lca_len(
                old(self).pt.packed_indices@,
                derived_path(old(self).k_s1_t@, f@, cs@),
                D as int,
            ) is Some,
            r matches Err(e) ==> e == MycoError::LcaNotFound,
            r matches Err(e) ==> final(self).message_queue == old(self).message_queue,
            r is Ok ==> exists|pos: int|
                #![trigger final(self).message_queue@[pos]]
                {
                    &&& 0 <= pos < old(self).message_queue@.len()
                    &&& old(self).pathset_indices@[pos] as nat == node_index(
                        derived_path(old(self).k_s1_t@, f@, cs@).take(
                            SparseBinaryTree::<Bucket>::lca_len(
                                old(self).pt.packed_indices@,
                                derived_path(old(self).k_s1_t@, f@, cs@),
                                D as int,
                            ).unwrap(),
                        ),
                    )
                    &&& final(self).message_queue@[pos]@.len() == old(self).message_queue@[pos]@.len() + 1
                    &&& final(self).message_queue@[pos]@.drop_last() == old(self).message_queue@[pos]@
                    &&& final(self).message_queue@[pos]@.last().ct@ == ct@
                    &&& final(self).message_queue@[pos]@.last().k_oblv_t@ == k_oblv_t@
                    &&& final(self).message_queue@[pos]@.last().t_exp == old(self).epoch + DELTA
                    &&& final(self).message_queue@[pos]@.last().path@ == derived_path(
                        old(self).k_s1_t@,
                        f@,
                        cs@,
                    )
                    &&& forall|p2: int|
                        0 <= p2 < final(self).message_queue@.len() && p2 != pos ==> final(self).message_queue@[p2] == old(self).message_queue@[p2]
                },
    {
        let t_exp: u64 = self.epoch + DELTA as u64;
        let input: Vec<u8> = concat_bytes(&f, &cs);
        let l: Vec<u8> = match prf(self.k_s1_t.0.as_slice(), input.as_slice()) {
            Ok(v) => v,
            Err(e) => {
                return Err(MycoError::LcaNotFound);
            },
        };
        let path: Path = Path::from_bytes(&l);
        proof {
            assert(path@ == derived_path(self.k_s1_t@, f@, cs@));
        }
        match self.pt.lca_idx(&path) {
            None => Err(MycoError::LcaNotFound),
            Some((pos, _idx)) => {
                let entry = QueueEntry { ct, k_oblv_t, t_exp, path };
                let ghost old_row = self.message_queue@[pos as int]@;
                let mut row: Vec<QueueEntry> = Vec::new();
                self.message_queue.set_and_swap(pos, &mut row);
                row.push(entry);
                self.message_queue.set_and_swap(pos, &mut row);
                proof {
                    assert(self.message_queue@[pos as int]@.drop_last() =~= old_row);
                }
                Ok(())
            },
        }
    }
}

/// What the builder guarantees of one finished bucket and its shadow,
/// given the queued entries it was built from and the bucket's own path
/// (used for padding metadata).
pub open spec fn built_ok(
    entries: Seq<QueueEntry>,
    path: Seq<Direction>,
    b: Bucket,
    m: Metadata,
) -> bool {
    &&& b@.len() == Z
    &&& m@.len() == Z
    &&& meta_ok(m)
    &&& bucket_blocks_ok(b)
    &&& exists|built: Seq<(Block, (Path, Key, Timestamp))>| built_witness(entries, path, b, m, built)
}

/// The pre-shuffle pair list `built` explains the finished pair list: the
/// first `entries.len()` pairs wrap the queued messages in order, the rest
/// are padding, and the finished bucket/shadow hold exactly a permutation
/// of `built`.
pub open spec fn built_witness(
    entries: Seq<QueueEntry>,
    path: Seq<Direction>,
    b: Bucket,
    m: Metadata,
    built: Seq<(Block, (Path, Key, Timestamp))>,
) -> bool {
    &&& built.len() == Z
    &&& entries.len() <= Z
    &&& forall|j: int| 0 <= j < entries.len() ==> (#[trigger] built[j]).1.0@ == entries[j].path@
    &&& forall|j: int|
        0 <= j < entries.len() ==> (#[trigger] built[j]).1.1@ == entries[j].k_oblv_t@
    &&& forall|j: int| 0 <= j < entries.len() ==> (#[trigger] built[j]).1.2 == entries[j].t_exp
    &&& forall|j: int|
        0 <= j < entries.len() ==> dec_of(entries[j].k_oblv_t@, (#[trigger] built[j]).0@) == Some(
            pad_spec(entries[j].ct@, INNER_BLOCK_SIZE as int),
        )
    &&& forall|j: int| entries.len() <= j < Z ==> (#[trigger] built[j]).1.0@ == path
    &&& forall|j: int| entries.len() <= j < Z ==> (#[trigger] built[j]).1.1@.len() == 0
    &&& forall|j: int| entries.len() <= j < Z ==> (#[trigger] built[j]).1.2 == 0
    &&& forall|j: int| entries.len() <= j < Z ==> (#[trigger] built[j]).0@.len() == BLOCK_SIZE
    &&& zip_pairs(b, m).to_multiset() == built.to_multiset()
}

/// A queued message is present in a bucket/shadow pair: some position
/// holds its metadata beside a block that decrypts, under the entry's
/// oblivious key, to the entry's (padded) ciphertext.
pub open spec fn entry_lands(e: QueueEntry, b: Bucket, m: Metadata) -> bool {
    exists|i: int|
        0 <= i < zip_pairs(b, m).len() && pair_matches_entry(#[trigger] zip_pairs(b, m)[i], e)
}

/// Whether a block/metadata pair carries exactly the queued message `e`.
pub open spec fn pair_matches_entry(pr: (Block, (Path, Key, Timestamp)), e: QueueEntry) -> bool {
    &&& pr.1.0@ == e.path@
    &&& pr.1.1@ == e.k_oblv_t@
    &&& pr.1.2 == e.t_exp
    &&& dec_of(e.k_oblv_t@, pr.0@) == Some(pad_spec(e.ct@, INNER_BLOCK_SIZE as int))
}

/// Multiset-equal sequences contain each other's elements.
proof fn lemma_ms_eq_contains<A>(s1: Seq<A>, s2: Seq<A>)
    requires
        s1.to_multiset() == s2.to_multiset(),
    ensures
        forall|i: int| 0 <= i < s1.len() ==> s2.contains(#[trigger] s1[i]),
{
    broadcast use vstd::seq_lib::group_to_multiset_ensures;

    assert forall|i: int| 0 <= i < s1.len() implies s2.contains(#[trigger] s1[i]) by {
        assert(s1.contains(s1[i]));
        assert(s1.to_multiset().count(s1[i]) > 0);
    }
}

/// From a finished bucket and shadow: every pair is sound (padding or
/// decryptable under its own key), and every queued entry landed.
pub proof fn lemma_built_sound(
    entries: Seq<QueueEntry>,
    path: Seq<Direction>,
    b: Bucket,
    m: Metadata,
)
    requires
        built_ok(entries, path, b, m),
        row_ok(entries),
    ensures
        forall|i: int| 0 <= i < zip_pairs(b, m).len() ==> pair_sound(#[trigger] zip_pairs(b, m)[i]),
        forall|j: int| 0 <= j < entries.len() ==> entry_lands(#[trigger] entries[j], b, m),
{
    let built = choose|built: Seq<(Block, (Path, Key, Timestamp))>|
        built_witness(entries, path, b, m, built);
    lemma_ms_eq_contains(zip_pairs(b, m), built);
    lemma_ms_eq_contains(built, zip_pairs(b, m));
    assert forall|i: int| 0 <= i < zip_pairs(b, m).len() implies pair_sound(
        #[trigger] zip_pairs(b, m)[i],
    ) by {
        let pr = zip_pairs(b, m)[i];
        assert(built.contains(pr));
        let j = choose|j: int| 0 <= j < built.len() && built[j] == pr;
        if j < entries.len() {
            assert(entry_ok(entries[j]));
        }
    }
    assert forall|j: int| 0 <= j < entries.len() implies entry_lands(
        #[trigger] entries[j],
        b,
        m,
    ) by {
        assert(zip_pairs(b, m).contains(built[j]));
        let i = choose|i: int| 0 <= i < zip_pairs(b, m).len() && zip_pairs(b, m)[i] == built[j];
        assert(pair_matches_entry(zip_pairs(b, m)[i], entries[j]));
    }
}

/// A node index is at least `2^depth`, so a bounded index bounds the
/// path's length.
pub proof fn lemma_node_index_lower(p: Seq<Direction>)
    ensures
        node_index(p) >= vstd::arithmetic::power2::pow2(p.len()),
    decreases p.len(),
{
    if p.len() == 0 {
        vstd::arithmetic::power2::lemma2_to64();
    } else {
        vstd::arithmetic::power2::lemma_pow2_unfold(p.len());
        lemma_node_index_lower(p.drop_last());
    }
}

impl Server1 {
    /// Builds one epoch bucket and its shadow from the queued entries:
    /// wraps every message in the oblivious layer, pads with random
    /// blocks (shadowed by zero-expiry metadata naming the bucket's own
    /// path) to exactly `Z` pairs, and shuffles blocks and metadata as
    /// one list so they stay aligned.  Fails exactly when more than `Z`
    /// messages were queued for this bucket.
    fn build_bucket(entries: &Vec<QueueEntry>, path: &Path, seed: &Vec<u8>) -> (r: Result<
        (Bucket, Metadata),
        MycoError,
    >)
        requires
            seed@.len() == 32,
            row_ok(entries@),
            path@.len() <= D,
        ensures
            r is Ok <==> entries@.len() <= Z,
            r matches Err(e) ==> e == MycoError::BucketOverflow,
            r matches Ok(bm) ==> built_ok(entries@, path@, bm.0, bm.1),
    {
        let n: usize = entries.len();
        if n > Z {
            return Err(MycoError::BucketOverflow);
        }
        let mut pairs: Vec<(Block, (Path, Key, Timestamp))> = Vec::new();
        for j in 0..n
            invariant
                n == entries@.len(),
                n <= Z,
                row_ok(entries@),
                pairs@.len() == j,
                forall|k: int| 0 <= k < j ==> (#[trigger] pairs@[k]).1.0@ == entries@[k].path@,
                forall|k: int|
                    0 <= k < j ==> (#[trigger] pairs@[k]).1.1@ == entries@[k].k_oblv_t@,
                forall|k: int| 0 <= k < j ==> (#[trigger] pairs@[k]).1.2 == entries@[k].t_exp,
                forall|k: int|
                    0 <= k < j ==> dec_of(entries@[k].k_oblv_t@, (#[trigger] pairs@[k]).0@)
                        == Some(pad_spec(entries@[k].ct@, INNER_BLOCK_SIZE as int)),
                forall|k: int|
                    0 <= k < j ==> (#[trigger] pairs@[k]).0@.len() <= MAX_BLOCK_BYTES,
        {
            let e: &QueueEntry = &entries[j];
            proof {
                assert(entry_ok(entries@[j as int]));
            }
            let c: Vec<u8> = match encrypt(
                e.k_oblv_t.0.as_slice(),
                e.ct.as_slice(),
                EncryptionType::DoubleEncrypt,
            ) {
                Ok(c) => c,
                Err(err) => {
                    return Err(err);
                },
            };
            let pr = (Block::new(c), (e.path.clone(), e.k_oblv_t.clone(), e.t_exp));
            pairs.push(pr);
            proof {
                assert(pairs@[j as int] == pr);
            }
        }
        // Dummy encryptions against an all-zero key and block pad the work
        // to exactly `Z` cipher operations for this bucket, mirroring
        // the dummy decryptions of the re-enqueue phase.
        let mut done: usize = n;
        while done < Z
            invariant
                done <= Z,
            decreases Z - done,
        {
            let zk: Vec<u8> = crate::utils::zero_bytes(16);
            let zb: Vec<u8> = crate::utils::zero_bytes(BLOCK_SIZE);
            let _ = encrypt(zk.as_slice(), zb.as_slice(), EncryptionType::DoubleEncrypt);
            done = done + 1;
        }
        while pairs.len() < Z
            invariant
                n == entries@.len(),
                n <= Z,
                row_ok(entries@),
                n <= pairs@.len() <= Z,
                path@.len() <= D,
                forall|k: int| 0 <= k < n ==> (#[trigger] pairs@[k]).1.0@ == entries@[k].path@,
                forall|k: int|
                    0 <= k < n ==> (#[trigger] pairs@[k]).1.1@ == entries@[k].k_oblv_t@,
                forall|k: int| 0 <= k < n ==> (#[trigger] pairs@[k]).1.2 == entries@[k].t_exp,
                forall|k: int|
                    0 <= k < n ==> dec_of(entries@[k].k_oblv_t@, (#[trigger] pairs@[k]).0@)
                        == Some(pad_spec(entries@[k].ct@, INNER_BLOCK_SIZE as int)),
                forall|k: int|
                    0 <= k < n ==> (#[trigger] pairs@[k]).0@.len() <= MAX_BLOCK_BYTES,
                forall|k: int| n <= k < pairs@.len() ==> (#[trigger] pairs@[k]).1.0@ == path@,
                forall|k: int| n <= k < pairs@.len() ==> (#[trigger] pairs@[k]).1.1@.len() == 0,
                forall|k: int| n <= k < pairs@.len() ==> (#[trigger] pairs@[k]).1.2 == 0,
                forall|k: int|
                    n <= k < pairs@.len() ==> (#[trigger] pairs@[k]).0@.len() == BLOCK_SIZE,
            decreases Z - pairs.len(),
        {
            let ghost jnew = pairs@.len();
            let pr = (Block::new_random(), (path.clone(), Key::new(Vec::new()), 0u64));
            pairs.push(pr);
            proof {
                assert(pairs@[jnew as int] == pr);
            }
        }
        let ghost built = pairs@;
        shuffle_seeded(&mut pairs, seed);
        proof {
            broadcast use vstd::seq_lib::group_to_multiset_ensures;

            assert(pairs@.to_multiset().len() == pairs@.len());
            assert(built.to_multiset().len() == built.len());
        }
        let mut blocks: Vec<Block> = Vec::new();
        let mut metas: Vec<(Path, Key, Timestamp)> = Vec::new();
        proof {
            broadcast use vstd::seq_lib::group_to_multiset_ensures;

            assert(Seq::new(0, |i: int| (blocks@[i], metas@[i])).to_multiset() =~= Multiset::<(
                Block,
                (Path, Key, Timestamp),
            )>::empty());
            assert(Multiset::<(Block, (Path, Key, Timestamp))>::empty().add(pairs@.to_multiset())
                =~= pairs@.to_multiset());
        }
        while pairs.len() > 0
            invariant
                blocks@.len() == metas@.len(),
                blocks@.len() + pairs@.len() == Z,
                Seq::new(blocks@.len() as nat, |i: int| (blocks@[i], metas@[i])).to_multiset().add(
                    pairs@.to_multiset(),
                ) == built.to_multiset(),
            decreases pairs.len(),
        {
            let ghost pairs0 = pairs@;
            let ghost zip0 = Seq::new(blocks@.len() as nat, |i: int| (blocks@[i], metas@[i]));
            let pr = match pairs.pop() {
                Some(pr) => pr,
                None => {
                    proof {
                        assert(false);
                    }
                    (Block::new(Vec::new()), (Path(Vec::new()), Key::new(Vec::new()), 0u64))
                },
            };
            blocks.push(pr.0);
            metas.push(pr.1);
            proof {
                broadcast use vstd::seq_lib::group_to_multiset_ensures;

                let zip1 = Seq::new(blocks@.len() as nat, |i: int| (blocks@[i], metas@[i]));
                assert(zip1 =~= zip0.push((pr.0, pr.1)));
                assert((pr.0, pr.1) == pr);
                assert(pairs0 =~= pairs@.push(pr));
                assert(pairs0.to_multiset() == pairs@.to_multiset().insert(pr));
                assert(zip1.to_multiset() == zip0.to_multiset().insert(pr));
                assert(zip1.to_multiset().add(pairs@.to_multiset()) =~= zip0.to_multiset().add(
                    pairs0.to_multiset(),
                ));
            }
        }
        let b = Bucket(blocks);
        let m = Metadata(metas);
        proof {
            broadcast use vstd::seq_lib::group_to_multiset_ensures;

            assert(zip_pairs(b, m) =~= Seq::new(
                b.0@.len() as nat,
                |i: int| (b.0@[i], m.0@[i]),
            ));
            assert(pairs@.to_multiset() =~= Multiset::<(Block, (Path, Key, Timestamp))>::empty());
            assert(zip_pairs(b, m).to_multiset().add(pairs@.to_multiset()) =~= zip_pairs(
                b,
                m,
            ).to_multiset());
            assert(built_witness(entries@, path@, b, m, built));
            lemma_ms_eq_contains(zip_pairs(b, m), built);
            assert forall|i: int| 0 <= i < m@.len() implies meta_entry_ok(#[trigger] m@[i]) by {
                let pr = zip_pairs(b, m)[i];
                assert(built.contains(pr));
                let j = choose|j: int| 0 <= j < built.len() && built[j] == pr;
                if j < entries@.len() {
                    assert(entry_ok(entries@[j]));
                }
            }
            assert forall|i: int| 0 <= i < b@.len() implies (#[trigger] b@[i])@.len()
                <= MAX_BLOCK_BYTES by {
                let pr = zip_pairs(b, m)[i];
                assert(built.contains(pr));
                let j = choose|j: int| 0 <= j < built.len() && built[j] == pr;
            }
        }
        Ok((b, m))
    }
}

/// A bucket/shadow pair built from some queue row and some padding path.
pub open spec fn pos_built(row: Seq<QueueEntry>, b: Bucket, m: Metadata) -> bool {
    exists|pv: Seq<Direction>| built_ok(row, pv, b, m)
}

/// A bucket built from an empty queue row holds only padding pairs: every
/// slot carries a zero expiry, an empty key, and a full-size random block.
pub proof fn lemma_built_empty_is_padding(b: Bucket, m: Metadata)
    requires
        pos_built(Seq::<QueueEntry>::empty(), b, m),
    ensures
        zip_pairs(b, m).len() == Z,
        forall|i: int|
            0 <= i < zip_pairs(b, m).len() ==> ((#[trigger] zip_pairs(b, m)[i]).1.2 == 0
                && zip_pairs(b, m)[i].1.1@.len() == 0 && zip_pairs(b, m)[i].0@.len() == BLOCK_SIZE),
{
    let pv = choose|pv: Seq<Direction>| built_ok(Seq::<QueueEntry>::empty(), pv, b, m);
    let built = choose|built: Seq<(Block, (Path, Key, Timestamp))>|
        built_witness(Seq::<QueueEntry>::empty(), pv, b, m, built);
    broadcast use vstd::seq_lib::group_to_multiset_ensures;

    assert(zip_pairs(b, m).to_multiset().len() == zip_pairs(b, m).len());
    assert(built.to_multiset().len() == built.len());
    lemma_ms_eq_contains(zip_pairs(b, m), built);
    assert forall|i: int| 0 <= i < zip_pairs(b, m).len() implies ((#[trigger] zip_pairs(b, m)[i]).1.2
        == 0 && zip_pairs(b, m)[i].1.1@.len() == 0 && zip_pairs(b, m)[i].0@.len()
        == BLOCK_SIZE) by {
        let pr = zip_pairs(b, m)[i];
        assert(built.contains(pr));
        let j = choose|j: int| 0 <= j < built.len() && built[j] == pr;
    }
}

/// A queue entry carries exactly the payload of one stored
/// block/metadata pair: the same path, key and expiry, and a ciphertext
/// that is the block's outer-layer decryption under the stored key.
pub open spec fn requeued_from(e: QueueEntry, pr: (Block, (Path, Key, Timestamp))) -> bool {
    &&& e.path@ == pr.1.0@
    &&& e.k_oblv_t@ == pr.1.1@
    &&& e.t_exp == pr.1.2
    &&& dec_of(pr.1.1@, pr.0@) == Some(e.ct@)
}

/// Packed position `pos` is where a message routed to `path` is queued:
/// the position of the path's lowest ancestor in the path-set.
pub open spec fn lca_row_ok(
    indices: Seq<usize>,
    path: Seq<Direction>,
    pos: int,
) -> bool {
    &&& SparseBinaryTree::<Bucket>::lca_len(indices, path, path.len() as int) is Some
    &&& indices[pos] as nat == node_index(
        path.take(
            SparseBinaryTree::<Bucket>::lca_len(indices, path, path.len() as int).unwrap(),
        ),
    )
}

/// Every entry that `q1` holds beyond `q0`'s rows carries the payload of
/// some still-live pair of the bucket and its shadow: nothing but live
/// messages is ever re-enqueued, so an expired pair is dropped for good.
pub open spec fn appended_only_live(
    q0: Seq<Vec<QueueEntry>>,
    q1: Seq<Vec<QueueEntry>>,
    bucket: Bucket,
    meta: Metadata,
    epoch: u64,
) -> bool {
    forall|pos: int, jj: int|
        #![trigger q1[pos]@[jj]]
        0 <= pos < q1.len() && q0[pos]@.len() <= jj < q1[pos]@.len() ==> exists|b: int|
            0 <= b < zip_pairs(bucket, meta).len() && epoch < (#[trigger] zip_pairs(bucket, meta)[b]).1.2
                && requeued_from(q1[pos]@[jj], zip_pairs(bucket, meta)[b])
}

/// Every live pair among the first `upto` of the bucket and its shadow
/// was re-enqueued: some entry appended to `q1` beyond `q0`'s rows carries
/// its payload, at the row of its path's lowest path-set ancestor.
pub open spec fn live_requeued(
    q0: Seq<Vec<QueueEntry>>,
    q1: Seq<Vec<QueueEntry>>,
    indices: Seq<usize>,
    bucket: Bucket,
    meta: Metadata,
    epoch: u64,
    upto: int,
) -> bool {
    forall|b: int|
        #![trigger zip_pairs(bucket, meta)[b]]
        0 <= b < upto && b < zip_pairs(bucket, meta).len() && epoch < zip_pairs(bucket, meta)[b].1.2
            ==> exists|pos: int, jj: int|
            #![trigger q1[pos]@[jj]]
            {
                &&& 0 <= pos < q1.len()
                &&& q0[pos]@.len() <= jj < q1[pos]@.len()
                &&& requeued_from(q1[pos]@[jj], zip_pairs(bucket, meta)[b])
                &&& lca_row_ok(indices, zip_pairs(bucket, meta)[b].1.0@, pos)
            }
}

/// The working-tree pair at position `pos`, slot `b` of a coordinator:
/// the block fetched from the storage server beside the metadata entry
/// stored for the same dense index.
pub open spec fn working_pair(s: Server1, pos: int, b: int) -> (Block, (Path, Key, Timestamp)) {
    (
        s.p.packed_buckets@[pos]@[b],
        s.metadata.value@[s.pathset_indices@[pos] as int].unwrap()@[b],
    )
}

/// Whether position `pos`, slot `b` holds a live working-tree pair: the
/// metadata tree has a bucket there, both sides have a slot `b`, and the
/// entry has not expired.
pub open spec fn working_pair_live(s: Server1, pos: int, b: int) -> bool {
    &&& 0 <= pos < s.pathset_indices@.len()
    &&& pos < s.p.packed_buckets@.len()
    &&& s.metadata.value@[s.pathset_indices@[pos] as int] is Some
    &&& 0 <= b < s.p.packed_buckets@[pos]@.len()
    &&& b < s.metadata.value@[s.pathset_indices@[pos] as int].unwrap()@.len()
    &&& s.epoch < working_pair(s, pos, b).1.2
}

/// The pair survives into the finished epoch trees: some slot of some new
/// bucket repeats its path, key and expiry, beside a block whose outer
/// decryption is the (padded) outer decryption of the pair's own block.
pub open spec fn pair_carried(
    pr: (Block, (Path, Key, Timestamp)),
    bs: Seq<Bucket>,
    ms: Seq<Metadata>,
) -> bool {
    exists|pos2: int, i: int|
        #![trigger zip_pairs(bs[pos2], ms[pos2])[i]]
        {
            &&& 0 <= pos2 < bs.len()
            &&& pos2 < ms.len()
            &&& 0 <= i < zip_pairs(bs[pos2], ms[pos2]).len()
            &&& zip_pairs(bs[pos2], ms[pos2])[i].1.0@ == pr.1.0@
            &&& zip_pairs(bs[pos2], ms[pos2])[i].1.1@ == pr.1.1@
            &&& zip_pairs(bs[pos2], ms[pos2])[i].1.2 == pr.1.2
            &&& (dec_of(pr.1.1@, pr.0@) matches Some(ct) && dec_of(
                pr.1.1@,
                zip_pairs(bs[pos2], ms[pos2])[i].0@,
            ) == Some(pad_spec(ct, INNER_BLOCK_SIZE as int)))
        }
}

impl Server1 {
    /// No stored metadata at any path-set index: the epoch has nothing to
    /// re-enqueue (a fresh metadata tree, or positions never yet written).
    pub open spec fn meta_clear(&self) -> bool {
        forall|pos: int|
            0 <= pos < self.pathset_indices@.len()
                ==> self.metadata.value@[#[trigger] self.pathset_indices@[pos] as int] is None
    }

    /// Re-enqueues the live messages of one working bucket: for every
    /// metadata entry that has not expired, strips the oblivious layer
    /// from the paired block and queues it at the lowest ancestor of its
    /// path in the epoch's path-set; expired pairs are dropped and never
    /// re-enqueued.  Returns how many real decryptions were performed.
    fn collect_live(
        queue: &mut Vec<Vec<QueueEntry>>,
        pt: &SparseBinaryTree<Bucket>,
        bucket: &Bucket,
        meta: &Metadata,
        epoch: u64,
    ) -> (r: Result<usize, MycoError>)
        requires
            pt.wf(),
            old(queue)@.len() == pt.packed_indices@.len(),
            forall|pos: int|
                0 <= pos < old(queue)@.len() ==> row_ok((#[trigger] old(queue)@[pos])@),
            meta_ok(*meta),
            bucket@.len() <= Z,
            bucket_blocks_ok(*bucket),
        ensures
            final(queue)@.len() == old(queue)@.len(),
            forall|pos: int|
                0 <= pos < final(queue)@.len() ==> row_ok((#[trigger] final(queue)@[pos])@),
            forall|pos: int|
                0 <= pos < final(queue)@.len() ==> (#[trigger] final(queue)@[pos])@.len() >= old(
                    queue,
                )@[pos]@.len(),
            forall|pos: int|
                0 <= pos < final(queue)@.len() ==> (#[trigger] final(queue)@[pos])@.take(
                    old(queue)@[pos]@.len() as int,
                ) == old(queue)@[pos]@,
            r matches Ok(cnt) ==> cnt <= bucket@.len(),
            r matches Err(e) ==> (e == MycoError::DecryptionFailed || e == MycoError::LcaNotFound),
            r is Ok ==> live_requeued(
                old(queue)@,
                final(queue)@,
                pt.packed_indices@,
                *bucket,
                *meta,
                epoch,
                bucket@.len() as int,
            ),
            appended_only_live(old(queue)@, final(queue)@, *bucket, *meta, epoch),
    {
        let mut nreal: usize = 0;
        let blen: usize = bucket.len();
        for b in 0..blen
            invariant
                pt.wf(),
                meta_ok(*meta),
                bucket@.len() <= Z,
                bucket_blocks_ok(*bucket),
                blen == bucket@.len(),
                nreal <= b,
                queue@.len() == old(queue)@.len(),
                queue@.len() == pt.packed_indices@.len(),
                forall|pos: int|
                    0 <= pos < queue@.len() ==> row_ok((#[trigger] queue@[pos])@),
                forall|pos: int|
                    0 <= pos < queue@.len() ==> (#[trigger] queue@[pos])@.len() >= old(
                        queue,
                    )@[pos]@.len(),
                forall|pos: int|
                    0 <= pos < queue@.len() ==> (#[trigger] queue@[pos])@.take(
                        old(queue)@[pos]@.len() as int,
                    ) == old(queue)@[pos]@,
                live_requeued(
                    old(queue)@,
                    queue@,
                    pt.packed_indices@,
                    *bucket,
                    *meta,
                    epoch,
                    b as int,
                ),
                appended_only_live(old(queue)@, queue@, *bucket, *meta, epoch),
        {
            match meta.get(b) {
                None => {
                    proof {
                        assert(zip_pairs(*bucket, *meta).len() <= b as int);
                    }
                },
                Some(entry_ref) => {
                    proof {
                        if (b as int) < zip_pairs(*bucket, *meta).len() {
                            assert(zip_pairs(*bucket, *meta)[b as int].1.2 == meta@[b as int].2);
                        }
                    }
                    if epoch < entry_ref.2 {
                        proof {
                            assert(meta_entry_ok(meta@[b as int]));
                        }
                        let block: &Block = match bucket.get(b) {
                            Some(bl) => bl,
                            None => {
                                return Err(MycoError::DecryptionFailed);
                            },
                        };
                        let ct: Vec<u8> = match decrypt(
                            entry_ref.1.0.as_slice(),
                            block.0.as_slice(),
                        ) {
                            Ok(v) => v,
                            Err(_) => {
                                return Err(MycoError::DecryptionFailed);
                            },
                        };
                        match pt.lca_idx(&entry_ref.0) {
                            None => {
                                return Err(MycoError::LcaNotFound);
                            },
                            Some((lpos, _idx)) => {
                                let entry = QueueEntry {
                                    ct,
                                    k_oblv_t: entry_ref.1.clone(),
                                    t_exp: entry_ref.2,
                                    path: entry_ref.0.clone(),
                                };
                                proof {
                                    assert(entry_ok(entry));
                                }
                                let ghost q0 = queue@;
                                let mut row: Vec<QueueEntry> = Vec::new();
                                queue.set_and_swap(lpos, &mut row);
                                row.push(entry);
                                queue.set_and_swap(lpos, &mut row);
                                proof {
                                    assert forall|pos: int|
                                        0 <= pos < queue@.len() implies (#[trigger] queue@[pos])@.take(
                                        old(queue)@[pos]@.len() as int,
                                    ) == old(queue)@[pos]@ by {
                                        if pos == lpos {
                                            assert(queue@[pos]@ =~= q0[pos]@.push(entry));
                                            assert(queue@[pos]@.take(
                                                old(queue)@[pos]@.len() as int,
                                            ) =~= q0[pos]@.take(old(queue)@[pos]@.len() as int));
                                        } else {
                                            assert(queue@[pos] == q0[pos]);
                                        }
                                    }
                                    assert forall|pos: int|
                                        0 <= pos < queue@.len() implies row_ok(
                                        (#[trigger] queue@[pos])@,
                                    ) by {
                                        if pos == lpos {
                                            assert(queue@[pos]@ =~= q0[pos]@.push(entry));
                                            assert forall|j: int|
                                                0 <= j < queue@[pos]@.len() implies entry_ok(
                                                #[trigger] queue@[pos]@[j],
                                            ) by {
                                                if j < q0[pos]@.len() {
                                                    assert(queue@[pos]@[j] == q0[pos]@[j]);
                                                    assert(row_ok(q0[pos]@));
                                                }
                                            }
                                        } else {
                                            assert(queue@[pos] == q0[pos]);
                                        }
                                    }
                                    // The new entry carries exactly pair `b`'s
                                    // payload, at the path's LCA row.
                                    let nj = q0[lpos as int]@.len() as int;
                                    assert(queue@[lpos as int]@ =~= q0[lpos as int]@.push(entry));
                                    assert(queue@[lpos as int]@[nj] == entry);
                                    assert((b as int) < zip_pairs(*bucket, *meta).len());
                                    assert(zip_pairs(*bucket, *meta)[b as int] == (
                                        bucket@[b as int],
                                        meta@[b as int],
                                    ));
                                    assert(requeued_from(entry, zip_pairs(*bucket, *meta)[b as int]));
                                    assert(lca_row_ok(
                                        pt.packed_indices@,
                                        zip_pairs(*bucket, *meta)[b as int].1.0@,
                                        lpos as int,
                                    ));
                                    assert(live_requeued(
                                        old(queue)@,
                                        queue@,
                                        pt.packed_indices@,
                                        *bucket,
                                        *meta,
                                        epoch,
                                        b + 1,
                                    )) by {
                                        assert forall|b2: int|
                                            0 <= b2 < b + 1 && b2 < zip_pairs(*bucket, *meta).len()
                                                && epoch < (#[trigger] zip_pairs(*bucket, *meta)[b2]).1.2
                                            implies exists|pos: int, jj: int|
                                            #![trigger queue@[pos]@[jj]]
                                            {
                                                &&& 0 <= pos < queue@.len()
                                                &&& old(queue)@[pos]@.len() <= jj
                                                    < queue@[pos]@.len()
                                                &&& requeued_from(
                                                    queue@[pos]@[jj],
                                                    zip_pairs(*bucket, *meta)[b2],
                                                )
                                                &&& lca_row_ok(
                                                    pt.packed_indices@,
                                                    zip_pairs(*bucket, *meta)[b2].1.0@,
                                                    pos,
                                                )
                                            } by {
                                            if b2 == b {
                                                assert(queue@[lpos as int]@[nj] == entry);
                                            } else {
                                                assert(live_requeued(
                                                    old(queue)@,
                                                    q0,
                                                    pt.packed_indices@,
                                                    *bucket,
                                                    *meta,
                                                    epoch,
                                                    b as int,
                                                ));
                                                let (pos, jj) = choose|pos: int, jj: int|
                                                    #![trigger q0[pos]@[jj]]
                                                    {
                                                        &&& 0 <= pos < q0.len()
                                                        &&& old(queue)@[pos]@.len() <= jj
                                                            < q0[pos]@.len()
                                                        &&& requeued_from(
                                                            q0[pos]@[jj],
                                                            zip_pairs(*bucket, *meta)[b2],
                                                        )
                                                        &&& lca_row_ok(
                                                            pt.packed_indices@,
                                                            zip_pairs(*bucket, *meta)[b2].1.0@,
                                                            pos,
                                                        )
                                                    };
                                                if pos == lpos {
                                                    assert(queue@[pos]@[jj] == q0[pos]@[jj]);
                                                } else {
                                                    assert(queue@[pos] == q0[pos]);
                                                }
                                                assert(queue@[pos]@[jj] == q0[pos]@[jj]);
                                            }
                                        }
                                    }
                                    assert(appended_only_live(
                                        old(queue)@,
                                        queue@,
                                        *bucket,
                                        *meta,
                                        epoch,
                                    )) by {
                                        assert(appended_only_live(
                                            old(queue)@,
                                            q0,
                                            *bucket,
                                            *meta,
                                            epoch,
                                        ));
                                        assert forall|pos: int, jj: int|
                                            #![trigger queue@[pos]@[jj]]
                                            0 <= pos < queue@.len() && old(queue)@[pos]@.len()
                                                <= jj < queue@[pos]@.len()
                                            implies exists|b2: int|
                                            0 <= b2 < zip_pairs(*bucket, *meta).len() && epoch < (
                                            #[trigger] zip_pairs(*bucket, *meta)[b2]).1.2
                                                && requeued_from(
                                                queue@[pos]@[jj],
                                                zip_pairs(*bucket, *meta)[b2],
                                            ) by {
                                            if pos == lpos && jj == nj {
                                                assert(queue@[pos]@[jj] == entry);
                                                assert(epoch < zip_pairs(*bucket, *meta)[b as int].1.2);
                                            } else {
                                                if pos == lpos {
                                                    assert(queue@[pos]@[jj] == q0[pos]@[jj]);
                                                } else {
                                                    assert(queue@[pos] == q0[pos]);
                                                }
                                                assert(q0[pos]@[jj] == queue@[pos]@[jj]);
                                                assert(old(queue)@[pos]@.len() <= jj < q0[pos]@.len());
                                            }
                                        }
                                    }
                                }
                                nreal = nreal + 1;
                            },
                        }
                    }
                },
            }
        }
        Ok(nreal)
    }

    /// Finalizes the epoch's batch: re-enqueues every still-live message
    /// from the working tree (with exactly `Z` real-plus-dummy
    /// decryptions per bucket), installs all queued messages into fresh
    /// buckets padded to exactly `Z` and shuffled together with their
    /// shadow metadata, overwrites the persistent metadata tree, ships
    /// the buckets to the storage server together with the epoch key, and
    /// advances the epoch.
    pub fn batch_write(&mut self, s2: &mut Server2) -> (r: Result<(), MycoError>)
        requires
            old(self).wf(),
            old(s2).wf(),
            old(s2).pathset_indices@ == old(self).pathset_indices@,
            old(self).epoch < u64::MAX,
            old(s2).epoch < u64::MAX,
            forall|pos: int|
                0 <= pos < old(self).pt.packed_buckets@.len() ==> (#[trigger] old(self).pt.packed_buckets@[pos])@.len() == 0,
            forall|pos: int|
                0 <= pos < old(self).metadata_pt.packed_buckets@.len() ==> (#[trigger] old(self).metadata_pt.packed_buckets@[pos])@.len() == 0,
        ensures
            r matches Err(e) ==> (e == MycoError::DecryptionFailed || e == MycoError::LcaNotFound
                || e == MycoError::BucketOverflow),
            r is Err ==> final(s2).tree == old(s2).tree,
            r is Err ==> final(s2).epoch == old(s2).epoch,
            r is Err ==> final(s2).prf_keys == old(s2).prf_keys,
            r is Err ==> final(self).epoch == old(self).epoch,
            r is Ok ==> final(self).wf(),
            r is Ok ==> final(s2).wf(),
            r is Ok ==> final(self).epoch == old(self).epoch + 1,
            r is Ok ==> final(s2).epoch == old(s2).epoch + 1,
            r is Ok ==> final(self).pathset_indices == old(self).pathset_indices,
            r is Ok ==> final(self).k_s1_t == old(self).k_s1_t,
            r is Ok ==> final(self).num_clients == old(self).num_clients,
            r is Ok ==> crate::server2::keys_bytes(final(s2).prf_keys@).last() == old(self).k_s1_t@,
            r is Ok ==> final(s2).prf_keys@.len() > 0,
            r is Ok ==> final(self).pt.packed_buckets@.len() == old(self).pathset_indices@.len(),
            r is Ok ==> forall|pos: int|
                0 <= pos < final(self).pt.packed_buckets@.len() ==> (#[trigger] final(self).pt.packed_buckets@[pos])@.len() == Z,
            r is Ok ==> forall|pos: int|
                0 <= pos < final(self).metadata_pt.packed_buckets@.len() ==> (#[trigger] final(self).metadata_pt.packed_buckets@[pos])@.len() == Z,
            r is Ok ==> forall|pos: int, i: int|
                #![trigger zip_pairs(final(self).pt.packed_buckets@[pos], final(self).metadata_pt.packed_buckets@[pos])[i]]
                0 <= pos < final(self).pt.packed_buckets@.len() && 0 <= i < zip_pairs(
                    final(self).pt.packed_buckets@[pos],
                    final(self).metadata_pt.packed_buckets@[pos],
                ).len() ==> pair_sound(
                    zip_pairs(
                        final(self).pt.packed_buckets@[pos],
                        final(self).metadata_pt.packed_buckets@[pos],
                    )[i],
                ),
            r is Ok ==> forall|pos: int, j: int|
                #![trigger old(self).message_queue@[pos]@[j]]
                0 <= pos < old(self).message_queue@.len() && 0 <= j < old(self).message_queue@[pos]@.len() ==> entry_lands(
                    old(self).message_queue@[pos]@[j],
                    final(self).pt.packed_buckets@[pos],
                    final(self).metadata_pt.packed_buckets@[pos],
                ),
            r is Ok ==> forall|pos: int|
                0 <= pos < old(self).pathset_indices@.len() ==> final(s2).tree_bucket(
                    #[trigger] old(self).pathset_indices@[pos] as int,
                ) == final(self).pt.packed_buckets@[pos].bytes(),
            r is Ok ==> forall|i: int|
                0 <= i < TREE_SLOTS && !old(self).pathset_indices@.contains(i as usize) ==> final(s2).tree.value@[i] == old(s2).tree.value@[i],
            r is Ok ==> forall|pos: int|
                0 <= pos < old(self).pathset_indices@.len() ==> ((#[trigger] final(self).metadata.value@[old(self).pathset_indices@[pos] as int]) matches Some(m)
                    && m.entries() == final(self).metadata_pt.packed_buckets@[pos].entries()),
            r is Ok ==> forall|i: int|
                0 <= i < TREE_SLOTS && !old(self).pathset_indices@.contains(i as usize) ==> final(self).metadata.value@[i] == old(self).metadata.value@[i],
            r is Ok ==> forall|pos: int|
                0 <= pos < final(self).message_queue@.len() ==> (#[trigger] final(self).message_queue@[pos])@.len() == 0,
            old(self).meta_clear() ==> (r is Ok <==> forall|pos: int|
                0 <= pos < old(self).message_queue@.len()
                    ==> (#[trigger] old(self).message_queue@[pos])@.len() <= Z),
            old(self).meta_clear() ==> (r matches Err(e) ==> e == MycoError::BucketOverflow),
            old(self).meta_clear() && r is Ok ==> forall|pos: int|
                0 <= pos < old(self).message_queue@.len() ==> pos_built(
                    (#[trigger] old(self).message_queue@[pos])@,
                    final(self).pt.packed_buckets@[pos],
                    final(self).metadata_pt.packed_buckets@[pos],
                ),
            r is Ok ==> forall|pos: int, b: int|
                #![trigger working_pair(*old(self), pos, b)]
                working_pair_live(*old(self), pos, b) ==> pair_carried(
                    working_pair(*old(self), pos, b),
                    final(self).pt.packed_buckets@,
                    final(self).metadata_pt.packed_buckets@,
                ),
    {
        let seed: Vec<u8> = random_bytes(32);
        let npos: usize = self.p.packed_buckets.len();
        // Phase A: re-enqueue the live messages of every working bucket,
        // with exactly `Z` decryption operations per bucket.
        for pos in 0..npos
            invariant
                seed@.len() == 32,
                npos == self.p.packed_buckets@.len(),
                self.epoch == old(self).epoch,
                self.k_s1_t == old(self).k_s1_t,
                self.num_clients == old(self).num_clients,
                self.p == old(self).p,
                self.pt == old(self).pt,
                self.metadata_pt == old(self).metadata_pt,
                self.metadata == old(self).metadata,
                self.pathset_indices == old(self).pathset_indices,
                old(self).wf(),
                self.message_queue@.len() == old(self).message_queue@.len(),
                forall|p2: int|
                    0 <= p2 < self.message_queue@.len() ==> row_ok(
                        (#[trigger] self.message_queue@[p2])@,
                    ),
                forall|p2: int|
                    0 <= p2 < self.message_queue@.len() ==> (#[trigger] self.message_queue@[p2])@.len()
                        >= old(self).message_queue@[p2]@.len(),
                forall|p2: int|
                    0 <= p2 < self.message_queue@.len() ==> (#[trigger] self.message_queue@[p2])@.take(
                        old(self).message_queue@[p2]@.len() as int,
                    ) == old(self).message_queue@[p2]@,
                old(self).meta_clear() ==> self.message_queue@ == old(self).message_queue@,
                forall|pos2: int, b2: int|
                    #![trigger working_pair(*old(self), pos2, b2)]
                    0 <= pos2 < pos && working_pair_live(*old(self), pos2, b2) ==> exists|
                        lp: int,
                        jj: int,
                    |
                        #![trigger self.message_queue@[lp]@[jj]]
                        {
                            &&& 0 <= lp < self.message_queue@.len()
                            &&& 0 <= jj < self.message_queue@[lp]@.len()
                            &&& requeued_from(
                                self.message_queue@[lp]@[jj],
                                working_pair(*old(self), pos2, b2),
                            )
                        },
                s2.tree == old(s2).tree,
                s2.epoch == old(s2).epoch,
                s2.prf_keys == old(s2).prf_keys,
                s2.pathset_indices == old(s2).pathset_indices,
        {
            let dense_idx: usize = self.pathset_indices[pos];
            let meta_cl: Option<Metadata> = match self.metadata.value[dense_idx].as_ref() {
                Some(m) => Some(m.clone()),
                None => None,
            };
            match meta_cl {
                None => {
                    proof {
                        assert forall|b2: int|
                            #![trigger working_pair_live(*old(self), pos as int, b2)]
                            !working_pair_live(*old(self), pos as int, b2) by {
                            assert(old(self).metadata.value@[old(self).pathset_indices@[pos as int] as int] is None);
                        }
                    }
                },
                Some(meta) => {
                    proof {
                        if old(self).meta_clear() {
                            assert(old(self).metadata.value@[old(self).pathset_indices@[pos as int] as int] is None);
                            assert(false);
                        }
                        let orig = old(self).metadata.value@[dense_idx as int].unwrap();
                        assert(meta_ok(orig));
                        assert forall|bi: int| 0 <= bi < meta@.len() implies meta_entry_ok(
                            #[trigger] meta@[bi],
                        ) by {
                            assert(meta.entries()[bi] == entry_view(meta@[bi]));
                            assert(orig.entries()[bi] == entry_view(orig@[bi]));
                            assert(meta_entry_ok(orig@[bi]));
                        }
                    }
                    let bucket_cl: Bucket = self.p.packed_buckets[pos].clone();
                    proof {
                        assert(bucket_blocks_ok(bucket_cl)) by {
                            assert forall|k: int| 0 <= k < bucket_cl@.len() implies (
                            #[trigger] bucket_cl@[k])@.len() <= MAX_BLOCK_BYTES by {
                                assert(bucket_cl@[k]@ == old(self).p.packed_buckets@[pos as int]@[k]@);
                            }
                        }
                    }
                    let ghost q_pre = self.message_queue@;
                    let live_count: usize = match Self::collect_live(
                        &mut self.message_queue,
                        &self.pt,
                        &bucket_cl,
                        &meta,
                        self.epoch,
                    ) {
                        Ok(v) => v,
                        Err(e) => {
                            return Err(e);
                        },
                    };
                    proof {
                        let ghost qn = self.message_queue@;
                        assert forall|pos2: int, b2: int|
                            #![trigger working_pair(*old(self), pos2, b2)]
                            0 <= pos2 < pos + 1 && working_pair_live(*old(self), pos2, b2)
                            implies exists|lp: int, jj: int|
                            #![trigger qn[lp]@[jj]]
                            {
                                &&& 0 <= lp < qn.len()
                                &&& 0 <= jj < qn[lp]@.len()
                                &&& requeued_from(qn[lp]@[jj], working_pair(*old(self), pos2, b2))
                            } by {
                            let wp = working_pair(*old(self), pos2, b2);
                            if pos2 == pos {
                                // This bucket's live pairs were appended by the
                                // call just made, and the clones preserve every
                                // field the payload predicate reads.
                                let cp = zip_pairs(bucket_cl, meta)[b2];
                                assert(b2 < zip_pairs(bucket_cl, meta).len());
                                assert(cp == (bucket_cl@[b2], meta@[b2]));
                                assert(bucket_cl@[b2]@ == wp.0@);
                                let orig = old(self).metadata.value@[old(self).pathset_indices@[pos as int] as int].unwrap();
                                assert(meta.entries()[b2] == entry_view(meta@[b2]));
                                assert(orig.entries()[b2] == entry_view(orig@[b2]));
                                assert(meta@[b2].0@ == wp.1.0@ && meta@[b2].1@ == wp.1.1@
                                    && meta@[b2].2 == wp.1.2);
                                assert(self.epoch < cp.1.2);
                                assert(live_requeued(
                                    q_pre,
                                    qn,
                                    self.pt.packed_indices@,
                                    bucket_cl,
                                    meta,
                                    self.epoch,
                                    bucket_cl@.len() as int,
                                ));
                                let (lp, jj) = choose|lp: int, jj: int|
                                    #![trigger qn[lp]@[jj]]
                                    {
                                        &&& 0 <= lp < qn.len()
                                        &&& q_pre[lp]@.len() <= jj < qn[lp]@.len()
                                        &&& requeued_from(qn[lp]@[jj], zip_pairs(bucket_cl, meta)[b2])
                                        &&& lca_row_ok(
                                            self.pt.packed_indices@,
                                            zip_pairs(bucket_cl, meta)[b2].1.0@,
                                            lp,
                                        )
                                    };
                                assert(requeued_from(qn[lp]@[jj], wp));
                            } else {
                                // Earlier buckets' witnesses survive: the call
                                // only appended, so every prior index is intact.
                                let (lp, jj) = choose|lp: int, jj: int|
                                    #![trigger q_pre[lp]@[jj]]
                                    {
                                        &&& 0 <= lp < q_pre.len()
                                        &&& 0 <= jj < q_pre[lp]@.len()
                                        &&& requeued_from(q_pre[lp]@[jj], working_pair(*old(self), pos2, b2))
                                    };
                                assert(qn[lp]@.take(q_pre[lp]@.len() as int) == q_pre[lp]@);
                                assert(qn[lp]@[jj] == qn[lp]@.take(q_pre[lp]@.len() as int)[jj]);
                                assert(qn[lp]@[jj] == q_pre[lp]@[jj]);
                            }
                        }
                    }
                    // Dummy decryptions pad the work to exactly `Z`
                    // cipher operations for this bucket.
                    let mut done: usize = live_count;
                    while done < Z
                        invariant
                            done <= Z,
                        decreases Z - done,
                    {
                        let zk: Vec<u8> = crate::utils::zero_bytes(32);
                        let zb: Vec<u8> = crate::utils::zero_bytes(BLOCK_SIZE);
                        let _ = decrypt(zk.as_slice(), zb.as_slice());
                        done = done + 1;
                    }
                },
            }
        }
        // Phase B: build this epoch's buckets and shadow metadata from the
        // queue, one padded and shuffled pair per path-set position.
        let ghost rows1 = self.message_queue@;
        let mut new_buckets: Vec<Bucket> = Vec::new();
        let mut new_metas: Vec<Metadata> = Vec::new();
        let nq: usize = self.message_queue.len();
        proof {
            assert(nq == npos);
        }
        for pos in 0..nq
            invariant
                seed@.len() == 32,
                nq == self.message_queue@.len(),
                self.message_queue@ == rows1,
                self.epoch == old(self).epoch,
                self.k_s1_t == old(self).k_s1_t,
                self.num_clients == old(self).num_clients,
                self.p == old(self).p,
                self.pt == old(self).pt,
                self.metadata_pt == old(self).metadata_pt,
                self.metadata == old(self).metadata,
                self.pathset_indices == old(self).pathset_indices,
                old(self).wf(),
                forall|p2: int| 0 <= p2 < nq ==> row_ok((#[trigger] rows1[p2])@),
                forall|p2: int|
                    0 <= p2 < nq ==> (#[trigger] rows1[p2])@.len() >= old(self).message_queue@[p2]@.len(),
                forall|p2: int|
                    0 <= p2 < nq ==> (#[trigger] rows1[p2])@.take(
                        old(self).message_queue@[p2]@.len() as int,
                    ) == old(self).message_queue@[p2]@,
                nq == old(self).pathset_indices@.len(),
                old(self).meta_clear() ==> rows1 == old(self).message_queue@,
                new_buckets@.len() == pos,
                new_metas@.len() == pos,
                forall|p2: int|
                    0 <= p2 < pos ==> pos_built(
                        rows1[p2]@,
                        #[trigger] new_buckets@[p2],
                        new_metas@[p2],
                    ),
                forall|p2: int| 0 <= p2 < pos ==> (#[trigger] rows1[p2])@.len() <= Z,
                s2.tree == old(s2).tree,
                s2.epoch == old(s2).epoch,
                s2.prf_keys == old(s2).prf_keys,
                s2.pathset_indices == old(s2).pathset_indices,
        {
            let idx: usize = self.pathset_indices[pos];
            let path: Path = Path::from_index(idx);
            proof {
                lemma_node_index_lower(path@);
                vstd::arithmetic::power2::lemma2_to64();
                if path@.len() >= 19 {
                    vstd::arithmetic::power2::lemma_pow2_strictly_increases(19, path@.len());
                }
            }
            let row: &Vec<QueueEntry> = &self.message_queue[pos];
            match Self::build_bucket(row, &path, &seed) {
                Err(e) => {
                    proof {
                        if old(self).meta_clear() {
                            assert(rows1[pos as int]@.len() > Z);
                            assert(old(self).message_queue@[pos as int]@.len() > Z);
                        }
                    }
                    return Err(e);
                },
                Ok((b, m)) => {
                    new_buckets.push(b);
                    new_metas.push(m);
                    proof {
                        assert(pos_built(rows1[pos as int]@, new_buckets@[pos as int], new_metas@[pos as int])) by {
                            assert(built_ok(
                                rows1[pos as int]@,
                                path@,
                                new_buckets@[pos as int],
                                new_metas@[pos as int],
                            ));
                        }
                    }
                },
            }
        }
        self.pt.packed_buckets = new_buckets;
        self.metadata_pt.packed_buckets = new_metas;
        proof {
            assert forall|pos: int| 0 <= pos < nq implies ((#[trigger] self.pt.packed_buckets@[pos])@.len()
                == Z && bucket_blocks_ok(self.pt.packed_buckets@[pos])) by {
                let pv = choose|pv: Seq<Direction>|
                    built_ok(
                        rows1[pos]@,
                        pv,
                        self.pt.packed_buckets@[pos],
                        self.metadata_pt.packed_buckets@[pos],
                    );
            }
            assert forall|pos: int| 0 <= pos < nq implies ((#[trigger] self.metadata_pt.packed_buckets@[pos])@.len()
                == Z && meta_ok(self.metadata_pt.packed_buckets@[pos])) by {
                let pv = choose|pv: Seq<Direction>|
                    built_ok(
                        rows1[pos]@,
                        pv,
                        self.pt.packed_buckets@[pos],
                        self.metadata_pt.packed_buckets@[pos],
                    );
            }
        }
        // The queue is consumed; reset it for the next epoch.
        let mut fresh_queue: Vec<Vec<QueueEntry>> = Vec::new();
        for _i in 0..nq
            invariant
                fresh_queue@.len() == _i,
                forall|p2: int| 0 <= p2 < _i ==> (#[trigger] fresh_queue@[p2])@.len() == 0,
        {
            fresh_queue.push(Vec::new());
        }
        self.message_queue = fresh_queue;
        proof {
            // Soundness and delivery, from each position's builder witness.
            assert forall|pos: int, i: int|
                #![trigger zip_pairs(self.pt.packed_buckets@[pos], self.metadata_pt.packed_buckets@[pos])[i]]
                0 <= pos < self.pt.packed_buckets@.len() && 0 <= i < zip_pairs(
                    self.pt.packed_buckets@[pos],
                    self.metadata_pt.packed_buckets@[pos],
                ).len() implies pair_sound(
                zip_pairs(
                    self.pt.packed_buckets@[pos],
                    self.metadata_pt.packed_buckets@[pos],
                )[i],
            ) by {
                let pv = choose|pv: Seq<Direction>|
                    built_ok(
                        rows1[pos]@,
                        pv,
                        self.pt.packed_buckets@[pos],
                        self.metadata_pt.packed_buckets@[pos],
                    );
                lemma_built_sound(
                    rows1[pos]@,
                    pv,
                    self.pt.packed_buckets@[pos],
                    self.metadata_pt.packed_buckets@[pos],
                );
            }
            assert forall|pos: int, j: int|
                #![trigger old(self).message_queue@[pos]@[j]]
                0 <= pos < old(self).message_queue@.len() && 0 <= j < old(self).message_queue@[pos]@.len() implies entry_lands(
                old(self).message_queue@[pos]@[j],
                self.pt.packed_buckets@[pos],
                self.metadata_pt.packed_buckets@[pos],
            ) by {
                let pv = choose|pv: Seq<Direction>|
                    built_ok(
                        rows1[pos]@,
                        pv,
                        self.pt.packed_buckets@[pos],
                        self.metadata_pt.packed_buckets@[pos],
                    );
                lemma_built_sound(
                    rows1[pos]@,
                    pv,
                    self.pt.packed_buckets@[pos],
                    self.metadata_pt.packed_buckets@[pos],
                );
                assert(rows1[pos]@[j] == old(self).message_queue@[pos]@[j]) by {
                    assert(rows1[pos]@.take(old(self).message_queue@[pos]@.len() as int)[j]
                        == rows1[pos]@[j]);
                }
            }
        }
        // Phase C: persist the shadow metadata and publish the buckets
        // and the epoch key to the storage server.
        self.metadata.overwrite_from_sparse(&self.metadata_pt);
        proof {
            assert forall|i: int| 0 <= i < TREE_SLOTS implies ((#[trigger] self.metadata.value@[i])
                matches Some(mm) ==> meta_ok(mm)) by {
                if self.metadata.value@[i] is Some {
                    let mm = self.metadata.value@[i].unwrap();
                    if self.pathset_indices@.contains(i as usize) {
                        let pos = choose|pos: int|
                            0 <= pos < self.pathset_indices@.len() && self.pathset_indices@[pos]
                                == i as usize;
                        assert(self.metadata_pt.packed_indices@[pos] == i as usize);
                        let sm = self.metadata_pt.packed_buckets@[pos];
                        assert(mm.entries() == sm.entries() && mm@.len() == sm@.len());
                        let pv2 = choose|pv2: Seq<Direction>|
                            built_ok(rows1[pos]@, pv2, self.pt.packed_buckets@[pos], sm);
                        assert(meta_ok(sm));
                        assert forall|b: int| 0 <= b < mm@.len() implies meta_entry_ok(
                            #[trigger] mm@[b],
                        ) by {
                            assert(mm.entries()[b] == entry_view(mm@[b]));
                            assert(sm.entries()[b] == entry_view(sm@[b]));
                            assert(meta_entry_ok(sm@[b]));
                        }
                    } else {
                        assert(self.metadata.value@[i] == old(self).metadata.value@[i]);
                        assert(old(self).wf());
                    }
                }
            }
        }
        let out: Vec<Bucket> = Self::clone_buckets(&self.pt.packed_buckets);
        let write_result = s2.write(out, &self.k_s1_t);
        match write_result {
            Ok(_) => {},
            Err(_) => {},
        }
        self.epoch = self.epoch + 1;
        proof {
            if old(self).meta_clear() {
                assert(rows1 == old(self).message_queue@);
                assert forall|pos: int| 0 <= pos < old(self).message_queue@.len() implies pos_built(
                    (#[trigger] old(self).message_queue@[pos])@,
                    self.pt.packed_buckets@[pos],
                    self.metadata_pt.packed_buckets@[pos],
                ) by {
                    assert(rows1[pos] == old(self).message_queue@[pos]);
                }
                assert forall|pos: int|
                    0 <= pos < old(self).message_queue@.len() implies (
                #[trigger] old(self).message_queue@[pos])@.len() <= Z by {
                    assert(rows1[pos]@.len() <= Z);
                }
            }
            // Every live working-tree pair was re-enqueued by the first
            // phase and installed by the second: it survives into the
            // finished trees.
            assert forall|pos2: int, b2: int|
                #![trigger working_pair(*old(self), pos2, b2)]
                working_pair_live(*old(self), pos2, b2) implies pair_carried(
                working_pair(*old(self), pos2, b2),
                self.pt.packed_buckets@,
                self.metadata_pt.packed_buckets@,
            ) by {
                let wp = working_pair(*old(self), pos2, b2);
                assert(pos2 < npos);
                let (lp, jj) = choose|lp: int, jj: int|
                    #![trigger rows1[lp]@[jj]]
                    {
                        &&& 0 <= lp < rows1.len()
                        &&& 0 <= jj < rows1[lp]@.len()
                        &&& requeued_from(rows1[lp]@[jj], wp)
                    };
                let e = rows1[lp]@[jj];
                let pv = choose|pv: Seq<Direction>|
                    built_ok(
                        rows1[lp]@,
                        pv,
                        self.pt.packed_buckets@[lp],
                        self.metadata_pt.packed_buckets@[lp],
                    );
                lemma_built_sound(
                    rows1[lp]@,
                    pv,
                    self.pt.packed_buckets@[lp],
                    self.metadata_pt.packed_buckets@[lp],
                );
                assert(entry_lands(
                    e,
                    self.pt.packed_buckets@[lp],
                    self.metadata_pt.packed_buckets@[lp],
                ));
                let i = choose|i: int|
                    0 <= i < zip_pairs(
                        self.pt.packed_buckets@[lp],
                        self.metadata_pt.packed_buckets@[lp],
                    ).len() && pair_matches_entry(
                        #[trigger] zip_pairs(
                            self.pt.packed_buckets@[lp],
                            self.metadata_pt.packed_buckets@[lp],
                        )[i],
                        e,
                    );
                assert(zip_pairs(
                    self.pt.packed_buckets@[lp],
                    self.metadata_pt.packed_buckets@[lp],
                )[i].1.1@ == wp.1.1@);
            }
        }
        Ok(())
    }

    /// Deep copies of a list of buckets.
    fn clone_buckets(v: &Vec<Bucket>) -> (r: Vec<Bucket>)
        ensures
            r@.len() == v@.len(),
            forall|j: int| 0 <= j < r@.len() ==> (#[trigger] r@[j]).bytes() == v@[j].bytes(),
            forall|j: int| 0 <= j < r@.len() ==> (#[trigger] r@[j])@.len() == v@[j]@.len(),
            forall|j: int|
                0 <= j < r@.len() ==> bucket_blocks_ok(#[trigger] r@[j]) == bucket_blocks_ok(
                    v@[j],
                ),
    {
        let mut r: Vec<Bucket> = Vec::new();
        let n: usize = v.len();
        for j in 0..n
            invariant
                n == v@.len(),
                r@.len() == j,
                forall|k: int| 0 <= k < j ==> (#[trigger] r@[k]).bytes() == v@[k].bytes(),
                forall|k: int| 0 <= k < j ==> (#[trigger] r@[k])@.len() == v@[k]@.len(),
                forall|k: int|
                    0 <= k < j ==> forall|i: int|
                        0 <= i < (#[trigger] r@[k])@.len() ==> (#[trigger] r@[k]@[i])@
                            == v@[k]@[i]@,
        {
            let b: Bucket = v[j].clone();
            r.push(b);
            proof {
                assert(r@[j as int] == b);
            }
        }
        proof {
            assert forall|j: int| 0 <= j < r@.len() implies bucket_blocks_ok(#[trigger] r@[j])
                == bucket_blocks_ok(v@[j]) by {
                if bucket_blocks_ok(v@[j]) {
                    assert forall|i: int| 0 <= i < r@[j]@.len() implies (#[trigger] r@[j]@[i])@.len()
                        <= MAX_BLOCK_BYTES by {
                        assert(r@[j]@[i]@ == v@[j]@[i]@);
                    }
                }
                if bucket_blocks_ok(r@[j]) {
                    assert forall|i: int| 0 <= i < v@[j]@.len() implies (#[trigger] v@[j]@[i])@.len()
                        <= MAX_BLOCK_BYTES by {
                        assert(r@[j]@[i]@ == v@[j]@[i]@);
                    }
                }
            }
        }
        r
    }
}

} // verus!
