//! The storage server: a dense tree of buckets, a PRF-key ring, and
//! chunked path reads.  It never looks inside a block.

use vstd::prelude::*;

use crate::constants::{
    D, DELTA, NUM_BUCKETS_PER_BATCH_WRITE_CHUNK, NUM_BUCKETS_PER_READ_PATHS_CHUNK, TREE_SLOTS, Z,
};
use crate::dtypes::{bucket_blocks_ok, Bucket, Key, Path};
use crate::error::MycoError;
use crate::tree::{nodes_along, BinaryTree};

verus! {

/// The key bytes of a key ring, in order.
pub open spec fn keys_bytes(s: Seq<Key>) -> Seq<Seq<u8>> {
    s.map_values(|k: Key| k@)
}

/// The storage server.
pub struct Server2 {
    /// The tree storing the buckets.
    pub tree: BinaryTree<Bucket>,
    /// The PRF keys published by the write coordinator, oldest first.
    pub prf_keys: Vec<Key>,
    /// The current epoch.
    pub epoch: u64,
    /// The path-set indices of the epoch in progress.
    pub pathset_indices: Vec<usize>,
}

impl Server2 {
    /// The block lists of the bucket at dense index `i` (empty if absent).
    pub open spec fn tree_bucket(&self, i: int) -> Seq<Seq<u8>> {
        match self.tree.value@[i] {
            Some(b) => b.bytes(),
            None => Seq::empty(),
        }
    }

    /// The structural invariant: a full tree of depth `D` whose buckets
    /// respect the capacity `Z`, and a key ring holding one key per
    /// completed epoch, up to the `DELTA` most recent.
    pub open spec fn wf(&self) -> bool {
        &&& self.tree.value@.len() == TREE_SLOTS
        &&& forall|i: int|
            0 <= i < TREE_SLOTS ==> ((#[trigger] self.tree.value@[i]) matches Some(b) ==> b@.len()
                <= Z)
        &&& forall|i: int| 1 <= i < TREE_SLOTS ==> #[trigger] self.tree.value@[i] is Some
        &&& forall|i: int|
            0 <= i < TREE_SLOTS ==> ((#[trigger] self.tree.value@[i]) matches Some(b)
                ==> bucket_blocks_ok(b))
        &&& self.prf_keys@.len() == vstd::math::min(self.epoch as int, DELTA as int)
        &&& forall|j: int|
            0 <= j < self.pathset_indices@.len() ==> 1 <= #[trigger] self.pathset_indices@[j]
                < TREE_SLOTS
        &&& forall|a: int, b: int|
            0 <= a < b < self.pathset_indices@.len() ==> self.pathset_indices@[a]
                != self.pathset_indices@[b]
    }

    /// A fresh server: a fully populated tree of empty buckets, an empty
    /// key ring, epoch zero.
    pub fn new() -> (r: Self)
        ensures
            r.wf(),
            r.epoch == 0,
            r.prf_keys@.len() == 0,
            r.pathset_indices@.len() == 0,
            forall|i: int| 1 <= i < TREE_SLOTS ==> r.tree_bucket(i) == Seq::<Seq<u8>>::empty(),
    {
        let mut tree: BinaryTree<Bucket> = BinaryTree::new_with_depth(D);
        let slots: usize = tree.value.len();
        let mut i: usize = 1;
        while i < slots
            invariant
                slots == tree.value@.len(),
                slots == TREE_SLOTS,
                1 <= i <= slots,
                tree.value@[0] is None,
                forall|j: int|
                    1 <= j < i ==> ((#[trigger] tree.value@[j]) matches Some(b) && b@.len() == 0),
            decreases slots - i,
        {
            tree.value.set(i, Some(Bucket::new_empty()));
            i = i + 1;
        }
        let r = Server2 { tree, prf_keys: Vec::new(), epoch: 0, pathset_indices: Vec::new() };
        proof {
            assert(forall|i2: int|
                1 <= i2 < TREE_SLOTS ==> #[trigger] r.tree_bucket(i2) =~= Seq::<Seq<u8>>::empty());
        }
        r
    }

    /// A deep copy of the bucket at dense index `idx`.
    fn bucket_at(&self, idx: usize) -> (r: Bucket)
        requires
            self.wf(),
            1 <= idx < TREE_SLOTS,
        ensures
            r.bytes() == self.tree_bucket(idx as int),
            r@.len() <= Z,
            bucket_blocks_ok(r),
    {
        match self.tree.value[idx].as_ref() {
            Some(b) => b.clone(),
            None => Bucket::new_empty(),
        }
    }

    /// The buckets along the path `l`, root to leaf.
    pub fn read(&self, l: &Path) -> (r: Result<Vec<Bucket>, MycoError>)
        requires
            self.wf(),
            l@.len() <= D,
        ensures
            r is Ok,
            r matches Ok(v) ==> {
                let nodes = nodes_along(self.tree.value@, l@, l@.len() as int + 1);
                v@.len() == nodes.len() && forall|j: int|
                    0 <= j < v@.len() ==> #[trigger] v@[j].bytes() == nodes[j].bytes()
            },
    {
        let refs: Vec<&Bucket> = self.tree.get_all_nodes_along_path(l);
        let ghost nodes = nodes_along(self.tree.value@, l@, l@.len() as int + 1);
        let mut out: Vec<Bucket> = Vec::new();
        let n: usize = refs.len();
        proof {
            assert(refs@.map_values(|x: &Bucket| *x).len() == refs@.len());
        }
        for j in 0..n
            invariant
                n == refs@.len(),
                refs@.map_values(|x: &Bucket| *x) == nodes,
                out@.len() == j,
                forall|k: int| 0 <= k < j ==> #[trigger] out@[k].bytes() == nodes[k].bytes(),
        {
            proof {
                assert(refs@.map_values(|x: &Bucket| *x)[j as int] == *refs@[j as int]);
            }
            out.push(refs[j].clone());
        }
        Ok(out)
    }

    /// A reference to the whole tree.
    pub fn get_tree(&self) -> (r: &BinaryTree<Bucket>)
        ensures
            r == &self.tree,
    {
        &self.tree
    }

    /// Overwrites the tree at the stored path-set indices with the packed
    /// buckets, publishes the epoch's PRF key, and advances the epoch.
    pub fn write(&mut self, packed_buckets: Vec<Bucket>, prf_key: &Key) -> (r: Result<
        (),
        MycoError,
    >)
        requires
            old(self).wf(),
            packed_buckets@.len() == old(self).pathset_indices@.len(),
            forall|j: int|
                0 <= j < packed_buckets@.len() ==> #[trigger] packed_buckets@[j]@.len() <= Z,
            forall|j: int|
                0 <= j < packed_buckets@.len() ==> bucket_blocks_ok(#[trigger] packed_buckets@[j]),
            old(self).epoch < u64::MAX,
        ensures
            r is Ok,
            final(self).wf(),
            final(self).epoch == old(self).epoch + 1,
            final(self).pathset_indices == old(self).pathset_indices,
            forall|j: int|
                0 <= j < packed_buckets@.len() ==> final(self).tree_bucket(
                    #[trigger] old(self).pathset_indices@[j] as int,
                ) == packed_buckets@[j].bytes(),
            forall|i: int|
                0 <= i < TREE_SLOTS && !old(self).pathset_indices@.contains(i as usize)
                    ==> final(self).tree.value@[i] == old(self).tree.value@[i],
            keys_bytes(final(self).prf_keys@) == if old(self).epoch >= DELTA {
                keys_bytes(old(self).prf_keys@).push(prf_key@).drop_first()
            } else {
                keys_bytes(old(self).prf_keys@).push(prf_key@)
            },
            final(self).prf_keys@.len() > 0,
            keys_bytes(final(self).prf_keys@).last() == prf_key@,
    {
        let n: usize = packed_buckets.len();
        for j in 0..n
            invariant
                n == packed_buckets@.len(),
                n == self.pathset_indices@.len(),
                self.pathset_indices == old(self).pathset_indices,
                self.prf_keys == old(self).prf_keys,
                self.epoch == old(self).epoch,
                old(self).wf(),
                self.tree.value@.len() == TREE_SLOTS,
                forall|i: int| 1 <= i < TREE_SLOTS ==> #[trigger] self.tree.value@[i] is Some,
                self.tree.value@[0] == old(self).tree.value@[0],
                forall|jj: int|
                    0 <= jj < packed_buckets@.len() ==> #[trigger] packed_buckets@[jj]@.len()
                        <= Z,
                forall|jj: int|
                    0 <= jj < packed_buckets@.len() ==> bucket_blocks_ok(
                        #[trigger] packed_buckets@[jj],
                    ),
                forall|i: int|
                    0 <= i < TREE_SLOTS ==> ((#[trigger] self.tree.value@[i]) matches Some(b)
                        ==> b@.len() <= Z),
                forall|i: int|
                    0 <= i < TREE_SLOTS ==> ((#[trigger] self.tree.value@[i]) matches Some(b)
                        ==> bucket_blocks_ok(b)),
                forall|jj: int|
                    0 <= jj < j ==> self.tree_bucket(
                        #[trigger] self.pathset_indices@[jj] as int,
                    ) == packed_buckets@[jj].bytes(),
                forall|i: int|
                    0 <= i < TREE_SLOTS && !self.pathset_indices@.contains(i as usize)
                        ==> self.tree.value@[i] == old(self).tree.value@[i],
        {
            let idx: usize = self.pathset_indices[j];
            let b: Bucket = packed_buckets[j].clone();
            proof {
                assert(b@.len() == packed_buckets@[j as int]@.len());
            }
            self.tree.value.set(idx, Some(b));
            proof {
                assert(self.pathset_indices@.contains(idx)) by {
                    assert(self.pathset_indices@[j as int] == idx);
                }
                assert forall|jj: int| 0 <= jj < j + 1 implies self.tree_bucket(
                    #[trigger] self.pathset_indices@[jj] as int,
                ) == packed_buckets@[jj].bytes() by {
                    if jj < j {
                        assert(self.pathset_indices@[jj] != idx);
                    }
                }
            }
        }
        self.epoch = self.epoch + 1;
        self.add_prf_key(prf_key);
        Ok(())
    }

    /// Overwrites one chunk of the stored path-set with `buckets`.
    pub fn chunk_write(&mut self, buckets: Vec<Bucket>, chunk_idx: usize)
        requires
            old(self).wf(),
            chunk_idx * NUM_BUCKETS_PER_BATCH_WRITE_CHUNK <= old(self).pathset_indices@.len(),
            forall|j: int| 0 <= j < buckets@.len() ==> #[trigger] buckets@[j]@.len() <= Z,
            forall|j: int|
                0 <= j < buckets@.len() ==> bucket_blocks_ok(#[trigger] buckets@[j]),
        ensures
            final(self).wf(),
            final(self).epoch == old(self).epoch,
            final(self).prf_keys == old(self).prf_keys,
            final(self).pathset_indices == old(self).pathset_indices,
            forall|j: int|
                0 <= j < buckets@.len() && chunk_idx * NUM_BUCKETS_PER_BATCH_WRITE_CHUNK + j
                    < old(self).pathset_indices@.len() && j < NUM_BUCKETS_PER_BATCH_WRITE_CHUNK
                    ==> final(self).tree_bucket(
                    #[trigger] old(self).pathset_indices@[chunk_idx
                        * NUM_BUCKETS_PER_BATCH_WRITE_CHUNK + j] as int,
                ) == buckets@[j].bytes(),
            forall|i: int|
                0 <= i < TREE_SLOTS && !old(self).pathset_indices@.contains(i as usize)
                    ==> final(self).tree.value@[i] == old(self).tree.value@[i],
    {
        let total: usize = self.pathset_indices.len();
        let start: usize = chunk_idx * NUM_BUCKETS_PER_BATCH_WRITE_CHUNK;
        let mut count: usize = total - start;
        if count > NUM_BUCKETS_PER_BATCH_WRITE_CHUNK {
            count = NUM_BUCKETS_PER_BATCH_WRITE_CHUNK;
        }
        if count > buckets.len() {
            count = buckets.len();
        }
        for j in 0..count
            invariant
                count <= buckets@.len(),
                total == self.pathset_indices@.len(),
                start + count <= total,
                count <= NUM_BUCKETS_PER_BATCH_WRITE_CHUNK,
                self.pathset_indices == old(self).pathset_indices,
                self.prf_keys == old(self).prf_keys,
                self.epoch == old(self).epoch,
                old(self).wf(),
                self.tree.value@.len() == TREE_SLOTS,
                forall|i: int| 1 <= i < TREE_SLOTS ==> #[trigger] self.tree.value@[i] is Some,
                self.tree.value@[0] == old(self).tree.value@[0],
                forall|jj: int| 0 <= jj < buckets@.len() ==> #[trigger] buckets@[jj]@.len() <= Z,
                forall|jj: int|
                    0 <= jj < buckets@.len() ==> bucket_blocks_ok(#[trigger] buckets@[jj]),
                forall|i: int|
                    0 <= i < TREE_SLOTS ==> ((#[trigger] self.tree.value@[i]) matches Some(b)
                        ==> b@.len() <= Z),
                forall|i: int|
                    0 <= i < TREE_SLOTS ==> ((#[trigger] self.tree.value@[i]) matches Some(b)
                        ==> bucket_blocks_ok(b)),
                forall|jj: int|
                    0 <= jj < j ==> self.tree_bucket(
                        #[trigger] self.pathset_indices@[start + jj] as int,
                    ) == buckets@[jj].bytes(),
                forall|i: int|
                    0 <= i < TREE_SLOTS && !self.pathset_indices@.contains(i as usize)
                        ==> self.tree.value@[i] == old(self).tree.value@[i],
        {
            let idx: usize = self.pathset_indices[start + j];
            let b: Bucket = buckets[j].clone();
            proof {
                assert(b@.len() == buckets@[j as int]@.len());
            }
            self.tree.value.set(idx, Some(b));
            proof {
                assert(self.pathset_indices@.contains(idx)) by {
                    assert(self.pathset_indices@[start + j] == idx);
                }
                assert forall|jj: int| 0 <= jj < j + 1 implies self.tree_bucket(
                    #[trigger] self.pathset_indices@[start + jj] as int,
                ) == buckets@[jj].bytes() by {
                    if jj < j {
                        assert(self.pathset_indices@[start + jj] != idx);
                    }
                }
            }
        }
    }

    /// Advances the epoch and publishes the epoch's PRF key (the chunked
    /// counterpart of [`Server2::write`]).
    pub fn finalize_epoch(&mut self, key: &Key) -> (r: Result<(), MycoError>)
        requires
            old(self).wf(),
            old(self).epoch < u64::MAX,
        ensures
            r is Ok,
            final(self).wf(),
            final(self).epoch == old(self).epoch + 1,
            final(self).tree == old(self).tree,
            final(self).pathset_indices == old(self).pathset_indices,
            keys_bytes(final(self).prf_keys@) == if old(self).epoch >= DELTA {
                keys_bytes(old(self).prf_keys@).push(key@).drop_first()
            } else {
                keys_bytes(old(self).prf_keys@).push(key@)
            },
            final(self).prf_keys@.len() > 0,
            keys_bytes(final(self).prf_keys@).last() == key@,
    {
        self.epoch = self.epoch + 1;
        self.add_prf_key(key);
        Ok(())
    }

    /// A copy of the key ring, oldest first.
    pub fn get_prf_keys(&self) -> (r: Result<Vec<Key>, MycoError>)
        ensures
            r is Ok,
            r matches Ok(v) ==> keys_bytes(v@) == keys_bytes(self.prf_keys@),
    {
        let mut out: Vec<Key> = Vec::new();
        let n: usize = self.prf_keys.len();
        for j in 0..n
            invariant
                n == self.prf_keys@.len(),
                out@.len() == j,
                forall|k: int| 0 <= k < j ==> #[trigger] out@[k]@ == self.prf_keys@[k]@,
        {
            out.push(self.prf_keys[j].clone());
        }
        proof {
            assert(keys_bytes(out@) =~= keys_bytes(self.prf_keys@));
        }
        Ok(out)
    }

    /// Appends a PRF key; evicts the oldest key whenever the ring would
    /// exceed `DELTA`, so it works as a FIFO window of the `DELTA` most
    /// recent epoch keys.
    pub fn add_prf_key(&mut self, key: &Key)
        requires
            old(self).prf_keys@.len() < usize::MAX,
        ensures
            final(self).tree == old(self).tree,
            final(self).epoch == old(self).epoch,
            final(self).pathset_indices == old(self).pathset_indices,
            keys_bytes(final(self).prf_keys@) == if old(self).prf_keys@.len() >= DELTA {
                keys_bytes(old(self).prf_keys@).push(key@).drop_first()
            } else {
                keys_bytes(old(self).prf_keys@).push(key@)
            },
            final(self).prf_keys@.len() == if old(self).prf_keys@.len() >= DELTA {
                old(self).prf_keys@.len()
            } else {
                old(self).prf_keys@.len() + 1
            },
            final(self).prf_keys@.len() > 0,
            keys_bytes(final(self).prf_keys@).last() == key@,
    {
        self.prf_keys.push(key.clone());
        proof {
            assert(keys_bytes(self.prf_keys@) =~= keys_bytes(old(self).prf_keys@).push(key@));
        }
        if self.prf_keys.len() > DELTA {
            let ghost before = self.prf_keys@;
            self.prf_keys.remove(0);
            proof {
                assert(keys_bytes(self.prf_keys@) =~= keys_bytes(before).drop_first());
            }
        }
        proof {
            if old(self).prf_keys@.len() >= DELTA {
                assert(self.prf_keys@.len() > 0);
                assert(keys_bytes(self.prf_keys@).last() == key@);
            } else {
                assert(keys_bytes(self.prf_keys@).last() == key@);
            }
        }
    }

    /// Stores the path-set indices for the epoch in progress.
    pub fn store_path_indices(&mut self, pathset: Vec<usize>)
        requires
            old(self).wf(),
            forall|j: int| 0 <= j < pathset@.len() ==> 1 <= #[trigger] pathset@[j] < TREE_SLOTS,
            forall|a: int, b: int| 0 <= a < b < pathset@.len() ==> pathset@[a] != pathset@[b],
        ensures
            final(self).wf(),
            final(self).pathset_indices == pathset,
            final(self).tree == old(self).tree,
            final(self).prf_keys == old(self).prf_keys,
            final(self).epoch == old(self).epoch,
    {
        self.pathset_indices = pathset;
    }

    /// One chunk of the last-stored path-set's buckets.
    pub fn read_pathset_chunk(&self, chunk_idx: usize) -> (r: Result<Vec<Bucket>, MycoError>)
        requires
            self.wf(),
            chunk_idx * NUM_BUCKETS_PER_READ_PATHS_CHUNK <= self.pathset_indices@.len(),
        ensures
            r is Ok,
            r matches Ok(v) ==> {
                let start = chunk_idx * NUM_BUCKETS_PER_READ_PATHS_CHUNK;
                let end = vstd::math::min(
                    start + NUM_BUCKETS_PER_READ_PATHS_CHUNK,
                    self.pathset_indices@.len() as int,
                );
                v@.len() == end - start && forall|j: int|
                    0 <= j < v@.len() ==> #[trigger] v@[j].bytes() == self.tree_bucket(
                        self.pathset_indices@[start + j] as int,
                    )
            },
    {
        let total: usize = self.pathset_indices.len();
        let start: usize = chunk_idx * NUM_BUCKETS_PER_READ_PATHS_CHUNK;
        let mut count: usize = total - start;
        if count > NUM_BUCKETS_PER_READ_PATHS_CHUNK {
            count = NUM_BUCKETS_PER_READ_PATHS_CHUNK;
        }
        let mut out: Vec<Bucket> = Vec::new();
        for j in 0..count
            invariant
                self.wf(),
                total == self.pathset_indices@.len(),
                start + count <= total,
                out@.len() == j,
                forall|k: int|
                    0 <= k < j ==> #[trigger] out@[k].bytes() == self.tree_bucket(
                        self.pathset_indices@[start + k] as int,
                    ),
        {
            out.push(self.bucket_at(self.pathset_indices[start + j]));
        }
        Ok(out)
    }

    /// One chunk of the buckets at the given indices, for a client read.
    pub fn read_paths_client_chunk(&self, chunk_idx: usize, indices: Vec<usize>) -> (r: Result<
        Vec<Bucket>,
        MycoError,
    >)
        requires
            self.wf(),
            forall|j: int| 0 <= j < indices@.len() ==> 1 <= #[trigger] indices@[j] < TREE_SLOTS,
            chunk_idx * NUM_BUCKETS_PER_READ_PATHS_CHUNK <= indices@.len(),
        ensures
            r is Ok,
            r matches Ok(v) ==> {
                let start = chunk_idx * NUM_BUCKETS_PER_READ_PATHS_CHUNK;
                let end = vstd::math::min(
                    start + NUM_BUCKETS_PER_READ_PATHS_CHUNK,
                    indices@.len() as int,
                );
                v@.len() == end - start && forall|j: int|
                    0 <= j < v@.len() ==> #[trigger] v@[j].bytes() == self.tree_bucket(
                        indices@[start + j] as int,
                    )
            },
    {
        let total: usize = indices.len();
        let start: usize = chunk_idx * NUM_BUCKETS_PER_READ_PATHS_CHUNK;
        let mut count: usize = total - start;
        if count > NUM_BUCKETS_PER_READ_PATHS_CHUNK {
            count = NUM_BUCKETS_PER_READ_PATHS_CHUNK;
        }
        let mut out: Vec<Bucket> = Vec::new();
        for j in 0..count
            invariant
                self.wf(),
                total == indices@.len(),
                start + count <= total,
                forall|jj: int|
                    0 <= jj < indices@.len() ==> 1 <= #[trigger] indices@[jj] < TREE_SLOTS,
                out@.len() == j,
                forall|k: int|
                    0 <= k < j ==> #[trigger] out@[k].bytes() == self.tree_bucket(
                        indices@[start + k] as int,
                    ),
        {
            out.push(self.bucket_at(indices[start + j]));
        }
        Ok(out)
    }

    /// Stores the path-set indices and returns the buckets at them, in
    /// order.
    pub fn read_and_store_path_indices(&mut self, pathset: Vec<usize>) -> (r: Result<
        Vec<Bucket>,
        MycoError,
    >)
        requires
            old(self).wf(),
            forall|j: int| 0 <= j < pathset@.len() ==> 1 <= #[trigger] pathset@[j] < TREE_SLOTS,
            forall|a: int, b: int| 0 <= a < b < pathset@.len() ==> pathset@[a] != pathset@[b],
        ensures
            r is Ok,
            final(self).wf(),
            final(self).pathset_indices == pathset,
            final(self).tree == old(self).tree,
            final(self).prf_keys == old(self).prf_keys,
            final(self).epoch == old(self).epoch,
            r matches Ok(v) ==> v@.len() == pathset@.len() && (forall|j: int|
                0 <= j < v@.len() ==> #[trigger] v@[j].bytes() == final(self).tree_bucket(
                    pathset@[j] as int,
                )) && (forall|j: int| 0 <= j < v@.len() ==> #[trigger] v@[j]@.len() <= Z) && (
            forall|j: int| 0 <= j < v@.len() ==> bucket_blocks_ok(#[trigger] v@[j])),
    {
        let out: Vec<Bucket> = self.buckets_at(&pathset);
        self.pathset_indices = pathset;
        Ok(out)
    }

    /// Deep copies of the buckets at the given indices, in order.
    fn buckets_at(&self, indices: &Vec<usize>) -> (r: Vec<Bucket>)
        requires
            self.wf(),
            forall|j: int| 0 <= j < indices@.len() ==> 1 <= #[trigger] indices@[j] < TREE_SLOTS,
        ensures
            r@.len() == indices@.len(),
            forall|j: int|
                0 <= j < r@.len() ==> #[trigger] r@[j].bytes() == self.tree_bucket(
                    indices@[j] as int,
                ),
            forall|j: int| 0 <= j < r@.len() ==> #[trigger] r@[j]@.len() <= Z,
            forall|j: int| 0 <= j < r@.len() ==> bucket_blocks_ok(#[trigger] r@[j]),
    {
        let mut out: Vec<Bucket> = Vec::new();
        let n: usize = indices.len();
        for j in 0..n
            invariant
                self.wf(),
                n == indices@.len(),
                forall|jj: int|
                    0 <= jj < indices@.len() ==> 1 <= #[trigger] indices@[jj] < TREE_SLOTS,
                out@.len() == j,
                forall|k: int|
                    0 <= k < j ==> #[trigger] out@[k].bytes() == self.tree_bucket(
                        indices@[k] as int,
                    ),
                forall|k: int| 0 <= k < j ==> #[trigger] out@[k]@.len() <= Z,
                forall|k: int| 0 <= k < j ==> bucket_blocks_ok(#[trigger] out@[k]),
        {
            let b: Bucket = self.bucket_at(indices[j]);
            out.push(b);
            proof {
                assert(out@[j as int] == b);
                assert(out@[j as int].bytes() == self.tree_bucket(indices@[j as int] as int));
                assert(out@[j as int]@.len() <= Z);
            }
        }
        out
    }

    /// The buckets at the given indices, in order, without touching the
    /// stored path-set.
    pub fn read_paths_client(&self, pathset: Vec<usize>) -> (r: Result<Vec<Bucket>, MycoError>)
        requires
            self.wf(),
            forall|j: int| 0 <= j < pathset@.len() ==> 1 <= #[trigger] pathset@[j] < TREE_SLOTS,
        ensures
            r is Ok,
            r matches Ok(v) ==> v@.len() == pathset@.len() && forall|j: int|
                0 <= j < v@.len() ==> #[trigger] v@[j].bytes() == self.tree_bucket(
                    pathset@[j] as int,
                ),
    {
        let mut out: Vec<Bucket> = Vec::new();
        let n: usize = pathset.len();
        for j in 0..n
            invariant
                self.wf(),
                n == pathset@.len(),
                forall|jj: int|
                    0 <= jj < pathset@.len() ==> 1 <= #[trigger] pathset@[jj] < TREE_SLOTS,
                out@.len() == j,
                forall|k: int|
                    0 <= k < j ==> #[trigger] out@[k].bytes() == self.tree_bucket(
                        pathset@[k] as int,
                    ),
        {
            out.push(self.bucket_at(pathset[j]));
        }
        Ok(out)
    }
}

} // verus!
