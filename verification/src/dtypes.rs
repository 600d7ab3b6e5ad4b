//! Core data types: keys, tree paths, message blocks, buckets, and the
//! metadata entries that shadow each bucket.

use vstd::prelude::*;

use crate::constants::{BLOCK_SIZE, D, LAMBDA, MAX_BLOCK_BYTES};
use crate::crypto::{random_bytes, shuffle_seeded};

verus! {

/// Expiry epoch attached to a metadata entry; `0` marks a padding entry.
pub type Timestamp = u64;

/// One step of a root-to-leaf walk in the binary tree.
#[derive(Clone, Copy, Debug, PartialEq, Eq, Structural)]
pub enum Direction {
    /// Toward the left child (bit 0).
    Left,
    /// Toward the right child (bit 1).
    Right,
}

/// The bit a direction packs to.
pub open spec fn dir_bit(d: Direction) -> u8 {
    match d {
        Direction::Left => 0,
        Direction::Right => 1,
    }
}

/// The direction the low bit of a byte unpacks to.
pub open spec fn bit_dir(b: u8) -> Direction {
    if b & 1 == 1 {
        Direction::Right
    } else {
        Direction::Left
    }
}

impl Direction {
    /// The bit this direction packs to.
    pub fn to_bit(self) -> (b: u8)
        ensures
            b == dir_bit(self),
    {
        match self {
            Direction::Left => 0,
            Direction::Right => 1,
        }
    }

    /// The direction the low bit of `b` unpacks to.
    pub fn from_bit(b: u8) -> (d: Direction)
        ensures
            d == bit_dir(b),
    {
        if b & 1 == 1 {
            Direction::Right
        } else {
            Direction::Left
        }
    }
}

/// The one-based heap index of the node reached by walking `p` from the
/// root: the root is 1, and node `i` has children `2i` and `2i + 1`.
pub open spec fn node_index(p: Seq<Direction>) -> nat
    decreases p.len(),
{
    if p.len() == 0 {
        1
    } else {
        2 * node_index(p.drop_last()) + dir_bit(p.last()) as nat
    }
}

/// A binary path in the tree: a sequence of directions from the root.
#[derive(Debug, PartialEq, Eq)]
pub struct Path(pub Vec<Direction>);

impl View for Path {
    type V = Seq<Direction>;

    open spec fn view(&self) -> Seq<Direction> {
        self.0@
    }
}

impl Clone for Path {
    fn clone(&self) -> (r: Self)
        ensures
            r@ == self@,
    {
        let mut dirs: Vec<Direction> = Vec::new();
        let n: usize = self.0.len();
        for i in 0..n
            invariant
                n == self.0.len(),
                dirs@ == self.0@.take(i as int),
        {
            dirs.push(self.0[i]);
            assert(dirs@ =~= self.0@.take(i + 1));
        }
        assert(dirs@ =~= self.0@);
        Path(dirs)
    }
}

impl Path {
    /// A path made of the given directions.
    pub fn new(directions: Vec<Direction>) -> (r: Self)
        ensures
            r@ == directions@,
    {
        Path(directions)
    }

    /// The number of directions in the path.
    pub fn len(&self) -> (n: usize)
        ensures
            n == self@.len(),
    {
        self.0.len()
    }

    /// Appends one direction.
    pub fn push(&mut self, direction: Direction)
        ensures
            final(self)@ == old(self)@.push(direction),
    {
        self.0.push(direction);
    }

    /// Whether the path is empty (the root).
    pub fn is_empty(&self) -> (r: bool)
        ensures
            r == (self@.len() == 0),
    {
        self.0.len() == 0
    }

    /// A uniformly random path of length `D`.
    pub fn random() -> (r: Self)
        ensures
            r@.len() == D,
    {
        let bytes = random_bytes((D + 7) / 8);
        Path::from_bytes(&bytes)
    }
}

/// The direction packed at bit `i` of a little-endian bit-packed byte
/// sequence: bit `i % 8` of byte `i / 8`.
pub open spec fn unpacked_dir(bytes: Seq<u8>, i: int) -> Direction {
    bit_dir(bytes[i / 8] >> (i % 8) as u8)
}

/// The first `n` directions packed in `bytes`.
pub open spec fn unpack_bits(bytes: Seq<u8>, n: int) -> Seq<Direction> {
    Seq::new(n as nat, |i: int| unpacked_dir(bytes, i))
}

impl Path {
    /// Packs the path into `⌈len/8⌉` bytes, little-endian within each byte;
    /// unused high bits are zero.  Unpacking the result with
    /// [`Path::from_bytes`] gives the path back (for paths of length `D`).
    pub fn to_bytes(&self) -> (r: Vec<u8>)
        requires
            self@.len() + 7 <= usize::MAX,
        ensures
            r@.len() == (self@.len() + 7) / 8,
            unpack_bits(r@, self@.len() as int) == self@,
            forall|b: int, k: u8|
                0 <= b < r@.len() && k < 8 && b * 8 + k >= self@.len() ==> (r@[b] >> k) & 1 == 0,
    {
        let n: usize = self.0.len();
        let nb: usize = (n + 7) / 8;
        let mut bytes: Vec<u8> = Vec::new();
        for _b in 0..nb
            invariant
                bytes@.len() == _b,
                forall|bi: int| 0 <= bi < _b ==> bytes@[bi] == 0u8,
        {
            bytes.push(0u8);
        }
        proof {
            assert(forall|bi: int, k: u8|
                0 <= bi < nb && k < 8 ==> ((bytes@[bi] >> k) & 1) == 0) by {
                assert(forall|k: u8| k < 8 ==> ((0u8 >> k) & 1) == 0) by (bit_vector);
            }
        }
        for i in 0..n
            invariant
                n == self@.len(),
                n + 7 <= usize::MAX,
                nb == (n + 7) / 8,
                bytes@.len() == nb,
                forall|j: int| 0 <= j < i ==> unpacked_dir(bytes@, j) == self@[j],
                forall|bi: int, k: u8|
                    0 <= bi < nb && k < 8 && bi * 8 + k >= i ==> (bytes@[bi] >> k) & 1 == 0,
        {
            let bi: usize = i / 8;
            let pos: u8 = (i % 8) as u8;
            assert(bi < nb);
            let d: Direction = self.0[i];
            let ghost bytes0 = bytes@;
            match d {
                Direction::Right => {
                    let updated: u8 = bytes[bi] | (1u8 << pos);
                    bytes.set(bi, updated);
                },
                Direction::Left => {},
            }
            proof {
                let b0: u8 = bytes0[bi as int];
                let b1: u8 = bytes@[bi as int];
                if d is Right {
                    assert(forall|k: u8|
                        k < 8 ==> ((b0 | (1u8 << pos)) >> k) & 1 == (if k == pos {
                            1u8
                        } else {
                            (b0 >> k) & 1
                        })) by (bit_vector)
                        requires pos < 8;
                } else {
                    assert((b1 >> pos) & 1 == 0);
                }
                assert(8 * (i as int / 8) + (i as int % 8) == i as int);
                assert forall|j: int| 0 <= j < i + 1 implies unpacked_dir(bytes@, j) == self@[j] by {
                    assert(8 * (j / 8) + (j % 8) == j);
                    if j < i {
                        if j / 8 == bi as int {
                            assert((j % 8) as u8 != pos);
                        }
                    }
                }
                assert forall|bi2: int, k: u8|
                    0 <= bi2 < nb && k < 8 && bi2 * 8 + k >= i + 1 implies (bytes@[bi2] >> k) & 1
                    == 0 by {
                    assert((bytes0[bi2] >> k) & 1 == 0);
                    if bi2 == bi as int {
                        assert(k != pos);
                    } else {
                        assert(bytes@[bi2] == bytes0[bi2]);
                    }
                }
            }
        }
        assert(unpack_bits(bytes@, self@.len() as int) =~= self@);
        bytes
    }

    /// Unpacks a little-endian bit-packed byte string into a path of up to
    /// `D` directions (fewer when the input holds fewer bits).
    pub fn from_bytes(bytes: &Vec<u8>) -> (r: Path)
        ensures
            r@ == unpack_bits(bytes@, vstd::math::min(D as int, (bytes@.len() * 8) as int)),
            bytes@.len() * 8 >= D ==> r@.len() == D,
    {
        let nbytes: usize = bytes.len();
        let n: usize = if nbytes >= (D + 7) / 8 {
            D
        } else {
            nbytes * 8
        };
        assert(n == vstd::math::min(D as int, (bytes@.len() * 8) as int));
        let mut dirs: Vec<Direction> = Vec::new();
        for i in 0..n
            invariant
                n <= bytes@.len() * 8,
                dirs@.len() == i,
                forall|j: int| 0 <= j < i ==> dirs@[j] == unpacked_dir(bytes@, j),
        {
            let bi: usize = i / 8;
            let pos: u8 = (i % 8) as u8;
            assert(bi < bytes@.len()) by {
                assert(8 * (i as int / 8) + (i as int % 8) == i as int);
            }
            let d = Direction::from_bit(bytes[bi] >> pos);
            dirs.push(d);
        }
        let r = Path(dirs);
        assert(r@ =~= unpack_bits(bytes@, n as int));
        r
    }

    /// The path from the root to the node with one-based heap index
    /// `value`: walking the result from the root reaches `value` again.
    pub fn from_index(value: usize) -> (r: Path)
        requires
            value >= 1,
        ensures
            node_index(r@) == value,
        decreases value,
    {
        if value <= 1 {
            let r = Path(Vec::new());
            assert(r@ =~= Seq::<Direction>::empty());
            r
        } else {
            let mut r = Path::from_index(value / 2);
            let d: Direction = if value % 2 == 1 {
                Direction::Right
            } else {
                Direction::Left
            };
            let ghost prefix = r@;
            r.0.push(d);
            proof {
                assert(r@.drop_last() =~= prefix);
            }
            r
        }
    }
}

/// A block of ciphertext (or uniform random padding) bytes.
#[derive(Debug, PartialEq, Eq, Hash)]
pub struct Block(pub Vec<u8>);

impl View for Block {
    type V = Seq<u8>;

    open spec fn view(&self) -> Seq<u8> {
        self.0@
    }
}

impl Clone for Block {
    fn clone(&self) -> (r: Self)
        ensures
            r@ == self@,
    {
        Block(copy_bytes(&self.0))
    }
}

impl Block {
    /// A block holding the given bytes.
    pub fn new(data: Vec<u8>) -> (r: Self)
        ensures
            r@ == data@,
    {
        Block(data)
    }

    /// A block of `BLOCK_SIZE` uniformly random bytes.
    pub fn new_random() -> (r: Self)
        ensures
            r@.len() == BLOCK_SIZE,
    {
        Block(random_bytes(BLOCK_SIZE))
    }
}

/// An ordered list of blocks stored at one tree node.
#[derive(Debug, PartialEq, Eq)]
pub struct Bucket(pub Vec<Block>);

impl View for Bucket {
    type V = Seq<Block>;

    open spec fn view(&self) -> Seq<Block> {
        self.0@
    }
}

impl Bucket {
    /// The byte sequences of the blocks, in order.
    pub open spec fn bytes(&self) -> Seq<Seq<u8>> {
        Seq::new(self@.len(), |i: int| self@[i]@)
    }

    /// An empty bucket.
    pub fn new_empty() -> (r: Self)
        ensures
            r@.len() == 0,
    {
        Bucket(Vec::new())
    }

    /// Whether the bucket holds no blocks.
    pub fn is_empty(&self) -> (r: bool)
        ensures
            r == (self@.len() == 0),
    {
        self.0.len() == 0
    }

    /// The number of blocks in the bucket.
    pub fn len(&self) -> (n: usize)
        ensures
            n == self@.len(),
    {
        self.0.len()
    }

    /// Appends a block.
    pub fn push(&mut self, block: Block)
        ensures
            final(self)@ == old(self)@.push(block),
            final(self).bytes() =~= old(self).bytes().push(block@),
    {
        self.0.push(block);
    }

    /// The block at `index`, if any.
    pub fn get(&self, index: usize) -> (r: Option<&Block>)
        ensures
            match r {
                Some(b) => index < self@.len() && *b == self@[index as int],
                None => index >= self@.len(),
            },
    {
        self.0.get(index)
    }

    /// Permutes the blocks by the permutation the 32-byte seed determines:
    /// any equal-length list shuffled with the same seed is rearranged by
    /// the identical permutation.
    pub fn shuffle(&mut self, seed: &Vec<u8>)
        requires
            seed@.len() == 32,
        ensures
            final(self)@.to_multiset() == old(self)@.to_multiset(),
            final(self)@ == crate::crypto::apply_perm(
                old(self)@,
                crate::crypto::perm_of(seed@, old(self)@.len()),
            ),
            crate::crypto::perm_valid(
                crate::crypto::perm_of(seed@, old(self)@.len()),
                old(self)@.len(),
            ),
    {
        shuffle_seeded(&mut self.0, seed);
    }
}

/// Every block of the bucket fits the machine cap on block size.
pub open spec fn bucket_blocks_ok(b: Bucket) -> bool {
    forall|k: int| 0 <= k < b@.len() ==> (#[trigger] b@[k])@.len() <= MAX_BLOCK_BYTES
}

impl Clone for Bucket {
    fn clone(&self) -> (r: Self)
        ensures
            r.bytes() == self.bytes(),
            r@.len() == self@.len(),
            forall|i: int| 0 <= i < r@.len() ==> (#[trigger] r@[i])@ == self@[i]@,
    {
        let mut blocks: Vec<Block> = Vec::new();
        let n: usize = self.0.len();
        for i in 0..n
            invariant
                n == self.0.len(),
                blocks@.len() == i,
                forall|j: int| 0 <= j < i ==> blocks@[j]@ == self.0@[j]@,
        {
            blocks.push(self.0[i].clone());
        }
        let r = Bucket(blocks);
        assert(r.bytes() =~= self.bytes());
        r
    }
}

impl Default for Bucket {
    /// An empty bucket.
    fn default() -> (r: Self)
        ensures
            r@.len() == 0,
    {
        Bucket(Vec::new())
    }
}

/// A cryptographic key: `LAMBDA / 8` opaque bytes (padding entries carry an
/// empty one).
#[derive(Debug, PartialEq, Eq, Hash)]
pub struct Key(pub Vec<u8>);

impl View for Key {
    type V = Seq<u8>;

    open spec fn view(&self) -> Seq<u8> {
        self.0@
    }
}

impl Clone for Key {
    fn clone(&self) -> (r: Self)
        ensures
            r@ == self@,
    {
        Key(copy_bytes(&self.0))
    }
}

impl Key {
    /// A key holding the given bytes.
    pub fn new(bytes: Vec<u8>) -> (r: Key)
        ensures
            r@ == bytes@,
    {
        Key(bytes)
    }

    /// A fresh uniformly random key of `LAMBDA / 8` bytes.
    pub fn random() -> (r: Key)
        ensures
            r@.len() == LAMBDA / 8,
    {
        Key(random_bytes(LAMBDA / 8))
    }
}

/// The metadata entries shadowing one bucket: for each block, its intended
/// destination path, the per-epoch oblivious key, and its expiry epoch.
#[derive(Debug, PartialEq)]
pub struct Metadata(pub Vec<(Path, Key, Timestamp)>);

/// The plain-value form of a metadata entry: directions, key bytes, expiry.
pub open spec fn entry_view(e: (Path, Key, Timestamp)) -> (Seq<Direction>, Seq<u8>, Timestamp) {
    (e.0@, e.1@, e.2)
}

impl View for Metadata {
    type V = Seq<(Path, Key, Timestamp)>;

    open spec fn view(&self) -> Seq<(Path, Key, Timestamp)> {
        self.0@
    }
}

impl Metadata {
    /// The plain-value entries, in order.
    pub open spec fn entries(&self) -> Seq<(Seq<Direction>, Seq<u8>, Timestamp)> {
        Seq::new(self@.len(), |i: int| entry_view(self@[i]))
    }

    /// Metadata holding a single entry.
    pub fn new(path: Path, key: Key, timestamp: Timestamp) -> (r: Self)
        ensures
            r.entries() =~= seq![(path@, key@, timestamp)],
    {
        Metadata(vec![(path, key, timestamp)])
    }

    /// An empty metadata bucket.
    pub fn new_empty() -> (r: Self)
        ensures
            r@.len() == 0,
    {
        Metadata(Vec::new())
    }

    /// The number of entries.
    pub fn len(&self) -> (n: usize)
        ensures
            n == self@.len(),
    {
        self.0.len()
    }

    /// Appends an entry.
    pub fn push(&mut self, path: Path, key: Key, timestamp: Timestamp)
        ensures
            final(self)@ == old(self)@.push((path, key, timestamp)),
            final(self).entries() =~= old(self).entries().push((path@, key@, timestamp)),
    {
        self.0.push((path, key, timestamp));
    }

    /// The entry at `index`, if any.
    pub fn get(&self, index: usize) -> (r: Option<&(Path, Key, Timestamp)>)
        ensures
            match r {
                Some(e) => index < self@.len() && *e == self@[index as int],
                None => index >= self@.len(),
            },
    {
        self.0.get(index)
    }

    /// Permutes the entries by the permutation the 32-byte seed
    /// determines: a bucket and its metadata sibling shuffled with the
    /// same seed undergo the identical permutation and so stay aligned.
    pub fn shuffle(&mut self, seed: &Vec<u8>)
        requires
            seed@.len() == 32,
        ensures
            final(self)@.to_multiset() == old(self)@.to_multiset(),
            final(self)@ == crate::crypto::apply_perm(
                old(self)@,
                crate::crypto::perm_of(seed@, old(self)@.len()),
            ),
            crate::crypto::perm_valid(
                crate::crypto::perm_of(seed@, old(self)@.len()),
                old(self)@.len(),
            ),
    {
        shuffle_seeded(&mut self.0, seed);
    }
}

impl Clone for Metadata {
    fn clone(&self) -> (r: Self)
        ensures
            r.entries() == self.entries(),
            r@.len() == self@.len(),
    {
        let mut entries: Vec<(Path, Key, Timestamp)> = Vec::new();
        let n: usize = self.0.len();
        for i in 0..n
            invariant
                n == self.0.len(),
                entries@.len() == i,
                forall|j: int| 0 <= j < i ==> entry_view(entries@[j]) == entry_view(self.0@[j]),
        {
            let e = &self.0[i];
            entries.push((e.0.clone(), e.1.clone(), e.2));
        }
        let r = Metadata(entries);
        assert(r.entries() =~= self.entries());
        r
    }
}

impl Default for Metadata {
    /// An empty metadata bucket.
    fn default() -> (r: Self)
        ensures
            r@.len() == 0,
    {
        Metadata(Vec::new())
    }
}

/// An exact copy of a byte vector.
pub fn copy_bytes(v: &Vec<u8>) -> (r: Vec<u8>)
    ensures
        r@ == v@,
{
    let mut r: Vec<u8> = Vec::new();
    let n: usize = v.len();
    for i in 0..n
        invariant
            n == v.len(),
            r@ == v@.take(i as int),
    {
        r.push(v[i]);
        assert(r@ =~= v@.take(i + 1));
    }
    assert(r@ =~= v@);
    r
}

} // verus!
