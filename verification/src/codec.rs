//! Canonical byte serialization for the bucket tree and the metadata
//! tree, with a verified round trip: parsing accepts exactly the
//! encodings this module produces.

use vstd::prelude::*;

use crate::constants::TREE_SLOTS;
use crate::crypto::{be_bytes_of, u64_be_bytes};
use crate::dtypes::{bit_dir, dir_bit, entry_view, Block, Bucket, Direction, Key, Metadata, Path,
    Timestamp};
use crate::tree::BinaryTree;

verus! {

/// The value of the eight big-endian bytes at `pos`.
pub open spec fn dec_u64_at(b: Seq<u8>, pos: int) -> int {
    (b[pos] as u64) * 0x100000000000000 + (b[pos + 1] as u64) * 0x1000000000000 + (b[pos
        + 2] as u64) * 0x10000000000 + (b[pos + 3] as u64) * 0x100000000 + (b[pos + 4] as u64)
        * 0x1000000 + (b[pos + 5] as u64) * 0x10000 + (b[pos + 6] as u64) * 0x100 + (b[pos
        + 7] as u64)
}

/// Decoding the big-endian bytes of `n` yields `n` again.
pub proof fn lemma_u64_codec(n: u64)
    ensures
        forall|b: Seq<u8>, pos: int|
            0 <= pos && b.len() >= pos + 8 && b.subrange(pos, pos + 8) == be_bytes_of(n)
                ==> #[trigger] dec_u64_at(b, pos) == n,
{
    assert(((n >> 56) & 0xff) * 0x100000000000000 + ((n >> 48) & 0xff) * 0x1000000000000 + ((n
        >> 40) & 0xff) * 0x10000000000 + ((n >> 32) & 0xff) * 0x100000000 + ((n >> 24) & 0xff)
        * 0x1000000 + ((n >> 16) & 0xff) * 0x10000 + ((n >> 8) & 0xff) * 0x100 + ((n >> 0) & 0xff)
        == n) by (bit_vector);
    assert((n >> 56) & 0xff < 256 && (n >> 48) & 0xff < 256 && (n >> 40) & 0xff < 256 && (n
        >> 32) & 0xff < 256 && (n >> 24) & 0xff < 256 && (n >> 16) & 0xff < 256 && (n >> 8) & 0xff
        < 256 && (n >> 0) & 0xff < 256) by (bit_vector);
    assert forall|b: Seq<u8>, pos: int|
        0 <= pos && b.len() >= pos + 8 && b.subrange(pos, pos + 8) == be_bytes_of(n) implies
        #[trigger] dec_u64_at(b, pos) == n by {
        assert forall|i: int| 0 <= i < 8 implies b[pos + i] == crate::crypto::be_byte(n, i) by {
            assert(b.subrange(pos, pos + 8)[i] == b[pos + i]);
            assert(be_bytes_of(n)[i] == crate::crypto::be_byte(n, i));
        }
        assert(crate::crypto::be_byte(n, 0) == ((n >> 56) & 0xff) as u8);
        assert(crate::crypto::be_byte(n, 1) == ((n >> 48) & 0xff) as u8);
        assert(crate::crypto::be_byte(n, 2) == ((n >> 40) & 0xff) as u8);
        assert(crate::crypto::be_byte(n, 3) == ((n >> 32) & 0xff) as u8);
        assert(crate::crypto::be_byte(n, 4) == ((n >> 24) & 0xff) as u8);
        assert(crate::crypto::be_byte(n, 5) == ((n >> 16) & 0xff) as u8);
        assert(crate::crypto::be_byte(n, 6) == ((n >> 8) & 0xff) as u8);
        assert(crate::crypto::be_byte(n, 7) == ((n >> 0) & 0xff) as u8);
    }
}

/// The encoding of one length-prefixed byte string.
pub open spec fn enc_bytes(v: Seq<u8>) -> Seq<u8> {
    be_bytes_of(v.len() as u64) + v
}

/// The total parser for one length-prefixed byte string at `pos`.
pub open spec fn sp_bytes(b: Seq<u8>, pos: int) -> Option<(Seq<u8>, int)> {
    if pos + 8 <= b.len() {
        let n = dec_u64_at(b, pos);
        if pos + 8 + n <= b.len() {
            Some((b.subrange(pos + 8, pos + 8 + n), pos + 8 + n))
        } else {
            None
        }
    } else {
        None
    }
}

/// Parsing at the start of an embedded `enc_bytes` yields exactly the
/// embedded string.
pub proof fn lemma_sp_bytes(b: Seq<u8>, pos: int, v: Seq<u8>)
    requires
        0 <= pos,
        v.len() <= u64::MAX,
        pos + enc_bytes(v).len() <= b.len(),
        b.subrange(pos, pos + enc_bytes(v).len() as int) == enc_bytes(v),
    ensures
        sp_bytes(b, pos) == Some((v, pos + enc_bytes(v).len() as int)),
{
    let e = enc_bytes(v);
    assert(b.subrange(pos, pos + 8) =~= e.subrange(0, 8)) by {
        assert forall|i: int| 0 <= i < 8 implies b.subrange(pos, pos + 8)[i] == e.subrange(
            0,
            8,
        )[i] by {
            assert(b.subrange(pos, pos + e.len() as int)[i] == b[pos + i]);
        }
    }
    assert(e.subrange(0, 8) =~= be_bytes_of(v.len() as u64));
    lemma_u64_codec(v.len() as u64);
    assert(dec_u64_at(b, pos) == v.len() as u64);
    assert(b.subrange(pos + 8, pos + 8 + v.len() as int) =~= v) by {
        assert forall|i: int| 0 <= i < v.len() implies b.subrange(
            pos + 8,
            pos + 8 + v.len() as int,
        )[i] == v[i] by {
            assert(b.subrange(pos, pos + e.len() as int)[8 + i] == b[pos + 8 + i]);
            assert(e[8 + i] == v[i]);
        }
    }
}

/// Writes eight big-endian bytes.
fn write_u64(out: &mut Vec<u8>, n: u64)
    ensures
        final(out)@ == old(out)@ + be_bytes_of(n),
{
    let bytes = u64_be_bytes(n);
    let ghost out0 = out@;
    for i in 0..8usize
        invariant
            bytes@ == be_bytes_of(n),
            out@ == out0 + bytes@.take(i as int),
    {
        out.push(bytes[i]);
        assert(out@ =~= out0 + bytes@.take(i + 1));
    }
    assert(out@ =~= out0 + bytes@);
}

/// Writes one length-prefixed byte string.
fn write_bytes(out: &mut Vec<u8>, v: &Vec<u8>)
    ensures
        final(out)@ == old(out)@ + enc_bytes(v@),
{
    write_u64(out, v.len() as u64);
    let ghost out0 = out@;
    let n: usize = v.len();
    for i in 0..n
        invariant
            n == v@.len(),
            out@ == out0 + v@.take(i as int),
    {
        out.push(v[i]);
        assert(out@ =~= out0 + v@.take(i + 1));
    }
    assert(out@ =~= out0 + v@);
    assert(out@ =~= old(out)@ + enc_bytes(v@));
}

/// Reads eight big-endian bytes at `pos`.
fn read_u64(buf: &Vec<u8>, pos: usize) -> (r: Option<(u64, usize)>)
    ensures
        pos + 8 <= buf@.len() ==> (r matches Some(vp) && vp.0 == dec_u64_at(buf@, pos as int)
            && vp.1 == pos + 8),
        pos + 8 > buf@.len() ==> r is None,
{
    let n: usize = buf.len();
    if n < 8 || pos > n - 8 {
        return None;
    }
    let v: u64 = (buf[pos] as u64) * 0x100000000000000 + (buf[pos + 1] as u64) * 0x1000000000000
        + (buf[pos + 2] as u64) * 0x10000000000 + (buf[pos + 3] as u64) * 0x100000000 + (buf[pos
        + 4] as u64) * 0x1000000 + (buf[pos + 5] as u64) * 0x10000 + (buf[pos + 6] as u64) * 0x100
        + (buf[pos + 7] as u64);
    Some((v, pos + 8))
}

/// Reads one length-prefixed byte string at `pos`.
fn read_bytes(buf: &Vec<u8>, pos: usize) -> (r: Option<(Vec<u8>, usize)>)
    ensures
        match r {
            Some(vp) => sp_bytes(buf@, pos as int) matches Some(sp) && vp.0@ == sp.0 && vp.1
                == sp.1,
            None => sp_bytes(buf@, pos as int) is None,
        },
{
    let (n, p1): (u64, usize) = match read_u64(buf, pos) {
        Some(x) => x,
        None => {
            return None;
        },
    };
    let total: usize = buf.len();
    if n > (total - p1) as u64 {
        return None;
    }
    let count: usize = n as usize;
    let mut v: Vec<u8> = Vec::new();
    for i in 0..count
        invariant
            total == buf@.len(),
            p1 + count <= total,
            v@ == buf@.subrange(p1 as int, p1 as int + i as int),
    {
        v.push(buf[p1 + i]);
        assert(v@ =~= buf@.subrange(p1 as int, p1 + i + 1));
    }
    Some((v, p1 + count))
}

/// The encoding of a list of blocks, first to last.
pub open spec fn enc_blocks(s: Seq<Seq<u8>>) -> Seq<u8>
    decreases s.len(),
{
    if s.len() == 0 {
        Seq::empty()
    } else {
        enc_blocks(s.drop_last()) + enc_bytes(s.last())
    }
}

/// The encoding of one bucket: a count, then its blocks.
pub open spec fn enc_bucket(s: Seq<Seq<u8>>) -> Seq<u8> {
    be_bytes_of(s.len() as u64) + enc_blocks(s)
}

/// The total parser for `count` blocks at `pos`.
pub open spec fn sp_blocks(b: Seq<u8>, pos: int, count: int) -> Option<(Seq<Seq<u8>>, int)>
    decreases count,
{
    if count <= 0 {
        Some((Seq::empty(), pos))
    } else {
        match sp_blocks(b, pos, count - 1) {
            None => None,
            Some(pre) => match sp_bytes(b, pre.1) {
                None => None,
                Some(vp) => Some((pre.0.push(vp.0), vp.1)),
            },
        }
    }
}

/// Parsing at the start of an embedded `enc_blocks` yields exactly the
/// embedded blocks.
pub proof fn lemma_sp_blocks(b: Seq<u8>, pos: int, s: Seq<Seq<u8>>)
    requires
        0 <= pos,
        s.len() <= u64::MAX,
        forall|i: int| 0 <= i < s.len() ==> (#[trigger] s[i]).len() <= u64::MAX,
        pos + enc_blocks(s).len() <= b.len(),
        b.subrange(pos, pos + enc_blocks(s).len() as int) == enc_blocks(s),
    ensures
        sp_blocks(b, pos, s.len() as int) == Some((s, pos + enc_blocks(s).len() as int)),
    decreases s.len(),
{
    if s.len() == 0 {
        assert(sp_blocks(b, pos, 0) == Some((Seq::<Seq<u8>>::empty(), pos)));
        assert(s =~= Seq::<Seq<u8>>::empty());
    } else {
        let head = s.drop_last();
        let tail = s.last();
        let eh = enc_blocks(head);
        let et = enc_bytes(tail);
        assert(enc_blocks(s) == eh + et);
        assert(b.subrange(pos, pos + eh.len() as int) =~= eh) by {
            assert forall|i: int| 0 <= i < eh.len() implies b.subrange(
                pos,
                pos + eh.len() as int,
            )[i] == eh[i] by {
                assert(b.subrange(pos, pos + enc_blocks(s).len() as int)[i] == b[pos + i]);
                assert((eh + et)[i] == eh[i]);
            }
        }
        lemma_sp_blocks(b, pos, head);
        let p1 = pos + eh.len() as int;
        assert(b.subrange(p1, p1 + et.len() as int) =~= et) by {
            assert forall|i: int| 0 <= i < et.len() implies b.subrange(p1, p1 + et.len() as int)[i]
                == et[i] by {
                assert(b.subrange(pos, pos + enc_blocks(s).len() as int)[eh.len() + i] == b[p1
                    + i]);
                assert((eh + et)[eh.len() + i] == et[i]);
            }
        }
        lemma_sp_bytes(b, p1, tail);
        assert(head.push(tail) =~= s);
    }
}

/// Serializes a bucket's blocks.
fn write_bucket(out: &mut Vec<u8>, bk: &Bucket)
    ensures
        final(out)@ == old(out)@ + enc_bucket(bk.bytes()),
{
    write_u64(out, bk.0.len() as u64);
    let ghost out0 = out@;
    let n: usize = bk.0.len();
    for i in 0..n
        invariant
            n == bk@.len(),
            out@ == out0 + enc_blocks(bk.bytes().take(i as int)),
    {
        proof {
            assert(enc_blocks(bk.bytes().take(0)) =~= Seq::<u8>::empty());
            assert(out0 + enc_blocks(bk.bytes().take(0)) =~= out0);
        }
        write_bytes(out, &bk.0[i].0);
        proof {
            assert(bk.bytes().take(i + 1).drop_last() =~= bk.bytes().take(i as int));
            assert(bk.bytes().take(i + 1).last() == bk.0@[i as int]@);
            assert(out@ =~= out0 + enc_blocks(bk.bytes().take(i + 1)));
        }
    }
    proof {
        assert(bk.bytes().take(n as int) =~= bk.bytes());
        assert(enc_blocks(bk.bytes().take(0)) =~= Seq::<u8>::empty());
        assert(out0 =~= out0 + enc_blocks(bk.bytes().take(0)));
        assert(out@ =~= old(out)@ + enc_bucket(bk.bytes()));
    }
}

/// Parses one bucket (count plus blocks) at `pos`.
fn read_bucket(buf: &Vec<u8>, pos: usize) -> (r: Option<(Bucket, usize)>)
    ensures
        match r {
            Some(bp) => {
                &&& read_bucket_sp(buf@, pos as int) matches Some(sp)
                &&& bp.0.bytes() == sp.0
                &&& bp.1 == sp.1
            },
            None => read_bucket_sp(buf@, pos as int) is None,
        },
{
    let (count, p1): (u64, usize) = match read_u64(buf, pos) {
        Some(x) => x,
        None => {
            return None;
        },
    };
    if count > buf.len() as u64 {
        return None;
    }
    let n: usize = count as usize;
    let mut blocks: Vec<Block> = Vec::new();
    let mut p: usize = p1;
    for i in 0..n
        invariant
            p1 == pos + 8,
            pos + 8 <= buf@.len(),
            dec_u64_at(buf@, pos as int) == count,
            n == count,
            count <= buf@.len(),
            sp_blocks(buf@, p1 as int, i as int) matches Some(sp) && sp.0.len() == i && sp.1
                == p && blocks@.len() == i,
            sp_blocks(buf@, p1 as int, i as int) matches Some(sp) && forall|j: int|
                0 <= j < i ==> (#[trigger] blocks@[j])@ == sp.0[j],
            p <= buf@.len(),
    {
        let (v, p2): (Vec<u8>, usize) = match read_bytes(buf, p) {
            Some(x) => x,
            None => {
                proof {
                    lemma_sp_blocks_extend_fail(buf@, p1 as int, i as int, n as int);
                    assert(sp_blocks(buf@, p1 as int, n as int) is None);
                    assert(dec_u64_at(buf@, pos as int) == count);
                    assert(read_bucket_sp(buf@, pos as int) is None);
                }
                return None;
            },
        };
        blocks.push(Block::new(v));
        proof {
            let sp_prev = sp_blocks(buf@, p1 as int, i as int).unwrap();
            assert(sp_blocks(buf@, p1 as int, i + 1) matches Some(spn) && spn.0 == sp_prev.0.push(
                v@,
            ) && spn.1 == p2 as int);
        }
        p = p2;
    }
    let bucket = Bucket(blocks);
    proof {
        let sp = sp_blocks(buf@, p1 as int, n as int).unwrap();
        assert(bucket.bytes() =~= sp.0);
    }
    Some((bucket, p))
}

/// The total parser for one bucket at `pos`: its count, then that many
/// blocks.  The count is capped by the buffer length, which every real
/// encoding satisfies.
pub open spec fn read_bucket_sp(b: Seq<u8>, pos: int) -> Option<(Seq<Seq<u8>>, int)> {
    if pos + 8 <= b.len() {
        let count = dec_u64_at(b, pos);
        if count <= b.len() {
            sp_blocks(b, pos + 8, count)
        } else {
            None
        }
    } else {
        None
    }
}

/// Every block costs at least its eight-byte length prefix.
proof fn lemma_enc_blocks_len(s: Seq<Seq<u8>>)
    ensures
        enc_blocks(s).len() >= 8 * s.len(),
    decreases s.len(),
{
    if s.len() > 0 {
        lemma_enc_blocks_len(s.drop_last());
    }
}

/// If parsing `want` blocks from `pos` succeeds up to `have` and the next
/// block fails, parsing `want` blocks fails.
proof fn lemma_sp_blocks_extend_fail(b: Seq<u8>, pos: int, have: int, want: int)
    requires
        0 <= have < want,
        sp_blocks(b, pos, have) is Some,
        sp_bytes(b, sp_blocks(b, pos, have).unwrap().1) is None,
    ensures
        sp_blocks(b, pos, want) is None,
    decreases want,
{
    if want == have + 1 {
    } else {
        lemma_sp_blocks_extend_fail(b, pos, have, want - 1);
    }
}

/// Parsing at the start of an embedded `enc_bucket` yields exactly the
/// embedded bucket.
pub proof fn lemma_read_bucket_sp(b: Seq<u8>, pos: int, s: Seq<Seq<u8>>)
    requires
        0 <= pos,
        s.len() <= u64::MAX,
        forall|i: int| 0 <= i < s.len() ==> (#[trigger] s[i]).len() <= u64::MAX,
        pos + enc_bucket(s).len() <= b.len(),
        b.subrange(pos, pos + enc_bucket(s).len() as int) == enc_bucket(s),
    ensures
        read_bucket_sp(b, pos) == Some((s, pos + enc_bucket(s).len() as int)),
{
    let eb = enc_blocks(s);
    assert(b.subrange(pos, pos + 8) =~= be_bytes_of(s.len() as u64)) by {
        assert forall|i: int| 0 <= i < 8 implies #[trigger] b.subrange(pos, pos + 8)[i]
            == be_bytes_of(s.len() as u64)[i] by {
            assert(b.subrange(pos, pos + enc_bucket(s).len() as int)[i] == b[pos + i]);
            assert(enc_bucket(s)[i] == be_bytes_of(s.len() as u64)[i]);
        }
    }
    lemma_u64_codec(s.len() as u64);
    assert(dec_u64_at(b, pos) == s.len() as u64);
    assert(b.subrange(pos + 8, pos + 8 + eb.len() as int) =~= eb) by {
        assert forall|i: int| 0 <= i < eb.len() implies b.subrange(
            pos + 8,
            pos + 8 + eb.len() as int,
        )[i] == eb[i] by {
            assert(b.subrange(pos, pos + enc_bucket(s).len() as int)[8 + i] == b[pos + 8 + i]);
            assert(enc_bucket(s)[8 + i] == eb[i]);
        }
    }
    lemma_sp_blocks(b, pos + 8, s);
    lemma_enc_blocks_len(s);
    assert(s.len() <= b.len());
}

/// A metadata entry as plain values: directions, key bytes, expiry.
pub type PlainEntry = (Seq<Direction>, Seq<u8>, Timestamp);

/// A path's directions as bytes, one per direction.
pub open spec fn dirs_bytes(p: Seq<Direction>) -> Seq<u8> {
    p.map_values(|d: Direction| dir_bit(d))
}

/// The encoding of one metadata entry: the path bytes, the key bytes,
/// and the expiry epoch.
pub open spec fn enc_entry(e: PlainEntry) -> Seq<u8> {
    enc_bytes(dirs_bytes(e.0)) + enc_bytes(e.1) + be_bytes_of(e.2)
}

/// The total parser for one metadata entry at `pos`; only canonical
/// direction bytes (0 or 1) are accepted.
pub open spec fn sp_entry(b: Seq<u8>, pos: int) -> Option<(PlainEntry, int)> {
    match sp_bytes(b, pos) {
        None => None,
        Some(db) => if forall|i: int| 0 <= i < db.0.len() ==> #[trigger] db.0[i] < 2 {
            match sp_bytes(b, db.1) {
                None => None,
                Some(kb) => if kb.1 + 8 <= b.len() {
                    Some(
                        (
                            (
                                db.0.map_values(|x: u8| bit_dir(x)),
                                kb.0,
                                dec_u64_at(b, kb.1) as u64,
                            ),
                            kb.1 + 8,
                        ),
                    )
                } else {
                    None
                },
            }
        } else {
            None
        },
    }
}

/// Parsing at the start of an embedded `enc_entry` yields exactly the
/// embedded entry.
pub proof fn lemma_sp_entry(b: Seq<u8>, pos: int, e: PlainEntry)
    requires
        0 <= pos,
        e.0.len() <= u64::MAX,
        e.1.len() <= u64::MAX,
        pos + enc_entry(e).len() <= b.len(),
        b.subrange(pos, pos + enc_entry(e).len() as int) == enc_entry(e),
    ensures
        sp_entry(b, pos) == Some((e, pos + enc_entry(e).len() as int)),
{
    let e1 = enc_bytes(dirs_bytes(e.0));
    let e2 = enc_bytes(e.1);
    let e3 = be_bytes_of(e.2);
    let whole = enc_entry(e);
    assert(whole == e1 + e2 + e3);
    assert(b.subrange(pos, pos + e1.len() as int) =~= e1) by {
        assert forall|i: int| 0 <= i < e1.len() implies #[trigger] b.subrange(
            pos,
            pos + e1.len() as int,
        )[i] == e1[i] by {
            assert(b.subrange(pos, pos + whole.len() as int)[i] == b[pos + i]);
            assert(whole[i] == e1[i]);
        }
    }
    lemma_sp_bytes(b, pos, dirs_bytes(e.0));
    let p1 = pos + e1.len() as int;
    assert(b.subrange(p1, p1 + e2.len() as int) =~= e2) by {
        assert forall|i: int| 0 <= i < e2.len() implies #[trigger] b.subrange(
            p1,
            p1 + e2.len() as int,
        )[i] == e2[i] by {
            assert(b.subrange(pos, pos + whole.len() as int)[e1.len() + i] == b[p1 + i]);
            assert(whole[e1.len() + i] == e2[i]);
        }
    }
    lemma_sp_bytes(b, p1, e.1);
    let p2 = p1 + e2.len() as int;
    assert(b.subrange(p2, p2 + 8) =~= e3) by {
        assert forall|i: int| 0 <= i < 8 implies #[trigger] b.subrange(p2, p2 + 8)[i] == e3[i] by {
            assert(b.subrange(pos, pos + whole.len() as int)[e1.len() + e2.len() + i] == b[p2
                + i]);
            assert(whole[e1.len() + e2.len() + i] == e3[i]);
        }
    }
    lemma_u64_codec(e.2);
    assert(forall|i: int| 0 <= i < dirs_bytes(e.0).len() ==> #[trigger] dirs_bytes(e.0)[i] < 2);
    assert(0u8 & 1 == 0 && 1u8 & 1 == 1) by (bit_vector);
    assert(dirs_bytes(e.0).map_values(|x: u8| bit_dir(x)) =~= e.0) by {
        let mapped = dirs_bytes(e.0).map_values(|x: u8| bit_dir(x));
        assert forall|i: int| 0 <= i < e.0.len() implies mapped[i] == #[trigger] e.0[i] by {
            assert(dirs_bytes(e.0)[i] == dir_bit(e.0[i]));
            assert(bit_dir(dir_bit(e.0[i])) == e.0[i]);
        }
    }
}

/// Writes one metadata entry.
fn write_entry(out: &mut Vec<u8>, e: &(Path, Key, Timestamp))
    ensures
        final(out)@ == old(out)@ + enc_entry(entry_view(*e)),
{
    let mut db: Vec<u8> = Vec::new();
    let n: usize = e.0.0.len();
    for i in 0..n
        invariant
            n == e.0@.len(),
            db@ == dirs_bytes(e.0@.take(i as int)),
    {
        db.push(e.0.0[i].to_bit());
        assert(db@ =~= dirs_bytes(e.0@.take(i + 1)));
    }
    assert(db@ =~= dirs_bytes(e.0@));
    write_bytes(out, &db);
    write_bytes(out, &e.1.0);
    write_u64(out, e.2);
    assert(final(out)@ =~= old(out)@ + enc_entry(entry_view(*e)));
}

/// Parses one metadata entry at `pos`.
fn read_entry(buf: &Vec<u8>, pos: usize) -> (r: Option<((Path, Key, Timestamp), usize)>)
    ensures
        match r {
            Some(ep) => {
                &&& sp_entry(buf@, pos as int) matches Some(sp)
                &&& entry_view(ep.0) == sp.0
                &&& ep.1 == sp.1
            },
            None => sp_entry(buf@, pos as int) is None,
        },
{
    let (db, p1): (Vec<u8>, usize) = match read_bytes(buf, pos) {
        Some(x) => x,
        None => {
            return None;
        },
    };
    let mut dirs: Vec<Direction> = Vec::new();
    let n: usize = db.len();
    for i in 0..n
        invariant
            n == db@.len(),
            dirs@.len() == i,
            sp_bytes(buf@, pos as int) matches Some(sp) && sp.0 == db@ && sp.1 == p1,
            forall|j: int| 0 <= j < i ==> #[trigger] db@[j] < 2,
            forall|j: int| 0 <= j < i ==> #[trigger] dirs@[j] == bit_dir(db@[j]),
    {
        if db[i] >= 2 {
            proof {
                assert(!(forall|j: int| 0 <= j < db@.len() ==> #[trigger] db@[j] < 2)) by {
                    assert(db@[i as int] >= 2);
                }
                assert(sp_entry(buf@, pos as int) is None);
            }
            return None;
        }
        dirs.push(Direction::from_bit(db[i]));
    }
    let (kb, p2): (Vec<u8>, usize) = match read_bytes(buf, p1) {
        Some(x) => x,
        None => {
            return None;
        },
    };
    let (ts, p3): (u64, usize) = match read_u64(buf, p2) {
        Some(x) => x,
        None => {
            return None;
        },
    };
    proof {
        assert(dirs@ =~= db@.map_values(|x: u8| bit_dir(x)));
    }
    Some(((Path(dirs), Key(kb), ts), p3))
}

/// The encoding of a list of metadata entries, first to last.
pub open spec fn enc_entries(s: Seq<PlainEntry>) -> Seq<u8>
    decreases s.len(),
{
    if s.len() == 0 {
        Seq::empty()
    } else {
        enc_entries(s.drop_last()) + enc_entry(s.last())
    }
}

/// The encoding of one metadata bucket: a count, then its entries.
pub open spec fn enc_meta(s: Seq<PlainEntry>) -> Seq<u8> {
    be_bytes_of(s.len() as u64) + enc_entries(s)
}

/// The total parser for `count` metadata entries at `pos`.
pub open spec fn sp_entries(b: Seq<u8>, pos: int, count: int) -> Option<(Seq<PlainEntry>, int)>
    decreases count,
{
    if count <= 0 {
        Some((Seq::empty(), pos))
    } else {
        match sp_entries(b, pos, count - 1) {
            None => None,
            Some(pre) => match sp_entry(b, pre.1) {
                None => None,
                Some(ep) => Some((pre.0.push(ep.0), ep.1)),
            },
        }
    }
}

/// Every entry costs at least its two length prefixes and expiry.
proof fn lemma_enc_entries_len(s: Seq<PlainEntry>)
    ensures
        enc_entries(s).len() >= 8 * s.len(),
    decreases s.len(),
{
    if s.len() > 0 {
        lemma_enc_entries_len(s.drop_last());
    }
}

/// If parsing `want` entries from `pos` succeeds up to `have` and the
/// next entry fails, parsing `want` entries fails.
proof fn lemma_sp_entries_extend_fail(b: Seq<u8>, pos: int, have: int, want: int)
    requires
        0 <= have < want,
        sp_entries(b, pos, have) is Some,
        sp_entry(b, sp_entries(b, pos, have).unwrap().1) is None,
    ensures
        sp_entries(b, pos, want) is None,
    decreases want,
{
    if want == have + 1 {
    } else {
        lemma_sp_entries_extend_fail(b, pos, have, want - 1);
    }
}

/// Parsing at the start of an embedded `enc_entries` yields exactly the
/// embedded entries.
pub proof fn lemma_sp_entries(b: Seq<u8>, pos: int, s: Seq<PlainEntry>)
    requires
        0 <= pos,
        s.len() <= u64::MAX,
        forall|i: int| 0 <= i < s.len() ==> (#[trigger] s[i]).0.len() <= u64::MAX,
        forall|i: int| 0 <= i < s.len() ==> (#[trigger] s[i]).1.len() <= u64::MAX,
        pos + enc_entries(s).len() <= b.len(),
        b.subrange(pos, pos + enc_entries(s).len() as int) == enc_entries(s),
    ensures
        sp_entries(b, pos, s.len() as int) == Some((s, pos + enc_entries(s).len() as int)),
    decreases s.len(),
{
    if s.len() == 0 {
        assert(s =~= Seq::<PlainEntry>::empty());
    } else {
        let head = s.drop_last();
        let tail = s.last();
        let eh = enc_entries(head);
        let et = enc_entry(tail);
        assert(enc_entries(s) == eh + et);
        assert(b.subrange(pos, pos + eh.len() as int) =~= eh) by {
            assert forall|i: int| 0 <= i < eh.len() implies #[trigger] b.subrange(
                pos,
                pos + eh.len() as int,
            )[i] == eh[i] by {
                assert(b.subrange(pos, pos + enc_entries(s).len() as int)[i] == b[pos + i]);
                assert((eh + et)[i] == eh[i]);
            }
        }
        lemma_sp_entries(b, pos, head);
        let p1 = pos + eh.len() as int;
        assert(b.subrange(p1, p1 + et.len() as int) =~= et) by {
            assert forall|i: int| 0 <= i < et.len() implies #[trigger] b.subrange(
                p1,
                p1 + et.len() as int,
            )[i] == et[i] by {
                assert(b.subrange(pos, pos + enc_entries(s).len() as int)[eh.len() + i] == b[p1
                    + i]);
                assert((eh + et)[eh.len() + i] == et[i]);
            }
        }
        lemma_sp_entry(b, p1, tail);
        assert(head.push(tail) =~= s);
    }
}

/// The total parser for one metadata bucket at `pos`.
pub open spec fn read_meta_sp(b: Seq<u8>, pos: int) -> Option<(Seq<PlainEntry>, int)> {
    if pos + 8 <= b.len() {
        let count = dec_u64_at(b, pos);
        if count <= b.len() {
            sp_entries(b, pos + 8, count)
        } else {
            None
        }
    } else {
        None
    }
}

/// Serializes a metadata bucket.
fn write_meta(out: &mut Vec<u8>, m: &Metadata)
    ensures
        final(out)@ == old(out)@ + enc_meta(m.entries()),
{
    write_u64(out, m.0.len() as u64);
    let ghost out0 = out@;
    let n: usize = m.0.len();
    for i in 0..n
        invariant
            n == m@.len(),
            out@ == out0 + enc_entries(m.entries().take(i as int)),
    {
        proof {
            assert(enc_entries(m.entries().take(0)) =~= Seq::<u8>::empty());
            assert(out0 + enc_entries(m.entries().take(0)) =~= out0);
        }
        write_entry(out, &m.0[i]);
        proof {
            assert(m.entries().take(i + 1).drop_last() =~= m.entries().take(i as int));
            assert(m.entries().take(i + 1).last() == entry_view(m.0@[i as int]));
            assert(out@ =~= out0 + enc_entries(m.entries().take(i + 1)));
        }
    }
    proof {
        assert(m.entries().take(n as int) =~= m.entries());
        assert(enc_entries(m.entries().take(0)) =~= Seq::<u8>::empty());
        assert(out0 =~= out0 + enc_entries(m.entries().take(0)));
        assert(out@ =~= old(out)@ + enc_meta(m.entries()));
    }
}

/// Parses one metadata bucket at `pos`.
fn read_meta(buf: &Vec<u8>, pos: usize) -> (r: Option<(Metadata, usize)>)
    ensures
        match r {
            Some(mp) => {
                &&& read_meta_sp(buf@, pos as int) matches Some(sp)
                &&& mp.0.entries() == sp.0
                &&& mp.1 == sp.1
            },
            None => read_meta_sp(buf@, pos as int) is None,
        },
{
    let (count, p1): (u64, usize) = match read_u64(buf, pos) {
        Some(x) => x,
        None => {
            return None;
        },
    };
    if count > buf.len() as u64 {
        return None;
    }
    let n: usize = count as usize;
    let mut entries: Vec<(Path, Key, Timestamp)> = Vec::new();
    let mut p: usize = p1;
    for i in 0..n
        invariant
            p1 == pos + 8,
            pos + 8 <= buf@.len(),
            dec_u64_at(buf@, pos as int) == count,
            n == count,
            count <= buf@.len(),
            sp_entries(buf@, p1 as int, i as int) matches Some(sp) && sp.0.len() == i && sp.1
                == p && entries@.len() == i,
            sp_entries(buf@, p1 as int, i as int) matches Some(sp) && forall|j: int|
                0 <= j < i ==> entry_view(#[trigger] entries@[j]) == sp.0[j],
            p <= buf@.len(),
    {
        let (e, p2): ((Path, Key, Timestamp), usize) = match read_entry(buf, p) {
            Some(x) => x,
            None => {
                proof {
                    lemma_sp_entries_extend_fail(buf@, p1 as int, i as int, n as int);
                    assert(read_meta_sp(buf@, pos as int) is None);
                }
                return None;
            },
        };
        let ghost ev = entry_view(e);
        entries.push(e);
        proof {
            let sp_prev = sp_entries(buf@, p1 as int, i as int).unwrap();
            assert(sp_entries(buf@, p1 as int, i + 1) matches Some(spn) && spn.0 == sp_prev.0.push(
                ev,
            ) && spn.1 == p2 as int);
        }
        p = p2;
    }
    let m = Metadata(entries);
    proof {
        let sp = sp_entries(buf@, p1 as int, n as int).unwrap();
        assert(m.entries() =~= sp.0);
    }
    Some((m, p))
}

/// Parsing at the start of an embedded `enc_meta` yields exactly the
/// embedded metadata bucket.
pub proof fn lemma_read_meta_sp(b: Seq<u8>, pos: int, s: Seq<PlainEntry>)
    requires
        0 <= pos,
        s.len() <= u64::MAX,
        forall|i: int| 0 <= i < s.len() ==> (#[trigger] s[i]).0.len() <= u64::MAX,
        forall|i: int| 0 <= i < s.len() ==> (#[trigger] s[i]).1.len() <= u64::MAX,
        pos + enc_meta(s).len() <= b.len(),
        b.subrange(pos, pos + enc_meta(s).len() as int) == enc_meta(s),
    ensures
        read_meta_sp(b, pos) == Some((s, pos + enc_meta(s).len() as int)),
{
    let eb = enc_entries(s);
    assert(b.subrange(pos, pos + 8) =~= be_bytes_of(s.len() as u64)) by {
        assert forall|i: int| 0 <= i < 8 implies #[trigger] b.subrange(pos, pos + 8)[i]
            == be_bytes_of(s.len() as u64)[i] by {
            assert(b.subrange(pos, pos + enc_meta(s).len() as int)[i] == b[pos + i]);
            assert(enc_meta(s)[i] == be_bytes_of(s.len() as u64)[i]);
        }
    }
    lemma_u64_codec(s.len() as u64);
    assert(b.subrange(pos + 8, pos + 8 + eb.len() as int) =~= eb) by {
        assert forall|i: int| 0 <= i < eb.len() implies #[trigger] b.subrange(
            pos + 8,
            pos + 8 + eb.len() as int,
        )[i] == eb[i] by {
            assert(b.subrange(pos, pos + enc_meta(s).len() as int)[8 + i] == b[pos + 8 + i]);
            assert(enc_meta(s)[8 + i] == eb[i]);
        }
    }
    lemma_sp_entries(b, pos + 8, s);
    lemma_enc_entries_len(s);
    assert(s.len() <= b.len());
}

/// The deep view of a bucket-tree slot array: each present bucket as its
/// block byte lists.
pub open spec fn tree_buckets_view(t: Seq<Option<Bucket>>) -> Seq<Option<Seq<Seq<u8>>>> {
    t.map_values(
        |o: Option<Bucket>|
            match o {
                Some(bk) => Some(bk.bytes()),
                None => None,
            },
    )
}

/// The deep view of a metadata-tree slot array.
pub open spec fn tree_meta_view(t: Seq<Option<Metadata>>) -> Seq<Option<Seq<PlainEntry>>> {
    t.map_values(
        |o: Option<Metadata>|
            match o {
                Some(m) => Some(m.entries()),
                None => None,
            },
    )
}

/// The encoding of one optional bucket slot: a presence tag, then the
/// bucket if present.
pub open spec fn enc_slot_b(o: Option<Seq<Seq<u8>>>) -> Seq<u8> {
    match o {
        None => seq![0u8],
        Some(bk) => seq![1u8] + enc_bucket(bk),
    }
}

/// The encoding of a bucket-tree slot list, first to last.
pub open spec fn enc_slots_b(s: Seq<Option<Seq<Seq<u8>>>>) -> Seq<u8>
    decreases s.len(),
{
    if s.len() == 0 {
        Seq::empty()
    } else {
        enc_slots_b(s.drop_last()) + enc_slot_b(s.last())
    }
}

/// The encoding of a whole bucket tree: the slot count, then the slots.
pub open spec fn enc_tree_b(s: Seq<Option<Seq<Seq<u8>>>>) -> Seq<u8> {
    be_bytes_of(s.len() as u64) + enc_slots_b(s)
}

/// The total parser for one bucket-tree slot at `pos`.
pub open spec fn sp_slot_b(b: Seq<u8>, pos: int) -> Option<(Option<Seq<Seq<u8>>>, int)> {
    if 0 <= pos < b.len() {
        if b[pos] == 0 {
            Some((None, pos + 1))
        } else if b[pos] == 1 {
            match read_bucket_sp(b, pos + 1) {
                None => None,
                Some(bk) => Some((Some(bk.0), bk.1)),
            }
        } else {
            None
        }
    } else {
        None
    }
}

/// The total parser for `count` bucket-tree slots at `pos`.
pub open spec fn sp_slots_b(b: Seq<u8>, pos: int, count: int) -> Option<
    (Seq<Option<Seq<Seq<u8>>>>, int),
>
    decreases count,
{
    if count <= 0 {
        Some((Seq::empty(), pos))
    } else {
        match sp_slots_b(b, pos, count - 1) {
            None => None,
            Some(pre) => match sp_slot_b(b, pre.1) {
                None => None,
                Some(sp) => Some((pre.0.push(sp.0), sp.1)),
            },
        }
    }
}

/// The total parser for a whole bucket tree: the count (capped by the
/// backing-array bound), the slots, and nothing after them.
pub open spec fn read_tree_b_sp(b: Seq<u8>) -> Option<Seq<Option<Seq<Seq<u8>>>>> {
    if 8 <= b.len() {
        let count = dec_u64_at(b, 0);
        if count <= TREE_SLOTS {
            match sp_slots_b(b, 8, count) {
                None => None,
                Some(sp) => if sp.1 == b.len() {
                    Some(sp.0)
                } else {
                    None
                },
            }
        } else {
            None
        }
    } else {
        None
    }
}

/// Every slot costs at least its tag byte.
proof fn lemma_enc_slots_b_len(s: Seq<Option<Seq<Seq<u8>>>>)
    ensures
        enc_slots_b(s).len() >= s.len(),
    decreases s.len(),
{
    if s.len() > 0 {
        lemma_enc_slots_b_len(s.drop_last());
    }
}

/// If parsing `want` slots from `pos` succeeds up to `have` and the next
/// slot fails, parsing `want` slots fails.
proof fn lemma_sp_slots_b_extend_fail(b: Seq<u8>, pos: int, have: int, want: int)
    requires
        0 <= have < want,
        sp_slots_b(b, pos, have) is Some,
        sp_slot_b(b, sp_slots_b(b, pos, have).unwrap().1) is None,
    ensures
        sp_slots_b(b, pos, want) is None,
    decreases want,
{
    if want == have + 1 {
    } else {
        lemma_sp_slots_b_extend_fail(b, pos, have, want - 1);
    }
}

/// Parsing at the start of an embedded `enc_slots_b` yields exactly the
/// embedded slots.
pub proof fn lemma_sp_slots_b(b: Seq<u8>, pos: int, s: Seq<Option<Seq<Seq<u8>>>>)
    requires
        0 <= pos,
        forall|i: int|
            0 <= i < s.len() ==> ((#[trigger] s[i]) matches Some(bk) ==> bk.len() <= u64::MAX),
        forall|i: int|
            0 <= i < s.len() ==> ((#[trigger] s[i]) matches Some(bk) ==> forall|j: int|
                0 <= j < bk.len() ==> (#[trigger] bk[j]).len() <= u64::MAX),
        pos + enc_slots_b(s).len() <= b.len(),
        b.subrange(pos, pos + enc_slots_b(s).len() as int) == enc_slots_b(s),
    ensures
        sp_slots_b(b, pos, s.len() as int) == Some((s, pos + enc_slots_b(s).len() as int)),
    decreases s.len(),
{
    if s.len() == 0 {
        assert(s =~= Seq::<Option<Seq<Seq<u8>>>>::empty());
    } else {
        let head = s.drop_last();
        let tail = s.last();
        let eh = enc_slots_b(head);
        let et = enc_slot_b(tail);
        assert(enc_slots_b(s) == eh + et);
        assert(b.subrange(pos, pos + eh.len() as int) =~= eh) by {
            assert forall|i: int| 0 <= i < eh.len() implies #[trigger] b.subrange(
                pos,
                pos + eh.len() as int,
            )[i] == eh[i] by {
                assert(b.subrange(pos, pos + enc_slots_b(s).len() as int)[i] == b[pos + i]);
                assert((eh + et)[i] == eh[i]);
            }
        }
        lemma_sp_slots_b(b, pos, head);
        let p1 = pos + eh.len() as int;
        assert forall|i: int| 0 <= i < et.len() implies b[p1 + i] == #[trigger] et[i] by {
            assert(b.subrange(pos, pos + enc_slots_b(s).len() as int)[eh.len() + i] == b[p1 + i]);
            assert((eh + et)[eh.len() + i] == et[i]);
        }
        match tail {
            None => {
                assert(et[0] == 0u8) by {
                    assert(et =~= seq![0u8]);
                }
                assert(b[p1 + 0] == et[0]);
                assert(sp_slot_b(b, p1) == Some((None::<Seq<Seq<u8>>>, p1 + 1)));
            },
            Some(bk) => {
                assert(et[0] == 1u8) by {
                    assert(et =~= seq![1u8] + enc_bucket(bk));
                }
                assert(b[p1 + 0] == et[0]);
                assert(b.subrange(p1 + 1, p1 + 1 + enc_bucket(bk).len() as int) =~= enc_bucket(
                    bk,
                )) by {
                    assert forall|i: int| 0 <= i < enc_bucket(bk).len() implies #[trigger] b.subrange(
                        p1 + 1,
                        p1 + 1 + enc_bucket(bk).len() as int,
                    )[i] == enc_bucket(bk)[i] by {
                        assert(b[p1 + 1 + i] == et[1 + i]);
                        assert(et[1 + i] == enc_bucket(bk)[i]);
                    }
                }
                lemma_read_bucket_sp(b, p1 + 1, bk);
            },
        }
        assert(head.push(tail) =~= s);
    }
}

/// Parsing the encoding of a whole bucket tree yields exactly the
/// encoded slots: the serialization round-trips.
pub proof fn lemma_tree_b_codec(s: Seq<Option<Seq<Seq<u8>>>>)
    requires
        s.len() <= TREE_SLOTS,
        forall|i: int|
            0 <= i < s.len() ==> ((#[trigger] s[i]) matches Some(bk) ==> bk.len() <= u64::MAX),
        forall|i: int|
            0 <= i < s.len() ==> ((#[trigger] s[i]) matches Some(bk) ==> forall|j: int|
                0 <= j < bk.len() ==> (#[trigger] bk[j]).len() <= u64::MAX),
    ensures
        read_tree_b_sp(enc_tree_b(s)) == Some(s),
{
    let b = enc_tree_b(s);
    assert(b.subrange(0, 8) =~= be_bytes_of(s.len() as u64));
    lemma_u64_codec(s.len() as u64);
    assert(dec_u64_at(b, 0) == s.len());
    assert(b.subrange(8, 8 + enc_slots_b(s).len() as int) =~= enc_slots_b(s));
    lemma_sp_slots_b(b, 8, s);
}

impl BinaryTree<Bucket> {
    /// Serializes the tree to its canonical byte form.
    pub fn to_bytes(&self) -> (r: Vec<u8>)
        requires
            self.wf(),
        ensures
            r@ == enc_tree_b(tree_buckets_view(self.value@)),
    {
        let ghost view = tree_buckets_view(self.value@);
        let mut out: Vec<u8> = Vec::new();
        write_u64(&mut out, self.value.len() as u64);
        let ghost out0 = out@;
        let n: usize = self.value.len();
        for i in 0..n
            invariant
                n == self.value@.len(),
                view == tree_buckets_view(self.value@),
                out@ == out0 + enc_slots_b(view.take(i as int)),
        {
            proof {
                assert(enc_slots_b(view.take(0)) =~= Seq::<u8>::empty());
                assert(out0 + enc_slots_b(view.take(0)) =~= out0);
            }
            match self.value[i].as_ref() {
                None => {
                    out.push(0u8);
                    proof {
                        assert(view.take(i + 1).drop_last() =~= view.take(i as int));
                        assert(view.take(i + 1).last() == view[i as int]);
                        assert(view[i as int] is None);
                        assert(enc_slot_b(view[i as int]) =~= seq![0u8]);
                        assert(out@ =~= out0 + enc_slots_b(view.take(i + 1)));
                    }
                },
                Some(bk) => {
                    out.push(1u8);
                    write_bucket(&mut out, bk);
                    proof {
                        assert(view.take(i + 1).drop_last() =~= view.take(i as int));
                        assert(view.take(i + 1).last() == view[i as int]);
                        assert(view[i as int] == Some(bk.bytes()));
                        assert(enc_slot_b(view[i as int]) =~= seq![1u8] + enc_bucket(bk.bytes()));
                        assert(out@ =~= out0 + enc_slots_b(view.take(i + 1)));
                    }
                },
            }
        }
        proof {
            assert(view.take(n as int) =~= view);
            assert(enc_slots_b(view.take(0)) =~= Seq::<u8>::empty());
            assert(out0 =~= out0 + enc_slots_b(view.take(0)));
            assert(out@ =~= enc_tree_b(view));
        }
        out
    }

    /// Parses a tree from its canonical byte form; accepts exactly the
    /// strings [`BinaryTree::to_bytes`] produces.
    pub fn from_bytes(buf: &Vec<u8>) -> (r: Option<BinaryTree<Bucket>>)
        ensures
            match r {
                Some(t) => {
                    &&& read_tree_b_sp(buf@) matches Some(v)
                    &&& tree_buckets_view(t.value@) == v
                    &&& t.wf()
                },
                None => read_tree_b_sp(buf@) is None,
            },
    {
        let (count, p1): (u64, usize) = match read_u64(buf, 0) {
            Some(x) => x,
            None => {
                return None;
            },
        };
        if count > TREE_SLOTS as u64 {
            return None;
        }
        let n: usize = count as usize;
        let mut slots: Vec<Option<Bucket>> = Vec::new();
        let mut p: usize = p1;
        for i in 0..n
            invariant
                p1 == 8,
                8 <= buf@.len(),
                dec_u64_at(buf@, 0) == count,
                n == count,
                count <= TREE_SLOTS,
                sp_slots_b(buf@, 8, i as int) matches Some(sp) && sp.0.len() == i && sp.1 == p
                    && slots@.len() == i,
                sp_slots_b(buf@, 8, i as int) matches Some(sp) && forall|j: int|
                    0 <= j < i ==> #[trigger] tree_buckets_view(slots@)[j] == sp.0[j],
                p <= buf@.len(),
        {
            if p >= buf.len() {
                proof {
                    lemma_sp_slots_b_extend_fail(buf@, 8, i as int, n as int);
                }
                return None;
            }
            let tag: u8 = buf[p];
            if tag == 0 {
                let ghost sp_prev = sp_slots_b(buf@, 8, i as int).unwrap();
                let ghost slots0 = slots@;
                slots.push(None);
                p = p + 1;
                proof {
                    assert(sp_slot_b(buf@, sp_prev.1) == Some(
                        (None::<Seq<Seq<u8>>>, sp_prev.1 + 1),
                    ));
                    let spn = sp_slots_b(buf@, 8, i + 1).unwrap();
                    assert forall|j: int| 0 <= j < i + 1 implies #[trigger] tree_buckets_view(
                        slots@,
                    )[j] == spn.0[j] by {
                        if j < i {
                            assert(tree_buckets_view(slots0)[j] == sp_prev.0[j]);
                            assert(slots@[j] == slots0[j]);
                        } else {
                            assert(slots@[j] is None);
                        }
                    }
                }
            } else if tag == 1 {
                let (bk, p2): (Bucket, usize) = match read_bucket(buf, p + 1) {
                    Some(x) => x,
                    None => {
                        proof {
                            lemma_sp_slots_b_extend_fail(buf@, 8, i as int, n as int);
                        }
                        return None;
                    },
                };
                let ghost sp_prev = sp_slots_b(buf@, 8, i as int).unwrap();
                let ghost bkb = bk.bytes();
                let ghost slots0 = slots@;
                slots.push(Some(bk));
                p = p2;
                proof {
                    assert(sp_slot_b(buf@, sp_prev.1) == Some((Some(bkb), p2 as int)));
                    let spn = sp_slots_b(buf@, 8, i + 1).unwrap();
                    assert forall|j: int| 0 <= j < i + 1 implies #[trigger] tree_buckets_view(
                        slots@,
                    )[j] == spn.0[j] by {
                        if j < i {
                            assert(tree_buckets_view(slots0)[j] == sp_prev.0[j]);
                            assert(slots@[j] == slots0[j]);
                        } else {
                            assert(slots@[j] == Some(bk));
                        }
                    }
                }
            } else {
                proof {
                    lemma_sp_slots_b_extend_fail(buf@, 8, i as int, n as int);
                }
                return None;
            }
        }
        if p != buf.len() {
            return None;
        }
        let t = BinaryTree { value: slots };
        proof {
            let sp = sp_slots_b(buf@, 8, n as int).unwrap();
            assert(tree_buckets_view(t.value@) =~= sp.0);
        }
        Some(t)
    }
}


/// The encoding of one optional metadata slot: a presence tag, then the
/// bucket if present.
pub open spec fn enc_slot_m(o: Option<Seq<PlainEntry>>) -> Seq<u8> {
    match o {
        None => seq![0u8],
        Some(bk) => seq![1u8] + enc_meta(bk),
    }
}

/// The encoding of a metadata-tree slot list, first to last.
pub open spec fn enc_slots_m(s: Seq<Option<Seq<PlainEntry>>>) -> Seq<u8>
    decreases s.len(),
{
    if s.len() == 0 {
        Seq::empty()
    } else {
        enc_slots_m(s.drop_last()) + enc_slot_m(s.last())
    }
}

/// The encoding of a whole metadata tree: the slot count, then the slots.
pub open spec fn enc_tree_m(s: Seq<Option<Seq<PlainEntry>>>) -> Seq<u8> {
    be_bytes_of(s.len() as u64) + enc_slots_m(s)
}

/// The total parser for one metadata-tree slot at `pos`.
pub open spec fn sp_slot_m(b: Seq<u8>, pos: int) -> Option<(Option<Seq<PlainEntry>>, int)> {
    if 0 <= pos < b.len() {
        if b[pos] == 0 {
            Some((None, pos + 1))
        } else if b[pos] == 1 {
            match read_meta_sp(b, pos + 1) {
                None => None,
                Some(bk) => Some((Some(bk.0), bk.1)),
            }
        } else {
            None
        }
    } else {
        None
    }
}

/// The total parser for `count` metadata-tree slots at `pos`.
pub open spec fn sp_slots_m(b: Seq<u8>, pos: int, count: int) -> Option<
    (Seq<Option<Seq<PlainEntry>>>, int),
>
    decreases count,
{
    if count <= 0 {
        Some((Seq::empty(), pos))
    } else {
        match sp_slots_m(b, pos, count - 1) {
            None => None,
            Some(pre) => match sp_slot_m(b, pre.1) {
                None => None,
                Some(sp) => Some((pre.0.push(sp.0), sp.1)),
            },
        }
    }
}

/// The total parser for a whole metadata tree: the count (capped by the
/// backing-array bound), the slots, and nothing after them.
pub open spec fn read_tree_m_sp(b: Seq<u8>) -> Option<Seq<Option<Seq<PlainEntry>>>> {
    if 8 <= b.len() {
        let count = dec_u64_at(b, 0);
        if count <= TREE_SLOTS {
            match sp_slots_m(b, 8, count) {
                None => None,
                Some(sp) => if sp.1 == b.len() {
                    Some(sp.0)
                } else {
                    None
                },
            }
        } else {
            None
        }
    } else {
        None
    }
}

/// Every slot costs at least its tag byte.
proof fn lemma_enc_slots_m_len(s: Seq<Option<Seq<PlainEntry>>>)
    ensures
        enc_slots_m(s).len() >= s.len(),
    decreases s.len(),
{
    if s.len() > 0 {
        lemma_enc_slots_m_len(s.drop_last());
    }
}

/// If parsing `want` slots from `pos` succeeds up to `have` and the next
/// slot fails, parsing `want` slots fails.
proof fn lemma_sp_slots_m_extend_fail(b: Seq<u8>, pos: int, have: int, want: int)
    requires
        0 <= have < want,
        sp_slots_m(b, pos, have) is Some,
        sp_slot_m(b, sp_slots_m(b, pos, have).unwrap().1) is None,
    ensures
        sp_slots_m(b, pos, want) is None,
    decreases want,
{
    if want == have + 1 {
    } else {
        lemma_sp_slots_m_extend_fail(b, pos, have, want - 1);
    }
}

/// Parsing at the start of an embedded `enc_slots_m` yields exactly the
/// embedded slots.
pub proof fn lemma_sp_slots_m(b: Seq<u8>, pos: int, s: Seq<Option<Seq<PlainEntry>>>)
    requires
        0 <= pos,
        forall|i: int|
            0 <= i < s.len() ==> ((#[trigger] s[i]) matches Some(bk) ==> bk.len() <= u64::MAX),
        forall|i: int|
            0 <= i < s.len() ==> ((#[trigger] s[i]) matches Some(bk) ==> forall|j: int|
                0 <= j < bk.len() ==> ((#[trigger] bk[j]).0.len() <= u64::MAX && bk[j].1.len()
                    <= u64::MAX)),
        pos + enc_slots_m(s).len() <= b.len(),
        b.subrange(pos, pos + enc_slots_m(s).len() as int) == enc_slots_m(s),
    ensures
        sp_slots_m(b, pos, s.len() as int) == Some((s, pos + enc_slots_m(s).len() as int)),
    decreases s.len(),
{
    if s.len() == 0 {
        assert(s =~= Seq::<Option<Seq<PlainEntry>>>::empty());
    } else {
        let head = s.drop_last();
        let tail = s.last();
        let eh = enc_slots_m(head);
        let et = enc_slot_m(tail);
        assert(enc_slots_m(s) == eh + et);
        assert(b.subrange(pos, pos + eh.len() as int) =~= eh) by {
            assert forall|i: int| 0 <= i < eh.len() implies #[trigger] b.subrange(
                pos,
                pos + eh.len() as int,
            )[i] == eh[i] by {
                assert(b.subrange(pos, pos + enc_slots_m(s).len() as int)[i] == b[pos + i]);
                assert((eh + et)[i] == eh[i]);
            }
        }
        lemma_sp_slots_m(b, pos, head);
        let p1 = pos + eh.len() as int;
        assert forall|i: int| 0 <= i < et.len() implies b[p1 + i] == #[trigger] et[i] by {
            assert(b.subrange(pos, pos + enc_slots_m(s).len() as int)[eh.len() + i] == b[p1 + i]);
            assert((eh + et)[eh.len() + i] == et[i]);
        }
        match tail {
            None => {
                assert(et[0] == 0u8) by {
                    assert(et =~= seq![0u8]);
                }
                assert(b[p1 + 0] == et[0]);
                assert(sp_slot_m(b, p1) == Some((None::<Seq<PlainEntry>>, p1 + 1)));
            },
            Some(bk) => {
                assert(et[0] == 1u8) by {
                    assert(et =~= seq![1u8] + enc_meta(bk));
                }
                assert(b[p1 + 0] == et[0]);
                assert(b.subrange(p1 + 1, p1 + 1 + enc_meta(bk).len() as int) =~= enc_meta(
                    bk,
                )) by {
                    assert forall|i: int| 0 <= i < enc_meta(bk).len() implies #[trigger] b.subrange(
                        p1 + 1,
                        p1 + 1 + enc_meta(bk).len() as int,
                    )[i] == enc_meta(bk)[i] by {
                        assert(b[p1 + 1 + i] == et[1 + i]);
                        assert(et[1 + i] == enc_meta(bk)[i]);
                    }
                }
                lemma_read_meta_sp(b, p1 + 1, bk);
            },
        }
        assert(head.push(tail) =~= s);
    }
}

/// Parsing the encoding of a whole metadata tree yields exactly the
/// encoded slots: the serialization round-trips.
pub proof fn lemma_tree_m_codec(s: Seq<Option<Seq<PlainEntry>>>)
    requires
        s.len() <= TREE_SLOTS,
        forall|i: int|
            0 <= i < s.len() ==> ((#[trigger] s[i]) matches Some(bk) ==> bk.len() <= u64::MAX),
        forall|i: int|
            0 <= i < s.len() ==> ((#[trigger] s[i]) matches Some(bk) ==> forall|j: int|
                0 <= j < bk.len() ==> ((#[trigger] bk[j]).0.len() <= u64::MAX && bk[j].1.len()
                    <= u64::MAX)),
    ensures
        read_tree_m_sp(enc_tree_m(s)) == Some(s),
{
    let b = enc_tree_m(s);
    assert(b.subrange(0, 8) =~= be_bytes_of(s.len() as u64));
    lemma_u64_codec(s.len() as u64);
    assert(dec_u64_at(b, 0) == s.len());
    assert(b.subrange(8, 8 + enc_slots_m(s).len() as int) =~= enc_slots_m(s));
    lemma_sp_slots_m(b, 8, s);
}

impl BinaryTree<Metadata> {
    /// Serializes the tree to its canonical byte form.
    pub fn to_bytes(&self) -> (r: Vec<u8>)
        requires
            self.wf(),
        ensures
            r@ == enc_tree_m(tree_meta_view(self.value@)),
    {
        let ghost view = tree_meta_view(self.value@);
        let mut out: Vec<u8> = Vec::new();
        write_u64(&mut out, self.value.len() as u64);
        let ghost out0 = out@;
        let n: usize = self.value.len();
        for i in 0..n
            invariant
                n == self.value@.len(),
                view == tree_meta_view(self.value@),
                out@ == out0 + enc_slots_m(view.take(i as int)),
        {
            proof {
                assert(enc_slots_m(view.take(0)) =~= Seq::<u8>::empty());
                assert(out0 + enc_slots_m(view.take(0)) =~= out0);
            }
            match self.value[i].as_ref() {
                None => {
                    out.push(0u8);
                    proof {
                        assert(view.take(i + 1).drop_last() =~= view.take(i as int));
                        assert(view.take(i + 1).last() == view[i as int]);
                        assert(view[i as int] is None);
                        assert(enc_slot_m(view[i as int]) =~= seq![0u8]);
                        assert(out@ =~= out0 + enc_slots_m(view.take(i + 1)));
                    }
                },
                Some(bk) => {
                    out.push(1u8);
                    write_meta(&mut out, bk);
                    proof {
                        assert(view.take(i + 1).drop_last() =~= view.take(i as int));
                        assert(view.take(i + 1).last() == view[i as int]);
                        assert(view[i as int] == Some(bk.entries()));
                        assert(enc_slot_m(view[i as int]) =~= seq![1u8] + enc_meta(bk.entries()));
                        assert(out@ =~= out0 + enc_slots_m(view.take(i + 1)));
                    }
                },
            }
        }
        proof {
            assert(view.take(n as int) =~= view);
            assert(enc_slots_m(view.take(0)) =~= Seq::<u8>::empty());
            assert(out0 =~= out0 + enc_slots_m(view.take(0)));
            assert(out@ =~= enc_tree_m(view));
        }
        out
    }

    /// Parses a tree from its canonical byte form; accepts exactly the
    /// strings [`BinaryTree::to_bytes`] produces.
    pub fn from_bytes(buf: &Vec<u8>) -> (r: Option<BinaryTree<Metadata>>)
        ensures
            match r {
                Some(t) => {
                    &&& read_tree_m_sp(buf@) matches Some(v)
                    &&& tree_meta_view(t.value@) == v
                    &&& t.wf()
                },
                None => read_tree_m_sp(buf@) is None,
            },
    {
        let (count, p1): (u64, usize) = match read_u64(buf, 0) {
            Some(x) => x,
            None => {
                return None;
            },
        };
        if count > TREE_SLOTS as u64 {
            return None;
        }
        let n: usize = count as usize;
        let mut slots: Vec<Option<Metadata>> = Vec::new();
        let mut p: usize = p1;
        for i in 0..n
            invariant
                p1 == 8,
                8 <= buf@.len(),
                dec_u64_at(buf@, 0) == count,
                n == count,
                count <= TREE_SLOTS,
                sp_slots_m(buf@, 8, i as int) matches Some(sp) && sp.0.len() == i && sp.1 == p
                    && slots@.len() == i,
                sp_slots_m(buf@, 8, i as int) matches Some(sp) && forall|j: int|
                    0 <= j < i ==> #[trigger] tree_meta_view(slots@)[j] == sp.0[j],
                p <= buf@.len(),
        {
            if p >= buf.len() {
                proof {
                    lemma_sp_slots_m_extend_fail(buf@, 8, i as int, n as int);
                }
                return None;
            }
            let tag: u8 = buf[p];
            if tag == 0 {
                let ghost sp_prev = sp_slots_m(buf@, 8, i as int).unwrap();
                let ghost slots0 = slots@;
                slots.push(None);
                p = p + 1;
                proof {
                    assert(sp_slot_m(buf@, sp_prev.1) == Some(
                        (None::<Seq<PlainEntry>>, sp_prev.1 + 1),
                    ));
                    let spn = sp_slots_m(buf@, 8, i + 1).unwrap();
                    assert forall|j: int| 0 <= j < i + 1 implies #[trigger] tree_meta_view(
                        slots@,
                    )[j] == spn.0[j] by {
                        if j < i {
                            assert(tree_meta_view(slots0)[j] == sp_prev.0[j]);
                            assert(slots@[j] == slots0[j]);
                        } else {
                            assert(slots@[j] is None);
                        }
                    }
                }
            } else if tag == 1 {
                let (bk, p2): (Metadata, usize) = match read_meta(buf, p + 1) {
                    Some(x) => x,
                    None => {
                        proof {
                            lemma_sp_slots_m_extend_fail(buf@, 8, i as int, n as int);
                        }
                        return None;
                    },
                };
                let ghost sp_prev = sp_slots_m(buf@, 8, i as int).unwrap();
                let ghost bkb = bk.entries();
                let ghost slots0 = slots@;
                slots.push(Some(bk));
                p = p2;
                proof {
                    assert(sp_slot_m(buf@, sp_prev.1) == Some((Some(bkb), p2 as int)));
                    let spn = sp_slots_m(buf@, 8, i + 1).unwrap();
                    assert forall|j: int| 0 <= j < i + 1 implies #[trigger] tree_meta_view(
                        slots@,
                    )[j] == spn.0[j] by {
                        if j < i {
                            assert(tree_meta_view(slots0)[j] == sp_prev.0[j]);
                            assert(slots@[j] == slots0[j]);
                        } else {
                            assert(slots@[j] == Some(bk));
                        }
                    }
                }
            } else {
                proof {
                    lemma_sp_slots_m_extend_fail(buf@, 8, i as int, n as int);
                }
                return None;
            }
        }
        if p != buf.len() {
            return None;
        }
        let t = BinaryTree { value: slots };
        proof {
            let sp = sp_slots_m(buf@, 8, n as int).unwrap();
            assert(tree_meta_view(t.value@) =~= sp.0);
        }
        Some(t)
    }
}

} // verus!
