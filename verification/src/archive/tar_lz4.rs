//! tar.lz4 format: a POSIX tar stream plus the `RATAIDX1` member index, cut
//! into independent LZ4 frames, followed by a cleartext `RATLFRM1` frame table
//! that maps uncompressed offsets to frames.

use crate::bytes::{
    bslice, lemma_le_inverse, lemma_le_len, lemma_le_roundtrip, lemma_le_val_bound, le_bytes, pow256,
    push_le, read_le,
};
use crate::error::{Error, Result};
use crate::archive::sevenz::codec::{lz4_encode, lz4_frame, lz4_unframe};
use crate::text::string_from;
use vstd::prelude::*;

verus! {

/// Frame table format version.
pub const FRAME_TABLE_VERSION: u32 = 1;

/// Default independent-frame size (uncompressed tar payload bytes per LZ4 frame).
pub const DEFAULT_FRAME_SIZE: u32 = 2097152;

/// Smallest frame size the frame writer uses.
pub const MIN_FRAME_SIZE: usize = 65536;

/// Magic of the cleartext frame table: `RATLFRM1`.
pub open spec fn frame_table_magic() -> Seq<u8> {
    seq![0x52u8, 0x41, 0x54, 0x4C, 0x46, 0x52, 0x4D, 0x31]
}

/// The magic bytes `RATLFRM1`.
pub fn frame_magic() -> (m: Vec<u8>)
    ensures
        m@ == frame_table_magic(),
{
    let m = vec![0x52u8, 0x41, 0x54, 0x4C, 0x46, 0x52, 0x4D, 0x31];
    assert(m@ =~= frame_table_magic());
    m
}

/// One independent LZ4 frame in the archive.
#[derive(Debug, Clone, Copy, PartialEq, Eq)]
pub struct FrameTableEntry {
    pub compressed_offset: u64,
    pub compressed_size: u64,
    pub uncompressed_offset: u64,
    pub uncompressed_size: u64,
}

/// Cleartext frame table at the end of the file.
#[derive(Debug, Clone, PartialEq, Eq)]
pub struct FrameTable {
    pub version: u32,
    pub frames: Vec<FrameTableEntry>,
    pub total_uncompressed: u64,
}

/// Encoding of one frame entry: its four offsets and sizes, little-endian.
pub open spec fn frame_bytes(f: FrameTableEntry) -> Seq<u8> {
    le_bytes(f.compressed_offset as nat, 8) + le_bytes(f.compressed_size as nat, 8) + le_bytes(
        f.uncompressed_offset as nat,
        8,
    ) + le_bytes(f.uncompressed_size as nat, 8)
}

pub open spec fn frames_bytes(fs: Seq<FrameTableEntry>) -> Seq<u8>
    decreases fs.len(),
{
    if fs.len() == 0 {
        Seq::empty()
    } else {
        frames_bytes(fs.drop_last()) + frame_bytes(fs.last())
    }
}

/// The `RATLFRM1` table: magic, version, frame count, the frames, the total
/// uncompressed size, and the offset where the table starts.
pub open spec fn frame_table_bytes(fs: Seq<FrameTableEntry>, total: u64, footer_offset: u64) -> Seq<u8> {
    frame_table_magic() + le_bytes(1, 4) + le_bytes(fs.len(), 8) + frames_bytes(fs) + le_bytes(total as nat, 8)
        + le_bytes(footer_offset as nat, 8)
}

/// Sum of the compressed sizes of `fs`.
pub open spec fn compressed_total(fs: Seq<FrameTableEntry>) -> nat
    decreases fs.len(),
{
    if fs.len() == 0 {
        0
    } else {
        compressed_total(fs.drop_last()) + fs.last().compressed_size as nat
    }
}

/// Sum of the uncompressed sizes of `fs`.
pub open spec fn uncompressed_total(fs: Seq<FrameTableEntry>) -> nat
    decreases fs.len(),
{
    if fs.len() == 0 {
        0
    } else {
        uncompressed_total(fs.drop_last()) + fs.last().uncompressed_size as nat
    }
}

proof fn lemma_frame_len(f: FrameTableEntry)
    ensures
        frame_bytes(f).len() == 32,
{
    lemma_le_len(f.compressed_offset as nat, 8);
    lemma_le_len(f.compressed_size as nat, 8);
    lemma_le_len(f.uncompressed_offset as nat, 8);
    lemma_le_len(f.uncompressed_size as nat, 8);
}

proof fn lemma_frames_len(fs: Seq<FrameTableEntry>)
    ensures
        frames_bytes(fs).len() == 32 * fs.len(),
    decreases fs.len(),
{
    if fs.len() > 0 {
        lemma_frames_len(fs.drop_last());
        lemma_frame_len(fs.last());
    }
}

proof fn lemma_table_len(fs: Seq<FrameTableEntry>, total: u64, fo: u64)
    ensures
        frame_table_bytes(fs, total, fo).len() == 36 + 32 * fs.len(),
{
    lemma_le_len(1, 4);
    lemma_le_len(fs.len(), 8);
    lemma_frames_len(fs);
    lemma_le_len(total as nat, 8);
    lemma_le_len(fo as nat, 8);
}

/// Encode the frame table for `frames` with `total_uncompressed` payload
/// bytes; the table records that it starts after all compressed frames. An
/// error when that offset does not fit in 64 bits.
pub fn encode_frame_table(frames: &[FrameTableEntry], total_uncompressed: u64) -> (r: Result<Vec<u8>>)
    ensures
        match r {
            Ok(v) => compressed_total(frames@) <= u64::MAX && v@ == frame_table_bytes(
                frames@,
                total_uncompressed,
                compressed_total(frames@) as u64,
            ),
            Err(e) => e is Archive && compressed_total(frames@) > u64::MAX,
        },
{
    let mut footer_offset: u64 = 0;
    let mut i: usize = 0;
    while i < frames.len()
        invariant
            i <= frames.len(),
            footer_offset == compressed_total(frames@.take(i as int)),
        decreases frames.len() - i,
    {
        assert(frames@.take(i + 1).drop_last() =~= frames@.take(i as int));
        match footer_offset.checked_add(frames[i].compressed_size) {
            Some(s) => {
                footer_offset = s;
            },
            None => {
                proof {
                    lemma_total_mono(frames@, i + 1);
                }
                return Err(Error::Archive(string_from("tar.lz4 footer offset overflow")));
            },
        }
        i = i + 1;
    }
    assert(frames@.take(frames.len() as int) =~= frames@);
    let mut buf = frame_magic();
    push_le(&mut buf, 1, 4);
    push_le(&mut buf, frames.len() as u64, 8);
    let ghost h = buf@;
    let mut k: usize = 0;
    while k < frames.len()
        invariant
            k <= frames.len(),
            buf@ == h + frames_bytes(frames@.take(k as int)),
        decreases frames.len() - k,
    {
        let f = frames[k];
        assert(frames@.take(k + 1).drop_last() =~= frames@.take(k as int));
        push_le(&mut buf, f.compressed_offset, 8);
        push_le(&mut buf, f.compressed_size, 8);
        push_le(&mut buf, f.uncompressed_offset, 8);
        push_le(&mut buf, f.uncompressed_size, 8);
        assert(buf@ =~= h + frames_bytes(frames@.take(k + 1)));
        k = k + 1;
    }
    assert(frames@.take(frames.len() as int) =~= frames@);
    push_le(&mut buf, total_uncompressed, 8);
    push_le(&mut buf, footer_offset, 8);
    assert(buf@ =~= frame_table_bytes(frames@, total_uncompressed, footer_offset));
    Ok(buf)
}

/// Compressed totals only grow with more frames.
proof fn lemma_total_mono(fs: Seq<FrameTableEntry>, n: int)
    requires
        0 <= n <= fs.len(),
    ensures
        compressed_total(fs.take(n)) <= compressed_total(fs),
    decreases fs.len() - n,
{
    if n < fs.len() {
        lemma_total_mono(fs, n + 1);
        assert(fs.take(n + 1).drop_last() =~= fs.take(n));
    } else {
        assert(fs.take(n) =~= fs);
    }
}


/// The frame entry stored at `buf[pos..pos + 32]`.
fn read_frame(buf: &[u8], pos: usize) -> (f: FrameTableEntry)
    requires
        pos + 32 <= buf.len(),
    ensures
        frame_bytes(f) == buf@.subrange(pos as int, pos + 32),
{
    let co = read_le(buf, pos, 8);
    let cs = read_le(buf, pos + 8, 8);
    let uo = read_le(buf, pos + 16, 8);
    let us = read_le(buf, pos + 24, 8);
    let f = FrameTableEntry { compressed_offset: co, compressed_size: cs, uncompressed_offset: uo, uncompressed_size: us };
    proof {
        let s = buf@;
        lemma_le_inverse(s.subrange(pos as int, pos + 8));
        lemma_le_inverse(s.subrange(pos + 8, pos + 16));
        lemma_le_inverse(s.subrange(pos + 16, pos + 24));
        lemma_le_inverse(s.subrange(pos + 24, pos + 32));
        assert(s.subrange(pos as int, pos + 32) =~= s.subrange(pos as int, pos + 8) + s.subrange(pos + 8, pos + 16)
            + s.subrange(pos + 16, pos + 24) + s.subrange(pos + 24, pos + 32));
    }
    f
}

/// What an encoding of `fs` holds at its fixed places.
proof fn lemma_table_fields(fs: Seq<FrameTableEntry>, total: u64, fo: u64)
    ensures
        ({
            let t = frame_table_bytes(fs, total, fo);
            let n = fs.len() as int;
            &&& t.len() == 36 + 32 * n
            &&& t.subrange(0, 8) == frame_table_magic()
            &&& t.subrange(8, 12) == le_bytes(1, 4)
            &&& t.subrange(12, 20) == le_bytes(fs.len(), 8)
            &&& t.subrange(20, 20 + 32 * n) == frames_bytes(fs)
            &&& t.subrange(20 + 32 * n, 28 + 32 * n) == le_bytes(total as nat, 8)
            &&& t.subrange(28 + 32 * n, 36 + 32 * n) == le_bytes(fo as nat, 8)
        }),
{
    lemma_table_len(fs, total, fo);
    lemma_le_len(1, 4);
    lemma_le_len(fs.len(), 8);
    lemma_frames_len(fs);
    lemma_le_len(total as nat, 8);
    lemma_le_len(fo as nat, 8);
    let t = frame_table_bytes(fs, total, fo);
    let n = fs.len() as int;
    assert(t.subrange(0, 8) =~= frame_table_magic());
    assert(t.subrange(8, 12) =~= le_bytes(1, 4));
    assert(t.subrange(12, 20) =~= le_bytes(fs.len(), 8));
    assert(t.subrange(20, 20 + 32 * n) =~= frames_bytes(fs));
    assert(t.subrange(20 + 32 * n, 28 + 32 * n) =~= le_bytes(total as nat, 8));
    assert(t.subrange(28 + 32 * n, 36 + 32 * n) =~= le_bytes(fo as nat, 8));
}

/// Frame lists that fit the 64-bit count field.
pub open spec fn frames_fit(fs: Seq<FrameTableEntry>) -> bool {
    fs.len() < pow256(8)
}

/// The footer offset an encoding ends with.
pub open spec fn stored_footer_offset(buf: Seq<u8>) -> u64 {
    crate::bytes::le_val(buf.skip(buf.len() - 8)) as u64
}

/// Parse a `RATLFRM1` frame table. Succeeds exactly on frame table encodings,
/// giving back the frames and total they hold.
#[verifier::rlimit(40)]
pub fn parse_frame_table(buf: &[u8]) -> (r: Result<FrameTable>)
    ensures
        r matches Ok(t) ==> t.version == FRAME_TABLE_VERSION && buf@.len() >= 36 && buf@ == frame_table_bytes(
            t.frames@,
            t.total_uncompressed,
            stored_footer_offset(buf@),
        ) && frames_fit(t.frames@),
        r matches Err(e) ==> e is Archive && forall|fs: Seq<FrameTableEntry>, total: u64, fo: u64|
            frames_fit(fs) ==> #[trigger] frame_table_bytes(fs, total, fo) != buf@,
{
    let ghost s = buf@;
    if buf.len() < 36 {
        proof {
            assert forall|fs: Seq<FrameTableEntry>, total: u64, fo: u64| frames_fit(fs) implies #[trigger] frame_table_bytes(fs, total, fo) != buf@ by {
                lemma_table_len(fs, total, fo);
            }
        }
        return Err(Error::Archive(string_from("tar.lz4: frame table truncated")));
    }
    let head = bslice(buf, 0, 8);
    let magic = frame_magic();
    if !crate::bytes::beq(&head, &magic) {
        proof {
            assert forall|fs: Seq<FrameTableEntry>, total: u64, fo: u64| frames_fit(fs) implies #[trigger] frame_table_bytes(fs, total, fo) != buf@ by {
                lemma_table_fields(fs, total, fo);
            }
        }
        return Err(Error::Archive(string_from("tar.lz4: bad frame table magic (expected RATLFRM1)")));
    }
    let version = read_le(buf, 8, 4);
    if version != 1 {
        proof {
            assert forall|fs: Seq<FrameTableEntry>, total: u64, fo: u64| frames_fit(fs) implies #[trigger] frame_table_bytes(fs, total, fo) != buf@ by {
                lemma_table_fields(fs, total, fo);
                if frame_table_bytes(fs, total, fo) == buf@ {
                    reveal_with_fuel(pow256, 5);
                    lemma_le_roundtrip(1, 4);
                }
            }
        }
        return Err(Error::Archive(string_from("tar.lz4: unsupported frame table version")));
    }
    let count = read_le(buf, 12, 8);
    proof {
        lemma_le_inverse(s.subrange(8, 12));
        lemma_le_inverse(s.subrange(12, 20));
        assert forall|fs: Seq<FrameTableEntry>, total: u64, fo: u64| frames_fit(fs) && #[trigger] frame_table_bytes(fs, total, fo) == buf@ implies fs.len() == count by {
            lemma_table_fields(fs, total, fo);
            lemma_le_roundtrip(fs.len(), 8);
        }
        assert(frames_bytes(Seq::<FrameTableEntry>::empty()) =~= Seq::<u8>::empty());
        assert(s.subrange(20, 20) =~= Seq::<u8>::empty());
    }
    let mut pos: usize = 20;
    let mut frames: Vec<FrameTableEntry> = Vec::new();
    let mut i: u64 = 0;
    while i < count
        invariant
            s == buf@,
            36 <= buf.len(),
            pos == 20 + 32 * i,
            pos <= buf.len(),
            frames.len() == i,
            i <= count,
            s.subrange(20, pos as int) == frames_bytes(frames@),
            forall|fs: Seq<FrameTableEntry>, total: u64, fo: u64| frames_fit(fs) && #[trigger] frame_table_bytes(fs, total, fo) == s ==> fs.len() == count,
        decreases count - i,
    {
        if buf.len() - pos < 32 {
            proof {
                assert forall|fs: Seq<FrameTableEntry>, total: u64, fo: u64| frames_fit(fs) implies #[trigger] frame_table_bytes(fs, total, fo) != buf@ by {
                    lemma_table_len(fs, total, fo);
                }
            }
            return Err(Error::Archive(string_from("tar.lz4: frame table truncated at entry")));
        }
        let f = read_frame(buf, pos);
        let ghost f0 = frames@;
        frames.push(f);
        proof {
            assert(frames@.drop_last() =~= f0);
            assert(s.subrange(20, pos + 32) =~= s.subrange(20, pos as int) + s.subrange(pos as int, pos + 32));
        }
        pos = pos + 32;
        i = i + 1;
    }
    if buf.len() - pos < 16 {
        proof {
            assert forall|fs: Seq<FrameTableEntry>, total: u64, fo: u64| frames_fit(fs) implies #[trigger] frame_table_bytes(fs, total, fo) != buf@ by {
                lemma_table_len(fs, total, fo);
            }
        }
        return Err(Error::Archive(string_from("tar.lz4: frame table truncated (totals)")));
    }
    let total = read_le(buf, pos, 8);
    if buf.len() - pos != 16 {
        proof {
            assert forall|fs: Seq<FrameTableEntry>, total: u64, fo: u64| frames_fit(fs) implies #[trigger] frame_table_bytes(fs, total, fo) != buf@ by {
                lemma_table_len(fs, total, fo);
            }
        }
        return Err(Error::Archive(string_from("tar.lz4: frame table has trailing bytes")));
    }
    proof {
        let n = frames@.len();
        lemma_le_inverse(s.subrange(pos as int, pos + 8));
        lemma_le_inverse(s.subrange(pos + 8, pos + 16));
        lemma_le_val_bound(s.subrange(pos + 8, pos + 16));
        assert(s.skip(s.len() - 8) =~= s.subrange(pos + 8, pos + 16));
        let fo = stored_footer_offset(s);
        assert(pow256(8) == 18446744073709551616) by {
            reveal_with_fuel(pow256, 9);
        }
        assert(fo as nat == crate::bytes::le_val(s.subrange(pos + 8, pos + 16)));
        assert(s =~= s.subrange(0, 8) + s.subrange(8, 12) + s.subrange(12, 20) + s.subrange(20, pos as int)
            + s.subrange(pos as int, pos + 8) + s.subrange(pos + 8, pos + 16));
        assert(s.subrange(0, 8) == frame_table_magic());
        assert(i < pow256(8)) by {
            lemma_le_val_bound(s.subrange(12, 20));
        }
    }
    Ok(FrameTable { version: 1, frames, total_uncompressed: total })
}

/// Round trip of the frame table: the frames, total and footer offset are
/// the only ones whose encoding gives these bytes, so [`parse_frame_table`]
/// on the bytes from [`encode_frame_table`] gives the same table back.
pub proof fn lemma_frame_table_roundtrip(
    fs: Seq<FrameTableEntry>,
    total: u64,
    fo: u64,
    fs2: Seq<FrameTableEntry>,
    total2: u64,
    fo2: u64,
)
    requires
        frames_fit(fs),
        frames_fit(fs2),
        frame_table_bytes(fs2, total2, fo2) == frame_table_bytes(fs, total, fo),
    ensures
        fs2 == fs,
        total2 == total,
        fo2 == fo,
{
    lemma_table_fields(fs, total, fo);
    lemma_table_fields(fs2, total2, fo2);
    lemma_le_roundtrip(fs.len(), 8);
    lemma_le_roundtrip(fs2.len(), 8);
    assert(fs.len() == fs2.len());
    let n = fs.len() as int;
    assert(pow256(8) == 18446744073709551616) by {
        reveal_with_fuel(pow256, 9);
    }
    lemma_le_roundtrip(total as nat, 8);
    lemma_le_roundtrip(total2 as nat, 8);
    lemma_le_roundtrip(fo as nat, 8);
    lemma_le_roundtrip(fo2 as nat, 8);
    lemma_frames_injective(fs, fs2);
}

/// Frame lists of one length with equal encodings are equal.
proof fn lemma_frames_injective(a: Seq<FrameTableEntry>, b: Seq<FrameTableEntry>)
    requires
        a.len() == b.len(),
        frames_bytes(a) == frames_bytes(b),
    ensures
        a == b,
    decreases a.len(),
{
    if a.len() > 0 {
        let n = a.len() as int;
        lemma_frames_len(a.drop_last());
        lemma_frames_len(b.drop_last());
        lemma_frame_len(a.last());
        lemma_frame_len(b.last());
        let s = frames_bytes(a);
        assert(frames_bytes(a.drop_last()) =~= s.subrange(0, 32 * (n - 1)));
        assert(frames_bytes(b.drop_last()) =~= s.subrange(0, 32 * (n - 1)));
        lemma_frames_injective(a.drop_last(), b.drop_last());
        assert(frame_bytes(a.last()) =~= s.subrange(32 * (n - 1), 32 * n));
        assert(frame_bytes(b.last()) =~= s.subrange(32 * (n - 1), 32 * n));
        lemma_frame_injective(a.last(), b.last());
        assert(a =~= a.drop_last().push(a.last()));
        assert(b =~= b.drop_last().push(b.last()));
    }
}

proof fn lemma_frame_injective(a: FrameTableEntry, b: FrameTableEntry)
    requires
        frame_bytes(a) == frame_bytes(b),
    ensures
        a == b,
{
    let ea = frame_bytes(a);
    lemma_le_len(a.compressed_offset as nat, 8);
    lemma_le_len(a.compressed_size as nat, 8);
    lemma_le_len(a.uncompressed_offset as nat, 8);
    lemma_le_len(a.uncompressed_size as nat, 8);
    lemma_le_len(b.compressed_offset as nat, 8);
    lemma_le_len(b.compressed_size as nat, 8);
    lemma_le_len(b.uncompressed_offset as nat, 8);
    lemma_le_len(b.uncompressed_size as nat, 8);
    assert(pow256(8) == 18446744073709551616) by {
        reveal_with_fuel(pow256, 9);
    }
    assert(ea.subrange(0, 8) =~= le_bytes(a.compressed_offset as nat, 8));
    assert(ea.subrange(0, 8) =~= le_bytes(b.compressed_offset as nat, 8));
    assert(ea.subrange(8, 16) =~= le_bytes(a.compressed_size as nat, 8));
    assert(ea.subrange(8, 16) =~= le_bytes(b.compressed_size as nat, 8));
    assert(ea.subrange(16, 24) =~= le_bytes(a.uncompressed_offset as nat, 8));
    assert(ea.subrange(16, 24) =~= le_bytes(b.uncompressed_offset as nat, 8));
    assert(ea.subrange(24, 32) =~= le_bytes(a.uncompressed_size as nat, 8));
    assert(ea.subrange(24, 32) =~= le_bytes(b.uncompressed_size as nat, 8));
    lemma_le_roundtrip(a.compressed_offset as nat, 8);
    lemma_le_roundtrip(b.compressed_offset as nat, 8);
    lemma_le_roundtrip(a.compressed_size as nat, 8);
    lemma_le_roundtrip(b.compressed_size as nat, 8);
    lemma_le_roundtrip(a.uncompressed_offset as nat, 8);
    lemma_le_roundtrip(b.uncompressed_offset as nat, 8);
    lemma_le_roundtrip(a.uncompressed_size as nat, 8);
    lemma_le_roundtrip(b.uncompressed_size as nat, 8);
}


/// Whether frame `f` holds the uncompressed byte at offset `c`.
pub open spec fn covers(f: FrameTableEntry, c: nat) -> bool {
    f.uncompressed_offset <= c && c < f.uncompressed_offset + f.uncompressed_size
}

/// The first frame holding the uncompressed byte at `cursor`.
pub fn frame_for_offset(frames: &[FrameTableEntry], cursor: u64) -> (r: Option<usize>)
    ensures
        match r {
            Some(k) => k < frames.len() && covers(frames@[k as int], cursor as nat) && forall|j: int|
                0 <= j < k ==> !covers(#[trigger] frames@[j], cursor as nat),
            None => forall|j: int| 0 <= j < frames.len() ==> !covers(#[trigger] frames@[j], cursor as nat),
        },
{
    let mut k: usize = 0;
    while k < frames.len()
        invariant
            k <= frames.len(),
            forall|j: int| 0 <= j < k ==> !covers(#[trigger] frames@[j], cursor as nat),
        decreases frames.len() - k,
    {
        let f = frames[k];
        if cursor >= f.uncompressed_offset && cursor - f.uncompressed_offset < f.uncompressed_size {
            return Some(k);
        }
        k = k + 1;
    }
    None
}

/// End of the uncompressed range `[start, start + len)`; an error when it
/// overflows or runs past the `total` bytes of the payload.
pub fn read_range_end(total: u64, start: u64, len: u64) -> (r: Result<u64>)
    ensures
        match r {
            Ok(end) => end == start + len && end <= total,
            Err(e) => e is Archive && start + len > total,
        },
{
    match start.checked_add(len) {
        None => Err(Error::Archive(string_from("tar.lz4: read range overflow"))),
        Some(end) => {
            if end > total {
                Err(Error::Archive(string_from("tar.lz4: read past end")))
            } else {
                Ok(end)
            }
        },
    }
}

/// Append to `dst`, until it holds `want` bytes or `frame_data` runs out, the
/// decoded bytes of `frame` from uncompressed offset `cursor` on; gives the
/// offset after them. An error, leaving `dst` alone, when the decoded frame is
/// shorter than the table says it reaches.
pub fn copy_from_frame(
    dst: &mut Vec<u8>,
    want: usize,
    frame: &FrameTableEntry,
    frame_data: &[u8],
    cursor: u64,
) -> (r: Result<u64>)
    requires
        covers(*frame, cursor as nat),
        old(dst).len() < want,
        cursor + (want - old(dst).len()) <= u64::MAX,
    ensures
        match r {
            Ok(c) => {
                let local = cursor - frame.uncompressed_offset;
                let take = if want - old(dst).len() < frame_data.len() - local {
                    want - old(dst).len()
                } else {
                    frame_data.len() - local
                };
                &&& local < frame_data.len()
                &&& final(dst)@ == old(dst)@ + frame_data@.subrange(local, local + take)
                &&& c == cursor + take
            },
            Err(e) => e is Archive && cursor - frame.uncompressed_offset >= frame_data.len() && final(dst)@
                == old(dst)@,
        },
{
    let local = (cursor - frame.uncompressed_offset) as usize;
    if (cursor - frame.uncompressed_offset) >= frame_data.len() as u64 {
        return Err(Error::Archive(string_from("tar.lz4: frame decode size mismatch")));
    }
    let room = want - dst.len();
    let left = frame_data.len() - local;
    let take = if room < left {
        room
    } else {
        left
    };
    let part = bslice(frame_data, local, local + take);
    crate::bytes::bextend(dst, &part);
    Ok(cursor + take as u64)
}


/// Concatenation of byte strings.
pub open spec fn flat(cs: Seq<Seq<u8>>) -> Seq<u8>
    decreases cs.len(),
{
    if cs.len() == 0 {
        Seq::empty()
    } else {
        flat(cs.drop_last()) + cs.last()
    }
}

/// The LZ4 frames of the chunks, one after another.
pub open spec fn lz4_frames(cs: Seq<Seq<u8>>) -> Seq<u8>
    decreases cs.len(),
{
    if cs.len() == 0 {
        Seq::empty()
    } else {
        lz4_frames(cs.drop_last()) + lz4_frame(cs.last())
    }
}

/// A frame table describing the chunks `cs` cut from the payload: frame `k`
/// holds chunk `k` (non-empty, at most `size` bytes), its LZ4 frame length, and
/// sits right after the frames before it in both the payload and the file.
pub open spec fn table_ok(fs: Seq<FrameTableEntry>, cs: Seq<Seq<u8>>, size: nat) -> bool {
    &&& fs.len() == cs.len()
    &&& forall|k: int|
        0 <= k < fs.len() ==> {
            &&& (#[trigger] fs[k]).uncompressed_size == cs[k].len()
            &&& 0 < cs[k].len() <= size
            &&& fs[k].compressed_size == lz4_frame(cs[k]).len()
            &&& fs[k].uncompressed_offset == uncompressed_total(fs.take(k))
            &&& fs[k].compressed_offset == compressed_total(fs.take(k))
        }
}

/// The frame table covers the payload: the frames' uncompressed sizes add up
/// to the payload cut into chunks, and their compressed sizes to the LZ4
/// frames written for them.
pub proof fn lemma_frames_cover(fs: Seq<FrameTableEntry>, cs: Seq<Seq<u8>>, size: nat)
    requires
        table_ok(fs, cs, size),
    ensures
        uncompressed_total(fs) == flat(cs).len(),
        compressed_total(fs) == lz4_frames(cs).len(),
    decreases fs.len(),
{
    if fs.len() > 0 {
        let n = fs.len() - 1;
        assert forall|k: int| 0 <= k < fs.drop_last().len() implies {
            &&& (#[trigger] fs.drop_last()[k]).uncompressed_size == cs.drop_last()[k].len()
            &&& 0 < cs.drop_last()[k].len() <= size
            &&& fs.drop_last()[k].compressed_size == lz4_frame(cs.drop_last()[k]).len()
            &&& fs.drop_last()[k].uncompressed_offset == uncompressed_total(fs.drop_last().take(k))
            &&& fs.drop_last()[k].compressed_offset == compressed_total(fs.drop_last().take(k))
        } by {
            assert(fs.drop_last().take(k) =~= fs.take(k));
            assert(fs.drop_last()[k] == fs[k]);
            assert(cs.drop_last()[k] == cs[k]);
        }
        lemma_frames_cover(fs.drop_last(), cs.drop_last(), size);
        assert(fs[n] == fs.last());
    }
}

/// Cuts the uncompressed payload into frames of at most `frame_size` bytes,
/// compresses each into an independent LZ4 frame and keeps the frame table.
/// The compressed bytes are handed back to be written out in order.
pub struct FrameWriter {
    frame_size: usize,
    cur: Vec<u8>,
    frames: Vec<FrameTableEntry>,
    uncomp_pos: u64,
    comp_pos: u64,
    chunks: Ghost<Seq<Seq<u8>>>,
}

/// Whether the payload and the frames of `cs` both stay within 64-bit offsets.
pub open spec fn fits(cs: Seq<Seq<u8>>) -> bool {
    flat(cs).len() <= u64::MAX && lz4_frames(cs).len() <= u64::MAX
}

/// The full `f`-byte chunks cut from the front of `s`, in order (a shorter
/// rest stays uncut).
pub open spec fn cut_full(s: Seq<u8>, f: nat) -> Seq<Seq<u8>>
    decreases s.len(),
{
    if f == 0 || s.len() < f {
        Seq::empty()
    } else {
        seq![s.take(f as int)] + cut_full(s.skip(f as int), f)
    }
}

proof fn lemma_flat_concat(a: Seq<Seq<u8>>, b: Seq<Seq<u8>>)
    ensures
        flat(a + b).len() == flat(a).len() + flat(b).len(),
        lz4_frames(a + b).len() == lz4_frames(a).len() + lz4_frames(b).len(),
    decreases b.len(),
{
    if b.len() == 0 {
        assert(a + b =~= a);
    } else {
        assert((a + b).drop_last() =~= a + b.drop_last());
        assert((a + b).last() == b.last());
        lemma_flat_concat(a, b.drop_last());
    }
}

/// Cutting a full first chunk: the chunks so far, that chunk, then the chunks
/// cut from the rest; when all of them fit, so do those up to the new chunk.
proof fn lemma_cut_full_step(cs: Seq<Seq<u8>>, pend: Seq<u8>, rest: Seq<u8>, f: nat)
    requires
        f > 0,
        pend.len() == f,
    ensures
        cs + cut_full(pend + rest, f) == cs.push(pend) + cut_full(rest, f),
        fits(cs + cut_full(pend + rest, f)) ==> fits(cs.push(pend)),
{
    assert((pend + rest).take(f as int) =~= pend);
    assert((pend + rest).skip(f as int) =~= rest);
    assert(cut_full(pend + rest, f) == seq![pend] + cut_full(rest, f));
    assert(cs + cut_full(pend + rest, f) =~= cs.push(pend) + cut_full(rest, f));
    lemma_fits_prefix(cs.push(pend), cut_full(rest, f));
}

/// A prefix of chunks that fit also fits.
proof fn lemma_fits_prefix(a: Seq<Seq<u8>>, b: Seq<Seq<u8>>)
    ensures
        fits(a + b) ==> fits(a),
{
    lemma_flat_concat(a, b);
}

impl FrameWriter {
    pub closed spec fn frame_size_spec(&self) -> nat {
        self.frame_size as nat
    }

    /// Payload bytes not yet cut into a frame.
    pub closed spec fn pending(&self) -> Seq<u8> {
        self.cur@
    }

    /// The chunks already cut into frames, in order.
    pub closed spec fn chunks_spec(&self) -> Seq<Seq<u8>> {
        self.chunks@
    }

    pub closed spec fn frames_spec(&self) -> Seq<FrameTableEntry> {
        self.frames@
    }

    pub closed spec fn positions(&self) -> (nat, nat) {
        (self.uncomp_pos as nat, self.comp_pos as nat)
    }

    /// Everything written so far, cut into frames or pending.
    pub open spec fn input(&self) -> Seq<u8> {
        flat(self.chunks_spec()) + self.pending()
    }

    /// The frame table matches the chunks, the positions are its totals, and
    /// the pending bytes fit in one frame.
    pub open spec fn inv(&self) -> bool {
        &&& self.frame_size_spec() >= MIN_FRAME_SIZE
        &&& self.pending().len() <= self.frame_size_spec()
        &&& table_ok(self.frames_spec(), self.chunks_spec(), self.frame_size_spec())
        &&& self.positions() == (uncompressed_total(self.frames_spec()), compressed_total(self.frames_spec()))
    }

    /// [`Self::inv`] with room left in the pending frame.
    pub open spec fn wf(&self) -> bool {
        self.inv() && self.pending().len() < self.frame_size_spec()
    }

    /// A writer cutting frames of `frame_size` bytes (at least [`MIN_FRAME_SIZE`]).
    pub fn new(frame_size: usize) -> (w: Self)
        ensures
            w.wf(),
            w.frame_size_spec() == (if frame_size < MIN_FRAME_SIZE { MIN_FRAME_SIZE as nat } else { frame_size as nat }),
            w.chunks_spec() == Seq::<Seq<u8>>::empty(),
            w.pending() == Seq::<u8>::empty(),
    {
        let size = if frame_size < MIN_FRAME_SIZE {
            MIN_FRAME_SIZE
        } else {
            frame_size
        };
        let w = FrameWriter {
            frame_size: size,
            cur: Vec::new(),
            frames: Vec::new(),
            uncomp_pos: 0,
            comp_pos: 0,
            chunks: Ghost(Seq::empty()),
        };
        assert(w.frames@ =~= Seq::<FrameTableEntry>::empty());
        w
    }

    /// The frames cut so far.
    pub fn frames(&self) -> (f: &[FrameTableEntry])
        ensures
            f@ == self.frames_spec(),
    {
        self.frames.as_slice()
    }

    /// Cut the pending bytes into a frame, if there are any, and give back its
    /// LZ4 encoding. Fails, changing nothing, exactly when an offset would
    /// overflow.
    pub fn flush_frame(&mut self) -> (r: Result<Vec<u8>>)
        requires
            old(self).inv(),
        ensures
            old(self).pending().len() == 0 ==> r is Ok,
            old(self).pending().len() > 0 ==> (r is Ok <==> fits(old(self).chunks_spec().push(old(self).pending()))),
            r is Err ==> *final(self) == *old(self),
            r matches Ok(out) ==> {
                &&& final(self).wf()
                &&& final(self).frame_size_spec() == old(self).frame_size_spec()
                &&& final(self).pending() == Seq::<u8>::empty()
                &&& final(self).input() == old(self).input()
                &&& final(self).chunks_spec() == (if old(self).pending().len() == 0 {
                    old(self).chunks_spec()
                } else {
                    old(self).chunks_spec().push(old(self).pending())
                })
                &&& out@ == (if old(self).pending().len() == 0 {
                    Seq::<u8>::empty()
                } else {
                    lz4_frame(old(self).pending())
                })
            },
            r matches Err(e) ==> e is Compress || e is Archive,
    {
        if self.cur.len() == 0 {
            proof {
                assert(self.input() =~= flat(self.chunks_spec()));
            }
            return Ok(Vec::new());
        }
        let compressed = match lz4_encode(&self.cur) {
            Ok(v) => v,
            Err(m) => {
                return Err(Error::Compress(m));
            },
        };
        proof {
            lemma_frames_cover(self.frames@, self.chunks@, self.frame_size as nat);
            let cs = self.chunks@;
            let p = self.cur@;
            assert(cs.push(p).drop_last() =~= cs);
            assert(flat(cs.push(p)) == flat(cs) + p);
            assert(lz4_frames(cs.push(p)) == lz4_frames(cs) + lz4_frame(p));
        }
        let csize = compressed.len() as u64;
        let usize_ = self.cur.len() as u64;
        if self.comp_pos > u64::MAX - csize {
            return Err(Error::Archive(string_from("tar.lz4 compressed offset overflow")));
        }
        if self.uncomp_pos > u64::MAX - usize_ {
            return Err(Error::Archive(string_from("tar.lz4 uncompressed offset overflow")));
        }
        let entry = FrameTableEntry {
            compressed_offset: self.comp_pos,
            compressed_size: csize,
            uncompressed_offset: self.uncomp_pos,
            uncompressed_size: usize_,
        };
        let ghost fs0 = self.frames@;
        let ghost cs0 = self.chunks@;
        let ghost p0 = self.cur@;
        self.frames.push(entry);
        self.comp_pos = self.comp_pos + csize;
        self.uncomp_pos = self.uncomp_pos + usize_;
        self.chunks = Ghost(cs0.push(p0));
        self.cur = Vec::new();
        proof {
            let fs = self.frames@;
            let cs = self.chunks@;
            assert(fs.drop_last() =~= fs0);
            assert(cs.drop_last() =~= cs0);
            assert forall|k: int| 0 <= k < fs.len() implies {
                &&& (#[trigger] fs[k]).uncompressed_size == cs[k].len()
                &&& 0 < cs[k].len() <= self.frame_size
                &&& fs[k].compressed_size == lz4_frame(cs[k]).len()
                &&& fs[k].uncompressed_offset == uncompressed_total(fs.take(k))
                &&& fs[k].compressed_offset == compressed_total(fs.take(k))
            } by {
                if k < fs0.len() {
                    assert(fs.take(k) =~= fs0.take(k));
                    assert(fs[k] == fs0[k]);
                    assert(cs[k] == cs0[k]);
                } else {
                    assert(fs.take(k) =~= fs0);
                }
            }
            assert(self.cur@ =~= Seq::<u8>::empty());
            assert(self.input() =~= old(self).input());
        }
        Ok(compressed)
    }

    /// Add payload bytes, cutting a frame each time one fills up; gives back
    /// the LZ4 frames cut during the call. Succeeds exactly when the offsets
    /// of all the frames so cut fit in 64 bits.
    #[verifier::rlimit(40)]
    pub fn write_all(&mut self, data: &[u8]) -> (r: Result<Vec<u8>>)
        requires
            old(self).wf(),
        ensures
            r is Ok <==> fits(old(self).chunks_spec() + cut_full(old(self).pending() + data@, old(self).frame_size_spec())),
            r is Ok ==> final(self).chunks_spec() == old(self).chunks_spec() + cut_full(
                old(self).pending() + data@,
                old(self).frame_size_spec(),
            ),
            r matches Ok(out) ==> {
                &&& final(self).wf()
                &&& final(self).frame_size_spec() == old(self).frame_size_spec()
                &&& final(self).input() == old(self).input() + data@
                &&& old(self).chunks_spec().len() <= final(self).chunks_spec().len()
                &&& final(self).chunks_spec().take(old(self).chunks_spec().len() as int) == old(self).chunks_spec()
                &&& out@ == lz4_frames(final(self).chunks_spec().skip(old(self).chunks_spec().len() as int))
            },
            r matches Err(e) ==> e is Compress || e is Archive,
    {
        let ghost n0 = self.chunks@.len() as int;
        let ghost ch0 = self.chunks@;
        let ghost in0 = self.input();
        let ghost fs0 = self.frame_size_spec();
        let ghost all = ch0 + cut_full(self.pending() + data@, fs0);
        let mut out: Vec<u8> = Vec::new();
        let mut i: usize = 0;
        proof {
            assert(self.chunks@.skip(n0) =~= Seq::<Seq<u8>>::empty());
            assert(data@.take(0) =~= Seq::<u8>::empty());
            assert(in0 + data@.take(0) =~= in0);
            assert(self.chunks@.take(n0) =~= ch0);
            assert(data@.skip(0) =~= data@);
        }
        while i < data.len()
            invariant
                i <= data.len(),
                self.wf(),
                self.frame_size_spec() == fs0,
                self.input() == in0 + data@.take(i as int),
                0 <= n0 <= self.chunks_spec().len(),
                self.chunks_spec().take(n0) == ch0,
                out@ == lz4_frames(self.chunks_spec().skip(n0)),
                self.chunks_spec() + cut_full(self.pending() + data@.skip(i as int), fs0) == all,
                all == ch0 + cut_full(old(self).pending() + data@, fs0),
                ch0 == old(self).chunks_spec(),
                fs0 == old(self).frame_size_spec(),
            decreases data.len() - i,
        {
            let space = self.frame_size - self.cur.len();
            let take = if data.len() - i < space {
                data.len() - i
            } else {
                space
            };
            let part = bslice(data, i, i + take);
            let ghost before = self.input();
            let ghost cur0 = self.cur@;
            crate::bytes::bextend(&mut self.cur, &part);
            proof {
                assert(data@.take(i + take) =~= data@.take(i as int) + part@);
                assert(self.input() =~= before + part@);
                assert(cur0 + data@.skip(i as int) =~= self.cur@ + data@.skip(i + take));
                if self.cur@.len() < fs0 {
                    assert(i + take == data.len());
                }
            }
            i = i + take;
            if self.cur.len() >= self.frame_size {
                let ghost cs_before = self.chunks@;
                let ghost pend = self.cur@;
                let ghost rest = data@.skip(i as int);
                proof {
                    lemma_cut_full_step(cs_before, pend, rest, fs0);
                }
                let o = match self.flush_frame() {
                    Ok(o) => o,
                    Err(e) => {
                        assert(pend.len() > 0);
                        assert(!fits(cs_before.push(pend)));
                        assert(!fits(all));
                        return Err(e);
                    },
                };
                proof {
                    assert(Seq::<u8>::empty() + rest =~= rest);
                    let cs = self.chunks@;
                    assert(cs == cs_before.push(pend));
                    assert(cs.skip(n0) =~= cs_before.skip(n0).push(pend));
                    assert(cs.skip(n0).drop_last() =~= cs_before.skip(n0));
                    assert(cs.take(n0) =~= cs_before.take(n0));
                }
                crate::bytes::bextend(&mut out, &o);
            }
        }
        proof {
            assert(data@.take(data.len() as int) =~= data@);
            assert(self.pending().len() < fs0);
            assert(data@.skip(i as int) =~= Seq::<u8>::empty());
            assert(self.pending() + data@.skip(i as int) =~= self.pending());
            assert(cut_full(self.pending(), fs0) =~= Seq::<Seq<u8>>::empty());
            assert(self.chunks_spec() + Seq::<Seq<u8>>::empty() =~= self.chunks_spec());
            lemma_frames_cover(self.frames@, self.chunks@, self.frame_size as nat);
        }
        Ok(out)
    }

    /// Cut the last frame and give back its LZ4 encoding followed by the frame
    /// table, which records that it starts after all the compressed frames.
    /// Fails exactly when the last frame's offsets would overflow.
    pub fn finish(&mut self) -> (r: Result<Vec<u8>>)
        requires
            old(self).wf(),
        ensures
            r is Ok <==> (old(self).pending().len() == 0 || fits(old(self).chunks_spec().push(old(self).pending()))),
            r matches Ok(out) ==> {
                let cs = final(self).chunks_spec();
                let fs = final(self).frames_spec();
                &&& final(self).input() == old(self).input()
                &&& flat(cs) == old(self).input()
                &&& table_ok(fs, cs, final(self).frame_size_spec())
                &&& uncompressed_total(fs) == old(self).input().len()
                &&& compressed_total(fs) == lz4_frames(cs).len()
                &&& out@ == (if old(self).pending().len() == 0 {
                    Seq::<u8>::empty()
                } else {
                    lz4_frame(old(self).pending())
                }) + frame_table_bytes(fs, uncompressed_total(fs) as u64, compressed_total(fs) as u64)
            },
            r matches Err(e) ==> e is Compress || e is Archive,
    {
        let mut out = self.flush_frame()?;
        proof {
            lemma_frames_cover(self.frames@, self.chunks@, self.frame_size as nat);
            assert(self.input() =~= flat(self.chunks@));
        }
        let table = encode_frame_table(self.frames.as_slice(), self.uncomp_pos)?;
        crate::bytes::bextend(&mut out, &table);
        Ok(out)
    }
}

/// `lz4_flex::frame::FrameDecoder` over `raw`, read to the end: the decoded
/// bytes, or the decoder's error message.
#[verifier::external_body]
fn lz4_decode(raw: &[u8]) -> (r: core::result::Result<Vec<u8>, String>)
    ensures
        match lz4_unframe(raw@) {
            Some(v) => r matches Ok(o) && o@ == v,
            None => r is Err,
        },
{
    let mut d = lz4_flex::frame::FrameDecoder::new(raw);
    let mut out = Vec::new();
    std::io::Read::read_to_end(&mut d, &mut out).map_err(|e| format!("{e}"))?;
    Ok(out)
}

/// Decode the compressed bytes of one frame: an error when they do not
/// decode, or when they decode to other than the frame's recorded size.
pub fn decode_frame_bytes(raw: &[u8], frame: &FrameTableEntry) -> (r: Result<Vec<u8>>)
    ensures
        match lz4_unframe(raw@) {
            Some(v) => if v.len() == frame.uncompressed_size {
                r matches Ok(o) && o@ == v
            } else {
                r matches Err(e) && e is Archive
            },
            None => r matches Err(e) && e is Archive,
        },
{
    match lz4_decode(raw) {
        Ok(out) => {
            if out.len() as u64 == frame.uncompressed_size {
                Ok(out)
            } else {
                Err(Error::Archive(string_from("tar.lz4: frame uncompressed size mismatch")))
            }
        },
        Err(msg) => Err(Error::Archive(crate::text::concat_str("tar.lz4 decode frame: ", msg.as_str()))),
    }
}

} // verus!
