//! Shared tar header and `RATAIDX1` member-index helpers for tar.zst and tar.lz4.

use crate::bytes::{
    bslice, lemma_le_inverse, lemma_le_len, lemma_le_roundtrip, lemma_le_val_bound, le_bytes, le_val,
    pow256, push_le, read_le,
};
use crate::error::{Error, Result};
use crate::select::walk::SelectedEntry;
use crate::text::{
    chars_of, contains_char, join, nonempty, split, split_chars, views, decode_utf8_text, fit_count, fit_suffix, lemma_utf8_first, string_from,
    string_of, strip_leading, strip_leading_chars, strip_trailing, strip_trailing_chars,
    truncate_to_bytes, utf8, utf8_len,
};
use vstd::hash_set::StringHashSet;
use vstd::prelude::*;

verus! {

/// Index format version.
pub const INDEX_VERSION: u32 = 1;

/// Default permission bits for directory members when the real directory cannot be read.
pub const DEFAULT_DIR_MODE: u32 = 0o755;

/// Magic prefix of the uncompressed tar member index: `RATAIDX1`.
pub open spec fn tar_index_magic() -> Seq<u8> {
    seq![0x52u8, 0x41, 0x54, 0x41, 0x49, 0x44, 0x58, 0x31]
}

/// The magic bytes `RATAIDX1`.
pub fn index_magic() -> (m: Vec<u8>)
    ensures
        m@ == tar_index_magic(),
{
    let m = vec![0x52u8, 0x41, 0x54, 0x41, 0x49, 0x44, 0x58, 0x31];
    assert(m@ =~= tar_index_magic());
    m
}

/// One member in the `RATAIDX1` trailer.
#[derive(Debug, Clone, PartialEq, Eq)]
pub struct TarMemberIndexEntry {
    pub name: String,
    /// Uncompressed offset of the ustar (or pax+ustar) header start.
    pub tar_header_offset: u64,
    /// Uncompressed offset of the first file content byte.
    pub tar_data_offset: u64,
    pub data_len: u64,
    pub mode: u32,
    pub mtime_unix: u64,
    pub uid: u32,
    pub gid: u32,
}

/// Mathematical model of an index entry.
pub struct TarEntryModel {
    pub name: Seq<char>,
    pub hoff: u64,
    pub doff: u64,
    pub dlen: u64,
    pub mode: u32,
    pub mtime: u64,
    pub uid: u32,
    pub gid: u32,
}

impl View for TarMemberIndexEntry {
    type V = TarEntryModel;

    open spec fn view(&self) -> TarEntryModel {
        TarEntryModel {
            name: self.name@,
            hoff: self.tar_header_offset,
            doff: self.tar_data_offset,
            dlen: self.data_len,
            mode: self.mode,
            mtime: self.mtime_unix,
            uid: self.uid,
            gid: self.gid,
        }
    }
}

pub open spec fn mviews(v: Seq<TarMemberIndexEntry>) -> Seq<TarEntryModel> {
    v.map_values(|m: TarMemberIndexEntry| m@)
}

/// Full member index for a tar-in-compressed-stream archive.
#[derive(Debug, Clone, PartialEq, Eq)]
pub struct TarMemberIndex {
    pub version: u32,
    pub members: Vec<TarMemberIndexEntry>,
}

/// Encoded bytes of one member: name length, UTF-8 name, then the numeric
/// fields, all little-endian.
pub open spec fn entry_bytes(m: TarEntryModel) -> Seq<u8> {
    le_bytes(utf8(m.name).len(), 8) + utf8(m.name) + le_bytes(m.hoff as nat, 8) + le_bytes(
        m.doff as nat,
        8,
    ) + le_bytes(m.dlen as nat, 8) + le_bytes(m.mode as nat, 4) + le_bytes(m.mtime as nat, 8)
        + le_bytes(m.uid as nat, 4) + le_bytes(m.gid as nat, 4)
}

pub open spec fn entries_bytes(ms: Seq<TarEntryModel>) -> Seq<u8>
    decreases ms.len(),
{
    if ms.len() == 0 {
        Seq::empty()
    } else {
        entry_bytes(ms[0]) + entries_bytes(ms.skip(1))
    }
}

pub open spec fn index_header(count: nat) -> Seq<u8> {
    tar_index_magic() + le_bytes(1, 4) + le_bytes(count, 8)
}

/// The `RATAIDX1` encoding of a member list.
pub open spec fn tar_index_bytes(ms: Seq<TarEntryModel>) -> Seq<u8> {
    index_header(ms.len()) + entries_bytes(ms)
}

/// Members whose lengths fit the encoding's 64-bit length fields.
pub open spec fn index_model_ok(ms: Seq<TarEntryModel>) -> bool {
    &&& ms.len() < pow256(8)
    &&& forall|k: int| 0 <= k < ms.len() ==> utf8((#[trigger] ms[k]).name).len() < pow256(8)
}

proof fn lemma_entries_split(ms: Seq<TarEntryModel>, i: int)
    requires
        0 <= i <= ms.len(),
    ensures
        entries_bytes(ms) == entries_bytes(ms.take(i)) + entries_bytes(ms.skip(i)),
    decreases i,
{
    if i == 0 {
        assert(ms.take(0) =~= Seq::<TarEntryModel>::empty());
        assert(ms.skip(0) == ms);
        assert(entries_bytes(ms.take(0)) =~= Seq::<u8>::empty());
    } else {
        lemma_entries_split(ms.skip(1), i - 1);
        assert(ms.take(i).skip(1) == ms.skip(1).take(i - 1));
        assert(ms.skip(1).skip(i - 1) == ms.skip(i));
        assert(ms.take(i)[0] == ms[0]);
        assert(entries_bytes(ms.take(i)) == entry_bytes(ms[0]) + entries_bytes(ms.skip(1).take(i - 1)));
    }
}

proof fn lemma_entries_push(ms: Seq<TarEntryModel>, i: int)
    requires
        0 <= i < ms.len(),
    ensures
        entries_bytes(ms.take(i + 1)) == entries_bytes(ms.take(i)) + entry_bytes(ms[i]),
{
    let t = ms.take(i + 1);
    lemma_entries_split(t, i);
    assert(t.take(i) == ms.take(i));
    assert(t.skip(i) =~= seq![ms[i]]);
    assert(entries_bytes(seq![ms[i]]) == entry_bytes(ms[i]) + entries_bytes(seq![ms[i]].skip(1)));
    assert(seq![ms[i]].skip(1) =~= Seq::<TarEntryModel>::empty());
}

proof fn lemma_entry_len(m: TarEntryModel)
    ensures
        entry_bytes(m).len() == 52 + utf8(m.name).len(),
{
    lemma_le_len(utf8(m.name).len(), 8);
    lemma_le_len(m.hoff as nat, 8);
    lemma_le_len(m.doff as nat, 8);
    lemma_le_len(m.dlen as nat, 8);
    lemma_le_len(m.mode as nat, 4);
    lemma_le_len(m.mtime as nat, 8);
    lemma_le_len(m.uid as nat, 4);
    lemma_le_len(m.gid as nat, 4);
}

/// Encode the member index: `RATAIDX1`, version, count, then each member.
pub fn encode_index(members: &[TarMemberIndexEntry]) -> (r: Result<Vec<u8>>)
    ensures
        r matches Ok(v) && v@ == tar_index_bytes(mviews(members@)),
        index_model_ok(mviews(members@)),
{
    let ghost ms = mviews(members@);
    assert(pow256(8) == 18446744073709551616) by {
        reveal_with_fuel(pow256, 9);
    }
    let mut buf = index_magic();
    push_le(&mut buf, 1, 4);
    push_le(&mut buf, members.len() as u64, 8);
    assert(buf@ == index_header(ms.len()));
    let mut i: usize = 0;
    while i < members.len()
        invariant
            i <= members.len(),
            ms == mviews(members@),
            buf@ == index_header(ms.len()) + entries_bytes(ms.take(i as int)),
            pow256(8) == 18446744073709551616,
            forall|k: int| 0 <= k < i ==> utf8((#[trigger] ms[k]).name).len() < pow256(8),
        decreases members.len() - i,
    {
        let m = &members[i];
        assert(ms[i as int] == m@);
        let nb = m.name.as_str().as_bytes();
        let ghost b0 = buf@;
        push_le(&mut buf, nb.len() as u64, 8);
        let mut k: usize = 0;
        let ghost b1 = buf@;
        while k < nb.len()
            invariant
                k <= nb.len(),
                buf@ == b1 + nb@.take(k as int),
            decreases nb.len() - k,
        {
            buf.push(nb[k]);
            k = k + 1;
            assert(buf@ =~= b1 + nb@.take(k as int));
        }
        assert(nb@.take(nb.len() as int) == nb@);
        push_le(&mut buf, m.tar_header_offset, 8);
        push_le(&mut buf, m.tar_data_offset, 8);
        push_le(&mut buf, m.data_len, 8);
        push_le(&mut buf, m.mode as u64, 4);
        push_le(&mut buf, m.mtime_unix, 8);
        push_le(&mut buf, m.uid as u64, 4);
        push_le(&mut buf, m.gid as u64, 4);
        proof {
            assert(nb@ == utf8(m.name@));
            assert(utf8(ms[i as int].name).len() < pow256(8));
            lemma_entries_push(ms, i as int);
            assert(buf@ =~= b0 + entry_bytes(m@));
        }
        i = i + 1;
    }
    assert(ms.take(members.len() as int) == ms);
    assert(ms.len() < pow256(8));
    Ok(buf)
}

#[verifier::rlimit(40)]
/// Reads the entry at `buf[pos..]`: `None` when the bytes are too short or the
/// name is not UTF-8; else the entry and the position after it.
fn read_entry(buf: &[u8], pos: usize) -> (r: Option<(TarMemberIndexEntry, usize)>)
    requires
        pos <= buf.len(),
    ensures
        match r {
            Some((m, p)) => pos < p <= buf.len() && buf@.subrange(pos as int, p as int) == entry_bytes(m@),
            None => forall|m: TarEntryModel|
                utf8(m.name).len() < pow256(8) ==> !(#[trigger] entry_bytes(m)).is_prefix_of(buf@.skip(pos as int)),
        },
{
    if buf.len() - pos < 8 {
        proof {
            assert forall|m: TarEntryModel| utf8(m.name).len() < pow256(8) implies !(#[trigger] entry_bytes(m)).is_prefix_of(buf@.skip(pos as int)) by {
                lemma_entry_len(m);
            }
        }
        return None;
    }
    let name_len = read_le(buf, pos, 8);
    let avail = buf.len() - pos - 8;
    if name_len > avail as u64 || avail - (name_len as usize) < 44 {
        proof {
            assert forall|m: TarEntryModel| utf8(m.name).len() < pow256(8) implies !(#[trigger] entry_bytes(m)).is_prefix_of(buf@.skip(pos as int)) by {
                lemma_entry_len(m);
                if entry_bytes(m).is_prefix_of(buf@.skip(pos as int)) {
                    let l = utf8(m.name).len();
                    lemma_le_roundtrip(l, 8);
                    assert(entry_bytes(m).subrange(0, 8) == le_bytes(l, 8));
                    assert(buf@.subrange(pos as int, pos + 8) == entry_bytes(m).subrange(0, 8));
                }
            }
        }
        return None;
    }
    let nl = name_len as usize;
    let p1 = pos + 8;
    let name_bytes = bslice(buf, p1, p1 + nl);
    let name = match decode_utf8_text(name_bytes) {
        Some(s) => s,
        None => {
            proof {
                assert forall|m: TarEntryModel| utf8(m.name).len() < pow256(8) implies !(#[trigger] entry_bytes(m)).is_prefix_of(buf@.skip(pos as int)) by {
                    lemma_entry_len(m);
                    if entry_bytes(m).is_prefix_of(buf@.skip(pos as int)) {
                        let l = utf8(m.name).len();
                        lemma_le_roundtrip(l, 8);
                        assert(entry_bytes(m).subrange(0, 8) == le_bytes(l, 8));
                        assert(buf@.subrange(pos as int, pos + 8) == entry_bytes(m).subrange(0, 8));
                        assert(entry_bytes(m).subrange(8, 8 + l as int) == utf8(m.name));
                        assert(buf@.subrange(p1 as int, p1 + nl) == utf8(m.name));
                        vstd::utf8::encode_utf8_valid_utf8(m.name);
                    }
                }
            }
            return None;
        },
    };
    let p2 = p1 + nl;
    let hoff = read_le(buf, p2, 8);
    let doff = read_le(buf, p2 + 8, 8);
    let dlen = read_le(buf, p2 + 16, 8);
    let mode = read_le(buf, p2 + 24, 4) as u32;
    let mtime = read_le(buf, p2 + 28, 8);
    let uid = read_le(buf, p2 + 36, 4) as u32;
    let gid = read_le(buf, p2 + 40, 4) as u32;
    let m = TarMemberIndexEntry {
        name,
        tar_header_offset: hoff,
        tar_data_offset: doff,
        data_len: dlen,
        mode,
        mtime_unix: mtime,
        uid,
        gid,
    };
    proof {
        let s = buf@;
        lemma_le_inverse(s.subrange(pos as int, pos + 8));
        lemma_le_inverse(s.subrange(p2 as int, p2 + 8));
        lemma_le_inverse(s.subrange(p2 + 8, p2 + 16));
        lemma_le_inverse(s.subrange(p2 + 16, p2 + 24));
        lemma_le_inverse(s.subrange(p2 + 24, p2 + 28));
        lemma_le_inverse(s.subrange(p2 + 28, p2 + 36));
        lemma_le_inverse(s.subrange(p2 + 36, p2 + 40));
        lemma_le_inverse(s.subrange(p2 + 40, p2 + 44));
        lemma_le_val_bound(s.subrange(p2 + 24, p2 + 28));
        lemma_le_val_bound(s.subrange(p2 + 36, p2 + 40));
        lemma_le_val_bound(s.subrange(p2 + 40, p2 + 44));
        reveal_with_fuel(pow256, 5);
        assert(utf8(m.name@) == s.subrange(p1 as int, p1 + nl));
        assert(s.subrange(pos as int, p2 + 44) =~= s.subrange(pos as int, pos + 8) + s.subrange(
            p1 as int,
            p1 + nl,
        ) + s.subrange(p2 as int, p2 + 8) + s.subrange(p2 + 8, p2 + 16) + s.subrange(p2 + 16, p2 + 24)
            + s.subrange(p2 + 24, p2 + 28) + s.subrange(p2 + 28, p2 + 36) + s.subrange(p2 + 36, p2 + 40)
            + s.subrange(p2 + 40, p2 + 44));
    }
    Some((m, p2 + 44))
}

/// Where each field sits in an entry's encoding.
#[verifier::rlimit(40)]
proof fn lemma_entry_fields(m: TarEntryModel)
    ensures
        ({
            let e = entry_bytes(m);
            let l = utf8(m.name).len() as int;
            let q = 8 + l;
            &&& e.len() == q + 44
            &&& e.subrange(0, 8) == le_bytes(l as nat, 8)
            &&& e.subrange(8, q) == utf8(m.name)
            &&& e.subrange(q, q + 8) == le_bytes(m.hoff as nat, 8)
            &&& e.subrange(q + 8, q + 16) == le_bytes(m.doff as nat, 8)
            &&& e.subrange(q + 16, q + 24) == le_bytes(m.dlen as nat, 8)
            &&& e.subrange(q + 24, q + 28) == le_bytes(m.mode as nat, 4)
            &&& e.subrange(q + 28, q + 36) == le_bytes(m.mtime as nat, 8)
            &&& e.subrange(q + 36, q + 40) == le_bytes(m.uid as nat, 4)
            &&& e.subrange(q + 40, q + 44) == le_bytes(m.gid as nat, 4)
        }),
{
    lemma_entry_len(m);
    let l = utf8(m.name).len() as int;
    let q = 8 + l;
    let a0 = le_bytes(l as nat, 8);
    let a1 = utf8(m.name);
    let a2 = le_bytes(m.hoff as nat, 8);
    let a3 = le_bytes(m.doff as nat, 8);
    let a4 = le_bytes(m.dlen as nat, 8);
    let a5 = le_bytes(m.mode as nat, 4);
    let a6 = le_bytes(m.mtime as nat, 8);
    let a7 = le_bytes(m.uid as nat, 4);
    let a8 = le_bytes(m.gid as nat, 4);
    let e = entry_bytes(m);
    lemma_le_len(l as nat, 8);
    lemma_le_len(m.hoff as nat, 8);
    lemma_le_len(m.doff as nat, 8);
    lemma_le_len(m.dlen as nat, 8);
    lemma_le_len(m.mode as nat, 4);
    lemma_le_len(m.mtime as nat, 8);
    lemma_le_len(m.uid as nat, 4);
    lemma_le_len(m.gid as nat, 4);
    assert(e == a0 + a1 + a2 + a3 + a4 + a5 + a6 + a7 + a8);
    assert(e.subrange(0, 8) =~= a0);
    assert(e.subrange(8, q) =~= a1);
    assert(e.subrange(q, q + 8) =~= a2);
    assert(e.subrange(q + 8, q + 16) =~= a3);
    assert(e.subrange(q + 16, q + 24) =~= a4);
    assert(e.subrange(q + 24, q + 28) =~= a5);
    assert(e.subrange(q + 28, q + 36) =~= a6);
    assert(e.subrange(q + 36, q + 40) =~= a7);
    assert(e.subrange(q + 40, q + 44) =~= a8);
}

/// Equal little-endian fields of values that fit are equal values.
proof fn lemma_field_eq(x: nat, y: nat, n: nat, f: Seq<u8>)
    requires
        x < pow256(n),
        y < pow256(n),
        le_bytes(x, n) == f,
        le_bytes(y, n) == f,
    ensures
        x == y,
{
    lemma_le_roundtrip(x, n);
    lemma_le_roundtrip(y, n);
}

/// Two entries whose encodings both start the same bytes are the same entry.
proof fn lemma_entry_prefix_unique(a: TarEntryModel, b: TarEntryModel, s: Seq<u8>)
    requires
        utf8(a.name).len() < pow256(8),
        utf8(b.name).len() < pow256(8),
        entry_bytes(a).is_prefix_of(s),
        entry_bytes(b).is_prefix_of(s),
    ensures
        a == b,
{
    let ea = entry_bytes(a);
    let eb = entry_bytes(b);
    let la = utf8(a.name).len();
    let lb = utf8(b.name).len();
    lemma_entry_fields(a);
    lemma_entry_fields(b);
    assert(ea.subrange(0, 8) == s.subrange(0, 8));
    assert(eb.subrange(0, 8) == s.subrange(0, 8));
    lemma_field_eq(la, lb, 8, s.subrange(0, 8));
    let q = 8 + la as int;
    assert(ea.subrange(8, q) == s.subrange(8, q));
    assert(eb.subrange(8, q) == s.subrange(8, q));
    vstd::utf8::encode_utf8_decode_utf8(a.name);
    vstd::utf8::encode_utf8_decode_utf8(b.name);
    assert(pow256(8) == 18446744073709551616 && pow256(4) == 4294967296) by {
        reveal_with_fuel(pow256, 9);
    }
    assert(ea.subrange(q, q + 8) == s.subrange(q, q + 8));
    assert(eb.subrange(q, q + 8) == s.subrange(q, q + 8));
    lemma_field_eq(a.hoff as nat, b.hoff as nat, 8, s.subrange(q, q + 8));
    assert(ea.subrange(q + 8, q + 16) == s.subrange(q + 8, q + 16));
    assert(eb.subrange(q + 8, q + 16) == s.subrange(q + 8, q + 16));
    lemma_field_eq(a.doff as nat, b.doff as nat, 8, s.subrange(q + 8, q + 16));
    assert(ea.subrange(q + 16, q + 24) == s.subrange(q + 16, q + 24));
    assert(eb.subrange(q + 16, q + 24) == s.subrange(q + 16, q + 24));
    lemma_field_eq(a.dlen as nat, b.dlen as nat, 8, s.subrange(q + 16, q + 24));
    assert(ea.subrange(q + 24, q + 28) == s.subrange(q + 24, q + 28));
    assert(eb.subrange(q + 24, q + 28) == s.subrange(q + 24, q + 28));
    lemma_field_eq(a.mode as nat, b.mode as nat, 4, s.subrange(q + 24, q + 28));
    assert(ea.subrange(q + 28, q + 36) == s.subrange(q + 28, q + 36));
    assert(eb.subrange(q + 28, q + 36) == s.subrange(q + 28, q + 36));
    lemma_field_eq(a.mtime as nat, b.mtime as nat, 8, s.subrange(q + 28, q + 36));
    assert(ea.subrange(q + 36, q + 40) == s.subrange(q + 36, q + 40));
    assert(eb.subrange(q + 36, q + 40) == s.subrange(q + 36, q + 40));
    lemma_field_eq(a.uid as nat, b.uid as nat, 4, s.subrange(q + 36, q + 40));
    assert(ea.subrange(q + 40, q + 44) == s.subrange(q + 40, q + 44));
    assert(eb.subrange(q + 40, q + 44) == s.subrange(q + 40, q + 44));
    lemma_field_eq(a.gid as nat, b.gid as nat, 4, s.subrange(q + 40, q + 44));
}

/// Under a hypothetical encoding `ms` of `buf` whose first `i` members were
/// read up to `pos`, the rest of `buf` encodes the remaining members.
proof fn lemma_rest_encodes(buf: Seq<u8>, ms: Seq<TarEntryModel>, count: nat, i: int, pos: int, read: Seq<TarEntryModel>)
    requires
        buf == tar_index_bytes(ms),
        ms.len() == count,
        0 <= i <= ms.len(),
        ms.take(i) == read,
        0 <= pos <= buf.len(),
        buf.take(pos) == index_header(count) + entries_bytes(read),
    ensures
        buf.skip(pos) == entries_bytes(ms.skip(i)),
{
    lemma_entries_split(ms, i);
    assert(buf == (index_header(count) + entries_bytes(read)) + entries_bytes(ms.skip(i)));
    assert(buf.skip(pos) =~= entries_bytes(ms.skip(i)));
}

/// Parse a `RATAIDX1` member index. Succeeds exactly on the encodings of
/// member lists, giving that list back.
#[verifier::rlimit(40)]
pub fn parse_index(buf: &[u8]) -> (r: Result<TarMemberIndex>)
    ensures
        r matches Ok(idx) ==> idx.version == INDEX_VERSION && buf@ == tar_index_bytes(mviews(idx.members@))
            && index_model_ok(mviews(idx.members@)),
        r matches Err(e) ==> e is Archive && forall|ms: Seq<TarEntryModel>|
            index_model_ok(ms) ==> #[trigger] tar_index_bytes(ms) != buf@,
{
    let ghost s = buf@;
    if buf.len() < 20 {
        proof {
            assert forall|ms: Seq<TarEntryModel>| index_model_ok(ms) implies #[trigger] tar_index_bytes(ms) != buf@ by {
                lemma_le_len(1, 4);
                lemma_le_len(ms.len(), 8);
            }
        }
        return Err(Error::Archive(string_from("tar index truncated (header)")));
    }
    let head = bslice(buf, 0, 8);
    let magic = index_magic();
    if !crate::bytes::beq(&head, &magic) {
        proof {
            assert forall|ms: Seq<TarEntryModel>| index_model_ok(ms) implies #[trigger] tar_index_bytes(ms) != buf@ by {
                lemma_le_len(1, 4);
                lemma_le_len(ms.len(), 8);
                if tar_index_bytes(ms) == buf@ {
                    assert(tar_index_bytes(ms).subrange(0, 8) == tar_index_magic());
                }
            }
        }
        return Err(Error::Archive(string_from("tar index: bad magic (expected RATAIDX1)")));
    }
    let version = read_le(buf, 8, 4);
    if version != 1 {
        proof {
            assert forall|ms: Seq<TarEntryModel>| index_model_ok(ms) implies #[trigger] tar_index_bytes(ms) != buf@ by {
                lemma_le_len(1, 4);
                lemma_le_len(ms.len(), 8);
                if tar_index_bytes(ms) == buf@ {
                    assert(tar_index_bytes(ms).subrange(8, 12) == le_bytes(1, 4));
                    reveal_with_fuel(pow256, 5);
                    lemma_le_roundtrip(1, 4);
                }
            }
        }
        return Err(Error::Archive(string_from("tar index: unsupported version")));
    }
    let count = read_le(buf, 12, 8);
    proof {
        lemma_le_inverse(s.subrange(8, 12));
        lemma_le_inverse(s.subrange(12, 20));
        lemma_le_len(1, 4);
        lemma_le_len(count as nat, 8);
        assert(s.take(20) =~= s.subrange(0, 8) + s.subrange(8, 12) + s.subrange(12, 20));
        assert(s.take(20) == index_header(count as nat));
        assert forall|ms: Seq<TarEntryModel>| index_model_ok(ms) && #[trigger] tar_index_bytes(ms) == buf@ implies ms.len() == count by {
            lemma_le_len(ms.len(), 8);
            lemma_le_roundtrip(ms.len(), 8);
            assert(tar_index_bytes(ms).subrange(12, 20) == le_bytes(ms.len(), 8));
        }
        assert(entries_bytes(Seq::<TarEntryModel>::empty()) =~= Seq::<u8>::empty());
        assert(s.take(20) + Seq::<u8>::empty() == s.take(20));
        assert(pow256(8) > 0) by {
            reveal_with_fuel(pow256, 9);
        }
    }
    let mut pos: usize = 20;
    let mut members: Vec<TarMemberIndexEntry> = Vec::new();
    let mut i: u64 = 0;
    while i < count
        invariant
            s == buf@,
            20 <= pos <= buf.len(),
            members.len() == i,
            i <= count,
            s.take(pos as int) == index_header(count as nat) + entries_bytes(mviews(members@)),
            index_model_ok(mviews(members@)),
            forall|ms: Seq<TarEntryModel>| index_model_ok(ms) && #[trigger] tar_index_bytes(ms) == s ==>
                ms.len() == count && ms.take(i as int) == mviews(members@),
        decreases count - i,
    {
        match read_entry(buf, pos) {
            None => {
                proof {
                    assert forall|ms: Seq<TarEntryModel>| index_model_ok(ms) implies #[trigger] tar_index_bytes(ms) != buf@ by {
                        if tar_index_bytes(ms) == buf@ {
                            lemma_rest_encodes(s, ms, count as nat, i as int, pos as int, mviews(members@));
                            let rest = ms.skip(i as int);
                            assert(rest[0] == ms[i as int]);
                            assert(entries_bytes(rest) == entry_bytes(rest[0]) + entries_bytes(rest.skip(1)));
                            assert(entry_bytes(ms[i as int]).is_prefix_of(s.skip(pos as int)));
                        }
                    }
                }
                return Err(Error::Archive(string_from("tar index truncated at member")));
            },
            Some((m, p)) => {
                let ghost mv0 = mviews(members@);
                proof {
                    assert forall|ms: Seq<TarEntryModel>| index_model_ok(ms) && #[trigger] tar_index_bytes(ms) == s implies
                        ms.len() == count && ms.take(i + 1) == mv0.push(m@) by {
                        lemma_rest_encodes(s, ms, count as nat, i as int, pos as int, mv0);
                        let rest = ms.skip(i as int);
                        assert(rest[0] == ms[i as int]);
                        assert(entries_bytes(rest) == entry_bytes(rest[0]) + entries_bytes(rest.skip(1)));
                        assert(entry_bytes(ms[i as int]).is_prefix_of(s.skip(pos as int)));
                        assert(entry_bytes(m@).is_prefix_of(s.skip(pos as int))) by {
                            assert(s.skip(pos as int).subrange(0, p - pos) == s.subrange(pos as int, p as int));
                        }
                        assert(utf8(m@.name).len() < pow256(8)) by {
                            lemma_entry_len(m@);
                            reveal_with_fuel(pow256, 9);
                        }
                        lemma_entry_prefix_unique(ms[i as int], m@, s.skip(pos as int));
                        assert(ms.take(i + 1) =~= ms.take(i as int).push(ms[i as int]));
                    }
                    assert(s.take(p as int) =~= s.take(pos as int) + s.subrange(pos as int, p as int));
                    assert(entries_bytes(mv0.push(m@)) == entries_bytes(mv0) + entry_bytes(m@)) by {
                        let t = mv0.push(m@);
                        lemma_entries_push(t, mv0.len() as int);
                        assert(t.take(mv0.len() as int) == mv0);
                        assert(t.take(mv0.len() + 1 as int) == t);
                    }
                }
                members.push(m);
                proof {
                    assert(mviews(members@) =~= mv0.push(m@));
                    assert(utf8(m@.name).len() < pow256(8)) by {
                        lemma_entry_len(m@);
                        reveal_with_fuel(pow256, 9);
                    }
                    assert(i + 1 < pow256(8)) by {
                        reveal_with_fuel(pow256, 9);
                    }
                    assert forall|k: int| 0 <= k < mviews(members@).len() implies utf8((#[trigger] mviews(members@)[k]).name).len() < pow256(8) by {
                        if k < mv0.len() {
                            assert(mviews(members@)[k] == mv0[k]);
                        }
                    }
                }
                pos = p;
                i = i + 1;
            },
        }
    }
    if pos != buf.len() {
        proof {
            assert forall|ms: Seq<TarEntryModel>| index_model_ok(ms) implies #[trigger] tar_index_bytes(ms) != buf@ by {
                if tar_index_bytes(ms) == buf@ {
                    lemma_rest_encodes(s, ms, count as nat, i as int, pos as int, mviews(members@));
                    assert(ms.skip(i as int).len() == 0);
                    assert(entries_bytes(ms.skip(i as int)) =~= Seq::<u8>::empty());
                }
            }
        }
        return Err(Error::Archive(string_from("tar index has trailing bytes")));
    }
    proof {
        assert(s.take(pos as int) == s);
        assert(mviews(members@).len() == count);
    }
    Ok(TarMemberIndex { version: 1, members })
}

/// Two member lists with the same entry encodings are the same list.
proof fn lemma_entries_injective(a: Seq<TarEntryModel>, b: Seq<TarEntryModel>)
    requires
        index_model_ok(a),
        index_model_ok(b),
        a.len() == b.len(),
        entries_bytes(a) == entries_bytes(b),
    ensures
        a == b,
    decreases a.len(),
{
    if a.len() > 0 {
        let s = entries_bytes(a);
        assert(entry_bytes(a[0]).is_prefix_of(s));
        assert(entry_bytes(b[0]).is_prefix_of(s));
        lemma_entry_prefix_unique(a[0], b[0], s);
        let ra = a.skip(1);
        let rb = b.skip(1);
        assert(entries_bytes(ra) =~= s.skip(entry_bytes(a[0]).len() as int));
        assert(entries_bytes(rb) =~= s.skip(entry_bytes(b[0]).len() as int));
        assert forall|k: int| 0 <= k < ra.len() implies utf8((#[trigger] ra[k]).name).len() < pow256(8) by {
            assert(ra[k] == a[k + 1]);
        }
        assert forall|k: int| 0 <= k < rb.len() implies utf8((#[trigger] rb[k]).name).len() < pow256(8) by {
            assert(rb[k] == b[k + 1]);
        }
        lemma_entries_injective(ra, rb);
        assert(a =~= seq![a[0]] + ra);
        assert(b =~= seq![b[0]] + rb);
    }
}

/// Round trip of the member index: a list that fits the encoding is the only
/// list whose encoding equals its own, so [`parse_index`] on the bytes from
/// [`encode_index`] gives the same members back.
pub proof fn lemma_index_roundtrip(ms: Seq<TarEntryModel>, parsed: Seq<TarEntryModel>)
    requires
        index_model_ok(ms),
        index_model_ok(parsed),
        tar_index_bytes(parsed) == tar_index_bytes(ms),
    ensures
        parsed == ms,
{
    let s = tar_index_bytes(ms);
    lemma_le_len(1, 4);
    lemma_le_len(ms.len(), 8);
    lemma_le_len(parsed.len(), 8);
    lemma_le_roundtrip(ms.len(), 8);
    lemma_le_roundtrip(parsed.len(), 8);
    assert(tar_index_bytes(ms).subrange(12, 20) == le_bytes(ms.len(), 8));
    assert(tar_index_bytes(parsed).subrange(12, 20) == le_bytes(parsed.len(), 8));
    assert(entries_bytes(ms) =~= s.skip(20));
    assert(entries_bytes(parsed) =~= s.skip(20));
    lemma_entries_injective(parsed, ms);
}

/// Entry bytes of a list never extend, by further bytes, the entry bytes of
/// another list with as many members.
proof fn lemma_entries_no_extension(a: Seq<TarEntryModel>, b: Seq<TarEntryModel>, t: Seq<u8>)
    requires
        index_model_ok(a),
        index_model_ok(b),
        a.len() == b.len(),
        entries_bytes(b) == entries_bytes(a) + t,
    ensures
        t.len() == 0,
    decreases a.len(),
{
    if a.len() == 0 {
        assert(entries_bytes(a) =~= Seq::<u8>::empty());
        assert(entries_bytes(b) =~= Seq::<u8>::empty());
        assert((Seq::<u8>::empty() + t).len() == t.len());
    } else {
        let s = entries_bytes(b);
        assert(entry_bytes(b[0]).is_prefix_of(s));
        assert(entries_bytes(a) == entry_bytes(a[0]) + entries_bytes(a.skip(1)));
        assert(s =~= entry_bytes(a[0]) + (entries_bytes(a.skip(1)) + t));
        assert(entry_bytes(a[0]).is_prefix_of(s));
        lemma_entry_prefix_unique(a[0], b[0], s);
        let ra = a.skip(1);
        let rb = b.skip(1);
        assert(entries_bytes(rb) =~= s.skip(entry_bytes(b[0]).len() as int));
        assert(entries_bytes(rb) =~= entries_bytes(ra) + t);
        assert forall|k: int| 0 <= k < ra.len() implies utf8((#[trigger] ra[k]).name).len() < pow256(8) by {
            assert(ra[k] == a[k + 1]);
        }
        assert forall|k: int| 0 <= k < rb.len() implies utf8((#[trigger] rb[k]).name).len() < pow256(8) by {
            assert(rb[k] == b[k + 1]);
        }
        lemma_entries_no_extension(ra, rb, t);
    }
}

/// Law: bytes after a member list's encoding are never accepted: the
/// encoding followed by any further bytes is no list's encoding, so
/// [`parse_index`] rejects it.
pub proof fn lemma_index_trailing_rejected(ms: Seq<TarEntryModel>, extra: Seq<u8>, other: Seq<TarEntryModel>)
    requires
        index_model_ok(ms),
        index_model_ok(other),
        extra.len() > 0,
    ensures
        tar_index_bytes(other) != tar_index_bytes(ms) + extra,
{
    if tar_index_bytes(other) == tar_index_bytes(ms) + extra {
        let s = tar_index_bytes(ms) + extra;
        lemma_le_len(1, 4);
        lemma_le_len(ms.len(), 8);
        lemma_le_len(other.len(), 8);
        lemma_le_roundtrip(ms.len(), 8);
        lemma_le_roundtrip(other.len(), 8);
        assert(tar_index_bytes(ms).subrange(12, 20) == le_bytes(ms.len(), 8));
        assert(s.subrange(12, 20) == tar_index_bytes(ms).subrange(12, 20));
        assert(tar_index_bytes(other).subrange(12, 20) == le_bytes(other.len(), 8));
        assert(ms.len() == other.len());
        assert(entries_bytes(other) =~= s.skip(20));
        assert(s.skip(20) =~= entries_bytes(ms) + extra);
        lemma_entries_no_extension(ms, other, extra);
    }
}

impl TarMemberIndex {
    /// The first member named `name`.
    pub fn get(&self, name: &str) -> (r: Option<&TarMemberIndexEntry>)
        ensures
            match r {
                Some(m) => exists|k: int| 0 <= k < self.members@.len() && self.members@[k] == *m
                    && m.name@ == name@ && forall|j: int| 0 <= j < k ==> (#[trigger] self.members@[j]).name@ != name@,
                None => forall|j: int| 0 <= j < self.members@.len() ==> (#[trigger] self.members@[j]).name@ != name@,
            },
    {
        let nv = crate::text::chars_of(name);
        let mut i: usize = 0;
        while i < self.members.len()
            invariant
                i <= self.members.len(),
                nv@ == name@,
                forall|j: int| 0 <= j < i ==> (#[trigger] self.members@[j]).name@ != name@,
            decreases self.members.len() - i,
        {
            let mv = crate::text::chars_of(self.members[i].name.as_str());
            if crate::text::eq_chars(&mv, &nv) {
                return Some(&self.members[i]);
            }
            i = i + 1;
        }
        None
    }

    /// Member names, in index order.
    pub fn names(&self) -> (r: Vec<&str>)
        ensures
            r.len() == self.members@.len(),
            forall|k: int| 0 <= k < r.len() ==> (#[trigger] r@[k])@ == self.members@[k].name@,
    {
        let mut out: Vec<&str> = Vec::new();
        let mut i: usize = 0;
        while i < self.members.len()
            invariant
                i <= self.members.len(),
                out.len() == i,
                forall|k: int| 0 <= k < i ==> (#[trigger] out@[k])@ == self.members@[k].name@,
            decreases self.members.len() - i,
        {
            out.push(self.members[i].name.as_str());
            i = i + 1;
        }
        out
    }
}

/// ASCII octal digits of `n` (no leading zeros).
pub open spec fn octal_digits(n: nat) -> Seq<u8>
    decreases n,
{
    if n < 8 {
        seq![(48 + n) as u8]
    } else {
        octal_digits(n / 8).push((48 + n % 8) as u8)
    }
}

/// ASCII decimal digits of `n` (no leading zeros).
pub open spec fn dec_digits(n: nat) -> Seq<u8>
    decreases n,
{
    if n < 10 {
        seq![(48 + n) as u8]
    } else {
        dec_digits(n / 10).push((48 + n % 10) as u8)
    }
}

pub open spec fn repeat_byte(b: u8, n: nat) -> Seq<u8> {
    Seq::new(n, |i: int| b)
}

/// `s` left-padded with `'0'` to `w` characters.
pub open spec fn pad_zero(s: Seq<u8>, w: nat) -> Seq<u8> {
    if s.len() < w {
        repeat_byte(48, (w - s.len()) as nat) + s
    } else {
        s
    }
}

/// A classic tar numeric field: `val` in octal, zero-padded to `digits`,
/// NUL-terminated in `width` bytes (the lowest digits kept when it is longer).
pub open spec fn octal_field(val: nat, digits: nat, width: nat) -> Seq<u8> {
    let s = pad_zero(octal_digits(val), digits);
    if s.len() >= width {
        s.skip(s.len() + 1 - width) + seq![0u8]
    } else {
        s + repeat_byte(0, (width - s.len()) as nat)
    }
}

/// A text field: the bytes, cut at `width`, NUL-filled.
pub open spec fn str_field(b: Seq<u8>, width: nat) -> Seq<u8> {
    if b.len() >= width {
        b.take(width as int)
    } else {
        b + repeat_byte(0, (width - b.len()) as nat)
    }
}

/// Largest value of a 7-digit octal field.
pub open spec fn octal7_max() -> nat {
    2097151
}

pub open spec fn clamp7(v: u32) -> nat {
    if v <= octal7_max() {
        v as nat
    } else {
        octal7_max()
    }
}

/// `ustar\0` and version `00`.
pub open spec fn ustar_magic() -> Seq<u8> {
    seq![0x75u8, 0x73, 0x74, 0x61, 0x72, 0, 0x30, 0x30]
}

/// The 512 header bytes with the checksum field holding spaces.
pub open spec fn ustar_body(
    name: Seq<u8>,
    prefix: Seq<u8>,
    size: u64,
    mtime: u64,
    mode: u32,
    uid: u32,
    gid: u32,
    uname: Seq<u8>,
    gname: Seq<u8>,
    typeflag: u8,
    link: Seq<u8>,
) -> Seq<u8> {
    str_field(name, 100) + octal_field(mode as nat % 2097152, 7, 8) + octal_field(clamp7(uid), 7, 8)
        + octal_field(clamp7(gid), 7, 8) + octal_field(size as nat, 11, 12) + octal_field(
        mtime as nat,
        11,
        12,
    ) + repeat_byte(32, 8) + seq![typeflag] + str_field(link, 100) + ustar_magic() + str_field(
        uname,
        32,
    ) + str_field(gname, 32) + repeat_byte(0, 16) + str_field(prefix, 155) + repeat_byte(0, 12)
}

pub open spec fn byte_sum(s: Seq<u8>) -> nat
    decreases s.len(),
{
    if s.len() == 0 {
        0
    } else {
        byte_sum(s.drop_last()) + s.last() as nat
    }
}

/// A ustar header: the body with its checksum (six octal digits, NUL, space)
/// at bytes 148..156.
pub open spec fn ustar_spec(
    name: Seq<u8>,
    prefix: Seq<u8>,
    size: u64,
    mtime: u64,
    mode: u32,
    uid: u32,
    gid: u32,
    uname: Seq<u8>,
    gname: Seq<u8>,
    typeflag: u8,
    link: Seq<u8>,
) -> Seq<u8> {
    let body = ustar_body(name, prefix, size, mtime, mode, uid, gid, uname, gname, typeflag, link);
    body.take(148) + pad_zero(octal_digits(byte_sum(body)), 6) + seq![0u8, 32u8] + body.skip(156)
}

pub open spec fn pow8(k: nat) -> nat
    decreases k,
{
    if k == 0 {
        1
    } else {
        8 * pow8((k - 1) as nat)
    }
}

proof fn lemma_octal_len(n: nat, k: nat)
    ensures
        octal_digits(n).len() >= 1,
        n < pow8(k) && k >= 1 ==> octal_digits(n).len() <= k,
    decreases n,
{
    if n >= 8 {
        if k >= 2 && n < pow8(k) {
            assert(pow8(k) == 8 * pow8((k - 1) as nat));
            assert(n / 8 < pow8((k - 1) as nat)) by (nonlinear_arith)
                requires
                    n < 8 * pow8((k - 1) as nat),
            ;
        }
        lemma_octal_len(n / 8, (k - 1) as nat);
        if k == 1 {
            assert(pow8(1) == 8) by {
                reveal_with_fuel(pow8, 2);
            }
        }
    }
}

/// ASCII octal digits of `n`.
fn octal_ascii(n: u64) -> (v: Vec<u8>)
    ensures
        v@ == octal_digits(n as nat),
    decreases n,
{
    if n < 8 {
        vec![(48 + n) as u8]
    } else {
        let mut v = octal_ascii(n / 8);
        v.push((48 + n % 8) as u8);
        v
    }
}

/// ASCII decimal digits of `n`.
pub fn dec_ascii(n: u64) -> (v: Vec<u8>)
    ensures
        v@ == dec_digits(n as nat),
    decreases n,
{
    if n < 10 {
        vec![(48 + n) as u8]
    } else {
        let mut v = dec_ascii(n / 10);
        v.push((48 + n % 10) as u8);
        v
    }
}

fn push_bytes(buf: &mut Vec<u8>, b: &[u8])
    ensures
        final(buf)@ == old(buf)@ + b@,
{
    let mut k: usize = 0;
    let ghost b0 = buf@;
    while k < b.len()
        invariant
            k <= b.len(),
            buf@ == b0 + b@.take(k as int),
        decreases b.len() - k,
    {
        buf.push(b[k]);
        k = k + 1;
        assert(buf@ =~= b0 + b@.take(k as int));
    }
    assert(b@.take(b.len() as int) == b@);
}

fn push_repeat(buf: &mut Vec<u8>, x: u8, n: usize)
    ensures
        final(buf)@ == old(buf)@ + repeat_byte(x, n as nat),
{
    let mut k: usize = 0;
    let ghost b0 = buf@;
    while k < n
        invariant
            k <= n,
            buf@ == b0 + repeat_byte(x, k as nat),
        decreases n - k,
    {
        buf.push(x);
        k = k + 1;
        assert(buf@ =~= b0 + repeat_byte(x, k as nat));
    }
}

fn push_str_field(buf: &mut Vec<u8>, b: &[u8], width: usize)
    ensures
        final(buf)@ == old(buf)@ + str_field(b@, width as nat),
{
    if b.len() >= width {
        let t = bslice(b, 0, width);
        push_bytes(buf, &t);
    } else {
        push_bytes(buf, b);
        push_repeat(buf, 0, width - b.len());
    }
}

fn padded_octal(val: u64, digits: usize) -> (s: Vec<u8>)
    ensures
        s@ == pad_zero(octal_digits(val as nat), digits as nat),
{
    let o = octal_ascii(val);
    if o.len() < digits {
        let mut s: Vec<u8> = Vec::new();
        push_repeat(&mut s, 48, digits - o.len());
        push_bytes(&mut s, &o);
        assert(s@ =~= pad_zero(octal_digits(val as nat), digits as nat));
        s
    } else {
        o
    }
}

fn push_octal_field(buf: &mut Vec<u8>, val: u64, digits: usize, width: usize)
    requires
        width >= 1,
    ensures
        final(buf)@ == old(buf)@ + octal_field(val as nat, digits as nat, width as nat),
{
    let s = padded_octal(val, digits);
    if s.len() >= width {
        let t = bslice(&s, s.len() - (width - 1), s.len());
        assert(t@ == s@.skip(s.len() + 1 - width));
        push_bytes(buf, &t);
        buf.push(0);
        assert(buf@ =~= old(buf)@ + octal_field(val as nat, digits as nat, width as nat));
    } else {
        push_bytes(buf, &s);
        push_repeat(buf, 0, width - s.len());
    }
}

pub proof fn lemma_field_lens(val: nat, digits: nat, width: nat, b: Seq<u8>)
    requires
        width >= 1,
    ensures
        octal_field(val, digits, width).len() == width,
        str_field(b, width).len() == width,
{
    lemma_octal_len(val, 1);
}

/// Sum of the bytes of `v`.
fn sum_bytes(v: &[u8]) -> (s: u32)
    requires
        v.len() <= 512,
    ensures
        s == byte_sum(v@),
        s <= 255 * v.len(),
{
    let mut s: u32 = 0;
    let mut i: usize = 0;
    while i < v.len()
        invariant
            i <= v.len() <= 512,
            s == byte_sum(v@.take(i as int)),
            s <= 255 * i,
        decreases v.len() - i,
    {
        assert(v@.take(i + 1).drop_last() == v@.take(i as int));
        assert(v@.take(i + 1).last() == v@[i as int]);
        s = s + v[i] as u32;
        i = i + 1;
    }
    assert(v@.take(v.len() as int) == v@);
    s
}

/// One 512-byte ustar header over byte fields (uname / gname already cut to
/// 32 bytes by the caller when needed).
fn ustar_block(
    name: &[u8],
    prefix: &[u8],
    size: u64,
    mtime: u64,
    mode: u32,
    uid: u32,
    gid: u32,
    uname: &[u8],
    gname: &[u8],
    typeflag: u8,
    link: &[u8],
) -> (h: Vec<u8>)
    ensures
        h@ == ustar_spec(name@, prefix@, size, mtime, mode, uid, gid, uname@, gname@, typeflag, link@),
        h@.len() == 512,
{
    let mut b: Vec<u8> = Vec::new();
    push_str_field(&mut b, name, 100);
    push_octal_field(&mut b, (mode as u64) % 2097152, 7, 8);
    let uid_f: u64 = if uid <= 2097151 { uid as u64 } else { 2097151 };
    let gid_f: u64 = if gid <= 2097151 { gid as u64 } else { 2097151 };
    push_octal_field(&mut b, uid_f, 7, 8);
    push_octal_field(&mut b, gid_f, 7, 8);
    push_octal_field(&mut b, size, 11, 12);
    push_octal_field(&mut b, mtime, 11, 12);
    push_repeat(&mut b, 32, 8);
    b.push(typeflag);
    push_str_field(&mut b, link, 100);
    let magic = vec![0x75u8, 0x73, 0x74, 0x61, 0x72, 0, 0x30, 0x30];
    push_bytes(&mut b, &magic);
    push_str_field(&mut b, uname, 32);
    push_str_field(&mut b, gname, 32);
    push_repeat(&mut b, 0, 16);
    push_str_field(&mut b, prefix, 155);
    push_repeat(&mut b, 0, 12);
    let ghost body = ustar_body(name@, prefix@, size, mtime, mode, uid, gid, uname@, gname@, typeflag, link@);
    proof {
        assert(magic@ =~= ustar_magic());
        assert(b@ =~= body);
        lemma_field_lens(mode as nat % 2097152, 7, 8, name@);
        lemma_field_lens(clamp7(uid), 7, 8, link@);
        lemma_field_lens(clamp7(gid), 7, 8, uname@);
        lemma_field_lens(size as nat, 11, 12, gname@);
        lemma_field_lens(mtime as nat, 11, 12, prefix@);
        assert(b@.len() == 512);
    }
    let sum = sum_bytes(&b);
    proof {
        assert(byte_sum(b@) <= 255 * 512);
        assert(pow8(6) == 262144) by {
            reveal_with_fuel(pow8, 7);
        }
        lemma_octal_len(sum as nat, 6);
    }
    let ck = padded_octal(sum as u64, 6);
    let mut h = bslice(&b, 0, 148);
    push_bytes(&mut h, &ck);
    h.push(0);
    h.push(32);
    let tail = bslice(&b, 156, 512);
    push_bytes(&mut h, &tail);
    proof {
        assert(ck@.len() == 6);
        assert(b@.skip(156) == b@.subrange(156, 512));
        assert(h@ =~= body.take(148) + pad_zero(octal_digits(byte_sum(body)), 6) + seq![0u8, 32u8] + body.skip(156));
    }
    h
}

/// Metadata written into each tar member header.
///
/// `uname` / `gname` go into the 32-byte ustar fields; longer names are also
/// stored in a pax record. Directory members have `is_dir` (typeflag `5`, size
/// 0). Links have `link_target` and size 0: a symlink (typeflag `2`) or, with
/// `is_hard_link`, a hard link (typeflag `1`).
#[derive(Debug, Clone, PartialEq, Eq)]
pub struct TarMemberMeta {
    pub size: u64,
    pub mtime: u64,
    pub mode: u32,
    pub uid: u32,
    pub gid: u32,
    pub uname: String,
    pub gname: String,
    /// When true, emit typeflag `5` (directory); size must be 0.
    pub is_dir: bool,
    /// When `Some`, emit typeflag `1` (hard) or `2` (symlink) per `is_hard_link`.
    pub link_target: Option<String>,
    /// When true with `link_target`, emit the hard-link typeflag `1`.
    pub is_hard_link: bool,
}

pub struct MetaModel {
    pub size: u64,
    pub mtime: u64,
    pub mode: u32,
    pub uid: u32,
    pub gid: u32,
    pub uname: Seq<char>,
    pub gname: Seq<char>,
    pub is_dir: bool,
    pub link: Option<Seq<char>>,
    pub hard: bool,
}

impl View for TarMemberMeta {
    type V = MetaModel;

    open spec fn view(&self) -> MetaModel {
        MetaModel {
            size: self.size,
            mtime: self.mtime,
            mode: self.mode,
            uid: self.uid,
            gid: self.gid,
            uname: self.uname@,
            gname: self.gname@,
            is_dir: self.is_dir,
            link: match self.link_target {
                Some(t) => Some(t@),
                None => None,
            },
            hard: self.is_hard_link,
        }
    }
}

/// `'5'` directory, `'1'` hard link, `'2'` symlink, `'0'` file.
pub open spec fn typeflag_spec(m: MetaModel) -> u8 {
    if m.is_dir {
        53
    } else if m.link is Some {
        if m.hard {
            49
        } else {
            50
        }
    } else {
        48
    }
}

fn typeflag_for(meta: &TarMemberMeta) -> (t: u8)
    ensures
        t == typeflag_spec(meta@),
{
    if meta.is_dir {
        53
    } else if meta.link_target.is_some() {
        if meta.is_hard_link {
            49
        } else {
            50
        }
    } else {
        48
    }
}

/// Characters of `s` that fit in `max` bytes.
pub open spec fn cut(s: Seq<char>, max: nat) -> Seq<char> {
    s.take(fit_count(s, max) as int)
}

/// The ustar linkname field: the target cut to 100 bytes.
pub open spec fn link_field(m: MetaModel) -> Seq<u8> {
    match m.link {
        Some(t) => utf8(cut(t, 100)),
        None => Seq::empty(),
    }
}

/// The member header for byte name / prefix fields.
pub open spec fn meta_header(name: Seq<u8>, prefix: Seq<u8>, m: MetaModel) -> Seq<u8> {
    ustar_spec(
        name,
        prefix,
        m.size,
        m.mtime,
        m.mode,
        m.uid,
        m.gid,
        utf8(cut(m.uname, 32)),
        utf8(cut(m.gname, 32)),
        typeflag_spec(m),
        link_field(m),
    )
}

/// UTF-8 bytes of a character vector.
fn utf8_bytes(v: &[char]) -> (b: Vec<u8>)
    ensures
        b@ == utf8(v@),
{
    let s = string_of(v);
    let b = s.as_str().as_bytes();
    let mut out: Vec<u8> = Vec::new();
    push_bytes(&mut out, b);
    out
}

/// Cut a text to at most `max` UTF-8 bytes on a character boundary; its bytes.
fn cut_bytes(s: &str, max: usize) -> (b: Vec<u8>)
    ensures
        b@ == utf8(cut(s@, max as nat)),
{
    let v = chars_of(s);
    let t = truncate_to_bytes(&v, max);
    utf8_bytes(&t)
}

/// Build one 512-byte ustar header. Name, prefix and linkname must fit their
/// fields (100, 155, 100 bytes); uname / gname are cut to 32 bytes.
pub fn ustar_header_raw(
    name: &str,
    prefix: &str,
    size: u64,
    mtime: u64,
    mode: u32,
    uid: u32,
    gid: u32,
    uname: &str,
    gname: &str,
    typeflag: u8,
    linkname: &str,
) -> (r: Result<Vec<u8>>)
    ensures
        utf8(name@).len() > 100 || utf8(prefix@).len() > 155 || utf8(linkname@).len() > 100
            ==> (r matches Err(e) && e is Archive),
        !(utf8(name@).len() > 100 || utf8(prefix@).len() > 155 || utf8(linkname@).len() > 100)
            ==> (r matches Ok(h) && h@ == ustar_spec(
            utf8(name@),
            utf8(prefix@),
            size,
            mtime,
            mode,
            uid,
            gid,
            utf8(cut(uname@, 32)),
            utf8(cut(gname@, 32)),
            typeflag,
            utf8(linkname@),
        )),
{
    let nb = name.as_bytes();
    let pb = prefix.as_bytes();
    let lb = linkname.as_bytes();
    if nb.len() > 100 || pb.len() > 155 {
        return Err(Error::Archive(string_from("ustar name/prefix too long")));
    }
    if lb.len() > 100 {
        return Err(Error::Archive(string_from("ustar linkname too long")));
    }
    let ub = cut_bytes(uname, 32);
    let gb = cut_bytes(gname, 32);
    Ok(ustar_block(nb, pb, size, mtime, mode, uid, gid, &ub, &gb, typeflag, lb))
}

/// Index of the `/` at which a long path splits into ustar prefix and name,
/// searching down from `i`.
pub open spec fn split_point(b: Seq<u8>, i: int) -> Option<int>
    decreases i,
{
    if i < 1 {
        None
    } else if b[i] == 47 && b.len() - i - 1 >= 1 && b.len() - i - 1 <= 100 && i <= 155 {
        Some(i)
    } else {
        split_point(b, i - 1)
    }
}

/// The ustar header for path bytes `b`, when the path fits name + prefix.
pub open spec fn try_ustar_spec(b: Seq<u8>, m: MetaModel) -> Option<Seq<u8>> {
    if b.len() <= 100 {
        Some(meta_header(b, Seq::empty(), m))
    } else if b.len() > 256 {
        None
    } else {
        match split_point(b, (if b.len() < 156 { b.len() } else { 156 }) - 1) {
            Some(i) => Some(meta_header(b.skip(i + 1), b.take(i), m)),
            None => None,
        }
    }
}

fn meta_block(name: &[u8], prefix: &[u8], meta: &TarMemberMeta) -> (h: Vec<u8>)
    ensures
        h@ == meta_header(name@, prefix@, meta@),
{
    let ub = cut_bytes(meta.uname.as_str(), 32);
    let gb = cut_bytes(meta.gname.as_str(), 32);
    let lb: Vec<u8> = match &meta.link_target {
        Some(t) => cut_bytes(t.as_str(), 100),
        None => Vec::new(),
    };
    let tf = typeflag_for(meta);
    ustar_block(name, prefix, meta.size, meta.mtime, meta.mode, meta.uid, meta.gid, &ub, &gb, tf, &lb)
}

fn try_ustar_bytes(b: &[u8], meta: &TarMemberMeta) -> (r: Option<Vec<u8>>)
    ensures
        match try_ustar_spec(b@, meta@) {
            Some(h) => r matches Some(x) && x@ == h,
            None => r is None,
        },
{
    if b.len() <= 100 {
        let e: Vec<u8> = Vec::new();
        return Some(meta_block(b, &e, meta));
    }
    if b.len() > 256 {
        return None;
    }
    let top: usize = if b.len() < 156 { b.len() } else { 156 };
    let mut i: usize = top - 1;
    while i >= 1
        invariant
            i < top <= b.len(),
            100 < b.len() <= 256,
            top == (if b.len() < 156 { b.len() } else { 156 }),
            split_point(b@, (top - 1) as int) == split_point(b@, i as int),
        decreases i,
    {
        let nlen = b.len() - i - 1;
        if b[i] == 47 && nlen >= 1 && nlen <= 100 && i <= 155 {
            let prefix = bslice(b, 0, i);
            let name = bslice(b, i + 1, b.len());
            assert(name@ == b@.skip(i + 1));
            assert(prefix@ == b@.take(i as int));
            assert(split_point(b@, i as int) == Some(i as int));
            return Some(meta_block(&name, &prefix, meta));
        }
        i = i - 1;
    }
    None
}

/// Try to fit `path` into the ustar name (100) + prefix (155) fields.
pub fn try_ustar_header(path: &str, meta: &TarMemberMeta) -> (r: Result<Option<Vec<u8>>>)
    ensures
        r matches Ok(o) && match try_ustar_spec(utf8(path@), meta@) {
            Some(h) => o matches Some(x) && x@ == h,
            None => o is None,
        },
{
    Ok(try_ustar_bytes(path.as_bytes(), meta))
}

pub open spec fn ndig(n: nat) -> nat {
    dec_digits(n).len()
}

proof fn lemma_ndig_mono(a: nat, b: nat)
    requires
        a <= b,
    ensures
        1 <= ndig(a) <= ndig(b),
        a >= 10 ==> ndig(a) >= 2,
    decreases b,
{
    if b >= 10 {
        if a >= 10 {
            lemma_ndig_mono(a / 10, b / 10);
        } else {
            lemma_ndig_mono(b / 10, b / 10);
        }
    }
}

/// Total length of a pax record whose `" key=value\n"` part has `body`
/// bytes: the fixed point of `digits(len) + body`, or `None` past 8192 bytes.
pub open spec fn pax_len(body: nat, l: nat) -> Option<nat>
    decreases 8193 - l,
{
    let r = ndig(l) + body;
    if r == l {
        Some(l)
    } else if r > 8192 {
        None
    } else if r > l {
        pax_len(body, r)
    } else {
        None
    }
}

/// A pax record `"LEN key=value\n"`, where `LEN` counts the whole record.
pub open spec fn pax_record_spec(key: Seq<u8>, value: Seq<u8>) -> Option<Seq<u8>> {
    let body = key.len() + value.len() + 3;
    match pax_len(body, body + 1) {
        Some(l) => Some(dec_digits(l) + seq![32u8] + key + seq![61u8] + value + seq![10u8]),
        None => None,
    }
}

fn pax_record(key: &[u8], value: &[u8]) -> (r: Option<Vec<u8>>)
    requires
        key.len() <= 16,
    ensures
        match pax_record_spec(key@, value@) {
            Some(x) => r matches Some(v) && v@ == x,
            None => r is None,
        },
{
    if value.len() > 8192 {
        proof {
            let body = key@.len() + value@.len() + 3;
            lemma_ndig_mono(body + 1, body + 1);
        }
        return None;
    }
    let body: usize = key.len() + value.len() + 3;
    let mut l: usize = body + 1;
    proof {
        lemma_ndig_mono(l as nat, l as nat);
    }
    loop
        invariant
            body == key.len() + value.len() + 3,
            body <= 8211,
            body < l,
            l <= ndig(l as nat) + body,
            l <= 8193 + body,
            pax_len(body as nat, (body + 1) as nat) == pax_len(body as nat, l as nat),
        decreases 8193 + body - l,
    {
        let d = dec_ascii(l as u64);
        proof {
            lemma_ndig_mono(l as nat, 99999);
            assert(ndig(99999) == 5) by {
                reveal_with_fuel(dec_digits, 6);
            }
        }
        let r = d.len() + body;
        if r == l {
            let mut v = d;
            v.push(32);
            push_bytes(&mut v, key);
            v.push(61);
            push_bytes(&mut v, value);
            v.push(10);
            return Some(v);
        }
        if r > 8192 {
            return None;
        }
        proof {
            lemma_ndig_mono(l as nat, r as nat);
        }
        l = r;
    }
}

/// The records for the present `(key, value)` fields, concatenated.
pub open spec fn pax_recs(fields: Seq<(Seq<u8>, Seq<u8>)>) -> Option<Seq<u8>>
    decreases fields.len(),
{
    if fields.len() == 0 {
        Some(Seq::empty())
    } else {
        match (pax_recs(fields.drop_last()), pax_record_spec(fields.last().0, fields.last().1)) {
            (Some(a), Some(b)) => Some(a + b),
            _ => None,
        }
    }
}

/// A pax extended header (typeflag `x`) carrying `recs`, padded to 512 bytes.
pub open spec fn pax_block_spec(recs: Seq<u8>) -> Seq<u8> {
    ustar_spec(
        seq![0x50u8, 0x61, 0x78, 0x48, 0x65, 0x61, 0x64, 0x65, 0x72],
        Seq::empty(),
        recs.len() as u64,
        0,
        420,
        0,
        0,
        Seq::empty(),
        Seq::empty(),
        120,
        Seq::empty(),
    ) + recs + repeat_byte(0, ((512 - recs.len() % 512) % 512) as nat)
}

/// Header path text: leading `/` removed; directories end with `/`, files do not.
pub open spec fn member_path_spec(path: Seq<char>, is_dir: bool) -> Option<Seq<char>> {
    let p = strip_leading(path, '/');
    if p.len() == 0 || p.contains('\0') {
        None
    } else if is_dir {
        if p.last() == '/' {
            Some(p)
        } else {
            Some(p.push('/'))
        }
    } else {
        Some(strip_trailing(p, '/'))
    }
}

fn normalize_member_path(path: &str, is_dir: bool) -> (r: Option<Vec<char>>)
    ensures
        match member_path_spec(path@, is_dir) {
            Some(p) => r matches Some(v) && v@ == p,
            None => r is None,
        },
{
    let v = chars_of(path);
    let p = strip_leading_chars(&v, '/');
    if p.len() == 0 || contains_char(&p, '\0') {
        return None;
    }
    if is_dir {
        if p[p.len() - 1] == '/' {
            Some(p)
        } else {
            let mut q = p;
            q.push('/');
            Some(q)
        }
    } else {
        Some(strip_trailing_chars(&p, '/'))
    }
}

/// The pax fields a member needs, in record order.
pub open spec fn pax_fields(np: Seq<u8>, m: MetaModel, path_pax: bool) -> Seq<(Seq<u8>, Seq<u8>)> {
    let f0 = if path_pax { seq![(seq![0x70u8, 0x61, 0x74, 0x68], np)] } else { Seq::empty() };
    let f1 = match m.link {
        Some(t) => if utf8(t).len() > 100 {
            f0.push((seq![0x6cu8, 0x69, 0x6e, 0x6b, 0x70, 0x61, 0x74, 0x68], utf8(t)))
        } else {
            f0
        },
        None => f0,
    };
    let f2 = if m.uid > octal7_max() { f1.push((seq![0x75u8, 0x69, 0x64], dec_digits(m.uid as nat))) } else { f1 };
    let f3 = if m.gid > octal7_max() { f2.push((seq![0x67u8, 0x69, 0x64], dec_digits(m.gid as nat))) } else { f2 };
    let f4 = if utf8(m.uname).len() > 32 {
        f3.push((seq![0x75u8, 0x6e, 0x61, 0x6d, 0x65], utf8(m.uname)))
    } else {
        f3
    };
    if utf8(m.gname).len() > 32 {
        f4.push((seq![0x67u8, 0x6e, 0x61, 0x6d, 0x65], utf8(m.gname)))
    } else {
        f4
    }
}

/// Metadata a header can carry: no directory link, no hard link without a
/// target, size 0 for directories and links, a non-empty target without NUL.
pub open spec fn meta_valid(m: MetaModel) -> bool {
    &&& !(m.is_dir && m.link is Some)
    &&& !(m.hard && m.link is None)
    &&& !(m.is_dir && m.size != 0)
    &&& !(m.link is Some && m.size != 0)
    &&& m.link matches Some(t) ==> t.len() > 0 && !t.contains('\0')
}

/// The headers for a member: an optional pax block, then the ustar header
/// (with the path cut to its last 100 bytes when it needs pax).
pub open spec fn tar_headers_spec(path: Seq<char>, m: MetaModel) -> Option<Seq<u8>> {
    if !meta_valid(m) {
        None
    } else {
        match member_path_spec(path, m.is_dir) {
            None => None,
            Some(p) => {
                let np = utf8(p);
                let path_pax = try_ustar_spec(np, m) is None;
                let fields = pax_fields(np, m, path_pax);
                let pax = if fields.len() > 0 {
                    match pax_recs(fields) {
                        Some(r) => Some(pax_block_spec(r)),
                        None => None,
                    }
                } else {
                    Some(Seq::empty())
                };
                match pax {
                    None => None,
                    Some(px) => if path_pax {
                        Some(px + meta_header(utf8(fit_suffix(p, 100)), Seq::empty(), m))
                    } else {
                        Some(px + try_ustar_spec(np, m)->0)
                    },
                }
            },
        }
    }
}

pub open spec fn pair_views(v: Seq<(Vec<u8>, Vec<u8>)>) -> Seq<(Seq<u8>, Seq<u8>)> {
    v.map_values(|p: (Vec<u8>, Vec<u8>)| (p.0@, p.1@))
}

fn push_field(fields: &mut Vec<(Vec<u8>, Vec<u8>)>, key: Vec<u8>, value: Vec<u8>)
    ensures
        pair_views(final(fields)@) == pair_views(old(fields)@).push((key@, value@)),
{
    let ghost f0 = fields@;
    fields.push((key, value));
    assert(pair_views(fields@) =~= pair_views(f0).push((key@, value@)));
}

fn pax_fields_exec(np: &[u8], meta: &TarMemberMeta, path_pax: bool) -> (f: Vec<(Vec<u8>, Vec<u8>)>)
    ensures
        pair_views(f@) == pax_fields(np@, meta@, path_pax),
{
    let mut f: Vec<(Vec<u8>, Vec<u8>)> = Vec::new();
    assert(pair_views(f@) =~= Seq::<(Seq<u8>, Seq<u8>)>::empty());
    if path_pax {
        let mut v: Vec<u8> = Vec::new();
        push_bytes(&mut v, np);
        push_field(&mut f, vec![0x70u8, 0x61, 0x74, 0x68], v);
    }
    match &meta.link_target {
        Some(t) => {
            let tb = t.as_str().as_bytes();
            if tb.len() > 100 {
                let mut v: Vec<u8> = Vec::new();
                push_bytes(&mut v, tb);
                push_field(&mut f, vec![0x6cu8, 0x69, 0x6e, 0x6b, 0x70, 0x61, 0x74, 0x68], v);
            }
        },
        None => {},
    }
    if meta.uid > 2097151 {
        push_field(&mut f, vec![0x75u8, 0x69, 0x64], dec_ascii(meta.uid as u64));
    }
    if meta.gid > 2097151 {
        push_field(&mut f, vec![0x67u8, 0x69, 0x64], dec_ascii(meta.gid as u64));
    }
    let ub = meta.uname.as_str().as_bytes();
    if ub.len() > 32 {
        let mut v: Vec<u8> = Vec::new();
        push_bytes(&mut v, ub);
        push_field(&mut f, vec![0x75u8, 0x6e, 0x61, 0x6d, 0x65], v);
    }
    let gb = meta.gname.as_str().as_bytes();
    if gb.len() > 32 {
        let mut v: Vec<u8> = Vec::new();
        push_bytes(&mut v, gb);
        push_field(&mut f, vec![0x67u8, 0x6e, 0x61, 0x6d, 0x65], v);
    }
    proof {
        let f0: Seq<(Seq<u8>, Seq<u8>)> = Seq::empty();
        assert(seq![0x70u8, 0x61, 0x74, 0x68] =~= seq![0x70u8, 0x61, 0x74, 0x68]);
    }
    f
}

fn pax_concat(fields: &Vec<(Vec<u8>, Vec<u8>)>) -> (r: Option<Vec<u8>>)
    requires
        forall|k: int| 0 <= k < fields.len() ==> (#[trigger] fields@[k]).0.len() <= 16,
    ensures
        match pax_recs(pair_views(fields@)) {
            Some(x) => r matches Some(v) && v@ == x,
            None => r is None,
        },
{
    let ghost fv = pair_views(fields@);
    let mut out: Vec<u8> = Vec::new();
    let mut k: usize = 0;
    while k < fields.len()
        invariant
            k <= fields.len(),
            fv == pair_views(fields@),
            forall|j: int| 0 <= j < fields.len() ==> (#[trigger] fields@[j]).0.len() <= 16,
            pax_recs(fv.take(k as int)) == Some(out@),
        decreases fields.len() - k,
    {
        assert(fv.take(k + 1).drop_last() == fv.take(k as int));
        assert(fv.take(k + 1).last() == fv[k as int]);
        assert(fv[k as int] == (fields@[k as int].0@, fields@[k as int].1@));
        match pax_record(&fields[k].0, &fields[k].1) {
            Some(rec) => {
                push_bytes(&mut out, &rec);
            },
            None => {
                proof {
                    assert(pax_record_spec(fv[k as int].0, fv[k as int].1) is None);
                    assert(pax_recs(fv.take(k + 1)) is None);
                    lemma_pax_recs_none(fv, k + 1, fields.len() as int);
                    assert(fv.take(fields.len() as int) == fv);
                }
                return None;
            },
        }
        k = k + 1;
    }
    assert(fv.take(fields.len() as int) == fv);
    Some(out)
}

proof fn lemma_pax_recs_none(f: Seq<(Seq<u8>, Seq<u8>)>, k: int, n: int)
    requires
        0 <= k <= n <= f.len(),
        pax_recs(f.take(k)) is None,
    ensures
        pax_recs(f.take(n)) is None,
    decreases n - k,
{
    if k < n {
        assert(f.take(k + 1).drop_last() == f.take(k));
        lemma_pax_recs_none(f, k + 1, n);
    }
}

fn pax_block(recs: &[u8]) -> (b: Vec<u8>)
    requires
        recs.len() <= u64::MAX,
    ensures
        b@ == pax_block_spec(recs@),
{
    let name = vec![0x50u8, 0x61, 0x78, 0x48, 0x65, 0x61, 0x64, 0x65, 0x72];
    let e: Vec<u8> = Vec::new();
    let mut out = ustar_block(&name, &e, recs.len() as u64, 0, 420, 0, 0, &e, &e, 120, &e);
    push_bytes(&mut out, recs);
    let pad = (512 - recs.len() % 512) % 512;
    push_repeat(&mut out, 0, pad);
    proof {
        assert(name@ =~= seq![0x50u8, 0x61, 0x78, 0x48, 0x65, 0x61, 0x64, 0x65, 0x72]);
    }
    out
}

/// The last characters of `v` whose UTF-8 encoding fits in `max` bytes.
fn fit_suffix_chars(v: &[char], max: usize) -> (r: Vec<char>)
    ensures
        r@ == fit_suffix(v@, max as nat),
{
    let b = utf8_bytes(v);
    let mut total: usize = b.len();
    let mut i: usize = 0;
    assert(v@.skip(0) == v@);
    while i < v.len() && total > max
        invariant
            i <= v.len(),
            total == utf8(v@.skip(i as int)).len(),
            fit_suffix(v@, max as nat) == fit_suffix(v@.skip(i as int), max as nat),
        decreases v.len() - i,
    {
        proof {
            lemma_utf8_first(v@.skip(i as int));
            assert(v@.skip(i as int)[0] == v@[i as int]);
            assert(v@.skip(i as int).drop_first() == v@.skip(i + 1));
        }
        total = total - crate::text::char_width(v[i]);
        i = i + 1;
    }
    crate::text::slice_of(v, i, v.len())
}

/// The last 100 bytes of a long path, starting at a character boundary.
pub fn truncate_ustar_name(path: &str) -> (r: String)
    ensures
        r@ == fit_suffix(path@, 100),
{
    let v = chars_of(path);
    let t = fit_suffix_chars(&v, 100);
    string_of(&t)
}

/// Build the ustar (and, when needed, pax) headers for a file, directory,
/// symlink or hard-link member.
#[verifier::rlimit(80)]
#[verifier::spinoff_prover]
pub fn build_tar_headers(path: &str, meta: &TarMemberMeta) -> (r: Result<Vec<u8>>)
    ensures
        match tar_headers_spec(path@, meta@) {
            Some(h) => r matches Ok(v) && v@ == h,
            None => r matches Err(e) && e is Archive,
        },
{
    if meta.is_dir && meta.link_target.is_some() {
        return Err(Error::Archive(string_from("tar member cannot be both directory and link")));
    }
    if meta.is_hard_link && meta.link_target.is_none() {
        return Err(Error::Archive(string_from("hard-link tar member requires link_target")));
    }
    if meta.is_dir && meta.size != 0 {
        return Err(Error::Archive(string_from("directory tar member must have size 0")));
    }
    if meta.link_target.is_some() && meta.size != 0 {
        return Err(Error::Archive(string_from("link tar member must have size 0")));
    }
    match &meta.link_target {
        Some(t) => {
            let tv = chars_of(t.as_str());
            if tv.len() == 0 {
                return Err(Error::Archive(string_from("link tar member has empty target")));
            }
            if contains_char(&tv, '\0') {
                return Err(Error::Archive(string_from("link target contains NUL")));
            }
        },
        None => {},
    }
    let p = match normalize_member_path(path, meta.is_dir) {
        Some(p) => p,
        None => {
            return Err(Error::Archive(string_from("invalid tar member name")));
        },
    };
    let np = utf8_bytes(&p);
    let ust = try_ustar_bytes(&np, meta);
    let path_pax = ust.is_none();
    let fields = pax_fields_exec(&np, meta, path_pax);
    let mut out: Vec<u8> = Vec::new();
    if fields.len() > 0 {
        proof {
            assert forall|k: int| 0 <= k < fields.len() implies (#[trigger] fields@[k]).0.len() <= 16 by {
                assert(pair_views(fields@)[k] == (fields@[k].0@, fields@[k].1@));
            }
        }
        let recs = match pax_concat(&fields) {
            Some(x) => x,
            None => {
                return Err(Error::Archive(string_from("pax record too large")));
            },
        };
        out = pax_block(&recs);
    }
    match ust {
        Some(h) => {
            push_bytes(&mut out, &h);
        },
        None => {
            let short = fit_suffix_chars(&p, 100);
            let sb = utf8_bytes(&short);
            let e: Vec<u8> = Vec::new();
            let h = meta_block(&sb, &e, meta);
            push_bytes(&mut out, &h);
        },
    }
    Ok(out)
}

/// Headers for a regular file with mode only (owner ids and names empty).
pub fn build_tar_headers_fixed(path: &str, size: u64, mtime: u64, mode: u32) -> (r: Result<Vec<u8>>)
    ensures
        ({
            let m = MetaModel {
                size,
                mtime,
                mode,
                uid: 0,
                gid: 0,
                uname: Seq::empty(),
                gname: Seq::empty(),
                is_dir: false,
                link: None,
                hard: false,
            };
            match tar_headers_spec(path@, m) {
                Some(h) => r matches Ok(v) && v@ == h,
                None => r matches Err(e) && e is Archive,
            }
        }),
{
    let meta = TarMemberMeta {
        size,
        mtime,
        mode,
        uid: 0,
        gid: 0,
        uname: String::new(),
        gname: String::new(),
        is_dir: false,
        link_target: None,
        is_hard_link: false,
    };
    proof {
        assert(meta@.uname =~= Seq::<char>::empty());
        assert(meta@.gname =~= Seq::<char>::empty());
    }
    build_tar_headers(path, &meta)
}

/// Directory metadata used when the real directory cannot be read.
pub fn default_dir_meta() -> (m: TarMemberMeta)
    ensures
        m@.is_dir && m@.size == 0 && m@.mtime == 0 && m@.mode == DEFAULT_DIR_MODE && m@.uid == 0
            && m@.gid == 0 && m@.uname.len() == 0 && m@.gname.len() == 0 && m@.link is None
            && !m@.hard,
{
    TarMemberMeta {
        size: 0,
        mtime: 0,
        mode: DEFAULT_DIR_MODE,
        uid: 0,
        gid: 0,
        uname: String::new(),
        gname: String::new(),
        is_dir: true,
        link_target: None,
        is_hard_link: false,
    }
}

/// Non-empty `/`-pieces of a name without leading and trailing `/`.
pub open spec fn name_parts(name: Seq<char>) -> Seq<Seq<char>> {
    nonempty(split(strip_trailing(strip_leading(name, '/'), '/'), '/'))
}

/// Parent directory prefixes of an archive path, root first, each ending with `/`.
pub open spec fn parent_dirs_spec(name: Seq<char>) -> Seq<Seq<char>> {
    let parts = name_parts(name);
    if parts.len() <= 1 {
        Seq::empty()
    } else {
        Seq::new((parts.len() - 1) as nat, |k: int| join(parts.take(k + 1), seq!['/']).push('/'))
    }
}

/// Parent directory prefixes of an archive file path, root first, each ending
/// with `/`: `"a/b/c.txt"` gives `["a/", "a/b/"]`; a top-level file gives none.
pub fn parent_dir_names(archive_name: &str) -> (r: Vec<String>)
    ensures
        r@.len() == parent_dirs_spec(archive_name@).len(),
        forall|k: int| 0 <= k < r@.len() ==> (#[trigger] r@[k])@ == parent_dirs_spec(archive_name@)[k],
{
    let v = chars_of(archive_name);
    let a = strip_leading_chars(&v, '/');
    let b = strip_trailing_chars(&a, '/');
    let pieces = split_chars(&b, '/');
    let mut parts: Vec<Vec<char>> = Vec::new();
    let mut k: usize = 0;
    while k < pieces.len()
        invariant
            k <= pieces.len(),
            views(pieces@) == split(b@, '/'),
            views(parts@) == nonempty(views(pieces@).take(k as int)),
        decreases pieces.len() - k,
    {
        assert(views(pieces@).take(k + 1).drop_last() == views(pieces@).take(k as int));
        assert(views(pieces@).take(k + 1).last() == pieces@[k as int]@);
        if pieces[k].len() > 0 {
            let ghost pv = parts@;
            parts.push(crate::select::pathnorm::clone_chars(&pieces[k]));
            assert(views(parts@) =~= views(pv).push(pieces@[k as int]@));
        }
        k = k + 1;
    }
    assert(views(pieces@).take(pieces.len() as int) == views(pieces@));
    let ghost ps = views(parts@);
    assert(ps == name_parts(archive_name@));
    let mut out: Vec<String> = Vec::new();
    if parts.len() <= 1 {
        return out;
    }
    let mut acc: Vec<char> = Vec::new();
    let mut j: usize = 0;
    while j + 1 < parts.len()
        invariant
            j + 1 <= parts.len(),
            ps == views(parts@),
            ps.len() >= 2,
            out@.len() == j,
            j > 0 ==> acc@ == join(ps.take(j as int), seq!['/']),
            j == 0 ==> acc@.len() == 0,
            forall|q: int| 0 <= q < j ==> (#[trigger] out@[q])@ == join(ps.take(q + 1), seq!['/']).push('/'),
        decreases parts.len() - j,
    {
        let ghost a0 = acc@;
        if j > 0 {
            acc.push('/');
        }
        let p = &parts[j];
        let mut i: usize = 0;
        let ghost mid = acc@;
        while i < p.len()
            invariant
                i <= p.len(),
                acc@ == mid + p@.take(i as int),
            decreases p.len() - i,
        {
            acc.push(p[i]);
            i = i + 1;
            assert(acc@ =~= mid + p@.take(i as int));
        }
        proof {
            assert(p@.take(p.len() as int) == p@);
            assert(ps[j as int] == p@);
            let t = ps.take(j + 1);
            assert(t.drop_last() == ps.take(j as int));
            assert(t.last() == p@);
            if j == 0 {
                assert(t.len() == 1);
                assert(join(t, seq!['/']) == t[0]);
                assert(mid == a0);
                assert(a0.len() == 0);
                assert(acc@ =~= p@);
            } else {
                assert(t.len() >= 2);
                assert(join(t, seq!['/']) == join(t.drop_last(), seq!['/']) + seq!['/'] + t.last());
                assert(mid == a0.push('/'));
                assert(acc@ =~= a0 + seq!['/'] + p@);
            }
            assert(acc@ == join(ps.take(j + 1), seq!['/']));
        }
        let mut d = crate::select::pathnorm::clone_chars(&acc);
        d.push('/');
        out.push(string_of(&d));
        j = j + 1;
    }
    out
}

/// Parent directories of the first `n` entries.
pub open spec fn dir_set(es: Seq<SelectedEntry>, n: int) -> Set<Seq<char>>
    decreases n,
{
    if n <= 0 {
        Set::empty()
    } else {
        dir_set(es, n - 1).union(parent_dirs_spec(es[n - 1].archive_name@).to_set())
    }
}

/// Number of index members for a tar create: each selected file plus each
/// distinct parent directory of those files.
pub fn expected_tar_member_count(entries: &[SelectedEntry]) -> (n: usize)
    requires
        entries.len() + dir_set(entries@, entries.len() as int).len() <= usize::MAX,
    ensures
        n == entries.len() + dir_set(entries@, entries.len() as int).len(),
{
    let mut dirs = StringHashSet::new();
    let mut i: usize = 0;
    while i < entries.len()
        invariant
            i <= entries.len(),
            entries.len() + dir_set(entries@, entries.len() as int).len() <= usize::MAX,
            dirs@ == dir_set(entries@, i as int),
        decreases entries.len() - i,
    {
        let pd = parent_dir_names(entries[i].archive_name.as_str());
        let ghost pds = parent_dirs_spec(entries@[i as int].archive_name@);
        let ghost base = dir_set(entries@, i as int);
        let mut j: usize = 0;
        assert(pds.take(0).to_set() =~= Set::<Seq<char>>::empty());
        assert(base.union(Set::<Seq<char>>::empty()) =~= base);
        while j < pd.len()
            invariant
                j <= pd.len(),
                pd@.len() == pds.len(),
                forall|k: int| 0 <= k < pd@.len() ==> (#[trigger] pd@[k])@ == pds[k],
                dirs@ == base.union(pds.take(j as int).to_set()),
            decreases pd.len() - j,
        {
            assert(pd@[j as int]@ == pds[j as int]);
            let ghost before = dirs@;
            dirs.insert(string_from(pd[j].as_str()));
            proof {
                assert(pds.take(j + 1) == pds.take(j as int).push(pds[j as int]));
                assert(pds.take(j + 1).to_set() =~= pds.take(j as int).to_set().insert(pds[j as int])) by {
                    let t = pds.take(j as int);
                    assert forall|y: Seq<char>| #[trigger] t.push(pds[j as int]).contains(y) <==> (t.contains(y) || y
                        == pds[j as int]) by {
                        if t.push(pds[j as int]).contains(y) {
                            let p = choose|p: int| 0 <= p < t.push(pds[j as int]).len() && t.push(pds[j as int])[p] == y;
                            if p < t.len() {
                                assert(t[p] == y);
                            }
                        }
                        if t.contains(y) {
                            let p = choose|p: int| 0 <= p < t.len() && t[p] == y;
                            assert(t.push(pds[j as int])[p] == y);
                        }
                        if y == pds[j as int] {
                            assert(t.push(pds[j as int])[t.len() as int] == y);
                        }
                    }
                }
                assert(dirs@ =~= base.union(pds.take(j + 1).to_set()));
            }
            j = j + 1;
        }
        assert(pds.take(pd.len() as int) == pds);
        i = i + 1;
    }
    entries.len() + dirs.len()
}

} // verus!
