//! Seekable Zstd format: the uncompressed payload is a length-prefixed member
//! stream followed by a `RAZSIDX1` member index and the index's start offset;
//! the whole payload is wrapped in the Zstd seekable format by `zeekstd`.
//!
//! This module holds the payload layout: member headers, offsets, the index
//! encoding and parsing, and the footer checks.

use crate::bytes::{
    bslice, lemma_le_inverse, lemma_le_len, lemma_le_roundtrip, lemma_le_val_bound, le_bytes, le_val,
    pow256, push_le, read_le,
};
use crate::error::{Error, Result};
use crate::text::{decode_utf8_text, string_from, utf8};
use vstd::prelude::*;

verus! {

/// Index format version.
pub const INDEX_VERSION: u32 = 1;

/// Default independent-frame size (uncompressed bytes) for seekable encoding.
pub const DEFAULT_FRAME_SIZE: u32 = 2097152;

/// Magic prefix of the member index: `RAZSIDX1`.
pub open spec fn zs_index_magic() -> Seq<u8> {
    seq![0x52u8, 0x41, 0x5A, 0x53, 0x49, 0x44, 0x58, 0x31]
}

/// The magic bytes `RAZSIDX1`.
pub fn index_magic() -> (m: Vec<u8>)
    ensures
        m@ == zs_index_magic(),
{
    let m = vec![0x52u8, 0x41, 0x5A, 0x53, 0x49, 0x44, 0x58, 0x31];
    assert(m@ =~= zs_index_magic());
    m
}

/// One member recorded in the trailer index.
#[derive(Debug, Clone, PartialEq, Eq)]
pub struct MemberIndexEntry {
    /// Archive-relative path (`/`-separated).
    pub name: String,
    /// Uncompressed offset of the first data byte (after the name header).
    pub data_offset: u64,
    /// Uncompressed data length in bytes.
    pub data_len: u64,
}

/// Mathematical model of an index entry.
pub struct ZEntryModel {
    pub name: Seq<char>,
    pub doff: u64,
    pub dlen: u64,
}

impl View for MemberIndexEntry {
    type V = ZEntryModel;

    open spec fn view(&self) -> ZEntryModel {
        ZEntryModel { name: self.name@, doff: self.data_offset, dlen: self.data_len }
    }
}

pub open spec fn zviews(v: Seq<MemberIndexEntry>) -> Seq<ZEntryModel> {
    v.map_values(|m: MemberIndexEntry| m@)
}

/// Full member index parsed from a seekable-zstd archive.
#[derive(Debug, Clone, PartialEq, Eq)]
pub struct MemberIndex {
    pub version: u32,
    pub members: Vec<MemberIndexEntry>,
}

/// Encoded bytes of one member: name length, UTF-8 name, data offset, data
/// length, all little-endian.
pub open spec fn zentry_bytes(m: ZEntryModel) -> Seq<u8> {
    le_bytes(utf8(m.name).len(), 8) + utf8(m.name) + le_bytes(m.doff as nat, 8) + le_bytes(m.dlen as nat, 8)
}

pub open spec fn zentries_bytes(ms: Seq<ZEntryModel>) -> Seq<u8>
    decreases ms.len(),
{
    if ms.len() == 0 {
        Seq::empty()
    } else {
        zentry_bytes(ms[0]) + zentries_bytes(ms.skip(1))
    }
}

pub open spec fn zindex_header(count: nat) -> Seq<u8> {
    zs_index_magic() + le_bytes(1, 4) + le_bytes(count, 8)
}

/// The `RAZSIDX1` encoding of a member list.
pub open spec fn zindex_bytes(ms: Seq<ZEntryModel>) -> Seq<u8> {
    zindex_header(ms.len()) + zentries_bytes(ms)
}

/// Members whose lengths fit the encoding's 64-bit length fields.
pub open spec fn zmodel_ok(ms: Seq<ZEntryModel>) -> bool {
    &&& ms.len() < pow256(8)
    &&& forall|k: int| 0 <= k < ms.len() ==> utf8((#[trigger] ms[k]).name).len() < pow256(8)
}

proof fn lemma_zentries_split(ms: Seq<ZEntryModel>, i: int)
    requires
        0 <= i <= ms.len(),
    ensures
        zentries_bytes(ms) == zentries_bytes(ms.take(i)) + zentries_bytes(ms.skip(i)),
    decreases i,
{
    if i == 0 {
        assert(ms.take(0) =~= Seq::<ZEntryModel>::empty());
        assert(ms.skip(0) == ms);
        assert(zentries_bytes(ms.take(0)) =~= Seq::<u8>::empty());
    } else {
        lemma_zentries_split(ms.skip(1), i - 1);
        assert(ms.take(i).skip(1) == ms.skip(1).take(i - 1));
        assert(ms.skip(1).skip(i - 1) == ms.skip(i));
        assert(ms.take(i)[0] == ms[0]);
        assert(zentries_bytes(ms.take(i)) == zentry_bytes(ms[0]) + zentries_bytes(ms.skip(1).take(i - 1)));
    }
}

proof fn lemma_zentries_push(ms: Seq<ZEntryModel>, i: int)
    requires
        0 <= i < ms.len(),
    ensures
        zentries_bytes(ms.take(i + 1)) == zentries_bytes(ms.take(i)) + zentry_bytes(ms[i]),
{
    let t = ms.take(i + 1);
    lemma_zentries_split(t, i);
    assert(t.take(i) == ms.take(i));
    assert(t.skip(i) =~= seq![ms[i]]);
    assert(zentries_bytes(seq![ms[i]]) == zentry_bytes(ms[i]) + zentries_bytes(seq![ms[i]].skip(1)));
    assert(seq![ms[i]].skip(1) =~= Seq::<ZEntryModel>::empty());
}

/// Where each field sits in an entry's encoding.
proof fn lemma_zentry_fields(m: ZEntryModel)
    ensures
        ({
            let e = zentry_bytes(m);
            let l = utf8(m.name).len() as int;
            let q = 8 + l;
            &&& e.len() == q + 16
            &&& e.subrange(0, 8) == le_bytes(l as nat, 8)
            &&& e.subrange(8, q) == utf8(m.name)
            &&& e.subrange(q, q + 8) == le_bytes(m.doff as nat, 8)
            &&& e.subrange(q + 8, q + 16) == le_bytes(m.dlen as nat, 8)
        }),
{
    let l = utf8(m.name).len() as int;
    let q = 8 + l;
    let a0 = le_bytes(l as nat, 8);
    let a1 = utf8(m.name);
    let a2 = le_bytes(m.doff as nat, 8);
    let a3 = le_bytes(m.dlen as nat, 8);
    let e = zentry_bytes(m);
    lemma_le_len(l as nat, 8);
    lemma_le_len(m.doff as nat, 8);
    lemma_le_len(m.dlen as nat, 8);
    assert(e == a0 + a1 + a2 + a3);
    assert(e.subrange(0, 8) =~= a0);
    assert(e.subrange(8, q) =~= a1);
    assert(e.subrange(q, q + 8) =~= a2);
    assert(e.subrange(q + 8, q + 16) =~= a3);
}

/// Equal little-endian fields of values that fit are equal values.
proof fn lemma_field_eq(x: nat, y: nat, n: nat, f: Seq<u8>)
    requires
        x < pow256(n),
        y < pow256(n),
        le_bytes(x, n) == f,
        le_bytes(y, n) == f,
    ensures
        x == y,
{
    lemma_le_roundtrip(x, n);
    lemma_le_roundtrip(y, n);
}

/// Two entries whose encodings both start the same bytes are the same entry.
proof fn lemma_zentry_prefix_unique(a: ZEntryModel, b: ZEntryModel, s: Seq<u8>)
    requires
        utf8(a.name).len() < pow256(8),
        utf8(b.name).len() < pow256(8),
        zentry_bytes(a).is_prefix_of(s),
        zentry_bytes(b).is_prefix_of(s),
    ensures
        a == b,
{
    let ea = zentry_bytes(a);
    let eb = zentry_bytes(b);
    let la = utf8(a.name).len();
    let lb = utf8(b.name).len();
    lemma_zentry_fields(a);
    lemma_zentry_fields(b);
    assert(ea.subrange(0, 8) == s.subrange(0, 8));
    assert(eb.subrange(0, 8) == s.subrange(0, 8));
    lemma_field_eq(la, lb, 8, s.subrange(0, 8));
    let q = 8 + la as int;
    assert(ea.subrange(8, q) == s.subrange(8, q));
    assert(eb.subrange(8, q) == s.subrange(8, q));
    vstd::utf8::encode_utf8_decode_utf8(a.name);
    vstd::utf8::encode_utf8_decode_utf8(b.name);
    assert(pow256(8) == 18446744073709551616) by {
        reveal_with_fuel(pow256, 9);
    }
    assert(ea.subrange(q, q + 8) == s.subrange(q, q + 8));
    assert(eb.subrange(q, q + 8) == s.subrange(q, q + 8));
    lemma_field_eq(a.doff as nat, b.doff as nat, 8, s.subrange(q, q + 8));
    assert(ea.subrange(q + 8, q + 16) == s.subrange(q + 8, q + 16));
    assert(eb.subrange(q + 8, q + 16) == s.subrange(q + 8, q + 16));
    lemma_field_eq(a.dlen as nat, b.dlen as nat, 8, s.subrange(q + 8, q + 16));
}


/// Encode the member index: `RAZSIDX1`, version, count, then each member.
pub fn encode_index(members: &[MemberIndexEntry]) -> (r: Result<Vec<u8>>)
    ensures
        r matches Ok(v) && v@ == zindex_bytes(zviews(members@)),
{
    let ghost ms = zviews(members@);
    let mut buf = index_magic();
    push_le(&mut buf, 1, 4);
    push_le(&mut buf, members.len() as u64, 8);
    assert(buf@ == zindex_header(ms.len()));
    let mut i: usize = 0;
    while i < members.len()
        invariant
            i <= members.len(),
            ms == zviews(members@),
            buf@ == zindex_header(ms.len()) + zentries_bytes(ms.take(i as int)),
        decreases members.len() - i,
    {
        let m = &members[i];
        assert(ms[i as int] == m@);
        let nb = m.name.as_str().as_bytes();
        let ghost b0 = buf@;
        push_le(&mut buf, nb.len() as u64, 8);
        crate::bytes::bextend(&mut buf, nb);
        push_le(&mut buf, m.data_offset, 8);
        push_le(&mut buf, m.data_len, 8);
        proof {
            assert(nb@ == utf8(m.name@));
            lemma_zentries_push(ms, i as int);
            assert(buf@ =~= b0 + zentry_bytes(m@));
        }
        i = i + 1;
    }
    assert(ms.take(members.len() as int) == ms);
    Ok(buf)
}

/// Reads the entry at `buf[pos..]`: `None` when the bytes are too short or the
/// name is not UTF-8; else the entry and the position after it.
#[verifier::rlimit(40)]
fn read_entry(buf: &[u8], pos: usize) -> (r: Option<(MemberIndexEntry, usize)>)
    requires
        pos <= buf.len(),
    ensures
        match r {
            Some((m, p)) => pos < p <= buf.len() && buf@.subrange(pos as int, p as int) == zentry_bytes(m@),
            None => forall|m: ZEntryModel|
                utf8(m.name).len() < pow256(8) ==> !(#[trigger] zentry_bytes(m)).is_prefix_of(buf@.skip(pos as int)),
        },
{
    if buf.len() - pos < 8 {
        proof {
            assert forall|m: ZEntryModel| utf8(m.name).len() < pow256(8) implies !(#[trigger] zentry_bytes(m)).is_prefix_of(buf@.skip(pos as int)) by {
                lemma_zentry_fields(m);
            }
        }
        return None;
    }
    let name_len = read_le(buf, pos, 8);
    let avail = buf.len() - pos - 8;
    if name_len > avail as u64 || avail - (name_len as usize) < 16 {
        proof {
            assert forall|m: ZEntryModel| utf8(m.name).len() < pow256(8) implies !(#[trigger] zentry_bytes(m)).is_prefix_of(buf@.skip(pos as int)) by {
                lemma_zentry_fields(m);
                if zentry_bytes(m).is_prefix_of(buf@.skip(pos as int)) {
                    let l = utf8(m.name).len();
                    lemma_le_roundtrip(l, 8);
                    assert(buf@.subrange(pos as int, pos + 8) == zentry_bytes(m).subrange(0, 8));
                }
            }
        }
        return None;
    }
    let nl = name_len as usize;
    let p1 = pos + 8;
    let name_bytes = bslice(buf, p1, p1 + nl);
    let name = match decode_utf8_text(name_bytes) {
        Some(s) => s,
        None => {
            proof {
                assert forall|m: ZEntryModel| utf8(m.name).len() < pow256(8) implies !(#[trigger] zentry_bytes(m)).is_prefix_of(buf@.skip(pos as int)) by {
                    lemma_zentry_fields(m);
                    if zentry_bytes(m).is_prefix_of(buf@.skip(pos as int)) {
                        let l = utf8(m.name).len();
                        lemma_le_roundtrip(l, 8);
                        assert(buf@.subrange(pos as int, pos + 8) == zentry_bytes(m).subrange(0, 8));
                        assert(zentry_bytes(m).subrange(8, 8 + l as int) == utf8(m.name));
                        assert(buf@.subrange(p1 as int, p1 + nl) == utf8(m.name));
                        vstd::utf8::encode_utf8_valid_utf8(m.name);
                    }
                }
            }
            return None;
        },
    };
    let p2 = p1 + nl;
    let doff = read_le(buf, p2, 8);
    let dlen = read_le(buf, p2 + 8, 8);
    let m = MemberIndexEntry { name, data_offset: doff, data_len: dlen };
    proof {
        let s = buf@;
        lemma_le_inverse(s.subrange(pos as int, pos + 8));
        lemma_le_inverse(s.subrange(p2 as int, p2 + 8));
        lemma_le_inverse(s.subrange(p2 + 8, p2 + 16));
        assert(utf8(m.name@) == s.subrange(p1 as int, p1 + nl));
        assert(s.subrange(pos as int, p2 + 16) =~= s.subrange(pos as int, pos + 8) + s.subrange(
            p1 as int,
            p1 + nl,
        ) + s.subrange(p2 as int, p2 + 8) + s.subrange(p2 + 8, p2 + 16));
    }
    Some((m, p2 + 16))
}

/// Under a hypothetical encoding `ms` of `buf` whose first `i` members were
/// read up to `pos`, the rest of `buf` encodes the remaining members.
proof fn lemma_rest_encodes(buf: Seq<u8>, ms: Seq<ZEntryModel>, count: nat, i: int, pos: int, read: Seq<ZEntryModel>)
    requires
        buf == zindex_bytes(ms),
        ms.len() == count,
        0 <= i <= ms.len(),
        ms.take(i) == read,
        0 <= pos <= buf.len(),
        buf.take(pos) == zindex_header(count) + zentries_bytes(read),
    ensures
        buf.skip(pos) == zentries_bytes(ms.skip(i)),
{
    lemma_zentries_split(ms, i);
    assert(buf == (zindex_header(count) + zentries_bytes(read)) + zentries_bytes(ms.skip(i)));
    assert(buf.skip(pos) =~= zentries_bytes(ms.skip(i)));
}

/// Parse a `RAZSIDX1` member index. Succeeds exactly on the encodings of
/// member lists, giving that list back.
pub fn parse_index(buf: &[u8]) -> (r: Result<MemberIndex>)
    ensures
        r matches Ok(idx) ==> idx.version == INDEX_VERSION && buf@ == zindex_bytes(zviews(idx.members@))
            && zmodel_ok(zviews(idx.members@)),
        r matches Err(e) ==> e is Archive && forall|ms: Seq<ZEntryModel>|
            zmodel_ok(ms) ==> #[trigger] zindex_bytes(ms) != buf@,
{
    let ghost s = buf@;
    if buf.len() < 20 {
        proof {
            assert forall|ms: Seq<ZEntryModel>| zmodel_ok(ms) implies #[trigger] zindex_bytes(ms) != buf@ by {
                lemma_le_len(1, 4);
                lemma_le_len(ms.len(), 8);
            }
        }
        return Err(Error::Archive(string_from("seekable-zstd: index truncated (header)")));
    }
    let head = bslice(buf, 0, 8);
    let magic = index_magic();
    if !crate::bytes::beq(&head, &magic) {
        proof {
            assert forall|ms: Seq<ZEntryModel>| zmodel_ok(ms) implies #[trigger] zindex_bytes(ms) != buf@ by {
                lemma_le_len(1, 4);
                lemma_le_len(ms.len(), 8);
                if zindex_bytes(ms) == buf@ {
                    assert(zindex_bytes(ms).subrange(0, 8) == zs_index_magic());
                }
            }
        }
        return Err(Error::Archive(string_from("seekable-zstd: bad index magic (expected RAZSIDX1)")));
    }
    let version = read_le(buf, 8, 4);
    if version != 1 {
        proof {
            assert forall|ms: Seq<ZEntryModel>| zmodel_ok(ms) implies #[trigger] zindex_bytes(ms) != buf@ by {
                lemma_le_len(1, 4);
                lemma_le_len(ms.len(), 8);
                if zindex_bytes(ms) == buf@ {
                    assert(zindex_bytes(ms).subrange(8, 12) == le_bytes(1, 4));
                    reveal_with_fuel(pow256, 5);
                    lemma_le_roundtrip(1, 4);
                }
            }
        }
        return Err(Error::Archive(string_from("seekable-zstd: unsupported index version")));
    }
    let count = read_le(buf, 12, 8);
    proof {
        lemma_le_inverse(s.subrange(8, 12));
        lemma_le_inverse(s.subrange(12, 20));
        lemma_le_len(1, 4);
        lemma_le_len(count as nat, 8);
        assert(s.take(20) =~= s.subrange(0, 8) + s.subrange(8, 12) + s.subrange(12, 20));
        assert(s.take(20) == zindex_header(count as nat));
        assert forall|ms: Seq<ZEntryModel>| zmodel_ok(ms) && #[trigger] zindex_bytes(ms) == buf@ implies ms.len() == count by {
            lemma_le_len(ms.len(), 8);
            lemma_le_roundtrip(ms.len(), 8);
            assert(zindex_bytes(ms).subrange(12, 20) == le_bytes(ms.len(), 8));
        }
        assert(zentries_bytes(Seq::<ZEntryModel>::empty()) =~= Seq::<u8>::empty());
        assert(s.take(20) + Seq::<u8>::empty() == s.take(20));
        assert(pow256(8) > 0) by {
            reveal_with_fuel(pow256, 9);
        }
    }
    let mut pos: usize = 20;
    let mut members: Vec<MemberIndexEntry> = Vec::new();
    let mut i: u64 = 0;
    while i < count
        invariant
            s == buf@,
            20 <= pos <= buf.len(),
            members.len() == i,
            i <= count,
            s.take(pos as int) == zindex_header(count as nat) + zentries_bytes(zviews(members@)),
            zmodel_ok(zviews(members@)),
            forall|ms: Seq<ZEntryModel>| zmodel_ok(ms) && #[trigger] zindex_bytes(ms) == s ==>
                ms.len() == count && ms.take(i as int) == zviews(members@),
        decreases count - i,
    {
        match read_entry(buf, pos) {
            None => {
                proof {
                    assert forall|ms: Seq<ZEntryModel>| zmodel_ok(ms) implies #[trigger] zindex_bytes(ms) != buf@ by {
                        if zindex_bytes(ms) == buf@ {
                            lemma_rest_encodes(s, ms, count as nat, i as int, pos as int, zviews(members@));
                            let rest = ms.skip(i as int);
                            assert(rest[0] == ms[i as int]);
                            assert(zentries_bytes(rest) == zentry_bytes(rest[0]) + zentries_bytes(rest.skip(1)));
                            assert(zentry_bytes(ms[i as int]).is_prefix_of(s.skip(pos as int)));
                        }
                    }
                }
                return Err(Error::Archive(string_from("seekable-zstd: index truncated at member")));
            },
            Some((m, p)) => {
                let ghost mv0 = zviews(members@);
                proof {
                    assert forall|ms: Seq<ZEntryModel>| zmodel_ok(ms) && #[trigger] zindex_bytes(ms) == s implies
                        ms.len() == count && ms.take(i + 1) == mv0.push(m@) by {
                        lemma_rest_encodes(s, ms, count as nat, i as int, pos as int, mv0);
                        let rest = ms.skip(i as int);
                        assert(rest[0] == ms[i as int]);
                        assert(zentries_bytes(rest) == zentry_bytes(rest[0]) + zentries_bytes(rest.skip(1)));
                        assert(zentry_bytes(ms[i as int]).is_prefix_of(s.skip(pos as int)));
                        assert(zentry_bytes(m@).is_prefix_of(s.skip(pos as int))) by {
                            assert(s.skip(pos as int).subrange(0, p - pos) == s.subrange(pos as int, p as int));
                        }
                        assert(utf8(m@.name).len() < pow256(8)) by {
                            lemma_zentry_fields(m@);
                            reveal_with_fuel(pow256, 9);
                        }
                        lemma_zentry_prefix_unique(ms[i as int], m@, s.skip(pos as int));
                        assert(ms.take(i + 1) =~= ms.take(i as int).push(ms[i as int]));
                    }
                    assert(s.take(p as int) =~= s.take(pos as int) + s.subrange(pos as int, p as int));
                    assert(zentries_bytes(mv0.push(m@)) == zentries_bytes(mv0) + zentry_bytes(m@)) by {
                        let t = mv0.push(m@);
                        lemma_zentries_push(t, mv0.len() as int);
                        assert(t.take(mv0.len() as int) == mv0);
                        assert(t.take(mv0.len() + 1 as int) == t);
                    }
                }
                members.push(m);
                proof {
                    assert(zviews(members@) =~= mv0.push(m@));
                    assert(utf8(m@.name).len() < pow256(8)) by {
                        lemma_zentry_fields(m@);
                        reveal_with_fuel(pow256, 9);
                    }
                    assert(i + 1 < pow256(8)) by {
                        reveal_with_fuel(pow256, 9);
                    }
                    assert forall|k: int| 0 <= k < zviews(members@).len() implies utf8((#[trigger] zviews(members@)[k]).name).len() < pow256(8) by {
                        if k < mv0.len() {
                            assert(zviews(members@)[k] == mv0[k]);
                        }
                    }
                }
                pos = p;
                i = i + 1;
            },
        }
    }
    if pos != buf.len() {
        proof {
            assert forall|ms: Seq<ZEntryModel>| zmodel_ok(ms) implies #[trigger] zindex_bytes(ms) != buf@ by {
                if zindex_bytes(ms) == buf@ {
                    lemma_rest_encodes(s, ms, count as nat, i as int, pos as int, zviews(members@));
                    assert(ms.skip(i as int).len() == 0);
                    assert(zentries_bytes(ms.skip(i as int)) =~= Seq::<u8>::empty());
                }
            }
        }
        return Err(Error::Archive(string_from("seekable-zstd: index has trailing bytes")));
    }
    proof {
        assert(s.take(pos as int) == s);
        assert(zviews(members@).len() == count);
    }
    Ok(MemberIndex { version: 1, members })
}

/// Two member lists with the same entry encodings are the same list.
proof fn lemma_zentries_injective(a: Seq<ZEntryModel>, b: Seq<ZEntryModel>)
    requires
        zmodel_ok(a),
        zmodel_ok(b),
        a.len() == b.len(),
        zentries_bytes(a) == zentries_bytes(b),
    ensures
        a == b,
    decreases a.len(),
{
    if a.len() > 0 {
        let s = zentries_bytes(a);
        assert(zentry_bytes(a[0]).is_prefix_of(s));
        assert(zentry_bytes(b[0]).is_prefix_of(s));
        lemma_zentry_prefix_unique(a[0], b[0], s);
        let ra = a.skip(1);
        let rb = b.skip(1);
        assert(zentries_bytes(ra) =~= s.skip(zentry_bytes(a[0]).len() as int));
        assert(zentries_bytes(rb) =~= s.skip(zentry_bytes(b[0]).len() as int));
        assert forall|k: int| 0 <= k < ra.len() implies utf8((#[trigger] ra[k]).name).len() < pow256(8) by {
            assert(ra[k] == a[k + 1]);
        }
        assert forall|k: int| 0 <= k < rb.len() implies utf8((#[trigger] rb[k]).name).len() < pow256(8) by {
            assert(rb[k] == b[k + 1]);
        }
        lemma_zentries_injective(ra, rb);
        assert(a =~= seq![a[0]] + ra);
        assert(b =~= seq![b[0]] + rb);
    }
}

/// Round trip of the member index: a list that fits the encoding is the only
/// list whose encoding equals its own, so [`parse_index`] on the bytes from
/// [`encode_index`] gives the same members back.
pub proof fn lemma_zindex_roundtrip(ms: Seq<ZEntryModel>, parsed: Seq<ZEntryModel>)
    requires
        zmodel_ok(ms),
        zmodel_ok(parsed),
        zindex_bytes(parsed) == zindex_bytes(ms),
    ensures
        parsed == ms,
{
    let s = zindex_bytes(ms);
    lemma_le_len(1, 4);
    lemma_le_len(ms.len(), 8);
    lemma_le_len(parsed.len(), 8);
    lemma_le_roundtrip(ms.len(), 8);
    lemma_le_roundtrip(parsed.len(), 8);
    assert(zindex_bytes(ms).subrange(12, 20) == le_bytes(ms.len(), 8));
    assert(zindex_bytes(parsed).subrange(12, 20) == le_bytes(parsed.len(), 8));
    assert(zentries_bytes(ms) =~= s.skip(20));
    assert(zentries_bytes(parsed) =~= s.skip(20));
    lemma_zentries_injective(parsed, ms);
}

impl MemberIndex {
    /// Look up a member by exact archive name (the first one so named).
    pub fn get(&self, name: &str) -> (r: Option<&MemberIndexEntry>)
        ensures
            match r {
                Some(m) => exists|k: int| 0 <= k < self.members@.len() && self.members@[k] == *m
                    && m.name@ == name@ && forall|j: int| 0 <= j < k ==> (#[trigger] self.members@[j]).name@ != name@,
                None => forall|j: int| 0 <= j < self.members@.len() ==> (#[trigger] self.members@[j]).name@ != name@,
            },
    {
        let nv = crate::text::chars_of(name);
        let mut i: usize = 0;
        while i < self.members.len()
            invariant
                i <= self.members.len(),
                nv@ == name@,
                forall|j: int| 0 <= j < i ==> (#[trigger] self.members@[j]).name@ != name@,
            decreases self.members.len() - i,
        {
            let mv = crate::text::chars_of(self.members[i].name.as_str());
            if crate::text::eq_chars(&mv, &nv) {
                return Some(&self.members[i]);
            }
            i = i + 1;
        }
        None
    }

    /// Member names in archive order.
    pub fn names(&self) -> (r: Vec<&str>)
        ensures
            r.len() == self.members@.len(),
            forall|k: int| 0 <= k < r.len() ==> (#[trigger] r@[k])@ == self.members@[k].name@,
    {
        let mut out: Vec<&str> = Vec::new();
        let mut i: usize = 0;
        while i < self.members.len()
            invariant
                i <= self.members.len(),
                out.len() == i,
                forall|k: int| 0 <= k < i ==> (#[trigger] out@[k])@ == self.members@[k].name@,
            decreases self.members.len() - i,
        {
            out.push(self.members[i].name.as_str());
            i = i + 1;
        }
        out
    }
}


/// Map a CLI level 0–9 to a zstd compression level.
pub fn zstd_level(level: u32) -> (z: i32)
    ensures
        z == (if level < 9 { level as int } else { 9 }),
{
    if level < 9 {
        level as i32
    } else {
        9
    }
}

/// The header written before a member's data: name length, UTF-8 name and
/// data length, little-endian.
pub open spec fn member_header_spec(name: Seq<char>, data_len: u64) -> Seq<u8> {
    le_bytes(utf8(name).len(), 8) + utf8(name) + le_bytes(data_len as nat, 8)
}

/// Build the header that precedes a member's data.
pub fn member_header(name: &str, data_len: u64) -> (h: Vec<u8>)
    ensures
        h@ == member_header_spec(name@, data_len),
{
    let nb = name.as_bytes();
    let mut h: Vec<u8> = Vec::new();
    push_le(&mut h, nb.len() as u64, 8);
    crate::bytes::bextend(&mut h, nb);
    push_le(&mut h, data_len, 8);
    h
}

/// Payload offset just past the data of the last of `ms`, each member taking
/// its header and its data.
pub open spec fn layout_end(ms: Seq<ZEntryModel>) -> nat
    decreases ms.len(),
{
    if ms.len() == 0 {
        0
    } else {
        layout_end(ms.drop_last()) + 16 + utf8(ms.last().name).len() + ms.last().dlen as nat
    }
}

/// Each member's data starts right after its header, which follows the data
/// of the member before it.
pub open spec fn layout_ok(ms: Seq<ZEntryModel>) -> bool {
    forall|k: int| 0 <= k < ms.len() ==> (#[trigger] ms[k]).doff == layout_end(ms.take(k)) + 16 + utf8(ms[k].name).len()
}

/// Running layout of a seekable payload: the members written so far and the
/// payload offset after them.
pub struct SeekableLayout {
    pos: u64,
    members: Vec<MemberIndexEntry>,
}

impl SeekableLayout {
    /// Payload offset after the members written so far.
    pub closed spec fn pos_spec(&self) -> nat {
        self.pos as nat
    }

    /// The members written so far.
    pub closed spec fn members_spec(&self) -> Seq<ZEntryModel> {
        zviews(self.members@)
    }

    /// The offset is the end of the layout, and every entry's data offset sits
    /// right after its header.
    pub open spec fn wf(&self) -> bool {
        &&& self.pos_spec() == layout_end(self.members_spec())
        &&& layout_ok(self.members_spec())
        &&& self.pos_spec() <= u64::MAX
    }

    /// An empty payload.
    pub fn new() -> (l: Self)
        ensures
            l.wf(),
            l.pos_spec() == 0,
            l.members_spec() == Seq::<ZEntryModel>::empty(),
    {
        let l = SeekableLayout { pos: 0, members: Vec::new() };
        assert(l.members_spec() =~= Seq::<ZEntryModel>::empty());
        l
    }

    /// Payload offset after the members written so far.
    pub fn pos(&self) -> (p: u64)
        ensures
            p == self.pos_spec(),
    {
        self.pos
    }

    /// The members written so far.
    pub fn members(&self) -> (m: &[MemberIndexEntry])
        ensures
            zviews(m@) == self.members_spec(),
    {
        self.members.as_slice()
    }

    /// Record a member whose header and `data_len` data bytes follow the
    /// payload so far; gives the member's data offset. Fails, changing
    /// nothing, when an offset would not fit in 64 bits.
    pub fn record_member(&mut self, name: String, data_len: u64) -> (r: Result<u64>)
        requires
            old(self).wf(),
        ensures
            final(self).wf(),
            match r {
                Ok(doff) => {
                    &&& doff == old(self).pos_spec() + 16 + utf8(name@).len()
                    &&& final(self).members_spec() == old(self).members_spec().push(
                        ZEntryModel { name: name@, doff: doff, dlen: data_len },
                    )
                    &&& final(self).pos_spec() == doff + data_len
                },
                Err(e) => {
                    &&& e is Archive
                    &&& old(self).pos_spec() + 16 + utf8(name@).len() + data_len > u64::MAX
                    &&& *final(self) == *old(self)
                },
            },
    {
        let nl = name.as_str().as_bytes().len() as u64;
        if nl > u64::MAX - 16 || self.pos > u64::MAX - 16 - nl {
            return Err(Error::Archive(string_from("uncompressed offset overflow")));
        }
        let doff = self.pos + 16 + nl;
        if data_len > u64::MAX - doff {
            return Err(Error::Archive(string_from("uncompressed offset overflow")));
        }
        let ghost ms0 = self.members_spec();
        let e = MemberIndexEntry { name, data_offset: doff, data_len };
        let ghost em = e@;
        self.members.push(e);
        self.pos = doff + data_len;
        proof {
            let ms = self.members_spec();
            assert(ms =~= ms0.push(em));
            assert(ms.drop_last() =~= ms0);
            assert forall|k: int| 0 <= k < ms.len() implies (#[trigger] ms[k]).doff == layout_end(ms.take(k)) + 16
                + utf8(ms[k].name).len() by {
                if k < ms0.len() {
                    assert(ms.take(k) =~= ms0.take(k));
                    assert(ms[k] == ms0[k]);
                } else {
                    assert(ms.take(k) =~= ms0);
                }
            }
        }
        Ok(doff)
    }

    /// The end of the payload: the member index, then the offset where it starts.
    pub fn finish(&self) -> (r: Result<Vec<u8>>)
        requires
            self.wf(),
        ensures
            r matches Ok(v) && v@ == zindex_bytes(self.members_spec()) + le_bytes(self.pos_spec(), 8),
    {
        let mut v = match encode_index(self.members.as_slice()) {
            Ok(v) => v,
            Err(e) => return Err(e),
        };
        push_le(&mut v, self.pos, 8);
        Ok(v)
    }
}


/// The payload of members written one after another, each its header and
/// then its data `bodies[k]`.
pub open spec fn members_payload(ms: Seq<ZEntryModel>, bodies: Seq<Seq<u8>>) -> Seq<u8>
    decreases ms.len(),
{
    if ms.len() == 0 || bodies.len() == 0 {
        Seq::empty()
    } else {
        members_payload(ms.drop_last(), bodies.drop_last()) + member_header_spec(ms.last().name, ms.last().dlen)
            + bodies.last()
    }
}

/// Law: in the payload of members laid out one after another, each member's
/// data sits at the data offset the layout records for it, and the payload
/// ends where the layout ends.
pub proof fn lemma_member_data_at_offset(ms: Seq<ZEntryModel>, bodies: Seq<Seq<u8>>)
    requires
        layout_ok(ms),
        bodies.len() == ms.len(),
        forall|k: int| 0 <= k < ms.len() ==> (#[trigger] bodies[k]).len() == ms[k].dlen,
    ensures
        members_payload(ms, bodies).len() == layout_end(ms),
        forall|k: int|
            0 <= k < ms.len() ==> members_payload(ms, bodies).subrange(
                ms[k].doff as int,
                ms[k].doff + ms[k].dlen,
            ) == #[trigger] bodies[k],
    decreases ms.len(),
{
    if ms.len() > 0 {
        let m0 = ms.drop_last();
        let b0 = bodies.drop_last();
        assert(layout_ok(m0)) by {
            assert forall|k: int| 0 <= k < m0.len() implies (#[trigger] m0[k]).doff == layout_end(m0.take(k)) + 16
                + utf8(m0[k].name).len() by {
                assert(m0.take(k) =~= ms.take(k));
                assert(m0[k] == ms[k]);
            }
        }
        assert forall|k: int| 0 <= k < m0.len() implies (#[trigger] b0[k]).len() == m0[k].dlen by {
            assert(b0[k] == bodies[k]);
            assert(m0[k] == ms[k]);
        }
        lemma_member_data_at_offset(m0, b0);
        let p0 = members_payload(m0, b0);
        let last = ms.last();
        let h = member_header_spec(last.name, last.dlen);
        lemma_le_len(utf8(last.name).len(), 8);
        lemma_le_len(last.dlen as nat, 8);
        assert(h.len() == 16 + utf8(last.name).len());
        let p = members_payload(ms, bodies);
        assert(p == p0 + h + bodies.last());
        let n = ms.len() - 1;
        assert(ms.take(n) =~= m0);
        assert(ms[n] == last);
        assert(last.doff == p0.len() + h.len());
        assert forall|k: int| 0 <= k < ms.len() implies p.subrange(ms[k].doff as int, ms[k].doff + ms[k].dlen)
            == #[trigger] bodies[k] by {
            if k < n {
                assert(m0[k] == ms[k]);
                assert(b0[k] == bodies[k]);
                let d = ms[k].doff as int;
                let e = ms[k].doff + ms[k].dlen;
                assert(p0.subrange(d, e) == bodies[k]);
                assert(e <= p0.len()) by {
                    lemma_layout_end_covers(m0, k);
                }
                assert(p.subrange(d, e) =~= p0.subrange(d, e));
            } else {
                assert(p.subrange(last.doff as int, last.doff + last.dlen) =~= bodies.last());
            }
        }
    }
}

/// A member's data ends no later than the layout does.
proof fn lemma_layout_end_covers(ms: Seq<ZEntryModel>, k: int)
    requires
        layout_ok(ms),
        0 <= k < ms.len(),
    ensures
        ms[k].doff + ms[k].dlen <= layout_end(ms),
    decreases ms.len(),
{
    let n = ms.len() - 1;
    let m0 = ms.drop_last();
    if k < n {
        assert(layout_ok(m0)) by {
            assert forall|j: int| 0 <= j < m0.len() implies (#[trigger] m0[j]).doff == layout_end(m0.take(j)) + 16
                + utf8(m0[j].name).len() by {
                assert(m0.take(j) =~= ms.take(j));
                assert(m0[j] == ms[j]);
            }
        }
        assert(m0[k] == ms[k]);
        lemma_layout_end_covers(m0, k);
    } else {
        assert(ms.take(n) =~= m0);
    }
}

} // verus!
