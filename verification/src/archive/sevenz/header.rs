//! Raw (unencoded) 7z header writer for non-solid archives: one folder and one
//! unpack stream per file.
//!
//! ```text
//! kHeader
//!   kMainStreamsInfo
//!     kPackInfo (pos, num, kSize…, kCRC all-defined…, kEnd)
//!     kUnpackInfo (kFolder…, kCodersUnpackSize…, kEnd)
//!     kSubStreamsInfo (kCRC all-defined content CRCs…, kEnd)
//!     kEnd
//!   kFilesInfo (num, [kEmptyStream], [kEmptyFile], kName, kMTime, kWinAttributes, kEnd)
//! kEnd
//! ```

use crate::archive::sevenz::codec::{crc32, crc32_of, pow2, CompressedPack, Crc32};
use crate::bytes::{bextend, le_bytes, lemma_le_len, pow256, push_le};
use crate::error::Result;
use crate::select::global_restrict::now_unix_secs;
use crate::text::chars_of;
use vstd::prelude::*;

verus! {

pub const SIG_HEADER_SIZE: u64 = 32;

pub const K_END: u8 = 0x00;
pub const K_HEADER: u8 = 0x01;
pub const K_MAIN_STREAMS_INFO: u8 = 0x04;
pub const K_FILES_INFO: u8 = 0x05;
pub const K_PACK_INFO: u8 = 0x06;
pub const K_UNPACK_INFO: u8 = 0x07;
pub const K_SUB_STREAMS_INFO: u8 = 0x08;
pub const K_SIZE: u8 = 0x09;
pub const K_CRC: u8 = 0x0A;
pub const K_FOLDER: u8 = 0x0B;
pub const K_CODERS_UNPACK_SIZE: u8 = 0x0C;
pub const K_EMPTY_STREAM: u8 = 0x0E;
pub const K_EMPTY_FILE: u8 = 0x0F;
pub const K_NAME: u8 = 0x11;
pub const K_M_TIME: u8 = 0x14;
pub const K_WIN_ATTRIBUTES: u8 = 0x15;

/// Windows FILE_ATTRIBUTE_ARCHIVE with the Unix mode `0o100644` in the high word.
pub const ATTR_FILE: u32 = 0x81A4_0020;

/// The 7z signature `7z\xBC\xAF\x27\x1C`.
pub open spec fn sig_spec() -> Seq<u8> {
    seq![0x37u8, 0x7A, 0xBC, 0xAF, 0x27, 0x1C]
}

/// Number of bytes after the first in the 7z `UINT64` encoding of `v`.
pub open spec fn enc_len(v: nat) -> nat {
    if v < pow2(7) {
        0
    } else if v < pow2(14) {
        1
    } else if v < pow2(21) {
        2
    } else if v < pow2(28) {
        3
    } else if v < pow2(35) {
        4
    } else if v < pow2(42) {
        5
    } else if v < pow2(49) {
        6
    } else if v < pow2(56) {
        7
    } else {
        8
    }
}

/// 7z `UINT64`: a first byte with one leading 1-bit per extra byte (and the
/// high bits of the value), then the low bytes little-endian.
#[verifier::opaque]
pub open spec fn enc_u64(v: nat) -> Seq<u8> {
    let i = enc_len(v);
    let first: int = if i < 8 { (256 - pow2((8 - i) as nat)) + v / pow256(i) } else { 255 };
    seq![first as u8] + le_bytes(v, i)
}

/// Append the 7z `UINT64` encoding of `value`.
pub fn write_u64(h: &mut Vec<u8>, value: u64) -> (r: Result<()>)
    ensures
        r is Ok,
        final(h)@ == old(h)@ + enc_u64(value as nat),
{
    proof {
        reveal(enc_u64);
        assert(pow2(7) == 128 && pow2(14) == 16384 && pow2(21) == 2097152 && pow2(28) == 268435456)
            by {
            reveal_with_fuel(pow2, 29);
        }
        assert(pow2(35) == 34359738368 && pow2(42) == 4398046511104) by {
            reveal_with_fuel(pow2, 43);
        }
        assert(pow2(49) == 562949953421312 && pow2(56) == 72057594037927936) by {
            reveal_with_fuel(pow2, 57);
        }
        assert(pow2(1) == 2 && pow2(2) == 4 && pow2(3) == 8 && pow2(4) == 16 && pow2(5) == 32 && pow2(6) == 64 && pow2(8) == 256) by {
            reveal_with_fuel(pow2, 9);
        }
        assert(pow256(0) == 1 && pow256(1) == 256 && pow256(2) == 65536 && pow256(3) == 16777216
            && pow256(4) == 4294967296) by {
            reveal_with_fuel(pow256, 5);
        }
        assert(pow256(5) == 1099511627776 && pow256(6) == 281474976710656 && pow256(7) == 72057594037927936) by {
            reveal_with_fuel(pow256, 8);
        }
    }
    let v = value;
    let (i, first): (usize, u64) = if v < 128 {
        (0, v)
    } else if v < 16384 {
        (1, 128 + v / 256)
    } else if v < 2097152 {
        (2, 192 + v / 65536)
    } else if v < 268435456 {
        (3, 224 + v / 16777216)
    } else if v < 34359738368 {
        (4, 240 + v / 4294967296)
    } else if v < 4398046511104 {
        (5, 248 + v / 1099511627776)
    } else if v < 562949953421312 {
        (6, 252 + v / 281474976710656)
    } else if v < 72057594037927936 {
        (7, 254 + v / 72057594037927936)
    } else {
        (8, 255)
    };
    assert(first < 256);
    h.push(first as u8);
    push_le(h, v, i);
    Ok(())
}

/// Bit `b` (0 = most significant) of byte `j` of a bit set over `flags`.
pub open spec fn bit_of(flags: Seq<bool>, j: int, b: int) -> nat {
    if 8 * j + b < flags.len() && flags[8 * j + b] {
        pow2((7 - b) as nat)
    } else {
        0
    }
}

/// Byte `j` of the bit set: the sum of its first `b` bits.
pub open spec fn bits_byte(flags: Seq<bool>, j: int, b: int) -> nat
    decreases b,
{
    if b <= 0 {
        0
    } else {
        bits_byte(flags, j, b - 1) + bit_of(flags, j, b - 1)
    }
}

/// 7z bit set: index 0 is the most significant bit of the first byte.
pub open spec fn bits_spec(flags: Seq<bool>) -> Seq<u8> {
    Seq::new((flags.len() + 7) / 8, |j: int| bits_byte(flags, j, 8) as u8)
}

fn bits_of(flags: &Vec<bool>) -> (r: Vec<u8>)
    ensures
        r@ == bits_spec(flags@),
{
    let n = flags.len();
    let nbytes = n / 8 + if n % 8 == 0 { 0 } else { 1 };
    let mut r: Vec<u8> = Vec::new();
    let mut j: usize = 0;
    proof {
        assert(pow2(0) == 1 && pow2(1) == 2 && pow2(2) == 4 && pow2(3) == 8 && pow2(4) == 16
            && pow2(5) == 32 && pow2(6) == 64 && pow2(7) == 128) by {
            reveal_with_fuel(pow2, 8);
        }
    }
    while j < nbytes
        invariant
            j <= nbytes,
            nbytes == (flags@.len() + 7) / 8,
            n == flags.len(),
            r@.len() == j,
            forall|q: int| 0 <= q < j ==> r@[q] == bits_byte(flags@, q, 8) as u8,
            pow2(0) == 1 && pow2(1) == 2 && pow2(2) == 4 && pow2(3) == 8 && pow2(4) == 16
                && pow2(5) == 32 && pow2(6) == 64 && pow2(7) == 128,
        decreases nbytes - j,
    {
        let base = 8 * j;
        let mut acc: u64 = 0;
        let mut b: usize = 0;
        let mut w: u64 = 128;
        while b < 8
            invariant
                b <= 8,
                j < nbytes,
                n == flags.len(),
                nbytes == (flags@.len() + 7) / 8,
                base == 8 * j,
                base < n,
                acc == bits_byte(flags@, j as int, b as int),
                acc + 2 * w <= 256,
                b < 8 ==> w == pow2((7 - b) as nat),
                b == 8 ==> w == 0,
                pow2(0) == 1 && pow2(1) == 2 && pow2(2) == 4 && pow2(3) == 8 && pow2(4) == 16
                    && pow2(5) == 32 && pow2(6) == 64 && pow2(7) == 128,
            decreases 8 - b,
        {
            if b < n - base && flags[base + b] {
                acc = acc + w;
            }
            w = w / 2;
            b = b + 1;
        }
        r.push(acc as u8);
        j = j + 1;
    }
    r
}

/// Bit set in 7z order (most significant bit of the first byte is index 0)
/// over the answers of `is_set` for `0..n`.
pub fn bitset_bytes<F: Fn(usize) -> bool>(n: usize, is_set: F) -> (r: Vec<u8>)
    requires
        forall|i: usize| i < n ==> is_set.requires((i,)),
    ensures
        exists|flags: Seq<bool>|
            flags.len() == n && (forall|i: int| 0 <= i < n ==> #[trigger] is_set.ensures((i as usize,), flags[i]))
                && r@ == bits_spec(flags),
{
    let mut flags: Vec<bool> = Vec::new();
    let mut i: usize = 0;
    while i < n
        invariant
            i <= n,
            flags.len() == i,
            forall|k: usize| k < n ==> is_set.requires((k,)),
            forall|k: int| 0 <= k < i ==> #[trigger] is_set.ensures((k as usize,), flags@[k]),
        decreases n - i,
    {
        let b = is_set(i);
        flags.push(b);
        i = i + 1;
    }
    bits_of(&flags)
}

/// One non-directory file member in a non-solid multi-file 7z.
#[derive(Debug, Clone)]
pub struct HeaderFile {
    pub name: String,
    /// Packed stream size (compressed or stored).
    pub pack_size: u64,
    /// CRC-32 of the pack stream bytes.
    pub pack_crc: u32,
    /// Uncompressed size.
    pub unpack_size: u64,
    /// CRC-32 of the uncompressed content.
    pub content_crc: u32,
    /// Coder method id bytes (e.g. `[0x21]` LZMA2, `[0x00]` Copy).
    pub method_id: Vec<u8>,
    /// Optional coder properties (e.g. the LZMA2 dictionary byte).
    pub method_props: Vec<u8>,
    /// If true, the file has no pack stream (empty file).
    pub empty: bool,
    /// Optional Windows FILETIME mtime; the current time is used when `None`.
    pub mtime: Option<u64>,
}

pub struct FileModel {
    pub name: Seq<char>,
    pub pack_size: u64,
    pub pack_crc: u32,
    pub unpack_size: u64,
    pub content_crc: u32,
    pub method_id: Seq<u8>,
    pub props: Seq<u8>,
    pub empty: bool,
    pub mtime: Option<u64>,
}

impl View for HeaderFile {
    type V = FileModel;

    open spec fn view(&self) -> FileModel {
        FileModel {
            name: self.name@,
            pack_size: self.pack_size,
            pack_crc: self.pack_crc,
            unpack_size: self.unpack_size,
            content_crc: self.content_crc,
            method_id: self.method_id@,
            props: self.method_props@,
            empty: self.empty,
            mtime: self.mtime,
        }
    }
}

pub open spec fn fviews(v: Seq<HeaderFile>) -> Seq<FileModel> {
    v.map_values(|f: HeaderFile| f@)
}

impl HeaderFile {
    /// A non-empty stored (Copy) member.
    pub fn stored(name: String, size: u64, crc: u32) -> (f: Self)
        ensures
            f@ == (FileModel {
                name: name@,
                pack_size: size,
                pack_crc: crc,
                unpack_size: size,
                content_crc: crc,
                method_id: seq![0u8],
                props: Seq::empty(),
                empty: false,
                mtime: None,
            }),
    {
        let f = HeaderFile {
            name,
            pack_size: size,
            pack_crc: crc,
            unpack_size: size,
            content_crc: crc,
            method_id: vec![0u8],
            method_props: Vec::new(),
            empty: false,
            mtime: None,
        };
        assert(f@.method_id =~= seq![0u8]);
        f
    }

    /// An empty member (no pack stream).
    pub fn empty_file(name: String) -> (f: Self)
        ensures
            f@ == (FileModel {
                name: name@,
                pack_size: 0,
                pack_crc: 0,
                unpack_size: 0,
                content_crc: 0,
                method_id: seq![0u8],
                props: Seq::empty(),
                empty: true,
                mtime: None,
            }),
    {
        let f = HeaderFile {
            name,
            pack_size: 0,
            pack_crc: 0,
            unpack_size: 0,
            content_crc: 0,
            method_id: vec![0u8],
            method_props: Vec::new(),
            empty: true,
            mtime: None,
        };
        assert(f@.method_id =~= seq![0u8]);
        f
    }
}

/// The per-file lists of the header, each one entry per file member.
pub enum HeaderField {
    PackSize,
    PackCrc,
    Folder,
    UnpackSize,
    ContentCrc,
    Name,
    /// Modification times, with the FILETIME used where a member has none.
    MTime(u64),
    Attr,
}

/// UTF-16LE of one character (a surrogate pair above the BMP).
pub open spec fn utf16le_char(c: char) -> Seq<u8> {
    let v = (c as u32) as nat;
    if v < 0x10000 {
        le_bytes(v, 2)
    } else {
        le_bytes((0xD800 + (v - 0x10000) / 1024) as nat, 2) + le_bytes((0xDC00 + (v - 0x10000) % 1024) as nat, 2)
    }
}

/// UTF-16LE of a string.
pub open spec fn utf16le(s: Seq<char>) -> Seq<u8>
    decreases s.len(),
{
    if s.len() == 0 {
        Seq::empty()
    } else {
        utf16le(s.drop_last()) + utf16le_char(s.last())
    }
}

/// One coder folder: one coder, its id (`[0x00]` when none is given), flags
/// with the id size in the low nibble and `0x20` when properties follow.
pub open spec fn folder_spec(id: Seq<u8>, props: Seq<u8>) -> Seq<u8> {
    let id2 = if id.len() == 0 { seq![0u8] } else { id };
    let flags: u8 = ((id2.len() % 16) + if props.len() > 0 { 32nat } else { 0nat }) as u8;
    enc_u64(1) + seq![flags] + id2 + if props.len() > 0 {
        enc_u64(props.len()) + props
    } else {
        Seq::empty()
    }
}

/// What one file contributes to a header list.
pub open spec fn field_bytes(k: HeaderField, f: FileModel) -> Seq<u8> {
    match k {
        HeaderField::PackSize => if f.empty { Seq::empty() } else { enc_u64(f.pack_size as nat) },
        HeaderField::PackCrc => if f.empty { Seq::empty() } else { le_bytes(f.pack_crc as nat, 4) },
        HeaderField::Folder => if f.empty { Seq::empty() } else { folder_spec(f.method_id, f.props) },
        HeaderField::UnpackSize => if f.empty { Seq::empty() } else { enc_u64(f.unpack_size as nat) },
        HeaderField::ContentCrc => if f.empty { Seq::empty() } else { le_bytes(f.content_crc as nat, 4) },
        HeaderField::Name => utf16le(f.name) + seq![0u8, 0u8],
        HeaderField::MTime(now) => le_bytes(
            (match f.mtime {
                Some(t) => t,
                None => now,
            }) as nat,
            8,
        ),
        HeaderField::Attr => le_bytes(ATTR_FILE as nat, 4),
    }
}

/// A header list: the contributions of the files, in order.
pub open spec fn each(fs: Seq<FileModel>, k: HeaderField) -> Seq<u8>
    decreases fs.len(),
{
    if fs.len() == 0 {
        Seq::empty()
    } else {
        each(fs.drop_last(), k) + field_bytes(k, fs.last())
    }
}

proof fn lemma_each_step(fs: Seq<FileModel>, i: int, k: HeaderField)
    requires
        0 <= i < fs.len(),
    ensures
        each(fs.take(i + 1), k) == each(fs.take(i), k) + field_bytes(k, fs[i]),
{
    assert(fs.take(i + 1).drop_last() =~= fs.take(i));
}

/// Number of files that have a pack stream.
pub open spec fn count_content(fs: Seq<FileModel>) -> nat
    decreases fs.len(),
{
    if fs.len() == 0 {
        0
    } else {
        count_content(fs.drop_last()) + if fs.last().empty { 0nat } else { 1nat }
    }
}

pub open spec fn pack_info_spec(fs: Seq<FileModel>) -> Seq<u8> {
    seq![K_PACK_INFO] + enc_u64(0) + enc_u64(count_content(fs)) + seq![K_SIZE]
        + each(fs, HeaderField::PackSize) + seq![K_CRC, 1u8] + each(fs, HeaderField::PackCrc)
        + seq![K_END]
}

pub open spec fn unpack_info_spec(fs: Seq<FileModel>) -> Seq<u8> {
    seq![K_UNPACK_INFO, K_FOLDER] + enc_u64(count_content(fs)) + seq![0u8]
        + each(fs, HeaderField::Folder) + seq![K_CODERS_UNPACK_SIZE]
        + each(fs, HeaderField::UnpackSize) + seq![K_END]
}

pub open spec fn substreams_spec(fs: Seq<FileModel>) -> Seq<u8> {
    seq![K_SUB_STREAMS_INFO, K_CRC, 1u8] + each(fs, HeaderField::ContentCrc) + seq![K_END]
}

/// A property block: its length, then its bytes.
pub open spec fn sized(body: Seq<u8>) -> Seq<u8> {
    enc_u64(body.len()) + body
}

pub open spec fn empty_flags(fs: Seq<FileModel>) -> Seq<bool> {
    Seq::new(fs.len(), |i: int| fs[i].empty)
}

pub open spec fn all_set(n: nat) -> Seq<bool> {
    Seq::new(n, |i: int| true)
}

pub open spec fn empty_sets_spec(fs: Seq<FileModel>) -> Seq<u8> {
    let ec = (fs.len() - count_content(fs)) as nat;
    if ec > 0 {
        seq![K_EMPTY_STREAM] + sized(bits_spec(empty_flags(fs))) + seq![K_EMPTY_FILE] + sized(
            bits_spec(all_set(ec)),
        )
    } else {
        Seq::empty()
    }
}

pub open spec fn files_info_spec(fs: Seq<FileModel>, now: u64) -> Seq<u8> {
    seq![K_FILES_INFO] + enc_u64(fs.len()) + empty_sets_spec(fs) + seq![K_NAME] + sized(
        seq![0u8] + each(fs, HeaderField::Name),
    ) + seq![K_M_TIME] + sized(seq![1u8, 0u8] + each(fs, HeaderField::MTime(now)))
        + seq![K_WIN_ATTRIBUTES] + sized(seq![1u8, 0u8] + each(fs, HeaderField::Attr)) + seq![K_END]
}

pub open spec fn main_streams_spec(fs: Seq<FileModel>) -> Seq<u8> {
    if count_content(fs) > 0 {
        pack_info_spec(fs) + unpack_info_spec(fs) + substreams_spec(fs)
    } else {
        Seq::empty()
    }
}

/// The raw header for `fs`, with `now` standing for a missing modification time.
pub open spec fn raw_header_spec(fs: Seq<FileModel>, now: u64) -> Seq<u8> {
    seq![K_HEADER, K_MAIN_STREAMS_INFO] + main_streams_spec(fs) + seq![K_END] + files_info_spec(fs, now)
        + seq![K_END]
}

/// Append the UTF-16LE code units of `s`.
fn push_utf16le(h: &mut Vec<u8>, s: &str)
    ensures
        final(h)@ == old(h)@ + utf16le(s@),
{
    let cs = chars_of(s);
    let ghost h0 = h@;
    let mut k: usize = 0;
    while k < cs.len()
        invariant
            k <= cs.len(),
            cs@ == s@,
            h@ == h0 + utf16le(cs@.take(k as int)),
        decreases cs.len() - k,
    {
        let c = cs[k];
        let v = c as u32;
        assert(cs@.take(k + 1).drop_last() =~= cs@.take(k as int));
        assert(utf16le(cs@.take(k + 1)) == utf16le(cs@.take(k as int)) + utf16le_char(c));
        if v < 0x10000 {
            push_le(h, v as u64, 2);
        } else {
            let w = v - 0x10000;
            push_le(h, (0xD800 + w / 1024) as u64, 2);
            push_le(h, (0xDC00 + w % 1024) as u64, 2);
        }
        assert(h@ =~= h0 + utf16le(cs@.take(k + 1)));
        k = k + 1;
    }
    assert(cs@.take(cs.len() as int) =~= cs@);
}

/// Append one coder folder.
fn write_folder(h: &mut Vec<u8>, method_id: &[u8], props: &[u8]) -> (r: Result<()>)
    ensures
        r is Ok,
        final(h)@ == old(h)@ + folder_spec(method_id@, props@),
{
    let ghost h0 = h@;
    write_u64(h, 1)?;
    let id_len: usize = if method_id.len() == 0 {
        1
    } else {
        method_id.len()
    };
    let mut flags: u8 = (id_len % 16) as u8;
    if props.len() > 0 {
        flags = flags + 0x20;
    }
    h.push(flags);
    if method_id.len() == 0 {
        h.push(0u8);
    } else {
        bextend(h, method_id);
    }
    if props.len() > 0 {
        write_u64(h, props.len() as u64)?;
        bextend(h, props);
    }
    assert(h@ =~= h0 + folder_spec(method_id@, props@));
    Ok(())
}

/// Append what one file contributes to the list `k`.
fn push_field(h: &mut Vec<u8>, f: &HeaderFile, k: &HeaderField) -> (r: Result<()>)
    ensures
        r is Ok,
        final(h)@ == old(h)@ + field_bytes(*k, f@),
{
    let ghost h0 = h@;
    match k {
        HeaderField::PackSize => {
            if !f.empty {
                write_u64(h, f.pack_size)?;
            }
        },
        HeaderField::PackCrc => {
            if !f.empty {
                push_le(h, f.pack_crc as u64, 4);
            }
        },
        HeaderField::Folder => {
            if !f.empty {
                write_folder(h, &f.method_id, &f.method_props)?;
            }
        },
        HeaderField::UnpackSize => {
            if !f.empty {
                write_u64(h, f.unpack_size)?;
            }
        },
        HeaderField::ContentCrc => {
            if !f.empty {
                push_le(h, f.content_crc as u64, 4);
            }
        },
        HeaderField::Name => {
            push_utf16le(h, f.name.as_str());
            h.push(0u8);
            h.push(0u8);
        },
        HeaderField::MTime(now) => {
            let t = match f.mtime {
                Some(t) => t,
                None => *now,
            };
            push_le(h, t, 8);
        },
        HeaderField::Attr => {
            push_le(h, ATTR_FILE as u64, 4);
        },
    }
    assert(h@ =~= h0 + field_bytes(*k, f@));
    Ok(())
}

/// Append the list `k` over all `files`.
fn push_each(h: &mut Vec<u8>, files: &[HeaderFile], k: &HeaderField) -> (r: Result<()>)
    ensures
        r is Ok,
        final(h)@ == old(h)@ + each(fviews(files@), *k),
{
    let ghost fs = fviews(files@);
    let ghost h0 = h@;
    let mut i: usize = 0;
    while i < files.len()
        invariant
            i <= files.len(),
            fs == fviews(files@),
            h@ == h0 + each(fs.take(i as int), *k),
        decreases files.len() - i,
    {
        proof {
            lemma_each_step(fs, i as int, *k);
        }
        push_field(h, &files[i], k)?;
        assert(h@ =~= h0 + each(fs.take(i + 1), *k));
        i = i + 1;
    }
    assert(fs.take(files.len() as int) =~= fs);
    Ok(())
}

/// Number of files with a pack stream.
fn count_content_files(files: &[HeaderFile]) -> (c: usize)
    ensures
        c == count_content(fviews(files@)),
        c <= files.len(),
{
    let ghost fs = fviews(files@);
    let mut c: usize = 0;
    let mut i: usize = 0;
    while i < files.len()
        invariant
            i <= files.len(),
            fs == fviews(files@),
            c == count_content(fs.take(i as int)),
            c <= i,
        decreases files.len() - i,
    {
        assert(fs.take(i + 1).drop_last() =~= fs.take(i as int));
        if !files[i].empty {
            c = c + 1;
        }
        i = i + 1;
    }
    assert(fs.take(files.len() as int) =~= fs);
    c
}

/// Append a property block: its length, then its bytes.
fn write_sized(h: &mut Vec<u8>, body: &[u8]) -> (r: Result<()>)
    ensures
        r is Ok,
        final(h)@ == old(h)@ + sized(body@),
{
    let ghost h0 = h@;
    write_u64(h, body.len() as u64)?;
    bextend(h, body);
    assert(h@ =~= h0 + sized(body@));
    Ok(())
}

fn write_pack_info(h: &mut Vec<u8>, files: &[HeaderFile], cc: usize) -> (r: Result<()>)
    requires
        cc == count_content(fviews(files@)),
    ensures
        r is Ok,
        final(h)@ == old(h)@ + pack_info_spec(fviews(files@)),
{
    let ghost h0 = h@;
    h.push(K_PACK_INFO);
    write_u64(h, 0)?;
    write_u64(h, cc as u64)?;
    h.push(K_SIZE);
    push_each(h, files, &HeaderField::PackSize)?;
    h.push(K_CRC);
    h.push(1u8);
    push_each(h, files, &HeaderField::PackCrc)?;
    h.push(K_END);
    assert(h@ =~= h0 + pack_info_spec(fviews(files@)));
    Ok(())
}

fn write_unpack_info(h: &mut Vec<u8>, files: &[HeaderFile], cc: usize) -> (r: Result<()>)
    requires
        cc == count_content(fviews(files@)),
    ensures
        r is Ok,
        final(h)@ == old(h)@ + unpack_info_spec(fviews(files@)),
{
    let ghost h0 = h@;
    h.push(K_UNPACK_INFO);
    h.push(K_FOLDER);
    write_u64(h, cc as u64)?;
    h.push(0u8);
    push_each(h, files, &HeaderField::Folder)?;
    h.push(K_CODERS_UNPACK_SIZE);
    push_each(h, files, &HeaderField::UnpackSize)?;
    h.push(K_END);
    assert(h@ =~= h0 + unpack_info_spec(fviews(files@)));
    Ok(())
}

fn write_substreams_info(h: &mut Vec<u8>, files: &[HeaderFile]) -> (r: Result<()>)
    ensures
        r is Ok,
        final(h)@ == old(h)@ + substreams_spec(fviews(files@)),
{
    let ghost h0 = h@;
    h.push(K_SUB_STREAMS_INFO);
    h.push(K_CRC);
    h.push(1u8);
    push_each(h, files, &HeaderField::ContentCrc)?;
    h.push(K_END);
    assert(h@ =~= h0 + substreams_spec(fviews(files@)));
    Ok(())
}

/// The empty-stream and empty-file bit sets, present when some file is empty.
fn write_empty_sets(h: &mut Vec<u8>, files: &[HeaderFile], cc: usize) -> (r: Result<()>)
    requires
        cc == count_content(fviews(files@)),
        cc < files.len(),
    ensures
        r is Ok,
        final(h)@ == old(h)@ + seq![K_EMPTY_STREAM] + sized(bits_spec(empty_flags(fviews(files@))))
            + seq![K_EMPTY_FILE] + sized(bits_spec(all_set((files.len() - cc) as nat))),
{
    let ghost fs = fviews(files@);
    let ghost h0 = h@;
    h.push(K_EMPTY_STREAM);
    let n = files.len();
    let is_empty = |i: usize| -> (b: bool)
        requires
            i < files.len(),
        ensures
            b == files@[i as int].empty,
        { files[i].empty };
    let bits = bitset_bytes(n, is_empty);
    proof {
        let flags = choose|flags: Seq<bool>|
            flags.len() == n && (forall|i: int| 0 <= i < n ==> #[trigger] is_empty.ensures((i as usize,), flags[i]))
                && bits@ == bits_spec(flags);
        assert forall|i: int| 0 <= i < n implies flags[i] == fs[i].empty by {
            assert(is_empty.ensures((i as usize,), flags[i]));
        }
        assert(flags =~= empty_flags(fs));
    }
    write_sized(h, &bits)?;
    h.push(K_EMPTY_FILE);
    let m = n - cc;
    let always = |_i: usize| -> (b: bool)
        ensures
            b,
        { true };
    let ones = bitset_bytes(m, always);
    proof {
        let flags = choose|flags: Seq<bool>|
            flags.len() == m && (forall|i: int| 0 <= i < m ==> #[trigger] always.ensures((i as usize,), flags[i]))
                && ones@ == bits_spec(flags);
        assert forall|i: int| 0 <= i < m implies flags[i] by {
            assert(always.ensures((i as usize,), flags[i]));
        }
        assert(flags =~= all_set(m as nat));
    }
    write_sized(h, &ones)?;
    assert(h@ =~= h0 + seq![K_EMPTY_STREAM] + sized(bits_spec(empty_flags(fs))) + seq![K_EMPTY_FILE]
        + sized(bits_spec(all_set(m as nat))));
    Ok(())
}

fn write_files_info(h: &mut Vec<u8>, files: &[HeaderFile], cc: usize, now_ft: u64) -> (r: Result<()>)
    requires
        cc == count_content(fviews(files@)),
        cc <= files.len(),
    ensures
        r is Ok,
        final(h)@ == old(h)@ + files_info_spec(fviews(files@), now_ft),
{
    let ghost fs = fviews(files@);
    let ghost h0 = h@;
    h.push(K_FILES_INFO);
    write_u64(h, files.len() as u64)?;
    let ghost acc = seq![K_FILES_INFO] + enc_u64(fs.len());
    assert(h@ =~= h0 + acc);
    let ghost hp = h@;
    if cc < files.len() {
        write_empty_sets(h, files, cc)?;
    } else {
        assert(empty_sets_spec(fs) =~= Seq::<u8>::empty());
    }
    assert(h@ =~= hp + empty_sets_spec(fs));
    proof {
        vstd::seq_lib::lemma_concat_associative(h0, acc, empty_sets_spec(fs));
    }
    let ghost acc = acc + empty_sets_spec(fs);
    let ghost hp = h@;
    h.push(K_NAME);
    let mut names: Vec<u8> = Vec::new();
    names.push(0u8);
    push_each(&mut names, files, &HeaderField::Name)?;
    write_sized(h, &names)?;
    assert(names@ =~= seq![0u8] + each(fs, HeaderField::Name));
    assert(h@ =~= hp + seq![K_NAME] + sized(names@));
    proof {
        vstd::seq_lib::lemma_concat_associative(h0, acc, seq![K_NAME]);
        vstd::seq_lib::lemma_concat_associative(h0, acc + seq![K_NAME], sized(names@));
    }
    let ghost acc = acc + seq![K_NAME] + sized(names@);
    let ghost hp = h@;
    h.push(K_M_TIME);
    let mut times: Vec<u8> = Vec::new();
    times.push(1u8);
    times.push(0u8);
    push_each(&mut times, files, &HeaderField::MTime(now_ft))?;
    write_sized(h, &times)?;
    assert(times@ =~= seq![1u8, 0u8] + each(fs, HeaderField::MTime(now_ft)));
    assert(h@ =~= hp + seq![K_M_TIME] + sized(times@));
    proof {
        vstd::seq_lib::lemma_concat_associative(h0, acc, seq![K_M_TIME]);
        vstd::seq_lib::lemma_concat_associative(h0, acc + seq![K_M_TIME], sized(times@));
    }
    let ghost acc = acc + seq![K_M_TIME] + sized(times@);
    let ghost hp = h@;
    h.push(K_WIN_ATTRIBUTES);
    let mut attrs: Vec<u8> = Vec::new();
    attrs.push(1u8);
    attrs.push(0u8);
    push_each(&mut attrs, files, &HeaderField::Attr)?;
    write_sized(h, &attrs)?;
    assert(attrs@ =~= seq![1u8, 0u8] + each(fs, HeaderField::Attr));
    assert(h@ =~= hp + seq![K_WIN_ATTRIBUTES] + sized(attrs@));
    proof {
        vstd::seq_lib::lemma_concat_associative(h0, acc, seq![K_WIN_ATTRIBUTES]);
        vstd::seq_lib::lemma_concat_associative(h0, acc + seq![K_WIN_ATTRIBUTES], sized(attrs@));
    }
    let ghost acc = acc + seq![K_WIN_ATTRIBUTES] + sized(attrs@);
    let ghost hp = h@;
    h.push(K_END);
    assert(h@ =~= hp + seq![K_END]);
    proof {
        vstd::seq_lib::lemma_concat_associative(h0, acc, seq![K_END]);
    }
    assert(acc + seq![K_END] == files_info_spec(fs, now_ft));
    Ok(())
}

/// Append the raw header for `files`, with `now_ft` as the modification time
/// of members that carry none.
pub fn write_raw_header_at(h: &mut Vec<u8>, files: &[HeaderFile], now_ft: u64) -> (r: Result<()>)
    ensures
        r is Ok,
        final(h)@ == old(h)@ + raw_header_spec(fviews(files@), now_ft),
{
    let ghost fs = fviews(files@);
    let ghost h0 = h@;
    let cc = count_content_files(files);
    h.push(K_HEADER);
    h.push(K_MAIN_STREAMS_INFO);
    let ghost acc = seq![K_HEADER, K_MAIN_STREAMS_INFO];
    assert(h@ =~= h0 + acc);
    let ghost hp = h@;
    if cc > 0 {
        write_pack_info(h, files, cc)?;
        write_unpack_info(h, files, cc)?;
        write_substreams_info(h, files)?;
        assert(h@ =~= hp + main_streams_spec(fs));
    } else {
        assert(h@ =~= hp + main_streams_spec(fs));
    }
    proof {
        vstd::seq_lib::lemma_concat_associative(h0, acc, main_streams_spec(fs));
    }
    let ghost acc = acc + main_streams_spec(fs);
    let ghost hp = h@;
    h.push(K_END);
    write_files_info(h, files, cc, now_ft)?;
    assert(h@ =~= hp + seq![K_END] + files_info_spec(fs, now_ft));
    proof {
        vstd::seq_lib::lemma_concat_associative(h0, acc, seq![K_END]);
        vstd::seq_lib::lemma_concat_associative(h0, acc + seq![K_END], files_info_spec(fs, now_ft));
    }
    let ghost acc = acc + seq![K_END] + files_info_spec(fs, now_ft);
    let ghost hp = h@;
    h.push(K_END);
    assert(h@ =~= hp + seq![K_END]);
    proof {
        vstd::seq_lib::lemma_concat_associative(h0, acc, seq![K_END]);
    }
    assert(acc + seq![K_END] == raw_header_spec(fs, now_ft));
    Ok(())
}

/// Write raw header bytes (starts with kHeader, ends with the kEnd of the
/// header), timestamping members without an mtime with the current time.
pub fn write_raw_header(h: &mut Vec<u8>, files: &[HeaderFile]) -> (r: Result<()>)
    ensures
        r is Ok,
        exists|secs: u64|
            final(h)@ == old(h)@ + raw_header_spec(fviews(files@), #[trigger] filetime_at(secs) as u64),
{
    let now_ft = filetime_now();
    let ghost secs = choose|secs: u64| now_ft == filetime_at(secs);
    write_raw_header_at(h, files, now_ft)?;
    assert(now_ft == filetime_at(secs) as u64);
    Ok(())
}

/// The fields after the start-header CRC: next-header offset, size and CRC.
pub open spec fn start_tail(offset: u64, size: u64, crc: u32) -> Seq<u8> {
    le_bytes(offset as nat, 8) + le_bytes(size as nat, 8) + le_bytes(crc as nat, 4)
}

/// The 32-byte signature header: signature, version 0.4, the CRC-32 of the
/// tail, then the tail.
pub open spec fn start_header_spec(offset: u64, size: u64, crc: u32) -> Seq<u8> {
    sig_spec() + seq![0u8, 4u8] + le_bytes(crc32_of(start_tail(offset, size, crc)) as nat, 4)
        + start_tail(offset, size, crc)
}

/// Build the start signature header for the given end-header location and CRC.
pub fn write_start_header(next_header_offset: u64, next_header_size: u64, next_header_crc: u32) -> (sig: Vec<u8>)
    ensures
        sig@ == start_header_spec(next_header_offset, next_header_size, next_header_crc),
        sig@.len() == SIG_HEADER_SIZE,
{
    let mut tail: Vec<u8> = Vec::new();
    push_le(&mut tail, next_header_offset, 8);
    push_le(&mut tail, next_header_size, 8);
    push_le(&mut tail, next_header_crc as u64, 4);
    assert(tail@ =~= start_tail(next_header_offset, next_header_size, next_header_crc));
    let start_crc = crc32(&tail);
    let mut sig: Vec<u8> = Vec::new();
    sig.push(0x37u8);
    sig.push(0x7Au8);
    sig.push(0xBCu8);
    sig.push(0xAFu8);
    sig.push(0x27u8);
    sig.push(0x1Cu8);
    sig.push(0u8);
    sig.push(4u8);
    push_le(&mut sig, start_crc as u64, 4);
    bextend(&mut sig, &tail);
    proof {
        lemma_le_len(next_header_offset as nat, 8);
        lemma_le_len(next_header_size as nat, 8);
        lemma_le_len(next_header_crc as nat, 4);
        lemma_le_len(start_crc as nat, 4);
    }
    assert(sig@ =~= start_header_spec(next_header_offset, next_header_size, next_header_crc));
    sig
}

/// Unix seconds as a Windows FILETIME (100 ns ticks since 1601-01-01).
pub open spec fn filetime_spec(secs: u64) -> nat {
    ((secs + 11644473600) * 10000000) as nat
}

/// Largest Unix time whose FILETIME fits in a `u64`.
pub open spec fn max_filetime_secs() -> nat {
    1833029933770
}

/// Convert Unix epoch seconds to a Windows FILETIME.
pub fn filetime_from_unix_secs(secs: u64) -> (ft: u64)
    requires
        secs <= max_filetime_secs(),
    ensures
        ft == filetime_spec(secs),
{
    (secs + 11644473600) * 10000000
}

/// What the clock gives as a FILETIME: the conversion of a Unix time that
/// fits, `u64::MAX` past that.
pub open spec fn filetime_at(secs: u64) -> nat {
    if secs <= max_filetime_secs() {
        filetime_spec(secs)
    } else {
        u64::MAX as nat
    }
}

/// Current time as a Windows FILETIME (saturating far in the future).
pub fn filetime_now() -> (ft: u64)
    ensures
        exists|secs: u64| ft == #[trigger] filetime_at(secs),
{
    let secs = now_unix_secs();
    let ft = if secs <= 1833029933770 {
        filetime_from_unix_secs(secs)
    } else {
        u64::MAX
    };
    assert(ft == filetime_at(secs));
    ft
}

/// The header record of a compressed member and the pack bytes to append:
/// an empty member (no pack) when nothing was packed, else the pack's sizes,
/// checksums and coder, the pack checksum computed over the pack bytes when
/// the pack carries none.
pub fn pack_header_file(name: String, pack: CompressedPack, mtime: Option<u64>) -> (r: (HeaderFile, Vec<u8>))
    ensures
        pack.uncompressed_size == 0 && pack.data@.len() == 0 ==> r.0@ == (FileModel {
            name: name@,
            pack_size: 0,
            pack_crc: 0,
            unpack_size: 0,
            content_crc: 0,
            method_id: seq![0u8],
            props: Seq::empty(),
            empty: true,
            mtime: mtime,
        }) && r.1@.len() == 0,
        !(pack.uncompressed_size == 0 && pack.data@.len() == 0) ==> r.0@ == (FileModel {
            name: name@,
            pack_size: pack.data@.len() as u64,
            pack_crc: if pack.pack_crc != 0 { pack.pack_crc } else { crc32_of(pack.data@) },
            unpack_size: pack.uncompressed_size,
            content_crc: pack.crc32,
            method_id: pack.method_id@,
            props: pack.method_props@,
            empty: false,
            mtime: mtime,
        }) && r.1@ == pack.data@,
{
    if pack.uncompressed_size == 0 && pack.data.len() == 0 {
        let mut hf = HeaderFile::empty_file(name);
        hf.mtime = mtime;
        return (hf, Vec::new());
    }
    let pack_crc = if pack.pack_crc != 0 {
        pack.pack_crc
    } else {
        crc32(pack.data.as_slice())
    };
    let hf = HeaderFile {
        name,
        pack_size: pack.data.len() as u64,
        pack_crc,
        unpack_size: pack.uncompressed_size,
        content_crc: pack.crc32,
        method_id: pack.method_id,
        method_props: pack.method_props,
        empty: false,
        mtime,
    };
    (hf, pack.data)
}

/// The header record of a member stored as-is (Copy method): an empty
/// member when there are no bytes, else both sizes the byte count and both
/// checksums the CRC-32 of the bytes.
pub fn stored_member(name: String, data: &[u8]) -> (f: HeaderFile)
    ensures
        data@.len() == 0 ==> f@ == (FileModel {
            name: name@,
            pack_size: 0,
            pack_crc: 0,
            unpack_size: 0,
            content_crc: 0,
            method_id: seq![0u8],
            props: Seq::empty(),
            empty: true,
            mtime: None,
        }),
        data@.len() > 0 ==> f@ == (FileModel {
            name: name@,
            pack_size: data@.len() as u64,
            pack_crc: crc32_of(data@),
            unpack_size: data@.len() as u64,
            content_crc: crc32_of(data@),
            method_id: seq![0u8],
            props: Seq::empty(),
            empty: false,
            mtime: None,
        }),
{
    if data.len() == 0 {
        HeaderFile::empty_file(name)
    } else {
        HeaderFile::stored(name, data.len() as u64, crc32(data))
    }
}

/// The end header for `files` and the start signature that points at it,
/// when the header is written at byte `header_pos` of the archive (after
/// the 32-byte signature and the packs). An archive without members is
/// refused (`Error::EmptyArchive`).
pub fn end_header(files: &[HeaderFile], header_pos: u64) -> (r: Result<(Vec<u8>, Vec<u8>)>)
    requires
        header_pos >= SIG_HEADER_SIZE,
    ensures
        files@.len() == 0 <==> (r matches Err(e) && e is EmptyArchive),
        files@.len() > 0 ==> (r matches Ok((h, s)) && (exists|secs: u64|
            h@ == raw_header_spec(fviews(files@), #[trigger] filetime_at(secs) as u64))
            && s@ == start_header_spec((header_pos - SIG_HEADER_SIZE) as u64, h@.len() as u64, crc32_of(h@))),
{
    if files.len() == 0 {
        return Err(crate::error::Error::EmptyArchive);
    }
    let mut h: Vec<u8> = Vec::new();
    let ghost h0 = h@;
    write_raw_header(&mut h, files)?;
    proof {
        let secs = choose|secs: u64| h@ == h0 + raw_header_spec(fviews(files@), #[trigger] filetime_at(secs) as u64);
        assert(h0 + raw_header_spec(fviews(files@), filetime_at(secs) as u64) =~= raw_header_spec(
            fviews(files@),
            filetime_at(secs) as u64,
        ));
        assert(h@ == raw_header_spec(fviews(files@), filetime_at(secs) as u64));
    }
    let crc = crc32(&h);
    let s = write_start_header(header_pos - SIG_HEADER_SIZE, h.len() as u64, crc);
    Ok((h, s))
}

/// A stored (Copy) member whose bytes arrive in pieces: the name, the bytes
/// taken in so far and their running CRC-32.
pub struct StoredMember {
    name: String,
    crc: Crc32,
    size: u64,
}

impl View for StoredMember {
    type V = (Seq<char>, Seq<u8>);

    closed spec fn view(&self) -> (Seq<char>, Seq<u8>) {
        (self.name@, self.crc@)
    }
}

impl StoredMember {
    /// The byte count matches the bytes taken in.
    pub closed spec fn wf(&self) -> bool {
        self.size == self.crc@.len()
    }

    /// A member named `name` with no bytes yet.
    pub fn start(name: String) -> (m: Self)
        ensures
            m.wf(),
            m@ == (name@, Seq::<u8>::empty()),
    {
        StoredMember { name, crc: Crc32::new(), size: 0 }
    }

    /// Take in the next piece of the member's bytes.
    pub fn feed(&mut self, b: &[u8])
        requires
            old(self).wf(),
            old(self)@.1.len() + b@.len() <= u64::MAX,
        ensures
            final(self).wf(),
            final(self)@ == (old(self)@.0, old(self)@.1 + b@),
    {
        self.crc.update(b);
        self.size = self.size + b.len() as u64;
    }

    /// The member's header record, as [`stored_member`] gives it for all the
    /// bytes taken in.
    pub fn finish(self) -> (f: HeaderFile)
        requires
            self.wf(),
        ensures
            self@.1.len() == 0 ==> f@ == (FileModel {
                name: self@.0,
                pack_size: 0,
                pack_crc: 0,
                unpack_size: 0,
                content_crc: 0,
                method_id: seq![0u8],
                props: Seq::empty(),
                empty: true,
                mtime: None,
            }),
            self@.1.len() > 0 ==> f@ == (FileModel {
                name: self@.0,
                pack_size: self@.1.len() as u64,
                pack_crc: crc32_of(self@.1),
                unpack_size: self@.1.len() as u64,
                content_crc: crc32_of(self@.1),
                method_id: seq![0u8],
                props: Seq::empty(),
                empty: false,
                mtime: None,
            }),
    {
        let size = self.size;
        let name = self.name;
        if size == 0 {
            HeaderFile::empty_file(name)
        } else {
            let c = self.crc.finalize();
            HeaderFile::stored(name, size, c)
        }
    }
}

} // verus!
