//! Per-member compression for non-solid 7z create (LZMA2 / Zstd / LZ4).
//!
//! Each member is one independent pack. LZMA2 dictionaries are clamped to the
//! member size; Zstd frames carry no checksum (7z stores the content CRC).

use crate::archive::sevenz::method::{method_id_spec, CompressMethod};
use crate::error::{Error, Result};
use vstd::prelude::*;

verus! {

/// One bit of the reflected CRC-32 (IEEE) register update.
pub open spec fn crc_bit(c: u32) -> u32 {
    if c & 1 == 1 {
        (c >> 1u32) ^ 0xEDB8_8320u32
    } else {
        c >> 1u32
    }
}

/// `n` bit updates of the register.
pub open spec fn crc_bits(c: u32, n: nat) -> u32
    decreases n,
{
    if n == 0 {
        c
    } else {
        crc_bits(crc_bit(c), (n - 1) as nat)
    }
}

/// The CRC-32 register after `data`, starting from all ones.
#[verifier::opaque]
pub open spec fn crc_reg(data: Seq<u8>) -> u32
    decreases data.len(),
{
    if data.len() == 0 {
        0xFFFF_FFFFu32
    } else {
        crc_bits(crc_reg(data.drop_last()) ^ (data.last() as u32), 8)
    }
}

/// CRC-32 (IEEE, reflected, polynomial `0xEDB88320`) of a byte sequence, as
/// `crc32fast::hash` computes it: the final register inverted.
pub open spec fn crc32_of(data: Seq<u8>) -> u32 {
    !crc_reg(data)
}

/// Raw LZMA2 stream of `data` from `lzma_rust2` with the preset's options,
/// no chunk limit and the given dictionary size; the writer buffers input in
/// its window before it encodes, so the stream is the same whatever pieces
/// `data` is written in.
pub uninterp spec fn lzma2_stream(data: Seq<u8>, preset: u32, dict: u32) -> Seq<u8>;

/// Zstd frame of `data` at `level`, without frame checksum, with the size
/// pledged, compressed by `workers` (more than one) libzstd worker threads.
pub uninterp spec fn zstd_frame_mt(data: Seq<u8>, level: i32, workers: u32) -> Seq<u8>;

/// Zstd frame of `data` at `level`, without frame checksum, with the size
/// pledged; libzstd gathers input into whole blocks before it compresses, so
/// the frame is the same whatever pieces `data` is written in.
pub uninterp spec fn zstd_frame(data: Seq<u8>, level: i32) -> Seq<u8>;

/// LZ4 frame that `lz4_flex::frame::FrameEncoder` with default settings
/// writes for `data` when its first write holds `first_write` bytes: the
/// frame's block size follows that length (64 KiB up to 64 KiB, 256 KiB up to
/// 256 KiB, else 4 MiB), and later writes only fill blocks.
pub uninterp spec fn lz4_frame_written(data: Seq<u8>, first_write: nat) -> Seq<u8>;

/// LZ4 frame of `data` written at once.
#[verifier::opaque]
pub open spec fn lz4_frame(data: Seq<u8>) -> Seq<u8> {
    lz4_frame_written(data, data.len())
}

/// What `lzma_rust2::Lzma2Reader` with dictionary size `dict` and no preset
/// dictionary reads to the end from `raw`: the decoded bytes, or `None` when
/// `raw` is not a well-formed LZMA2 stream for that dictionary.
pub uninterp spec fn lzma2_unstream(raw: Seq<u8>, dict: u32) -> Option<Seq<u8>>;

/// What `zstd::stream::decode_all` reads from `raw`: the decoded bytes, or
/// `None` when `raw` is not a well-formed sequence of Zstd frames.
pub uninterp spec fn zstd_unframe(raw: Seq<u8>) -> Option<Seq<u8>>;

/// What `lz4_flex::frame::FrameDecoder` reads to the end from `raw`: the
/// decoded bytes, or `None` when `raw` is not a well-formed frame sequence.
pub uninterp spec fn lz4_unframe(raw: Seq<u8>) -> Option<Seq<u8>>;

/// `crc32fast::hash`: the CRC-32 (IEEE) of `data`, as [`crc32_of`] defines it.
#[verifier::external_body]
pub(crate) fn crc32(data: &[u8]) -> (c: u32)
    ensures
        c == crc32_of(data@),
{
    crc32fast::hash(data)
}

/// `lzma_rust2::Lzma2Writer` over a `Vec`: the stream for `data`. The
/// dictionary must lie between 4 KiB and 64 MiB (the encoder computes
/// `dict - 1` and `dict + 1` in 32 bits); writing into a `Vec` and finishing
/// do not fail, so the stream is always returned, and `Lzma2Reader` with the
/// same dictionary size reads it back to `data`.
#[verifier::external_body]
fn lzma2_encode(data: &[u8], preset: u32, dict: u32) -> (r: core::result::Result<Vec<u8>, String>)
    requires
        4096 <= dict <= 67108864,
    ensures
        r is Ok,
        r matches Ok(v) ==> v@ == lzma2_stream(data@, preset, dict),
        r matches Ok(v) ==> lzma2_unstream(v@, dict) == Some(data@),
{
    let mut opt = lzma_rust2::Lzma2Options::with_preset(preset);
    opt.chunk_size = None;
    opt.lzma_options.dict_size = dict;
    let mut enc = lzma_rust2::Lzma2Writer::new(Vec::new(), opt);
    std::io::Write::write_all(&mut enc, data).map_err(|e| format!("LZMA2 write: {e}"))?;
    enc.finish().map_err(|e| format!("LZMA2 finish: {e}"))
}

/// `zstd::stream::write::Encoder` over a `Vec` with the frame checksum off and
/// the input size pledged: the frame for `data`; an encoder error (libzstd
/// reports one, for instance, when it cannot allocate) is passed back, and when
/// that happens is left unsaid. A frame it gives decodes back to `data`.
#[verifier::external_body]
fn zstd_encode(data: &[u8], level: i32) -> (r: core::result::Result<Vec<u8>, String>)
    ensures
        r matches Ok(v) ==> v@ == zstd_frame(data@, level),
        r matches Ok(v) ==> zstd_unframe(v@) == Some(data@),
{
    let mut enc = zstd::stream::write::Encoder::new(Vec::new(), level).map_err(|e| format!("zstd encoder: {e}"))?;
    enc.include_checksum(false).map_err(|e| format!("zstd checksum: {e}"))?;
    enc.set_pledged_src_size(Some(data.len() as u64)).map_err(|e| format!("zstd pledged size: {e}"))?;
    std::io::Write::write_all(&mut enc, data).map_err(|e| format!("zstd write: {e}"))?;
    enc.finish().map_err(|e| format!("zstd finish: {e}"))
}

/// `lz4_flex::frame::FrameEncoder` over a `Vec` with default frame settings
/// (no declared content size): the frame for `data`. Writing into a `Vec`
/// and finishing do not fail, so the frame is always returned, and
/// `FrameDecoder` reads it back to `data`.
#[verifier::external_body]
pub(crate) fn lz4_encode(data: &[u8]) -> (r: core::result::Result<Vec<u8>, String>)
    ensures
        r is Ok,
        r matches Ok(v) ==> v@ == lz4_frame(data@),
        r matches Ok(v) ==> lz4_unframe(v@) == Some(data@),
{
    let mut enc = lz4_flex::frame::FrameEncoder::new(Vec::new());
    std::io::Write::write_all(&mut enc, data).map_err(|e| format!("lz4 write: {e}"))?;
    enc.finish().map_err(|e| format!("lz4 finish: {e}"))
}

/// Declares `crc32fast::Hasher` for use in the library.
#[verifier::external_type_specification]
#[verifier::external_body]
pub struct ExCrcHasher(crc32fast::Hasher);

/// A running CRC-32 over bytes given in pieces; its view is the bytes taken
/// in so far.
pub struct Crc32 {
    h: crc32fast::Hasher,
    seen: Ghost<Seq<u8>>,
}

impl View for Crc32 {
    type V = Seq<u8>;

    closed spec fn view(&self) -> Seq<u8> {
        self.seen@
    }
}

impl Crc32 {
    /// `crc32fast::Hasher::new`: a hasher that has taken in nothing.
    #[verifier::external_body]
    pub(crate) fn new() -> (c: Self)
        ensures
            c@ == Seq::<u8>::empty(),
    {
        Crc32 { h: crc32fast::Hasher::new(), seen: Ghost(Seq::empty()) }
    }

    /// `crc32fast::Hasher::update`: takes in `b` after what came before.
    #[verifier::external_body]
    pub(crate) fn update(&mut self, b: &[u8])
        ensures
            final(self)@ == old(self)@ + b@,
    {
        self.h.update(b)
    }

    /// `crc32fast::Hasher::finalize`: the CRC-32 of all the bytes taken in,
    /// the same value `crc32fast::hash` gives for them at once.
    #[verifier::external_body]
    pub(crate) fn finalize(self) -> (c: u32)
        ensures
            c == crc32_of(self@),
    {
        self.h.finalize()
    }
}

/// The linked libzstd version `(major, minor)` as `zstd::zstd_safe` reports it.
/// Nothing is claimed of the values.
#[verifier::external_body]
fn zstd_version() -> (v: (u8, u8)) {
    (zstd::zstd_safe::VERSION_MAJOR as u8, zstd::zstd_safe::VERSION_MINOR as u8)
}

pub open spec fn min9(level: u32) -> u32 {
    if level > 9 {
        9
    } else {
        level
    }
}

/// LZMA2 dictionary size for levels 0–9 (an upper bound per member).
pub open spec fn dict_level_spec(level: u32) -> u32 {
    let l = min9(level);
    if l == 0 {
        65536
    } else if l == 1 {
        65536
    } else if l == 2 {
        262144
    } else if l == 3 {
        1048576
    } else if l == 4 {
        1048576
    } else if l == 5 {
        4194304
    } else if l == 6 {
        8388608
    } else if l == 7 {
        16777216
    } else if l == 8 {
        33554432
    } else {
        67108864
    }
}

/// Dict size for LZMA2 levels 0–9 (upper bound; see [`dict_size_for_member`]).
pub fn dict_size_for_level(level: u32) -> (d: u32)
    ensures
        d == dict_level_spec(level),
{
    let l = if level > 9 { 9 } else { level };
    if l == 0 {
        65536
    } else if l == 1 {
        65536
    } else if l == 2 {
        262144
    } else if l == 3 {
        1048576
    } else if l == 4 {
        1048576
    } else if l == 5 {
        4194304
    } else if l == 6 {
        8388608
    } else if l == 7 {
        16777216
    } else if l == 8 {
        33554432
    } else {
        67108864
    }
}

/// Smallest power of two `>= x`, counting up from the power of two `p`.
pub open spec fn next_pow2_from(x: nat, p: nat) -> nat
    decreases (if p < x { x - p } else { 0 }),
{
    if p >= x || p == 0 {
        p
    } else {
        next_pow2_from(x, 2 * p)
    }
}

/// Dictionary for one member: the next power of two above the size,
/// clamped to at least 4 KiB and at most the level's dictionary.
pub open spec fn dict_member_spec(level: u32, size: u64) -> u32 {
    let full = dict_level_spec(level);
    if size == 0 {
        4096
    } else {
        let x: nat = if size == u64::MAX { size as nat } else { (size + 1) as nat };
        let need = next_pow2_from(x, 1);
        if need < 4096 {
            4096
        } else if need > full {
            full
        } else {
            need as u32
        }
    }
}

proof fn lemma_next_pow2_ge(x: nat, p: nat)
    requires
        p >= 1,
    ensures
        next_pow2_from(x, p) >= x,
        next_pow2_from(x, p) >= p,
    decreases (if p < x { x - p } else { 0 }),
{
    if p < x {
        lemma_next_pow2_ge(x, 2 * p);
    }
}

/// A member's dictionary lies between 4 KiB and 64 MiB.
pub proof fn lemma_dict_member_range(level: u32, size: u64)
    ensures
        4096 <= dict_member_spec(level, size) <= 67108864,
{
    assert(65536 <= dict_level_spec(level) <= 67108864);
}

/// LZMA2 dictionary for a member of `uncompressed_size` bytes at `level`.
pub fn dict_size_for_member(level: u32, uncompressed_size: u64) -> (d: u32)
    ensures
        d == dict_member_spec(level, uncompressed_size),
{
    let full = dict_size_for_level(level);
    if uncompressed_size == 0 {
        return 4096;
    }
    if uncompressed_size >= full as u64 {
        proof {
            let x: nat = if uncompressed_size == u64::MAX { uncompressed_size as nat } else { (uncompressed_size + 1) as nat };
            lemma_next_pow2_ge(x, 1);
        }
        return full;
    }
    let x = uncompressed_size + 1;
    let mut p: u64 = 1;
    while p < x
        invariant
            1 <= p <= 2 * x,
            x <= 67108864,
            next_pow2_from(x as nat, 1) == next_pow2_from(x as nat, p as nat),
        decreases 2 * x - p,
    {
        p = p * 2;
    }
    if p < 4096 {
        4096
    } else if p > full as u64 {
        full
    } else {
        p as u32
    }
}

/// `floor(log2(n))` for `n >= 1`.
pub open spec fn log2_floor(n: nat) -> nat
    decreases n,
{
    if n < 2 {
        0
    } else {
        1 + log2_floor(n / 2)
    }
}

pub open spec fn pow2(k: nat) -> nat
    decreases k,
{
    if k == 0 {
        1
    } else {
        2 * pow2((k - 1) as nat)
    }
}

/// The LZMA2 dictionary property byte 7-Zip stores: with the size clamped to
/// `[4096, 0xFFFF_FFF0]` and `k` its highest bit, `2 (k - 12)` plus the next bit.
pub open spec fn dict_prop_spec(dict: u32) -> u8 {
    let d: nat = if dict < 4096 { 4096 } else if dict > 0xFFFF_FFF0 { 0xFFFF_FFF0 } else { dict as nat };
    let k = log2_floor(d);
    (2 * (k - 12) + (d / pow2((k - 1) as nat) - 2)) as u8
}

proof fn lemma_log2_bounds(n: nat)
    requires
        n >= 1,
    ensures
        pow2(log2_floor(n)) <= n < 2 * pow2(log2_floor(n)),
    decreases n,
{
    if n >= 2 {
        lemma_log2_bounds(n / 2);
    }
}

/// Encode a dictionary size as the single LZMA2 property byte used by 7-Zip.
pub fn lzma2_dict_prop(dict_size: u32) -> (p: u8)
    ensures
        p == dict_prop_spec(dict_size),
{
    let d: u64 = if dict_size < 4096 { 4096 } else if dict_size > 0xFFFF_FFF0 { 0xFFFF_FFF0 } else { dict_size as u64 };
    let mut k: u64 = 0;
    let mut t: u64 = d;
    proof {
        lemma_log2_bounds(d as nat);
        if log2_floor(d as nat) > 31 {
            lemma_pow2_mono(32, log2_floor(d as nat));
            assert(pow2(32) == 4294967296) by {
                reveal_with_fuel(pow2, 33);
            }
        }
        assert(pow2(0) == 1);
        assert(t * pow2(0) == t);
    }
    while t >= 2
        invariant
            1 <= t <= d,
            d <= 0xFFFF_FFF0,
            k + log2_floor(t as nat) == log2_floor(d as nat),
            log2_floor(d as nat) <= 31,
            k <= 32,
            t * pow2(k as nat) <= d,
        decreases t,
    {
        assert(t / 2 * pow2((k + 1) as nat) <= d) by (nonlinear_arith)
            requires
                t * pow2(k as nat) <= d,
                pow2((k + 1) as nat) == 2 * pow2(k as nat),
        ;
        assert(pow2(k as nat) >= 1) by {
            lemma_pow2_pos(k as nat);
        }
        t = t / 2;
        k = k + 1;
    }
    proof {
        lemma_log2_bounds(d as nat);
        assert(k >= 12) by {
            if k < 12 {
                lemma_pow2_mono(k as nat + 1, 12);
                assert(pow2(12) == 4096) by {
                    reveal_with_fuel(pow2, 13);
                }
            }
        }
        assert(k <= 31) by {
            if k >= 32 {
                lemma_pow2_mono(32, k as nat);
                assert(pow2(32) == 4294967296) by {
                    reveal_with_fuel(pow2, 33);
                }
            }
        }
    }
    let mut q: u64 = 1;
    let mut i: u64 = 0;
    while i + 1 < k
        invariant
            i + 1 <= k <= 31,
            q == pow2(i as nat),
        decreases k - i,
    {
        proof {
            lemma_pow2_mono((i + 1) as nat, 31);
            assert(pow2(31) == 2147483648) by {
                reveal_with_fuel(pow2, 32);
            }
        }
        q = q * 2;
        i = i + 1;
    }
    let top = d / q;
    proof {
        assert(pow2((k - 1) as nat) * 2 == pow2(k as nat));
        assert(2 <= top < 4) by (nonlinear_arith)
            requires
                pow2((k - 1) as nat) * 2 <= d < 2 * (pow2((k - 1) as nat) * 2),
                top == (d as nat) / pow2((k - 1) as nat),
                pow2((k - 1) as nat) >= 1,
        ;
    }
    (2 * (k - 12) + (top - 2)) as u8
}

proof fn lemma_pow2_pos(k: nat)
    ensures
        pow2(k) >= 1,
    decreases k,
{
    if k > 0 {
        lemma_pow2_pos((k - 1) as nat);
    }
}

proof fn lemma_pow2_mono(a: nat, b: nat)
    requires
        a <= b,
    ensures
        pow2(a) <= pow2(b),
    decreases b,
{
    lemma_pow2_pos(b);
    if a < b {
        lemma_pow2_mono(a, (b - 1) as nat);
    }
}

/// Name of the LZMA2 encode backend.
pub fn lzma2_backend_name() -> (s: &'static str)
    ensures
        s@ == seq!['l', 'z', 'm', 'a', '-', 'r', 'u', 's', 't', '2'],
{
    proof {
        reveal_strlit("lzma-rust2");
    }
    "lzma-rust2"
}

/// Whether a high-compression LZ4 backend is built in (it is not).
pub fn lz4_hc_available() -> (b: bool)
    ensures
        !b,
{
    false
}

/// Zstd level for create levels 0–9 (about 1–19).
pub open spec fn zstd_level_spec(level: u32) -> i32 {
    let l = min9(level);
    if l <= 1 {
        1
    } else if l == 2 {
        2
    } else if l == 3 {
        3
    } else if l == 4 {
        5
    } else if l == 5 {
        7
    } else if l == 6 {
        9
    } else if l == 7 {
        12
    } else if l == 8 {
        15
    } else {
        19
    }
}

/// Map create level 0–9 to a Zstd level.
pub fn zstd_level(level: u32) -> (z: i32)
    ensures
        z == zstd_level_spec(level),
{
    let l = if level > 9 { 9 } else { level };
    if l <= 1 {
        1
    } else if l == 2 {
        2
    } else if l == 3 {
        3
    } else if l == 4 {
        5
    } else if l == 5 {
        7
    } else if l == 6 {
        9
    } else if l == 7 {
        12
    } else if l == 8 {
        15
    } else {
        19
    }
}

/// LZ4 level byte stored in the 7z method properties: the level clamped to 1–12.
pub fn lz4_level_byte(level: u32) -> (b: u8)
    ensures
        b == (if level < 1 { 1 } else if level > 12 { 12 } else { level }),
{
    if level < 1 {
        1
    } else if level > 12 {
        12
    } else {
        level as u8
    }
}

/// Compressed pack payload ready for a non-solid 7z member.
#[derive(Debug, Clone)]
pub struct CompressedPack {
    pub data: Vec<u8>,
    pub method_id: Vec<u8>,
    pub method_props: Vec<u8>,
    pub crc32: u32,
    pub uncompressed_size: u64,
    /// CRC of `data` (the pack stream).
    pub pack_crc: u32,
}

/// The encoded stream `compress_bytes` asks for.
pub open spec fn encoded_spec(input: Seq<u8>, method: CompressMethod, level: u32) -> Seq<u8> {
    match method {
        CompressMethod::Lzma2 => lzma2_stream(
            input,
            min9(level),
            dict_member_spec(min9(level), input.len() as u64),
        ),
        CompressMethod::Zstd => zstd_frame(input, zstd_level_spec(level)),
        CompressMethod::Lz4 => lz4_frame(input),
    }
}

/// What a pack holds for `input`, given its encoded stream `data`.
pub open spec fn pack_spec(p: CompressedPack, input: Seq<u8>, method: CompressMethod, level: u32, data: Seq<u8>) -> bool {
    &&& p.data@ == data
    &&& p.method_id@ == method_id_spec(method)
    &&& p.crc32 == crc32_of(input)
    &&& p.uncompressed_size == input.len()
    &&& p.pack_crc == crc32_of(data)
    &&& props_spec(p.method_props@, method, level, input.len() as u64)
}

/// The method properties 7z stores for a member of `size` bytes: the LZMA2
/// dictionary byte; the libzstd version and the level; the LZ4 version and level.
pub open spec fn props_spec(props: Seq<u8>, method: CompressMethod, level: u32, size: u64) -> bool {
    match method {
        CompressMethod::Lzma2 => props == seq![dict_prop_spec(dict_member_spec(min9(level), size))],
        CompressMethod::Zstd => props.len() == 3 && props[2] == (if zstd_level_spec(level) > 22 { 22 } else { zstd_level_spec(level) }) as u8,
        CompressMethod::Lz4 => props == seq![1u8, 0u8, (if level < 1 { 1 } else if level > 12 { 12 } else { level }) as u8],
    }
}

/// The method properties for a member of `size` bytes at `level`.
pub fn pack_props(method: CompressMethod, level: u32, size: u64) -> (v: Vec<u8>)
    ensures
        props_spec(v@, method, level, size),
{
    match method {
        CompressMethod::Lzma2 => {
            let lvl = if level > 9 { 9 } else { level };
            let dict = dict_size_for_member(lvl, size);
            let v = vec![lzma2_dict_prop(dict)];
            proof {
                assert(v@ =~= seq![dict_prop_spec(dict_member_spec(min9(level), size))]);
            }
            v
        },
        CompressMethod::Zstd => {
            let z = zstd_level(level);
            let (maj, min) = zstd_version();
            let lv: u8 = if z > 22 { 22 } else { z as u8 };
            vec![maj, min, lv]
        },
        CompressMethod::Lz4 => {
            let v = vec![1u8, 0u8, lz4_level_byte(level)];
            proof {
                assert(v@ =~= seq![1u8, 0u8, (if level < 1 { 1 } else if level > 12 { 12 } else { level }) as u8]);
            }
            v
        },
    }
}

/// Assemble the pack for `input` from the encoder's outcome: the stream with
/// its method id, properties and CRCs, or `Error::Compress` with the message.
pub fn assemble_pack(
    input: &[u8],
    method: CompressMethod,
    level: u32,
    encoded: core::result::Result<Vec<u8>, String>,
) -> (r: Result<CompressedPack>)
    ensures
        match encoded {
            Ok(v) => r matches Ok(p) && pack_spec(p, input@, method, level, v@),
            Err(_) => r matches Err(e) && e is Compress,
        },
{
    let data = match encoded {
        Ok(v) => v,
        Err(m) => {
            return Err(Error::Compress(m));
        },
    };
    let props = pack_props(method, level, input.len() as u64);
    let crc = crc32(input);
    let pack_crc = crc32(&data);
    let p = CompressedPack {
        data,
        method_id: method.method_id(),
        method_props: props,
        crc32: crc,
        uncompressed_size: input.len() as u64,
        pack_crc,
    };
    Ok(p)
}

/// Compress bytes with the selected method into one pack holding the
/// encoder's stream, which its method's decoder reads back to `input` (LZMA2
/// with the member's dictionary). LZMA2 and LZ4 always succeed; the zstd
/// encoder may fail (`Error::Compress`).
pub fn compress_bytes(input: &[u8], method: CompressMethod, level: u32) -> (r: Result<CompressedPack>)
    ensures
        r matches Ok(p) ==> pack_spec(p, input@, method, level, encoded_spec(input@, method, level)),
        r matches Err(e) ==> e is Compress,
        !(method is Zstd) ==> r is Ok,
        method is Lz4 ==> (r matches Ok(p) ==> lz4_unframe(p.data@) == Some(input@)),
        method is Zstd ==> (r matches Ok(p) ==> zstd_unframe(p.data@) == Some(input@)),
        method is Lzma2 ==> (r matches Ok(p) ==> lzma2_unstream(
            p.data@,
            dict_member_spec(min9(level), input@.len() as u64),
        ) == Some(input@)),
        method is Lzma2 ==> (r matches Ok(p) ==> {
            &&& p.method_props@.len() == 1
            &&& p.method_props@[0] <= 39
            &&& lzma2_unstream(p.data@, dict_of_prop(p.method_props@[0]) as u32) == Some(input@)
        }),
{
    proof {
        lemma_member_dict_prop(min9(level), input@.len() as u64);
    }
    let encoded = match method {
        CompressMethod::Lzma2 => {
            let lvl = if level > 9 { 9 } else { level };
            let dict = dict_size_for_member(lvl, input.len() as u64);
            proof {
                lemma_dict_member_range(lvl, input.len() as u64);
            }
            lzma2_encode(input, lvl, dict)
        },
        CompressMethod::Zstd => zstd_encode(input, zstd_level(level)),
        CompressMethod::Lz4 => lz4_encode(input),
    };
    assemble_pack(input, method, level, encoded)
}

/// Doubling from a power of two `2^j` up to `x` stops at a power of two
/// `2^k` with `k >= j`.
proof fn lemma_next_pow2_is_pow2(x: nat, j: nat) -> (k: nat)
    ensures
        k >= j,
        next_pow2_from(x, pow2(j)) == pow2(k),
    decreases (if pow2(j) < x { x - pow2(j) } else { 0 }),
{
    lemma_pow2_pos(j);
    if pow2(j) < x {
        assert(pow2(j + 1) == 2 * pow2(j));
        lemma_next_pow2_is_pow2(x, j + 1)
    } else {
        j
    }
}

/// A member's dictionary is a power of two `2^k` with `12 <= k <= 26`.
proof fn lemma_dict_member_pow2(level: u32, size: u64) -> (k: nat)
    ensures
        12 <= k <= 26,
        dict_member_spec(level, size) == pow2(k),
{
    reveal_with_fuel(pow2, 27);
    let full = dict_level_spec(level);
    if size == 0 {
        12
    } else {
        let x: nat = if size == u64::MAX { size as nat } else { (size + 1) as nat };
        assert(pow2(0) == 1);
        let j = lemma_next_pow2_is_pow2(x, 0);
        let need = next_pow2_from(x, 1);
        if need < 4096 {
            12
        } else if need > full {
            let l = min9(level);
            if l <= 1 { 16 } else if l == 2 { 18 } else if l <= 4 { 20 } else if l == 5 { 22 } else if l == 6 { 23 }
            else if l == 7 { 24 } else if l == 8 { 25 } else { 26 }
        } else {
            if j < 12 {
                lemma_pow2_mono(j, 11);
            }
            if j > 26 {
                lemma_pow2_mono(27, j);
            }
            j
        }
    }
}

/// Law: the property byte of an LZMA2 member's dictionary is below 40 and
/// stands for that dictionary exactly.
pub proof fn lemma_member_dict_prop(level: u32, size: u64)
    ensures
        dict_prop_spec(dict_member_spec(level, size)) <= 39,
        dict_of_prop(dict_prop_spec(dict_member_spec(level, size))) == dict_member_spec(level, size),
{
    let k = lemma_dict_member_pow2(level, size);
    lemma_dict_prop_roundtrip(k);
}

/// The dictionary size a 7-Zip LZMA2 property byte stands for (below 40):
/// `2` or `3` times `2^(p / 2 + 11)` as the byte is even or odd.
pub open spec fn dict_of_prop(p: u8) -> nat {
    ((2 + p % 2) * pow2((p / 2 + 11) as nat)) as nat
}

proof fn lemma_log2_pow2(k: nat)
    ensures
        log2_floor(pow2(k)) == k,
    decreases k,
{
    if k > 0 {
        lemma_pow2_pos((k - 1) as nat);
        lemma_log2_pow2((k - 1) as nat);
        assert(pow2(k) / 2 == pow2((k - 1) as nat));
    }
}

/// Law: the property byte of a power-of-two dictionary from 4 KiB to 2 GiB
/// (the sizes the member dictionaries take) decodes back to that size.
pub proof fn lemma_dict_prop_roundtrip(k: nat)
    requires
        12 <= k <= 31,
    ensures
        dict_prop_spec(pow2(k) as u32) <= 39,
        dict_of_prop(dict_prop_spec(pow2(k) as u32)) == pow2(k),
{
    lemma_pow2_mono(12, k);
    lemma_pow2_mono(k, 31);
    assert(pow2(12) == 4096) by {
        reveal_with_fuel(pow2, 13);
    }
    assert(pow2(31) == 2147483648) by {
        reveal_with_fuel(pow2, 32);
    }
    lemma_log2_pow2(k);
    lemma_pow2_pos((k - 1) as nat);
    assert(pow2(k) == 2 * pow2((k - 1) as nat));
    assert(pow2(k) / pow2((k - 1) as nat) == 2) by (nonlinear_arith)
        requires
            pow2(k) == 2 * pow2((k - 1) as nat),
            pow2((k - 1) as nat) > 0,
    ;
    let p = dict_prop_spec(pow2(k) as u32);
    assert(p == 2 * (k - 12));
    assert(p % 2 == 0);
    assert(p / 2 + 11 == k - 1);
}

proof fn lemma_log2_three(j: nat)
    ensures
        log2_floor(3 * pow2(j)) == j + 1,
    decreases j,
{
    if j == 0 {
        assert(pow2(0) == 1);
        assert(log2_floor(3) == 1 + log2_floor(1));
    } else {
        lemma_pow2_pos((j - 1) as nat);
        lemma_log2_three((j - 1) as nat);
        assert(3 * pow2(j) == 2 * (3 * pow2((j - 1) as nat)));
        assert((3 * pow2(j)) / 2 == 3 * pow2((j - 1) as nat));
    }
}

/// Law: the property byte of a dictionary of three times a power of two,
/// from 6 KiB to 3 GiB (`0xC000_0000`) (the other sizes 7-Zip's property byte can stand
/// for), decodes back to that size.
pub proof fn lemma_dict_prop_roundtrip_three(k: nat)
    requires
        12 <= k <= 31,
    ensures
        dict_prop_spec((3 * pow2((k - 1) as nat)) as u32) <= 39,
        dict_of_prop(dict_prop_spec((3 * pow2((k - 1) as nat)) as u32)) == 3 * pow2((k - 1) as nat),
{
    let j = (k - 1) as nat;
    lemma_pow2_mono(11, j);
    lemma_pow2_mono(j, 30);
    assert(pow2(11) == 2048) by {
        reveal_with_fuel(pow2, 12);
    }
    assert(pow2(30) == 1073741824) by {
        reveal_with_fuel(pow2, 31);
    }
    let d = 3 * pow2(j);
    assert(2048 <= pow2(j) <= 1073741824);
    assert(6144 <= d <= 0xC000_0000) by (nonlinear_arith)
        requires
            2048 <= pow2(j) <= 1073741824,
            d == 3 * pow2(j),
    ;
    lemma_log2_three(j);
    lemma_pow2_pos(j);
    assert(d / pow2(j) == 3) by (nonlinear_arith)
        requires
            d == 3 * pow2(j),
            pow2(j) > 0,
    ;
    assert((d as u32) as nat == d);
    let p = dict_prop_spec(d as u32);
    assert(p == 2 * (k - 12) + 1);
    assert(p % 2 == 1);
    assert(p / 2 + 11 == j);
}

} // verus!
