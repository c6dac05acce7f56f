//! Streaming per-member compression: a member's bytes are fed in pieces and
//! its pack comes back in pieces, with the CRCs and sizes the 7z header
//! records. The LZMA2 and Zstd encoders buffer input up to a chunk or block
//! before they encode, so their pack does not depend on how the member is
//! cut into pieces and equals the pack `compress_bytes` makes; the LZ4 frame
//! takes its block size from the first piece.

use crate::archive::sevenz::codec::{
    crc32_of, dict_member_spec, dict_size_for_member, encoded_spec, lemma_dict_member_range, lz4_frame,
    lz4_frame_written, lz4_unframe, lzma2_stream, min9, pack_props, props_spec, zstd_frame, zstd_frame_mt, zstd_level,
    zstd_level_spec, Crc32,
};
use crate::archive::sevenz::header::{FileModel, HeaderFile};
use crate::archive::sevenz::method::{method_id_spec, CompressMethod};
use crate::bytes::bextend;
use crate::error::{Error, Result};
use crate::text::string_from;
use vstd::prelude::*;

verus! {

/// Holds a `lzma_rust2::Lzma2Writer` over a `Vec`. Verus refuses to declare
/// the writer type itself: its `W: std::io::Write` bound names a trait it has
/// no stub for.
#[verifier::external_body]
pub struct Lzma2Sink {
    w: lzma_rust2::Lzma2Writer<Vec<u8>>,
}

/// Holds a `zstd::stream::write::Encoder` over a `Vec` (declaring the type
/// is refused as for [`Lzma2Sink`]).
#[verifier::external_body]
pub struct ZstdSink {
    w: zstd::stream::write::Encoder<'static, Vec<u8>>,
}

/// Holds a `lz4_flex::frame::FrameEncoder` over a `Vec` (declaring the type
/// is refused as for [`Lzma2Sink`]).
#[verifier::external_body]
pub struct Lz4Sink {
    w: lz4_flex::frame::FrameEncoder<Vec<u8>>,
}

/// `lzma_rust2::Lzma2Writer::new` over an empty `Vec` with the preset's
/// options, no chunk limit and dictionary size `dict`.
#[verifier::external_body]
fn lzma2_writer(preset: u32, dict: u32) -> (w: Lzma2Sink)
    requires
        4096 <= dict <= 67108864,
{
    let mut opt = lzma_rust2::Lzma2Options::with_preset(preset);
    opt.chunk_size = None;
    opt.lzma_options.dict_size = dict;
    Lzma2Sink { w: lzma_rust2::Lzma2Writer::new(Vec::new(), opt) }
}

/// `zstd::stream::write::Encoder::new` over an empty `Vec` at `level`, with
/// the frame checksum off and `pledged` bytes announced; libzstd may refuse
/// (for instance when it cannot allocate), and when it does is left unsaid.
#[verifier::external_body]
fn zstd_writer(level: i32, pledged: u64) -> (r: core::result::Result<ZstdSink, String>) {
    let mut enc = zstd::stream::write::Encoder::new(Vec::new(), level).map_err(|e| format!("zstd encoder: {e}"))?;
    enc.include_checksum(false).map_err(|e| format!("zstd checksum: {e}"))?;
    enc.set_pledged_src_size(Some(pledged)).map_err(|e| format!("zstd pledged size: {e}"))?;
    Ok(ZstdSink { w: enc })
}

/// `lz4_flex::frame::FrameEncoder::new` over an empty `Vec`, default settings.
#[verifier::external_body]
fn lz4_writer() -> (w: Lz4Sink) {
    Lz4Sink { w: lz4_flex::frame::FrameEncoder::new(Vec::new()) }
}

/// An LZMA2 stream being written: its view is the bytes fed so far.
pub struct Lzma2Stream {
    w: Lzma2Sink,
    preset: u32,
    dict: u32,
    fed: Ghost<Seq<u8>>,
    emitted: Ghost<Seq<u8>>,
}

impl Lzma2Stream {
    fn new(preset: u32, dict: u32) -> (s: Self)
        requires
            4096 <= dict <= 67108864,
        ensures
            s.fed@ == Seq::<u8>::empty(),
            s.emitted@ == Seq::<u8>::empty(),
            s.preset == preset,
            s.dict == dict,
    {
        Lzma2Stream { w: lzma2_writer(preset, dict), preset, dict, fed: Ghost(Seq::empty()), emitted: Ghost(Seq::empty()) }
    }

    /// `Write::write_all` of `data` into the writer, then the bytes it wrote
    /// into its `Vec` so far taken out. Writing into a `Vec` does not fail.
    #[verifier::external_body]
    fn write(&mut self, data: &[u8]) -> (r: core::result::Result<Vec<u8>, String>)
        ensures
            final(self).preset == old(self).preset,
            final(self).dict == old(self).dict,
            r is Ok,
            r matches Ok(out) ==> final(self).fed@ == old(self).fed@ + data@,
            r matches Ok(out) ==> final(self).emitted@ == old(self).emitted@ + out@,
    {
        std::io::Write::write_all(&mut self.w.w, data).map_err(|e| format!("LZMA2 write: {e}"))?;
        Ok(std::mem::take(self.w.w.inner_mut()))
    }

    /// `Lzma2Writer::finish`: the rest of the stream. What was taken out
    /// before, followed by these bytes, is the stream for the bytes fed.
    #[verifier::external_body]
    fn finish(self) -> (r: core::result::Result<Vec<u8>, String>)
        ensures
            r is Ok,
            r matches Ok(t) ==> self.emitted@ + t@ == lzma2_stream(self.fed@, self.preset, self.dict),
    {
        self.w.w.finish().map_err(|e| format!("LZMA2 finish: {e}"))
    }
}

/// A Zstd frame being written: its view is the bytes fed so far.
pub struct ZstdStream {
    w: ZstdSink,
    level: i32,
    pledged: u64,
    workers: u32,
    fed: Ghost<Seq<u8>>,
    emitted: Ghost<Seq<u8>>,
}

impl ZstdStream {
    fn new(level: i32, pledged: u64) -> (r: core::result::Result<Self, String>)
        ensures
            r matches Ok(s) ==> s.fed@ == Seq::<u8>::empty() && s.emitted@ == Seq::<u8>::empty() && s.level == level
                && s.pledged == pledged && s.workers == 0,
    {
        match zstd_writer(level, pledged) {
            Ok(w) => Ok(
                ZstdStream { w, level, pledged, workers: 0, fed: Ghost(Seq::empty()), emitted: Ghost(Seq::empty()) },
            ),
            Err(m) => Err(m),
        }
    }

    /// `Encoder::multithread`: `n` libzstd worker threads compress the frame.
    /// Set before any input; libzstd may refuse it.
    #[verifier::external_body]
    fn set_workers(&mut self, n: u32) -> (r: core::result::Result<(), String>)
        requires
            old(self).fed@.len() == 0,
            n > 1,
        ensures
            final(self).level == old(self).level,
            final(self).pledged == old(self).pledged,
            final(self).fed@ == old(self).fed@,
            final(self).emitted@ == old(self).emitted@,
            r is Ok ==> final(self).workers == n,
            r is Err ==> final(self).workers == old(self).workers,
    {
        self.w.w.multithread(n).map_err(|e| format!("zstd multithread: {e}"))
    }

    /// `Write::write_all` of `data` into the encoder, then the bytes it wrote
    /// into its `Vec` so far taken out; a libzstd error is passed back.
    #[verifier::external_body]
    fn write(&mut self, data: &[u8]) -> (r: core::result::Result<Vec<u8>, String>)
        ensures
            final(self).level == old(self).level,
            final(self).pledged == old(self).pledged,
            final(self).workers == old(self).workers,
            r matches Ok(out) ==> final(self).fed@ == old(self).fed@ + data@,
            r matches Ok(out) ==> final(self).emitted@ == old(self).emitted@ + out@,
    {
        std::io::Write::write_all(&mut self.w.w, data).map_err(|e| format!("zstd write: {e}"))?;
        Ok(std::mem::take(self.w.w.get_mut()))
    }

    /// `Encoder::finish`: the rest of the frame. When the bytes fed are the
    /// size announced, what was taken out before followed by these bytes is
    /// the frame for them; libzstd refuses a frame of another size.
    #[verifier::external_body]
    fn finish(self) -> (r: core::result::Result<Vec<u8>, String>)
        ensures
            r matches Ok(t) ==> (self.fed@.len() == self.pledged && self.workers == 0 ==> self.emitted@ + t@
                == zstd_frame(self.fed@, self.level)),
            r matches Ok(t) ==> (self.fed@.len() == self.pledged && self.workers > 0 ==> self.emitted@ + t@
                == zstd_frame_mt(self.fed@, self.level, self.workers)),
    {
        self.w.w.finish().map_err(|e| format!("zstd finish: {e}"))
    }
}

/// An LZ4 frame being written: its view is the bytes fed so far.
pub struct Lz4Stream {
    w: Lz4Sink,
    fed: Ghost<Seq<u8>>,
    emitted: Ghost<Seq<u8>>,
    first: Ghost<nat>,
}

impl Lz4Stream {
    fn new() -> (s: Self)
        ensures
            s.fed@ == Seq::<u8>::empty(),
            s.emitted@ == Seq::<u8>::empty(),
            s.first@ == 0,
    {
        Lz4Stream { w: lz4_writer(), fed: Ghost(Seq::empty()), emitted: Ghost(Seq::empty()), first: Ghost(0) }
    }

    /// `Write::write_all` of `data` into the frame encoder, then the bytes it
    /// wrote into its `Vec` so far taken out. Writing into a `Vec` does not
    /// fail. The first bytes written set the frame's block size.
    #[verifier::external_body]
    fn write(&mut self, data: &[u8]) -> (r: core::result::Result<Vec<u8>, String>)
        ensures
            r is Ok,
            old(self).fed@.len() == 0 && data@.len() > 0 ==> final(self).first@ == data@.len(),
            !(old(self).fed@.len() == 0 && data@.len() > 0) ==> final(self).first@ == old(self).first@,
            r matches Ok(out) ==> final(self).fed@ == old(self).fed@ + data@,
            r matches Ok(out) ==> final(self).emitted@ == old(self).emitted@ + out@,
    {
        std::io::Write::write_all(&mut self.w.w, data).map_err(|e| format!("lz4 write: {e}"))?;
        Ok(std::mem::take(self.w.w.get_mut()))
    }

    /// `FrameEncoder::finish`: the rest of the frame. What was taken out
    /// before, followed by these bytes, is the frame for the bytes fed, and
    /// `FrameDecoder` reads it back to them.
    #[verifier::external_body]
    fn finish(self) -> (r: core::result::Result<Vec<u8>, String>)
        ensures
            r is Ok,
            r matches Ok(t) ==> self.emitted@ + t@ == lz4_frame_written(self.fed@, self.first@),
            r matches Ok(t) ==> lz4_unframe(self.emitted@ + t@) == Some(self.fed@),
    {
        self.w.w.finish().map_err(|e| format!("lz4 finish: {e}"))
    }
}

enum PackCoder {
    Lzma2(Lzma2Stream),
    Zstd(ZstdStream),
    Lz4(Lz4Stream),
}

/// Members from this size on may be compressed by several Zstd workers.
pub const ZSTD_MT_MIN_SIZE: u64 = 8388608;

/// Zstd worker threads within one member: the workers asked for when more
/// than one is and the member is Zstd and at least [`ZSTD_MT_MIN_SIZE`];
/// else none (single-threaded).
pub open spec fn member_zstd_workers(method: CompressMethod, workers: u32, known: u64) -> u32 {
    if method is Zstd && workers > 1 && known >= ZSTD_MT_MIN_SIZE {
        workers
    } else {
        0
    }
}

/// Zstd workers a member may use: when members are encoded one at a time,
/// the available cores up to 4 (at least 1); otherwise 1.
pub fn zstd_intra_workers(method: CompressMethod, concurrency: usize, available: u32) -> (w: u32)
    ensures
        w == if method is Zstd && concurrency <= 1 {
            if available > 4 { 4 } else if available < 1 { 1 } else { available }
        } else {
            1
        },
{
    match method {
        CompressMethod::Zstd => {
            if concurrency <= 1 {
                if available > 4 { 4 } else if available < 1 { 1 } else { available }
            } else {
                1
            }
        },
        _ => 1,
    }
}

/// The pack a member's bytes `fed` make when `known` bytes were announced,
/// the first piece held `first` bytes and `workers` Zstd threads were used.
pub open spec fn stream_spec(
    fed: Seq<u8>,
    method: CompressMethod,
    level: u32,
    known: u64,
    first: nat,
    workers: u32,
) -> Seq<u8> {
    match method {
        CompressMethod::Lzma2 => lzma2_stream(fed, min9(level), dict_member_spec(min9(level), known)),
        CompressMethod::Zstd => if workers == 0 {
            zstd_frame(fed, zstd_level_spec(level))
        } else {
            zstd_frame_mt(fed, zstd_level_spec(level), workers)
        },
        CompressMethod::Lz4 => lz4_frame_written(fed, first),
    }
}

/// What the 7z header records of a streamed pack.
pub struct StreamedPack {
    pub method_props: Vec<u8>,
    pub crc32: u32,
    pub uncompressed_size: u64,
    pub pack_crc: u32,
    pub pack_size: u64,
}

/// A member being compressed in pieces: its view is the bytes fed so far.
pub struct PackEncoder {
    coder: PackCoder,
    method: CompressMethod,
    level: u32,
    known: u64,
    content: Crc32,
    pack: Crc32,
    unpack_size: u64,
    pack_size: u64,
    first: Ghost<nat>,
}

impl View for PackEncoder {
    type V = Seq<u8>;

    closed spec fn view(&self) -> Seq<u8> {
        match self.coder {
            PackCoder::Lzma2(s) => s.fed@,
            PackCoder::Zstd(s) => s.fed@,
            PackCoder::Lz4(s) => s.fed@,
        }
    }
}

impl PackEncoder {
    /// The pack bytes handed out so far.
    pub closed spec fn emitted(&self) -> Seq<u8> {
        match self.coder {
            PackCoder::Lzma2(s) => s.emitted@,
            PackCoder::Zstd(s) => s.emitted@,
            PackCoder::Lz4(s) => s.emitted@,
        }
    }

    pub closed spec fn method_spec(&self) -> CompressMethod {
        self.method
    }

    pub closed spec fn level_spec(&self) -> u32 {
        self.level
    }

    /// The member size announced when the encoder was made.
    pub closed spec fn known_spec(&self) -> u64 {
        self.known
    }

    /// The Zstd worker threads the member is compressed by (0: single-threaded).
    pub closed spec fn workers_spec(&self) -> u32 {
        match self.coder {
            PackCoder::Zstd(s) => s.workers,
            _ => 0,
        }
    }

    /// The length of the first non-empty piece fed (0 before one).
    pub closed spec fn first_piece(&self) -> nat {
        self.first@
    }

    /// The coder matches the method, and the running CRCs and sizes cover
    /// what was fed and handed out.
    pub closed spec fn wf(&self) -> bool {
        &&& match self.coder {
            PackCoder::Lzma2(s) => self.method is Lzma2 && s.preset == min9(self.level) && s.dict == dict_member_spec(
                min9(self.level),
                self.known,
            ),
            PackCoder::Zstd(s) => self.method is Zstd && s.level == zstd_level_spec(self.level) && s.pledged
                == self.known && (s.workers == 0 || s.workers > 1),
            PackCoder::Lz4(s) => self.method is Lz4 && s.first@ == self.first@,
        }
        &&& self@.len() == 0 ==> self.first@ == 0
        &&& self.content@ == self@
        &&& self.pack@ == self.emitted()
        &&& self.unpack_size == self@.len()
        &&& self.pack_size == self.emitted().len()
    }

    /// An encoder for a member of `known` bytes with `method` at `level`,
    /// set up as `compress_bytes` sets up its encoder for a member of that
    /// size, with `zstd_workers` Zstd threads where [`member_zstd_workers`]
    /// allows them. Only the Zstd encoder can fail to be made.
    pub fn new(method: CompressMethod, level: u32, known: u64, zstd_workers: u32) -> (r: Result<Self>)
        ensures
            r matches Ok(e) ==> {
                &&& e.wf()
                &&& e@ == Seq::<u8>::empty()
                &&& e.emitted() == Seq::<u8>::empty()
                &&& e.method_spec() == method
                &&& e.level_spec() == level
                &&& e.known_spec() == known
                &&& e.workers_spec() == member_zstd_workers(method, zstd_workers, known)
            },
            r matches Err(e) ==> e is Compress,
            !(method is Zstd) ==> r is Ok,
    {
        let coder = match method {
            CompressMethod::Lzma2 => {
                let lvl = if level > 9 { 9 } else { level };
                let dict = dict_size_for_member(lvl, known);
                proof {
                    lemma_dict_member_range(lvl, known);
                }
                PackCoder::Lzma2(Lzma2Stream::new(lvl, dict))
            },
            CompressMethod::Zstd => match ZstdStream::new(zstd_level(level), known) {
                Ok(s) => {
                    let mut s = s;
                    if zstd_workers > 1 && known >= ZSTD_MT_MIN_SIZE {
                        match s.set_workers(zstd_workers) {
                            Ok(()) => {},
                            Err(m) => return Err(Error::Compress(m)),
                        }
                    }
                    PackCoder::Zstd(s)
                },
                Err(m) => return Err(Error::Compress(m)),
            },
            CompressMethod::Lz4 => PackCoder::Lz4(Lz4Stream::new()),
        };
        let e = PackEncoder {
            coder,
            method,
            level,
            known,
            content: Crc32::new(),
            pack: Crc32::new(),
            unpack_size: 0,
            pack_size: 0,
            first: Ghost(0),
        };
        Ok(e)
    }

    /// Feed member bytes; gives back the pack bytes produced meanwhile.
    /// Fails when the Zstd encoder fails, or when the bytes fed or the pack
    /// bytes handed out would pass `u64::MAX`.
    pub fn feed(&mut self, data: &[u8]) -> (r: Result<Vec<u8>>)
        requires
            old(self).wf(),
        ensures
            final(self).method_spec() == old(self).method_spec(),
            final(self).level_spec() == old(self).level_spec(),
            final(self).known_spec() == old(self).known_spec(),
            final(self).workers_spec() == old(self).workers_spec(),
            r matches Ok(out) ==> {
                &&& final(self).wf()
                &&& final(self)@ == old(self)@ + data@
                &&& final(self).emitted() == old(self).emitted() + out@
                &&& final(self).first_piece() == if old(self)@.len() == 0 && data@.len() > 0 {
                    data@.len()
                } else {
                    old(self).first_piece()
                }
            },
            r matches Err(e) ==> e is Compress,
            r is Err && !(old(self).method_spec() is Zstd) ==> {
                &&& final(self)@ == old(self)@ + data@
                &&& final(self)@.len() > u64::MAX || final(self).emitted().len() > u64::MAX
            },
    {
        let out = match &mut self.coder {
            PackCoder::Lzma2(s) => s.write(data),
            PackCoder::Zstd(s) => s.write(data),
            PackCoder::Lz4(s) => s.write(data),
        };
        let out = match out {
            Ok(o) => o,
            Err(m) => return Err(Error::Compress(m)),
        };
        let dl = data.len() as u64;
        let ol = out.len() as u64;
        if self.unpack_size > u64::MAX - dl || self.pack_size > u64::MAX - ol {
            return Err(Error::Compress(string_from("member or pack size passes u64::MAX")));
        }
        proof {
            if self.content@.len() == 0 && data@.len() > 0 {
                self.first@ = data@.len();
            }
        }
        self.content.update(data);
        self.pack.update(&out);
        self.unpack_size = self.unpack_size + dl;
        self.pack_size = self.pack_size + ol;
        Ok(out)
    }

    /// End the member: the rest of its pack and what the 7z header records
    /// of it. What was handed out before, followed by the rest, is the pack
    /// for the bytes fed; for a member of the size announced it is the pack
    /// `compress_bytes` makes of those bytes. Fails when the Zstd encoder
    /// fails or the pack would pass `u64::MAX` bytes.
    pub fn finish(self) -> (r: Result<(Vec<u8>, StreamedPack)>)
        requires
            self.wf(),
        ensures
            r matches Ok((tail, info)) ==> {
                &&& (self.method_spec() is Zstd ==> self@.len() == self.known_spec()) ==> self.emitted() + tail@
                    == stream_spec(
                    self@,
                    self.method_spec(),
                    self.level_spec(),
                    self.known_spec(),
                    self.first_piece(),
                    self.workers_spec(),
                )
                &&& self.method_spec() is Lz4 ==> lz4_unframe(self.emitted() + tail@) == Some(self@)
                &&& info.crc32 == crc32_of(self@)
                &&& info.uncompressed_size == self@.len()
                &&& info.pack_crc == crc32_of(self.emitted() + tail@)
                &&& info.pack_size == (self.emitted() + tail@).len()
                &&& props_spec(info.method_props@, self.method_spec(), self.level_spec(), self.known_spec())
            },
            r matches Err(e) ==> e is Compress,
            r is Err && !(self.method_spec() is Zstd) ==> stream_spec(
                self@,
                self.method_spec(),
                self.level_spec(),
                self.known_spec(),
                self.first_piece(),
                self.workers_spec(),
            ).len() > u64::MAX,
    {
        let PackEncoder { coder, method, level, known, content, pack, unpack_size, pack_size, first } = self;
        let tail = match coder {
            PackCoder::Lzma2(s) => s.finish(),
            PackCoder::Zstd(s) => s.finish(),
            PackCoder::Lz4(s) => s.finish(),
        };
        let tail = match tail {
            Ok(t) => t,
            Err(m) => return Err(Error::Compress(m)),
        };
        let tl = tail.len() as u64;
        if pack_size > u64::MAX - tl {
            return Err(Error::Compress(string_from("pack size passes u64::MAX")));
        }
        let mut pack = pack;
        pack.update(&tail);
        let info = StreamedPack {
            method_props: pack_props(method, level, known),
            crc32: content.finalize(),
            uncompressed_size: unpack_size,
            pack_crc: pack.finalize(),
            pack_size: pack_size + tl,
        };
        Ok((tail, info))
    }
}

/// Members up to this size are read whole and compressed at once; larger
/// ones are streamed through a [`PackEncoder`].
pub const SMALL_MEMBER_ONESHOT: u64 = 1048576;

/// Whether a member of `size` bytes is read whole rather than streamed.
pub fn reads_whole(size: u64) -> (b: bool)
    ensures
        b == (0 < size <= SMALL_MEMBER_ONESHOT),
{
    0 < size && size <= SMALL_MEMBER_ONESHOT
}

/// The header entry of a streamed member: an empty file when nothing was
/// read and no pack written, else its pack's sizes, CRCs and method.
pub fn streamed_header_file(name: String, method: CompressMethod, info: StreamedPack, mtime: Option<u64>) -> (r: HeaderFile)
    ensures
        info.uncompressed_size == 0 && info.pack_size == 0 ==> r@ == (FileModel {
            name: name@,
            pack_size: 0,
            pack_crc: 0,
            unpack_size: 0,
            content_crc: 0,
            method_id: seq![0u8],
            props: Seq::empty(),
            empty: true,
            mtime: mtime,
        }),
        !(info.uncompressed_size == 0 && info.pack_size == 0) ==> r@ == (FileModel {
            name: name@,
            pack_size: info.pack_size,
            pack_crc: info.pack_crc,
            unpack_size: info.uncompressed_size,
            content_crc: info.crc32,
            method_id: method_id_spec(method),
            props: info.method_props@,
            empty: false,
            mtime: mtime,
        }),
{
    if info.uncompressed_size == 0 && info.pack_size == 0 {
        let mut hf = HeaderFile::empty_file(name);
        hf.mtime = mtime;
        return hf;
    }
    HeaderFile {
        name,
        pack_size: info.pack_size,
        pack_crc: info.pack_crc,
        unpack_size: info.uncompressed_size,
        content_crc: info.crc32,
        method_id: method.method_id(),
        method_props: info.method_props,
        empty: false,
        mtime,
    }
}

/// Law: a member of the size announced, streamed in any pieces, gives the
/// pack `compress_bytes` makes of its bytes at once; for LZ4 the first piece
/// must be the whole member, as the first write sets the frame's block size,
/// and for Zstd the frame must be single-threaded.
pub proof fn lemma_streamed_pack_is_compressed_pack(
    fed: Seq<u8>,
    method: CompressMethod,
    level: u32,
    first: nat,
    workers: u32,
)
    requires
        fed.len() <= u64::MAX,
        method is Lz4 ==> first == fed.len(),
        method is Zstd ==> workers == 0,
    ensures
        stream_spec(fed, method, level, fed.len() as u64, first, workers) == encoded_spec(fed, method, level),
{
    reveal(lz4_frame);
}

} // verus!
