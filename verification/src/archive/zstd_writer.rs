//! Seekable Zstd encoding through `zeekstd`: the payload bytes are fed in
//! pieces and the encoded archive comes back in pieces, frames cut by their
//! uncompressed size and the seek table at the end.

use crate::archive::seekable_zstd::{member_header, member_header_spec, zindex_bytes, SeekableLayout, ZEntryModel};
use crate::bytes::{bextend, le_bytes};
use crate::error::{Error, Result};
use crate::text::{string_from, utf8};
use vstd::prelude::*;
use vstd::slice::slice_subrange;

verus! {

/// Declares `zeekstd::RawEncoder` for use in the library.
#[verifier::external_type_specification]
#[verifier::external_body]
pub struct ExRawEncoder<'a>(zeekstd::RawEncoder<'a>);

/// The seekable Zstd archive `zeekstd` writes for `data` with content
/// checksums at `level`: Zstd frames of `frame_size` uncompressed bytes each
/// (the last one shorter), then the seek table in `Foot` format. Frames are
/// cut by the bytes taken in and libzstd gathers input into whole blocks, so
/// the archive is the same whatever pieces `data` is fed in.
pub uninterp spec fn seekable_zstd_stream(data: Seq<u8>, level: i32, frame_size: u32) -> Seq<u8>;

/// What `zeekstd::Decoder` decompresses from `raw` through its seek table:
/// the payload, or `None` when `raw` is not a well-formed seekable archive.
pub uninterp spec fn seekable_zstd_payload(raw: Seq<u8>) -> Option<Seq<u8>>;

/// Consecutive encoder steps that may take no input (while the encoder
/// flushes a full frame) before it is given up as stuck.
pub const MAX_IDLE_STEPS: u32 = 64;

/// Steps allowed to end the last frame.
pub const MAX_END_STEPS: u32 = 4096;

/// Size of the buffer each encoder step writes into.
pub const STEP_OUT_SIZE: usize = 131072;

/// A seekable Zstd encoder: its view is the payload bytes fed so far.
pub struct SeekableZstdEncoder {
    raw: zeekstd::RawEncoder<'static>,
    buf: Vec<u8>,
    level: i32,
    frame_size: u32,
    fed: Ghost<Seq<u8>>,
    emitted: Ghost<Seq<u8>>,
    ending: Ghost<bool>,
    ended: Ghost<bool>,
}

impl View for SeekableZstdEncoder {
    type V = Seq<u8>;

    closed spec fn view(&self) -> Seq<u8> {
        self.fed@
    }
}

/// `zeekstd::EncodeOptions::try_new` with content checksums on, `level` and
/// frames cut at `frame_size` uncompressed bytes, turned into a
/// `RawEncoder` that has taken in nothing. It fails when the Zstd context
/// cannot be allocated or configured, and always when `frame_size` is 0.
#[verifier::external_body]
fn raw_encoder(level: i32, frame_size: u32) -> (r: core::result::Result<zeekstd::RawEncoder<'static>, String>)
    ensures
        frame_size == 0 ==> r is Err,
{
    let opts = match zeekstd::EncodeOptions::try_new() {
        Some(o) => o,
        None => return Err(format!("cannot allocate a Zstd context")),
    };
    let opts = opts.checksum_flag(true).compression_level(level);
    let opts = opts.frame_size_policy(zeekstd::FrameSizePolicy::Uncompressed(frame_size));
    opts.into_raw_encoder().map_err(|e| format!("{e}"))
}

impl SeekableZstdEncoder {
    /// The encoded bytes handed out so far.
    pub closed spec fn emitted(&self) -> Seq<u8> {
        self.emitted@
    }

    /// The Zstd level the encoder was made with.
    pub closed spec fn level_spec(&self) -> i32 {
        self.level
    }

    /// The uncompressed frame size the encoder was made with.
    pub closed spec fn frame_size_spec(&self) -> u32 {
        self.frame_size
    }

    /// The encoder still takes input: its last frame is not being ended.
    pub closed spec fn taking_input(&self) -> bool {
        !self.ending@
    }

    /// An encoder at `level` cutting frames at `frame_size` uncompressed
    /// bytes, with content checksums. Fails when `frame_size` is 0 or the
    /// Zstd context cannot be made.
    pub fn new(level: i32, frame_size: u32) -> (r: Result<Self>)
        ensures
            r matches Ok(e) ==> {
                &&& e@ == Seq::<u8>::empty()
                &&& e.emitted() == Seq::<u8>::empty()
                &&& e.taking_input()
                &&& e.level_spec() == level
                &&& e.frame_size_spec() == frame_size
            },
            r matches Err(e) ==> e is Compress,
            frame_size == 0 ==> r is Err,
    {
        match raw_encoder(level, frame_size) {
            Ok(raw) => {
                let buf = vec![0u8; STEP_OUT_SIZE];
                Ok(
                    SeekableZstdEncoder {
                        raw,
                        buf,
                        level,
                        frame_size,
                        fed: Ghost(Seq::empty()),
                        emitted: Ghost(Seq::empty()),
                        ending: Ghost(false),
                        ended: Ghost(false),
                    },
                )
            },
            Err(msg) => Err(Error::Compress(msg)),
        }
    }

    /// One `RawEncoder::compress` step on `input` into the step buffer: how
    /// many bytes of `input` it took (a prefix) and the encoded bytes it wrote.
    #[verifier::external_body]
    fn step(&mut self, input: &[u8]) -> (r: core::result::Result<(usize, Vec<u8>), String>)
        requires
            old(self).taking_input(),
        ensures
            final(self).level_spec() == old(self).level_spec(),
            final(self).frame_size_spec() == old(self).frame_size_spec(),
            final(self).taking_input(),
            r matches Ok((n, out)) ==> n <= input@.len(),
            r matches Ok((n, out)) ==> final(self)@ == old(self)@ + input@.take(n as int),
            r matches Ok((n, out)) ==> final(self).emitted() == old(self).emitted() + out@,
    {
        let p = self.raw.compress(input, &mut self.buf).map_err(|e| format!("{e}"))?;
        Ok((p.in_progress(), self.buf[..p.out_progress()].to_vec()))
    }

    /// One `RawEncoder::end_frame` step into the step buffer: how many bytes
    /// are left to flush (none once the frame is ended) and the encoded bytes
    /// it wrote.
    #[verifier::external_body]
    fn end_step(&mut self) -> (r: core::result::Result<(usize, Vec<u8>), String>)
        ensures
            final(self).level_spec() == old(self).level_spec(),
            final(self).frame_size_spec() == old(self).frame_size_spec(),
            final(self)@ == old(self)@,
            !final(self).taking_input(),
            r matches Ok((left, out)) ==> final(self).emitted() == old(self).emitted() + out@,
            r matches Ok((left, out)) ==> final(self).ended@ == (left == 0),
    {
        let p = self.raw.end_frame(&mut self.buf).map_err(|e| format!("{e}"))?;
        Ok((p.data_left(), self.buf[..p.out_progress()].to_vec()))
    }

    /// `RawEncoder::into_seek_table` serialized whole in `Foot` format. Once
    /// the last frame is ended, what was handed out followed by these bytes
    /// is the archive for the bytes fed, which `zeekstd::Decoder` reads back
    /// to them.
    #[verifier::external_body]
    fn seek_table_bytes(self) -> (r: Vec<u8>)
        ensures
            self.ended@ ==> self.emitted() + r@ == seekable_zstd_stream(self@, self.level_spec(), self.frame_size_spec()),
            self.ended@ ==> seekable_zstd_payload(self.emitted() + r@) == Some(self@),
    {
        let mut ser = self.raw.into_seek_table().into_serializer();
        let mut out = vec![0u8; ser.encoded_len()];
        let n = ser.write_into(&mut out);
        out.truncate(n);
        out
    }

    /// Feed payload bytes; gives back the encoded bytes produced meanwhile.
    /// Fails when the encoder fails or keeps taking no input.
    pub fn compress(&mut self, data: &[u8]) -> (r: Result<Vec<u8>>)
        requires
            old(self).taking_input(),
        ensures
            final(self).level_spec() == old(self).level_spec(),
            final(self).frame_size_spec() == old(self).frame_size_spec(),
            final(self).taking_input(),
            r matches Ok(out) ==> final(self)@ == old(self)@ + data@,
            r matches Ok(out) ==> final(self).emitted() == old(self).emitted() + out@,
            r matches Err(e) ==> e is Compress,
    {
        let mut out: Vec<u8> = Vec::new();
        let mut pos: usize = 0;
        let mut idle: u32 = 0;
        proof {
            assert(data@.take(0) =~= Seq::<u8>::empty());
            assert(old(self)@ + Seq::<u8>::empty() =~= old(self)@);
            assert(old(self).emitted() + out@ =~= old(self).emitted());
        }
        while pos < data.len()
            invariant
                pos <= data.len(),
                idle <= MAX_IDLE_STEPS,
                self.taking_input(),
                self@ == old(self)@ + data@.take(pos as int),
                self.emitted() == old(self).emitted() + out@,
                self.level_spec() == old(self).level_spec(),
                self.frame_size_spec() == old(self).frame_size_spec(),
            decreases data.len() - pos, MAX_IDLE_STEPS - idle,
        {
            let rest = slice_subrange(data, pos, data.len());
            let ghost o0 = out@;
            let (n, bytes) = match self.step(rest) {
                Ok(p) => p,
                Err(msg) => return Err(Error::Compress(msg)),
            };
            proof {
                assert(data@.take(pos as int) + rest@.take(n as int) =~= data@.take(pos + n));
            }
            bextend(&mut out, &bytes);
            proof {
                assert(self.emitted() =~= old(self).emitted() + out@);
            }
            if n == 0 {
                if idle >= MAX_IDLE_STEPS {
                    return Err(Error::Compress(string_from("seekable-zstd encoder takes no input")));
                }
                idle = idle + 1;
            } else {
                idle = 0;
                pos = pos + n;
            }
        }
        proof {
            assert(data@.take(data@.len() as int) =~= data@);
        }
        Ok(out)
    }

    /// End the last frame and give back the rest of the archive: the end of
    /// that frame and the seek table. What was handed out before, followed by
    /// these bytes, is the archive `zeekstd` writes for the bytes fed, and it
    /// reads back to them. Fails when the encoder fails or does not finish
    /// the frame.
    pub fn finish(self) -> (r: Result<Vec<u8>>)
        ensures
            r matches Ok(tail) ==> self.emitted() + tail@ == seekable_zstd_stream(
                self@,
                self.level_spec(),
                self.frame_size_spec(),
            ),
            r matches Ok(tail) ==> seekable_zstd_payload(self.emitted() + tail@) == Some(self@),
            r matches Err(e) ==> e is Compress,
    {
        let mut enc = self;
        let mut out: Vec<u8> = Vec::new();
        let mut rounds: u32 = 0;
        let mut done = false;
        proof {
            assert(self.emitted() + out@ =~= self.emitted());
        }
        while !done
            invariant
                enc@ == self@,
                enc.level_spec() == self.level_spec(),
                enc.frame_size_spec() == self.frame_size_spec(),
                enc.emitted() == self.emitted() + out@,
                done ==> enc.ended@,
                rounds <= MAX_END_STEPS,
            decreases MAX_END_STEPS - rounds,
        {
            if rounds >= MAX_END_STEPS {
                return Err(Error::Compress(string_from("seekable-zstd frame end does not finish")));
            }
            let (left, bytes) = match enc.end_step() {
                Ok(p) => p,
                Err(msg) => return Err(Error::Compress(msg)),
            };
            let d = left == 0;
            bextend(&mut out, &bytes);
            proof {
                assert(enc.emitted() =~= self.emitted() + out@);
            }
            done = d;
            rounds = rounds + 1;
        }
        let ghost em = enc.emitted();
        let table = enc.seek_table_bytes();
        bextend(&mut out, &table);
        proof {
            assert(self.emitted() + out@ =~= em + table@);
        }
        Ok(out)
    }
}

/// Start a member of a seekable-zstd payload: the member is recorded in the
/// layout, its data starting after its header, and the header (name and data
/// length) goes through the encoder; gives the data offset and the encoded
/// bytes produced. The member's `data_len` data bytes are to be fed next.
/// Fails, before anything is fed, when an offset would not fit in 64 bits.
pub fn encode_seekable_member(
    enc: &mut SeekableZstdEncoder,
    layout: &mut SeekableLayout,
    name: &str,
    data_len: u64,
) -> (r: Result<(u64, Vec<u8>)>)
    requires
        old(layout).wf(),
        old(enc).taking_input(),
    ensures
        final(layout).wf(),
        final(enc).taking_input(),
        final(enc).level_spec() == old(enc).level_spec(),
        final(enc).frame_size_spec() == old(enc).frame_size_spec(),
        r matches Ok((doff, out)) ==> {
            &&& final(enc)@ == old(enc)@ + member_header_spec(name@, data_len)
            &&& final(enc).emitted() == old(enc).emitted() + out@
            &&& doff == old(layout).pos_spec() + member_header_spec(name@, data_len).len()
            &&& final(layout).members_spec() == old(layout).members_spec().push(
                ZEntryModel { name: name@, doff: doff, dlen: data_len },
            )
            &&& final(layout).pos_spec() == doff + data_len
        },
        r matches Err(e) ==> e is Archive || e is Compress,
        r matches Err(e) ==> (e is Archive <==> old(layout).pos_spec() + 16 + utf8(name@).len() + data_len
            > u64::MAX),
        r matches Err(e) && e is Archive ==> *final(enc) == *old(enc) && *final(layout) == *old(layout),
{
    let doff = match layout.record_member(string_from(name), data_len) {
        Ok(d) => d,
        Err(e) => return Err(e),
    };
    let h = member_header(name, data_len);
    let out = match enc.compress(&h) {
        Ok(o) => o,
        Err(e) => return Err(e),
    };
    proof {
        crate::bytes::lemma_le_len(utf8(name@).len(), 8);
        crate::bytes::lemma_le_len(data_len as nat, 8);
    }
    Ok((doff, out))
}

/// Check that a member's body gave exactly the data length its header
/// announced; a file that grew or shrank while it was read is an error.
pub fn check_member_written(expected: u64, written: u64) -> (r: Result<()>)
    ensures
        r is Ok <==> written == expected,
        r matches Err(e) ==> e is Archive,
{
    if written != expected {
        return Err(Error::Archive(string_from("size changed while archiving")));
    }
    Ok(())
}

/// End a seekable-zstd payload: the member index and the offset where it
/// starts go through the encoder, which then ends the last frame and writes
/// the seek table; gives the encoded bytes produced. What the encoder handed
/// out before, followed by these bytes, is the seekable archive of the whole
/// payload, and it reads back to that payload.
pub fn finish_seekable_payload(enc: SeekableZstdEncoder, layout: &SeekableLayout) -> (r: Result<Vec<u8>>)
    requires
        layout.wf(),
        enc.taking_input(),
    ensures
        r matches Ok(out) ==> enc.emitted() + out@ == seekable_zstd_stream(
            enc@ + zindex_bytes(layout.members_spec()) + le_bytes(layout.pos_spec(), 8),
            enc.level_spec(),
            enc.frame_size_spec(),
        ),
        r matches Ok(out) ==> seekable_zstd_payload(enc.emitted() + out@) == Some(
            enc@ + zindex_bytes(layout.members_spec()) + le_bytes(layout.pos_spec(), 8),
        ),
        r matches Err(e) ==> e is Compress,
{
    let mut e = enc;
    let tail = match layout.finish() {
        Ok(t) => t,
        Err(err) => return Err(err),
    };
    let mut out = match e.compress(&tail) {
        Ok(o) => o,
        Err(err) => return Err(err),
    };
    let rest = match e.finish() {
        Ok(t) => t,
        Err(err) => return Err(err),
    };
    let ghost o0 = out@;
    bextend(&mut out, &rest);
    proof {
        assert(enc.emitted() + out@ =~= (enc.emitted() + o0) + rest@);
        assert(enc@ + tail@ =~= enc@ + zindex_bytes(layout.members_spec()) + le_bytes(layout.pos_spec(), 8));
    }
    Ok(out)
}

} // verus!
