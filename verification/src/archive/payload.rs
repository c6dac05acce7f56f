//! Checks shared by the readers of the seekable payload formats (seekable
//! Zstd, tar.zst, tar.lz4): the uncompressed payload ends with a member index
//! and the 8-byte little-endian offset where that index starts.

use crate::error::{Error, Result};
use crate::text::string_from;
use vstd::prelude::*;

verus! {

/// Largest member index or frame table a reader accepts (64 MiB).
pub const MAX_INDEX_LEN: u64 = 67108864;

/// Largest payload that is decompressed into one buffer (512 MiB).
pub const MAX_FULL_PAYLOAD: u64 = 536870912;

/// Offset of the 8-byte index pointer at the end of a payload of `total`
/// bytes; an error when the payload cannot hold it.
pub fn footer_start(total: u64) -> (r: Result<u64>)
    ensures
        match r {
            Ok(p) => total >= 8 && p == total - 8,
            Err(e) => total < 8 && e is Archive,
        },
{
    if total < 8 {
        return Err(Error::Archive(string_from("uncompressed payload too small for index footer")));
    }
    Ok(total - 8)
}

/// Length of the member index that starts at `index_start` and ends where the
/// index pointer begins; an error when the pointer is out of range or the
/// index is larger than [`MAX_INDEX_LEN`].
pub fn index_span(total: u64, index_start: u64) -> (r: Result<u64>)
    requires
        total >= 8,
    ensures
        match r {
            Ok(len) => index_start < total - 8 && len == total - 8 - index_start && len <= MAX_INDEX_LEN,
            Err(e) => e is Archive && (index_start >= total - 8 || total - 8 - index_start > MAX_INDEX_LEN),
        },
{
    if index_start >= total - 8 {
        return Err(Error::Archive(string_from("invalid index_start")));
    }
    let len = total - 8 - index_start;
    if len > MAX_INDEX_LEN {
        return Err(Error::Archive(string_from("index too large")));
    }
    Ok(len)
}

/// End of a member's data range in the payload (`offset + len`); an error when
/// it does not fit in 64 bits.
pub fn member_range_end(offset: u64, len: u64) -> (r: Result<u64>)
    ensures
        match r {
            Ok(end) => end == offset + len,
            Err(e) => offset + len > u64::MAX && e is Archive,
        },
{
    match offset.checked_add(len) {
        Some(end) => Ok(end),
        None => Err(Error::Archive(string_from("member range overflow"))),
    }
}

/// Buffer size for a member of `len` bytes held in memory; an error when it
/// cannot be addressed.
pub fn buffer_len(len: u64) -> (r: Result<usize>)
    ensures
        match r {
            Ok(n) => n == len,
            Err(e) => len > usize::MAX && e is Archive,
        },
{
    if len > usize::MAX as u64 {
        return Err(Error::Archive(string_from("member too large to buffer")));
    }
    Ok(len as usize)
}

/// Whether a payload of `total` bytes may be decompressed into one buffer.
pub fn full_payload_len(total: u64) -> (r: Result<usize>)
    ensures
        match r {
            Ok(n) => n == total && total <= MAX_FULL_PAYLOAD,
            Err(e) => total > MAX_FULL_PAYLOAD && e is Archive,
        },
{
    if total > MAX_FULL_PAYLOAD {
        return Err(Error::Archive(string_from("uncompressed payload too large for full buffer")));
    }
    Ok(total as usize)
}

/// Smallest tar.lz4 file that can hold a frame table: magic, version,
/// count, totals and the footer pointer.
pub const MIN_FRAME_TABLE_FILE: u64 = 36;

/// Length of the frame table that starts at `footer_offset` and runs to the
/// end of a tar.lz4 file of `file_len` bytes; an error when the file is too
/// small, the offset is out of range, or the table is larger than
/// [`MAX_INDEX_LEN`].
pub fn frame_table_span(file_len: u64, footer_offset: u64) -> (r: Result<u64>)
    ensures
        match r {
            Ok(len) => file_len >= MIN_FRAME_TABLE_FILE && footer_offset < file_len && len == file_len - footer_offset
                && len <= MAX_INDEX_LEN,
            Err(e) => e is Archive && (file_len < MIN_FRAME_TABLE_FILE || footer_offset >= file_len || file_len
                - footer_offset > MAX_INDEX_LEN),
        },
{
    if file_len < MIN_FRAME_TABLE_FILE {
        return Err(Error::Archive(string_from("tar.lz4: file too small for frame table")));
    }
    if footer_offset >= file_len {
        return Err(Error::Archive(string_from("tar.lz4: invalid footer_offset")));
    }
    let len = file_len - footer_offset;
    if len > MAX_INDEX_LEN {
        return Err(Error::Archive(string_from("tar.lz4: frame table too large")));
    }
    Ok(len)
}

} // verus!
