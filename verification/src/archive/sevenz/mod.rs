//! Non-solid 7z building blocks: method selection, per-member compression and
//! the raw header layout.

pub mod codec;
pub mod header;
pub mod method;
pub mod pack_stream;
