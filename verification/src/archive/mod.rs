//! Archive formats: tar headers and member indexes.

pub mod payload;
pub mod seekable_zstd;
pub mod sevenz;
pub mod tar_common;
pub mod tar_layout;
pub mod tar_lz4;
pub mod zstd_writer;
