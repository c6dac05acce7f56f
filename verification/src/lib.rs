//! Archive creation library: rsync-style selection rules, path naming,
//! restriction limits, and archive header / index encoding.

pub mod archive;
pub mod bytes;
pub mod cli;
pub mod error;
pub mod pipeline;
pub mod select;
pub mod text;
pub mod util;
