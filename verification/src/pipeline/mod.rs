//! Create and embed pipelines: rule building, selection restrictions, member
//! naming and output paths.

pub mod create;
pub mod embed;
pub mod output;
pub mod schedule;
