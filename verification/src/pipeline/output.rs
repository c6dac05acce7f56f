//! Output path rules: the partial file written before the final rename, and
//! when an existing output may be replaced.

use crate::error::{Error, Result};
use crate::text::{concat_str, string_from};
use vstd::prelude::*;

verus! {

/// Final and partial paths for an atomic archive write.
#[derive(Debug, Clone, PartialEq, Eq)]
pub struct OutputPaths {
    /// User-facing final path (`-o`).
    pub final_path: String,
    /// Same-directory partial: `{final}.partial` (e.g. `out.7z.partial`).
    pub partial_path: String,
}

/// `{path}.partial`: the path with `.partial` appended (the extension is kept).
pub open spec fn partial_spec(p: Seq<char>) -> Seq<char> {
    p + ".partial"@
}

/// `{path}.partial` in the same directory (does not replace the extension).
pub fn partial_path_for(final_path: &str) -> (p: String)
    ensures
        p@ == partial_spec(final_path@),
{
    concat_str(final_path, ".partial")
}

impl OutputPaths {
    /// Paths for `-o`: the final path and `{final}.partial`.
    pub fn new(final_path: &str) -> (p: Self)
        ensures
            p.final_path@ == final_path@,
            p.partial_path@ == partial_spec(final_path@),
    {
        OutputPaths { final_path: string_from(final_path), partial_path: partial_path_for(final_path) }
    }
}

/// Whether writing to `final_path` may go ahead: an existing output is only
/// replaced with `force`.
pub fn check_overwrite(final_path: &str, final_exists: bool, force: bool) -> (r: Result<()>)
    ensures
        match r {
            Ok(()) => !final_exists || force,
            Err(e) => final_exists && !force && (e matches Error::OutputExists(p) && p@ == final_path@),
        },
{
    if final_exists && !force {
        return Err(Error::OutputExists(string_from(final_path)));
    }
    Ok(())
}

/// Whether the final output path exists (`Path::exists`); the answer is
/// whatever the filesystem says at the time of the call.
#[verifier::external_body]
pub fn output_exists(final_path: &str) -> (b: bool) {
    std::path::Path::new(final_path).exists()
}

} // verus!
