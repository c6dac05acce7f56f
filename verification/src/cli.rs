//! Create / embed options and the rules that pick the output format.
//!
//! Command-line parsing itself lives with the program; these are the plain
//! option values and the checks made on them.

use crate::select::pathnorm::{file_name_spec, kept_pieces};
use crate::text::{
    chars_of, concat_str, ends_with, eq_chars, has_suffix, lower, lower_chars, slice_of, split, split_chars, string_from,
    views,
};
use vstd::prelude::*;

verus! {

/// Output container format for `create`.
#[derive(Debug, Clone, Copy, PartialEq, Eq, Structural)]
pub enum OutputFormat {
    /// Non-solid 7z with per-file packs (default).
    SevenZ,
    /// Single seekable-zstd stream with member index (byte-range access).
    SeekableZstd,
    /// Valid tar payload in seekable Zstd + `RATAIDX1` member index.
    TarZstd,
    /// Valid tar payload in multi-frame LZ4 + `RATLFRM1` frame table + `RATAIDX1`.
    TarLz4,
}

impl Default for OutputFormat {
    fn default() -> (f: Self)
        ensures
            f == OutputFormat::SevenZ,
    {
        OutputFormat::SevenZ
    }
}

pub open spec fn format_name(f: OutputFormat) -> Seq<char> {
    match f {
        OutputFormat::SevenZ => "7z"@,
        OutputFormat::SeekableZstd => "seekable-zstd"@,
        OutputFormat::TarZstd => "tar-zstd"@,
        OutputFormat::TarLz4 => "tar-lz4"@,
    }
}

impl OutputFormat {
    /// The format's command-line name.
    pub fn as_str(self) -> (s: &'static str)
        ensures
            s@ == format_name(self),
    {
        match self {
            OutputFormat::SevenZ => "7z",
            OutputFormat::SeekableZstd => "seekable-zstd",
            OutputFormat::TarZstd => "tar-zstd",
            OutputFormat::TarLz4 => "tar-lz4",
        }
    }
}

/// The program's command line: the subcommand and the verbosity count.
#[derive(Debug, Clone)]
pub struct Cli {
    pub command: Command,
    /// `-v` count: 0 info, 1 debug, 2 or more trace.
    pub verbose: u8,
}

/// Subcommands.
#[derive(Debug, Clone)]
pub enum Command {
    /// Create an archive with rsync-style selection.
    Create(CreateArgs),
    /// Embed finished files under a master non-solid store 7z.
    Embed(EmbedArgs),
}

/// Arguments for `create`. Paths are carried as their UTF-8 text.
#[derive(Debug, Clone)]
pub struct CreateArgs {
    pub output: String,
    pub format: Option<OutputFormat>,
    pub dry_run: bool,
    pub force: bool,
    pub exclude: Vec<String>,
    pub includes: Vec<String>,
    pub exclude_from: Vec<String>,
    pub include_from: Vec<String>,
    pub files_from: Option<String>,
    pub include_cwd: bool,
    pub filter_from: Vec<String>,
    pub filter: Vec<String>,
    pub level: u32,
    pub method: String,
    pub threads: Option<u32>,
    pub encode_concurrency: usize,
    pub encode_size_budget: String,
    pub dir_max_size: Vec<String>,
    pub dir_max_size_from: Option<String>,
    pub dir_max_files: Vec<String>,
    pub dir_max_files_from: Option<String>,
    pub file_size_from: Option<String>,
    pub max_total_size: Option<String>,
    pub max_files: Option<u64>,
    pub max_size: Option<String>,
    pub min_size: Option<String>,
    pub newer_than: Option<String>,
    pub verify: bool,
    pub sources: Vec<String>,
}

/// Arguments for `embed`. Paths are carried as their UTF-8 text.
#[derive(Debug, Clone)]
pub struct EmbedArgs {
    pub output: String,
    pub dry_run: bool,
    pub force: bool,
    pub prefix: Option<String>,
    pub keep_path: bool,
    pub require_7z: bool,
    pub allow_any: bool,
    pub verify: bool,
    pub inputs: Vec<String>,
}

/// Index of the last `.` in `s`, if any.
pub open spec fn last_dot(s: Seq<char>) -> Option<int>
    decreases s.len(),
{
    if s.len() == 0 {
        None
    } else if s.last() == '.' {
        Some(s.len() - 1)
    } else {
        last_dot(s.drop_last())
    }
}

/// The extension of a path, as `Path::extension` gives it: what follows the
/// last `.` of the file name when something precedes that `.`.
pub open spec fn extension_spec(p: Seq<char>) -> Option<Seq<char>> {
    match file_name_spec(p) {
        None => None,
        Some(n) => match last_dot(n) {
            Some(i) => if i > 0 {
                Some(n.skip(i + 1))
            } else {
                None
            },
            None => None,
        },
    }
}

/// Output format for a path: `.tar.zst` / `.tzst` → tar-zstd, `.tar.lz4` /
/// `.tlz4` → tar-lz4, extension `zst` → seekable-zstd, else 7z (any letter case).
pub open spec fn infer_format_spec(p: Seq<char>) -> OutputFormat {
    let s = lower(p);
    if ends_with(s, ".tar.zst"@) || ends_with(s, ".tzst"@) {
        OutputFormat::TarZstd
    } else if ends_with(s, ".tar.lz4"@) || ends_with(s, ".tlz4"@) {
        OutputFormat::TarLz4
    } else if extension_spec(s) == Some("zst"@) {
        OutputFormat::SeekableZstd
    } else {
        OutputFormat::SevenZ
    }
}


/// The last component that names something, as `Path::file_name` gives it.
pub fn file_name_of(v: &[char]) -> (r: Option<Vec<char>>)
    ensures
        match file_name_spec(v@) {
            Some(n) => r matches Some(w) && w@ == n,
            None => r is None,
        },
{
    let parts = kept_pieces(v);
    if parts.len() == 0 {
        return None;
    }
    let n = &parts[parts.len() - 1];
    assert(views(parts@).last() == n@);
    if n.len() == 2 && n[0] == '.' && n[1] == '.' {
        assert(n@ =~= seq!['.', '.']);
        return None;
    }
    proof {
        if n@ == seq!['.', '.'] {
            assert(n@.len() == 2 && n@[0] == '.' && n@[1] == '.');
        }
    }
    Some(slice_of(n, 0, n.len()))
}

/// Index of the last `.`.
fn last_dot_of(v: &[char]) -> (r: Option<usize>)
    ensures
        match r {
            Some(i) => last_dot(v@) == Some(i as int) && i < v.len(),
            None => last_dot(v@) is None,
        },
{
    let mut j: usize = v.len();
    assert(v@.take(v.len() as int) =~= v@);
    while j > 0
        invariant
            j <= v.len(),
            last_dot(v@) == last_dot(v@.take(j as int)),
        decreases j,
    {
        assert(v@.take(j as int).drop_last() =~= v@.take(j - 1));
        if v[j - 1] == '.' {
            return Some(j - 1);
        }
        j = j - 1;
    }
    assert(v@.take(0) =~= Seq::<char>::empty());
    None
}

/// The extension of a path, as `Path::extension` gives it.
pub fn file_extension(v: &[char]) -> (r: Option<Vec<char>>)
    ensures
        match extension_spec(v@) {
            Some(e) => r matches Some(w) && w@ == e,
            None => r is None,
        },
{
    match file_name_of(v) {
        None => None,
        Some(n) => {
            assert(file_name_spec(v@) == Some(n@));
            match last_dot_of(&n) {
                Some(i) => {
                    assert(last_dot(n@) == Some(i as int));
                    if i > 0 {
                        let e = slice_of(&n, i + 1, n.len());
                        assert(e@ =~= n@.skip(i + 1));
                        assert(extension_spec(v@) == Some(n@.skip(i + 1)));
                        Some(e)
                    } else {
                        None
                    }
                },
                None => None,
            }
        },
    }
}

/// Infer the create output format from the output path (see [`infer_format_spec`]).
pub fn infer_format_from_path(path: &str) -> (f: OutputFormat)
    ensures
        f == infer_format_spec(path@),
{
    let pv = chars_of(path);
    let s = lower_chars(&pv);
    let tar_zst = chars_of(".tar.zst");
    let tzst = chars_of(".tzst");
    let tar_lz4 = chars_of(".tar.lz4");
    let tlz4 = chars_of(".tlz4");
    if has_suffix(&s, &tar_zst) || has_suffix(&s, &tzst) {
        return OutputFormat::TarZstd;
    }
    if has_suffix(&s, &tar_lz4) || has_suffix(&s, &tlz4) {
        return OutputFormat::TarLz4;
    }
    let zst = chars_of("zst");
    match file_extension(&s) {
        Some(e) => {
            if eq_chars(&e, &zst) {
                OutputFormat::SeekableZstd
            } else {
                OutputFormat::SevenZ
            }
        },
        None => OutputFormat::SevenZ,
    }
}

/// The format `create` writes: `--format` when given, else inferred from `-o`.
pub open spec fn resolved_format_spec(a: CreateArgs) -> OutputFormat {
    match a.format {
        Some(f) => f,
        None => infer_format_spec(a.output@),
    }
}

/// Why `validate` refuses the arguments, if it does.
pub open spec fn validate_spec(a: CreateArgs) -> Option<Seq<char>> {
    let has_ff = a.files_from is Some;
    let has_src = a.sources.len() > 0;
    if has_ff && has_src {
        Some("cannot combine --files-from with SRC... (use one or the other)"@)
    } else if !has_ff && !has_src && !a.include_cwd {
        Some("need SRC..., --files-from, or --include-cwd"@)
    } else if resolved_format_spec(a) != OutputFormat::SevenZ && a.method@ != "lzma2"@ {
        Some(
            "--method is for 7z format only (got --method "@ + a.method@ + "); omit --method with --format "@
                + format_name(resolved_format_spec(a)),
        )
    } else {
        None
    }
}

impl CreateArgs {
    /// Resolve the output format: explicit `--format`, else inferred from `-o`.
    pub fn resolved_format(&self) -> (f: OutputFormat)
        ensures
            f == resolved_format_spec(*self),
    {
        match self.format {
            Some(f) => f,
            None => infer_format_from_path(self.output.as_str()),
        }
    }

    /// Check the constraints between options: exactly one of SRC... and
    /// `--files-from` (or `--include-cwd` alone), and `--method` only with 7z.
    pub fn validate(&self) -> (r: core::result::Result<(), String>)
        ensures
            match validate_spec(*self) {
                Some(m) => r matches Err(e) && e@ == m,
                None => r is Ok,
            },
    {
        let has_ff = self.files_from.is_some();
        let has_src = self.sources.len() > 0;
        if has_ff && has_src {
            return Err(string_from("cannot combine --files-from with SRC... (use one or the other)"));
        }
        if !has_ff && !has_src && !self.include_cwd {
            return Err(string_from("need SRC..., --files-from, or --include-cwd"));
        }
        let format = self.resolved_format();
        if format != OutputFormat::SevenZ {
            let mv = chars_of(self.method.as_str());
            let lz = chars_of("lzma2");
            if !eq_chars(&mv, &lz) {
                let a = concat_str("--method is for 7z format only (got --method ", self.method.as_str());
                let b = concat_str(a.as_str(), "); omit --method with --format ");
                let c = concat_str(b.as_str(), format.as_str());
                return Err(c);
            }
        }
        Ok(())
    }
}

} // verus!
