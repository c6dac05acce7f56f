//! Selection: rsync-style filter rules, matching, path naming and restriction limits.

pub mod collect;
pub mod dir_budget;
pub mod from_file;
pub mod global_restrict;
pub mod matcher;
pub mod pathnorm;
pub mod rank;
pub mod report;
pub mod restrict_lists;
pub mod rules;
pub mod walk;

use crate::error::{Error, Result};
use crate::select::pathnorm::{
    basename_utf8, basename_utf8_spec, join_archive_name, join_name_spec, kept_pieces,
    kept_segments, normalize_archive_str, normalize_spec, NormOutcome,
};
use crate::text::{
    chars_of, concat_str, eq_chars, join, join_chars, split, string_from, string_of, views,
};
use vstd::prelude::*;

verus! {

/// Kind of a source argument after metadata inspection.
#[derive(Debug, Clone, Copy, PartialEq, Eq, Structural)]
pub enum SourceKind {
    File,
    Dir,
}

/// What a non-following stat of a source path found.
#[derive(Debug, Clone, PartialEq, Eq)]
pub enum PathStat {
    Dir,
    File,
    /// Neither a directory nor a regular file.
    Other,
    /// The stat failed; carries the rendered error.
    Failed(String),
}

/// One create source as given on the command line.
///
/// A trailing slash on a directory source changes archive naming:
/// `photos` gives members like `photos/a.jpg`, `photos/` gives `a.jpg`.
#[derive(Debug, Clone, PartialEq, Eq)]
pub struct SourceSpec {
    /// Path as resolved for I/O (trailing separators stripped).
    pub path: String,
    /// User-facing path string (may include trailing slash).
    pub original: String,
    /// Whether the user path ended with `/` or `\`.
    pub trailing_slash: bool,
    /// File vs directory (from metadata).
    pub kind: SourceKind,
}

pub open spec fn is_sep(c: char) -> bool {
    c == '/' || c == '\\'
}

/// `s` without its trailing run of separators.
pub open spec fn trim_trailing_seps(s: Seq<char>) -> Seq<char>
    decreases s.len(),
{
    if s.len() > 0 && is_sep(s.last()) {
        trim_trailing_seps(s.drop_last())
    } else {
        s
    }
}

/// The path used for I/O: trailing separators removed, `/` when only
/// separators were given.
pub open spec fn strip_seps_spec(s: Seq<char>) -> Seq<char> {
    if s.len() > 0 && is_sep(s.last()) {
        if trim_trailing_seps(s).len() == 0 {
            seq!['/']
        } else {
            trim_trailing_seps(s)
        }
    } else {
        s
    }
}

/// Path for I/O of a user path: trailing `/` or `\` stripped (root stays `/`).
pub fn strip_trailing_seps(s: &str) -> (r: String)
    ensures
        r@ == strip_seps_spec(s@),
{
    let v = chars_of(s);
    let mut n: usize = v.len();
    assert(v@.take(v.len() as int) == v@);
    while n > 0 && (v[n - 1] == '/' || v[n - 1] == '\\')
        invariant
            n <= v.len(),
            trim_trailing_seps(v@.take(n as int)) == trim_trailing_seps(v@),
        decreases n,
    {
        assert(v@.take(n as int).drop_last() == v@.take(n - 1));
        n = n - 1;
    }
    assert(v@.take(v.len() as int) == v@);
    if n == v.len() {
        return string_of(&v);
    }
    if n == 0 {
        proof {
            reveal_strlit("/");
        }
        return string_from("/");
    }
    let t = crate::text::slice_of(&v, 0, n);
    assert(t@ == v@.take(n as int));
    string_of(&t)
}

/// Outcome of [`SourceSpec::from_user_path_stat`]: `None` is an error.
pub open spec fn source_spec_ok(s: Seq<char>, stat: PathStat, r: SourceSpec) -> bool {
    &&& r.original@ == s
    &&& r.path@ == strip_seps_spec(s)
    &&& r.trailing_slash == (s.len() > 0 && is_sep(s.last()))
    &&& r.kind == (if stat is Dir { SourceKind::Dir } else { SourceKind::File })
}

impl SourceSpec {
    /// Build a source spec from a user path and the non-following stat of its
    /// I/O path ([`strip_trailing_seps`]).
    pub fn from_user_path_stat(s: &str, stat: PathStat) -> (r: Result<SourceSpec>)
        ensures
            strip_seps_spec(s@).len() == 0 ==> (r matches Err(e) && e is Selection),
            strip_seps_spec(s@).len() > 0 ==> match stat {
                PathStat::Failed(_) => r matches Err(e) && e is Selection,
                PathStat::Other => r matches Err(e) && e is NotRegularFile,
                PathStat::File => if s@.len() > 0 && is_sep(s@.last()) {
                    r matches Err(e) && e is Selection
                } else {
                    r matches Ok(v) && source_spec_ok(s@, stat, v)
                },
                PathStat::Dir => r matches Ok(v) && source_spec_ok(s@, stat, v),
            },
    {
        let original = string_from(s);
        let v = chars_of(s);
        let trailing_slash = v.len() > 0 && (v[v.len() - 1] == '/' || v[v.len() - 1] == '\\');
        let path = strip_trailing_seps(s);
        let pv = chars_of(path.as_str());
        if pv.len() == 0 {
            return Err(Error::Selection(string_from("empty source path")));
        }
        let kind = match stat {
            PathStat::Dir => SourceKind::Dir,
            PathStat::File => SourceKind::File,
            PathStat::Other => {
                return Err(Error::NotRegularFile(path));
            },
            PathStat::Failed(msg) => {
                return Err(Error::Selection(concat_str("stat failed: ", msg.as_str())));
            },
        };
        if trailing_slash && kind == SourceKind::File {
            return Err(Error::Selection(concat_str("trailing slash on file source: ", s)));
        }
        Ok(SourceSpec { path, original, trailing_slash, kind })
    }

    /// Archive-name prefix for files under this source (no trailing `/`):
    /// the directory's basename for a directory without trailing slash, else empty.
    pub fn archive_prefix(&self) -> (r: Result<String>)
        ensures
            match prefix_outcome(*self) {
                Some(p) => r matches Ok(v) && v@ == p,
                None => r matches Err(e) && e is InvalidMemberName,
            },
    {
        match self.kind {
            SourceKind::File => Ok(String::new()),
            SourceKind::Dir => {
                if self.trailing_slash {
                    Ok(String::new())
                } else {
                    basename_utf8(self.path.as_str())
                }
            },
        }
    }
}

/// Outcome of [`SourceSpec::archive_prefix`]: `None` is an error.
pub open spec fn prefix_outcome(src: SourceSpec) -> Option<Seq<char>> {
    if src.kind == SourceKind::File || src.trailing_slash {
        Some(Seq::<char>::empty())
    } else {
        basename_utf8_spec(src.path@)
    }
}

pub open spec fn is_abs(p: Seq<char>) -> bool {
    p.len() > 0 && p[0] == '/'
}

/// Components of `file` after those of `base`, when `base` is a component-wise
/// prefix of `file` (as `Path::strip_prefix`, empty and `.` pieces ignored).
pub open spec fn strip_prefix_spec(file: Seq<char>, base: Seq<char>) -> Option<Seq<Seq<char>>> {
    let fc = kept_segments(split(file, '/'));
    let bc = kept_segments(split(base, '/'));
    if is_abs(file) == is_abs(base) && bc.len() <= fc.len() && fc.take(bc.len() as int) == bc {
        Some(fc.skip(bc.len() as int))
    } else {
        None
    }
}

/// Whether `r` is the result [`archive_name_for`] gives.
pub open spec fn name_for_result(src: SourceSpec, file: Seq<char>, r: Result<String>) -> bool {
    match src.kind {
        SourceKind::File => match basename_utf8_spec(file) {
            Some(n) => r matches Ok(v) && v@ == n,
            None => r matches Err(e) && e is InvalidMemberName,
        },
        SourceKind::Dir => match strip_prefix_spec(file, src.path@) {
            None => r matches Err(e) && e is Selection,
            Some(rel) => match normalize_spec(join(rel, seq!['/'])) {
                NormOutcome::Traversal => r matches Err(e) && e is PathTraversal,
                NormOutcome::Empty => r matches Err(e) && e is InvalidMemberName,
                NormOutcome::Normal(rel_s) => match prefix_outcome(src) {
                    None => r matches Err(e) && e is InvalidMemberName,
                    Some(p) => if p.len() == 0 {
                        r matches Ok(v) && v@ == rel_s
                    } else {
                        match join_name_spec(p.push('/'), rel_s) {
                            NormOutcome::Normal(n) => r matches Ok(v) && v@ == n,
                            NormOutcome::Traversal => r matches Err(e) && e is PathTraversal,
                            NormOutcome::Empty => r matches Err(e) && e is InvalidMemberName,
                        }
                    },
                },
            },
        },
    }
}

fn strip_components(file: &str, base: &str) -> (r: Option<Vec<Vec<char>>>)
    ensures
        match strip_prefix_spec(file@, base@) {
            Some(rel) => r matches Some(v) && views(v@) == rel,
            None => r is None,
        },
{
    let fv = chars_of(file);
    let bv = chars_of(base);
    let fabs = fv.len() > 0 && fv[0] == '/';
    let babs = bv.len() > 0 && bv[0] == '/';
    let fc = kept_pieces(&fv);
    let bc = kept_pieces(&bv);
    if fabs != babs || bc.len() > fc.len() {
        return None;
    }
    let mut i: usize = 0;
    while i < bc.len()
        invariant
            i <= bc.len() <= fc.len(),
            fv@ == file@,
            bv@ == base@,
            is_abs(file@) == is_abs(base@),
            views(fc@) == kept_segments(split(fv@, '/')),
            views(bc@) == kept_segments(split(bv@, '/')),
            views(fc@).take(i as int) == views(bc@).take(i as int),
        decreases bc.len() - i,
    {
        assert(views(fc@)[i as int] == fc@[i as int]@);
        assert(views(bc@)[i as int] == bc@[i as int]@);
        if !eq_chars(&fc[i], &bc[i]) {
            assert(views(fc@).take(bc.len() as int)[i as int] == views(fc@)[i as int]);
            assert(views(bc@).take(bc.len() as int)[i as int] == views(bc@)[i as int]);
            assert(views(bc@).take(bc.len() as int) == views(bc@));
            assert(views(fc@).take(bc.len() as int) != views(bc@));
            return None;
        }
        assert(views(fc@).take(i + 1) == views(fc@).take(i as int).push(views(fc@)[i as int]));
        assert(views(bc@).take(i + 1) == views(bc@).take(i as int).push(views(bc@)[i as int]));
        i = i + 1;
    }
    assert(views(bc@).take(bc.len() as int) == views(bc@));
    let mut rest: Vec<Vec<char>> = Vec::new();
    let mut j: usize = bc.len();
    while j < fc.len()
        invariant
            bc.len() <= j <= fc.len(),
            views(rest@) == views(fc@).subrange(bc.len() as int, j as int),
        decreases fc.len() - j,
    {
        rest.push(crate::select::pathnorm::clone_chars(&fc[j]));
        assert(views(fc@).subrange(bc.len() as int, j + 1) == views(fc@).subrange(
            bc.len() as int,
            j as int,
        ).push(fc@[j as int]@));
        j = j + 1;
    }
    assert(views(fc@).subrange(bc.len() as int, fc.len() as int) == views(fc@).skip(
        bc.len() as int,
    ));
    Some(rest)
}

/// Map a file under a source to its archive member name.
pub fn archive_name_for(source: &SourceSpec, file_abs: &str) -> (r: Result<String>)
    ensures
        name_for_result(*source, file_abs@, r),
{
    match source.kind {
        SourceKind::File => basename_utf8(file_abs),
        SourceKind::Dir => {
            let rel = match strip_components(file_abs, source.path.as_str()) {
                Some(rel) => rel,
                None => {
                    return Err(
                        Error::Selection(concat_str("file is not under source: ", file_abs)),
                    );
                },
            };
            let rel_joined = join_chars(&rel, '/');
            let rel_text = string_of(&rel_joined);
            assert(rel_text@ == join(views(rel@), seq!['/']));
            let rel_s = normalize_archive_str(rel_text.as_str())?;
            let prefix = source.archive_prefix()?;
            if prefix.as_str().unicode_len() == 0 {
                Ok(rel_s)
            } else {
                proof {
                    reveal_strlit("/");
                }
                let p = concat_str(prefix.as_str(), "/");
                assert(p@ == prefix@.push('/'));
                join_archive_name(p.as_str(), rel_s.as_str())
            }
        },
    }
}

} // verus!
