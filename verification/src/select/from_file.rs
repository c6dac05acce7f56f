//! Include / exclude / filter list files, with size and line caps.
//!
//! The list files are read elsewhere; the loaders here take their lines, and
//! [`read_capped_lines_from_reader`] turns the bytes read into capped lines.

use crate::error::{Error, Result};
use crate::select::rules::{filter_line_spec, from_file_line_spec, RuleAction, RuleModel, RuleSet};
use crate::util::soft_log::{dec_chars, dec_str};
use crate::text::{
    chars_of, concat_str, decode_utf8_text, split, split_chars, string_from, string_of, utf8, views,
};
use vstd::prelude::*;

verus! {

/// Maximum filter/list file size in bytes (10 MiB).
pub const MAX_FILTER_FILE_BYTES: u64 = 10485760;

/// Maximum number of lines per filter/list file.
pub const MAX_FILTER_FILE_LINES: usize = 1000000;

pub open spec fn str_views(v: Seq<String>) -> Seq<Seq<char>> {
    v.map_values(|s: String| s@)
}

/// Rule outcome of one list line: `None` = error, `Some(None)` = skipped.
pub open spec fn list_line_spec(line: Seq<char>, default: Option<RuleAction>) -> Option<Option<RuleModel>> {
    match default {
        Some(d) => from_file_line_spec(line, d),
        None => filter_line_spec(line),
    }
}

/// Rules appended by the first `k` lines, and whether all of them were accepted
/// (loading stops at the first rejected line).
pub open spec fn list_fold(lines: Seq<Seq<char>>, k: int, default: Option<RuleAction>) -> (bool, Seq<RuleModel>)
    decreases k,
{
    if k <= 0 {
        (true, Seq::empty())
    } else {
        let (ok, rs) = list_fold(lines, k - 1, default);
        if !ok {
            (ok, rs)
        } else {
            match list_line_spec(lines[k - 1], default) {
                None => (false, rs),
                Some(None) => (true, rs),
                Some(Some(m)) => (true, rs.push(m)),
            }
        }
    }
}

/// Start of the error message for a rejected line: the list's path, `:`, the
/// 1-based number of line `k`, `: `.
pub open spec fn line_error_prefix(path: Seq<char>, k: int) -> Seq<char> {
    path + seq![':'] + dec_str((k + 1) as nat) + seq![':', ' ']
}

/// Whether `m` starts with `p`.
pub open spec fn starts_with_chars(m: Seq<char>, p: Seq<char>) -> bool {
    m.len() >= p.len() && m.subrange(0, p.len() as int) == p
}

/// What loading `lines` into `rules` leaves: all rules of the accepted lines
/// appended, `Ok` exactly when every line was accepted; otherwise a selection
/// error naming the path and the first rejected line.
pub open spec fn list_load_result(
    path: Seq<char>,
    lines: Seq<Seq<char>>,
    default: Option<RuleAction>,
    before: Seq<RuleModel>,
    after: Seq<RuleModel>,
    r: Result<()>,
) -> bool {
    let (ok, rs) = list_fold(lines, lines.len() as int, default);
    &&& after == before + rs
    &&& ok ==> r is Ok
    &&& !ok ==> (r matches Err(e) && e is Selection)
    &&& !ok ==> exists|k: int|
        0 <= k < lines.len() && #[trigger] list_fold(lines, k, default).0 && list_line_spec(lines[k], default) is None
            && (r matches Err(Error::Selection(m)) && starts_with_chars(m@, line_error_prefix(path, k)))
}

/// The message for rejected line `i` (0-based) of the list at `path`.
fn line_error(path: &str, i: usize) -> (m: String)
    requires
        i < usize::MAX,
    ensures
        starts_with_chars(m@, line_error_prefix(path@, i as int)),
{
    let a = concat_str(path, ":");
    let num = string_of(&dec_chars((i + 1) as u64));
    let b = concat_str(a.as_str(), num.as_str());
    let m = concat_str(b.as_str(), ": invalid rule line");
    proof {
        reveal_strlit(":");
        reveal_strlit(": invalid rule line");
        let p = line_error_prefix(path@, i as int);
        assert(m@ == path@ + seq![':'] + dec_str((i + 1) as nat) + ": invalid rule line"@);
        assert(m@.subrange(0, p.len() as int) =~= p);
    }
    m
}

fn load_lines(rules: &mut RuleSet, path: &str, lines: &[String], default: Option<RuleAction>) -> (r: Result<()>)
    ensures
        list_load_result(path@, str_views(lines@), default, old(rules)@, final(rules)@, r),
{
    let ghost lv = str_views(lines@);
    let ghost r0 = rules@;
    let mut i: usize = 0;
    while i < lines.len()
        invariant
            i <= lines.len(),
            lv == str_views(lines@),
            r0 == old(rules)@,
            list_fold(lv, i as int, default).0,
            rules@ == r0 + list_fold(lv, i as int, default).1,
        decreases lines.len() - i,
    {
        assert(lv[i as int] == lines@[i as int]@);
        let res = match default {
            Some(d) => rules.push_from_file_line(lines[i].as_str(), d),
            None => rules.push_filter_line(lines[i].as_str()),
        };
        match res {
            Ok(()) => {},
            Err(_) => {
                proof {
                    assert(list_line_spec(lv[i as int], default) is None);
                    assert(list_fold(lv, i + 1, default) == (false, list_fold(lv, i as int, default).1));
                    lemma_list_fold_stops(lv, i + 1, lines.len() as int, default);
                    assert(lv.len() == lines.len());
                    assert(rules@ == r0 + list_fold(lv, lines.len() as int, default).1);
                    assert(list_fold(lv, i as int, default).0);
                }
                return Err(Error::Selection(line_error(path, i)));
            },
        }
        i = i + 1;
    }
    assert(lv.len() == lines.len());
    Ok(())
}

proof fn lemma_list_fold_stops(lines: Seq<Seq<char>>, k: int, n: int, default: Option<RuleAction>)
    requires
        0 <= k <= n,
        !list_fold(lines, k, default).0,
    ensures
        list_fold(lines, n, default) == list_fold(lines, k, default),
    decreases n - k,
{
    if k < n {
        lemma_list_fold_stops(lines, k + 1, n, default);
    }
}

/// Load an exclude list: bare lines are excludes; `+`/`-` prefixes honored.
pub fn load_exclude_from(rules: &mut RuleSet, path: &str, lines: &[String]) -> (r: Result<()>)
    ensures
        list_load_result(path@, str_views(lines@), Some(RuleAction::Exclude), old(rules)@, final(rules)@, r),
{
    load_lines(rules, path, lines, Some(RuleAction::Exclude))
}

/// Load an include list: bare lines are includes; `+`/`-` prefixes honored.
pub fn load_include_from(rules: &mut RuleSet, path: &str, lines: &[String]) -> (r: Result<()>)
    ensures
        list_load_result(path@, str_views(lines@), Some(RuleAction::Include), old(rules)@, final(rules)@, r),
{
    load_lines(rules, path, lines, Some(RuleAction::Include))
}

/// Load a filter list: each non-comment line must be `+`/`-`/`include`/`exclude`.
pub fn load_filter_from(rules: &mut RuleSet, path: &str, lines: &[String]) -> (r: Result<()>)
    ensures
        list_load_result(path@, str_views(lines@), None, old(rules)@, final(rules)@, r),
{
    load_lines(rules, path, lines, None)
}

/// The lines of a text (as `str::lines`): split at `\n`, a `\r` before a `\n`
/// removed, no final empty line.
pub open spec fn lines_spec(t: Seq<char>) -> Seq<Seq<char>> {
    let p = split(t, '\n');
    let body = if p.last().len() == 0 { p.drop_last() } else { p };
    Seq::new(
        body.len(),
        |k: int|
            if k < p.len() - 1 && body[k].len() > 0 && body[k].last() == '\r' {
                body[k].drop_last()
            } else {
                body[k]
            },
    )
}

/// Outcome class of [`read_capped_lines_from_reader`].
pub enum CappedOutcome {
    Lines(Seq<Seq<char>>),
    TooLarge,
    NotUtf8,
}

/// Capped lines of the bytes read from a list (`data` holds what the reader
/// yielded, read with a cap of `max_bytes + 1`).
pub open spec fn capped_spec(data: Seq<u8>, text: Seq<char>, max_bytes: u64, max_lines: usize) -> CappedOutcome {
    if data.len() > max_bytes {
        CappedOutcome::TooLarge
    } else if !vstd::utf8::valid_utf8(data) {
        CappedOutcome::NotUtf8
    } else if lines_spec(text).len() > max_lines {
        CappedOutcome::TooLarge
    } else {
        CappedOutcome::Lines(lines_spec(text))
    }
}

/// Turn the bytes read from a list file into its lines, with a byte cap and a
/// line cap (`Error::FilterFileTooLarge` past either; `Error::Selection` when
/// the bytes are not UTF-8).
pub fn read_capped_lines_from_reader(
    path_for_errors: &str,
    data: Vec<u8>,
    max_bytes: u64,
    max_lines: usize,
) -> (r: Result<Vec<String>>)
    ensures
        data@.len() > max_bytes ==> (r matches Err(e) && e is FilterFileTooLarge),
        data@.len() <= max_bytes && !vstd::utf8::valid_utf8(data@) ==> (r matches Err(e) && e is Selection),
        data@.len() <= max_bytes && vstd::utf8::valid_utf8(data@) ==> exists|text: Seq<char>| utf8(text) == data@ && match capped_spec(data@, text, max_bytes, max_lines) {
            CappedOutcome::Lines(ls) => r matches Ok(v) && str_views(v@) == ls,
            CappedOutcome::TooLarge => r matches Err(e) && e is FilterFileTooLarge,
            CappedOutcome::NotUtf8 => false,
        },
{
    if data.len() as u64 > max_bytes {
        return Err(Error::FilterFileTooLarge {
            path: string_from(path_for_errors),
            detail: string_from("byte limit exceeded"),
        });
    }
    let text = match decode_utf8_text(data) {
        Some(t) => t,
        None => {
            return Err(Error::Selection(concat_str("list file is not valid UTF-8: ", path_for_errors)));
        },
    };
    let chars = chars_of(text.as_str());
    let parts = split_chars(&chars, '\n');
    let np = parts.len();
    let body_len = if parts[np - 1].len() == 0 { np - 1 } else { np };
    let ghost ls = lines_spec(text@);
    proof {
        assert(views(parts@).last() == parts@[np - 1]@);
    }
    if body_len > max_lines {
        return Err(Error::FilterFileTooLarge {
            path: string_from(path_for_errors),
            detail: string_from("line limit exceeded"),
        });
    }
    let mut out: Vec<String> = Vec::new();
    let mut k: usize = 0;
    while k < body_len
        invariant
            k <= body_len,
            body_len <= np,
            np == parts.len(),
            views(parts@) == split(text@, '\n'),
            ls == lines_spec(text@),
            ls.len() == body_len,
            str_views(out@) == ls.take(k as int),
        decreases body_len - k,
    {
        let p = &parts[k];
        assert(views(parts@)[k as int] == p@);
        let ghost ov = out@;
        let s = if k + 1 < np && p.len() > 0 && p[p.len() - 1] == '\r' {
            let q = crate::text::slice_of(p, 0, p.len() - 1);
            assert(q@ == p@.drop_last());
            string_of(&q)
        } else {
            string_of(p)
        };
        assert(s@ == ls[k as int]);
        out.push(s);
        assert(str_views(out@) =~= str_views(ov).push(s@));
        assert(ls.take(k + 1) =~= ls.take(k as int).push(ls[k as int]));
        assert(str_views(out@) =~= ls.take(k + 1));
        k = k + 1;
    }
    assert(ls.take(body_len as int) == ls);
    Ok(out)
}

} // verus!
