//! Restriction list files (path / pattern plus `key=value` fields).
//!
//! - file-size lists: per matching archive path, a maximum size (`PATTERN max=SIZE`).
//! - directory lists: size budgets (`max=SIZE`) and file counts (`files=N`) for
//!   listed prefixes, or the short form `PATH=SIZE`.
//!
//! Blank and `#` lines are skipped; invalid lines are ignored by the loaders.
//! The list files are read elsewhere; loaders take their lines.

use crate::error::{Error, Result};
use crate::select::dir_budget::{
    budget_prefix_spec, normalize_budget_prefix, BudgetOutcome, DirBudget, DirFileLimit,
};
use crate::select::global_restrict::{parse_u64_spec, parse_u64_text};
use crate::select::matcher::{path_matches_rule, path_matches_spec};
use crate::select::report::{as_restriction, rview, rviews, select_by, RestrictionReport};
use crate::select::rules::{parse_rule, parse_rule_spec, Rule, RuleAction, RuleModel};
use crate::select::walk::{SelectedEntry, SelectionStats};
use crate::text::{
    chars_of, contains_char, eq_chars, has_infix, has_infix_chars, has_prefix, has_ws,
    has_ws_chars, join, join_chars, slice_of, split_once_chars, split_once_spec, starts_with,
    string_from, string_of, trim, trim_chars, utf8, views, words, words_of,
};
use crate::util::size_parse::{byte_size_spec, parse_byte_size};
use vstd::prelude::*;

verus! {

/// One file-size restriction: pattern plus maximum size.
#[derive(Debug)]
pub struct FileSizeRule {
    /// Pattern used for matching (include-style; first match wins).
    pub rule: Rule,
    pub max_size: u64,
}

impl View for FileSizeRule {
    type V = (RuleModel, u64);

    open spec fn view(&self) -> (RuleModel, u64) {
        (self.rule@, self.max_size)
    }
}

/// Parsed fields from one directory-restriction line.
#[derive(Debug, Clone, PartialEq, Eq)]
pub struct DirRestrictLine {
    pub prefix: String,
    pub max_size: Option<u64>,
    pub max_files: Option<u64>,
}

pub open spec fn kw_max() -> Seq<char> {
    seq!['m', 'a', 'x', '=']
}

pub open spec fn kw_files() -> Seq<char> {
    seq!['f', 'i', 'l', 'e', 's', '=']
}

pub open spec fn kw_min() -> Seq<char> {
    seq!['m', 'i', 'n', '=']
}

/// State of the token scan of a restriction line.
pub struct TokAcc {
    pub bad: bool,
    pub max: Option<u64>,
    pub files: Option<u64>,
    pub parts: Seq<Seq<char>>,
}

pub open spec fn tok_bad(st: TokAcc) -> TokAcc {
    TokAcc { bad: true, ..st }
}

/// One token: `max=SIZE`, `files=N` (when allowed), a rejected field, or a
/// path / pattern word.
pub open spec fn tok_step(st: TokAcc, tok: Seq<char>, allow_files: bool) -> TokAcc {
    if st.bad {
        st
    } else if starts_with(tok, kw_max()) {
        let rest = tok.skip(4);
        if rest.len() == 0 || st.max is Some {
            tok_bad(st)
        } else {
            match byte_size_spec(rest) {
                Some(v) => TokAcc { max: Some(v), ..st },
                None => tok_bad(st),
            }
        }
    } else if allow_files && starts_with(tok, kw_files()) {
        let rest = tok.skip(6);
        if rest.len() == 0 || st.files is Some {
            tok_bad(st)
        } else {
            match parse_u64_spec(rest) {
                Some(n) => TokAcc { files: Some(n as u64), ..st },
                None => tok_bad(st),
            }
        }
    } else if starts_with(tok, kw_min()) || tok.contains('=') {
        tok_bad(st)
    } else {
        TokAcc { parts: st.parts.push(tok), ..st }
    }
}

/// Token scan over the first `k` tokens.
pub open spec fn tok_fold(toks: Seq<Seq<char>>, k: int, allow_files: bool) -> TokAcc
    decreases k,
{
    if k <= 0 {
        TokAcc { bad: false, max: None, files: None, parts: Seq::empty() }
    } else {
        tok_step(tok_fold(toks, k - 1, allow_files), toks[k - 1], allow_files)
    }
}

proof fn lemma_fold_bad_stays(toks: Seq<Seq<char>>, k: int, n: int, allow_files: bool)
    requires
        0 <= k <= n,
        tok_fold(toks, k, allow_files).bad,
    ensures
        tok_fold(toks, n, allow_files).bad,
    decreases n - k,
{
    if k < n {
        lemma_fold_bad_stays(toks, k + 1, n, allow_files);
    }
}

/// Scans the tokens; `None` when a token is rejected.
fn fold_tokens(toks: &Vec<Vec<char>>, allow_files: bool) -> (r: Option<(Option<u64>, Option<u64>, Vec<Vec<char>>)>)
    ensures
        match r {
            None => tok_fold(views(toks@), toks.len() as int, allow_files).bad,
            Some((mx, fl, parts)) => {
                let st = tok_fold(views(toks@), toks.len() as int, allow_files);
                !st.bad && st.max == mx && st.files == fl && st.parts == views(parts@)
            },
        },
{
    let ghost tv = views(toks@);
    let kmax = vec!['m', 'a', 'x', '='];
    let kfiles = vec!['f', 'i', 'l', 'e', 's', '='];
    let kmin = vec!['m', 'i', 'n', '='];
    assert(kmax@ =~= kw_max() && kfiles@ =~= kw_files() && kmin@ =~= kw_min());
    let mut mx: Option<u64> = None;
    let mut fl: Option<u64> = None;
    let mut parts: Vec<Vec<char>> = Vec::new();
    let mut k: usize = 0;
    while k < toks.len()
        invariant
            k <= toks.len(),
            tv == views(toks@),
            kmax@ == kw_max(),
            kfiles@ == kw_files(),
            kmin@ == kw_min(),
            ({
                let st = tok_fold(tv, k as int, allow_files);
                !st.bad && st.max == mx && st.files == fl && st.parts == views(parts@)
            }),
        decreases toks.len() - k,
    {
        let tok = &toks[k];
        assert(tv[k as int] == tok@);
        if has_prefix(tok, &kmax) {
            let rest = slice_of(tok, 4, tok.len());
            assert(rest@ == tok@.skip(4));
            if rest.len() == 0 || mx.is_some() {
                proof { lemma_fold_bad_stays(tv, k + 1, toks.len() as int, allow_files); }
                return None;
            }
            let rs = string_of(&rest);
            match parse_byte_size(rs.as_str()) {
                Ok(v) => {
                    mx = Some(v);
                },
                Err(_) => {
                    proof { lemma_fold_bad_stays(tv, k + 1, toks.len() as int, allow_files); }
                    return None;
                },
            }
        } else if allow_files && has_prefix(tok, &kfiles) {
            let rest = slice_of(tok, 6, tok.len());
            assert(rest@ == tok@.skip(6));
            if rest.len() == 0 || fl.is_some() {
                proof { lemma_fold_bad_stays(tv, k + 1, toks.len() as int, allow_files); }
                return None;
            }
            match parse_u64_text(&rest) {
                Some(n) => {
                    fl = Some(n);
                },
                None => {
                    proof { lemma_fold_bad_stays(tv, k + 1, toks.len() as int, allow_files); }
                    return None;
                },
            }
        } else if has_prefix(tok, &kmin) || contains_char(tok, '=') {
            proof { lemma_fold_bad_stays(tv, k + 1, toks.len() as int, allow_files); }
            return None;
        } else {
            let ghost pv = parts@;
            parts.push(slice_of(tok, 0, tok.len()));
            assert(tok@.subrange(0, tok@.len() as int) == tok@);
            assert(views(parts@) =~= views(pv).push(tok@));
        }
        k = k + 1;
    }
    Some((mx, fl, parts))
}

/// Outcome of [`parse_file_size_line`].
pub enum FileSizeOutcome {
    Rule(RuleModel, u64),
    /// Rejected with `Error::Message`.
    Message,
    /// The pattern was rejected by the rule parser (`Error::Selection`).
    Pattern,
}

pub open spec fn file_size_line_spec(line: Seq<char>) -> FileSizeOutcome {
    let t = trim(line);
    if t.len() == 0 || t[0] == '#' {
        FileSizeOutcome::Message
    } else {
        let toks = words(t);
        let st = tok_fold(toks, toks.len() as int, false);
        if st.bad || st.max is None || st.parts.len() == 0 {
            FileSizeOutcome::Message
        } else {
            match parse_rule_spec(RuleAction::Include, join(st.parts, seq![' '])) {
                Some(r) => FileSizeOutcome::Rule(r, st.max->0),
                None => FileSizeOutcome::Pattern,
            }
        }
    }
}

/// Parse one file-size line: `PATTERN max=SIZE` (the `max=` field may come first).
/// Exactly one `max=` is required; `min=` and other fields are rejected.
pub fn parse_file_size_line(line: &str) -> (r: Result<FileSizeRule>)
    ensures
        match file_size_line_spec(line@) {
            FileSizeOutcome::Rule(m, s) => r matches Ok(x) && x@ == (m, s),
            FileSizeOutcome::Message => r matches Err(e) && e is Message,
            FileSizeOutcome::Pattern => r matches Err(e) && e is Selection,
        },
{
    let raw = chars_of(line);
    let t = trim_chars(&raw);
    if t.len() == 0 || t[0] == '#' {
        return Err(Error::Message(string_from("empty or comment file-size line")));
    }
    let toks = words_of(&t);
    let (mx, _fl, parts) = match fold_tokens(&toks, false) {
        Some(x) => x,
        None => {
            return Err(Error::Message(string_from("invalid file-size line")));
        },
    };
    let max_size = match mx {
        Some(m) => m,
        None => {
            return Err(Error::Message(string_from("invalid file-size line: need max=SIZE")));
        },
    };
    if parts.len() == 0 {
        return Err(Error::Message(string_from("invalid file-size line: missing path/pattern")));
    }
    let pat = join_chars(&parts, ' ');
    let pat_s = string_of(&pat);
    let rule = parse_rule(RuleAction::Include, pat_s.as_str())?;
    Ok(FileSizeRule { rule, max_size })
}

/// Rules of the valid lines among the first `k`, in order.
pub open spec fn file_size_rules(lines: Seq<Seq<char>>, k: int) -> Seq<(RuleModel, u64)>
    decreases k,
{
    if k <= 0 {
        Seq::empty()
    } else {
        match file_size_line_spec(lines[k - 1]) {
            FileSizeOutcome::Rule(m, s) => file_size_rules(lines, k - 1).push((m, s)),
            _ => file_size_rules(lines, k - 1),
        }
    }
}

pub open spec fn str_views(v: Seq<String>) -> Seq<Seq<char>> {
    v.map_values(|s: String| s@)
}

pub open spec fn fs_views(v: Seq<FileSizeRule>) -> Seq<(RuleModel, u64)> {
    v.map_values(|r: FileSizeRule| r@)
}

/// Load file-size rules from the lines of a list (ordered; first match wins
/// when applied). Blank, comment and invalid lines are ignored.
pub fn load_file_size_from(lines: &[String]) -> (r: Result<Vec<FileSizeRule>>)
    ensures
        r matches Ok(v) && fs_views(v@) == file_size_rules(str_views(lines@), lines.len() as int),
{
    let ghost lv = str_views(lines@);
    let mut out: Vec<FileSizeRule> = Vec::new();
    let mut i: usize = 0;
    while i < lines.len()
        invariant
            i <= lines.len(),
            lv == str_views(lines@),
            fs_views(out@) == file_size_rules(lv, i as int),
        decreases lines.len() - i,
    {
        assert(lv[i as int] == lines@[i as int]@);
        match parse_file_size_line(lines[i].as_str()) {
            Ok(rule) => {
                let ghost ov = out@;
                out.push(rule);
                assert(fs_views(out@) =~= fs_views(ov).push(out@.last()@));
            },
            Err(_) => {},
        }
        i = i + 1;
    }
    Ok(out)
}

/// Index of the first rule matching `name` among the first `k`.
pub open spec fn first_size_match(rules: Seq<(RuleModel, u64)>, name: Seq<char>, k: int) -> Option<int>
    decreases k,
{
    if k <= 0 {
        None
    } else {
        match first_size_match(rules, name, k - 1) {
            Some(j) => Some(j),
            None => if path_matches_spec(rules[k - 1].0, utf8(name), false) {
                Some(k - 1)
            } else {
                None
            },
        }
    }
}

/// First file-size rule matching an archive path, if any.
pub fn match_file_size_rule<'a>(rules: &'a [FileSizeRule], archive_name: &str) -> (r: Option<&'a FileSizeRule>)
    ensures
        match first_size_match(fs_views(rules@), archive_name@, rules.len() as int) {
            Some(k) => r matches Some(x) && x@ == rules@[k]@,
            None => r is None,
        },
{
    let ghost rv = fs_views(rules@);
    let mut i: usize = 0;
    while i < rules.len()
        invariant
            i <= rules.len(),
            rv == fs_views(rules@),
            first_size_match(rv, archive_name@, i as int) is None,
        decreases rules.len() - i,
    {
        assert(rv[i as int] == rules@[i as int]@);
        if path_matches_rule(&rules[i].rule, archive_name, false) {
            proof {
                lemma_first_match_stays(rv, archive_name@, i + 1, rules.len() as int);
            }
            return Some(&rules[i]);
        }
        i = i + 1;
    }
    None
}

proof fn lemma_first_match_range(rules: Seq<(RuleModel, u64)>, name: Seq<char>, n: int)
    ensures
        first_size_match(rules, name, n) matches Some(k) ==> 0 <= k < n,
    decreases n,
{
    if n > 0 {
        lemma_first_match_range(rules, name, n - 1);
    }
}

proof fn lemma_first_match_stays(rules: Seq<(RuleModel, u64)>, name: Seq<char>, k: int, n: int)
    requires
        0 <= k <= n,
        first_size_match(rules, name, k) is Some,
    ensures
        first_size_match(rules, name, n) == first_size_match(rules, name, k),
    decreases n - k,
{
    if k < n {
        lemma_first_match_stays(rules, name, k + 1, n);
    }
}

/// Whether the file-size rules drop entry `e`: the first matching rule's
/// maximum is below the entry's size.
pub open spec fn size_rule_drops(rules: Seq<(RuleModel, u64)>, e: SelectedEntry) -> bool {
    match first_size_match(rules, e.archive_name@, rules.len() as int) {
        Some(k) => e.size > rules[k].1,
        None => false,
    }
}

pub open spec fn size_rule_keep(rules: Seq<(RuleModel, u64)>, es: Seq<SelectedEntry>) -> Seq<bool> {
    Seq::new(es.len(), |i: int| !size_rule_drops(rules, es[i]))
}

/// Per entry, whether the file-size rules keep it.
pub fn size_rule_keep_flags(entries: &[SelectedEntry], rules: &[FileSizeRule]) -> (v: Vec<bool>)
    ensures
        v@ == size_rule_keep(fs_views(rules@), entries@),
{
    let ghost rv = fs_views(rules@);
    let mut v: Vec<bool> = Vec::new();
    let mut i: usize = 0;
    while i < entries.len()
        invariant
            i <= entries.len(),
            rv == fs_views(rules@),
            v@.len() == i,
            forall|k: int| 0 <= k < i ==> v@[k] == !size_rule_drops(rv, entries@[k]),
        decreases entries.len() - i,
    {
        let e = &entries[i];
        assert(rv.len() == rules@.len());
        let drop = match match_file_size_rule(rules, e.archive_name.as_str()) {
            Some(r) => {
                proof {
                    lemma_first_match_range(rv, e.archive_name@, rules.len() as int);
                    let k = first_size_match(rv, e.archive_name@, rules.len() as int)->0;
                    assert(rv[k] == rules@[k]@);
                }
                e.size > r.max_size
            },
            None => false,
        };
        v.push(!drop);
        i = i + 1;
    }
    assert(v@ =~= size_rule_keep(rv, entries@));
    v
}

/// Report views of the dropped entries among the first `n`, in order.
pub open spec fn size_rule_dropped(rules: Seq<(RuleModel, u64)>, es: Seq<SelectedEntry>, n: int) -> Seq<(Seq<char>, u64)>
    decreases n,
{
    if n <= 0 {
        Seq::empty()
    } else if size_rule_drops(rules, es[n - 1]) {
        size_rule_dropped(rules, es, n - 1).push(rview(es[n - 1]))
    } else {
        size_rule_dropped(rules, es, n - 1)
    }
}

/// Apply file-size rules: only matching paths are size-capped (first match
/// wins); a file above the cap is skipped. Keeps the order of kept entries.
pub fn apply_file_size_from(
    entries: Vec<SelectedEntry>,
    rules: &[FileSizeRule],
    stats: &mut SelectionStats,
    report: &mut RestrictionReport,
) -> (r: Result<Vec<SelectedEntry>>)
    requires
        old(stats).skipped_file_size_from + entries.len() <= u64::MAX,
    ensures
        r matches Ok(out) && {
            let rv = fs_views(rules@);
            let es = entries@;
            &&& out@ == select_by(es, size_rule_keep(rv, es))
            &&& *final(stats) == (SelectionStats {
                selected: out@.len() as u64,
                skipped_file_size_from: (old(stats).skipped_file_size_from + size_rule_dropped(rv, es, es.len() as int).len()) as u64,
                ..*old(stats)
            })
            &&& rviews(final(report).skipped_file_size_from@) == rviews(old(report).skipped_file_size_from@) + size_rule_dropped(rv, es, es.len() as int)
            &&& final(report).skipped_max_size == old(report).skipped_max_size
            &&& final(report).skipped_min_size == old(report).skipped_min_size
            &&& final(report).skipped_older_than == old(report).skipped_older_than
            &&& final(report).max_total_size == old(report).max_total_size
            &&& final(report).max_files == old(report).max_files
        },
{
    let ghost es = entries@;
    let ghost rv = fs_views(rules@);
    let ghost s0 = *stats;
    let ghost r0 = *report;
    let n = entries.len();
    let mut kept: Vec<SelectedEntry> = Vec::new();
    let mut i: usize = 0;
    for e in it: entries
        invariant
            n == es.len(),
            it.seq() == es,
            i == it.index(),
            i <= n,
            rv == fs_views(rules@),
            s0.skipped_file_size_from + n <= u64::MAX,
            kept@ == select_by(es.take(i as int), size_rule_keep(rv, es)),
            size_rule_dropped(rv, es, i as int).len() <= i,
            *stats == (SelectionStats {
                skipped_file_size_from: (s0.skipped_file_size_from + size_rule_dropped(rv, es, i as int).len()) as u64,
                ..s0
            }),
            rviews(report.skipped_file_size_from@) == rviews(r0.skipped_file_size_from@) + size_rule_dropped(rv, es, i as int),
            report.skipped_max_size == r0.skipped_max_size,
            report.skipped_min_size == r0.skipped_min_size,
            report.skipped_older_than == r0.skipped_older_than,
            report.max_total_size == r0.max_total_size,
            report.max_files == r0.max_files,
    {
        proof {
            assert(es.take(i + 1).drop_last() == es.take(i as int));
            assert(es.take(i + 1).last() == es[i as int]);
            assert(e == es[i as int]);
        }
        assert(rv.len() == rules@.len());
        let drop = match match_file_size_rule(rules, e.archive_name.as_str()) {
            Some(r) => {
                proof {
                    lemma_first_match_range(rv, e.archive_name@, rules.len() as int);
                    let k = first_size_match(rv, e.archive_name@, rules.len() as int)->0;
                    assert(rv[k] == rules@[k]@);
                }
                e.size > r.max_size
            },
            None => false,
        };
        assert(drop == size_rule_drops(rv, es[i as int]));
        if drop {
            stats.skipped_file_size_from = stats.skipped_file_size_from + 1;
            let ghost v0 = report.skipped_file_size_from@;
            let f = as_restriction(&e);
            report.skipped_file_size_from.push(f);
            assert(rviews(report.skipped_file_size_from@) =~= rviews(v0).push(f@));
        } else {
            kept.push(e);
        }
        i = i + 1;
    }
    proof {
        assert(es.take(n as int) == es);
    }
    stats.selected = kept.len() as u64;
    Ok(kept)
}

/// Outcome of [`parse_dir_restrict_line`].
pub enum DirLineOutcome {
    Line(Seq<char>, Option<u64>, Option<u64>),
    Message,
    Traversal,
    Invalid,
}

pub open spec fn dir_line_result(o: DirLineOutcome, r: Result<DirRestrictLine>) -> bool {
    match o {
        DirLineOutcome::Line(p, ms, mf) => r matches Ok(x) && x.prefix@ == p && x.max_size == ms
            && x.max_files == mf,
        DirLineOutcome::Message => r matches Err(e) && e is Message,
        DirLineOutcome::Traversal => r matches Err(e) && e is PathTraversal,
        DirLineOutcome::Invalid => r matches Err(e) && e is InvalidMemberName,
    }
}

/// The line is in the short `PATH=SIZE` form.
pub open spec fn is_short_form(t: Seq<char>) -> bool {
    !has_ws(t) && !has_infix(t, kw_max()) && !has_infix(t, kw_files()) && t.contains('=')
}

pub open spec fn dir_line_spec(line: Seq<char>) -> DirLineOutcome {
    let t = trim(line);
    if t.len() == 0 || t[0] == '#' {
        DirLineOutcome::Message
    } else if is_short_form(t) {
        let (p, z) = split_once_spec(t, '=')->0;
        match budget_prefix_spec(p) {
            BudgetOutcome::Budget(n, _) => match byte_size_spec(trim(z)) {
                Some(l) => DirLineOutcome::Line(n, Some(l), None),
                None => DirLineOutcome::Message,
            },
            BudgetOutcome::Message => DirLineOutcome::Message,
            BudgetOutcome::Traversal => DirLineOutcome::Traversal,
            BudgetOutcome::Invalid => DirLineOutcome::Invalid,
        }
    } else {
        let toks = words(t);
        let st = tok_fold(toks, toks.len() as int, true);
        if st.bad || st.parts.len() == 0 || (st.max is None && st.files is None) {
            DirLineOutcome::Message
        } else {
            match budget_prefix_spec(join(st.parts, seq![' '])) {
                BudgetOutcome::Budget(n, _) => DirLineOutcome::Line(n, st.max, st.files),
                BudgetOutcome::Message => DirLineOutcome::Message,
                BudgetOutcome::Traversal => DirLineOutcome::Traversal,
                BudgetOutcome::Invalid => DirLineOutcome::Invalid,
            }
        }
    }
}

/// Parse a directory restriction line: `logs/ max=500M`, `logs/ files=100`,
/// `cache/ max=1G files=50`, or the short form `logs/=100M`. At least one of
/// `max=` / `files=` (or the short form's size) is required.
pub fn parse_dir_restrict_line(line: &str) -> (r: Result<DirRestrictLine>)
    ensures
        dir_line_result(dir_line_spec(line@), r),
{
    let raw = chars_of(line);
    let t = trim_chars(&raw);
    if t.len() == 0 || t[0] == '#' {
        return Err(Error::Message(string_from("empty or comment directory restriction line")));
    }
    let kmax = vec!['m', 'a', 'x', '='];
    let kfiles = vec!['f', 'i', 'l', 'e', 's', '='];
    assert(kmax@ =~= kw_max() && kfiles@ =~= kw_files());
    if !has_ws_chars(&t) && !has_infix_chars(&t, &kmax) && !has_infix_chars(&t, &kfiles)
        && contains_char(&t, '=') {
        let (p, z) = match split_once_chars(&t, '=') {
            Some(x) => x,
            None => {
                proof {
                    crate::text::lemma_first_of(t@, '=');
                    let j = choose|j: int| 0 <= j < t@.len() && t@[j] == '=';
                }
                return Err(Error::Message(string_from("invalid directory restriction")));
            },
        };
        let ps = string_of(&p);
        let prefix = match normalize_budget_prefix(ps.as_str()) {
            Ok(x) => x,
            Err(e) => {
                return Err(e);
            },
        };
        let zt = trim_chars(&z);
        let zs = string_of(&zt);
        let limit = match parse_byte_size(zs.as_str()) {
            Ok(v) => v,
            Err(_) => {
                return Err(Error::Message(string_from("invalid directory restriction size")));
            },
        };
        return Ok(DirRestrictLine { prefix, max_size: Some(limit), max_files: None });
    }
    let toks = words_of(&t);
    let (mx, fl, parts) = match fold_tokens(&toks, true) {
        Some(x) => x,
        None => {
            return Err(Error::Message(string_from("invalid directory restriction")));
        },
    };
    if parts.len() == 0 {
        return Err(Error::Message(string_from("invalid directory restriction: missing directory path")));
    }
    if mx.is_none() && fl.is_none() {
        return Err(Error::Message(string_from("invalid directory restriction: need max=SIZE and/or files=N")));
    }
    let path = join_chars(&parts, ' ');
    let path_s = string_of(&path);
    let prefix = normalize_budget_prefix(path_s.as_str())?;
    Ok(DirRestrictLine { prefix, max_size: mx, max_files: fl })
}

pub open spec fn has_prefix_key(v: Seq<(Seq<char>, u64)>, p: Seq<char>) -> bool {
    exists|j: int| 0 <= j < v.len() && (#[trigger] v[j]).0 == p
}

pub open spec fn budget_views(v: Seq<DirBudget>) -> Seq<(Seq<char>, u64)> {
    v.map_values(|b: DirBudget| b@)
}

pub open spec fn limit_views(v: Seq<DirFileLimit>) -> Seq<(Seq<char>, u64)> {
    v.map_values(|b: DirFileLimit| b@)
}

/// Budgets and file limits after merging the valid lines among the first `k`
/// into `(b0, f0)`; a prefix already present is not added again.
pub open spec fn dir_lists_merge(
    lines: Seq<Seq<char>>,
    k: int,
    b0: Seq<(Seq<char>, u64)>,
    f0: Seq<(Seq<char>, u64)>,
) -> (Seq<(Seq<char>, u64)>, Seq<(Seq<char>, u64)>)
    decreases k,
{
    if k <= 0 {
        (b0, f0)
    } else {
        let (b, f) = dir_lists_merge(lines, k - 1, b0, f0);
        match dir_line_spec(lines[k - 1]) {
            DirLineOutcome::Line(p, ms, mf) => {
                let b2 = match ms {
                    Some(l) => if has_prefix_key(b, p) { b } else { b.push((p, l)) },
                    None => b,
                };
                let f2 = match mf {
                    Some(c) => if has_prefix_key(f, p) { f } else { f.push((p, c)) },
                    None => f,
                };
                (b2, f2)
            },
            _ => (b, f),
        }
    }
}

fn has_prefix_in_budgets(v: &Vec<DirBudget>, p: &str) -> (b: bool)
    ensures
        b == has_prefix_key(budget_views(v@), p@),
{
    let pv = chars_of(p);
    let mut j: usize = 0;
    while j < v.len()
        invariant
            j <= v.len(),
            pv@ == p@,
            forall|q: int| 0 <= q < j ==> (#[trigger] budget_views(v@)[q]).0 != p@,
        decreases v.len() - j,
    {
        let x = chars_of(v[j].prefix.as_str());
        if eq_chars(&x, &pv) {
            assert(budget_views(v@)[j as int].0 == p@);
            return true;
        }
        j = j + 1;
    }
    false
}

fn has_prefix_in_limits(v: &Vec<DirFileLimit>, p: &str) -> (b: bool)
    ensures
        b == has_prefix_key(limit_views(v@), p@),
{
    let pv = chars_of(p);
    let mut j: usize = 0;
    while j < v.len()
        invariant
            j <= v.len(),
            pv@ == p@,
            forall|q: int| 0 <= q < j ==> (#[trigger] limit_views(v@)[q]).0 != p@,
        decreases v.len() - j,
    {
        let x = chars_of(v[j].prefix.as_str());
        if eq_chars(&x, &pv) {
            assert(limit_views(v@)[j as int].0 == p@);
            return true;
        }
        j = j + 1;
    }
    false
}

/// Merge the lines of a directory list into size budgets and file-count
/// limits. Invalid lines are ignored; a prefix already present in the
/// respective list is not added again.
pub fn load_dir_max_size_from(
    lines: &[String],
    budgets: &mut Vec<DirBudget>,
    file_limits: &mut Vec<DirFileLimit>,
) -> (r: Result<()>)
    ensures
        r is Ok,
        (budget_views(final(budgets)@), limit_views(final(file_limits)@)) == dir_lists_merge(
            str_views(lines@),
            lines.len() as int,
            budget_views(old(budgets)@),
            limit_views(old(file_limits)@),
        ),
{
    let ghost lv = str_views(lines@);
    let ghost b0 = budget_views(budgets@);
    let ghost f0 = limit_views(file_limits@);
    let mut i: usize = 0;
    while i < lines.len()
        invariant
            i <= lines.len(),
            lv == str_views(lines@),
            (budget_views(budgets@), limit_views(file_limits@)) == dir_lists_merge(lv, i as int, b0, f0),
        decreases lines.len() - i,
    {
        assert(lv[i as int] == lines@[i as int]@);
        match parse_dir_restrict_line(lines[i].as_str()) {
            Ok(parsed) => {
                match parsed.max_size {
                    Some(limit) => {
                        if !has_prefix_in_budgets(budgets, parsed.prefix.as_str()) {
                            let ghost bv = budgets@;
                            let b = DirBudget { prefix: string_from(parsed.prefix.as_str()), limit };
                            budgets.push(b);
                            assert(budget_views(budgets@) =~= budget_views(bv).push(b@));
                        }
                    },
                    None => {},
                }
                match parsed.max_files {
                    Some(max_count) => {
                        if !has_prefix_in_limits(file_limits, parsed.prefix.as_str()) {
                            let ghost fv = file_limits@;
                            let f = DirFileLimit { prefix: string_from(parsed.prefix.as_str()), max_count };
                            file_limits.push(f);
                            assert(limit_views(file_limits@) =~= limit_views(fv).push(f@));
                        }
                    },
                    None => {},
                }
            },
            Err(_) => {},
        }
        i = i + 1;
    }
    Ok(())
}

/// Outcome of a file-count list line: the limit, or rejected.
pub open spec fn file_limit_line_spec(line: Seq<char>) -> Option<(Seq<char>, u64)> {
    let t = trim(line);
    if has_infix(t, kw_files()) || has_infix(t, kw_max()) {
        match dir_line_spec(t) {
            DirLineOutcome::Line(p, ms, mf) => if mf is Some && ms is None {
                Some((p, mf->0))
            } else {
                None
            },
            _ => None,
        }
    } else {
        match split_once_spec(t, '=') {
            None => None,
            Some((p, z)) => match budget_prefix_spec(p) {
                BudgetOutcome::Budget(n, _) => match parse_u64_spec(trim(z)) {
                    Some(c) => Some((n, c as u64)),
                    None => None,
                },
                _ => None,
            },
        }
    }
}

/// Parses `PATH=N` or `PATH/ files=N` (a `max=` field is rejected here).
fn parse_dir_file_limit_line(line: &str) -> (r: Option<DirFileLimit>)
    ensures
        match file_limit_line_spec(line@) {
            Some(v) => r matches Some(x) && x@ == v,
            None => r is None,
        },
{
    let raw = chars_of(line);
    let t = trim_chars(&raw);
    let kmax = vec!['m', 'a', 'x', '='];
    let kfiles = vec!['f', 'i', 'l', 'e', 's', '='];
    assert(kmax@ =~= kw_max() && kfiles@ =~= kw_files());
    if has_infix_chars(&t, &kfiles) || has_infix_chars(&t, &kmax) {
        let ts = string_of(&t);
        proof {
            crate::select::rules::lemma_trim_idempotent(line@);
        }
        let p = match parse_dir_restrict_line(ts.as_str()) {
            Ok(p) => p,
            Err(_) => {
                return None;
            },
        };
        let max_count = match p.max_files {
            Some(c) => c,
            None => {
                return None;
            },
        };
        if p.max_size.is_some() {
            return None;
        }
        return Some(DirFileLimit { prefix: p.prefix, max_count });
    }
    let (path, count) = match split_once_chars(&t, '=') {
        Some(x) => x,
        None => {
            return None;
        },
    };
    let ps = string_of(&path);
    let prefix = match normalize_budget_prefix(ps.as_str()) {
        Ok(x) => x,
        Err(_) => {
            return None;
        },
    };
    let ct = trim_chars(&count);
    let max_count = match parse_u64_text(&ct) {
        Some(c) => c,
        None => {
            return None;
        },
    };
    Some(DirFileLimit { prefix, max_count })
}

/// File-count limits after merging the valid lines among the first `k` into `f0`.
pub open spec fn file_limits_merge(lines: Seq<Seq<char>>, k: int, f0: Seq<(Seq<char>, u64)>) -> Seq<(Seq<char>, u64)>
    decreases k,
{
    if k <= 0 {
        f0
    } else {
        let f = file_limits_merge(lines, k - 1, f0);
        let t = trim(lines[k - 1]);
        if t.len() == 0 || t[0] == '#' {
            f
        } else {
            match file_limit_line_spec(lines[k - 1]) {
                Some((p, c)) => if has_prefix_key(f, p) { f } else { f.push((p, c)) },
                None => f,
            }
        }
    }
}

/// Merge the lines of a file-count list (`PATH=N` or `PATH/ files=N`) into
/// `existing`. Invalid lines and already present prefixes are ignored.
pub fn load_dir_max_files_from_ext(lines: &[String], existing: &mut Vec<DirFileLimit>) -> (r: Result<()>)
    ensures
        r is Ok,
        limit_views(final(existing)@) == file_limits_merge(
            str_views(lines@),
            lines.len() as int,
            limit_views(old(existing)@),
        ),
{
    let ghost lv = str_views(lines@);
    let ghost f0 = limit_views(existing@);
    let mut i: usize = 0;
    while i < lines.len()
        invariant
            i <= lines.len(),
            lv == str_views(lines@),
            limit_views(existing@) == file_limits_merge(lv, i as int, f0),
        decreases lines.len() - i,
    {
        assert(lv[i as int] == lines@[i as int]@);
        let raw = chars_of(lines[i].as_str());
        let t = trim_chars(&raw);
        if !(t.len() == 0 || t[0] == '#') {
            match parse_dir_file_limit_line(lines[i].as_str()) {
                Some(lim) => {
                    if !has_prefix_in_limits(existing, lim.prefix.as_str()) {
                        let ghost fv = existing@;
                        let ghost lm = lim@;
                        existing.push(lim);
                        assert(limit_views(existing@) =~= limit_views(fv).push(lm));
                    }
                },
                None => {},
            }
        }
        i = i + 1;
    }
    Ok(())
}

} // verus!
