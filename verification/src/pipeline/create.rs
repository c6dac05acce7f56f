//! Create pipeline: filter rules from the options, merging selections, and
//! the members each output format keeps.

use crate::cli::{CreateArgs, OutputFormat};
use crate::error::{Error, Result};
use crate::select::from_file::{list_fold, load_exclude_from, load_filter_from, load_include_from};
use crate::select::dir_budget::{apply_dir_budgets, budget_keep, budget_views, budgets_spec, parse_dir_budgets, str_views, DirBudget, DirFileLimit};
use crate::select::global_restrict::{
    apply_max_files, apply_max_total_size, apply_per_file_limits_at, class_count, class_keep, class_list, count_cap_keep,
    count_cap_lists, cutoff_of, per_file_cli_spec, per_file_limits_from_cli, size_cap_keep, size_cap_lists,
};
use crate::select::report::{count_false, rviews, select_by, take_flagged_times, RestrictionReport};
use crate::select::restrict_lists::{
    apply_file_size_from, dir_lists_merge, file_size_rules, load_dir_max_size_from, load_file_size_from, size_rule_dropped,
    size_rule_keep, size_rule_keep_flags,
};
use crate::util::size_parse::{byte_size_spec, parse_byte_size};
use crate::select::rules::{filter_line_spec, parse_rule_spec, RuleAction, RuleModel, RuleSet};
use crate::select::walk::{effective_times, with_times, MemberKind, SelectedEntry, SelectionStats};
use crate::select::{is_sep, source_spec_ok, strip_seps_spec, PathStat, SourceSpec};
use crate::text::{chars_of, eq_chars, string_from};
use vstd::hash_set::StringHashSet;
use vstd::prelude::*;

verus! {

/// A list file named on the command line and the lines read from it.
#[derive(Debug, Clone)]
pub struct ListFile {
    pub path: String,
    pub lines: Vec<String>,
}

/// The rule list files of a create, with their lines.
#[derive(Debug, Clone)]
pub struct RuleFiles {
    pub include_from: Vec<ListFile>,
    pub exclude_from: Vec<ListFile>,
    pub filter_from: Vec<ListFile>,
}

/// Rules from list files in order: whether all loaded, and the rules.
pub open spec fn lists_fold(files: Seq<ListFile>, default: Option<RuleAction>) -> (bool, Seq<RuleModel>)
    decreases files.len(),
{
    if files.len() == 0 {
        (true, Seq::empty())
    } else {
        let (ok, rs) = lists_fold(files.drop_last(), default);
        if !ok {
            (false, rs)
        } else {
            let ls = str_views(files.last().lines@);
            let (ok2, rs2) = list_fold(ls, ls.len() as int, default);
            (ok2, rs + rs2)
        }
    }
}

/// Rules from `--filter` lines in order.
pub open spec fn filters_fold(lines: Seq<Seq<char>>) -> (bool, Seq<RuleModel>)
    decreases lines.len(),
{
    if lines.len() == 0 {
        (true, Seq::empty())
    } else {
        let (ok, rs) = filters_fold(lines.drop_last());
        if !ok {
            (false, rs)
        } else {
            match filter_line_spec(lines.last()) {
                None => (false, rs),
                Some(None) => (true, rs),
                Some(Some(m)) => (true, rs.push(m)),
            }
        }
    }
}

/// Rules from `--include` / `--exclude` patterns in order.
pub open spec fn pats_fold(pats: Seq<Seq<char>>, a: RuleAction) -> (bool, Seq<RuleModel>)
    decreases pats.len(),
{
    if pats.len() == 0 {
        (true, Seq::empty())
    } else {
        let (ok, rs) = pats_fold(pats.drop_last(), a);
        if !ok {
            (false, rs)
        } else {
            match parse_rule_spec(a, pats.last()) {
                None => (false, rs),
                Some(m) => (true, rs.push(m)),
            }
        }
    }
}

/// The rule list of a create, in build order: include-from files,
/// exclude-from files, filter-from files, `--filter`, `--include`,
/// `--exclude`; `None` when a step fails.
pub open spec fn rules_spec(a: CreateArgs, f: RuleFiles) -> Option<Seq<RuleModel>> {
    let s1 = lists_fold(f.include_from@, Some(RuleAction::Include));
    let s2 = lists_fold(f.exclude_from@, Some(RuleAction::Exclude));
    let s3 = lists_fold(f.filter_from@, None);
    let s4 = filters_fold(str_views(a.filter@));
    let s5 = pats_fold(str_views(a.includes@), RuleAction::Include);
    let s6 = pats_fold(str_views(a.exclude@), RuleAction::Exclude);
    if s1.0 && s2.0 && s3.0 && s4.0 && s5.0 && s6.0 {
        Some(s1.1 + s2.1 + s3.1 + s4.1 + s5.1 + s6.1)
    } else {
        None
    }
}

fn load_lists(rules: &mut RuleSet, files: &Vec<ListFile>, default: Option<RuleAction>) -> (r: Result<()>)
    ensures
        lists_fold(files@, default).0 ==> (r is Ok && final(rules)@ == old(rules)@ + lists_fold(files@, default).1),
        !lists_fold(files@, default).0 ==> (r matches Err(e) && e is Selection),
{
    let ghost r0 = rules@;
    let mut i: usize = 0;
    while i < files.len()
        invariant
            i <= files.len(),
            lists_fold(files@.take(i as int), default).0,
            rules@ == r0 + lists_fold(files@.take(i as int), default).1,
        decreases files.len() - i,
    {
        let ghost before = rules@;
        assert(files@.take(i + 1).drop_last() =~= files@.take(i as int));
        let f = &files[i];
        let res = match default {
            Some(RuleAction::Include) => load_include_from(rules, f.path.as_str(), f.lines.as_slice()),
            Some(RuleAction::Exclude) => load_exclude_from(rules, f.path.as_str(), f.lines.as_slice()),
            None => load_filter_from(rules, f.path.as_str(), f.lines.as_slice()),
        };
        match res {
            Ok(()) => {},
            Err(e) => {
                proof {
                    lemma_lists_stuck(files@, i as int + 1, default);
                }
                return Err(e);
            },
        }
        assert(rules@ =~= r0 + lists_fold(files@.take(i + 1), default).1);
        i = i + 1;
    }
    assert(files@.take(files.len() as int) =~= files@);
    Ok(())
}

/// Once a list fails to load, later lists do not change that.
proof fn lemma_lists_stuck(files: Seq<ListFile>, n: int, default: Option<RuleAction>)
    requires
        0 < n <= files.len(),
        !lists_fold(files.take(n), default).0,
    ensures
        !lists_fold(files, default).0,
    decreases files.len() - n,
{
    if n < files.len() {
        assert(files.take(n + 1).drop_last() =~= files.take(n));
        lemma_lists_stuck(files, n + 1, default);
    } else {
        assert(files.take(n) =~= files);
    }
}


proof fn lemma_filters_stuck(lines: Seq<Seq<char>>, n: int)
    requires
        0 < n <= lines.len(),
        !filters_fold(lines.take(n)).0,
    ensures
        !filters_fold(lines).0,
    decreases lines.len() - n,
{
    if n < lines.len() {
        assert(lines.take(n + 1).drop_last() =~= lines.take(n));
        lemma_filters_stuck(lines, n + 1);
    } else {
        assert(lines.take(n) =~= lines);
    }
}

proof fn lemma_pats_stuck(pats: Seq<Seq<char>>, n: int, a: RuleAction)
    requires
        0 < n <= pats.len(),
        !pats_fold(pats.take(n), a).0,
    ensures
        !pats_fold(pats, a).0,
    decreases pats.len() - n,
{
    if n < pats.len() {
        assert(pats.take(n + 1).drop_last() =~= pats.take(n));
        lemma_pats_stuck(pats, n + 1, a);
    } else {
        assert(pats.take(n) =~= pats);
    }
}

fn push_filters(rules: &mut RuleSet, lines: &Vec<String>) -> (r: Result<()>)
    ensures
        filters_fold(str_views(lines@)).0 ==> (r is Ok && final(rules)@ == old(rules)@ + filters_fold(
            str_views(lines@),
        ).1),
        !filters_fold(str_views(lines@)).0 ==> (r matches Err(e) && e is Selection),
{
    let ghost r0 = rules@;
    let ghost ls = str_views(lines@);
    let mut i: usize = 0;
    while i < lines.len()
        invariant
            i <= lines.len(),
            ls == str_views(lines@),
            filters_fold(ls.take(i as int)).0,
            rules@ == r0 + filters_fold(ls.take(i as int)).1,
        decreases lines.len() - i,
    {
        assert(ls.take(i + 1).drop_last() =~= ls.take(i as int));
        assert(ls[i as int] == lines@[i as int]@);
        match rules.push_filter_line(lines[i].as_str()) {
            Ok(()) => {},
            Err(e) => {
                proof {
                    lemma_filters_stuck(ls, i as int + 1);
                }
                return Err(e);
            },
        }
        assert(rules@ =~= r0 + filters_fold(ls.take(i + 1)).1);
        i = i + 1;
    }
    assert(ls.take(lines.len() as int) =~= ls);
    Ok(())
}

fn push_patterns(rules: &mut RuleSet, pats: &Vec<String>, a: RuleAction) -> (r: Result<()>)
    ensures
        pats_fold(str_views(pats@), a).0 ==> (r is Ok && final(rules)@ == old(rules)@ + pats_fold(
            str_views(pats@),
            a,
        ).1),
        !pats_fold(str_views(pats@), a).0 ==> (r matches Err(e) && e is Selection),
{
    let ghost r0 = rules@;
    let ghost ps = str_views(pats@);
    let mut i: usize = 0;
    while i < pats.len()
        invariant
            i <= pats.len(),
            ps == str_views(pats@),
            pats_fold(ps.take(i as int), a).0,
            rules@ == r0 + pats_fold(ps.take(i as int), a).1,
        decreases pats.len() - i,
    {
        assert(ps.take(i + 1).drop_last() =~= ps.take(i as int));
        assert(ps[i as int] == pats@[i as int]@);
        let res = match a {
            RuleAction::Include => rules.push_include(pats[i].as_str()),
            RuleAction::Exclude => rules.push_exclude(pats[i].as_str()),
        };
        match res {
            Ok(()) => {},
            Err(e) => {
                proof {
                    lemma_pats_stuck(ps, i as int + 1, a);
                }
                return Err(e);
            },
        }
        assert(rules@ =~= r0 + pats_fold(ps.take(i + 1), a).1);
        i = i + 1;
    }
    assert(ps.take(pats.len() as int) =~= ps);
    Ok(())
}

/// Build the ordered filter rules of a create from its options and the
/// lines of its rule list files (see [`rules_spec`]).
pub fn build_rules(args: &CreateArgs, files: &RuleFiles) -> (r: Result<RuleSet>)
    ensures
        match rules_spec(*args, *files) {
            Some(rs) => r matches Ok(set) && set@ == rs,
            None => r matches Err(e) && e is Selection,
        },
{
    let mut rules = RuleSet::new();
    load_lists(&mut rules, &files.include_from, Some(RuleAction::Include))?;
    load_lists(&mut rules, &files.exclude_from, Some(RuleAction::Exclude))?;
    load_lists(&mut rules, &files.filter_from, None)?;
    push_filters(&mut rules, &args.filter)?;
    push_patterns(&mut rules, &args.includes, RuleAction::Include)?;
    push_patterns(&mut rules, &args.exclude, RuleAction::Exclude)?;
    Ok(rules)
}


pub open spec fn entry_names(es: Seq<SelectedEntry>) -> Seq<Seq<char>> {
    es.map_values(|e: SelectedEntry| e.archive_name@)
}

/// Whether extra entry `k` takes a name already used by the base or by an
/// earlier extra entry.
pub open spec fn collides(base: Seq<SelectedEntry>, extra: Seq<SelectedEntry>, k: int) -> bool {
    entry_names(base).contains(extra[k].archive_name@) || entry_names(extra.take(k)).contains(extra[k].archive_name@)
}

proof fn lemma_names_push(es: Seq<SelectedEntry>, e: SelectedEntry)
    ensures
        forall|y: Seq<char>| #[trigger] entry_names(es.push(e)).contains(y) <==> (entry_names(es).contains(y) || y
            == e.archive_name@),
{
    assert(entry_names(es.push(e)) =~= entry_names(es).push(e.archive_name@));
    let n = entry_names(es);
    assert forall|y: Seq<char>| #[trigger] n.push(e.archive_name@).contains(y) <==> (n.contains(y) || y
        == e.archive_name@) by {
        if n.push(e.archive_name@).contains(y) {
            let p = choose|p: int| 0 <= p < n.push(e.archive_name@).len() && n.push(e.archive_name@)[p] == y;
            if p < n.len() {
                assert(n[p] == y);
            }
        }
        if n.contains(y) {
            let p = choose|p: int| 0 <= p < n.len() && n[p] == y;
            assert(n.push(e.archive_name@)[p] == y);
        }
        if y == e.archive_name@ {
            assert(n.push(e.archive_name@)[n.len() as int] == y);
        }
    }
}

/// `a + b`, held at `u64::MAX`.
pub open spec fn sat(a: u64, b: u64) -> u64 {
    if a + b > u64::MAX {
        u64::MAX
    } else {
        (a + b) as u64
    }
}

/// Append `extra` (a second selection) to `base`, adding up the skip counters
/// and counting the merged selection; an archive name used twice is an error.
pub fn merge_selection(
    base: &mut Vec<SelectedEntry>,
    base_stats: &mut SelectionStats,
    extra: Vec<SelectedEntry>,
    extra_stats: SelectionStats,
) -> (r: Result<()>)
    ensures
        (forall|k: int| 0 <= k < extra@.len() ==> !collides(old(base)@, extra@, k)) ==> {
            &&& r is Ok
            &&& final(base)@ == old(base)@ + extra@
            &&& final(base_stats).selected == final(base)@.len()
            &&& final(base_stats).skipped_excluded == sat(old(base_stats).skipped_excluded, extra_stats.skipped_excluded)
            &&& final(base_stats).skipped_symlinks == sat(old(base_stats).skipped_symlinks, extra_stats.skipped_symlinks)
            &&& final(base_stats).skipped_hardlinks == sat(old(base_stats).skipped_hardlinks, extra_stats.skipped_hardlinks)
            &&& final(base_stats).skipped_special == sat(old(base_stats).skipped_special, extra_stats.skipped_special)
            &&& final(base_stats).skipped_dir_budget == old(base_stats).skipped_dir_budget
            &&& final(base_stats).skipped_dir_file_limit == old(base_stats).skipped_dir_file_limit
            &&& final(base_stats).skipped_max_size == old(base_stats).skipped_max_size
            &&& final(base_stats).skipped_file_size_from == old(base_stats).skipped_file_size_from
            &&& final(base_stats).skipped_min_size == old(base_stats).skipped_min_size
            &&& final(base_stats).skipped_older_than == old(base_stats).skipped_older_than
            &&& final(base_stats).skipped_max_total_size == old(base_stats).skipped_max_total_size
            &&& final(base_stats).skipped_max_files == old(base_stats).skipped_max_files
        },
        r matches Err(e) ==> final(base)@ == old(base)@ && exists|k: int|
            0 <= k < extra@.len() && collides(old(base)@, extra@, k) && (forall|j: int| 0 <= j < k ==> !collides(old(base)@, extra@, j))
                && (e matches Error::Collision(n) && n@ == extra@[k].archive_name@),
{
    let mut more = extra;
    let mut names = StringHashSet::new();
    let mut b: usize = 0;
    while b < base.len()
        invariant
            b <= base.len(),
            base@ == old(base)@,
            forall|y: Seq<char>| #[trigger] names@.contains(y) <==> entry_names(base@.take(b as int)).contains(y),
        decreases base.len() - b,
    {
        let ghost t0 = base@.take(b as int);
        names.insert(string_from(base[b].archive_name.as_str()));
        proof {
            lemma_names_push(t0, base@[b as int]);
            assert(base@.take(b + 1) == t0.push(base@[b as int]));
        }
        b = b + 1;
    }
    assert(base@.take(base.len() as int) == base@);
    let mut i: usize = 0;
    while i < more.len()
        invariant
            i <= more.len(),
            forall|j: int| 0 <= j < i ==> !collides(base@, more@, j),
            more@ == extra@,
            base@ == old(base)@,
            forall|y: Seq<char>| #[trigger] names@.contains(y) <==> (entry_names(base@).contains(y) || entry_names(
                more@.take(i as int),
            ).contains(y)),
        decreases more.len() - i,
    {
        let fresh = names.insert(string_from(more[i].archive_name.as_str()));
        if !fresh {
            proof {
                assert(collides(old(base)@, extra@, i as int));
            }
            return Err(Error::Collision(string_from(more[i].archive_name.as_str())));
        }
        proof {
            let t0 = more@.take(i as int);
            lemma_names_push(t0, more@[i as int]);
            assert(more@.take(i + 1) == t0.push(more@[i as int]));
            assert(!collides(base@, more@, i as int));
        }
        i = i + 1;
    }
    base.append(&mut more);
    base_stats.selected = base.len() as u64;
    base_stats.skipped_excluded = base_stats.skipped_excluded.saturating_add(extra_stats.skipped_excluded);
    base_stats.skipped_symlinks = base_stats.skipped_symlinks.saturating_add(extra_stats.skipped_symlinks);
    base_stats.skipped_hardlinks = base_stats.skipped_hardlinks.saturating_add(extra_stats.skipped_hardlinks);
    base_stats.skipped_special = base_stats.skipped_special.saturating_add(extra_stats.skipped_special);
    Ok(())
}


/// Entries a format keeps: all of them for the tar formats; for 7z and
/// seekable-zstd only regular files (links are dropped).
pub open spec fn keeps_member(format: OutputFormat, e: SelectedEntry) -> bool {
    match format {
        OutputFormat::TarZstd | OutputFormat::TarLz4 => true,
        _ => e.kind is File,
    }
}

/// The entries `format` keeps, in order.
pub open spec fn format_members(format: OutputFormat, es: Seq<SelectedEntry>) -> Seq<SelectedEntry>
    decreases es.len(),
{
    if es.len() == 0 {
        Seq::empty()
    } else {
        let r = format_members(format, es.drop_last());
        if keeps_member(format, es.last()) {
            r.push(es.last())
        } else {
            r
        }
    }
}

/// How many of `es` are of the link kind picked by `symlink` (symbolic when
/// true, hard when false).
pub open spec fn count_links(es: Seq<SelectedEntry>, symlink: bool) -> nat
    decreases es.len(),
{
    if es.len() == 0 {
        0
    } else {
        count_links(es.drop_last(), symlink) + if (symlink && es.last().kind is Symlink) || (!symlink
            && es.last().kind is HardLink) {
            1nat
        } else {
            0nat
        }
    }
}

/// Drop link members for formats that only pack regular files (7z,
/// seekable-zstd), counting them as skipped; tar formats keep every entry.
pub fn filter_entries_for_format(
    format: OutputFormat,
    entries: Vec<SelectedEntry>,
    stats: &mut SelectionStats,
) -> (r: Vec<SelectedEntry>)
    requires
        old(stats).skipped_symlinks + entries.len() <= u64::MAX,
        old(stats).skipped_hardlinks + entries.len() <= u64::MAX,
    ensures
        r@ == format_members(format, entries@),
        match format {
            OutputFormat::TarZstd | OutputFormat::TarLz4 => *final(stats) == *old(stats),
            _ => *final(stats) == (SelectionStats {
                selected: r@.len() as u64,
                skipped_symlinks: (old(stats).skipped_symlinks + count_links(entries@, true)) as u64,
                skipped_hardlinks: (old(stats).skipped_hardlinks + count_links(entries@, false)) as u64,
                ..*old(stats)
            }),
        },
{
    match format {
        OutputFormat::TarZstd | OutputFormat::TarLz4 => {
            proof {
                lemma_all_kept(format, entries@);
            }
            return entries;
        },
        _ => {},
    }
    let ghost es = entries@;
    let mut kept: Vec<SelectedEntry> = Vec::new();
    let mut sym: u64 = 0;
    let mut hard: u64 = 0;
    let n = entries.len();
    proof {
        broadcast use vstd::std_specs::vec::axiom_spec_into_iter;
    }
    for e in it: entries
        invariant
            n == es.len(),
            it.seq() == es,
            format != OutputFormat::TarZstd && format != OutputFormat::TarLz4,
            kept@ == format_members(format, es.take(it.index() as int)),
            sym == count_links(es.take(it.index() as int), true),
            hard == count_links(es.take(it.index() as int), false),
            sym <= it.index(),
            hard <= it.index(),
    {
        let ghost i = it.index() as int;
        assert(es.take(i + 1).drop_last() =~= es.take(i));
        assert(e == es[i]);
        match &e.kind {
            MemberKind::File => {
                kept.push(e);
            },
            MemberKind::Symlink { .. } => {
                sym = sym + 1;
            },
            MemberKind::HardLink { .. } => {
                hard = hard + 1;
            },
        }
    }
    assert(es.take(n as int) =~= es);
    stats.skipped_symlinks = stats.skipped_symlinks + sym;
    stats.skipped_hardlinks = stats.skipped_hardlinks + hard;
    stats.selected = kept.len() as u64;
    kept
}

proof fn lemma_all_kept(format: OutputFormat, es: Seq<SelectedEntry>)
    requires
        format == OutputFormat::TarZstd || format == OutputFormat::TarLz4,
    ensures
        format_members(format, es) == es,
    decreases es.len(),
{
    if es.len() > 0 {
        lemma_all_kept(format, es.drop_last());
        assert(es.drop_last().push(es.last()) =~= es);
    }
}

/// Outcome of turning one source argument into a source spec.
pub open spec fn source_ok(s: Seq<char>, stat: PathStat) -> bool {
    &&& strip_seps_spec(s).len() > 0
    &&& (stat is Dir || (stat is File && !(s.len() > 0 && is_sep(s.last()))))
}

/// A stat with the same variant (and an empty message when it failed).
fn stat_variant(s: &PathStat) -> (r: PathStat)
    ensures
        (r is Dir) == (s is Dir),
        (r is File) == (s is File),
        (r is Other) == (s is Other),
        (r is Failed) == (s is Failed),
{
    match s {
        PathStat::Dir => PathStat::Dir,
        PathStat::File => PathStat::File,
        PathStat::Other => PathStat::Other,
        PathStat::Failed(_) => PathStat::Failed(String::new()),
    }
}

/// Source specs for the source arguments, given the non-following stat of
/// each; the first argument that is refused gives the error.
pub fn sources_from_strings(paths: &[String], stats: &[PathStat]) -> (r: Result<Vec<SourceSpec>>)
    requires
        paths.len() == stats.len(),
    ensures
        match r {
            Ok(v) => v.len() == paths.len() && forall|i: int|
                0 <= i < paths.len() ==> source_ok(paths@[i]@, stats@[i]) && source_spec_ok(
                    paths@[i]@,
                    stats@[i],
                    #[trigger] v@[i],
                ),
            Err(_) => exists|i: int|
                0 <= i < paths.len() && !#[trigger] source_ok(paths@[i]@, stats@[i]) && forall|j: int|
                    0 <= j < i ==> source_ok(paths@[j]@, stats@[j]),
        },
{
    let mut out: Vec<SourceSpec> = Vec::new();
    let mut i: usize = 0;
    while i < paths.len()
        invariant
            i <= paths.len(),
            paths.len() == stats.len(),
            out.len() == i,
            forall|j: int| 0 <= j < i ==> #[trigger] source_ok(paths@[j]@, stats@[j]),
            forall|j: int| 0 <= j < i ==> source_spec_ok(paths@[j]@, stats@[j], #[trigger] out@[j]),
        decreases paths.len() - i,
    {
        let st = stat_variant(&stats[i]);
        match SourceSpec::from_user_path_stat(paths[i].as_str(), st) {
            Ok(spec) => {
                assert(source_spec_ok(paths@[i as int]@, st, spec));
                assert(source_spec_ok(paths@[i as int]@, stats@[i as int], spec));
                assert(source_ok(paths@[i as int]@, stats@[i as int]));
                out.push(spec);
            },
            Err(e) => {
                assert(!source_ok(paths@[i as int]@, stats@[i as int]));
                return Err(e);
            },
        }
        i = i + 1;
    }
    Ok(out)
}


/// The restriction list files of a create, with their lines.
#[derive(Debug, Clone)]
pub struct RestrictLists {
    pub file_size_from: Option<Vec<String>>,
    pub dir_max_size_from: Option<Vec<String>>,
}

pub open spec fn opt_sv(o: Option<String>) -> Option<Seq<char>> {
    match o {
        Some(s) => Some(s@),
        None => None,
    }
}

/// The selection after the per-file size and age limits (`dm`: the disk
/// times of `es`), `None` when an option does not parse.
pub open spec fn after_per_file(a: CreateArgs, es: Seq<SelectedEntry>, dm: Seq<u64>, now: u64) -> Option<Seq<SelectedEntry>> {
    match per_file_cli_spec(opt_sv(a.max_size), opt_sv(a.min_size), opt_sv(a.newer_than)) {
        None => None,
        Some(l) => Some(select_by(es, class_keep(es, dm, l, cutoff_of(l, now)))),
    }
}

/// The disk times that go with [`after_per_file`]'s selection.
pub open spec fn after_per_file_times(a: CreateArgs, es: Seq<SelectedEntry>, dm: Seq<u64>, now: u64) -> Seq<u64> {
    let l = per_file_cli_spec(opt_sv(a.max_size), opt_sv(a.min_size), opt_sv(a.newer_than))->0;
    select_by(dm, class_keep(es, dm, l, cutoff_of(l, now)))
}

/// Entries as the global caps rank them: by stored time, else disk time.
pub open spec fn cap_ranked(es: Seq<SelectedEntry>, dm: Seq<u64>) -> Seq<SelectedEntry> {
    with_times(es, effective_times(es, dm))
}

/// The selection after the per-path size list.
pub open spec fn after_size_list(lists: RestrictLists, es: Seq<SelectedEntry>) -> Seq<SelectedEntry> {
    match lists.file_size_from {
        Some(ls) => select_by(es, size_rule_keep(file_size_rules(str_views(ls@), ls@.len() as int), es)),
        None => es,
    }
}

/// The disk times that go with [`after_size_list`]'s selection.
pub open spec fn after_size_list_times(lists: RestrictLists, es: Seq<SelectedEntry>, dm: Seq<u64>) -> Seq<u64> {
    match lists.file_size_from {
        Some(ls) => select_by(dm, size_rule_keep(file_size_rules(str_views(ls@), ls@.len() as int), es)),
        None => dm,
    }
}

/// The directory size budgets: `--dir-max-size` then the list file's lines.
pub open spec fn budget_list(a: CreateArgs, lists: RestrictLists) -> Option<Seq<(Seq<char>, u64)>> {
    match budgets_spec(str_views(a.dir_max_size@), a.dir_max_size@.len() as int) {
        None => None,
        Some(bv) => Some(
            match lists.dir_max_size_from {
                Some(ls) => dir_lists_merge(str_views(ls@), ls@.len() as int, bv, Seq::empty()).0,
                None => bv,
            },
        ),
    }
}

/// Whether `--max-total-size` parses (or is absent).
pub open spec fn caps_ok(a: CreateArgs) -> bool {
    match a.max_total_size {
        Some(s) => byte_size_spec(s@) is Some,
        None => true,
    }
}

/// The selection after the global size and count caps.
pub open spec fn after_caps(a: CreateArgs, es: Seq<SelectedEntry>, dm: Seq<u64>) -> Seq<SelectedEntry> {
    let e4 = after_size_cap(a, es, dm);
    let d4 = after_size_cap_times(a, es, dm);
    match a.max_files {
        Some(n) => select_by(e4, count_cap_keep(cap_ranked(e4, d4), n)),
        None => e4,
    }
}

/// Room in the skip counters for every entry.
pub open spec fn counters_room(s: SelectionStats, n: int) -> bool {
    &&& s.skipped_max_size + n <= u64::MAX
    &&& s.skipped_min_size + n <= u64::MAX
    &&& s.skipped_older_than + n <= u64::MAX
    &&& s.skipped_file_size_from + n <= u64::MAX
    &&& s.skipped_dir_budget + n <= u64::MAX
    &&& s.skipped_max_total_size + n <= u64::MAX
    &&& s.skipped_max_files + n <= u64::MAX
}

/// Selecting never adds entries.
pub proof fn lemma_select_by_len<T>(es: Seq<T>, keep: Seq<bool>)
    ensures
        select_by(es, keep).len() <= es.len(),
    decreases es.len(),
{
    if es.len() > 0 {
        lemma_select_by_len(es.drop_last(), keep);
    }
}

/// The selection after the total-size cap, when given.
pub open spec fn after_size_cap(a: CreateArgs, es: Seq<SelectedEntry>, dm: Seq<u64>) -> Seq<SelectedEntry> {
    match a.max_total_size {
        Some(s) => match byte_size_spec(s@) {
            Some(lim) => select_by(es, size_cap_keep(cap_ranked(es, dm), lim)),
            None => es,
        },
        None => es,
    }
}

/// The disk times that go with [`after_size_cap`]'s selection.
pub open spec fn after_size_cap_times(a: CreateArgs, es: Seq<SelectedEntry>, dm: Seq<u64>) -> Seq<u64> {
    match a.max_total_size {
        Some(s) => match byte_size_spec(s@) {
            Some(lim) => select_by(dm, size_cap_keep(cap_ranked(es, dm), lim)),
            None => dm,
        },
        None => dm,
    }
}

/// The skip counters after restricting `es` (clock at `now`, budgets `b`)
/// from counters `s`: each step adds the entries it dropped, and `selected`
/// is the count kept.
pub open spec fn restricted_stats(
    a: CreateArgs,
    lists: RestrictLists,
    es: Seq<SelectedEntry>,
    dm: Seq<u64>,
    now: u64,
    b: Seq<DirBudget>,
    s: SelectionStats,
    selected: u64,
) -> SelectionStats {
    let l = per_file_cli_spec(opt_sv(a.max_size), opt_sv(a.min_size), opt_sv(a.newer_than))->0;
    let c = cutoff_of(l, now);
    let n = es.len() as int;
    let e1 = select_by(es, class_keep(es, dm, l, c));
    let d1 = select_by(dm, class_keep(es, dm, l, c));
    let fs = match lists.file_size_from {
        Some(ls) => size_rule_dropped(file_size_rules(str_views(ls@), ls@.len() as int), e1, e1.len() as int).len(),
        None => 0,
    };
    let e2 = after_size_list(lists, e1);
    let d2 = after_size_list_times(lists, e1, d1);
    let e3 = select_by(e2, budget_keep(with_times(e2, d2), b));
    let d3 = select_by(d2, budget_keep(with_times(e2, d2), b));
    let tot = match a.max_total_size {
        Some(t) => match byte_size_spec(t@) {
            Some(lim) => count_false(size_cap_keep(cap_ranked(e3, d3), lim), e3.len() as int),
            None => 0,
        },
        None => 0,
    };
    let e4 = after_size_cap(a, e3, d3);
    let d4 = after_size_cap_times(a, e3, d3);
    let mf = match a.max_files {
        Some(m) => count_false(count_cap_keep(cap_ranked(e4, d4), m), e4.len() as int),
        None => 0,
    };
    SelectionStats {
        selected: selected,
        skipped_max_size: (s.skipped_max_size + class_count(es, dm, l, c, 1, n)) as u64,
        skipped_min_size: (s.skipped_min_size + class_count(es, dm, l, c, 2, n)) as u64,
        skipped_older_than: (s.skipped_older_than + class_count(es, dm, l, c, 3, n)) as u64,
        skipped_file_size_from: (s.skipped_file_size_from + fs) as u64,
        skipped_dir_budget: (s.skipped_dir_budget + count_false(budget_keep(with_times(e2, d2), b), e2.len() as int)) as u64,
        skipped_max_total_size: (s.skipped_max_total_size + tot) as u64,
        skipped_max_files: (s.skipped_max_files + mf) as u64,
        ..s
    }
}

/// The restriction report of restricting `es` (clock at `now`, budgets `b`):
/// the files each per-file filter and the size list dropped, in order, and
/// the global caps' kept and skipped lists when a cap was applied to a
/// non-empty selection.
pub open spec fn restricted_report(
    a: CreateArgs,
    lists: RestrictLists,
    es: Seq<SelectedEntry>,
    dm: Seq<u64>,
    now: u64,
    b: Seq<DirBudget>,
    rep: RestrictionReport,
) -> bool {
    let l = per_file_cli_spec(opt_sv(a.max_size), opt_sv(a.min_size), opt_sv(a.newer_than))->0;
    let c = cutoff_of(l, now);
    let n = es.len() as int;
    let e1 = select_by(es, class_keep(es, dm, l, c));
    let d1 = select_by(dm, class_keep(es, dm, l, c));
    let e2 = after_size_list(lists, e1);
    let d2 = after_size_list_times(lists, e1, d1);
    let e3 = select_by(e2, budget_keep(with_times(e2, d2), b));
    let d3 = select_by(d2, budget_keep(with_times(e2, d2), b));
    let e4 = after_size_cap(a, e3, d3);
    let d4 = after_size_cap_times(a, e3, d3);
    &&& rviews(rep.skipped_max_size@) == class_list(es, dm, l, c, 1, n)
    &&& rviews(rep.skipped_min_size@) == class_list(es, dm, l, c, 2, n)
    &&& rviews(rep.skipped_older_than@) == class_list(es, dm, l, c, 3, n)
    &&& rviews(rep.skipped_file_size_from@) == match lists.file_size_from {
        Some(ls) => size_rule_dropped(file_size_rules(str_views(ls@), ls@.len() as int), e1, e1.len() as int),
        None => Seq::empty(),
    }
    &&& match a.max_total_size {
        Some(t) => if e3.len() > 0 {
            rep.max_total_size matches Some(oc) && oc.limit == byte_size_spec(t@)->0 && rviews(oc.kept@)
                == size_cap_lists(cap_ranked(e3, d3), oc.limit).0 && rviews(oc.skipped@) == size_cap_lists(cap_ranked(e3, d3), oc.limit).1
        } else {
            rep.max_total_size is None
        },
        None => rep.max_total_size is None,
    }
    &&& match a.max_files {
        Some(m) => if e4.len() > 0 {
            rep.max_files matches Some(oc) && oc.max_count == m && rviews(oc.kept@) == count_cap_lists(cap_ranked(e4, d4), m).0
                && rviews(oc.skipped@) == count_cap_lists(cap_ranked(e4, d4), m).1
        } else {
            rep.max_files is None
        },
        None => rep.max_files is None,
    }
}

/// The selection after the size list, the budgets `b` and the global caps,
/// from `e1` with disk times `d1`.
pub open spec fn after_budgets_caps(a: CreateArgs, lists: RestrictLists, e1: Seq<SelectedEntry>, d1: Seq<u64>, b: Seq<DirBudget>) -> Seq<SelectedEntry> {
    let e2 = after_size_list(lists, e1);
    let d2 = after_size_list_times(lists, e1, d1);
    let k3 = budget_keep(with_times(e2, d2), b);
    after_caps(a, select_by(e2, k3), select_by(d2, k3))
}

/// What restricting `es` (disk times `dm`, the clock at `now`) gives: the errors in
/// option order, else the entries kept and the counters `s1` grown from
/// `s0` by what each step dropped.
pub open spec fn restrict_outcome(
    a: CreateArgs,
    lists: RestrictLists,
    es: Seq<SelectedEntry>,
    dm: Seq<u64>,
    now: u64,
    s0: SelectionStats,
    s1: SelectionStats,
    r: Result<(Vec<SelectedEntry>, RestrictionReport)>,
) -> bool {
    match after_per_file(a, es, dm, now) {
        None => r matches Err(e) && e is Message,
        Some(e1) => match budget_list(a, lists) {
            None => r matches Err(e) && (e is Message || e is PathTraversal || e is InvalidMemberName),
            Some(bv) => if !caps_ok(a) {
                r matches Err(e) && e is Message
            } else {
                r matches Ok((out, rep)) && exists|b: Seq<DirBudget>|
                    budget_views(b) == bv && out@ == after_budgets_caps(a, lists, e1, after_per_file_times(a, es, dm, now), b)
                    && s1 == restricted_stats(a, lists, es, dm, now, b, s0, out@.len() as u64) && restricted_report(
                    a,
                    lists,
                    es,
                    dm,
                    now,
                    b,
                    rep,
                )
            },
        },
    }
}

/// Restrict a selection, in order: per-file size / age limits (with the
/// clock at `now`), the per-path size list, directory size budgets, then the
/// global total-size and file-count caps. `disk_mtimes` holds, per entry, the
/// modification time read from disk (0 when unreadable): the budgets rank by
/// it, the age limit and the caps by the stored time, else by it. Options
/// that do not parse are errors, in that order.
#[verifier::rlimit(100)]
#[verifier::spinoff_prover]
pub fn restrict_selection_at(
    args: &CreateArgs,
    lists: &RestrictLists,
    entries: Vec<SelectedEntry>,
    disk_mtimes: Vec<u64>,
    stats: &mut SelectionStats,
    now: u64,
) -> (r: Result<(Vec<SelectedEntry>, RestrictionReport)>)
    requires
        disk_mtimes.len() == entries.len(),
        counters_room(*old(stats), entries.len() as int),
    ensures
        restrict_outcome(*args, *lists, entries@, disk_mtimes@, now, *old(stats), *final(stats), r),
{
    let ghost es = entries@;
    let ghost dm = disk_mtimes@;
    let ghost s0 = *stats;
    let mut disk = disk_mtimes;
    let mut report = RestrictionReport::default();
    proof {
        assert(rviews(report.skipped_max_size@) =~= Seq::<(Seq<char>, u64)>::empty());
        assert(rviews(report.skipped_min_size@) =~= Seq::<(Seq<char>, u64)>::empty());
        assert(rviews(report.skipped_older_than@) =~= Seq::<(Seq<char>, u64)>::empty());
        assert(rviews(report.skipped_file_size_from@) =~= Seq::<(Seq<char>, u64)>::empty());
    }
    let mx: Option<&str> = match &args.max_size {
        Some(s) => Some(s.as_str()),
        None => None,
    };
    let mn: Option<&str> = match &args.min_size {
        Some(s) => Some(s.as_str()),
        None => None,
    };
    let nt: Option<&str> = match &args.newer_than {
        Some(s) => Some(s.as_str()),
        None => None,
    };
    assert(crate::select::global_restrict::opt_view(mx) == opt_sv(args.max_size));
    assert(crate::select::global_restrict::opt_view(mn) == opt_sv(args.min_size));
    assert(crate::select::global_restrict::opt_view(nt) == opt_sv(args.newer_than));
    let limits = per_file_limits_from_cli(mx, mn, nt)?;
    let ghost k1 = class_keep(es, dm, limits, cutoff_of(limits, now));
    assert(after_per_file(*args, es, dm, now) == Some(select_by(es, k1)));
    let e1 = apply_per_file_limits_at(entries, &mut disk, &limits, now, stats, &mut report)?;
    proof {
        lemma_select_by_len(es, k1);
        lemma_select_by_same_len(es, dm, k1);
        let c = cutoff_of(limits, now);
        let n = es.len() as int;
        assert(rviews(report.skipped_max_size@) =~= class_list(es, dm, limits, c, 1, n));
        assert(rviews(report.skipped_min_size@) =~= class_list(es, dm, limits, c, 2, n));
        assert(rviews(report.skipped_older_than@) =~= class_list(es, dm, limits, c, 3, n));
        assert(rviews(report.skipped_file_size_from@) =~= Seq::<(Seq<char>, u64)>::empty());
    }
    let ghost v1 = e1@;
    let ghost t1 = disk@;
    assert(t1 == after_per_file_times(*args, es, dm, now));
    let ghost rep1 = report;
    let e2 = match &lists.file_size_from {
        Some(lines) => {
            let rules = load_file_size_from(lines.as_slice())?;
            let flags = size_rule_keep_flags(e1.as_slice(), rules.as_slice());
            take_flagged_times(&mut disk, &flags);
            let out = apply_file_size_from(e1, rules.as_slice(), stats, &mut report)?;
            proof {
                let k2 = size_rule_keep(file_size_rules(str_views(lines@), lines@.len() as int), v1);
                lemma_select_by_len(v1, k2);
                lemma_select_by_same_len(v1, t1, k2);
            }
            out
        },
        None => e1,
    };
    let ghost v2 = e2@;
    let ghost t2 = disk@;
    assert(v2 == after_size_list(*lists, v1));
    assert(t2 == after_size_list_times(*lists, v1, t1));
    let ghost rep2 = report;
    assert(rviews(rep2.skipped_file_size_from@) == match lists.file_size_from {
        Some(ls) => size_rule_dropped(file_size_rules(str_views(ls@), ls@.len() as int), v1, v1.len() as int),
        None => Seq::<(Seq<char>, u64)>::empty(),
    });
    assert(rep2.skipped_max_size == rep1.skipped_max_size && rep2.skipped_min_size == rep1.skipped_min_size
        && rep2.skipped_older_than == rep1.skipped_older_than && rep2.max_total_size is None && rep2.max_files is None);
    let mut budgets = parse_dir_budgets(args.dir_max_size.as_slice())?;
    match &lists.dir_max_size_from {
        Some(lines) => {
            let mut file_limits: Vec<DirFileLimit> = Vec::new();
            assert(crate::select::restrict_lists::limit_views(file_limits@) =~= Seq::<(Seq<char>, u64)>::empty());
            load_dir_max_size_from(lines.as_slice(), &mut budgets, &mut file_limits)?;
        },
        None => {},
    }
    let ghost bs = budgets@;
    let e3 = apply_dir_budgets(e2, budgets.as_slice(), &mut disk, stats)?;
    proof {
        let k3 = budget_keep(with_times(v2, t2), bs);
        lemma_select_by_len(v2, k3);
        lemma_select_by_same_len(v2, t2, k3);
    }
    let ghost v3 = e3@;
    let ghost t3 = disk@;
    let e4 = match &args.max_total_size {
        Some(s) => {
            let limit = parse_byte_size(s.as_str())?;
            let out = apply_max_total_size(e3, &mut disk, limit, stats, &mut report)?;
            proof {
                let k4 = size_cap_keep(cap_ranked(v3, t3), limit);
                lemma_select_by_len(v3, k4);
                lemma_select_by_same_len(v3, t3, k4);
            }
            out
        },
        None => e3,
    };
    let ghost rep4 = report;
    let ghost v4 = e4@;
    assert(v4 == after_size_cap(*args, v3, t3));
    assert(disk@ == after_size_cap_times(*args, v3, t3));
    let e5 = match args.max_files {
        Some(n) => apply_max_files(e4, &mut disk, n, stats, &mut report)?,
        None => {
            stats.selected = e4.len() as u64;
            e4
        },
    };
    proof {
        assert(budget_views(bs) == budget_list(*args, *lists)->0);
        assert(caps_ok(*args));
        assert(*stats == restricted_stats(*args, *lists, es, dm, now, bs, s0, e5@.len() as u64));
        assert(report.skipped_max_size == rep1.skipped_max_size && report.skipped_min_size == rep1.skipped_min_size
            && report.skipped_older_than == rep1.skipped_older_than && report.skipped_file_size_from
            == rep2.skipped_file_size_from);
        assert(report.max_total_size == rep4.max_total_size);
        assert(restricted_report(*args, *lists, es, dm, now, bs, report));
        assert(e5@ == after_caps(*args, v3, t3));
        assert(e5@.len() == e5.len());
        let e1s = after_per_file(*args, es, dm, now)->0;
        assert(v1 == e1s);
        assert(e5@ == after_budgets_caps(*args, *lists, e1s, after_per_file_times(*args, es, dm, now), bs));
    }
    Ok((e5, report))
}

/// Selecting by one set of flags from two sequences of one length gives
/// results of one length.
pub proof fn lemma_select_by_same_len<A, B>(a: Seq<A>, b: Seq<B>, keep: Seq<bool>)
    requires
        a.len() == b.len(),
    ensures
        select_by(a, keep).len() == select_by(b, keep).len(),
    decreases a.len(),
{
    if a.len() > 0 {
        lemma_select_by_same_len(a.drop_last(), b.drop_last(), keep);
    }
}

/// Restrict a selection with the current clock (see [`restrict_selection_at`]);
/// the clock is read only when `--newer-than` is given and there are entries.
pub fn restrict_selection(
    args: &CreateArgs,
    lists: &RestrictLists,
    entries: Vec<SelectedEntry>,
    disk_mtimes: Vec<u64>,
    stats: &mut SelectionStats,
) -> (r: Result<(Vec<SelectedEntry>, RestrictionReport)>)
    requires
        disk_mtimes.len() == entries.len(),
        counters_room(*old(stats), entries.len() as int),
    ensures
        exists|now: u64| restrict_outcome(*args, *lists, entries@, disk_mtimes@, now, *old(stats), *final(stats), r),
{
    let ghost es = entries@;
    let ghost dm = disk_mtimes@;
    let now = if args.newer_than.is_some() && entries.len() > 0 {
        crate::select::global_restrict::now_unix_secs()
    } else {
        0
    };
    let r = restrict_selection_at(args, lists, entries, disk_mtimes, stats, now);
    assert(restrict_outcome(*args, *lists, es, dm, now, *old(stats), *stats, r));
    r
}

} // verus!
