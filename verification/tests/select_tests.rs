use rsync_archive::select::collect::{files_from_archive_name, files_from_path, SelectionBuilder};
use rsync_archive::error::Error;
use rsync_archive::select::dir_budget::{
    apply_dir_budgets, is_under_budget_dir, parse_dir_budgets, parse_dir_max_size_arg, DirBudget, DirFileLimit,
};
use rsync_archive::select::from_file::{
    load_exclude_from, load_filter_from, load_include_from, read_capped_lines_from_reader, MAX_FILTER_FILE_BYTES,
    MAX_FILTER_FILE_LINES,
};
use rsync_archive::select::global_restrict::{
    apply_max_files, apply_max_total_size, apply_per_file_limits_at, parse_duration_secs, per_file_limits_from_cli,
    PerFileLimits,
};
use rsync_archive::select::matcher::{glob_match_path, glob_match_segment, path_matches_rule};
use rsync_archive::select::pathnorm::{
    basename_utf8, contains_parent_dir, has_trailing_slash, join_archive_name, normalize_archive_path,
    normalize_archive_str, normalize_prefix, validate_member_name,
};
use rsync_archive::select::report::RestrictionReport;
use rsync_archive::select::restrict_lists::{
    apply_file_size_from, load_dir_max_size_from, load_file_size_from, parse_dir_restrict_line,
    parse_file_size_line,
};
use rsync_archive::select::rules::{parse_rule, RuleAction, RuleSet};
use rsync_archive::select::walk::{MemberKind, SelectedEntry, SelectionStats};
use rsync_archive::select::{archive_name_for, PathStat, SourceKind, SourceSpec};

fn entry(name: &str, size: u64, mtime: Option<u64>) -> SelectedEntry {
    SelectedEntry {
        abs_path: format!("/src/{name}"),
        archive_name: name.into(),
        size,
        mtime_unix: mtime,
        mode: 0o644,
        uid: 0,
        gid: 0,
        uname: String::new(),
        gname: String::new(),
        kind: MemberKind::File,
    }
}

/// Disk times as the files would have them: their stored times (0 when none).
fn disk_times(es: &[SelectedEntry]) -> Vec<u64> {
    es.iter().map(|e| e.mtime_unix.unwrap_or(0)).collect()
}

fn dir_budgets(
    entries: Vec<SelectedEntry>,
    budgets: &[DirBudget],
    stats: &mut SelectionStats,
) -> rsync_archive::error::Result<Vec<SelectedEntry>> {
    let mut disk = disk_times(&entries);
    apply_dir_budgets(entries, budgets, &mut disk, stats)
}

fn per_file_at(
    entries: Vec<SelectedEntry>,
    limits: &PerFileLimits,
    now: u64,
    stats: &mut SelectionStats,
    report: &mut RestrictionReport,
) -> rsync_archive::error::Result<Vec<SelectedEntry>> {
    let mut disk = disk_times(&entries);
    apply_per_file_limits_at(entries, &mut disk, limits, now, stats, report)
}

fn max_total(
    entries: Vec<SelectedEntry>,
    limit: u64,
    stats: &mut SelectionStats,
    report: &mut RestrictionReport,
) -> rsync_archive::error::Result<Vec<SelectedEntry>> {
    let mut disk = disk_times(&entries);
    apply_max_total_size(entries, &mut disk, limit, stats, report)
}

fn max_files(
    entries: Vec<SelectedEntry>,
    cap: u64,
    stats: &mut SelectionStats,
    report: &mut RestrictionReport,
) -> rsync_archive::error::Result<Vec<SelectedEntry>> {
    let mut disk = disk_times(&entries);
    apply_max_files(entries, &mut disk, cap, stats, report)
}

fn names(es: &[SelectedEntry]) -> Vec<&str> {
    es.iter().map(|e| e.archive_name.as_str()).collect()
}

fn lines_of(text: &str) -> Vec<String> {
    read_capped_lines_from_reader("list.txt", text.as_bytes().to_vec(), MAX_FILTER_FILE_BYTES, MAX_FILTER_FILE_LINES)
        .unwrap()
}

#[test]
fn parse_path_eq_size() {
    let b = parse_dir_max_size_arg("logs/=100M").unwrap();
    assert_eq!(b.prefix, "logs");
    assert_eq!(b.limit, 100 * 1024 * 1024);
    let b = parse_dir_max_size_arg("cache=50K").unwrap();
    assert_eq!(b.prefix, "cache");
    assert_eq!(b.limit, 50 * 1024);
}

#[test]
fn parse_rejects_bad() {
    assert!(parse_dir_max_size_arg("noscale").is_err());
    assert!(parse_dir_max_size_arg("=100M").is_err());
    assert!(parse_dir_max_size_arg("logs/=").is_err());
    assert!(parse_dir_max_size_arg("../x=1").is_err());
}

#[test]
fn under_dir_match() {
    assert!(is_under_budget_dir("logs/a.txt", "logs"));
    assert!(is_under_budget_dir("logs/old/x", "logs"));
    assert!(!is_under_budget_dir("logs", "logs"));
    assert!(!is_under_budget_dir("logs2/a", "logs"));
    assert!(!is_under_budget_dir("other/a", "logs"));
}

#[test]
fn newest_first_budget_keeps_largest_newest() {
    let entries = vec![
        entry("logs/old.bin", 10, Some(100)),
        entry("logs/mid.bin", 20, Some(200)),
        entry("logs/new.bin", 30, Some(300)),
        entry("keep/me.txt", 2, Some(1)),
    ];
    let budgets = vec![DirBudget { prefix: "logs".into(), limit: 35 }];
    let mut stats = SelectionStats::default();
    let kept = dir_budgets(entries, &budgets, &mut stats).unwrap();
    assert_eq!(names(&kept), vec!["logs/new.bin", "keep/me.txt"]);
    assert_eq!(stats.skipped_dir_budget, 2);
    assert_eq!(stats.selected, 2);
}

#[test]
fn newest_first_packs_two_smaller() {
    let mut stats = SelectionStats::default();
    let kept = dir_budgets(
        vec![entry("logs/old.bin", 10, Some(200)), entry("logs/mid.bin", 20, Some(300)), entry("logs/big.bin", 30, Some(50))],
        &[DirBudget { prefix: "logs".into(), limit: 35 }],
        &mut stats,
    )
    .unwrap();
    assert_eq!(names(&kept), vec!["logs/old.bin", "logs/mid.bin"]);
    assert_eq!(stats.skipped_dir_budget, 1);
}

#[test]
fn nested_longest_prefix() {
    let budgets = vec![
        DirBudget { prefix: "logs".into(), limit: 1000 },
        DirBudget { prefix: "logs/nested".into(), limit: 15 },
    ];
    let mut stats = SelectionStats::default();
    let kept = dir_budgets(
        vec![
            entry("logs/a.bin", 10, Some(100)),
            entry("logs/nested/b.bin", 10, Some(300)),
            entry("logs/nested/c.bin", 10, Some(200)),
        ],
        &budgets,
        &mut stats,
    )
    .unwrap();
    assert_eq!(names(&kept), vec!["logs/a.bin", "logs/nested/b.bin"]);
    assert_eq!(stats.skipped_dir_budget, 1);
}

#[test]
fn name_tiebreak_same_mtime() {
    let mut stats = SelectionStats::default();
    let kept = dir_budgets(
        vec![entry("d/b", 5, Some(100)), entry("d/a", 5, Some(100))],
        &[DirBudget { prefix: "d".into(), limit: 5 }],
        &mut stats,
    )
    .unwrap();
    assert_eq!(kept.len(), 1);
    assert_eq!(kept[0].archive_name, "d/a");
    assert_eq!(stats.skipped_dir_budget, 1);
}

#[test]
fn no_budgets_noop() {
    let e = entry("x", 1, None);
    let mut stats = SelectionStats::default();
    let kept = dir_budgets(vec![e], &[], &mut stats).unwrap();
    assert_eq!(kept.len(), 1);
    assert_eq!(stats.skipped_dir_budget, 0);
}

#[test]
fn dir_budget_list_parse_reports_first_bad() {
    let ok = parse_dir_budgets(&["logs=1K".to_string(), "a/b/=2".to_string()]).unwrap();
    assert_eq!(ok.len(), 2);
    assert_eq!(ok[1].prefix, "a/b");
    assert!(matches!(parse_dir_budgets(&["x=1".to_string(), "../y=1".to_string()]), Err(Error::PathTraversal(_))));
}

#[test]
fn parse_duration_suffixes() {
    assert_eq!(parse_duration_secs("7d").unwrap(), 7 * 86_400);
    assert_eq!(parse_duration_secs("24h").unwrap(), 24 * 3_600);
    assert_eq!(parse_duration_secs("30m").unwrap(), 30 * 60);
    assert_eq!(parse_duration_secs("90s").unwrap(), 90);
    assert_eq!(parse_duration_secs("3600").unwrap(), 3600);
    assert_eq!(parse_duration_secs("0").unwrap(), 0);
    assert!(parse_duration_secs("").is_err());
    assert!(parse_duration_secs("d").is_err());
    assert!(parse_duration_secs("-1h").is_err());
    assert!(parse_duration_secs("1.5h").is_err());
}

#[test]
fn max_size_skips_large() {
    let limits = PerFileLimits { max_size: Some(50), ..Default::default() };
    let mut stats = SelectionStats::default();
    let mut report = RestrictionReport::default();
    let kept = per_file_at(
        vec![entry("small.bin", 10, Some(5)), entry("big.bin", 100, Some(5))],
        &limits,
        1_000,
        &mut stats,
        &mut report,
    )
    .unwrap();
    assert_eq!(kept.len(), 1);
    assert_eq!(kept[0].archive_name, "small.bin");
    assert_eq!(stats.skipped_max_size, 1);
    assert_eq!(report.skipped_max_size.len(), 1);
}

#[test]
fn min_size_skips_tiny_zero_off() {
    let mut stats = SelectionStats::default();
    let mut report = RestrictionReport::default();
    let limits = PerFileLimits { min_size: Some(10), ..Default::default() };
    let kept = per_file_at(
        vec![entry("tiny.bin", 1, Some(1)), entry("ok.bin", 20, Some(1))],
        &limits,
        1_000,
        &mut stats,
        &mut report,
    )
    .unwrap();
    assert_eq!(kept.len(), 1);
    assert_eq!(kept[0].archive_name, "ok.bin");
    assert_eq!(stats.skipped_min_size, 1);
    let mut stats2 = SelectionStats::default();
    let mut report2 = RestrictionReport::default();
    let limits0 = PerFileLimits { min_size: Some(0), ..Default::default() };
    let kept0 =
        per_file_at(vec![entry("z.bin", 1, Some(1))], &limits0, 1_000, &mut stats2, &mut report2).unwrap();
    assert_eq!(kept0.len(), 1);
    assert_eq!(stats2.skipped_min_size, 0);
}

#[test]
fn newer_than_skips_old() {
    let now = 1_000_000u64;
    let limits = PerFileLimits { newer_than_secs: Some(100), ..Default::default() };
    let mut stats = SelectionStats::default();
    let mut report = RestrictionReport::default();
    let kept = per_file_at(
        vec![entry("old.bin", 3, Some(now - 10_000)), entry("new.bin", 3, Some(now - 10))],
        &limits,
        now,
        &mut stats,
        &mut report,
    )
    .unwrap();
    assert_eq!(kept.len(), 1);
    assert_eq!(kept[0].archive_name, "new.bin");
    assert_eq!(stats.skipped_older_than, 1);
}

#[test]
fn max_total_size_newest_first() {
    let mut stats = SelectionStats::default();
    let mut report = RestrictionReport::default();
    let kept = max_total(
        vec![entry("old.bin", 10, Some(100)), entry("mid.bin", 20, Some(200)), entry("new.bin", 30, Some(300))],
        35,
        &mut stats,
        &mut report,
    )
    .unwrap();
    assert_eq!(names(&kept), vec!["new.bin"]);
    assert_eq!(stats.skipped_max_total_size, 2);
    let oc = report.max_total_size.as_ref().unwrap();
    assert_eq!(oc.limit, 35);
    assert_eq!(oc.skipped.len(), 2);
}

#[test]
fn max_files_newest_first() {
    let mut stats = SelectionStats::default();
    let mut report = RestrictionReport::default();
    let kept = max_files(
        vec![entry("a.bin", 1, Some(100)), entry("b.bin", 1, Some(200)), entry("c.bin", 1, Some(300))],
        2,
        &mut stats,
        &mut report,
    )
    .unwrap();
    assert_eq!(names(&kept), vec!["b.bin", "c.bin"]);
    assert_eq!(stats.skipped_max_files, 1);
    assert_eq!(report.max_files.as_ref().unwrap().skipped[0].archive_name, "a.bin");
}

#[test]
fn max_files_zero_skips_all() {
    let e = entry("x", 1, Some(1));
    let mut stats = SelectionStats::default();
    let mut report = RestrictionReport::default();
    let kept = max_files(vec![e], 0, &mut stats, &mut report).unwrap();
    assert!(kept.is_empty());
    assert_eq!(stats.skipped_max_files, 1);
}

#[test]
fn per_file_from_cli_parses() {
    let p = per_file_limits_from_cli(Some("1M"), Some("0"), Some("7d")).unwrap();
    assert_eq!(p.max_size, Some(1024 * 1024));
    assert_eq!(p.min_size, None);
    assert_eq!(p.newer_than_secs, Some(7 * 86_400));
    assert!(matches!(per_file_limits_from_cli(Some("big"), None, None), Err(Error::Message(_))));
}

#[test]
fn glob_segment_basics() {
    assert!(glob_match_segment("*.tmp", "a.tmp"));
    assert!(!glob_match_segment("*.tmp", "a.txt"));
    assert!(glob_match_segment("?.txt", "a.txt"));
    assert!(!glob_match_segment("?.txt", "ab.txt"));
    assert!(glob_match_segment("*", "anything"));
    assert!(glob_match_segment("foo", "foo"));
    assert!(!glob_match_segment("foo", "bar"));
}

#[test]
fn glob_path_double_star() {
    assert!(glob_match_path("**/*.o", "x/y.o"));
    assert!(glob_match_path("**/*.o", "y.o"));
    assert!(glob_match_path("**/*.o", "a/b/c.o"));
    assert!(!glob_match_path("**/*.o", "x/y.c"));
    assert!(glob_match_path("sub/**", "sub"));
    assert!(glob_match_path("sub/**", "sub/a"));
    assert!(glob_match_path("sub/**", "sub/a/b"));
    assert!(!glob_match_path("sub/**", "other/a"));
}

#[test]
fn glob_path_one_star_segment() {
    assert!(glob_match_path("dir/*", "dir/x"));
    assert!(!glob_match_path("dir/*", "dir/sub/x"));
    assert!(!glob_match_path("dir/*", "other/x"));
}

#[test]
fn action_default_include() {
    let rs = RuleSet::new();
    assert_eq!(rs.action_for("any", false), RuleAction::Include);
}

#[test]
fn dir_only_excludes_children() {
    let mut rs = RuleSet::new();
    rs.push_exclude("cache/").unwrap();
    assert_eq!(rs.action_for("cache", true), RuleAction::Exclude);
    assert_eq!(rs.action_for("cache/x", false), RuleAction::Exclude);
    assert_eq!(rs.action_for("cache/a/b", false), RuleAction::Exclude);
    assert_eq!(rs.action_for("cache", false), RuleAction::Include);
    assert_eq!(rs.action_for("other", false), RuleAction::Include);
}

#[test]
fn prune_excluded_no_include() {
    let mut rs = RuleSet::new();
    rs.push_exclude("skipme/").unwrap();
    assert!(rs.should_prune_dir("skipme"));
}

#[test]
fn prune_not_when_include_may_match() {
    let mut rs = RuleSet::new();
    rs.push_include("*.c").unwrap();
    rs.push_exclude("*").unwrap();
    assert!(!rs.should_prune_dir("src"));
}

#[test]
fn first_matching_rule_wins() {
    let mut rs = RuleSet::new();
    rs.push_exclude("*.log").unwrap();
    rs.push_include("keep.log").unwrap();
    assert_eq!(rs.action_for("a/keep.log", false), RuleAction::Exclude);
    assert_eq!(rs.action_for("a/b.txt", false), RuleAction::Include);
}

#[test]
fn normalize_simple() {
    assert_eq!(normalize_archive_str("a/b").unwrap(), "a/b");
    assert_eq!(normalize_archive_str("./a/./b/").unwrap(), "a/b");
    assert_eq!(normalize_archive_str("a//b").unwrap(), "a/b");
    assert_eq!(normalize_archive_str(r"a\b").unwrap(), "a/b");
}

#[test]
fn normalize_strips_leading_slash() {
    assert_eq!(normalize_archive_str("/a/b").unwrap(), "a/b");
    assert_eq!(normalize_archive_str("///a").unwrap(), "a");
}

#[test]
fn normalize_rejects_dotdot() {
    assert!(matches!(normalize_archive_str("a/../b"), Err(Error::PathTraversal(_))));
    assert!(matches!(normalize_archive_str(".."), Err(Error::PathTraversal(_))));
    assert!(matches!(normalize_archive_str("../x"), Err(Error::PathTraversal(_))));
}

#[test]
fn normalize_empty_errors() {
    assert!(matches!(normalize_archive_str(""), Err(Error::InvalidMemberName(_))));
    assert!(matches!(normalize_archive_str("./"), Err(Error::InvalidMemberName(_))));
    assert!(matches!(normalize_archive_str("/"), Err(Error::InvalidMemberName(_))));
}

#[test]
fn normalize_path_buf() {
    let p = "dir/file.txt";
    assert_eq!(normalize_archive_path(p).unwrap(), "dir/file.txt");
}

#[test]
fn normalize_is_idempotent_on_examples() {
    for s in ["a/b", "./x//y/", r"p\q\r", "/lead/trail/"] {
        let once = normalize_archive_str(s).unwrap();
        assert_eq!(normalize_archive_str(&once).unwrap(), once);
        assert!(validate_member_name(&once).is_ok());
    }
}

#[test]
fn prefix_adds_slash() {
    assert_eq!(normalize_prefix("packs").unwrap(), "packs/");
    assert_eq!(normalize_prefix("packs/").unwrap(), "packs/");
    assert_eq!(normalize_prefix("").unwrap(), "");
    assert_eq!(normalize_prefix("  ").unwrap(), "");
}

#[test]
fn prefix_rejects_absolute_and_dotdot() {
    assert!(normalize_prefix("/abs").is_err());
    assert!(normalize_prefix("a/../b").is_err());
}

#[test]
fn join_prefix_and_base() {
    assert_eq!(join_archive_name("packs/", "a.7z").unwrap(), "packs/a.7z");
    assert_eq!(join_archive_name("packs", "a.7z").unwrap(), "packs/a.7z");
    assert_eq!(join_archive_name("", "a.7z").unwrap(), "a.7z");
}

#[test]
fn basename_ok() {
    assert_eq!(basename_utf8("dir/x.7z").unwrap(), "x.7z");
    assert_eq!(basename_utf8("x.7z").unwrap(), "x.7z");
}

#[test]
fn validate_member() {
    assert!(validate_member_name("a/b").is_ok());
    assert!(validate_member_name("").is_err());
    assert!(validate_member_name("/a").is_err());
    assert!(validate_member_name("a/../b").is_err());
}

#[test]
fn trailing_slash_detect() {
    assert!(has_trailing_slash("photos/"));
    assert!(has_trailing_slash(r"photos\"));
    assert!(!has_trailing_slash("photos"));
}

#[test]
fn contains_parent() {
    assert!(contains_parent_dir("a/../b"));
    assert!(!contains_parent_dir("a/b"));
}

#[test]
fn source_spec_trailing_slash_naming() {
    let with = SourceSpec::from_user_path_stat("/data/photos/", PathStat::Dir).unwrap();
    assert!(with.trailing_slash);
    assert_eq!(with.kind, SourceKind::Dir);
    assert_eq!(archive_name_for(&with, "/data/photos/a.jpg").unwrap(), "a.jpg");
    let without = SourceSpec::from_user_path_stat("/data/photos", PathStat::Dir).unwrap();
    assert_eq!(archive_name_for(&without, "/data/photos/a.jpg").unwrap(), "photos/a.jpg");
    assert!(matches!(SourceSpec::from_user_path_stat("f.txt/", PathStat::File), Err(Error::Selection(_))));
}

#[test]
fn parse_file_size_pattern_then_max() {
    let r = parse_file_size_line("**/*.log max=100M").unwrap();
    assert_eq!(r.max_size, 100 * 1024 * 1024);
    assert!(path_matches_rule(&r.rule, "var/a.log", false));
    assert!(!path_matches_rule(&r.rule, "var/a.txt", false));
}

#[test]
fn parse_file_size_max_first() {
    let r = parse_file_size_line("max=10K core").unwrap();
    assert_eq!(r.max_size, 10 * 1024);
    assert!(path_matches_rule(&r.rule, "core", false));
    assert!(path_matches_rule(&r.rule, "sub/core", false));
}

#[test]
fn parse_file_size_rejects_min() {
    assert!(parse_file_size_line("a max=1M min=1K").is_err());
}

#[test]
fn load_file_size_from_ignores_invalid_lines() {
    let lines = lines_of("# comment\n**/*.log max=10\nmax=8192P-1\nnot-a-valid-line\ncore max=1K\n");
    let rules = load_file_size_from(&lines).expect("load must not fail on bad lines");
    assert_eq!(rules.len(), 2);
    assert!(path_matches_rule(&rules[0].rule, "a.log", false));
    assert_eq!(rules[0].max_size, 10);
    assert!(path_matches_rule(&rules[1].rule, "core", false));
    assert_eq!(rules[1].max_size, 1024);
}

#[test]
fn file_size_apply_only_matching() {
    let rules = vec![parse_file_size_line("*.log max=10").unwrap()];
    let entries = vec![entry("a.log", 5, Some(1)), entry("b.log", 20, Some(1)), entry("c.txt", 100, Some(1))];
    let mut stats = SelectionStats::default();
    let mut report = RestrictionReport::default();
    let kept = apply_file_size_from(entries, &rules, &mut stats, &mut report).unwrap();
    assert_eq!(names(&kept), vec!["a.log", "c.txt"]);
    assert_eq!(stats.skipped_file_size_from, 1);
    assert_eq!(report.skipped_file_size_from.len(), 1);
}

#[test]
fn parse_dir_extended_and_legacy() {
    let a = parse_dir_restrict_line("logs/ max=500M files=10").unwrap();
    assert_eq!(a.prefix, "logs");
    assert_eq!(a.max_size, Some(500 * 1024 * 1024));
    assert_eq!(a.max_files, Some(10));
    let b = parse_dir_restrict_line("cache/=50M").unwrap();
    assert_eq!(b.prefix, "cache");
    assert_eq!(b.max_size, Some(50 * 1024 * 1024));
    assert_eq!(b.max_files, None);
    let c = parse_dir_restrict_line("tmp/ files=3").unwrap();
    assert_eq!(c.prefix, "tmp");
    assert_eq!(c.max_size, None);
    assert_eq!(c.max_files, Some(3));
}

#[test]
fn load_dir_max_size_from_merges() {
    let lines = lines_of("# budgets\nlogs/ max=100M files=5\ncache/=10M\n");
    let mut budgets: Vec<DirBudget> = Vec::new();
    let mut files: Vec<DirFileLimit> = Vec::new();
    load_dir_max_size_from(&lines, &mut budgets, &mut files).unwrap();
    assert_eq!(budgets.len(), 2);
    assert_eq!(files.len(), 1);
    assert_eq!(files[0].prefix, "logs");
    assert_eq!(files[0].max_count, 5);
}

#[test]
fn parse_simple_exclude() {
    let r = parse_rule(RuleAction::Exclude, "*.tmp").unwrap();
    assert_eq!(r.pattern, "*.tmp");
    assert!(!r.anchored);
    assert!(!r.dir_only);
    assert!(r.basename_mode());
}

#[test]
fn parse_anchored_and_dir_only() {
    let r = parse_rule(RuleAction::Exclude, "/cache/").unwrap();
    assert_eq!(r.pattern, "cache");
    assert!(r.anchored);
    assert!(r.dir_only);
    assert!(r.basename_mode());
}

#[test]
fn parse_full_path_pattern() {
    let r = parse_rule(RuleAction::Exclude, "dir/*").unwrap();
    assert_eq!(r.pattern, "dir/*");
    assert!(!r.basename_mode());
    assert!(!r.anchored);
}

#[test]
fn bare_double_star_not_basename_mode() {
    let r = parse_rule(RuleAction::Exclude, "**").unwrap();
    assert_eq!(r.pattern, "**");
    assert!(!r.basename_mode());
    assert!(!r.anchored);
}

#[test]
fn parse_empty_errors() {
    assert!(parse_rule(RuleAction::Include, "").is_err());
    assert!(parse_rule(RuleAction::Include, "/").is_err());
    assert!(parse_rule(RuleAction::Include, "///").is_err());
}

#[test]
fn filter_line_plus_minus() {
    let mut rs = RuleSet::new();
    rs.push_filter_line("+ *.c").unwrap();
    rs.push_filter_line("- *").unwrap();
    assert_eq!(rs.len(), 2);
    assert_eq!(rs.rules()[0].action, RuleAction::Include);
    assert_eq!(rs.rules()[1].action, RuleAction::Exclude);
}

#[test]
fn filter_line_long_form() {
    let mut rs = RuleSet::new();
    rs.push_filter_line("include foo").unwrap();
    rs.push_filter_line("exclude bar").unwrap();
    assert_eq!(rs.rules()[0].action, RuleAction::Include);
    assert_eq!(rs.rules()[0].pattern, "foo");
    assert_eq!(rs.rules()[1].action, RuleAction::Exclude);
}

#[test]
fn filter_line_comment_and_blank() {
    let mut rs = RuleSet::new();
    rs.push_filter_line("").unwrap();
    rs.push_filter_line("  # comment").unwrap();
    rs.push_filter_line("# full").unwrap();
    assert!(rs.is_empty());
}

#[test]
fn filter_line_invalid() {
    let mut rs = RuleSet::new();
    assert!(rs.push_filter_line("nope").is_err());
    assert!(rs.push_filter_line("+").is_err());
    assert!(rs.push_filter_line("-   ").is_err());
}

#[test]
fn from_file_line_default_and_prefix() {
    let mut rs = RuleSet::new();
    rs.push_from_file_line("*.tmp", RuleAction::Exclude).unwrap();
    rs.push_from_file_line("+ keep.tmp", RuleAction::Exclude).unwrap();
    assert_eq!(rs.rules()[0].action, RuleAction::Exclude);
    assert_eq!(rs.rules()[1].action, RuleAction::Include);
}

#[test]
fn plus_without_space() {
    let mut rs = RuleSet::new();
    rs.push_filter_line("+foo").unwrap();
    assert_eq!(rs.rules()[0].pattern, "foo");
    assert_eq!(rs.rules()[0].action, RuleAction::Include);
}

#[test]
fn exclude_from_bare_and_comments() {
    let lines = lines_of("# header\n\n*.tmp\n*.log\n+ keep.tmp\n");
    let mut rs = RuleSet::new();
    load_exclude_from(&mut rs, "ex.txt", &lines).unwrap();
    assert_eq!(rs.len(), 3);
    assert_eq!(rs.rules()[0].action, RuleAction::Exclude);
    assert_eq!(rs.rules()[0].pattern, "*.tmp");
    assert_eq!(rs.rules()[1].pattern, "*.log");
    assert_eq!(rs.rules()[2].action, RuleAction::Include);
    assert_eq!(rs.rules()[2].pattern, "keep.tmp");
}

#[test]
fn include_from_default_include() {
    let lines = lines_of("*.c\n*.h\n");
    let mut rs = RuleSet::new();
    load_include_from(&mut rs, "in.txt", &lines).unwrap();
    assert_eq!(rs.len(), 2);
    assert!(rs.rules().iter().all(|r| r.action == RuleAction::Include));
}

#[test]
fn filter_from_requires_prefix() {
    let lines = lines_of("+ *.c\n- *\n");
    let mut rs = RuleSet::new();
    load_filter_from(&mut rs, "f.txt", &lines).unwrap();
    assert_eq!(rs.len(), 2);
    let bad = lines_of("bare_pattern\n");
    let mut rs2 = RuleSet::new();
    assert!(load_filter_from(&mut rs2, "bad.txt", &bad).is_err());
}

#[test]
fn size_cap_rejects_huge_file() {
    let err = read_capped_lines_from_reader("x.txt", b"aaaa\nbbbb\n".to_vec(), 3, MAX_FILTER_FILE_LINES).unwrap_err();
    assert!(matches!(err, Error::FilterFileTooLarge { .. }));
}

#[test]
fn line_cap_rejects() {
    let err = read_capped_lines_from_reader("x.txt", b"a\nb\nc\n".to_vec(), MAX_FILTER_FILE_BYTES, 2).unwrap_err();
    assert!(matches!(err, Error::FilterFileTooLarge { .. }));
}

#[test]
fn read_capped_ok() {
    let lines = lines_of("one\ntwo\r\n");
    assert_eq!(lines, vec!["one", "two"]);
    assert!(matches!(
        read_capped_lines_from_reader("x.txt", vec![0xFF, 0x0A], 100, 10),
        Err(Error::Selection(_))
    ));
}

#[test]
fn total_size_cap_kept_sum_within_limit() {
    let sizes = [7u64, 3, 12, 5, 9, 1, 4];
    for limit in [0u64, 1, 5, 10, 17, 25, 41, 100] {
        let entries: Vec<SelectedEntry> = sizes
            .iter()
            .enumerate()
            .map(|(i, &s)| entry(&format!("f{i}.bin"), s, Some(1000 - i as u64 * 7 % 5)))
            .collect();
        let n = entries.len() as u64;
        let mut stats = SelectionStats::default();
        let mut report = RestrictionReport::default();
        let kept = max_total(entries, limit, &mut stats, &mut report).unwrap();
        let sum: u64 = kept.iter().map(|e| e.size).sum();
        assert!(sum <= limit, "limit {limit} sum {sum}");
        assert_eq!(stats.selected + stats.skipped_max_total_size, n);
    }
}

#[test]
fn max_files_keeps_min_of_len_and_cap() {
    for cap in 0u64..6 {
        let entries: Vec<SelectedEntry> =
            (0..4u64).map(|i| entry(&format!("n{i}"), i + 1, Some(50 + i))).collect();
        let mut stats = SelectionStats::default();
        let mut report = RestrictionReport::default();
        let kept = max_files(entries, cap, &mut stats, &mut report).unwrap();
        assert_eq!(kept.len() as u64, cap.min(4));
        assert_eq!(stats.selected + stats.skipped_max_files, 4);
    }
}

#[test]
fn dir_budget_group_sums_within_limits() {
    let entries = vec![
        entry("a/x1", 40, Some(10)),
        entry("a/x2", 30, Some(20)),
        entry("a/b/y1", 25, Some(30)),
        entry("a/b/y2", 25, Some(40)),
        entry("c/z", 1000, Some(5)),
    ];
    let budgets = vec![
        DirBudget { prefix: "a".to_string(), limit: 60 },
        DirBudget { prefix: "a/b".to_string(), limit: 30 },
    ];
    let mut stats = SelectionStats::default();
    let kept = dir_budgets(entries, &budgets, &mut stats).unwrap();
    let sum_a: u64 = kept
        .iter()
        .filter(|e| e.archive_name.starts_with("a/") && !e.archive_name.starts_with("a/b/"))
        .map(|e| e.size)
        .sum();
    let sum_ab: u64 = kept.iter().filter(|e| e.archive_name.starts_with("a/b/")).map(|e| e.size).sum();
    assert!(sum_a <= 60);
    assert!(sum_ab <= 30);
    assert_eq!(names(&kept), vec!["a/x2", "a/b/y2", "c/z"]);
    assert_eq!(stats.skipped_dir_budget, 2);
}

fn meta(size: u64, dev: u64, ino: u64) -> rsync_archive::select::collect::PathMeta {
    rsync_archive::select::collect::PathMeta { size, mtime_unix: Some(77), mode: 0o640, uid: 5, gid: 6, dev, ino }
}

fn owners(_u: u32, _g: u32) -> (String, String) {
    ("alice".to_string(), "staff".to_string())
}

#[test]
fn builder_selects_files_links_and_hardlinks() {
    let mut rules = RuleSet::new();
    rules.push_exclude("*.tmp").unwrap();
    let mut b = SelectionBuilder::new();
    b.add_file(&rules, "d/a.txt", "/src/d/a.txt".to_string(), meta(10, 1, 100), owners).unwrap();
    b.add_file(&rules, "d/b.tmp", "/src/d/b.tmp".to_string(), meta(3, 1, 101), owners).unwrap();
    b.add_file(&rules, "d/c.txt", "/src/d/c.txt".to_string(), meta(10, 1, 100), owners).unwrap();
    b.add_file(&rules, "d/e.txt", "/src/d/e.txt".to_string(), meta(4, 2, 100), owners).unwrap();
    b.add_symlink(&rules, "d/l", "/src/d/l".to_string(), meta(0, 1, 102), || Ok("a.txt".to_string()), owners)
        .unwrap();
    b.skip_special();
    let (entries, stats) = b.finish();
    assert_eq!(names(&entries), vec!["d/a.txt", "d/c.txt", "d/e.txt", "d/l"]);
    assert_eq!(entries[0].kind, MemberKind::File);
    assert_eq!(entries[0].size, 10);
    assert_eq!(entries[0].uname, "alice");
    assert_eq!(entries[0].mode, 0o640);
    assert_eq!(entries[1].kind, MemberKind::HardLink { target: "d/a.txt".to_string() });
    assert_eq!(entries[1].size, 0);
    assert_eq!(entries[2].kind, MemberKind::File);
    assert_eq!(entries[2].size, 4);
    assert_eq!(entries[3].kind, MemberKind::Symlink { target: "a.txt".to_string() });
    assert_eq!(stats.skipped_excluded, 1);
    assert_eq!(stats.skipped_special, 1);
    assert_eq!(stats.selected, 4);
}

#[test]
fn builder_reports_collisions_and_link_errors() {
    let rules = RuleSet::new();
    let mut b = SelectionBuilder::new();
    b.add_file(&rules, "x", "/a/x".to_string(), meta(1, 1, 1), owners).unwrap();
    let err = b.add_file(&rules, "x", "/b/x".to_string(), meta(1, 1, 2), owners).unwrap_err();
    assert!(matches!(err, Error::Collision(ref n) if n == "x"));
    let err = b
        .add_symlink(&rules, "y", "/a/y".to_string(), meta(0, 1, 3), || Err(Error::Selection("gone".into())), owners)
        .unwrap_err();
    assert!(matches!(err, Error::Selection(ref m) if m == "gone"));
}

#[test]
fn files_from_lines_and_names() {
    assert_eq!(files_from_path("  a/b.txt  "), Some("a/b.txt".to_string()));
    assert_eq!(files_from_path("   "), None);
    assert_eq!(files_from_path(" # note"), None);
    assert_eq!(files_from_archive_name("/abs/dir/f.log").unwrap(), "f.log");
    assert_eq!(files_from_archive_name("./rel//x/y.txt").unwrap(), "rel/x/y.txt");
    assert!(matches!(files_from_archive_name("../up.txt"), Err(Error::PathTraversal(_))));
}

#[test]
fn caps_and_age_fall_back_to_disk_times() {
    // No stored times: the disk times rank and age the files.
    let es = vec![entry("a.bin", 1, None), entry("b.bin", 1, None), entry("c.bin", 1, None)];
    let mut disk = vec![100u64, 200, 300];
    let mut stats = SelectionStats::default();
    let mut report = RestrictionReport::default();
    let kept = apply_max_files(es.clone(), &mut disk, 2, &mut stats, &mut report).unwrap();
    assert_eq!(names(&kept), vec!["b.bin", "c.bin"]);
    assert_eq!(disk, vec![200, 300]);

    let limits = PerFileLimits { newer_than_secs: Some(150), ..Default::default() };
    let mut disk = vec![100u64, 200, 300];
    let mut stats = SelectionStats::default();
    let mut report = RestrictionReport::default();
    let kept = apply_per_file_limits_at(es.clone(), &mut disk, &limits, 400, &mut stats, &mut report).unwrap();
    assert_eq!(names(&kept), vec!["c.bin"]);
    assert_eq!(stats.skipped_older_than, 2);

    // A stored time wins over the disk time for the caps.
    let es2 = vec![entry("a.bin", 1, Some(900)), entry("b.bin", 1, None)];
    let mut disk = vec![1u64, 500];
    let mut stats = SelectionStats::default();
    let mut report = RestrictionReport::default();
    let kept = apply_max_files(es2, &mut disk, 1, &mut stats, &mut report).unwrap();
    assert_eq!(names(&kept), vec!["a.bin"]);
}

#[test]
fn dir_budgets_rank_by_disk_time() {
    // Budgets rank by the time read from disk, not the stored one.
    let es = vec![entry("d/old.bin", 10, Some(999)), entry("d/new.bin", 10, Some(1))];
    let mut disk = vec![100u64, 200];
    let mut stats = SelectionStats::default();
    let kept = apply_dir_budgets(
        es,
        &[DirBudget { prefix: "d".into(), limit: 10 }],
        &mut disk,
        &mut stats,
    )
    .unwrap();
    assert_eq!(names(&kept), vec!["d/new.bin"]);
    assert_eq!(disk, vec![200]);
    assert_eq!(stats.skipped_dir_budget, 1);
}
