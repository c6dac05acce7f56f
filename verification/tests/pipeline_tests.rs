use rsync_archive::cli::{infer_format_from_path, CreateArgs, EmbedArgs, OutputFormat};
use rsync_archive::error::Error;
use rsync_archive::pipeline::create::{
    build_rules, filter_entries_for_format, merge_selection, restrict_selection_at, sources_from_strings,
    ListFile, RestrictLists, RuleFiles,
};
use rsync_archive::pipeline::embed::{has_sevenz_magic_bytes, member_name, plan_embed, InputFacts};
use rsync_archive::pipeline::output::{check_overwrite, partial_path_for, OutputPaths};
use rsync_archive::pipeline::schedule::EncodeSchedule;
use rsync_archive::select::rules::RuleAction;
use rsync_archive::select::walk::{MemberKind, SelectedEntry, SelectionStats};
use rsync_archive::select::PathStat;

fn create_args(output: &str, sources: Vec<String>) -> CreateArgs {
    CreateArgs {
        output: output.into(),
        format: None,
        dry_run: true,
        force: false,
        exclude: vec![],
        includes: vec![],
        exclude_from: vec![],
        include_from: vec![],
        files_from: None,
        include_cwd: false,
        filter_from: vec![],
        filter: vec![],
        level: 5,
        method: "lzma2".into(),
        threads: Some(1),
        encode_concurrency: 1,
        encode_size_budget: "500M".into(),
        dir_max_size: vec![],
        dir_max_size_from: None,
        dir_max_files: vec![],
        dir_max_files_from: None,
        file_size_from: None,
        max_total_size: None,
        max_files: None,
        max_size: None,
        min_size: None,
        newer_than: None,
        verify: false,
        sources,
    }
}

fn no_files() -> RuleFiles {
    RuleFiles { include_from: vec![], exclude_from: vec![], filter_from: vec![] }
}

fn entry(name: &str, size: u64, mtime: u64, kind: MemberKind) -> SelectedEntry {
    SelectedEntry {
        abs_path: format!("/src/{name}"),
        archive_name: name.into(),
        size,
        mtime_unix: Some(mtime),
        mode: 0o644,
        uid: 0,
        gid: 0,
        uname: String::new(),
        gname: String::new(),
        kind,
    }
}

fn embed_args(inputs: Vec<String>) -> EmbedArgs {
    EmbedArgs {
        output: "out.7z".into(),
        dry_run: false,
        force: false,
        prefix: None,
        keep_path: false,
        require_7z: false,
        allow_any: true,
        verify: false,
        inputs,
    }
}

#[test]
fn infer_zst_extension() {
    assert_eq!(infer_format_from_path("out.zst"), OutputFormat::SeekableZstd);
    assert_eq!(infer_format_from_path("out.ZST"), OutputFormat::SeekableZstd);
    assert_eq!(infer_format_from_path("out.tar.zst"), OutputFormat::TarZstd);
    assert_eq!(infer_format_from_path("out.tzst"), OutputFormat::TarZstd);
    assert_eq!(infer_format_from_path("out.tar.lz4"), OutputFormat::TarLz4);
    assert_eq!(infer_format_from_path("out.tlz4"), OutputFormat::TarLz4);
    assert_eq!(infer_format_from_path("out.7z"), OutputFormat::SevenZ);
    assert_eq!(infer_format_from_path("out"), OutputFormat::SevenZ);
}

#[test]
fn infer_format_edge_paths() {
    assert_eq!(infer_format_from_path(".zst"), OutputFormat::SevenZ);
    assert_eq!(infer_format_from_path("dir.zst/"), OutputFormat::SeekableZstd);
    assert_eq!(infer_format_from_path("a.zst/.."), OutputFormat::SevenZ);
    assert_eq!(OutputFormat::default(), OutputFormat::SevenZ);
    assert_eq!(OutputFormat::TarLz4.as_str(), "tar-lz4");
}

#[test]
fn seekable_rejects_non_default_method() {
    let mut args = create_args("o.zst", vec![".".into()]);
    args.format = Some(OutputFormat::SeekableZstd);
    args.threads = None;
    args.encode_concurrency = 0;
    args.method = "zstd".into();
    let err = args.validate().unwrap_err();
    assert!(err.contains("--method"), "{err}");
}

#[test]
fn validate_source_modes() {
    let mut both = create_args("o.7z", vec!["a".into()]);
    both.files_from = Some("list.txt".into());
    assert!(both.validate().unwrap_err().contains("--files-from"));
    let none = create_args("o.7z", vec![]);
    assert_eq!(none.validate().unwrap_err(), "need SRC..., --files-from, or --include-cwd");
    let mut cwd = create_args("o.tar.zst", vec![]);
    cwd.include_cwd = true;
    assert!(cwd.validate().is_ok());
    assert_eq!(cwd.resolved_format(), OutputFormat::TarZstd);
}

#[test]
fn rule_order_include_then_exclude() {
    let mut args = create_args("o.7z", vec![]);
    args.includes.push("*.c".into());
    args.exclude.push("*".into());
    let rules = build_rules(&args, &no_files()).unwrap();
    assert_eq!(rules.action_for("a.c", false), RuleAction::Include);
    assert_eq!(rules.action_for("a.o", false), RuleAction::Exclude);
}

#[test]
fn rule_files_load_before_cli_patterns() {
    let mut args = create_args("o.7z", vec![]);
    args.exclude.push("*.c".into());
    let files = RuleFiles {
        include_from: vec![ListFile { path: "in.txt".into(), lines: vec!["keep.c".into()] }],
        exclude_from: vec![],
        filter_from: vec![ListFile { path: "f.txt".into(), lines: vec!["- *.h".into()] }],
    };
    let rules = build_rules(&args, &files).unwrap();
    assert_eq!(rules.len(), 3);
    assert_eq!(rules.action_for("keep.c", false), RuleAction::Include);
    assert_eq!(rules.action_for("x.c", false), RuleAction::Exclude);
    assert_eq!(rules.action_for("x.h", false), RuleAction::Exclude);
    let bad = RuleFiles {
        include_from: vec![],
        exclude_from: vec![],
        filter_from: vec![ListFile { path: "f.txt".into(), lines: vec!["bare".into()] }],
    };
    assert!(matches!(build_rules(&args, &bad), Err(Error::Selection(_))));
}

#[test]
fn merge_selection_detects_collision() {
    let mut base = vec![entry("a", 1, 1, MemberKind::File)];
    let mut stats = SelectionStats::default();
    let mut extra_stats = SelectionStats::default();
    extra_stats.skipped_excluded = 2;
    merge_selection(&mut base, &mut stats, vec![entry("b", 1, 1, MemberKind::File)], extra_stats).unwrap();
    assert_eq!(base.len(), 2);
    assert_eq!(stats.selected, 2);
    assert_eq!(stats.skipped_excluded, 2);
    let err = merge_selection(&mut base, &mut stats, vec![entry("c", 1, 1, MemberKind::File), entry("a", 1, 1, MemberKind::File)], SelectionStats::default())
        .unwrap_err();
    assert!(matches!(err, Error::Collision(n) if n == "a"));
    assert_eq!(base.len(), 2);
}

#[test]
fn filter_entries_drop_links_for_7z() {
    let es = vec![
        entry("f", 1, 1, MemberKind::File),
        entry("s", 0, 1, MemberKind::Symlink { target: "f".into() }),
        entry("h", 0, 1, MemberKind::HardLink { target: "f".into() }),
    ];
    let mut stats = SelectionStats::default();
    let kept = filter_entries_for_format(OutputFormat::SevenZ, es.clone(), &mut stats);
    assert_eq!(kept.len(), 1);
    assert_eq!(stats.skipped_symlinks, 1);
    assert_eq!(stats.skipped_hardlinks, 1);
    assert_eq!(stats.selected, 1);
    let mut stats2 = SelectionStats::default();
    let all = filter_entries_for_format(OutputFormat::TarLz4, es, &mut stats2);
    assert_eq!(all.len(), 3);
    assert_eq!(stats2.skipped_symlinks, 0);
}

#[test]
fn sources_from_strings_keeps_order() {
    let v = sources_from_strings(&["a/".to_string(), "b.txt".to_string()], &[PathStat::Dir, PathStat::File]).unwrap();
    assert!(v[0].trailing_slash);
    assert_eq!(v[1].path, "b.txt");
    assert!(sources_from_strings(&["x".to_string()], &[PathStat::Failed("gone".into())]).is_err());
}

#[test]
fn restrict_selection_applies_limits_in_order() {
    let mut args = create_args("o.7z", vec!["src".into()]);
    args.max_size = Some("50".into());
    args.max_files = Some(1);
    let lists = RestrictLists { file_size_from: None, dir_max_size_from: None };
    let es = vec![entry("a", 10, 100, MemberKind::File), entry("b", 100, 300, MemberKind::File), entry("c", 20, 200, MemberKind::File)];
    let mut stats = SelectionStats::default();
    let disk = vec![100u64, 300, 200];
    let (kept, _report) = restrict_selection_at(&args, &lists, es, disk, &mut stats, 1000).unwrap();
    assert_eq!(kept.len(), 1);
    assert_eq!(kept[0].archive_name, "c");
    assert_eq!(stats.skipped_max_size, 1);
    assert_eq!(stats.skipped_max_files, 1);
    assert_eq!(stats.selected, 1);
    let mut bad = create_args("o.7z", vec![]);
    bad.max_total_size = Some("lots".into());
    let mut st = SelectionStats::default();
    assert!(matches!(restrict_selection_at(&bad, &lists, vec![], vec![], &mut st, 0), Err(Error::Message(_))));
}

#[test]
fn member_name_flatten_default() {
    assert_eq!(member_name("dir/nest.7z", false, None).unwrap(), "nest.7z");
}

#[test]
fn member_name_keep_path_and_prefix() {
    assert_eq!(member_name("build/a.7z", true, Some("packs")).unwrap(), "packs/build/a.7z");
}

#[test]
fn member_name_rejects_dotdot_in_keep_path() {
    assert!(member_name("a/../b.7z", true, None).is_err());
}

#[test]
fn plan_collision_on_flatten() {
    let args = embed_args(vec!["x/a.7z".into(), "y/a.7z".into()]);
    let facts = vec![InputFacts::Regular(Ok(true)), InputFacts::Regular(Ok(true))];
    assert!(matches!(plan_embed(&args, &facts), Err(Error::Collision(_))));
}

#[test]
fn plan_ok_keep_path_avoids_collision() {
    let mut args = embed_args(vec!["x/a.7z".into(), "y/a.7z".into()]);
    args.keep_path = true;
    let facts = vec![InputFacts::Regular(Ok(true)), InputFacts::Regular(Ok(true))];
    let plan = plan_embed(&args, &facts).unwrap();
    assert_eq!(plan[0].archive_name, "x/a.7z");
    assert_eq!(plan[1].archive_name, "y/a.7z");
}

#[test]
fn require_7z_errors_on_missing_magic() {
    let mut args = embed_args(vec!["x.bin".into()]);
    args.allow_any = false;
    args.require_7z = true;
    assert!(plan_embed(&args, &[InputFacts::Regular(Ok(false))]).is_err());
    args.require_7z = false;
    assert_eq!(plan_embed(&args, &[InputFacts::Regular(Ok(false))]).unwrap().len(), 1);
    assert!(matches!(plan_embed(&args, &[InputFacts::NotRegular]), Err(Error::NotRegularFile(_))));
    assert!(matches!(plan_embed(&embed_args(vec![]), &[]), Err(Error::EmptyArchive)));
}

#[test]
fn magic_detects_sevenz_sig() {
    let mut data = b"7z\xBC\xAF\x27\x1C".to_vec();
    data.extend_from_slice(&[0u8; 26]);
    assert!(has_sevenz_magic_bytes(&data));
    assert!(!has_sevenz_magic_bytes(b"not7z!!"));
    assert!(!has_sevenz_magic_bytes(b"7z"));
}

#[test]
fn partial_naming_appends_partial() {
    assert_eq!(partial_path_for("out.7z"), "out.7z.partial");
    assert_eq!(partial_path_for("/tmp/archive.7z"), "/tmp/archive.7z.partial");
    assert_eq!(partial_path_for("noext"), "noext.partial");
    let p = OutputPaths::new("dir/a.7z");
    assert_eq!(p.partial_path, "dir/a.7z.partial");
    assert_eq!(p.final_path, "dir/a.7z");
}

#[test]
fn overwrite_needs_force() {
    assert!(matches!(check_overwrite("o.7z", true, false), Err(Error::OutputExists(p)) if p == "o.7z"));
    assert!(check_overwrite("o.7z", true, true).is_ok());
    assert!(check_overwrite("o.7z", false, false).is_ok());
}

#[test]
fn create_validate_unit_rejects_both_modes() {
    let mut args = create_args("out.7z", vec!["src".into()]);
    args.dry_run = false;
    args.threads = None;
    args.encode_concurrency = 0;
    args.files_from = Some("list.txt".into());
    assert!(args.validate().is_err());
}

#[test]
fn create_validate_unit_accepts_sources_only() {
    let mut args = create_args("out.7z", vec!["src".into()]);
    args.dry_run = false;
    args.threads = None;
    args.encode_concurrency = 0;
    assert!(args.validate().is_ok());
}

#[test]
fn schedule_admits_under_budget_and_writes_in_order() {
    let sizes = [60u64, 50, 10];
    let mut s = EncodeSchedule::new(3);
    // First job always starts; the second would pass the 100-byte budget.
    assert_eq!(s.start_next(sizes[0], 100, 4), Some(0));
    assert_eq!(s.start_next(sizes[1], 100, 4), None);
    assert_eq!(s.running(), 1);
    s.complete(0, sizes[0]);
    assert_eq!(s.take_writable(), Some(0));
    assert_eq!(s.take_writable(), None);
    assert_eq!(s.start_next(sizes[1], 100, 4), Some(1));
    assert_eq!(s.start_next(sizes[2], 100, 4), Some(2));
    // Member 2 finishes first but waits for member 1.
    s.complete(2, sizes[2]);
    assert_eq!(s.take_writable(), None);
    s.complete(1, sizes[1]);
    assert_eq!(s.take_writable(), Some(1));
    assert_eq!(s.take_writable(), Some(2));
    assert!(s.all_written());
    assert!(!s.stuck());
}
