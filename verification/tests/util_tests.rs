use rsync_archive::util::soft_log::sample_fits;
use rsync_archive::util::auto_threads::{
    file_stats_from_sizes, resolve_encode_concurrency, resolve_encode_workers,
};
use rsync_archive::util::size_parse::{can_admit, parse_byte_size};
use rsync_archive::util::soft_log::{compact_sample, SoftKind, SoftSkipLog};
use rsync_archive::util::{is_retryable_fs_io, retry_interrupted, retry_while, INTERRUPTED_RETRY_LIMIT};
use std::io::{Error, ErrorKind};
use std::sync::atomic::{AtomicU32, Ordering};

#[test]
fn concurrency_auto() {
    assert_eq!(resolve_encode_concurrency(0, 8), 8);
    assert_eq!(resolve_encode_concurrency(2, 8), 2);
}

#[test]
fn honors_explicit() {
    assert_eq!(resolve_encode_workers(Some(4), 1_000_000, 100, 8), 4);
    assert_eq!(resolve_encode_workers(Some(0), 10, 10, 8), 1);
}

#[test]
fn many_tiny_forces_one() {
    assert_eq!(resolve_encode_workers(None, 50_000, 50_000 * 300, 8), 1);
}

#[test]
fn few_large_uses_parallelism() {
    let w = resolve_encode_workers(None, 10, 10 * 10 * 1024 * 1024, 6);
    assert!(w >= 1);
    assert_eq!(w, 6);
    assert_eq!(resolve_encode_workers(None, 0, 0, 6), 1);
}

#[test]
fn stats_from_sizes_saturate() {
    assert_eq!(file_stats_from_sizes(&[1, 2, 3]), (3, 6));
    assert_eq!(file_stats_from_sizes(&[u64::MAX, 5]), (2, u64::MAX));
    assert_eq!(file_stats_from_sizes(&[]), (0, 0));
}

#[test]
fn retry_interrupted_succeeds_after_eintr() {
    let n = AtomicU32::new(0);
    let out = retry_interrupted(|| {
        let i = n.fetch_add(1, Ordering::SeqCst);
        if i < 3 {
            Err(Error::new(ErrorKind::Interrupted, "eintr"))
        } else {
            Ok(42u32)
        }
    })
    .unwrap();
    assert_eq!(out, 42);
    assert_eq!(n.load(Ordering::SeqCst), 4);
}

#[test]
fn retry_interrupted_exhausts_and_fails() {
    let n = AtomicU32::new(0);
    let err = retry_interrupted(|| {
        n.fetch_add(1, Ordering::SeqCst);
        Err::<(), _>(Error::new(ErrorKind::Interrupted, "still eintr"))
    })
    .unwrap_err();
    assert_eq!(err.kind(), ErrorKind::Interrupted);
    assert_eq!(n.load(Ordering::SeqCst), INTERRUPTED_RETRY_LIMIT);
}

#[test]
fn retry_interrupted_passes_through_non_retryable() {
    let n = AtomicU32::new(0);
    let err = retry_interrupted(|| {
        n.fetch_add(1, Ordering::SeqCst);
        Err::<(), _>(Error::new(ErrorKind::NotFound, "gone"))
    })
    .unwrap_err();
    assert_eq!(err.kind(), ErrorKind::NotFound);
    assert_eq!(n.load(Ordering::SeqCst), 1);
}

#[test]
fn retryable_kind_is_interrupted_only() {
    assert!(is_retryable_fs_io(&Error::new(ErrorKind::Interrupted, "x")));
    assert!(!is_retryable_fs_io(&Error::new(ErrorKind::NotFound, "x")));
}

#[test]
fn parse_suffixes() {
    assert_eq!(parse_byte_size("500M").unwrap(), 500 * 1024 * 1024);
    assert_eq!(parse_byte_size("1G").unwrap(), 1024 * 1024 * 1024);
    assert_eq!(parse_byte_size("1024").unwrap(), 1024);
    assert_eq!(parse_byte_size("0").unwrap(), 0);
}

#[test]
fn admit_budget() {
    let budget = 1000;
    assert!(can_admit(0, 0, 2000, budget, 4));
    assert!(can_admit(500, 1, 400, budget, 4));
    assert!(!can_admit(500, 1, 600, budget, 4));
    assert!(!can_admit(0, 4, 1, budget, 4));
    assert!(can_admit(9999, 1, 1, 0, 4));
}

#[test]
fn samples_and_plus_more() {
    let mut log = SoftSkipLog::default();
    for i in 0..12 {
        log.note(SoftKind::Vanished, &format!("file{i}.log"));
    }
    let lines = log.format_lines();
    assert_eq!(lines.len(), 1);
    assert!(lines[0].starts_with("skip: vanished 12: "));
    assert!(lines[0].contains("file0.log"));
    assert!(lines[0].contains("… (+7)"), "{}", lines[0]);
}

#[test]
fn compact_uses_basename_for_long_paths() {
    let mut log = SoftSkipLog::default();
    log.note(SoftKind::Vanished, "/var/log/app/very/deep/error.log");
    let line = &log.format_lines()[0];
    assert!(line.contains("error.log"), "{line}");
    assert!(!line.contains("/var/log"), "{line}");
}

#[test]
fn empty_log_prints_nothing() {
    let log = SoftSkipLog::default();
    assert!(log.format_lines().is_empty());
    assert_eq!(log.total(), 0);
}

#[test]
fn multiple_kinds_separate_lines() {
    let mut log = SoftSkipLog::default();
    log.note(SoftKind::Vanished, "a");
    log.note(SoftKind::Padded, "b");
    log.note(SoftKind::Config, "file-size L3");
    let lines = log.format_lines();
    assert_eq!(lines.len(), 3);
    assert!(lines[0].contains("vanished"));
    assert!(lines[1].contains("padded"));
    assert!(lines[2].contains("config"));
    assert_eq!(log.total(), 3);
    log.clear();
    assert_eq!(log.total(), 0);
}

#[test]
fn compact_sample_exact_forms() {
    assert_eq!(compact_sample("  short.txt  "), "short.txt");
    assert_eq!(compact_sample("   "), "");
    assert_eq!(compact_sample("a/b.c"), "a/b.c");
    let long = "x".repeat(70);
    let c = compact_sample(&long);
    assert_eq!(c, format!("{}…", "x".repeat(63)));
    let mut log = SoftSkipLog::default();
    log.note(SoftKind::Hardlink, "one");
    log.note(SoftKind::Hardlink, "two");
    assert_eq!(log.format_lines(), vec!["skip: hardlink 2: one, two".to_string()]);
}

#[test]
fn sample_fits_exactly_where_compaction_can_cut() {
    assert!(sample_fits("short.txt"));
    assert!(sample_fits("   "));
    assert!(sample_fits(&"x".repeat(70)));
    assert!(!sample_fits(&format!("{}{}", "x".repeat(62), "é".repeat(3))));
    assert!(sample_fits(&format!("{}{}", "x".repeat(63), "é".repeat(3))));
}

#[test]
fn sample_count_stops_at_the_cap() {
    let mut log = SoftSkipLog::new();
    for i in 0..8 {
        log.note(SoftKind::Padded, &format!("p{i}"));
    }
    assert_eq!(log.sample_count(SoftKind::Padded), 5);
    assert_eq!(log.sample_count(SoftKind::Vanished), 0);
    assert_eq!(log.count(SoftKind::Padded), 8);
    assert_eq!(log.count(SoftKind::Config), 0);
    assert_eq!(log.total(), 8);
}

#[test]
fn retry_while_stops_at_first_result_not_retried() {
    let n = AtomicU32::new(0);
    let r: Result<u32, u32> = retry_while(
        || {
            let i = n.fetch_add(1, Ordering::SeqCst);
            if i < 5 { Err(i) } else { Ok(i) }
        },
        |e: &u32| *e % 2 == 0,
    );
    // 0 is retried, 1 is an error not retried: two calls, the second result.
    assert_eq!(r, Err(1));
    assert_eq!(n.load(Ordering::SeqCst), 2);
}

#[test]
fn byte_sizes_with_an_exponent() {
    assert_eq!(parse_byte_size("1e3").unwrap(), 1000);
    assert_eq!(parse_byte_size("1E3").unwrap(), 1000);
    assert_eq!(parse_byte_size("1e+2").unwrap(), 100);
    assert_eq!(parse_byte_size("1.5e3k").unwrap(), 1_536_000);
    assert_eq!(parse_byte_size("2e-1k").unwrap(), 205);
    assert_eq!(parse_byte_size(".5e1").unwrap(), 5);
    assert_eq!(parse_byte_size("1.e1").unwrap(), 10);
    assert_eq!(parse_byte_size("25e-1").unwrap(), 3);
    assert_eq!(parse_byte_size("1e-400").unwrap(), 0);
    assert_eq!(parse_byte_size("-0e5").unwrap(), 0);
    assert_eq!(parse_byte_size("0e99999999999999999999999").unwrap(), 0);
    assert_eq!(parse_byte_size("1.8446744073709551615e19").unwrap(), u64::MAX);
    assert!(parse_byte_size("1e400").is_err());
    assert!(parse_byte_size("1e99999999999999999999999").is_err());
    assert!(parse_byte_size("-1e3").is_err());
    assert!(parse_byte_size("5e").is_err());
    assert!(parse_byte_size("e5").is_err());
    assert!(parse_byte_size("1e5.5").is_err());
    assert!(parse_byte_size("1e+-5").is_err());
}
