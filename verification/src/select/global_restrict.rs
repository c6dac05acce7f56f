//! Global restrictions applied after rule selection:
//! per-file size / age filters, then the newest-first total-size and file-count caps.

use crate::error::{Error, Result};
use crate::select::rank::{distinct_below, is_ranking, lemma_ranking_exists, rank_indices, rank_order};
use crate::select::report::{
    all_indices, as_restriction, count_false, entry_one, entry_size, fill_keeps, fill_lists,
    fill_ranked, fsum, index_seq, keep_weight, lemma_fill_sum_le, lemma_fill_sum_weight,
    lemma_fsum_one, lemma_select_by_members, lemma_select_by_weight, lemma_wsum_perm, pos_in, rview, rviews, sat, take_flagged_times,
    select_by, take_flagged, total_size, untouched, wsum, GlobalCountCapOutcome,
    GlobalSizeCapOutcome, RestrictionFile, RestrictionReport,
};
use crate::select::walk::{effective_mtimes, effective_times, mtime_of, mtime_or, retimed, with_times, SelectedEntry, SelectionStats};
use crate::text::{chars_of, ends_with, lower, lower_chars, slice_of, string_from, trim, trim_chars};
use crate::util::size_parse::{all_digits, byte_size_spec, dec_val, is_digit, parse_byte_size};
use vstd::prelude::*;

verus! {

/// Per-file size and age filters (applied before directory and global caps).
#[derive(Debug, Clone, Copy, PartialEq, Eq, Structural)]
pub struct PerFileLimits {
    /// Skip a file if `size > max_size`. `None` = off.
    pub max_size: Option<u64>,
    /// Skip a file if `size < min_size`. `None` or `Some(0)` = off.
    pub min_size: Option<u64>,
    /// Keep only files with mtime ≥ `now - newer_than_secs`. `None` = off.
    pub newer_than_secs: Option<u64>,
}

impl Default for PerFileLimits {
    fn default() -> (l: Self)
        ensures
            l.max_size is None,
            l.min_size is None,
            l.newer_than_secs is None,
    {
        PerFileLimits { max_size: None, min_size: None, newer_than_secs: None }
    }
}

pub open spec fn limits_active(l: PerFileLimits) -> bool {
    l.max_size is Some || (l.min_size matches Some(n) && n > 0) || l.newer_than_secs is Some
}

impl PerFileLimits {
    /// Whether any filter is on.
    pub fn is_active(&self) -> (b: bool)
        ensures
            b == limits_active(*self),
    {
        let min_on = match self.min_size {
            Some(n) => n > 0,
            None => false,
        };
        self.max_size.is_some() || min_on || self.newer_than_secs.is_some()
    }
}

/// Unit suffix of a lower-cased duration: number text and seconds per unit.
pub open spec fn duration_unit(l: Seq<char>) -> (Seq<char>, nat) {
    if l.len() > 0 && l.last() == 'd' {
        (l.take(l.len() - 1), 86400)
    } else if l.len() > 0 && l.last() == 'h' {
        (l.take(l.len() - 1), 3600)
    } else if l.len() > 0 && l.last() == 'm' {
        (l.take(l.len() - 1), 60)
    } else if l.len() > 0 && l.last() == 's' {
        (l.take(l.len() - 1), 1)
    } else {
        (l, 1)
    }
}

/// `u64` text (`[+]digits`) as `str::parse::<u64>` reads it.
pub open spec fn parse_u64_spec(t: Seq<char>) -> Option<nat> {
    let body = if t.len() > 0 && t[0] == '+' { t.skip(1) } else { t };
    if body.len() >= 1 && all_digits(body) && dec_val(body) <= u64::MAX {
        Some(dec_val(body))
    } else {
        None
    }
}

/// Seconds denoted by a duration string; `None` when it is rejected.
pub open spec fn duration_spec(s: Seq<char>) -> Option<u64> {
    let t = trim(s);
    let (rest, mult) = duration_unit(lower(t));
    let num = trim(rest);
    if t.len() == 0 || num.len() == 0 {
        None
    } else {
        match parse_u64_spec(num) {
            None => None,
            Some(n) => if n * mult > u64::MAX {
                None
            } else {
                Some((n * mult) as u64)
            },
        }
    }
}

/// Parses `[+]digits` into a `u64` (`None` when malformed or too large).
pub fn parse_u64_text(t: &[char]) -> (r: Option<u64>)
    ensures
        match parse_u64_spec(t@) {
            Some(n) => r == Some(n as u64),
            None => r is None,
        },
{
    let start: usize = if t.len() > 0 && t[0] == '+' { 1 } else { 0 };
    let body = slice_of(t, start, t.len());
    assert(t@.subrange(0, t@.len() as int) == t@);
    assert(body@ == (if t@.len() > 0 && t@[0] == '+' { t@.skip(1) } else { t@ }));
    if body.len() == 0 {
        return None;
    }
    let mut v: u128 = 0;
    let mut big = false;
    let mut i: usize = 0;
    while i < body.len()
        invariant
            i <= body.len(),
            body@ == (if t@.len() > 0 && t@[0] == '+' { t@.skip(1) } else { t@ }),
            forall|k: int| 0 <= k < i ==> is_digit(#[trigger] body@[k]),
            big ==> dec_val(body@.take(i as int)) > u64::MAX,
            !big ==> v == dec_val(body@.take(i as int)) && v <= u64::MAX,
        decreases body.len() - i,
    {
        let c = body[i];
        if !('0' <= c && c <= '9') {
            assert(!is_digit(body@[i as int]));
            return None;
        }
        assert(body@.take(i + 1).drop_last() == body@.take(i as int));
        assert(body@.take(i + 1).last() == c);
        if !big {
            v = v * 10 + (c as u32 - '0' as u32) as u128;
            if v > 18446744073709551615u128 {
                big = true;
            }
        }
        i = i + 1;
    }
    assert(body@.take(body.len() as int) == body@);
    if big {
        None
    } else {
        Some(v as u64)
    }
}

/// Parse a duration: a non-negative integer with an optional unit suffix
/// `d` (days), `h` (hours), `m` (minutes) or `s` (seconds); bare numbers are seconds.
pub fn parse_duration_secs(s: &str) -> (r: Result<u64>)
    ensures
        match duration_spec(s@) {
            Some(v) => r matches Ok(x) && x == v,
            None => r matches Err(e) && e is Message,
        },
{
    let raw = chars_of(s);
    let t = trim_chars(&raw);
    if t.len() == 0 {
        return Err(Error::Message(string_from("empty duration string")));
    }
    let low = lower_chars(&t);
    let n = low.len();
    let (rest, mult): (Vec<char>, u64) = if n > 0 && low[n - 1] == 'd' {
        (slice_of(&low, 0, n - 1), 86400)
    } else if n > 0 && low[n - 1] == 'h' {
        (slice_of(&low, 0, n - 1), 3600)
    } else if n > 0 && low[n - 1] == 'm' {
        (slice_of(&low, 0, n - 1), 60)
    } else if n > 0 && low[n - 1] == 's' {
        (slice_of(&low, 0, n - 1), 1)
    } else {
        (slice_of(&low, 0, n), 1)
    };
    proof {
        let l = low@;
        assert(l.subrange(0, l.len() as int) == l);
        assert(rest@ == duration_unit(l).0 && mult == duration_unit(l).1);
    }
    let num = trim_chars(&rest);
    if num.len() == 0 {
        return Err(Error::Message(string_from("missing number in duration")));
    }
    let v = match parse_u64_text(&num) {
        Some(v) => v,
        None => {
            return Err(Error::Message(string_from("invalid duration")));
        },
    };
    match v.checked_mul(mult) {
        Some(x) => Ok(x),
        None => Err(Error::Message(string_from("duration too large"))),
    }
}

/// Outcome of [`per_file_limits_from_cli`]: `None` when some value is rejected.
pub open spec fn per_file_cli_spec(
    max_size: Option<Seq<char>>,
    min_size: Option<Seq<char>>,
    newer_than: Option<Seq<char>>,
) -> Option<PerFileLimits> {
    let mx = match max_size {
        Some(s) => match byte_size_spec(s) {
            Some(v) => Some(Some(v)),
            None => None,
        },
        None => Some(None),
    };
    let mn = match min_size {
        Some(s) => match byte_size_spec(s) {
            Some(v) => if v == 0 { Some(None) } else { Some(Some(v)) },
            None => None,
        },
        None => Some(None),
    };
    let nt = match newer_than {
        Some(s) => match duration_spec(s) {
            Some(v) => Some(Some(v)),
            None => None,
        },
        None => Some(None),
    };
    match (mx, mn, nt) {
        (Some(a), Some(b), Some(c)) => Some((PerFileLimits { max_size: a, min_size: b, newer_than_secs: c })),
        _ => None,
    }
}

pub open spec fn opt_view(o: Option<&str>) -> Option<Seq<char>> {
    match o {
        Some(s) => Some(s@),
        None => None,
    }
}

/// Build [`PerFileLimits`] from optional command-line size / duration strings
/// (a minimum of 0 turns the minimum off).
pub fn per_file_limits_from_cli(
    max_size: Option<&str>,
    min_size: Option<&str>,
    newer_than: Option<&str>,
) -> (r: Result<PerFileLimits>)
    ensures
        match per_file_cli_spec(opt_view(max_size), opt_view(min_size), opt_view(newer_than)) {
            Some(l) => r matches Ok(x) && x == l,
            None => r matches Err(e) && e is Message,
        },
{
    let max_size = match max_size {
        Some(s) => Some(parse_byte_size(s)?),
        None => None,
    };
    let min_size = match min_size {
        Some(s) => {
            let n = parse_byte_size(s)?;
            if n == 0 {
                None
            } else {
                Some(n)
            }
        },
        None => None,
    };
    let newer_than_secs = match newer_than {
        Some(s) => Some(parse_duration_secs(s)?),
        None => None,
    };
    Ok(PerFileLimits { max_size, min_size, newer_than_secs })
}

/// Why an entry is dropped by the per-file filters: 0 kept, 1 above the
/// maximum, 2 below the minimum, 3 older than the cutoff.
/// (`t` is the entry's modification time: the stored one, else the one read
/// from disk.)
pub open spec fn per_file_class(e: SelectedEntry, t: u64, l: PerFileLimits, cutoff: Option<u64>) -> int {
    if l.max_size matches Some(m) && e.size > m {
        1
    } else if l.min_size matches Some(n) && n > 0 && e.size < n {
        2
    } else if cutoff matches Some(c) && t < c {
        3
    } else {
        0
    }
}

/// The mtime cutoff for a clock reading: `now - newer_than`, saturating at 0.
pub open spec fn cutoff_of(l: PerFileLimits, now: u64) -> Option<u64> {
    match l.newer_than_secs {
        Some(d) => Some(if now >= d { (now - d) as u64 } else { 0 }),
        None => None,
    }
}

pub open spec fn class_keep(es: Seq<SelectedEntry>, dm: Seq<u64>, l: PerFileLimits, cutoff: Option<u64>) -> Seq<bool> {
    Seq::new(es.len(), |i: int| per_file_class(es[i], mtime_or(es[i], dm[i]), l, cutoff) == 0)
}

/// Number of the first `n` entries in class `c`.
pub open spec fn class_count(es: Seq<SelectedEntry>, dm: Seq<u64>, l: PerFileLimits, cutoff: Option<u64>, c: int, n: int) -> nat
    decreases n,
{
    if n <= 0 {
        0
    } else if per_file_class(es[n - 1], mtime_or(es[n - 1], dm[n - 1]), l, cutoff) == c {
        class_count(es, dm, l, cutoff, c, n - 1) + 1
    } else {
        class_count(es, dm, l, cutoff, c, n - 1)
    }
}

/// Report views of the first `n` entries in class `c`, in order.
pub open spec fn class_list(es: Seq<SelectedEntry>, dm: Seq<u64>, l: PerFileLimits, cutoff: Option<u64>, c: int, n: int) -> Seq<(Seq<char>, u64)>
    decreases n,
{
    if n <= 0 {
        Seq::empty()
    } else if per_file_class(es[n - 1], mtime_or(es[n - 1], dm[n - 1]), l, cutoff) == c {
        class_list(es, dm, l, cutoff, c, n - 1).push(rview(es[n - 1]))
    } else {
        class_list(es, dm, l, cutoff, c, n - 1)
    }
}

proof fn lemma_class_count_le(es: Seq<SelectedEntry>, dm: Seq<u64>, l: PerFileLimits, cutoff: Option<u64>, n: int)
    requires
        0 <= n <= es.len(),
    ensures
        class_count(es, dm, l, cutoff, 1, n) + class_count(es, dm, l, cutoff, 2, n) + class_count(es, dm, l, cutoff, 3, n) <= n,
    decreases n,
{
    if n > 0 {
        lemma_class_count_le(es, dm, l, cutoff, n - 1);
    }
}

/// What [`apply_per_file_limits_at`] leaves in `stats`, `report` and the
/// disk times (`dm` before, `d1` after).
pub open spec fn per_file_effect(
    es: Seq<SelectedEntry>,
    dm: Seq<u64>,
    d1: Seq<u64>,
    l: PerFileLimits,
    cutoff: Option<u64>,
    s0: SelectionStats,
    s1: SelectionStats,
    r0: RestrictionReport,
    r1: RestrictionReport,
    out: Seq<SelectedEntry>,
) -> bool {
    let n = es.len() as int;
    &&& out == select_by(es, class_keep(es, dm, l, cutoff))
    &&& d1 == select_by(dm, class_keep(es, dm, l, cutoff))
    &&& s1 == (SelectionStats {
        selected: out.len() as u64,
        skipped_max_size: (s0.skipped_max_size + class_count(es, dm, l, cutoff, 1, n)) as u64,
        skipped_min_size: (s0.skipped_min_size + class_count(es, dm, l, cutoff, 2, n)) as u64,
        skipped_older_than: (s0.skipped_older_than + class_count(es, dm, l, cutoff, 3, n)) as u64,
        ..s0
    })
    &&& rviews(r1.skipped_max_size@) == rviews(r0.skipped_max_size@) + class_list(es, dm, l, cutoff, 1, n)
    &&& rviews(r1.skipped_min_size@) == rviews(r0.skipped_min_size@) + class_list(es, dm, l, cutoff, 2, n)
    &&& rviews(r1.skipped_older_than@) == rviews(r0.skipped_older_than@) + class_list(es, dm, l, cutoff, 3, n)
    &&& r1.skipped_file_size_from == r0.skipped_file_size_from
    &&& r1.max_total_size == r0.max_total_size
    &&& r1.max_files == r0.max_files
}

/// Room in the counters for every entry to be skipped.
pub open spec fn per_file_room(s: SelectionStats, n: int) -> bool {
    &&& s.skipped_max_size + n <= u64::MAX
    &&& s.skipped_min_size + n <= u64::MAX
    &&& s.skipped_older_than + n <= u64::MAX
}

/// Apply per-file maximum / minimum size and newer-than filters, with the
/// current time given as `now` (Unix seconds). An entry's age is judged by
/// its stored modification time, else by `disk_mtimes` (per entry, the time
/// read from disk, 0 when unreadable), which is filtered alongside the
/// entries. Keeps the relative order of kept entries; skips are counted on
/// `stats` and listed on `report`.
pub fn apply_per_file_limits_at(
    entries: Vec<SelectedEntry>,
    disk_mtimes: &mut Vec<u64>,
    limits: &PerFileLimits,
    now: u64,
    stats: &mut SelectionStats,
    report: &mut RestrictionReport,
) -> (r: Result<Vec<SelectedEntry>>)
    requires
        old(disk_mtimes).len() == entries.len(),
        per_file_room(*old(stats), entries.len() as int),
    ensures
        r matches Ok(out) && per_file_effect(
            entries@,
            old(disk_mtimes)@,
            final(disk_mtimes)@,
            *limits,
            cutoff_of(*limits, now),
            *old(stats),
            *final(stats),
            *old(report),
            *final(report),
            out@,
        ),
{
    let ghost es = entries@;
    let ghost dm = disk_mtimes@;
    let ghost cut = cutoff_of(*limits, now);
    let ghost r0 = *report;
    let ghost s0 = *stats;
    let n = entries.len();
    let min_active: Option<u64> = match limits.min_size {
        Some(m) => if m > 0 { Some(m) } else { None },
        None => None,
    };
    let cutoff: Option<u64> = match limits.newer_than_secs {
        Some(d) => Some(now.saturating_sub(d)),
        None => None,
    };
    let mut kept: Vec<SelectedEntry> = Vec::new();
    let mut kept_t: Vec<u64> = Vec::new();
    let mut i: usize = 0;
    for e in it: entries
        invariant
            n == es.len(),
            dm.len() == n,
            disk_mtimes@ == dm,
            kept_t@ == select_by(dm.take(i as int), class_keep(es, dm, *limits, cut)),
            it.seq() == es,
            i == it.index(),
            i <= n,
            cutoff == cut,
            cut == cutoff_of(*limits, now),
            min_active == (match limits.min_size {
                Some(m) => if m > 0 { Some(m) } else { None },
                None => None::<u64>,
            }),
            per_file_room(s0, n as int),
            kept@ == select_by(es.take(i as int), class_keep(es, dm, *limits, cut)),
            *stats == (SelectionStats {
                skipped_max_size: (s0.skipped_max_size + class_count(es, dm, *limits, cut, 1, i as int)) as u64,
                skipped_min_size: (s0.skipped_min_size + class_count(es, dm, *limits, cut, 2, i as int)) as u64,
                skipped_older_than: (s0.skipped_older_than + class_count(es, dm, *limits, cut, 3, i as int)) as u64,
                ..s0
            }),
            rviews(report.skipped_max_size@) == rviews(r0.skipped_max_size@) + class_list(es, dm, *limits, cut, 1, i as int),
            rviews(report.skipped_min_size@) == rviews(r0.skipped_min_size@) + class_list(es, dm, *limits, cut, 2, i as int),
            rviews(report.skipped_older_than@) == rviews(r0.skipped_older_than@) + class_list(es, dm, *limits, cut, 3, i as int),
            report.skipped_file_size_from == r0.skipped_file_size_from,
            report.max_total_size == r0.max_total_size,
            report.max_files == r0.max_files,
    {
        proof {
            assert(es.take(i + 1).drop_last() == es.take(i as int));
            assert(es.take(i + 1).last() == es[i as int]);
            assert(e == es[i as int]);
            assert(dm.take(i + 1).drop_last() == dm.take(i as int));
            assert(dm.take(i + 1).last() == dm[i as int]);
            lemma_class_count_le(es, dm, *limits, cut, i as int);
            lemma_class_count_le(es, dm, *limits, cut, i + 1);
        }
        let mut class: u8 = 0;
        match limits.max_size {
            Some(mx) => {
                if e.size > mx {
                    class = 1;
                }
            },
            None => {},
        }
        if class == 0 {
            match min_active {
                Some(mn) => {
                    if e.size < mn {
                        class = 2;
                    }
                },
                None => {},
            }
        }
        let t = match e.mtime_unix {
            Some(t) => t,
            None => disk_mtimes[i],
        };
        if class == 0 {
            match cutoff {
                Some(c) => {
                    if t < c {
                        class = 3;
                    }
                },
                None => {},
            }
        }
        assert(class == per_file_class(es[i as int], mtime_or(es[i as int], dm[i as int]), *limits, cut));
        let ghost v1 = report.skipped_max_size@;
        let ghost v2 = report.skipped_min_size@;
        let ghost v3 = report.skipped_older_than@;
        if class == 1 {
            stats.skipped_max_size = stats.skipped_max_size + 1;
            let f = as_restriction(&e);
            report.skipped_max_size.push(f);
            assert(rviews(report.skipped_max_size@) =~= rviews(v1).push(f@));
        } else if class == 2 {
            stats.skipped_min_size = stats.skipped_min_size + 1;
            let f = as_restriction(&e);
            report.skipped_min_size.push(f);
            assert(rviews(report.skipped_min_size@) =~= rviews(v2).push(f@));
        } else if class == 3 {
            stats.skipped_older_than = stats.skipped_older_than + 1;
            let f = as_restriction(&e);
            report.skipped_older_than.push(f);
            assert(rviews(report.skipped_older_than@) =~= rviews(v3).push(f@));
        } else {
            kept.push(e);
            kept_t.push(disk_mtimes[i]);
        }
        i = i + 1;
    }
    proof {
        assert(es.take(n as int) == es);
        assert(dm.take(n as int) == dm);
    }
    *disk_mtimes = kept_t;
    stats.selected = kept.len() as u64;
    Ok(kept)
}

/// Current Unix time in seconds (0 if the clock reads before the epoch).
#[verifier::external_body]
pub(crate) fn now_unix_secs() -> (t: u64) {
    match std::time::SystemTime::now().duration_since(std::time::UNIX_EPOCH) {
        Ok(d) => d.as_secs(),
        Err(_) => 0,
    }
}

/// Apply per-file maximum / minimum size and newer-than filters against the
/// current clock. Keeps the relative order of kept entries.
pub fn apply_per_file_limits(
    entries: Vec<SelectedEntry>,
    disk_mtimes: &mut Vec<u64>,
    limits: &PerFileLimits,
    stats: &mut SelectionStats,
    report: &mut RestrictionReport,
) -> (r: Result<Vec<SelectedEntry>>)
    requires
        old(disk_mtimes).len() == entries.len(),
        per_file_room(*old(stats), entries.len() as int),
    ensures
        r matches Ok(out) && exists|now: u64|
            per_file_effect(
                entries@,
                old(disk_mtimes)@,
                final(disk_mtimes)@,
                *limits,
                #[trigger] cutoff_of(*limits, now),
                *old(stats),
                *final(stats),
                *old(report),
                *final(report),
                out@,
            ),
{
    let now = if limits.newer_than_secs.is_some() && entries.len() > 0 {
        now_unix_secs()
    } else {
        0
    };
    apply_per_file_limits_at(entries, disk_mtimes, limits, now, stats, report)
}

/// The total-size cap's report lists: kept and skipped, newest first.
pub open spec fn size_cap_lists(es: Seq<SelectedEntry>, limit: u64) -> (Seq<(Seq<char>, u64)>, Seq<(Seq<char>, u64)>) {
    fill_lists(es, rank_order(es, index_seq(es.len() as int)), limit)
}

/// The file-count cap's report lists: the first `max_count` newest first
/// kept, the rest skipped.
pub open spec fn count_cap_lists(es: Seq<SelectedEntry>, max_count: u64) -> (Seq<(Seq<char>, u64)>, Seq<(Seq<char>, u64)>) {
    let o = rank_order(es, index_seq(es.len() as int));
    let k = if max_count < o.len() {
        max_count as int
    } else {
        o.len() as int
    };
    (o.take(k).map_values(|i: usize| rview(es[i as int])), o.skip(k).map_values(|i: usize| rview(es[i as int])))
}

/// What the total-size cap keeps, per entry index.
pub open spec fn size_cap_keep(es: Seq<SelectedEntry>, limit: u64) -> Seq<bool> {
    let o = rank_order(es, index_seq(es.len() as int));
    Seq::new(es.len(), |i: int| fill_keeps(es, o, limit, pos_in(o, i)))
}

/// What the file-count cap keeps, per entry index: the first `max_count` in rank order.
pub open spec fn count_cap_keep(es: Seq<SelectedEntry>, max_count: u64) -> Seq<bool> {
    let o = rank_order(es, index_seq(es.len() as int));
    Seq::new(es.len(), |i: int| pos_in(o, i) < max_count)
}

proof fn lemma_all_ranked(es: Seq<SelectedEntry>, cand: Seq<usize>, o: Seq<usize>)
    requires
        es.len() <= usize::MAX,
        cand == index_seq(es.len() as int),
        is_ranking(es, cand, o),
    ensures
        forall|i: int| 0 <= i < es.len() ==> 0 <= #[trigger] pos_in(o, i) < o.len() && o[pos_in(o, i)] == i,
        forall|a: int| #![trigger o[a]] 0 <= a < o.len() ==> o[a] < es.len() && pos_in(o, o[a] as int) == a,
        forall|a: int, b: int| 0 <= a < b < o.len() ==> o[a] != o[b],
{
    assert forall|a: int, b: int| 0 <= a < b < o.len() implies o[a] != o[b] by {
        crate::select::rank::lemma_rank_order_laws(es, o[a] as int, o[a] as int, o[a] as int);
    }
    assert forall|i: int| 0 <= i < es.len() implies 0 <= #[trigger] pos_in(o, i) < o.len() && o[pos_in(o, i)] == i by {
        assert(cand[i] == i as usize);
        assert(cand.contains(i as usize));
        assert(o.contains(i as usize));
    }
    assert forall|a: int| #![trigger o[a]] 0 <= a < o.len() implies o[a] < es.len() && pos_in(o, o[a] as int) == a by {
        assert(o.contains(o[a]));
        assert(cand.contains(o[a]));
        let j = choose|j: int| 0 <= j < cand.len() && cand[j] == o[a];
        assert(cand[j] == j as usize);
        let x = o[a] as int;
        assert(exists|k: int| 0 <= k < o.len() && o[k] == x) by {
            assert(o[a] == x);
        }
        let k = pos_in(o, x);
        assert(0 <= k < o.len() && o[k] == x);
        if k < a {
            assert(o[k] != o[a]);
        } else if k > a {
            assert(o[a] != o[k]);
        }
    }
}

/// Global total-size cap: rank newest first (mtime descending, name ascending)
/// and keep entries while the running sum plus the size stays within `limit`.
/// Keeps the relative order of kept entries from the input list.
pub fn apply_max_total_size(
    entries: Vec<SelectedEntry>,
    disk_mtimes: &mut Vec<u64>,
    limit: u64,
    stats: &mut SelectionStats,
    report: &mut RestrictionReport,
) -> (r: Result<Vec<SelectedEntry>>)
    requires
        old(disk_mtimes).len() == entries.len(),
        old(stats).skipped_max_total_size + entries.len() <= u64::MAX,
    ensures
        r matches Ok(out) && {
            let es = with_times(entries@, effective_times(entries@, old(disk_mtimes)@));
            let keep = size_cap_keep(es, limit);
            let o = rank_order(es, index_seq(es.len() as int));
            &&& out@ == select_by(entries@, keep)
            &&& final(disk_mtimes)@ == select_by(old(disk_mtimes)@, keep)
            &&& *final(stats) == (SelectionStats {
                selected: out@.len() as u64,
                skipped_max_total_size: (old(stats).skipped_max_total_size + count_false(keep, es.len() as int)) as u64,
                ..*old(stats)
            })
            &&& es.len() == 0 ==> *final(report) == *old(report)
            &&& es.len() > 0 ==> (final(report).max_total_size matches Some(oc) && oc.limit == limit
                && rviews(oc.kept@) == size_cap_lists(es, limit).0
                && rviews(oc.skipped@) == size_cap_lists(es, limit).1)
            &&& final(report).skipped_max_size == old(report).skipped_max_size
            &&& final(report).skipped_min_size == old(report).skipped_min_size
            &&& final(report).skipped_older_than == old(report).skipped_older_than
            &&& final(report).skipped_file_size_from == old(report).skipped_file_size_from
            &&& final(report).max_files == old(report).max_files
        },
{
    let ghost orig = entries@;
    let ghost dm = disk_mtimes@;
    let eff = effective_mtimes(entries.as_slice(), disk_mtimes.as_slice());
    let keyed = retimed(entries.as_slice(), eff.as_slice());
    let ghost es = keyed@;
    let n = entries.len();
    if n == 0 {
        stats.selected = 0;
        proof {
            assert(select_by(orig, size_cap_keep(es, limit)) =~= orig);
            assert(select_by(dm, size_cap_keep(es, limit)) =~= dm);
        }
        return Ok(entries);
    }
    let cand = all_indices(n);
    assert(cand@ =~= index_seq(es.len() as int));
    let order = rank_indices(keyed.as_slice(), &cand);
    proof {
        lemma_all_ranked(es, cand@, order@);
    }
    let mut keep: Vec<bool> = Vec::new();
    let mut k: usize = 0;
    while k < n
        invariant
            k <= n,
            keep.len() == k,
            forall|j: int| 0 <= j < k ==> keep@[j] == false,
        decreases n - k,
    {
        keep.push(false);
        k = k + 1;
    }
    let (kept_list, skipped_list) = fill_ranked(keyed.as_slice(), &order, limit, &mut keep);
    proof {
        assert(keep@ =~= size_cap_keep(es, limit)) by {
            assert forall|i: int| 0 <= i < n implies keep@[i] == size_cap_keep(es, limit)[i] by {
                let t = pos_in(order@, i);
                assert(order@[t] == i);
            }
        }
    }
    report.max_total_size = Some(GlobalSizeCapOutcome { limit, kept: kept_list, skipped: skipped_list });
    let (out, dropped) = take_flagged(entries, &keep);
    take_flagged_times(disk_mtimes, &keep);
    stats.skipped_max_total_size = stats.skipped_max_total_size + dropped;
    stats.selected = out.len() as u64;
    Ok(out)
}

/// Global file-count cap: keep at most `max_count` entries, newest first.
/// Keeps the relative order of kept entries from the input list.
pub fn apply_max_files(
    entries: Vec<SelectedEntry>,
    disk_mtimes: &mut Vec<u64>,
    max_count: u64,
    stats: &mut SelectionStats,
    report: &mut RestrictionReport,
) -> (r: Result<Vec<SelectedEntry>>)
    requires
        old(disk_mtimes).len() == entries.len(),
        old(stats).skipped_max_files + entries.len() <= u64::MAX,
    ensures
        r matches Ok(out) && {
            let es = with_times(entries@, effective_times(entries@, old(disk_mtimes)@));
            let keep = count_cap_keep(es, max_count);
            let o = rank_order(es, index_seq(es.len() as int));
            &&& out@ == select_by(entries@, keep)
            &&& final(disk_mtimes)@ == select_by(old(disk_mtimes)@, keep)
            &&& *final(stats) == (SelectionStats {
                selected: out@.len() as u64,
                skipped_max_files: (old(stats).skipped_max_files + count_false(keep, es.len() as int)) as u64,
                ..*old(stats)
            })
            &&& es.len() == 0 ==> *final(report) == *old(report)
            &&& es.len() > 0 ==> (final(report).max_files matches Some(oc) && oc.max_count == max_count
                && rviews(oc.kept@) == count_cap_lists(es, max_count).0
                && rviews(oc.skipped@) == count_cap_lists(es, max_count).1)
            &&& final(report).skipped_max_size == old(report).skipped_max_size
            &&& final(report).skipped_min_size == old(report).skipped_min_size
            &&& final(report).skipped_older_than == old(report).skipped_older_than
            &&& final(report).skipped_file_size_from == old(report).skipped_file_size_from
            &&& final(report).max_total_size == old(report).max_total_size
        },
{
    let ghost orig = entries@;
    let ghost dm = disk_mtimes@;
    let eff = effective_mtimes(entries.as_slice(), disk_mtimes.as_slice());
    let keyed = retimed(entries.as_slice(), eff.as_slice());
    let ghost es = keyed@;
    let n = entries.len();
    if n == 0 {
        stats.selected = 0;
        proof {
            assert(select_by(orig, count_cap_keep(es, max_count)) =~= orig);
            assert(select_by(dm, count_cap_keep(es, max_count)) =~= dm);
        }
        return Ok(entries);
    }
    let cand = all_indices(n);
    assert(cand@ =~= index_seq(es.len() as int));
    let order = rank_indices(keyed.as_slice(), &cand);
    proof {
        lemma_all_ranked(es, cand@, order@);
    }
    let mut keep: Vec<bool> = Vec::new();
    let mut k: usize = 0;
    while k < n
        invariant
            k <= n,
            keep.len() == k,
            forall|j: int| 0 <= j < k ==> keep@[j] == false,
        decreases n - k,
    {
        keep.push(false);
        k = k + 1;
    }
    let mut kept_list: Vec<RestrictionFile> = Vec::new();
    let mut skipped_list: Vec<RestrictionFile> = Vec::new();
    let mut kept_count: u64 = 0;
    let ghost m = if max_count < n { max_count as int } else { n as int };
    let ghost ov = order@;
    let mut t: usize = 0;
    while t < n
        invariant
            t <= n,
            n == es.len(),
            keyed@ == es,
            order@ == ov,
            ov.len() == n,
            m == (if max_count < n { max_count as int } else { n as int }),
            forall|i: int| 0 <= i < es.len() ==> 0 <= #[trigger] pos_in(ov, i) < ov.len() && ov[pos_in(ov, i)] == i,
            forall|a: int| #![trigger ov[a]] 0 <= a < ov.len() ==> ov[a] < es.len() && pos_in(ov, ov[a] as int) == a,
            keep.len() == n,
            kept_count == (if t < m { t as int } else { m }),
            forall|i: int| 0 <= i < n ==> keep@[i] == (pos_in(ov, i) < t && pos_in(ov, i) < max_count),
            rviews(kept_list@) == ov.take(if t < m { t as int } else { m }).map_values(|i: usize| rview(es[i as int])),
            rviews(skipped_list@) == ov.subrange(m, if t < m { m } else { t as int }).map_values(|i: usize| rview(es[i as int])),
        decreases n - t,
    {
        let i = order[t];
        let e = &keyed[i];
        let ghost kv = kept_list@;
        let ghost sv = skipped_list@;
        let ghost kp = keep@;
        if kept_count < max_count {
            keep.set(i, true);
            kept_count = kept_count + 1;
            let f = as_restriction(e);
            kept_list.push(f);
            assert(t < m);
            assert(ov.take(t + 1) == ov.take(t as int).push(ov[t as int]));
            assert(rviews(kept_list@) =~= rviews(kv).push(f@));
            assert(ov.take(t + 1).map_values(|i: usize| rview(es[i as int])) =~= ov.take(t as int).map_values(|i: usize| rview(es[i as int])).push(rview(es[ov[t as int] as int])));
            assert(rviews(kept_list@) =~= ov.take(t + 1).map_values(|i: usize| rview(es[i as int])));
            assert(rviews(skipped_list@) =~= ov.subrange(m, m).map_values(|i: usize| rview(es[i as int])));
        } else {
            keep.set(i, false);
            let f = as_restriction(e);
            skipped_list.push(f);
            assert(t >= m);
            assert(ov.subrange(m, t + 1) == ov.subrange(m, t as int).push(ov[t as int]));
            assert(rviews(skipped_list@) =~= rviews(sv).push(f@));
            assert(ov.subrange(m, t + 1).map_values(|i: usize| rview(es[i as int])) =~= ov.subrange(m, t as int).map_values(|i: usize| rview(es[i as int])).push(rview(es[ov[t as int] as int])));
            assert(rviews(skipped_list@) =~= ov.subrange(m, t + 1).map_values(|i: usize| rview(es[i as int])));
        }
        proof {
            assert forall|x: int| 0 <= x < n implies keep@[x] == (pos_in(ov, x) < t + 1 && pos_in(ov, x) < max_count) by {
                if x != i as int {
                    assert(pos_in(ov, x) != t) by {
                        if pos_in(ov, x) == t {
                            assert(ov[t as int] == x);
                        }
                    }
                    assert(keep@[x] == kp[x]);
                } else {
                    assert(pos_in(ov, ov[t as int] as int) == t);
                }
            }
        }
        t = t + 1;
    }
    proof {
        assert(keep@ =~= count_cap_keep(es, max_count));
        assert(ov.subrange(m, n as int) == ov.skip(m));
    }
    report.max_files = Some(GlobalCountCapOutcome { max_count, kept: kept_list, skipped: skipped_list });
    let (out, dropped) = take_flagged(entries, &keep);
    take_flagged_times(disk_mtimes, &keep);
    stats.skipped_max_files = stats.skipped_max_files + dropped;
    stats.selected = out.len() as u64;
    Ok(out)
}

/// Law: the files kept by the total-size cap (ranked by the times `mt`) have
/// sizes that sum, saturated at `u64::MAX` as the cap's running sum is, to at
/// most the limit; for a limit below `u64::MAX` the exact sum is at most the
/// limit.
pub proof fn lemma_total_size_cap_within_limit(es: Seq<SelectedEntry>, mt: Seq<u64>, limit: u64)
    requires
        es.len() <= usize::MAX,
    ensures
        sat(total_size(select_by(es, size_cap_keep(with_times(es, mt), limit)))) <= limit,
        limit < u64::MAX ==> total_size(select_by(es, size_cap_keep(with_times(es, mt), limit))) <= limit,
{
    let ks = with_times(es, mt);
    lemma_size_cap_ranked_within_limit(ks, limit);
    crate::select::report::lemma_select_by_retimed(es, mt, size_cap_keep(ks, limit));
}

proof fn lemma_size_cap_ranked_within_limit(es: Seq<SelectedEntry>, limit: u64)
    requires
        es.len() <= usize::MAX,
    ensures
        sat(total_size(select_by(es, size_cap_keep(es, limit)))) <= limit,
        limit < u64::MAX ==> total_size(select_by(es, size_cap_keep(es, limit))) <= limit,
{
    let n = es.len() as int;
    let idx = index_seq(n);
    let keep = size_cap_keep(es, limit);
    let w = keep_weight(es, keep, entry_size());
    lemma_select_by_weight(es, keep, entry_size(), n);
    assert(es.take(n) == es);
    assert(distinct_below(idx, n));
    lemma_ranking_exists(es, idx);
    let o = rank_order(es, idx);
    lemma_all_ranked(es, idx, o);
    assert(idx.no_duplicates());
    assert(o.no_duplicates());
    assert forall|x: usize| idx.contains(x) <==> o.contains(x) by {}
    lemma_wsum_perm(idx, o, w);
    assert forall|k: int| 0 <= k < o.len() implies #[trigger] w(o[k] as int) == (if fill_keeps(es, o, limit, k) {
        es[o[k] as int].size as int
    } else {
        0int
    }) by {
        assert(keep[o[k] as int] == fill_keeps(es, o, limit, pos_in(o, o[k] as int)));
    }
    lemma_fill_sum_weight(es, o, limit, w, o.len() as int);
    assert(o.take(o.len() as int) == o);
    lemma_fill_sum_le(es, o, limit);
}

proof fn lemma_count_prefix(o: Seq<usize>, w: spec_fn(int) -> int, max_count: u64, m: int)
    requires
        0 <= m <= o.len(),
        forall|k: int| 0 <= k < o.len() ==> #[trigger] w(o[k] as int) == (if k < max_count { 1int } else { 0int }),
    ensures
        wsum(o.take(m), w) == (if m < max_count { m } else { max_count as int }),
    decreases m,
{
    if m > 0 {
        lemma_count_prefix(o, w, max_count, m - 1);
        assert(o.take(m) == o.take(m - 1).push(o[m - 1]));
        crate::select::report::lemma_wsum_push(o.take(m - 1), w, o[m - 1]);
        assert(w(o[m - 1] as int) == (if m - 1 < max_count { 1int } else { 0int }));
    } else {
        assert(o.take(0) == Seq::<usize>::empty());
    }
}

/// Law: the file-count cap (ranked by the times `mt`) keeps exactly
/// `min(len, max_count)` of `len` files.
pub proof fn lemma_file_count_cap_keeps_min(es: Seq<SelectedEntry>, mt: Seq<u64>, max_count: u64)
    requires
        es.len() <= usize::MAX,
    ensures
        select_by(es, count_cap_keep(with_times(es, mt), max_count)).len() == (if es.len() < max_count {
            es.len() as int
        } else {
            max_count as int
        }),
{
    let ks = with_times(es, mt);
    lemma_count_cap_ranked_keeps_min(ks, max_count);
    crate::select::report::lemma_select_by_retimed(es, mt, count_cap_keep(ks, max_count));
}

proof fn lemma_count_cap_ranked_keeps_min(es: Seq<SelectedEntry>, max_count: u64)
    requires
        es.len() <= usize::MAX,
    ensures
        select_by(es, count_cap_keep(es, max_count)).len() == (if es.len() < max_count {
            es.len() as int
        } else {
            max_count as int
        }),
{
    let n = es.len() as int;
    let idx = index_seq(n);
    let keep = count_cap_keep(es, max_count);
    let w = keep_weight(es, keep, entry_one());
    lemma_select_by_weight(es, keep, entry_one(), n);
    assert(es.take(n) == es);
    lemma_fsum_one(select_by(es, keep));
    assert(distinct_below(idx, n));
    lemma_ranking_exists(es, idx);
    let o = rank_order(es, idx);
    lemma_all_ranked(es, idx, o);
    assert(idx.no_duplicates());
    assert(o.no_duplicates());
    assert forall|x: usize| idx.contains(x) <==> o.contains(x) by {}
    lemma_wsum_perm(idx, o, w);
    assert forall|k: int| 0 <= k < o.len() implies #[trigger] w(o[k] as int) == (if k < max_count { 1int } else { 0int }) by {
        assert(keep[o[k] as int] == (pos_in(o, o[k] as int) < max_count));
    }
    lemma_count_prefix(o, w, max_count, n);
    assert(o.take(n) == o);
}

/// An entry meets the per-file limits: within the maximum size, at or above
/// a nonzero minimum size, and, by its modification time `t`, not older than
/// the cutoff.
pub open spec fn within_limits(e: SelectedEntry, t: u64, l: PerFileLimits, cutoff: Option<u64>) -> bool {
    &&& l.max_size is Some ==> e.size <= l.max_size->0
    &&& l.min_size is Some && l.min_size->0 > 0 ==> e.size >= l.min_size->0
    &&& cutoff is Some ==> t >= cutoff->0
}

/// Law: every file that the per-file filters keep meets the limits (judged
/// by its stored time, else its disk time), and every file that meets them
/// is kept.
pub proof fn lemma_per_file_kept_within_limits(es: Seq<SelectedEntry>, dm: Seq<u64>, l: PerFileLimits, cutoff: Option<u64>)
    requires
        dm.len() == es.len(),
    ensures
        forall|k: int| 0 <= k < select_by(es, class_keep(es, dm, l, cutoff)).len() ==> within_limits(
            #[trigger] select_by(es, class_keep(es, dm, l, cutoff))[k],
            select_by(effective_times(es, dm), class_keep(es, dm, l, cutoff))[k],
            l,
            cutoff,
        ),
        forall|i: int| 0 <= i < es.len() ==> (#[trigger] class_keep(es, dm, l, cutoff)[i] <==> within_limits(es[i], mtime_or(es[i], dm[i]), l, cutoff)),
{
    let keep = class_keep(es, dm, l, cutoff);
    let ts = effective_times(es, dm);
    crate::select::report::lemma_select_by_keeps_order(es, keep);
    crate::select::report::lemma_select_by_keeps_order(ts, keep);
    let kp = crate::select::report::kept_positions(keep, es.len() as int);
    assert(ts.len() == es.len());
    assert forall|k: int| 0 <= k < select_by(es, keep).len() implies within_limits(
        #[trigger] select_by(es, keep)[k],
        select_by(ts, keep)[k],
        l,
        cutoff,
    ) by {
        let i = kp[k];
        assert(0 <= i < es.len() && keep[i]);
        assert(select_by(es, keep)[k] == es[i]);
        assert(select_by(ts, keep)[k] == ts[i]);
        assert(per_file_class(es[i], mtime_or(es[i], dm[i]), l, cutoff) == 0);
    }
}

} // verus!
