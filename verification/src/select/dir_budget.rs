//! Directory size budgets: cap the selected bytes under a directory, newest first.
//!
//! After include/exclude selection, the files under a budgeted archive-relative
//! directory are ranked by mtime descending (then archive name ascending) and
//! kept while `running_sum + size <= limit`. Nested budgets: the longest
//! matching directory prefix wins.

use crate::error::{Error, Result};
use crate::select::pathnorm::{normalize_archive_str, normalize_spec, NormOutcome};
use crate::select::rank::{
    distinct_below, is_ranking, lemma_rank_order_laws, lemma_ranking_exists, rank_indices, rank_order,
};
use crate::select::report::{
    count_false, entry_size, fill_keeps, fill_ranked, index_seq, keep_weight, lemma_fill_sum_le,
    lemma_fill_sum_weight, lemma_select_by_weight, lemma_wsum_perm, lemma_wsum_push, pos_in, sat,
    select_by, take_flagged, take_flagged_times, total_size, untouched, wsum,
};
use crate::select::trim_trailing_seps;
use crate::select::walk::{retimed, with_times, SelectedEntry, SelectionStats};
use crate::text::{
    chars_of, eq_chars, has_prefix, split_once_chars, split_once_spec, starts_with, string_from,
    string_of, trim, trim_chars,
};
use crate::util::size_parse::{byte_size_spec, parse_byte_size};
use vstd::prelude::*;

verus! {

/// One `PATH=SIZE` directory budget.
#[derive(Debug, Clone, PartialEq, Eq)]
pub struct DirBudget {
    /// Archive-relative directory prefix (no trailing `/`).
    pub prefix: String,
    /// Max total selected bytes under this directory (recursive).
    pub limit: u64,
}

impl View for DirBudget {
    type V = (Seq<char>, u64);

    open spec fn view(&self) -> (Seq<char>, u64) {
        (self.prefix@, self.limit)
    }
}

/// One directory file-count limit (recursive under the prefix).
#[derive(Debug, Clone, PartialEq, Eq)]
pub struct DirFileLimit {
    /// Archive-relative directory prefix (no trailing `/`).
    pub prefix: String,
    /// Max number of selected files under this directory.
    pub max_count: u64,
}

impl View for DirFileLimit {
    type V = (Seq<char>, u64);

    open spec fn view(&self) -> (Seq<char>, u64) {
        (self.prefix@, self.max_count)
    }
}

/// Outcome class of a budget argument.
pub enum BudgetOutcome {
    Budget(Seq<char>, u64),
    /// Rejected with `Error::Message`.
    Message,
    /// Rejected with `Error::PathTraversal`.
    Traversal,
    /// Rejected with `Error::InvalidMemberName`.
    Invalid,
}

/// Whether `r` carries the outcome `o`.
pub open spec fn budget_result(o: BudgetOutcome, r: Result<DirBudget>) -> bool {
    match o {
        BudgetOutcome::Budget(p, l) => r matches Ok(b) && b@ == (p, l),
        BudgetOutcome::Message => r matches Err(e) && e is Message,
        BudgetOutcome::Traversal => r matches Err(e) && e is PathTraversal,
        BudgetOutcome::Invalid => r matches Err(e) && e is InvalidMemberName,
    }
}

/// Outcome of [`normalize_budget_prefix`]: the normalized prefix, or the error class.
pub open spec fn budget_prefix_spec(path: Seq<char>) -> BudgetOutcome {
    let t = trim_trailing_seps(trim(path));
    if t.len() == 0 {
        BudgetOutcome::Message
    } else {
        match normalize_spec(t) {
            NormOutcome::Normal(n) => BudgetOutcome::Budget(n, 0),
            NormOutcome::Traversal => BudgetOutcome::Traversal,
            NormOutcome::Empty => BudgetOutcome::Invalid,
        }
    }
}

/// Normalize an archive-relative directory prefix: trailing separators
/// stripped, no `..`, not empty.
pub fn normalize_budget_prefix(path: &str) -> (r: Result<String>)
    ensures
        match budget_prefix_spec(path@) {
            BudgetOutcome::Budget(n, _) => r matches Ok(v) && v@ == n,
            BudgetOutcome::Message => r matches Err(e) && e is Message,
            BudgetOutcome::Traversal => r matches Err(e) && e is PathTraversal,
            BudgetOutcome::Invalid => r matches Err(e) && e is InvalidMemberName,
        },
{
    let raw = chars_of(path);
    let t = trim_chars(&raw);
    let mut n: usize = t.len();
    assert(t@.take(t.len() as int) == t@);
    while n > 0 && (t[n - 1] == '/' || t[n - 1] == '\\')
        invariant
            n <= t.len(),
            trim_trailing_seps(t@.take(n as int)) == trim_trailing_seps(t@),
        decreases n,
    {
        assert(t@.take(n as int).drop_last() == t@.take(n - 1));
        n = n - 1;
    }
    let trimmed = crate::text::slice_of(&t, 0, n);
    assert(trimmed@ == trim_trailing_seps(t@));
    if n == 0 {
        return Err(Error::Message(string_from("invalid directory prefix: empty after stripping trailing slash")));
    }
    let text = string_of(&trimmed);
    normalize_archive_str(text.as_str())
}

/// Outcome of [`parse_dir_max_size_arg`].
pub open spec fn dir_arg_spec(s: Seq<char>) -> BudgetOutcome {
    let t = trim(s);
    match split_once_spec(t, '=') {
        None => BudgetOutcome::Message,
        Some((p0, z0)) => {
            let p = trim(p0);
            let z = trim(z0);
            if p.len() == 0 || z.len() == 0 {
                BudgetOutcome::Message
            } else {
                match budget_prefix_spec(p) {
                    BudgetOutcome::Budget(n, _) => match byte_size_spec(z) {
                        Some(l) => BudgetOutcome::Budget(n, l),
                        None => BudgetOutcome::Message,
                    },
                    other => other,
                }
            }
        },
    }
}

/// Parse one `PATH=SIZE` budget argument (`PATH` archive-relative, trailing `/`
/// optional; `SIZE` as [`parse_byte_size`]).
pub fn parse_dir_max_size_arg(s: &str) -> (r: Result<DirBudget>)
    ensures
        budget_result(dir_arg_spec(s@), r),
{
    let raw = chars_of(s);
    let t = trim_chars(&raw);
    let (p0, z0) = match split_once_chars(&t, '=') {
        Some(x) => x,
        None => {
            return Err(Error::Message(string_from("invalid directory budget: expected PATH=SIZE")));
        },
    };
    let p = trim_chars(&p0);
    let z = trim_chars(&z0);
    if p.len() == 0 {
        return Err(Error::Message(string_from("invalid directory budget: empty PATH before '='")));
    }
    if z.len() == 0 {
        return Err(Error::Message(string_from("invalid directory budget: empty SIZE after '='")));
    }
    let ptext = string_of(&p);
    let ztext = string_of(&z);
    let prefix = normalize_budget_prefix(ptext.as_str())?;
    proof {
        assert(trim(p@) == p@) by {
            crate::select::rules::lemma_trim_idempotent(p0@);
        }
    }
    let limit = parse_byte_size(ztext.as_str())?;
    Ok(DirBudget { prefix, limit })
}

/// Outcome of [`parse_dir_budgets`] over the first `k` arguments.
pub open spec fn budgets_spec(args: Seq<Seq<char>>, k: int) -> Option<Seq<(Seq<char>, u64)>>
    decreases k,
{
    if k <= 0 {
        Some(Seq::empty())
    } else {
        match budgets_spec(args, k - 1) {
            None => None,
            Some(v) => match dir_arg_spec(args[k - 1]) {
                BudgetOutcome::Budget(p, l) => if exists|j: int| 0 <= j < v.len() && (#[trigger] v[j]).0 == p {
                    None
                } else {
                    Some(v.push((p, l)))
                },
                _ => None,
            },
        }
    }
}

/// Index of the first argument that is rejected (alone or as a duplicate).
pub open spec fn first_bad_budget(args: Seq<Seq<char>>, k: int) -> int
    decreases k,
{
    if k <= 0 {
        0
    } else if budgets_spec(args, k - 1) is None {
        first_bad_budget(args, k - 1)
    } else {
        k - 1
    }
}

pub open spec fn str_views(v: Seq<String>) -> Seq<Seq<char>> {
    v.map_values(|s: String| s@)
}

pub open spec fn budget_views(v: Seq<DirBudget>) -> Seq<(Seq<char>, u64)> {
    v.map_values(|b: DirBudget| b@)
}

/// Parse many budget arguments; a repeated directory is an error.
pub fn parse_dir_budgets(args: &[String]) -> (r: Result<Vec<DirBudget>>)
    ensures
        match budgets_spec(str_views(args@), args.len() as int) {
            Some(v) => r matches Ok(b) && budget_views(b@) == v,
            None => r matches Err(e) && {
                let k = first_bad_budget(str_views(args@), args.len() as int);
                match dir_arg_spec(args@[k]@) {
                    BudgetOutcome::Budget(_, _) => e is Message,
                    BudgetOutcome::Message => e is Message,
                    BudgetOutcome::Traversal => e is PathTraversal,
                    BudgetOutcome::Invalid => e is InvalidMemberName,
                }
            },
        },
{
    let mut out: Vec<DirBudget> = Vec::new();
    let mut i: usize = 0;
    let ghost a = str_views(args@);
    while i < args.len()
        invariant
            i <= args.len(),
            a == str_views(args@),
            budgets_spec(a, i as int) == Some(budget_views(out@)),
            forall|k: int| 0 <= k <= i ==> #[trigger] budgets_spec(a, k) is Some,
        decreases args.len() - i,
    {
        assert(a[i as int] == args@[i as int]@);
        let b = match parse_dir_max_size_arg(args[i].as_str()) {
            Ok(b) => b,
            Err(e) => {
                proof {
                    assert(first_bad_budget(a, args.len() as int) == i) by {
                        lemma_first_bad(a, i as int, args.len() as int);
                    }
                    lemma_budgets_none_after(a, i + 1, args.len() as int);
                }
                return Err(e);
            },
        };
        let bp = chars_of(b.prefix.as_str());
        let mut j: usize = 0;
        while j < out.len()
            invariant
                j <= out.len(),
                i < args.len(),
                a == str_views(args@),
                a[i as int] == args@[i as int]@,
                budgets_spec(a, i as int) == Some(budget_views(out@)),
                budget_result(dir_arg_spec(a[i as int]), Ok::<DirBudget, Error>(b)),
                forall|k: int| 0 <= k <= i ==> #[trigger] budgets_spec(a, k) is Some,
                bp@ == b.prefix@,
                forall|q: int| 0 <= q < j ==> (#[trigger] budget_views(out@)[q]).0 != b.prefix@,
            decreases out.len() - j,
        {
            let op = chars_of(out[j].prefix.as_str());
            if eq_chars(&op, &bp) {
                proof {
                    assert(budget_views(out@)[j as int].0 == b.prefix@);
                    assert(budgets_spec(a, i + 1) is None);
                    assert(first_bad_budget(a, args.len() as int) == i) by {
                        lemma_first_bad(a, i as int, args.len() as int);
                    }
                    lemma_budgets_none_after(a, i + 1, args.len() as int);
                }
                return Err(Error::Message(string_from("duplicate directory budget")));
            }
            j = j + 1;
        }
        let ghost ov = out@;
        out.push(b);
        proof {
            assert(budget_views(out@) =~= budget_views(ov).push(b@));
            assert(budgets_spec(a, i + 1) == Some(budget_views(out@)));
        }
        i = i + 1;
    }
    Ok(out)
}

proof fn lemma_budgets_none_after(a: Seq<Seq<char>>, k: int, n: int)
    requires
        0 <= k <= n,
        budgets_spec(a, k) is None,
    ensures
        budgets_spec(a, n) is None,
    decreases n - k,
{
    if k < n {
        lemma_budgets_none_after(a, k + 1, n);
    }
}

proof fn lemma_first_bad(a: Seq<Seq<char>>, i: int, n: int)
    requires
        0 <= i < n,
        budgets_spec(a, i) is Some,
        budgets_spec(a, i + 1) is None,
    ensures
        first_bad_budget(a, n) == i,
    decreases n - i,
{
    if n > i + 1 {
        lemma_budgets_none_after(a, i + 1, n - 1);
        lemma_first_bad(a, i, n - 1);
    }
}

/// `name` lies strictly under directory `prefix` (`prefix/…`), not equal to it.
pub open spec fn under_dir(name: Seq<char>, prefix: Seq<char>) -> bool {
    name.len() > prefix.len() && starts_with(name, prefix) && name[prefix.len() as int] == '/'
}

/// Whether `archive_name` is a file under directory prefix `prefix`
/// (recursive children `prefix/…` only).
pub fn is_under_budget_dir(archive_name: &str, prefix: &str) -> (b: bool)
    ensures
        b == under_dir(archive_name@, prefix@),
{
    let n = chars_of(archive_name);
    let p = chars_of(prefix);
    n.len() > p.len() && n[p.len()] == '/' && has_prefix(&n, &p)
}

/// Index of the budget with the longest matching prefix among the first `k`
/// (the earliest on ties).
pub open spec fn best_budget(name: Seq<char>, bs: Seq<DirBudget>, k: int) -> Option<int>
    decreases k,
{
    if k <= 0 {
        None
    } else {
        let b = best_budget(name, bs, k - 1);
        let p = bs[k - 1].prefix@;
        if under_dir(name, p) && (match b {
            None => true,
            Some(j) => p.len() > bs[j].prefix@.len(),
        }) {
            Some(k - 1)
        } else {
            b
        }
    }
}

/// `groups[k]` holds the group of entry `k`.
pub open spec fn group_ok(groups: Seq<Option<usize>>, es: Seq<SelectedEntry>, bs: Seq<DirBudget>, k: int) -> bool {
    match group_of(es, bs, k) {
        Some(h) => groups[k] matches Some(x) && x == h && h < bs.len(),
        None => groups[k] is None,
    }
}

/// Index of the budget with the longest matching prefix, if any.
fn longest_budget_index(archive_name: &str, budgets: &[DirBudget]) -> (r: Option<usize>)
    ensures
        match best_budget(archive_name@, budgets@, budgets.len() as int) {
            Some(j) => r == Some(j as usize),
            None => r is None,
        },
{
    let mut best: Option<usize> = None;
    let mut best_len: usize = 0;
    let mut i: usize = 0;
    while i < budgets.len()
        invariant
            i <= budgets.len(),
            match best_budget(archive_name@, budgets@, i as int) {
                Some(j) => best == Some(j as usize) && best_len == budgets@[j].prefix@.len() && j < i,
                None => best is None,
            },
        decreases budgets.len() - i,
    {
        if is_under_budget_dir(archive_name, budgets[i].prefix.as_str()) {
            let len = chars_of(budgets[i].prefix.as_str()).len();
            let better = match best {
                None => true,
                Some(_) => len > best_len,
            };
            if better {
                best = Some(i);
                best_len = len;
            }
        }
        i = i + 1;
    }
    best
}

/// The group of each entry: the index of its budget, if any.
pub open spec fn group_of(es: Seq<SelectedEntry>, bs: Seq<DirBudget>, i: int) -> Option<int> {
    best_budget(es[i].archive_name@, bs, bs.len() as int)
}

/// Indices of the first `n` entries in group `g`, ascending.
pub open spec fn members(es: Seq<SelectedEntry>, bs: Seq<DirBudget>, g: int, n: int) -> Seq<usize>
    decreases n,
{
    if n <= 0 {
        Seq::empty()
    } else if group_of(es, bs, n - 1) == Some(g) {
        members(es, bs, g, n - 1).push((n - 1) as usize)
    } else {
        members(es, bs, g, n - 1)
    }
}

/// Whether the budgets keep entry `i`: ungrouped entries always, grouped ones
/// by the newest-first fill of their group.
pub open spec fn budget_keeps(es: Seq<SelectedEntry>, bs: Seq<DirBudget>, i: int) -> bool {
    match group_of(es, bs, i) {
        None => true,
        Some(g) => {
            let o = rank_order(es, members(es, bs, g, es.len() as int));
            fill_keeps(es, o, bs[g].limit, pos_in(o, i))
        },
    }
}

pub open spec fn budget_keep(es: Seq<SelectedEntry>, bs: Seq<DirBudget>) -> Seq<bool> {
    Seq::new(es.len(), |i: int| budget_keeps(es, bs, i))
}

fn group_members(groups: &Vec<Option<usize>>, g: usize) -> (c: Vec<usize>)
    ensures
        forall|a: int| 0 <= a < c.len() ==> c@[a] < groups.len() && groups@[c@[a] as int] == Some(g),
        forall|a: int, b: int| 0 <= a < b < c.len() ==> c@[a] < c@[b],
        forall|i: int| 0 <= i < groups.len() && groups@[i] == Some(g) ==> c@.contains(i as usize),
{
    let mut c: Vec<usize> = Vec::new();
    let mut i: usize = 0;
    while i < groups.len()
        invariant
            i <= groups.len(),
            forall|a: int| 0 <= a < c.len() ==> c@[a] < i && groups@[c@[a] as int] == Some(g),
            forall|a: int, b: int| 0 <= a < b < c.len() ==> c@[a] < c@[b],
            forall|k: int| 0 <= k < i && groups@[k] == Some(g) ==> c@.contains(k as usize),
        decreases groups.len() - i,
    {
        let is_g = match groups[i] {
            Some(h) => h == g,
            None => false,
        };
        if is_g {
            let ghost c0 = c@;
            c.push(i);
            proof {
                assert forall|k: int| 0 <= k < i + 1 && groups@[k] == Some(g) implies c@.contains(k as usize) by {
                    if k < i {
                        assert(c0.contains(k as usize));
                        let a = choose|a: int| 0 <= a < c0.len() && c0[a] == k as usize;
                        assert(c@[a] == k as usize);
                    } else {
                        assert(c@[c0.len() as int] == k as usize);
                    }
                }
            }
        }
        i = i + 1;
    }
    c
}

proof fn lemma_members_match(es: Seq<SelectedEntry>, bs: Seq<DirBudget>, g: int, c: Seq<usize>, n: int)
    requires
        0 <= n <= es.len(),
        es.len() <= usize::MAX,
        forall|a: int| 0 <= a < c.len() ==> c[a] < n && group_of(es, bs, c[a] as int) == Some(g),
        forall|a: int, b: int| 0 <= a < b < c.len() ==> c[a] < c[b],
        forall|i: int| 0 <= i < n && group_of(es, bs, i) == Some(g) ==> c.contains(i as usize),
    ensures
        c == members(es, bs, g, n),
    decreases n,
{
    if n > 0 {
        if group_of(es, bs, n - 1) == Some(g) {
            assert(c.contains((n - 1) as usize));
            let a = choose|a: int| 0 <= a < c.len() && c[a] == (n - 1) as usize;
            if a < c.len() - 1 {
                assert(c[a] < c[c.len() - 1]);
            }
            let c0 = c.drop_last();
            assert forall|q: int| 0 <= q < c0.len() implies c0[q] < n - 1 by {
                assert(c[q] < c[c.len() - 1]);
            }
            assert forall|i: int| 0 <= i < n - 1 && group_of(es, bs, i) == Some(g) implies c0.contains(i as usize) by {
                assert(c.contains(i as usize));
                let b = choose|b: int| 0 <= b < c.len() && c[b] == i as usize;
                assert(b != c.len() - 1);
                assert(c0[b] == i as usize);
            }
            lemma_members_match(es, bs, g, c0, n - 1);
            assert(c == c0.push((n - 1) as usize));
        } else {
            assert forall|a: int| 0 <= a < c.len() implies c[a] < n - 1 by {
                assert(c[a] != n - 1);
            }
            lemma_members_match(es, bs, g, c, n - 1);
        }
    } else if c.len() > 0 {
        assert(c[0] < n);
    }
}

/// Positions of a ranking: each candidate sits at its `pos_in`, indices are distinct.
proof fn lemma_ranked_positions(es: Seq<SelectedEntry>, cand: Seq<usize>, o: Seq<usize>)
    requires
        es.len() <= usize::MAX,
        distinct_below(cand, es.len() as int),
        is_ranking(es, cand, o),
    ensures
        forall|i: int| #![trigger pos_in(o, i)] 0 <= i < es.len() && cand.contains(i as usize) ==> 0 <= pos_in(o, i) < o.len() && o[pos_in(o, i)] == i,
        forall|a: int| 0 <= a < o.len() ==> #[trigger] o[a] < es.len(),
        forall|a: int, b: int| 0 <= a < b < o.len() ==> o[a] != o[b],
{
    assert forall|a: int, b: int| 0 <= a < b < o.len() implies o[a] != o[b] by {
        lemma_rank_order_laws(es, o[a] as int, o[a] as int, o[a] as int);
    }
    assert forall|a: int| 0 <= a < o.len() implies #[trigger] o[a] < es.len() by {
        assert(o.contains(o[a]));
        assert(cand.contains(o[a]));
    }
    assert forall|i: int| #![trigger pos_in(o, i)] 0 <= i < es.len() && cand.contains(i as usize) implies 0 <= pos_in(o, i) < o.len() && o[pos_in(o, i)] == i by {
        assert(o.contains(i as usize));
        let k = choose|k: int| 0 <= k < o.len() && o[k] == i as usize;
        assert(cand.contains(i as usize));
        let j = choose|j: int| 0 <= j < cand.len() && cand[j] == i as usize;
        assert(cand[j] < es.len());
        assert(o[k] == i);
    }
}

/// Apply directory size budgets: entries under no budgeted directory pass;
/// per budget, newest first (name ascending on ties), an entry is kept while
/// `sum + size <= limit`. Keeps the relative order of kept entries.
#[verifier::spinoff_prover]
pub fn apply_dir_budgets(
    entries: Vec<SelectedEntry>,
    budgets: &[DirBudget],
    disk_mtimes: &mut Vec<u64>,
    stats: &mut SelectionStats,
) -> (r: Result<Vec<SelectedEntry>>)
    requires
        old(disk_mtimes).len() == entries.len(),
        old(stats).skipped_dir_budget + entries.len() <= u64::MAX,
    ensures
        r matches Ok(out) && {
            let keep = budget_keep(with_times(entries@, old(disk_mtimes)@), budgets@);
            &&& out@ == select_by(entries@, keep)
            &&& final(disk_mtimes)@ == select_by(old(disk_mtimes)@, keep)
            &&& *final(stats) == (SelectionStats {
                selected: out@.len() as u64,
                skipped_dir_budget: (old(stats).skipped_dir_budget + count_false(keep, entries@.len() as int)) as u64,
                ..*old(stats)
            })
        },
{
    let ghost orig = entries@;
    let keyed = retimed(entries.as_slice(), disk_mtimes.as_slice());
    let ghost es = keyed@;
    let ghost bs = budgets@;
    let n = entries.len();
    let mut groups: Vec<Option<usize>> = Vec::new();
    let mut keep: Vec<bool> = Vec::new();
    let mut i: usize = 0;
    while i < n
        invariant
            i <= n,
            n == es.len(),
            keyed@ == es,
            budgets@ == bs,
            groups.len() == i,
            keep.len() == i,
            forall|k: int| 0 <= k < i ==> #[trigger] group_ok(groups@, es, bs, k),
            forall|k: int| 0 <= k < i ==> keep@[k] == (groups@[k] is None),
        decreases n - i,
    {
        let g = longest_budget_index(keyed[i].archive_name.as_str(), budgets);
        proof {
            lemma_best_below(es[i as int].archive_name@, bs, bs.len() as int);
        }
        keep.push(g.is_none());
        let ghost gp = groups@;
        groups.push(g);
        proof {
            assert forall|k: int| 0 <= k < i + 1 implies #[trigger] group_ok(groups@, es, bs, k) by {
                if k < i {
                    assert(group_ok(gp, es, bs, k));
                }
            }
        }
        i = i + 1;
    }
    proof {
        assert forall|k: int| 0 <= k < n implies keep@[k] == match #[trigger] group_of(es, bs, k) {
            None => true,
            Some(h) => if h < 0 { budget_keeps(es, bs, k) } else { false },
        } by {
            assert(group_ok(groups@, es, bs, k));
        }
    }
    let mut g: usize = 0;
    while g < budgets.len()
        invariant
            g <= budgets.len(),
            n == es.len(),
            keyed@ == es,
            budgets@ == bs,
            groups.len() == n,
            keep.len() == n,
            forall|k: int| 0 <= k < n ==> #[trigger] group_ok(groups@, es, bs, k),
            forall|k: int| 0 <= k < n ==> keep@[k] == match #[trigger] group_of(es, bs, k) {
                None => true,
                Some(h) => if h < g { budget_keeps(es, bs, k) } else { false },
            },
        decreases budgets.len() - g,
    {
        let cand = group_members(&groups, g);
        proof {
            assert forall|a: int| 0 <= a < cand.len() implies cand@[a] < n && group_of(es, bs, cand@[a] as int) == Some(g as int) by {
                let k = cand@[a] as int;
                assert(groups@[k] == Some(g));
                assert(group_ok(groups@, es, bs, k));
            }
            assert forall|k: int| 0 <= k < n && group_of(es, bs, k) == Some(g as int) implies cand@.contains(k as usize) by {
                assert(group_ok(groups@, es, bs, k));
                assert(groups@[k] == Some(g));
            }
            lemma_members_match(es, bs, g as int, cand@, n as int);
            assert forall|a: int, b: int| 0 <= a < b < cand.len() implies cand@[a] != cand@[b] by {
                assert(cand@[a] < cand@[b]);
            }
        }
        let order = rank_indices(keyed.as_slice(), &cand);
        proof {
            lemma_ranked_positions(es, cand@, order@);
        }
        let ghost kp = keep@;
        let es_slice = keyed.as_slice();
        assert(es_slice@ == es);
        let _ = fill_ranked(es_slice, &order, budgets[g].limit, &mut keep);
        proof {
            assert(forall|i: int| 0 <= i < n && #[trigger] untouched(order@, order@.len() as int, i) ==> keep@[i] == kp[i]);
            assert forall|k: int| 0 <= k < n implies keep@[k] == match #[trigger] group_of(es, bs, k) {
                None => true,
                Some(h) => if h < g + 1 { budget_keeps(es, bs, k) } else { false },
            } by {
                assert(group_ok(groups@, es, bs, k));
                if group_of(es, bs, k) == Some(g as int) {
                    assert(groups@[k] == Some(g));
                    assert(cand@.contains(k as usize));
                    let t = pos_in(order@, k);
                    assert(order@[t] == k);
                    assert(cand@ == members(es, bs, g as int, es.len() as int));
                    assert(order@ == rank_order(es, members(es, bs, g as int, es.len() as int)));
                    assert(bs[g as int].limit == budgets[g as int].limit);
                    assert(keep@[order@[t] as int] == fill_keeps(es, order@, bs[g as int].limit, t));
                    assert(keep@[k] == budget_keeps(es, bs, k));
                } else {
                    assert(untouched(order@, order@.len() as int, k)) by {
                        assert forall|a: int| 0 <= a < order@.len() implies order@[a] != k as usize by {
                            if order@[a] == k as usize {
                                assert(order@.contains(k as usize));
                                assert(cand@.contains(k as usize));
                                let j = choose|j: int| 0 <= j < cand.len() && cand@[j] == k as usize;
                            }
                        }
                    }
                    assert(keep@[k] == kp[k]);
                }
            }
        }
        g = g + 1;
    }
    proof {
        assert forall|k: int| 0 <= k < n implies keep@[k] == budget_keep(es, bs)[k] by {
            assert(group_ok(groups@, es, bs, k));
        }
        assert(keep@ =~= budget_keep(es, bs));
    }
    let (out, dropped) = take_flagged(entries, &keep);
    take_flagged_times(disk_mtimes, &keep);
    stats.skipped_dir_budget = stats.skipped_dir_budget + dropped;
    stats.selected = out.len() as u64;
    Ok(out)
}

proof fn lemma_best_below(name: Seq<char>, bs: Seq<DirBudget>, k: int)
    requires
        0 <= k <= bs.len(),
    ensures
        best_budget(name, bs, k) matches Some(j) ==> 0 <= j < k,
    decreases k,
{
    if k > 0 {
        lemma_best_below(name, bs, k - 1);
    }
}

/// Which entries are kept and fall under budget `g`.
pub open spec fn group_keep(es: Seq<SelectedEntry>, bs: Seq<DirBudget>, g: int) -> Seq<bool> {
    Seq::new(es.len(), |i: int| budget_keeps(es, bs, i) && group_of(es, bs, i) == Some(g))
}

proof fn lemma_members_props(es: Seq<SelectedEntry>, bs: Seq<DirBudget>, g: int, m: int)
    requires
        0 <= m <= es.len(),
        es.len() <= usize::MAX,
    ensures
        forall|a: int| 0 <= a < members(es, bs, g, m).len() ==> #[trigger] members(es, bs, g, m)[a] < m
            && group_of(es, bs, members(es, bs, g, m)[a] as int) == Some(g),
        forall|a: int, b: int| 0 <= a < b < members(es, bs, g, m).len() ==> members(es, bs, g, m)[a] < members(es, bs, g, m)[b],
        forall|i: int| 0 <= i < m && group_of(es, bs, i) == Some(g) ==> members(es, bs, g, m).contains(i as usize),
    decreases m,
{
    if m > 0 {
        lemma_members_props(es, bs, g, m - 1);
        let c0 = members(es, bs, g, m - 1);
        if group_of(es, bs, m - 1) == Some(g) {
            let c = c0.push((m - 1) as usize);
            assert(members(es, bs, g, m) == c);
            assert forall|i: int| 0 <= i < m && group_of(es, bs, i) == Some(g) implies c.contains(i as usize) by {
                if i < m - 1 {
                    assert(c0.contains(i as usize));
                    let a = choose|a: int| 0 <= a < c0.len() && c0[a] == i as usize;
                    assert(c[a] == i as usize);
                } else {
                    assert(c[c0.len() as int] == i as usize);
                }
            }
        }
    }
}

/// Outside group `g` the weight is zero, so summing over all indices or over
/// the members of `g` gives the same.
proof fn lemma_members_weight(es: Seq<SelectedEntry>, bs: Seq<DirBudget>, g: int, m: int)
    requires
        0 <= m <= es.len(),
        es.len() <= usize::MAX,
    ensures
        wsum(index_seq(m), keep_weight(es, group_keep(es, bs, g), entry_size()))
            == wsum(members(es, bs, g, m), keep_weight(es, group_keep(es, bs, g), entry_size())),
    decreases m,
{
    if m > 0 {
        let w = keep_weight(es, group_keep(es, bs, g), entry_size());
        lemma_members_weight(es, bs, g, m - 1);
        assert(index_seq(m) == index_seq(m - 1).push((m - 1) as usize));
        lemma_wsum_push(index_seq(m - 1), w, (m - 1) as usize);
        if group_of(es, bs, m - 1) == Some(g) {
            lemma_wsum_push(members(es, bs, g, m - 1), w, (m - 1) as usize);
        } else {
            assert(w(m - 1) == 0);
        }
    } else {
        assert(index_seq(0) == Seq::<usize>::empty());
    }
}

/// Law: under each directory budget (files ranked by the times `mt`), the
/// kept files have sizes that sum,
/// saturated at `u64::MAX` as the fill's running sum is, to at most the
/// budget's limit; for a limit below `u64::MAX` the exact sum is at most it.
pub proof fn lemma_dir_budget_within_limit(es: Seq<SelectedEntry>, mt: Seq<u64>, bs: Seq<DirBudget>, g: int)
    requires
        es.len() <= usize::MAX,
        0 <= g < bs.len(),
    ensures
        sat(total_size(select_by(es, group_keep(with_times(es, mt), bs, g)))) <= bs[g].limit,
        bs[g].limit < u64::MAX ==> total_size(select_by(es, group_keep(with_times(es, mt), bs, g))) <= bs[g].limit,
{
    let ks = with_times(es, mt);
    lemma_dir_budget_ranked_within_limit(ks, bs, g);
    crate::select::report::lemma_select_by_retimed(es, mt, group_keep(ks, bs, g));
}

proof fn lemma_dir_budget_ranked_within_limit(es: Seq<SelectedEntry>, bs: Seq<DirBudget>, g: int)
    requires
        es.len() <= usize::MAX,
        0 <= g < bs.len(),
    ensures
        sat(total_size(select_by(es, group_keep(es, bs, g)))) <= bs[g].limit,
        bs[g].limit < u64::MAX ==> total_size(select_by(es, group_keep(es, bs, g))) <= bs[g].limit,
{
    let n = es.len() as int;
    let limit = bs[g].limit;
    let keep = group_keep(es, bs, g);
    let w = keep_weight(es, keep, entry_size());
    lemma_select_by_weight(es, keep, entry_size(), n);
    assert(es.take(n) == es);
    lemma_members_weight(es, bs, g, n);
    lemma_members_props(es, bs, g, n);
    let mem = members(es, bs, g, n);
    assert(distinct_below(mem, n)) by {
        assert forall|a: int, b: int| 0 <= a < b < mem.len() implies mem[a] != mem[b] by {
            assert(mem[a] < mem[b]);
        }
        assert forall|a: int| 0 <= a < mem.len() implies mem[a] < n by {
            assert(mem[a] < n);
        }
    }
    lemma_ranking_exists(es, mem);
    let o = rank_order(es, mem);
    lemma_ranked_positions(es, mem, o);
    assert(mem.no_duplicates());
    assert(o.no_duplicates());
    lemma_wsum_perm(mem, o, w);
    assert forall|k: int| 0 <= k < o.len() implies #[trigger] w(o[k] as int) == (if fill_keeps(es, o, limit, k) {
        es[o[k] as int].size as int
    } else {
        0int
    }) by {
        let i = o[k] as int;
        assert(o.contains(o[k]));
        assert(mem.contains(o[k]));
        let a = choose|a: int| 0 <= a < mem.len() && mem[a] == o[k];
        assert(mem[a] < n && group_of(es, bs, mem[a] as int) == Some(g));
        assert(i < n);
        let p = pos_in(o, i);
        assert(0 <= p < o.len() && o[p] == i);
        if p != k {
            if p < k {
                assert(o[p] != o[k]);
            } else {
                assert(o[k] != o[p]);
            }
        }
        assert(keep[i] == budget_keeps(es, bs, i));
    }
    lemma_fill_sum_weight(es, o, limit, w, o.len() as int);
    assert(o.take(o.len() as int) == o);
    lemma_fill_sum_le(es, o, limit);
}

} // verus!
