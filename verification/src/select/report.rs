//! Restriction outcomes and the newest-first greedy fill shared by the
//! directory budgets and the global caps.

use crate::select::rank::{is_ranking, rank_order};
use crate::select::walk::{with_times, SelectedEntry};
use crate::text::string_from;
use vstd::prelude::*;

verus! {

/// A file named in a restriction report.
#[derive(Debug, Clone, PartialEq, Eq)]
pub struct RestrictionFile {
    pub archive_name: String,
    pub size: u64,
}

impl View for RestrictionFile {
    type V = (Seq<char>, u64);

    open spec fn view(&self) -> (Seq<char>, u64) {
        (self.archive_name@, self.size)
    }
}

/// Views of a list of report files.
pub open spec fn rviews(v: Seq<RestrictionFile>) -> Seq<(Seq<char>, u64)> {
    v.map_values(|f: RestrictionFile| f@)
}

/// The report view of an entry.
pub open spec fn rview(e: SelectedEntry) -> (Seq<char>, u64) {
    (e.archive_name@, e.size)
}

/// Outcome of the global total-size cap.
#[derive(Debug, Clone, PartialEq, Eq)]
pub struct GlobalSizeCapOutcome {
    pub limit: u64,
    /// Kept files, in rank order.
    pub kept: Vec<RestrictionFile>,
    /// Skipped files, in rank order.
    pub skipped: Vec<RestrictionFile>,
}

/// Outcome of the global file-count cap.
#[derive(Debug, Clone, PartialEq, Eq)]
pub struct GlobalCountCapOutcome {
    pub max_count: u64,
    /// Kept files, in rank order.
    pub kept: Vec<RestrictionFile>,
    /// Skipped files, in rank order.
    pub skipped: Vec<RestrictionFile>,
}

/// Files dropped by the restriction passes, for the summary printed after selection.
#[derive(Debug, Clone, PartialEq, Eq)]
pub struct RestrictionReport {
    pub skipped_max_size: Vec<RestrictionFile>,
    pub skipped_min_size: Vec<RestrictionFile>,
    pub skipped_older_than: Vec<RestrictionFile>,
    pub skipped_file_size_from: Vec<RestrictionFile>,
    pub max_total_size: Option<GlobalSizeCapOutcome>,
    pub max_files: Option<GlobalCountCapOutcome>,
}

impl Default for RestrictionReport {
    fn default() -> (r: Self)
        ensures
            r.skipped_max_size@.len() == 0,
            r.skipped_min_size@.len() == 0,
            r.skipped_older_than@.len() == 0,
            r.skipped_file_size_from@.len() == 0,
            r.max_total_size is None,
            r.max_files is None,
    {
        RestrictionReport {
            skipped_max_size: Vec::new(),
            skipped_min_size: Vec::new(),
            skipped_older_than: Vec::new(),
            skipped_file_size_from: Vec::new(),
            max_total_size: None,
            max_files: None,
        }
    }
}

/// The report entry for a selected entry.
pub fn as_restriction(e: &SelectedEntry) -> (r: RestrictionFile)
    ensures
        r@ == rview(*e),
{
    RestrictionFile { archive_name: string_from(e.archive_name.as_str()), size: e.size }
}

/// `x` saturated at `u64::MAX`.
pub open spec fn sat(x: int) -> int {
    if x > u64::MAX {
        u64::MAX as int
    } else {
        x
    }
}

/// Running sum after the greedy fill over `o`: each entry is kept while the
/// saturating sum with its size stays within `limit`.
pub open spec fn fill_sum(es: Seq<SelectedEntry>, o: Seq<usize>, limit: u64) -> int
    decreases o.len(),
{
    if o.len() == 0 {
        0
    } else {
        let s = fill_sum(es, o.drop_last(), limit);
        let n = sat(s + es[o.last() as int].size);
        if n <= limit {
            n
        } else {
            s
        }
    }
}

/// Whether the fill keeps the `k`-th entry of `o`.
pub open spec fn fill_keeps(es: Seq<SelectedEntry>, o: Seq<usize>, limit: u64, k: int) -> bool {
    sat(fill_sum(es, o.take(k), limit) + es[o[k] as int].size) <= limit
}

/// Report lists of the fill over `o`: kept and skipped, in rank order.
pub open spec fn fill_lists(es: Seq<SelectedEntry>, o: Seq<usize>, limit: u64) -> (
    Seq<(Seq<char>, u64)>,
    Seq<(Seq<char>, u64)>,
)
    decreases o.len(),
{
    if o.len() == 0 {
        (Seq::empty(), Seq::empty())
    } else {
        let (k, s) = fill_lists(es, o.drop_last(), limit);
        let e = rview(es[o.last() as int]);
        if fill_keeps(es, o, limit, o.len() - 1) {
            (k.push(e), s)
        } else {
            (k, s.push(e))
        }
    }
}

/// Position of index `i` in `o` (meaningful when `o` holds `i` once).
pub open spec fn pos_in(o: Seq<usize>, i: int) -> int {
    choose|k: int| 0 <= k < o.len() && o[k] == i
}

/// Entries whose `keep` flag is set, in their order.
pub open spec fn select_by<T>(es: Seq<T>, keep: Seq<bool>) -> Seq<T>
    decreases es.len(),
{
    if es.len() == 0 {
        Seq::empty()
    } else {
        let r = select_by(es.drop_last(), keep);
        if keep[es.len() - 1] {
            r.push(es.last())
        } else {
            r
        }
    }
}

/// Number of unset flags among the first `n`.
pub open spec fn count_false(keep: Seq<bool>, n: int) -> nat
    decreases n,
{
    if n <= 0 {
        0
    } else if keep[n - 1] {
        count_false(keep, n - 1)
    } else {
        count_false(keep, n - 1) + 1
    }
}

proof fn lemma_count_false_le(keep: Seq<bool>, n: int)
    requires
        n >= 0,
    ensures
        count_false(keep, n) <= n,
    decreases n,
{
    if n > 0 {
        lemma_count_false_le(keep, n - 1);
    }
}

/// Keeps the flagged entries, in order, and counts the dropped ones.
pub fn take_flagged(es: Vec<SelectedEntry>, keep: &Vec<bool>) -> (r: (Vec<SelectedEntry>, u64))
    requires
        keep.len() == es.len(),
    ensures
        r.0@ == select_by(es@, keep@),
        r.1 == count_false(keep@, es.len() as int),
        r.0.len() + r.1 == es.len(),
{
    let ghost es0 = es@;
    let n = es.len();
    let mut out: Vec<SelectedEntry> = Vec::new();
    let mut dropped: u64 = 0;
    let mut i: usize = 0;
    for e in it: es
        invariant
            n == es0.len(),
            keep.len() == n,
            it.seq() == es0,
            i == it.index(),
            i <= n,
            out@ == select_by(es0.take(i as int), keep@),
            dropped == count_false(keep@, i as int),
            out.len() + dropped == i,
    {
        proof {
            assert(es0.take(i + 1).drop_last() == es0.take(i as int));
            assert(es0.take(i + 1).last() == es0[i as int]);
            lemma_count_false_le(keep@, i as int);
        }
        if keep[i] {
            out.push(e);
        } else {
            dropped = dropped + 1;
        }
        i = i + 1;
    }
    assert(es0.take(n as int) == es0);
    (out, dropped)
}

/// No position before `t` of `o` holds `x`.
pub open spec fn untouched(o: Seq<usize>, t: int, x: int) -> bool {
    forall|a: int| 0 <= a < t ==> o[a] != x as usize
}

/// One step of the fill over a prefix of `o`.
proof fn lemma_fill_step(es: Seq<SelectedEntry>, o: Seq<usize>, limit: u64, t: int)
    requires
        0 <= t < o.len(),
    ensures
        fill_sum(es, o.take(t + 1), limit) == (if fill_keeps(es, o, limit, t) {
            sat(fill_sum(es, o.take(t), limit) + es[o[t] as int].size)
        } else {
            fill_sum(es, o.take(t), limit)
        }),
        fill_lists(es, o.take(t + 1), limit) == (if fill_keeps(es, o, limit, t) {
            (fill_lists(es, o.take(t), limit).0.push(rview(es[o[t] as int])), fill_lists(es, o.take(t), limit).1)
        } else {
            (fill_lists(es, o.take(t), limit).0, fill_lists(es, o.take(t), limit).1.push(rview(es[o[t] as int])))
        }),
{
    let ot1 = o.take(t + 1);
    assert(ot1.drop_last() == o.take(t));
    assert(ot1.last() == o[t]);
    assert(ot1.take(t) == o.take(t));
    assert(ot1[t] == o[t]);
    assert(fill_keeps(es, ot1, limit, t) == fill_keeps(es, o, limit, t));
}

/// Greedy newest-first fill over the ranking `o`: sets `keep[o[t]]` for each
/// position `t` and returns the kept and skipped report lists.
pub fn fill_ranked(es: &[SelectedEntry], o: &Vec<usize>, limit: u64, keep: &mut Vec<bool>) -> (r: (
    Vec<RestrictionFile>,
    Vec<RestrictionFile>,
))
    requires
        old(keep).len() == es.len(),
        forall|a: int| 0 <= a < o.len() ==> o@[a] < es.len(),
        forall|a: int, b: int| 0 <= a < b < o.len() ==> o@[a] != o@[b],
    ensures
        final(keep).len() == es.len(),
        forall|t: int| 0 <= t < o.len() ==> final(keep)@[#[trigger] o@[t] as int] == fill_keeps(es@, o@, limit, t),
        forall|i: int| 0 <= i < es.len() && #[trigger] untouched(o@, o.len() as int, i) ==> final(keep)@[i] == old(keep)@[i],
        rviews(r.0@) == fill_lists(es@, o@, limit).0,
        rviews(r.1@) == fill_lists(es@, o@, limit).1,
{
    let ghost keep0 = keep@;
    let mut sum: u64 = 0;
    let mut kept: Vec<RestrictionFile> = Vec::new();
    let mut skipped: Vec<RestrictionFile> = Vec::new();
    let mut t: usize = 0;
    assert(rviews(kept@) =~= Seq::<(Seq<char>, u64)>::empty());
    assert(rviews(skipped@) =~= Seq::<(Seq<char>, u64)>::empty());
    while t < o.len()
        invariant
            t <= o.len(),
            keep.len() == es.len(),
            forall|a: int| 0 <= a < o.len() ==> o@[a] < es.len(),
            forall|a: int, b: int| 0 <= a < b < o.len() ==> o@[a] != o@[b],
            sum == fill_sum(es@, o@.take(t as int), limit),
            forall|a: int| 0 <= a < t ==> keep@[#[trigger] o@[a] as int] == fill_keeps(es@, o@, limit, a),
            forall|i: int| 0 <= i < es.len() && #[trigger] untouched(o@, t as int, i) ==> keep@[i] == keep0[i],
            rviews(kept@) == fill_lists(es@, o@.take(t as int), limit).0,
            rviews(skipped@) == fill_lists(es@, o@.take(t as int), limit).1,
        decreases o.len() - t,
    {
        let i = o[t];
        let e = &es[i];
        let next = sum.saturating_add(e.size);
        proof {
            lemma_fill_step(es@, o@, limit, t as int);
        }
        let ghost kv = kept@;
        let ghost sv = skipped@;
        let ghost kp = keep@;
        if next <= limit {
            keep.set(i, true);
            sum = next;
            let f = as_restriction(e);
            kept.push(f);
            assert(rviews(kept@) =~= rviews(kv).push(f@));
        } else {
            keep.set(i, false);
            let f = as_restriction(e);
            skipped.push(f);
            assert(rviews(skipped@) =~= rviews(sv).push(f@));
        }
        proof {
            assert forall|a: int| 0 <= a < t + 1 implies keep@[#[trigger] o@[a] as int] == fill_keeps(es@, o@, limit, a) by {
                if a < t {
                    assert(o@[a] != o@[t as int]);
                    assert(keep@[o@[a] as int] == kp[o@[a] as int]);
                }
            }
            assert forall|x: int| 0 <= x < es.len() && #[trigger] untouched(o@, t + 1, x) implies keep@[x] == keep0[x] by {
                assert(o@[t as int] != x as usize);
                assert(untouched(o@, t as int, x));
            }
        }
        t = t + 1;
    }
    assert(o@.take(o.len() as int) == o@);
    (kept, skipped)
}

/// `0, 1, …, n-1`.
pub fn all_indices(n: usize) -> (v: Vec<usize>)
    ensures
        v.len() == n,
        forall|i: int| 0 <= i < n ==> v@[i] == i,
{
    let mut v: Vec<usize> = Vec::new();
    let mut i: usize = 0;
    while i < n
        invariant
            i <= n,
            v.len() == i,
            forall|k: int| 0 <= k < i ==> v@[k] == k,
        decreases n - i,
    {
        v.push(i);
        i = i + 1;
    }
    v
}

} // verus!

verus! {

/// The indices `0, 1, …, n-1`.
pub open spec fn index_seq(n: int) -> Seq<usize> {
    Seq::new(n as nat, |i: int| i as usize)
}

/// Sum of the weights `w` of the indices listed in `o`.
pub open spec fn wsum(o: Seq<usize>, w: spec_fn(int) -> int) -> int {
    o.fold_left(0int, |acc: int, i: usize| acc + w(i as int))
}

/// Sum of `f` over a list of entries.
pub open spec fn fsum(s: Seq<SelectedEntry>, f: spec_fn(SelectedEntry) -> int) -> int
    decreases s.len(),
{
    if s.len() == 0 {
        0
    } else {
        fsum(s.drop_last(), f) + f(s.last())
    }
}

/// The size of an entry.
pub open spec fn entry_size() -> spec_fn(SelectedEntry) -> int {
    |e: SelectedEntry| e.size as int
}

/// One per entry.
pub open spec fn entry_one() -> spec_fn(SelectedEntry) -> int {
    |e: SelectedEntry| 1int
}

/// Total size of a list of entries.
pub open spec fn total_size(s: Seq<SelectedEntry>) -> int {
    fsum(s, entry_size())
}

/// Weight of index `i`: `f` of its entry where `keep` is set, else 0.
pub open spec fn keep_weight(es: Seq<SelectedEntry>, keep: Seq<bool>, f: spec_fn(SelectedEntry) -> int) -> spec_fn(int) -> int {
    |i: int| if keep[i] { f(es[i]) } else { 0int }
}

pub proof fn lemma_wsum_push(o: Seq<usize>, w: spec_fn(int) -> int, i: usize)
    ensures
        wsum(o.push(i), w) == wsum(o, w) + w(i as int),
{
    assert(o.push(i).drop_last() == o);
}

/// Two duplicate-free lists of the same indices have the same weight.
pub proof fn lemma_wsum_perm(o1: Seq<usize>, o2: Seq<usize>, w: spec_fn(int) -> int)
    requires
        o1.no_duplicates(),
        o2.no_duplicates(),
        forall|x: usize| o1.contains(x) <==> o2.contains(x),
    ensures
        wsum(o1, w) == wsum(o2, w),
{
    broadcast use vstd::seq_lib::group_to_multiset_ensures;

    o1.lemma_multiset_has_no_duplicates();
    o2.lemma_multiset_has_no_duplicates();
    assert(o1.to_multiset() =~= o2.to_multiset()) by {
        assert forall|x: usize| o1.to_multiset().count(x) == o2.to_multiset().count(x) by {
            if o1.contains(x) {
                assert(o1.to_multiset().count(x) > 0);
                assert(o2.to_multiset().count(x) > 0);
            } else {
                assert(o1.to_multiset().count(x) == 0);
                assert(o2.to_multiset().count(x) == 0);
            }
        }
    }
    let f = |acc: int, i: usize| acc + w(i as int);
    assert(vstd::seq_lib::commutative_foldl(f));
    vstd::seq_lib::lemma_fold_left_permutation(o1, o2, f, 0int);
}

/// `f` summed over the entries that `keep` selects, in input order, equals
/// the weight of all indices under [`keep_weight`].
pub proof fn lemma_select_by_weight(es: Seq<SelectedEntry>, keep: Seq<bool>, f: spec_fn(SelectedEntry) -> int, m: int)
    requires
        0 <= m <= es.len(),
        es.len() <= usize::MAX,
    ensures
        fsum(select_by(es.take(m), keep), f) == wsum(index_seq(m), keep_weight(es, keep, f)),
    decreases m,
{
    if m > 0 {
        lemma_select_by_weight(es, keep, f, m - 1);
        let t = es.take(m);
        assert(t.drop_last() == es.take(m - 1));
        assert(t.last() == es[m - 1]);
        assert(index_seq(m) == index_seq(m - 1).push((m - 1) as usize));
        lemma_wsum_push(index_seq(m - 1), keep_weight(es, keep, f), (m - 1) as usize);
        let r = select_by(es.take(m - 1), keep);
        assert(r.push(es[m - 1]).drop_last() == r);
        assert(select_by(t, keep) == (if keep[m - 1] { r.push(es[m - 1]) } else { r }));
        if keep[m - 1] {
            assert(fsum(r.push(es[m - 1]), f) == fsum(r, f) + f(es[m - 1]));
        }
        assert(keep_weight(es, keep, f)(m - 1) == (if keep[m - 1] { f(es[m - 1]) } else { 0int }));
    } else {
        assert(es.take(0).len() == 0);
    }
}

/// Counting with weight one gives the length.
pub proof fn lemma_fsum_one(s: Seq<SelectedEntry>)
    ensures
        fsum(s, entry_one()) == s.len(),
    decreases s.len(),
{
    if s.len() > 0 {
        lemma_fsum_one(s.drop_last());
    }
}

/// The fill never goes above its limit.
pub proof fn lemma_fill_sum_le(es: Seq<SelectedEntry>, o: Seq<usize>, limit: u64)
    ensures
        0 <= fill_sum(es, o, limit) <= limit,
    decreases o.len(),
{
    if o.len() > 0 {
        lemma_fill_sum_le(es, o.drop_last(), limit);
    }
}

/// Along the ranking `o`, the fill's running sum is the saturated weight of
/// the prefix when each position weighs its size if kept, 0 if skipped.
pub proof fn lemma_fill_sum_weight(es: Seq<SelectedEntry>, o: Seq<usize>, limit: u64, w: spec_fn(int) -> int, m: int)
    requires
        0 <= m <= o.len(),
        forall|k: int| 0 <= k < o.len() ==> #[trigger] w(o[k] as int) == (if fill_keeps(es, o, limit, k) {
            es[o[k] as int].size as int
        } else {
            0int
        }),
    ensures
        fill_sum(es, o.take(m), limit) == sat(wsum(o.take(m), w)),
        wsum(o.take(m), w) >= 0,
    decreases m,
{
    if m > 0 {
        lemma_fill_sum_weight(es, o, limit, w, m - 1);
        lemma_fill_step(es, o, limit, m - 1);
        assert(o.take(m) == o.take(m - 1).push(o[m - 1]));
        lemma_wsum_push(o.take(m - 1), w, o[m - 1]);
        assert(w(o[m - 1] as int) == (if fill_keeps(es, o, limit, m - 1) {
            es[o[m - 1] as int].size as int
        } else {
            0int
        }));
    } else {
        assert(o.take(0) == Seq::<usize>::empty());
    }
}

/// Every entry that `keep` selects is an input entry whose flag is set.
pub proof fn lemma_select_by_members<T>(es: Seq<T>, keep: Seq<bool>)
    ensures
        forall|k: int| 0 <= k < select_by(es, keep).len() ==> exists|i: int|
            0 <= i < es.len() && keep[i] && es[i] == #[trigger] select_by(es, keep)[k],
    decreases es.len(),
{
    if es.len() > 0 {
        let e0 = es.drop_last();
        lemma_select_by_members(e0, keep);
        let r = select_by(e0, keep);
        assert forall|k: int| 0 <= k < select_by(es, keep).len() implies exists|i: int|
            0 <= i < es.len() && keep[i] && es[i] == #[trigger] select_by(es, keep)[k] by {
            if k < r.len() {
                let i = choose|i: int| 0 <= i < e0.len() && keep[i] && e0[i] == r[k];
                assert(es[i] == select_by(es, keep)[k]);
            } else {
                assert(es[es.len() - 1] == select_by(es, keep)[k]);
            }
        }
    }
}

/// Keep the values whose flag is set, in order.
pub fn take_flagged_times(v: &mut Vec<u64>, keep: &Vec<bool>)
    requires
        old(v).len() == keep.len(),
    ensures
        final(v)@ == select_by(old(v)@, keep@),
{
    let ghost v0 = v@;
    let mut out: Vec<u64> = Vec::new();
    let mut i: usize = 0;
    while i < v.len()
        invariant
            i <= v.len(),
            v@ == v0,
            v.len() == keep.len(),
            out@ == select_by(v0.take(i as int), keep@),
        decreases v.len() - i,
    {
        assert(v0.take(i + 1).drop_last() == v0.take(i as int));
        assert(v0.take(i + 1).last() == v0[i as int]);
        if keep[i] {
            out.push(v[i]);
        }
        i = i + 1;
    }
    assert(v0.take(v0.len() as int) == v0);
    *v = out;
}

/// Replacing modification times changes neither how many entries a filter
/// keeps nor their total size.
pub proof fn lemma_select_by_retimed(es: Seq<SelectedEntry>, mt: Seq<u64>, keep: Seq<bool>)
    ensures
        select_by(with_times(es, mt), keep).len() == select_by(es, keep).len(),
        total_size(select_by(with_times(es, mt), keep)) == total_size(select_by(es, keep)),
    decreases es.len(),
{
    if es.len() > 0 {
        let ks = with_times(es, mt);
        assert(ks.drop_last() =~= with_times(es.drop_last(), mt));
        lemma_select_by_retimed(es.drop_last(), mt, keep);
        let r = select_by(es.drop_last(), keep);
        let rk = select_by(ks.drop_last(), keep);
        if keep[es.len() - 1] {
            assert(r.push(es.last()).drop_last() == r);
            assert(rk.push(ks.last()).drop_last() == rk);
        }
    }
}

/// Law: of the entries given to a filter, those it keeps and those it
/// counts as skipped add up to all of them.
pub proof fn lemma_kept_plus_skipped<T>(es: Seq<T>, keep: Seq<bool>)
    ensures
        select_by(es, keep).len() + count_false(keep, es.len() as int) == es.len(),
    decreases es.len(),
{
    if es.len() > 0 {
        lemma_kept_plus_skipped(es.drop_last(), keep);
    }
}

/// Positions among the first `n` whose `keep` flag is set, ascending.
pub open spec fn kept_positions(keep: Seq<bool>, n: int) -> Seq<int>
    decreases n,
{
    if n <= 0 {
        Seq::empty()
    } else if keep[n - 1] {
        kept_positions(keep, n - 1).push(n - 1)
    } else {
        kept_positions(keep, n - 1)
    }
}

/// Law: a filter keeps the relative order of the entries it keeps: its
/// output is the input at ascending positions, exactly those whose flag is
/// set.
pub proof fn lemma_select_by_keeps_order<T>(es: Seq<T>, keep: Seq<bool>)
    ensures
        select_by(es, keep).len() == kept_positions(keep, es.len() as int).len(),
        forall|k: int|
            0 <= k < kept_positions(keep, es.len() as int).len() ==> 0 <= #[trigger] kept_positions(keep, es.len() as int)[k]
                < es.len() && keep[kept_positions(keep, es.len() as int)[k]],
        forall|k: int|
            0 <= k < select_by(es, keep).len() ==> #[trigger] select_by(es, keep)[k] == es[kept_positions(
                keep,
                es.len() as int,
            )[k]],
        forall|a: int, b: int|
            0 <= a < b < kept_positions(keep, es.len() as int).len() ==> #[trigger] kept_positions(keep, es.len() as int)[a]
                < #[trigger] kept_positions(keep, es.len() as int)[b],
        forall|p: int| 0 <= p < es.len() && keep[p] ==> #[trigger] kept_positions(keep, es.len() as int).contains(p),
    decreases es.len(),
{
    if es.len() > 0 {
        let e0 = es.drop_last();
        let n = es.len() as int;
        lemma_select_by_keeps_order(e0, keep);
        let r = select_by(e0, keep);
        let q = kept_positions(keep, n - 1);
        assert(e0.len() as int == n - 1);
        if keep[n - 1] {
            let q1 = q.push(n - 1);
            assert(kept_positions(keep, n) == q1);
            assert(select_by(es, keep) == r.push(es[n - 1]));
            assert(kept_positions(keep, e0.len() as int) == q);
            assert forall|k: int| 0 <= k < q1.len() implies 0 <= #[trigger] q1[k] < es.len() && keep[q1[k]] by {
                if k < q.len() {
                    assert(q1[k] == q[k]);
                }
            }
            assert forall|k: int| 0 <= k < select_by(es, keep).len() implies #[trigger] select_by(es, keep)[k]
                == es[kept_positions(keep, es.len() as int)[k]] by {
                if k < r.len() {
                    assert(select_by(es, keep)[k] == r[k]);
                    assert(q1[k] == q[k]);
                    assert(0 <= q[k] < n - 1);
                    assert(e0[q[k]] == es[q[k]]);
                } else {
                    assert(k == q.len());
                    assert(q1[k] == n - 1);
                    assert(select_by(es, keep)[k] == es[n - 1]);
                }
            }
            assert forall|p: int| 0 <= p < es.len() && keep[p] implies #[trigger] q1.contains(p) by {
                if p < n - 1 {
                    assert(q.contains(p));
                    let j = choose|j: int| 0 <= j < q.len() && q[j] == p;
                    assert(q1[j] == p);
                } else {
                    assert(q1[q.len() as int] == p);
                }
            }
        } else {
            assert(kept_positions(keep, n) == q);
            assert(select_by(es, keep) == r);
            assert(kept_positions(keep, e0.len() as int) == q);
            assert forall|k: int| 0 <= k < select_by(es, keep).len() implies #[trigger] select_by(es, keep)[k]
                == es[kept_positions(keep, es.len() as int)[k]] by {
                assert(select_by(es, keep)[k] == r[k]);
                assert(0 <= q[k] < n - 1);
                assert(e0[q[k]] == es[q[k]]);
            }
            assert forall|p: int| 0 <= p < es.len() && keep[p] implies #[trigger] q.contains(p) by {
                assert(p < n - 1);
            }
        }
    }
}

} // verus!
