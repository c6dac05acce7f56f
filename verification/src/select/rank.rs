//! Newest-first ranking of selected entries: mtime descending, then archive
//! name ascending, then input position.

use crate::select::walk::{entry_mtime_secs, mtime_of, SelectedEntry};
use crate::text::{chars_of, views};
use vstd::prelude::*;

verus! {

/// Lexicographic order on character sequences (as `str` ordering).
pub open spec fn lex_lt(a: Seq<char>, b: Seq<char>) -> bool
    decreases a.len(),
{
    if a.len() == 0 {
        b.len() > 0
    } else if b.len() == 0 {
        false
    } else if a[0] < b[0] {
        true
    } else if a[0] == b[0] {
        lex_lt(a.skip(1), b.skip(1))
    } else {
        false
    }
}

/// Entry `i` ranks before entry `j`.
pub open spec fn rank_before(es: Seq<SelectedEntry>, i: int, j: int) -> bool {
    let mi = mtime_of(es[i]);
    let mj = mtime_of(es[j]);
    let ni = es[i].archive_name@;
    let nj = es[j].archive_name@;
    mi > mj || (mi == mj && (lex_lt(ni, nj) || (ni == nj && i < j)))
}

pub open spec fn distinct_below(cand: Seq<usize>, n: int) -> bool {
    &&& forall|a: int, b: int| 0 <= a < b < cand.len() ==> cand[a] != cand[b]
    &&& forall|a: int| 0 <= a < cand.len() ==> cand[a] < n
}

/// `o` lists the indices of `cand` in rank order.
pub open spec fn is_ranking(es: Seq<SelectedEntry>, cand: Seq<usize>, o: Seq<usize>) -> bool {
    &&& o.len() == cand.len()
    &&& forall|x: usize| o.contains(x) <==> cand.contains(x)
    &&& forall|a: int, b: int|
        0 <= a < b < o.len() ==> rank_before(es, #[trigger] o[a] as int, #[trigger] o[b] as int)
}

/// The indices of `cand` in rank order.
pub open spec fn rank_order(es: Seq<SelectedEntry>, cand: Seq<usize>) -> Seq<usize> {
    choose|o: Seq<usize>| is_ranking(es, cand, o)
}

proof fn lemma_lex_irrefl(a: Seq<char>)
    ensures
        !lex_lt(a, a),
    decreases a.len(),
{
    if a.len() > 0 {
        lemma_lex_irrefl(a.skip(1));
    }
}

proof fn lemma_lex_asym(a: Seq<char>, b: Seq<char>)
    ensures
        !(lex_lt(a, b) && lex_lt(b, a)),
    decreases a.len(),
{
    if a.len() > 0 && b.len() > 0 && a[0] == b[0] {
        lemma_lex_asym(a.skip(1), b.skip(1));
    }
}

proof fn lemma_lex_trans(a: Seq<char>, b: Seq<char>, c: Seq<char>)
    requires
        lex_lt(a, b),
        lex_lt(b, c),
    ensures
        lex_lt(a, c),
    decreases a.len(),
{
    if a.len() > 0 && b.len() > 0 && c.len() > 0 && a[0] == b[0] && b[0] == c[0] {
        lemma_lex_trans(a.skip(1), b.skip(1), c.skip(1));
    }
}

proof fn lemma_lex_total(a: Seq<char>, b: Seq<char>)
    requires
        a != b,
    ensures
        lex_lt(a, b) || lex_lt(b, a),
    decreases a.len(),
{
    if a.len() > 0 && b.len() > 0 && a[0] == b[0] {
        if a.skip(1) == b.skip(1) {
            assert(a == seq![a[0]] + a.skip(1));
            assert(b == seq![b[0]] + b.skip(1));
        }
        lemma_lex_total(a.skip(1), b.skip(1));
    } else if a.len() == 0 && b.len() == 0 {
        assert(a == b);
    }
}

/// `rank_before` is a strict total order on indices.
pub proof fn lemma_rank_order_laws(es: Seq<SelectedEntry>, i: int, j: int, k: int)
    ensures
        !rank_before(es, i, i),
        !(rank_before(es, i, j) && rank_before(es, j, i)),
        rank_before(es, i, j) && rank_before(es, j, k) ==> rank_before(es, i, k),
        i != j ==> rank_before(es, i, j) || rank_before(es, j, i),
{
    let ni = es[i].archive_name@;
    let nj = es[j].archive_name@;
    let nk = es[k].archive_name@;
    lemma_lex_irrefl(ni);
    lemma_lex_asym(ni, nj);
    if lex_lt(ni, nj) && lex_lt(nj, nk) {
        lemma_lex_trans(ni, nj, nk);
    }
    if ni == nj && lex_lt(nj, nk) {
    }
    if ni != nj {
        lemma_lex_total(ni, nj);
    }
}

/// Two rankings of the same candidates are the same sequence.
proof fn lemma_ranking_unique(es: Seq<SelectedEntry>, cand: Seq<usize>, o1: Seq<usize>, o2: Seq<usize>)
    requires
        is_ranking(es, cand, o1),
        is_ranking(es, cand, o2),
    ensures
        o1 == o2,
    decreases o1.len(),
{
    if o1.len() > 0 {
        let x = o1[0];
        let y = o2[0];
        assert(o1.contains(x));
        assert(o2.contains(x));
        assert(o1.contains(y));
        if x != y {
            let a = choose|a: int| 0 <= a < o2.len() && o2[a] == x;
            let b = choose|b: int| 0 <= b < o1.len() && o1[b] == y;
            assert(rank_before(es, o2[0] as int, o2[a] as int));
            assert(rank_before(es, o1[0] as int, o1[b] as int));
            lemma_rank_order_laws(es, x as int, y as int, x as int);
        }
        let r1 = o1.skip(1);
        let r2 = o2.skip(1);
        let c = r1;
        assert forall|a: int, b: int| 0 <= a < b < r1.len() implies rank_before(
            es,
            #[trigger] r1[a] as int,
            #[trigger] r1[b] as int,
        ) by {
            assert(r1[a] == o1[a + 1] && r1[b] == o1[b + 1]);
        }
        assert forall|a: int, b: int| 0 <= a < b < r2.len() implies rank_before(
            es,
            #[trigger] r2[a] as int,
            #[trigger] r2[b] as int,
        ) by {
            assert(r2[a] == o2[a + 1] && r2[b] == o2[b + 1]);
        }
        assert forall|z: usize| r2.contains(z) <==> c.contains(z) by {
            if r2.contains(z) {
                let a = choose|a: int| 0 <= a < r2.len() && r2[a] == z;
                assert(o2[a + 1] == z);
                assert(o2.contains(z));
                assert(o1.contains(z));
                let b = choose|b: int| 0 <= b < o1.len() && o1[b] == z;
                if b == 0 {
                    assert(rank_before(es, o2[0] as int, o2[a + 1] as int));
                    lemma_rank_order_laws(es, z as int, z as int, z as int);
                }
                assert(r1[b - 1] == z);
            }
            if c.contains(z) {
                let a = choose|a: int| 0 <= a < r1.len() && r1[a] == z;
                assert(o1[a + 1] == z);
                assert(o1.contains(z));
                assert(o2.contains(z));
                let b = choose|b: int| 0 <= b < o2.len() && o2[b] == z;
                if b == 0 {
                    assert(rank_before(es, o1[0] as int, o1[a + 1] as int));
                    lemma_rank_order_laws(es, z as int, z as int, z as int);
                }
                assert(r2[b - 1] == z);
            }
        }
        assert(is_ranking(es, c, r1));
        assert(is_ranking(es, c, r2));
        lemma_ranking_unique(es, c, r1, r2);
        assert(o1 == seq![x] + r1);
        assert(o2 == seq![y] + r2);
    } else {
        assert(o2.len() == 0);
    }
}

/// Inserting `x` where the ranking of `c` stops ranking before it ranks `c` with `x`.
proof fn lemma_insert_ranking(es: Seq<SelectedEntry>, c: Seq<usize>, o: Seq<usize>, x: usize, p: int)
    requires
        is_ranking(es, c, o),
        forall|a: int| 0 <= a < o.len() ==> o[a] != x,
        0 <= p <= o.len(),
        forall|a: int| 0 <= a < p ==> rank_before(es, #[trigger] o[a] as int, x as int),
        p < o.len() ==> rank_before(es, x as int, o[p] as int),
    ensures
        is_ranking(es, c.push(x), o.insert(p, x)),
{
    let n = o.insert(p, x);
    let c1 = c.push(x);
    o.insert_ensures(p, x);
    assert forall|z: usize| n.contains(z) <==> c1.contains(z) by {
        if n.contains(z) {
            let a = choose|a: int| 0 <= a < n.len() && n[a] == z;
            if a == p {
                assert(c1[c.len() as int] == z);
            } else {
                let a0 = if a < p { a } else { a - 1 };
                assert(o[a0] == z);
                assert(o.contains(z));
                let b = choose|b: int| 0 <= b < c.len() && c[b] == z;
                assert(c1[b] == z);
            }
        }
        if c1.contains(z) {
            let b = choose|b: int| 0 <= b < c1.len() && c1[b] == z;
            if b == c.len() {
                assert(n[p] == z);
            } else {
                assert(c[b] == z);
                assert(c.contains(z));
                assert(o.contains(z));
                let a = choose|a: int| 0 <= a < o.len() && o[a] == z;
                if a < p {
                    assert(n[a] == z);
                } else {
                    assert(n[a + 1] == z);
                }
            }
        }
    }
    assert forall|a: int, b: int| 0 <= a < b < n.len() implies rank_before(
        es,
        #[trigger] n[a] as int,
        #[trigger] n[b] as int,
    ) by {
        if b < p {
            assert(n[a] == o[a] && n[b] == o[b]);
        } else if b == p {
            assert(n[a] == o[a]);
        } else if a < p {
            assert(n[a] == o[a] && n[b] == o[b - 1]);
            if p < b - 1 {
                assert(rank_before(es, o[p] as int, o[b - 1] as int));
                lemma_rank_order_laws(es, x as int, o[p] as int, o[b - 1] as int);
            }
            lemma_rank_order_laws(es, o[a] as int, x as int, o[b - 1] as int);
        } else if a == p {
            assert(n[b] == o[b - 1]);
            if p < b - 1 {
                assert(rank_before(es, o[p] as int, o[b - 1] as int));
                lemma_rank_order_laws(es, x as int, o[p] as int, o[b - 1] as int);
            }
        } else {
            assert(n[a] == o[a - 1] && n[b] == o[b - 1]);
        }
    }
}

/// First position of `o`, from `p` on, whose index does not rank before `x`.
pub open spec fn insert_pos(es: Seq<SelectedEntry>, o: Seq<usize>, x: usize, p: int) -> int
    decreases o.len() - p,
{
    if p < 0 || p >= o.len() || !rank_before(es, o[p] as int, x as int) {
        p
    } else {
        insert_pos(es, o, x, p + 1)
    }
}

proof fn lemma_insert_pos(es: Seq<SelectedEntry>, o: Seq<usize>, x: usize, p: int)
    requires
        0 <= p <= o.len(),
    ensures
        p <= insert_pos(es, o, x, p) <= o.len(),
        forall|a: int| p <= a < insert_pos(es, o, x, p) ==> rank_before(es, #[trigger] o[a] as int, x as int),
        insert_pos(es, o, x, p) < o.len() ==> !rank_before(es, o[insert_pos(es, o, x, p)] as int, x as int),
    decreases o.len() - p,
{
    if p < o.len() && rank_before(es, o[p] as int, x as int) {
        lemma_insert_pos(es, o, x, p + 1);
    }
}

/// Every set of distinct candidates has a ranking, so [`rank_order`] is one.
pub proof fn lemma_ranking_exists(es: Seq<SelectedEntry>, cand: Seq<usize>)
    requires
        distinct_below(cand, es.len() as int),
    ensures
        is_ranking(es, cand, rank_order(es, cand)),
    decreases cand.len(),
{
    if cand.len() == 0 {
        let e = Seq::<usize>::empty();
        assert(is_ranking(es, cand, e));
    } else {
        let c0 = cand.drop_last();
        let x = cand.last();
        lemma_ranking_exists(es, c0);
        let o0 = rank_order(es, c0);
        assert forall|a: int| 0 <= a < o0.len() implies o0[a] != x by {
            assert(o0.contains(o0[a]));
            let b = choose|b: int| 0 <= b < c0.len() && c0[b] == o0[a];
            assert(cand[b] == o0[a]);
        }
        lemma_insert_pos(es, o0, x, 0);
        let p = insert_pos(es, o0, x, 0);
        if p < o0.len() {
            lemma_rank_order_laws(es, o0[p] as int, x as int, x as int);
        }
        lemma_insert_ranking(es, c0, o0, x, p);
        assert(c0.push(x) == cand);
        assert(is_ranking(es, cand, o0.insert(p, x)));
    }
}

/// Lexicographic comparison of two character vectors.
pub fn lex_lt_chars(a: &[char], b: &[char]) -> (r: bool)
    ensures
        r == lex_lt(a@, b@),
{
    let mut i: usize = 0;
    assert(a@.skip(0) == a@ && b@.skip(0) == b@);
    while i < a.len() && i < b.len() && a[i] == b[i]
        invariant
            i <= a.len(),
            i <= b.len(),
            lex_lt(a@, b@) == lex_lt(a@.skip(i as int), b@.skip(i as int)),
        decreases a.len() - i,
    {
        assert(a@.skip(i as int).skip(1) == a@.skip(i + 1));
        assert(b@.skip(i as int).skip(1) == b@.skip(i + 1));
        assert(a@.skip(i as int)[0] == a@[i as int]);
        assert(b@.skip(i as int)[0] == b@[i as int]);
        i = i + 1;
    }
    if i == a.len() {
        assert(a@.skip(i as int).len() == 0);
        return i < b.len();
    }
    if i == b.len() {
        return false;
    }
    assert(a@.skip(i as int)[0] == a@[i as int]);
    assert(b@.skip(i as int)[0] == b@[i as int]);
    a[i] < b[i]
}

/// Names of the entries as character vectors.
pub fn entry_names(es: &[SelectedEntry]) -> (names: Vec<Vec<char>>)
    ensures
        names.len() == es.len(),
        forall|i: int| 0 <= i < es.len() ==> (#[trigger] names@[i])@ == es@[i].archive_name@,
{
    let mut names: Vec<Vec<char>> = Vec::new();
    let mut i: usize = 0;
    while i < es.len()
        invariant
            i <= es.len(),
            names.len() == i,
            forall|k: int| 0 <= k < i ==> (#[trigger] names@[k])@ == es@[k].archive_name@,
        decreases es.len() - i,
    {
        names.push(chars_of(es[i].archive_name.as_str()));
        i = i + 1;
    }
    names
}

fn ranks_before(es: &[SelectedEntry], names: &Vec<Vec<char>>, i: usize, j: usize) -> (r: bool)
    requires
        i < es.len(),
        j < es.len(),
        names.len() == es.len(),
        forall|k: int| 0 <= k < es.len() ==> (#[trigger] names@[k])@ == es@[k].archive_name@,
    ensures
        r == rank_before(es@, i as int, j as int),
{
    let mi = entry_mtime_secs(&es[i]);
    let mj = entry_mtime_secs(&es[j]);
    if mi != mj {
        return mi > mj;
    }
    assert(names@[i as int]@ == es@[i as int].archive_name@);
    assert(names@[j as int]@ == es@[j as int].archive_name@);
    if lex_lt_chars(&names[i], &names[j]) {
        return true;
    }
    if lex_lt_chars(&names[j], &names[i]) {
        proof {
            lemma_lex_asym(es@[i as int].archive_name@, es@[j as int].archive_name@);
        }
        return false;
    }
    proof {
        if es@[i as int].archive_name@ != es@[j as int].archive_name@ {
            lemma_lex_total(es@[i as int].archive_name@, es@[j as int].archive_name@);
        }
    }
    i < j
}

/// `o` is in strict rank order.
pub open spec fn rank_sorted(es: Seq<SelectedEntry>, o: Seq<usize>) -> bool {
    forall|a: int, b: int| 0 <= a < b < o.len() ==> rank_before(es, #[trigger] o[a] as int, #[trigger] o[b] as int)
}

/// Names given for each entry, as character vectors.
pub open spec fn names_match(es: Seq<SelectedEntry>, names: Seq<Vec<char>>) -> bool {
    &&& names.len() == es.len()
    &&& forall|k: int| 0 <= k < es.len() ==> (#[trigger] names[k])@ == es[k].archive_name@
}

proof fn lemma_push_contains(s: Seq<usize>, x: usize)
    ensures
        forall|y: usize| #[trigger] s.push(x).contains(y) <==> (s.contains(y) || y == x),
{
    assert forall|y: usize| #[trigger] s.push(x).contains(y) <==> (s.contains(y) || y == x) by {
        if s.push(x).contains(y) {
            let p = choose|p: int| 0 <= p < s.push(x).len() && s.push(x)[p] == y;
            if p < s.len() {
                assert(s[p] == y);
            }
        }
        if s.contains(y) {
            let p = choose|p: int| 0 <= p < s.len() && s[p] == y;
            assert(s.push(x)[p] == y);
        }
        if y == x {
            assert(s.push(x)[s.len() as int] == y);
        }
    }
}

/// Merge two rank-sorted lists of entry indices with none in common.
fn merge_ranked(es: &[SelectedEntry], names: &Vec<Vec<char>>, l: Vec<usize>, r: Vec<usize>) -> (o: Vec<usize>)
    requires
        names_match(es@, names@),
        forall|a: int| 0 <= a < l.len() ==> #[trigger] l@[a] < es.len(),
        forall|b: int| 0 <= b < r.len() ==> #[trigger] r@[b] < es.len(),
        rank_sorted(es@, l@),
        rank_sorted(es@, r@),
        forall|a: int, b: int| 0 <= a < l.len() && 0 <= b < r.len() ==> #[trigger] l@[a] != #[trigger] r@[b],
        l.len() + r.len() <= usize::MAX,
    ensures
        o.len() == l.len() + r.len(),
        forall|x: usize| o@.contains(x) <==> (l@.contains(x) || r@.contains(x)),
        rank_sorted(es@, o@),
        forall|a: int| 0 <= a < o.len() ==> #[trigger] o@[a] < es.len(),
{
    let mut o: Vec<usize> = Vec::new();
    let mut i: usize = 0;
    let mut j: usize = 0;
    while i < l.len() || j < r.len()
        invariant
            i <= l.len(),
            j <= r.len(),
            o.len() == i + j,
            l.len() + r.len() <= usize::MAX,
            names_match(es@, names@),
            forall|a: int| 0 <= a < l.len() ==> #[trigger] l@[a] < es.len(),
            forall|b: int| 0 <= b < r.len() ==> #[trigger] r@[b] < es.len(),
            rank_sorted(es@, l@),
            rank_sorted(es@, r@),
            forall|a: int, b: int| 0 <= a < l.len() && 0 <= b < r.len() ==> #[trigger] l@[a] != #[trigger] r@[b],
            rank_sorted(es@, o@),
            forall|a: int| 0 <= a < o.len() ==> #[trigger] o@[a] < es.len(),
            forall|x: usize| o@.contains(x) <==> (l@.take(i as int).contains(x) || r@.take(j as int).contains(x)),
            o.len() > 0 ==> forall|a: int| i <= a < l.len() ==> rank_before(es@, o@.last() as int, #[trigger] l@[a] as int),
            o.len() > 0 ==> forall|b: int| j <= b < r.len() ==> rank_before(es@, o@.last() as int, #[trigger] r@[b] as int),
        decreases l.len() + r.len() - i - j,
    {
        let take_left = if i == l.len() {
            false
        } else if j == r.len() {
            true
        } else {
            ranks_before(es, names, l[i], r[j])
        };
        let ghost o0 = o@;
        let ghost i0 = i as int;
        let ghost j0 = j as int;
        let x = if take_left {
            l[i]
        } else {
            r[j]
        };
        o.push(x);
        if take_left {
            i = i + 1;
        } else {
            j = j + 1;
        }
        proof {
            assert(o@ == o0.push(x));
            if take_left {
                lemma_push_contains(l@.take(i0), l@[i0]);
            } else {
                lemma_push_contains(r@.take(j0), r@[j0]);
            }
            lemma_push_contains(o0, x);
            if take_left {
                assert(l@.take(i as int) == l@.take(i0).push(x));
                assert(r@.take(j as int) == r@.take(j0));
                assert forall|a: int| i <= a < l.len() implies rank_before(es@, x as int, #[trigger] l@[a] as int) by {
                    assert(rank_before(es@, l@[i0] as int, l@[a] as int));
                }
                assert forall|b: int| j <= b < r.len() implies rank_before(es@, x as int, #[trigger] r@[b] as int) by {
                    assert(rank_before(es@, l@[i0] as int, r@[j0] as int));
                    if b > j0 {
                        assert(rank_before(es@, r@[j0] as int, r@[b] as int));
                        lemma_rank_order_laws(es@, x as int, r@[j0] as int, r@[b] as int);
                    }
                }
            } else {
                assert(r@.take(j as int) == r@.take(j0).push(x));
                assert(l@.take(i as int) == l@.take(i0));
                if i0 < l.len() {
                    assert(l@[i0] != r@[j0]);
                    lemma_rank_order_laws(es@, l@[i0] as int, r@[j0] as int, r@[j0] as int);
                    assert(rank_before(es@, x as int, l@[i0] as int));
                }
                assert forall|a: int| i <= a < l.len() implies rank_before(es@, x as int, #[trigger] l@[a] as int) by {
                    if a > i0 {
                        assert(rank_before(es@, l@[i0] as int, l@[a] as int));
                        lemma_rank_order_laws(es@, x as int, l@[i0] as int, l@[a] as int);
                    }
                }
                assert forall|b: int| j <= b < r.len() implies rank_before(es@, x as int, #[trigger] r@[b] as int) by {
                    assert(rank_before(es@, r@[j0] as int, r@[b] as int));
                }
            }
            assert forall|a: int, b: int| 0 <= a < b < o@.len() implies rank_before(
                es@,
                #[trigger] o@[a] as int,
                #[trigger] o@[b] as int,
            ) by {
                if b < o0.len() {
                    assert(o@[a] == o0[a] && o@[b] == o0[b]);
                } else {
                    let last = o0.last();
                    if take_left {
                        assert(rank_before(es@, last as int, l@[i0] as int));
                    } else {
                        assert(rank_before(es@, last as int, r@[j0] as int));
                    }
                    if a < o0.len() - 1 {
                        assert(rank_before(es@, o0[a] as int, o0[o0.len() - 1] as int));
                        lemma_rank_order_laws(es@, o0[a] as int, last as int, x as int);
                    }
                }
            }
        }
    }
    assert(l@.take(l.len() as int) == l@);
    assert(r@.take(r.len() as int) == r@);
    o
}

/// Sort distinct entry indices into rank order (merge sort).
fn sort_ranked(es: &[SelectedEntry], names: &Vec<Vec<char>>, v: Vec<usize>) -> (o: Vec<usize>)
    requires
        names_match(es@, names@),
        distinct_below(v@, es.len() as int),
    ensures
        o.len() == v.len(),
        forall|x: usize| o@.contains(x) <==> v@.contains(x),
        rank_sorted(es@, o@),
        forall|a: int| 0 <= a < o.len() ==> #[trigger] o@[a] < es.len(),
    decreases v.len(),
{
    if v.len() <= 1 {
        return v;
    }
    let ghost v0 = v@;
    let mid = v.len() / 2;
    let mut left = v;
    let right = left.split_off(mid);
    assert(v0 == left@ + right@);
    assert forall|a: int, b: int| 0 <= a < b < left@.len() implies left@[a] != left@[b] by {
        assert(left@[a] == v0[a] && left@[b] == v0[b]);
    }
    assert forall|a: int, b: int| 0 <= a < b < right@.len() implies right@[a] != right@[b] by {
        assert(right@[a] == v0[a + mid] && right@[b] == v0[b + mid]);
    }
    assert forall|a: int| 0 <= a < left@.len() implies left@[a] < es.len() by {
        assert(left@[a] == v0[a]);
    }
    assert forall|a: int| 0 <= a < right@.len() implies right@[a] < es.len() by {
        assert(right@[a] == v0[a + mid]);
    }
    let ghost lv = left@;
    let ghost rv = right@;
    let l = sort_ranked(es, names, left);
    let r = sort_ranked(es, names, right);
    assert forall|a: int, b: int| 0 <= a < l.len() && 0 <= b < r.len() implies #[trigger] l@[a] != #[trigger] r@[b] by {
        assert(l@.contains(l@[a]));
        assert(lv.contains(l@[a]));
        assert(r@.contains(r@[b]));
        assert(rv.contains(r@[b]));
        let p = choose|p: int| 0 <= p < lv.len() && lv[p] == l@[a];
        let q = choose|q: int| 0 <= q < rv.len() && rv[q] == r@[b];
        assert(v0[p] == lv[p]);
        assert(v0[q + mid] == rv[q]);
    }
    let o = merge_ranked(es, names, l, r);
    assert forall|x: usize| o@.contains(x) <==> v0.contains(x) by {
        if v0.contains(x) {
            let p = choose|p: int| 0 <= p < v0.len() && v0[p] == x;
            if p < mid {
                assert(lv[p] == x);
                assert(lv.contains(x));
            } else {
                assert(rv[p - mid] == x);
                assert(rv.contains(x));
            }
        }
        if lv.contains(x) {
            let p = choose|p: int| 0 <= p < lv.len() && lv[p] == x;
            assert(v0[p] == x);
        }
        if rv.contains(x) {
            let p = choose|p: int| 0 <= p < rv.len() && rv[p] == x;
            assert(v0[p + mid] == x);
        }
    }
    o
}

/// The candidate indices in rank order (newest first, then name, then position).
pub fn rank_indices(es: &[SelectedEntry], cand: &Vec<usize>) -> (o: Vec<usize>)
    requires
        distinct_below(cand@, es.len() as int),
    ensures
        is_ranking(es@, cand@, o@),
        o@ == rank_order(es@, cand@),
{
    let names = entry_names(es);
    let mut v: Vec<usize> = Vec::new();
    let mut k: usize = 0;
    while k < cand.len()
        invariant
            k <= cand.len(),
            v@ == cand@.take(k as int),
        decreases cand.len() - k,
    {
        v.push(cand[k]);
        k = k + 1;
        assert(v@ == cand@.take(k as int));
    }
    assert(cand@.take(cand.len() as int) == cand@);
    let o = sort_ranked(es, &names, v);
    proof {
        assert(is_ranking(es@, cand@, o@));
        let c = rank_order(es@, cand@);
        assert(is_ranking(es@, cand@, c));
        lemma_ranking_unique(es@, cand@, o@, c);
    }
    o
}

} // verus!
