//! Pattern matching, first-match `action_for`, and directory prune.
//!
//! Paths under test are archive-relative, `/`-separated, no leading `/`.
//! Matching works on the UTF-8 bytes of patterns and paths.

use crate::bytes::{bcontains, beq, bslice, bsplit, bstrip};
use crate::select::rules::{basename_mode_spec, Rule, RuleAction, RuleModel, RuleSet};
use crate::text::{bviews, ends_with, lemma_split_concat, lemma_split_len, split, strip_leading, strip_trailing, utf8};
use vstd::prelude::*;

verus! {

/// `/` as a byte.
pub open spec fn slash() -> u8 {
    47u8
}

/// Path with leading and trailing `/` removed (`str::trim_matches('/')`).
pub open spec fn norm_path(p: Seq<u8>) -> Seq<u8> {
    strip_trailing(strip_leading(p, slash()), slash())
}

/// Single-segment glob: `*` any run of bytes, `?` one byte, others literal.
pub open spec fn seg_match(p: Seq<u8>, s: Seq<u8>) -> bool
    decreases p.len() + s.len(),
{
    if p.len() == 0 {
        s.len() == 0
    } else if p[0] == 42u8 {
        seg_match(p.drop_first(), s) || (s.len() > 0 && seg_match(p, s.drop_first()))
    } else if p[0] == 63u8 {
        s.len() > 0 && seg_match(p.drop_first(), s.drop_first())
    } else {
        s.len() > 0 && s[0] == p[0] && seg_match(p.drop_first(), s.drop_first())
    }
}

/// Pattern token: one segment pattern, or `**` (any number of whole segments).
pub enum TokModel {
    Seg(Seq<u8>),
    AnyDirs,
}

/// Executable pattern token.
pub enum Tok {
    Seg(Vec<u8>),
    AnyDirs,
}

impl View for Tok {
    type V = TokModel;

    open spec fn view(&self) -> TokModel {
        match self {
            Tok::Seg(v) => TokModel::Seg(v@),
            Tok::AnyDirs => TokModel::AnyDirs,
        }
    }
}

pub open spec fn tok_views(t: Seq<Tok>) -> Seq<TokModel> {
    t.map_values(|x: Tok| x@)
}

pub open spec fn is_dstar(p: Seq<u8>) -> bool {
    p == seq![42u8, 42u8]
}

/// Tokens of split pattern pieces; consecutive `**` collapse to one.
pub open spec fn tokens_of(parts: Seq<Seq<u8>>) -> Seq<TokModel>
    decreases parts.len(),
{
    if parts.len() == 0 {
        Seq::<TokModel>::empty()
    } else {
        let t = tokens_of(parts.drop_last());
        if is_dstar(parts.last()) {
            if t.len() > 0 && t.last() is AnyDirs {
                t
            } else {
                t.push(TokModel::AnyDirs)
            }
        } else {
            t.push(TokModel::Seg(parts.last()))
        }
    }
}

pub open spec fn tokenize_spec(pat: Seq<u8>) -> Seq<TokModel> {
    tokens_of(split(pat, slash()))
}

/// Whole-path token match: every segment consumed by the tokens.
pub open spec fn match_toks(t: Seq<TokModel>, segs: Seq<Seq<u8>>) -> bool
    decreases t.len(), segs.len() + 2,
{
    if t.len() == 0 {
        segs.len() == 0
    } else {
        match t[0] {
            TokModel::AnyDirs => match_toks_skip(t.drop_first(), segs, 0),
            TokModel::Seg(p) => segs.len() > 0 && seg_match(p, segs[0]) && match_toks(
                t.drop_first(),
                segs.drop_first(),
            ),
        }
    }
}

/// Whether `t` matches `segs` with some number (at least `k`) of leading
/// segments skipped.
pub open spec fn match_toks_skip(t: Seq<TokModel>, segs: Seq<Seq<u8>>, k: int) -> bool
    decreases t.len() + 1, segs.len() + 1 - k,
{
    if 0 <= k <= segs.len() {
        match_toks(t, segs.skip(k)) || match_toks_skip(t, segs, k + 1)
    } else {
        false
    }
}

/// Segments of a path (none for the empty path).
pub open spec fn path_segs(path: Seq<u8>) -> Seq<Seq<u8>> {
    if path.len() == 0 {
        Seq::<Seq<u8>>::empty()
    } else {
        split(path, slash())
    }
}

/// Full-path glob (`*`, `?`, `**` as its own segment).
pub open spec fn glob_path_spec(pat: Seq<u8>, path: Seq<u8>) -> bool {
    match_toks(tokenize_spec(pat), path_segs(path))
}

/// Last `/`-separated piece of a path.
pub open spec fn basename_spec(path: Seq<u8>) -> Seq<u8> {
    split(path, slash()).last()
}

/// Whether the pattern's tokens match some trailing run of the path's
/// segments (the whole path included).
pub open spec fn glob_suffix_spec(pat: Seq<u8>, path: Seq<u8>) -> bool {
    match_toks_skip(tokenize_spec(pat), path_segs(path), 0)
}

/// Basename or path match of one rule (no directory-only handling): a pattern
/// without `/` matches the last segment; an anchored pattern with `/` matches
/// the whole path; an unanchored one matches any trailing run of segments.
pub open spec fn match_target_spec(r: RuleModel, path: Seq<u8>) -> bool {
    if basename_mode_spec(r.pattern) {
        if r.anchored && path.contains(slash()) {
            false
        } else {
            seg_match(utf8(r.pattern), basename_spec(path))
        }
    } else if r.anchored {
        glob_path_spec(utf8(r.pattern), path)
    } else {
        glob_suffix_spec(utf8(r.pattern), path)
    }
}

/// Whether `path` (after `/` trimming) has a proper ancestor directory matching `r`.
pub open spec fn ancestor_matches(r: RuleModel, path: Seq<u8>) -> bool {
    exists|i: int| 0 < i < path.len() && path[i] == slash() && #[trigger] match_target_spec(r, path.take(i))
}

/// Whether rule `r` matches `path0`. A directory-only rule matches a
/// directory by its pattern; a file it matches only when the rule excludes and
/// some ancestor directory matches (a directory-only include selects the
/// directory alone, not what lies below it).
pub open spec fn path_matches_spec(r: RuleModel, path0: Seq<u8>, is_dir: bool) -> bool {
    let path = norm_path(path0);
    path.len() > 0 && if r.dir_only {
        if is_dir {
            match_target_spec(r, path)
        } else {
            r.action == RuleAction::Exclude && ancestor_matches(r, path)
        }
    } else {
        match_target_spec(r, path)
    }
}

/// First matching rule's action; Include when none matches.
pub open spec fn action_spec(rules: Seq<RuleModel>, path: Seq<u8>, is_dir: bool) -> RuleAction
    decreases rules.len(),
{
    if rules.len() == 0 {
        RuleAction::Include
    } else if path_matches_spec(rules[0], path, is_dir) {
        rules[0].action
    } else {
        action_spec(rules.drop_first(), path, is_dir)
    }
}

/// Whether two consecutive `*` bytes occur in `s`.
pub open spec fn has_star_pair(s: Seq<u8>) -> bool {
    exists|i: int| #![trigger s[i]] 0 <= i && i + 1 < s.len() && s[i] == 42u8 && s[i + 1] == 42u8
}

/// Whether two consecutive `*` bytes occur in `p` (`str::contains("**")`).
fn star_pair(p: &[u8]) -> (b: bool)
    ensures
        b == has_star_pair(p@),
{
    let mut i: usize = 0;
    while i < p.len() && i + 1 < p.len()
        invariant
            i <= p.len(),
            forall|k: int| #![trigger p@[k]] 0 <= k < i && k + 1 < p@.len() ==> !(p@[k] == 42u8 && p@[k + 1] == 42u8),
        decreases p.len() - i,
    {
        if p[i] == 42u8 && p[i + 1] == 42u8 {
            return true;
        }
        i = i + 1;
    }
    false
}

/// Prefix walk for "may a pattern match `dir` or below": after all directory
/// segments are consumed, any remaining token may match deeper paths.
pub open spec fn match_toks_under(t: Seq<TokModel>, segs: Seq<Seq<u8>>) -> bool
    decreases t.len(), segs.len() + 2,
{
    if segs.len() == 0 {
        t.len() > 0
    } else if t.len() == 0 {
        false
    } else {
        match t[0] {
            TokModel::AnyDirs => match_toks_under_skip(t.drop_first(), segs, 0),
            TokModel::Seg(p) => seg_match(p, segs[0]) && match_toks_under(
                t.drop_first(),
                segs.drop_first(),
            ),
        }
    }
}

/// Whether `t` may match under `segs` with at least `k` leading segments skipped.
pub open spec fn match_toks_under_skip(t: Seq<TokModel>, segs: Seq<Seq<u8>>, k: int) -> bool
    decreases t.len() + 1, segs.len() + 1 - k,
{
    if 0 <= k <= segs.len() {
        match_toks_under(t, segs.skip(k)) || match_toks_under_skip(t, segs, k + 1)
    } else {
        false
    }
}

/// Conservative check that an Include rule may match `dir0` or a path under it.
pub open spec fn may_match_under_spec(r: RuleModel, dir0: Seq<u8>) -> bool {
    let dir = norm_path(dir0);
    if dir.len() == 0 {
        true
    } else if path_matches_spec(r, dir, true) {
        true
    } else if basename_mode_spec(r.pattern) {
        !r.anchored
    } else if has_star_pair(utf8(r.pattern)) {
        true
    } else if !r.anchored {
        true
    } else {
        match_toks_under(tokenize_spec(utf8(r.pattern)), split(dir, slash()))
    }
}

/// Whether some Include rule may match `dir` or below.
pub open spec fn some_include_may_match(rules: Seq<RuleModel>, dir: Seq<u8>) -> bool {
    exists|i: int|
        0 <= i < rules.len() && rules[i].action == RuleAction::Include
            && #[trigger] may_match_under_spec(rules[i], dir)
}

/// Prune decision for directory `dir`.
pub open spec fn prune_spec(rules: Seq<RuleModel>, dir: Seq<u8>) -> bool {
    action_spec(rules, norm_path(dir), true) != RuleAction::Include && !some_include_may_match(
        rules,
        norm_path(dir),
    )
}

proof fn lemma_seg_step(p: Seq<u8>, s: Seq<u8>, i: int, j: int)
    requires
        0 <= i < p.len(),
        0 <= j <= s.len(),
    ensures
        p.skip(i)[0] == p[i],
        p.skip(i).drop_first() == p.skip(i + 1),
        j < s.len() ==> s.skip(j)[0] == s[j],
        j < s.len() ==> s.skip(j).drop_first() == s.skip(j + 1),
        s.skip(j).len() == s.len() - j,
{
    assert(p.skip(i).drop_first() == p.skip(i + 1));
    if j < s.len() {
        assert(s.skip(j).drop_first() == s.skip(j + 1));
    }
}

/// Match a single path segment against a segment pattern (`*`, `?`, literals).
pub fn glob_match_segment(pat: &str, seg: &str) -> (b: bool)
    ensures
        b == seg_match(utf8(pat@), utf8(seg@)),
{
    glob_match_segment_bytes(pat.as_bytes(), seg.as_bytes())
}

/// Table-driven segment match over bytes (row `i` holds matches of `p[i..]`).
pub fn glob_match_segment_bytes(p: &[u8], s: &[u8]) -> (b: bool)
    ensures
        b == seg_match(p@, s@),
{
    let m = p.len();
    let n = s.len();
    // Row for p[m..] (empty pattern): matches only the empty suffix.
    let mut next: Vec<bool> = Vec::new();
    let mut j: usize = 0;
    while j < n
        invariant
            j <= n,
            n == s.len(),
            m == p.len(),
            next@.len() == j,
            forall|k: int| 0 <= k < j ==> next@[k] == seg_match(p@.skip(m as int), s@.skip(k)),
        decreases n - j,
    {
        proof {
            assert(p@.skip(m as int).len() == 0);
            assert(s@.skip(j as int).len() == n - j);
        }
        next.push(false);
        j = j + 1;
    }
    proof {
        assert(p@.skip(m as int).len() == 0);
        assert(s@.skip(n as int).len() == 0);
    }
    next.push(true);
    let mut i = m;
    while i > 0
        invariant
            i <= m,
            m == p.len(),
            n == s.len(),
            next@.len() == n + 1,
            forall|k: int| 0 <= k <= n ==> next@[k] == seg_match(p@.skip(i as int), s@.skip(k)),
        decreases i,
    {
        let pi = i - 1;
        let c = p[pi];
        // fill cur right-to-left
        let mut row: Vec<bool> = Vec::new();
        let mut q: usize = 0;
        while q < n
            invariant
                q <= n,
                row@.len() == q,
            decreases n - q,
        {
            row.push(false);
            q = q + 1;
        }
        row.push(false);
        let mut k: usize = row.len();
        while k > 0
            invariant
                k <= n + 1,
                pi < m,
                m == p.len(),
                n == s.len(),
                c == p@[pi as int],
                next@.len() == n + 1,
                row@.len() == n + 1,
                forall|t: int| 0 <= t <= n ==> next@[t] == seg_match(p@.skip(pi + 1), s@.skip(t)),
                forall|t: int| k <= t <= n ==> row@[t] == seg_match(p@.skip(pi as int), s@.skip(t)),
            decreases k,
        {
            let jx = k - 1;
            proof {
                lemma_seg_step(p@, s@, pi as int, jx as int);
            }
            let v = if c == 42u8 {
                next[jx] || (jx < n && row[jx + 1])
            } else if c == 63u8 {
                jx < n && next[jx + 1]
            } else {
                jx < n && s[jx] == c && next[jx + 1]
            };
            row.set(jx, v);
            k = jx;
        }
        next = row;
        i = pi;
    }
    assert(p@.skip(0) == p@);
    assert(s@.skip(0) == s@);
    next[0]
}

/// Tokens of a pattern (`**` pieces collapse).
pub fn tokenize_pattern(pat: &[u8]) -> (t: Vec<Tok>)
    ensures
        tok_views(t@) == tokenize_spec(pat@),
{
    let parts = bsplit(pat, 47u8);
    let mut out: Vec<Tok> = Vec::new();
    let mut k: usize = 0;
    while k < parts.len()
        invariant
            k <= parts.len(),
            bviews(parts@) == split(pat@, slash()),
            tok_views(out@) == tokens_of(bviews(parts@).take(k as int)),
        decreases parts.len() - k,
    {
        let ghost pre = bviews(parts@).take(k as int);
        assert(bviews(parts@).take(k + 1).drop_last() == pre);
        assert(bviews(parts@).take(k + 1).last() == parts@[k as int]@);
        let part = &parts[k];
        let is_ds = part.len() == 2 && part[0] == 42u8 && part[1] == 42u8;
        proof {
            if part@.len() == 2 && part@[0] == 42u8 && part@[1] == 42u8 {
                assert(part@ == seq![42u8, 42u8]);
            }
        }
        if is_ds {
            let last_any = out.len() > 0 && matches!(out[out.len() - 1], Tok::AnyDirs);
            if !last_any {
                out.push(Tok::AnyDirs);
            }
        } else {
            out.push(Tok::Seg(bslice(part, 0, part.len())));
            assert(part@.subrange(0, part@.len() as int) == part@);
        }
        assert(tok_views(out@) == tokens_of(bviews(parts@).take(k + 1)));
        k = k + 1;
    }
    assert(bviews(parts@).take(parts@.len() as int) == bviews(parts@));
    out
}

proof fn lemma_skip_skip<T>(s: Seq<T>, a: int, b: int)
    requires
        0 <= a <= s.len(),
        0 <= b <= s.len() - a,
    ensures
        s.skip(a).skip(b) == s.skip(a + b),
{
    assert(s.skip(a).skip(b) == s.skip(a + b));
}

fn match_tokens(toks: &Vec<Tok>, ti: usize, segs: &Vec<Vec<u8>>, si: usize) -> (b: bool)
    requires
        ti <= toks.len(),
        si <= segs.len(),
    ensures
        b == match_toks(tok_views(toks@).skip(ti as int), bviews(segs@).skip(si as int)),
    decreases toks.len() - ti,
{
    let ghost t = tok_views(toks@).skip(ti as int);
    let ghost sg = bviews(segs@).skip(si as int);
    if ti >= toks.len() {
        return si >= segs.len();
    }
    assert(t[0] == toks@[ti as int]@);
    assert(t.drop_first() == tok_views(toks@).skip(ti + 1));
    match &toks[ti] {
        Tok::AnyDirs => {
            let mut k = si;
            let mut done = false;
            while !done
                invariant
                    si <= k <= segs.len(),
                    done ==> k == segs.len(),
                    ti < toks.len(),
                    t[0] == TokModel::AnyDirs,
                    t == tok_views(toks@).skip(ti as int),
                    sg == bviews(segs@).skip(si as int),
                    t.drop_first() == tok_views(toks@).skip(ti + 1),
                    match_toks_skip(t.drop_first(), sg, 0) == match_toks_skip(t.drop_first(), sg, k - si),
                    done ==> !match_toks(t.drop_first(), sg.skip(k - si)),
                decreases segs.len() + 1 - k - (if done { 1int } else { 0int }),
            {
                proof {
                    lemma_skip_skip(bviews(segs@), si as int, k - si);
                }
                if match_tokens(toks, ti + 1, segs, k) {
                    return true;
                }
                if k == segs.len() {
                    done = true;
                } else {
                    k = k + 1;
                }
            }
            assert(!match_toks_skip(t.drop_first(), sg, k - si + 1));
            assert(!match_toks_skip(t.drop_first(), sg, k - si));
            assert(t[0] is AnyDirs);
            false
        },
        Tok::Seg(p) => {
            if si >= segs.len() {
                return false;
            }
            assert(sg[0] == segs@[si as int]@);
            assert(sg.drop_first() == bviews(segs@).skip(si + 1));
            if glob_match_segment_bytes(p, &segs[si]) {
                match_tokens(toks, ti + 1, segs, si + 1)
            } else {
                false
            }
        },
    }
}

/// Full-path glob match (pattern may contain `/`, `*`, `**`, `?`).
pub fn glob_match_path(pat: &str, path: &str) -> (b: bool)
    ensures
        b == glob_path_spec(utf8(pat@), utf8(path@)),
{
    glob_match_path_bytes(pat.as_bytes(), path.as_bytes())
}

fn path_segments(path: &[u8]) -> (segs: Vec<Vec<u8>>)
    ensures
        bviews(segs@) == path_segs(path@),
{
    if path.len() == 0 {
        let v: Vec<Vec<u8>> = Vec::new();
        assert(bviews(v@) == Seq::<Seq<u8>>::empty());
        v
    } else {
        bsplit(path, 47u8)
    }
}

fn glob_match_path_bytes(pat: &[u8], path: &[u8]) -> (b: bool)
    ensures
        b == glob_path_spec(pat@, path@),
{
    let toks = tokenize_pattern(pat);
    let segs = path_segments(path);
    assert(tok_views(toks@).skip(0) == tok_views(toks@));
    assert(bviews(segs@).skip(0) == bviews(segs@));
    match_tokens(&toks, 0, &segs, 0)
}

/// Last `/`-separated piece.
fn basename_bytes(path: &[u8]) -> (b: Vec<u8>)
    ensures
        b@ == basename_spec(path@),
{
    let parts = bsplit(path, 47u8);
    let last = &parts[parts.len() - 1];
    assert(bviews(parts@).last() == last@);
    bslice(last, 0, last.len())
}

fn match_target(rule: &Rule, path: &[u8]) -> (b: bool)
    ensures
        b == match_target_spec(rule@, path@),
{
    let pat = rule.pattern.as_str().as_bytes();
    if rule.basename_mode() {
        if rule.anchored && bcontains(path, 47u8) {
            return false;
        }
        let base = basename_bytes(path);
        return glob_match_segment_bytes(pat, &base);
    }
    if rule.anchored {
        glob_match_path_bytes(pat, path)
    } else {
        glob_match_suffix_bytes(pat, path)
    }
}

/// Whether the pattern matches some trailing run of the path's segments.
fn glob_match_suffix_bytes(pat: &[u8], path: &[u8]) -> (b: bool)
    ensures
        b == glob_suffix_spec(pat@, path@),
{
    let toks = tokenize_pattern(pat);
    let segs = path_segments(path);
    let ghost t = tok_views(toks@);
    let ghost sg = bviews(segs@);
    assert(t.skip(0) == t);
    let mut k: usize = 0;
    loop
        invariant
            k <= segs.len(),
            t == tok_views(toks@),
            sg == bviews(segs@),
            t == tokenize_spec(pat@),
            sg == path_segs(path@),
            t.skip(0) == t,
            match_toks_skip(t, sg, 0) == match_toks_skip(t, sg, k as int),
        decreases segs.len() - k,
    {
        if match_tokens(&toks, 0, &segs, k) {
            return true;
        }
        if k == segs.len() {
            assert(!match_toks_skip(t, sg, k + 1));
            return false;
        }
        k = k + 1;
    }
}

proof fn lemma_norm_idem(p: Seq<u8>)
    ensures
        norm_path(norm_path(p)) == norm_path(p),
{
    let a = strip_leading(p, slash());
    lemma_strip_leading_fix(p, slash());
    lemma_strip_trailing_fix(a, slash());
    let b = strip_trailing(a, slash());
    // b is a prefix of a, so if non-empty it starts with a[0] != '/'
    if b.len() > 0 {
        assert(b[0] == a[0]);
    }
    lemma_strip_leading_noop(b, slash());
}

proof fn lemma_strip_leading_fix<T>(s: Seq<T>, c: T)
    ensures
        strip_leading(s, c).len() > 0 ==> strip_leading(s, c)[0] != c,
        strip_leading(strip_leading(s, c), c) == strip_leading(s, c),
    decreases s.len(),
{
    if s.len() > 0 && s[0] == c {
        lemma_strip_leading_fix(s.drop_first(), c);
    }
}

proof fn lemma_strip_leading_noop<T>(s: Seq<T>, c: T)
    requires
        s.len() > 0 ==> s[0] != c,
    ensures
        strip_leading(s, c) == s,
{
}

proof fn lemma_strip_trailing_fix<T>(s: Seq<T>, c: T)
    ensures
        strip_trailing(s, c).len() > 0 ==> strip_trailing(s, c).last() != c,
        strip_trailing(strip_trailing(s, c), c) == strip_trailing(s, c),
        strip_trailing(s, c).len() <= s.len(),
        strip_trailing(s, c) == s.take(strip_trailing(s, c).len() as int),
    decreases s.len(),
{
    if s.len() > 0 && s.last() == c {
        lemma_strip_trailing_fix(s.drop_last(), c);
        assert(s.drop_last().take(strip_trailing(s, c).len() as int) == s.take(
            strip_trailing(s, c).len() as int,
        ));
    } else {
        assert(s.take(s.len() as int) == s);
    }
}

/// Whether `rule` matches archive-relative `path` (`is_dir` for dir-only rules).
pub fn path_matches_rule(rule: &Rule, path: &str, is_dir: bool) -> (b: bool)
    ensures
        b == path_matches_spec(rule@, utf8(path@), is_dir),
{
    path_matches_rule_bytes(rule, path.as_bytes(), is_dir)
}

fn path_matches_rule_bytes(rule: &Rule, path0: &[u8], is_dir: bool) -> (b: bool)
    ensures
        b == path_matches_spec(rule@, path0@, is_dir),
{
    let path = bstrip(path0, 47u8);
    if path.len() == 0 {
        return false;
    }
    if rule.dir_only {
        if is_dir {
            return match_target(rule, &path);
        }
        if !matches!(rule.action, RuleAction::Exclude) {
            return false;
        }
        let mut i: usize = 1;
        while i < path.len()
            invariant
                1 <= i <= path.len(),
                path@ == norm_path(path0@),
                rule@.dir_only,
                rule@.action == RuleAction::Exclude,
                !is_dir,
                forall|k: int|
                    0 < k < i && path@[k] == slash() ==> !#[trigger] match_target_spec(
                        rule@,
                        path@.take(k),
                    ),
            decreases path.len() - i,
        {
            if path[i] == 47u8 {
                let anc = bslice(&path, 0, i);
                assert(anc@ == path@.take(i as int));
                if match_target(rule, &anc) {
                    return true;
                }
            }
            i = i + 1;
        }
        return false;
    }
    match_target(rule, &path)
}

impl RuleSet {
    /// First matching rule wins; if none match → [`RuleAction::Include`].
    pub fn action_for(&self, rel_path: &str, is_dir: bool) -> (a: RuleAction)
        ensures
            a == action_spec(self@, utf8(rel_path@), is_dir),
    {
        self.action_for_bytes(rel_path.as_bytes(), is_dir)
    }

    fn action_for_bytes(&self, rel_path: &[u8], is_dir: bool) -> (a: RuleAction)
        ensures
            a == action_spec(self@, rel_path@, is_dir),
    {
        let path = bstrip(rel_path, 47u8);
        proof {
            lemma_norm_idem(rel_path@);
        }
        let rules = self.rules();
        let mut i: usize = 0;
        assert(self@.skip(0) == self@);
        while i < rules.len()
            invariant
                i <= rules@.len(),
                rules@.len() == self@.len(),
                forall|k: int| 0 <= k < rules@.len() ==> #[trigger] rules@[k]@ == self@[k],
                norm_path(path@) == norm_path(rel_path@),
                action_spec(self@, rel_path@, is_dir) == action_spec(
                    self@.skip(i as int),
                    rel_path@,
                    is_dir,
                ),
            decreases rules.len() - i,
        {
            let ghost rest = self@.skip(i as int);
            assert(rest[0] == self@[i as int]);
            assert(rest.drop_first() == self@.skip(i + 1));
            assert(rules@[i as int]@ == self@[i as int]);
            if path_matches_rule_bytes(&rules[i], &path, is_dir) {
                return rules[i].action;
            }
            i = i + 1;
        }
        RuleAction::Include
    }

    /// Whether a walk may skip descending into directory `dir_rel`:
    /// the directory is excluded and no Include rule may match it or below.
    pub fn should_prune_dir(&self, dir_rel: &str) -> (b: bool)
        ensures
            b == prune_spec(self@, utf8(dir_rel@)),
    {
        let d = bstrip(dir_rel.as_bytes(), 47u8);
        proof {
            lemma_norm_idem(utf8(dir_rel@));
        }
        if self.action_for_bytes(&d, true) == RuleAction::Include {
            return false;
        }
        let rules = self.rules();
        let mut i: usize = 0;
        while i < rules.len()
            invariant
                i <= rules@.len(),
                rules@.len() == self@.len(),
                forall|k: int| 0 <= k < rules@.len() ==> #[trigger] rules@[k]@ == self@[k],
                d@ == norm_path(utf8(dir_rel@)),
                forall|k: int|
                    0 <= k < i && self@[k].action == RuleAction::Include ==> !#[trigger] may_match_under_spec(
                        self@[k],
                        d@,
                    ),
            decreases rules.len() - i,
        {
            assert(rules@[i as int]@ == self@[i as int]);
            if rules[i].action == RuleAction::Include && include_rule_may_match_under_bytes(
                &rules[i],
                &d,
            ) {
                return false;
            }
            i = i + 1;
        }
        true
    }
}

/// Conservative: true unless no path `dir` or `dir/...` can match `rule`.
pub fn include_rule_may_match_under(rule: &Rule, dir: &str) -> (b: bool)
    ensures
        b == may_match_under_spec(rule@, utf8(dir@)),
{
    include_rule_may_match_under_bytes(rule, dir.as_bytes())
}

fn include_rule_may_match_under_bytes(rule: &Rule, dir0: &[u8]) -> (b: bool)
    ensures
        b == may_match_under_spec(rule@, dir0@),
{
    let dir = bstrip(dir0, 47u8);
    proof {
        lemma_norm_idem(dir0@);
    }
    if dir.len() == 0 {
        return true;
    }
    if path_matches_rule_bytes(rule, &dir, true) {
        return true;
    }
    if rule.basename_mode() {
        return !rule.anchored;
    }
    if star_pair(rule.pattern.as_str().as_bytes()) {
        return true;
    }
    if !rule.anchored {
        return true;
    }
    let toks = tokenize_pattern(rule.pattern.as_str().as_bytes());
    let segs = bsplit(&dir, 47u8);
    assert(tok_views(toks@).skip(0) == tok_views(toks@));
    assert(bviews(segs@).skip(0) == bviews(segs@));
    match_tokens_prefix_under(&toks, 0, &segs, 0)
}

fn match_tokens_prefix_under(toks: &Vec<Tok>, ti: usize, segs: &Vec<Vec<u8>>, si: usize) -> (b:
    bool)
    requires
        ti <= toks.len(),
        si <= segs.len(),
    ensures
        b == match_toks_under(tok_views(toks@).skip(ti as int), bviews(segs@).skip(si as int)),
    decreases toks.len() - ti,
{
    let ghost t = tok_views(toks@).skip(ti as int);
    let ghost sg = bviews(segs@).skip(si as int);
    if si >= segs.len() {
        return ti < toks.len();
    }
    if ti >= toks.len() {
        return false;
    }
    assert(t[0] == toks@[ti as int]@);
    assert(t.drop_first() == tok_views(toks@).skip(ti + 1));
    match &toks[ti] {
        Tok::AnyDirs => {
            let mut k = si;
            let mut done = false;
            while !done
                invariant
                    si <= k <= segs.len(),
                    done ==> k == segs.len(),
                    ti < toks.len(),
                    si < segs.len(),
                    t[0] == TokModel::AnyDirs,
                    t == tok_views(toks@).skip(ti as int),
                    sg == bviews(segs@).skip(si as int),
                    t.drop_first() == tok_views(toks@).skip(ti + 1),
                    match_toks_under_skip(t.drop_first(), sg, 0) == match_toks_under_skip(t.drop_first(), sg, k - si),
                    done ==> !match_toks_under(t.drop_first(), sg.skip(k - si)),
                decreases segs.len() + 1 - k - (if done { 1int } else { 0int }),
            {
                proof {
                    lemma_skip_skip(bviews(segs@), si as int, k - si);
                }
                if match_tokens_prefix_under(toks, ti + 1, segs, k) {
                    return true;
                }
                if k == segs.len() {
                    done = true;
                } else {
                    k = k + 1;
                }
            }
            assert(!match_toks_under_skip(t.drop_first(), sg, k - si + 1));
            assert(!match_toks_under_skip(t.drop_first(), sg, k - si));
            assert(t[0] is AnyDirs);
            false
        },
        Tok::Seg(p) => {
            assert(sg[0] == segs@[si as int]@);
            assert(sg.drop_first() == bviews(segs@).skip(si + 1));
            if glob_match_segment_bytes(p, &segs[si]) {
                match_tokens_prefix_under(toks, ti + 1, segs, si + 1)
            } else {
                false
            }
        },
    }
}

} // verus!

verus! {

/// No two consecutive `*` bytes in any piece when none occur in the whole;
/// the last piece is a suffix of the whole.
proof fn lemma_split_pieces_no_pair(s: Seq<u8>)
    requires
        !has_star_pair(s),
    ensures
        forall|k: int| 0 <= k < split(s, slash()).len() ==> !#[trigger] has_star_pair(split(s, slash())[k]),
        ends_with(s, split(s, slash()).last()),
    decreases s.len(),
{
    lemma_split_len(s, slash());
    if s.len() == 0 {
        assert(s.skip(0) == s);
        let e = Seq::<u8>::empty();
        assert(split(s, slash())[0] == e);
        assert(split(s, slash()).last() == e);
        assert(s =~= e);
        assert(ends_with(s, split(s, slash()).last()));
        assert forall|k: int| 0 <= k < split(s, slash()).len() implies !#[trigger] has_star_pair(split(s, slash())[k]) by {
            assert(k == 0);
        }
    } else {
        let s0 = s.drop_last();
        assert forall|i: int| #![trigger s0[i]] 0 <= i && i + 1 < s0.len() implies !(s0[i] == 42u8 && s0[i + 1] == 42u8) by {
            assert(s[i] == s0[i]);
            assert(s[i + 1] == s0[i + 1]);
        }
        lemma_split_pieces_no_pair(s0);
        lemma_split_len(s0, slash());
        let p = split(s0, slash());
        let x = s.last();
        if x == slash() {
            assert forall|k: int| 0 <= k < split(s, slash()).len() implies !#[trigger] has_star_pair(split(s, slash())[k]) by {
                if k < p.len() {
                    assert(split(s, slash())[k] == p[k]);
                } else {
                    assert(split(s, slash())[k] == Seq::<u8>::empty());
                }
            }
            assert(s.skip(s.len() as int) == Seq::<u8>::empty());
            assert(split(s, slash()).last() == Seq::<u8>::empty());
            assert(ends_with(s, split(s, slash()).last()));
        } else {
            let old_last = p.last();
            let nl = old_last.push(x);
            assert(split(s, slash()) == p.update(p.len() - 1, nl));
            assert(split(s, slash()).last() == nl);
            assert(ends_with(s0, old_last));
            assert(old_last.len() <= s0.len());
            assert(nl.len() <= s.len());
            assert(s.skip(s.len() - nl.len()) =~= nl);
            assert(ends_with(s, nl));
            assert(s0.skip(s0.len() - old_last.len()) == old_last);
            assert(s.skip(s.len() - nl.len()) == nl) by {
                assert(s.skip(s.len() - nl.len()) == s0.skip(s0.len() - old_last.len()).push(x));
            }
            assert(!has_star_pair(nl)) by {
                if has_star_pair(nl) {
                    let i = choose|i: int| #![trigger nl[i]] 0 <= i && i + 1 < nl.len() && nl[i] == 42u8 && nl[i + 1] == 42u8;
                    if i + 1 < old_last.len() {
                        assert(old_last[i] == nl[i]);
                        assert(old_last[i + 1] == nl[i + 1]);
                        assert(has_star_pair(old_last));
                    } else {
                        // pair ends at the new last byte
                        assert(nl[i + 1] == x);
                        assert(old_last.last() == nl[i]);
                        let j = s0.len() - 1;
                        assert(s0[j] == old_last.last());
                        assert(s[j] == 42u8 && s[j + 1] == 42u8);
                        assert(has_star_pair(s));
                    }
                }
            }
            assert forall|k: int| 0 <= k < split(s, slash()).len() implies !#[trigger] has_star_pair(split(s, slash())[k]) by {
                if k < p.len() - 1 {
                    assert(split(s, slash())[k] == p[k]);
                }
            }
        }
    }
}

/// Pieces that are never `**` tokenize to one segment token each.
proof fn lemma_tokens_all_seg(parts: Seq<Seq<u8>>)
    requires
        forall|k: int| 0 <= k < parts.len() ==> !#[trigger] is_dstar(parts[k]),
    ensures
        tokens_of(parts).len() == parts.len(),
        forall|k: int| 0 <= k < parts.len() ==> #[trigger] tokens_of(parts)[k] == TokModel::Seg(parts[k]),
    decreases parts.len(),
{
    if parts.len() > 0 {
        let q = parts.drop_last();
        assert forall|k: int| 0 <= k < q.len() implies !#[trigger] is_dstar(q[k]) by {
            assert(q[k] == parts[k]);
        }
        lemma_tokens_all_seg(q);
        assert(!is_dstar(parts[parts.len() - 1]));
        assert forall|k: int| 0 <= k < parts.len() implies #[trigger] tokens_of(parts)[k] == TokModel::Seg(parts[k]) by {
            if k < q.len() {
                assert(tokens_of(q)[k] == TokModel::Seg(q[k]));
            }
        }
    }
}

/// With segment-only tokens, a full match of `a + b` (both non-empty) means
/// the tokens may match under `a`.
proof fn lemma_under_of_full(t: Seq<TokModel>, a: Seq<Seq<u8>>, b: Seq<Seq<u8>>)
    requires
        forall|k: int| 0 <= k < t.len() ==> #[trigger] t[k] is Seg,
        a.len() >= 1,
        b.len() >= 1,
        match_toks(t, a + b),
    ensures
        match_toks_under(t, a),
    decreases a.len(),
{
    let ab = a + b;
    assert(t.len() > 0);
    assert(t[0] is Seg);
    assert(ab[0] == a[0]);
    assert(ab.drop_first() == a.drop_first() + b);
    let t1 = t.drop_first();
    assert forall|k: int| 0 <= k < t1.len() implies #[trigger] t1[k] is Seg by {
        assert(t1[k] == t[k + 1]);
    }
    let p = t[0]->Seg_0;
    assert(t[0] == TokModel::Seg(p));
    assert(seg_match(p, a[0]));
    assert(match_toks(t1, a.drop_first() + b));
    if a.len() > 1 {
        lemma_under_of_full(t1, a.drop_first(), b);
    } else {
        assert(a.drop_first() + b == b);
        assert(t1.len() > 0);
        assert(a.drop_first().len() == 0);
    }
    assert(match_toks_under(t1, a.drop_first()));
    assert(a.len() > 0 && t.len() > 0);
}

/// A normalized path neither starts nor ends with `/`.
proof fn lemma_norm_shape(p: Seq<u8>)
    ensures
        norm_path(p).len() > 0 ==> norm_path(p)[0] != slash() && norm_path(p).last() != slash(),
{
    let a = strip_leading(p, slash());
    lemma_strip_leading_fix(p, slash());
    lemma_strip_trailing_fix(a, slash());
    let b = strip_trailing(a, slash());
    if b.len() > 0 {
        assert(b[0] == a[0]);
    }
}

/// A path under a normalized directory normalizes to the directory itself
/// when nothing but slashes follows it, else to the directory, `/` and the
/// rest without its trailing slashes.
proof fn lemma_norm_under(d: Seq<u8>, rest: Seq<u8>)
    requires
        d.len() > 0,
        d[0] != slash(),
        d.last() != slash(),
    ensures
        norm_path(d + seq![slash()] + rest) == (if strip_trailing(rest, slash()).len() == 0 {
            d
        } else {
            d + seq![slash()] + strip_trailing(rest, slash())
        }),
    decreases rest.len(),
{
    let q = d + seq![slash()] + rest;
    assert(q[0] == d[0]);
    lemma_strip_leading_noop(q, slash());
    if rest.len() == 0 {
        assert(q.drop_last() =~= d);
        assert(strip_trailing(d, slash()) == d);
    } else if rest.last() != slash() {
        assert(q.last() == rest.last());
    } else {
        let r0 = rest.drop_last();
        assert(q.drop_last() =~= d + seq![slash()] + r0);
        lemma_norm_under(d, r0);
        let q0 = d + seq![slash()] + r0;
        assert(q0[0] == d[0]);
        lemma_strip_leading_noop(q0, slash());
    }
}

/// Pruning law: when `should_prune_dir(dir)` holds, no Include rule matches
/// the directory itself or any path beneath it, as a file or as a directory,
/// so pruning never hides a path that an include could select.
pub proof fn lemma_prune_sound(rules: Seq<RuleModel>, dir: Seq<u8>, rest: Seq<u8>, i: int, is_dir: bool)
    requires
        prune_spec(rules, dir),
        0 <= i < rules.len(),
        rules[i].action == RuleAction::Include,
    ensures
        !path_matches_spec(rules[i], dir, is_dir),
        !path_matches_spec(rules[i], norm_path(dir) + seq![slash()] + rest, is_dir),
{
    let d = norm_path(dir);
    lemma_norm_idem(dir);
    lemma_norm_shape(dir);
    let t = strip_trailing(rest, slash());
    lemma_prune_sound_norm(rules, dir, seq![1u8], i, is_dir);
    assert(!may_match_under_spec(rules[i], d));
    assert(d.len() > 0);
    lemma_norm_under(d, rest);
    lemma_strip_trailing_fix(rest, slash());
    if t.len() > 0 {
        lemma_prune_sound_norm(rules, dir, t, i, is_dir);
        let q1 = d + seq![slash()] + t;
        assert(q1[0] == d[0]);
        assert(q1.last() == t.last());
        lemma_strip_leading_noop(q1, slash());
        assert(norm_path(q1) == q1);
    }
}

proof fn lemma_prune_sound_norm(rules: Seq<RuleModel>, dir: Seq<u8>, rest: Seq<u8>, i: int, is_dir: bool)
    requires
        prune_spec(rules, dir),
        0 <= i < rules.len(),
        rules[i].action == RuleAction::Include,
        rest.len() > 0,
        rest.last() != slash(),
    ensures
        !path_matches_spec(rules[i], dir, is_dir),
        !path_matches_spec(rules[i], norm_path(dir) + seq![slash()] + rest, is_dir),
{
    let d = norm_path(dir);
    let r = rules[i];
    lemma_norm_idem(dir);
    lemma_norm_shape(dir);
    assert(!may_match_under_spec(r, d));
    assert(d.len() > 0);
    assert(!path_matches_spec(r, d, true));
    assert(!match_target_spec(r, d));
    let q = d + seq![slash()] + rest;
    assert(q[0] == d[0]);
    assert(q.last() == rest.last());
    lemma_strip_leading_noop(q, slash());
    assert(strip_trailing(q, slash()) == q);
    assert(norm_path(q) == q);
    if basename_mode_spec(r.pattern) {
        assert(q[d.len() as int] == slash());
        assert(q.contains(slash()));
    } else {
        let pat = utf8(r.pattern);
        assert(!has_star_pair(pat));
        assert(r.anchored);
        lemma_split_pieces_no_pair(pat);
        let parts = split(pat, slash());
        assert forall|k: int| 0 <= k < parts.len() implies !#[trigger] is_dstar(parts[k]) by {
            if is_dstar(parts[k]) {
                let pk = parts[k];
                assert(pk[0] == 42u8 && pk[1] == 42u8);
                assert(has_star_pair(pk));
            }
        }
        lemma_tokens_all_seg(parts);
        let t = tokenize_spec(pat);
        assert forall|k: int| 0 <= k < t.len() implies #[trigger] t[k] is Seg by {
            assert(t[k] == TokModel::Seg(parts[k]));
        }
        lemma_split_concat(d, rest, slash());
        lemma_split_len(d, slash());
        lemma_split_len(rest, slash());
        assert(path_segs(q) == split(d, slash()) + split(rest, slash()));
        if match_target_spec(r, q) {
            lemma_under_of_full(t, split(d, slash()), split(rest, slash()));
        }
    }
    assert(!match_target_spec(r, q));
}

} // verus!
