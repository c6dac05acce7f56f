//! Ordered include/exclude rules (rsync subset, no merge).

use crate::error::{Error, Result};
use crate::text::{
    chars_of, contains_char, eq_chars, is_ws, is_ws_char, join, lower, lower_chars, replace_char,
    replace_chars, slice_of, split, split_chars, string_from, string_of, strip_leading,
    strip_leading_chars, strip_trailing, strip_trailing_chars, trim, trim_chars, trim_end,
    trim_start, views,
};
use vstd::prelude::*;

verus! {

/// Include or exclude a matched path.
#[derive(Debug, Clone, Copy, PartialEq, Eq, Structural)]
pub enum RuleAction {
    Include,
    Exclude,
}

/// One ordered filter rule after pattern parse.
#[derive(Debug)]
pub struct Rule {
    pub action: RuleAction,
    /// Pattern with leading `/` (anchor) and trailing `/` (dir-only) stripped.
    pub pattern: String,
    /// True if the original pattern started with `/` (anchored to path root).
    pub anchored: bool,
    /// True if the original pattern ended with `/` (directory-only).
    pub dir_only: bool,
}

/// Mathematical model of a [`Rule`].
pub struct RuleModel {
    pub action: RuleAction,
    pub pattern: Seq<char>,
    pub anchored: bool,
    pub dir_only: bool,
}

impl View for Rule {
    type V = RuleModel;

    open spec fn view(&self) -> RuleModel {
        RuleModel {
            action: self.action,
            pattern: self.pattern@,
            anchored: self.anchored,
            dir_only: self.dir_only,
        }
    }
}

/// Whether `s` holds two consecutive `*`.
pub open spec fn has_double_star(s: Seq<char>) -> bool {
    exists|i: int| #![trigger s[i]] 0 <= i && i + 1 < s.len() && s[i] == '*' && s[i + 1] == '*'
}

/// Patterns with no `/` and no `**` match the basename only.
pub open spec fn basename_mode_spec(pattern: Seq<char>) -> bool {
    !pattern.contains('/') && !has_double_star(pattern)
}

/// Whether some `/`-separated piece of `s` is empty.
pub open spec fn has_empty_segment(s: Seq<char>) -> bool {
    exists|k: int| 0 <= k < split(s, '/').len() && split(s, '/')[k].len() == 0
}

/// The rule a raw pattern parses to, or `None` when the pattern is rejected.
pub open spec fn parse_rule_spec(action: RuleAction, pat: Seq<char>) -> Option<RuleModel> {
    let p = trim(pat);
    if p.len() == 0 {
        None
    } else {
        let dir_only = p.last() == '/';
        let s1 = if dir_only {
            strip_trailing(p, '/')
        } else {
            p
        };
        let anchored = s1.len() > 0 && s1[0] == '/';
        let s2 = strip_leading(s1, '/');
        if s2.len() == 0 {
            None
        } else {
            let s3 = replace_char(s2, '\\', '/');
            if has_empty_segment(s3) {
                None
            } else {
                Some(RuleModel { action, pattern: s3, anchored, dir_only })
            }
        }
    }
}

/// Case-insensitive ASCII keyword followed by white space and a non-empty rest.
pub open spec fn strip_keyword_spec(line: Seq<char>, kw: Seq<char>) -> Option<Seq<char>> {
    if line.len() < kw.len() || lower(line.take(kw.len() as int)) != kw {
        None
    } else {
        let rest = line.skip(kw.len() as int);
        if rest.len() == 0 || !is_ws(rest[0]) || trim_start(rest).len() == 0 {
            None
        } else {
            Some(trim_start(rest))
        }
    }
}

pub open spec fn kw_include() -> Seq<char> {
    seq!['i', 'n', 'c', 'l', 'u', 'd', 'e']
}

pub open spec fn kw_exclude() -> Seq<char> {
    seq!['e', 'x', 'c', 'l', 'u', 'd', 'e']
}

/// Action and pattern text of a `+`/`-`/`include`/`exclude` line, or `None`.
pub open spec fn filter_prefix_spec(line0: Seq<char>) -> Option<(RuleAction, Seq<char>)> {
    let line = trim(line0);
    if line.len() > 0 && line[0] == '+' {
        let rest = trim_start(line.drop_first());
        if rest.len() == 0 {
            None
        } else {
            Some((RuleAction::Include, rest))
        }
    } else if line.len() > 0 && line[0] == '-' {
        let rest = trim_start(line.drop_first());
        if rest.len() == 0 {
            None
        } else {
            Some((RuleAction::Exclude, rest))
        }
    } else if strip_keyword_spec(line, kw_include()) is Some {
        Some((RuleAction::Include, strip_keyword_spec(line, kw_include())->0))
    } else if strip_keyword_spec(line, kw_exclude()) is Some {
        Some((RuleAction::Exclude, strip_keyword_spec(line, kw_exclude())->0))
    } else {
        None
    }
}

/// Whether a trimmed line is skipped (blank or `#` comment).
pub open spec fn is_skipped_line(line: Seq<char>) -> bool {
    trim(line).len() == 0 || trim(line)[0] == '#'
}

/// Outcome of a filter line: `None` = error; `Some(None)` = skipped;
/// `Some(Some(r))` = rule `r` appended.
pub open spec fn filter_line_spec(line: Seq<char>) -> Option<Option<RuleModel>> {
    if is_skipped_line(line) {
        Some(None)
    } else {
        match filter_prefix_spec(trim(line)) {
            None => None,
            Some((a, rest)) => match parse_rule_spec(a, rest) {
                None => None,
                Some(r) => Some(Some(r)),
            },
        }
    }
}

/// Outcome of a list-file line with a default action for bare patterns.
pub open spec fn from_file_line_spec(line: Seq<char>, default: RuleAction) -> Option<
    Option<RuleModel>,
> {
    if is_skipped_line(line) {
        Some(None)
    } else {
        let t = trim(line);
        let r = match filter_prefix_spec(t) {
            Some((a, rest)) => parse_rule_spec(a, rest),
            None => parse_rule_spec(default, t),
        };
        match r {
            None => None,
            Some(m) => Some(Some(m)),
        }
    }
}

impl Rule {
    /// Patterns with no `/` and no `**` match the basename only.
    pub fn basename_mode(&self) -> (b: bool)
        ensures
            b == basename_mode_spec(self.pattern@),
    {
        let p = chars_of(self.pattern.as_str());
        !contains_char(&p, '/') && !double_star(&p)
    }

    /// A copy of this rule.
    pub fn duplicate(&self) -> (r: Rule)
        ensures
            r@ == self@,
    {
        Rule {
            action: self.action,
            pattern: string_from(self.pattern.as_str()),
            anchored: self.anchored,
            dir_only: self.dir_only,
        }
    }
}

/// Whether `p` holds two consecutive `*`.
pub fn double_star(p: &[char]) -> (b: bool)
    ensures
        b == has_double_star(p@),
{
    let mut i: usize = 0;
    while i < p.len() && i + 1 < p.len()
        invariant
            i <= p.len(),
            forall|k: int| #![trigger p@[k]] 0 <= k < i && k + 1 < p@.len() ==> !(p@[k] == '*' && p@[k + 1] == '*'),
        decreases p.len() - i,
    {
        if p[i] == '*' && p[i + 1] == '*' {
            return true;
        }
        i = i + 1;
    }
    false
}

/// Whether some `/`-separated piece of `s` is empty.
fn empty_segment(s: &[char]) -> (b: bool)
    ensures
        b == has_empty_segment(s@),
{
    let parts = split_chars(s, '/');
    let mut k: usize = 0;
    while k < parts.len()
        invariant
            views(parts@) == split(s@, '/'),
            forall|j: int| 0 <= j < k ==> split(s@, '/')[j].len() != 0,
        decreases parts.len() - k,
    {
        assert(views(parts@)[k as int] == parts@[k as int]@);
        if parts[k].len() == 0 {
            return true;
        }
        k = k + 1;
    }
    false
}

/// Parse a raw pattern string into a [`Rule`] with the given action.
pub fn parse_rule(action: RuleAction, pat: &str) -> (r: Result<Rule>)
    ensures
        match r {
            Ok(rule) => parse_rule_spec(action, pat@) == Some(rule@),
            Err(e) => parse_rule_spec(action, pat@) is None && e is Selection,
        },
{
    let v = chars_of(pat);
    parse_rule_chars(action, &v)
}

fn parse_rule_chars(action: RuleAction, pat: &[char]) -> (r: Result<Rule>)
    ensures
        match r {
            Ok(rule) => parse_rule_spec(action, pat@) == Some(rule@),
            Err(e) => parse_rule_spec(action, pat@) is None && e is Selection,
        },
{
    let p = trim_chars(pat);
    if p.len() == 0 {
        return Err(Error::Selection(string_from("empty filter pattern")));
    }
    let dir_only = p[p.len() - 1] == '/';
    let s1 = if dir_only {
        strip_trailing_chars(&p, '/')
    } else {
        p
    };
    let anchored = s1.len() > 0 && s1[0] == '/';
    let s2 = strip_leading_chars(&s1, '/');
    if s2.len() == 0 {
        return Err(Error::Selection(string_from("invalid filter pattern (empty after strip)")));
    }
    let s3 = replace_chars(&s2, '\\', '/');
    if empty_segment(&s3) {
        return Err(Error::Selection(string_from("invalid filter pattern (empty segment)")));
    }
    Ok(Rule { action, pattern: string_of(&s3), anchored, dir_only })
}

/// Keyword (lower-case ASCII) followed by white space and a non-empty rest.
fn strip_keyword(line: &[char], kw: &[char]) -> (r: Option<Vec<char>>)
    ensures
        match r {
            Some(rest) => strip_keyword_spec(line@, kw@) == Some(rest@),
            None => strip_keyword_spec(line@, kw@) is None,
        },
{
    if line.len() < kw.len() {
        return None;
    }
    let head = slice_of(line, 0, kw.len());
    let lh = lower_chars(&head);
    if !eq_chars(&lh, kw) {
        return None;
    }
    let rest = slice_of(line, kw.len(), line.len());
    assert(rest@ == line@.skip(kw@.len() as int));
    if rest.len() == 0 || !is_ws_char(rest[0]) {
        return None;
    }
    let t = trim_start_vec(&rest);
    if t.len() == 0 {
        return None;
    }
    Some(t)
}

/// `v` with leading white space removed.
pub fn trim_start_vec(v: &[char]) -> (r: Vec<char>)
    ensures
        r@ == trim_start(v@),
{
    let mut i: usize = 0;
    assert(v@.skip(0) == v@);
    while i < v.len() && is_ws_char(v[i])
        invariant
            i <= v.len(),
            trim_start(v@) == trim_start(v@.skip(i as int)),
        decreases v.len() - i,
    {
        assert(v@.skip(i as int).drop_first() == v@.skip(i + 1));
        i = i + 1;
    }
    let r = slice_of(v, i, v.len());
    assert(r@ == v@.skip(i as int));
    r
}

fn kw_include_vec() -> (v: Vec<char>)
    ensures
        v@ == kw_include(),
{
    let v = vec!['i', 'n', 'c', 'l', 'u', 'd', 'e'];
    assert(v@ == kw_include());
    v
}

fn kw_exclude_vec() -> (v: Vec<char>)
    ensures
        v@ == kw_exclude(),
{
    let v = vec!['e', 'x', 'c', 'l', 'u', 'd', 'e'];
    assert(v@ == kw_exclude());
    v
}

pub proof fn lemma_trim_idempotent(s: Seq<char>)
    ensures
        trim(trim(s)) == trim(s),
    decreases s.len(),
{
    lemma_trim_start_fix(s);
    lemma_trim_start_of_trim_end(trim_start(s));
    lemma_trim_end_fix(trim_start(s));
}

proof fn lemma_trim_start_fix(s: Seq<char>)
    ensures
        trim_start(trim_start(s)) == trim_start(s),
        trim_start(s).len() > 0 ==> !is_ws(trim_start(s)[0]),
    decreases s.len(),
{
    if s.len() > 0 && is_ws(s[0]) {
        lemma_trim_start_fix(s.drop_first());
    }
}

proof fn lemma_trim_end_fix(s: Seq<char>)
    ensures
        trim_end(trim_end(s)) == trim_end(s),
        trim_end(s).len() > 0 ==> !is_ws(trim_end(s).last()),
        trim_end(s).len() <= s.len(),
        trim_end(s) == s.take(trim_end(s).len() as int),
    decreases s.len(),
{
    if s.len() > 0 && is_ws(s.last()) {
        lemma_trim_end_fix(s.drop_last());
        assert(s.drop_last().take(trim_end(s).len() as int) == s.take(trim_end(s).len() as int));
    } else {
        assert(s.take(s.len() as int) == s);
    }
}

/// When `s` starts with a non-space, trimming its end keeps that first character.
proof fn lemma_trim_start_of_trim_end(s: Seq<char>)
    requires
        s.len() > 0 ==> !is_ws(s[0]),
    ensures
        trim_start(trim_end(s)) == trim_end(s),
{
    lemma_trim_end_fix(s);
    let t = trim_end(s);
    if t.len() > 0 {
        assert(t[0] == s[0]);
    }
}

/// Action and rest of a `+`/`-`/`include`/`exclude` line.
fn parse_filter_prefix(line0: &[char]) -> (r: Option<(RuleAction, Vec<char>)>)
    ensures
        match r {
            Some((a, rest)) => filter_prefix_spec(line0@) == Some((a, rest@)),
            None => filter_prefix_spec(line0@) is None,
        },
{
    let line = trim_chars(line0);
    if line.len() > 0 && line[0] == '+' {
        let tail = slice_of(&line, 1, line.len());
        assert(tail@ == line@.drop_first());
        let rest = trim_start_vec(&tail);
        if rest.len() == 0 {
            return None;
        }
        return Some((RuleAction::Include, rest));
    }
    if line.len() > 0 && line[0] == '-' {
        let tail = slice_of(&line, 1, line.len());
        assert(tail@ == line@.drop_first());
        let rest = trim_start_vec(&tail);
        if rest.len() == 0 {
            return None;
        }
        return Some((RuleAction::Exclude, rest));
    }
    let ki = kw_include_vec();
    if let Some(rest) = strip_keyword(&line, &ki) {
        return Some((RuleAction::Include, rest));
    }
    let ke = kw_exclude_vec();
    if let Some(rest) = strip_keyword(&line, &ke) {
        return Some((RuleAction::Exclude, rest));
    }
    None
}

/// Ordered rule list; first match wins; default action is Include.
#[derive(Debug)]
pub struct RuleSet {
    rules: Vec<Rule>,
}

impl View for RuleSet {
    type V = Seq<RuleModel>;

    closed spec fn view(&self) -> Seq<RuleModel> {
        self.rules@.map_values(|r: Rule| r@)
    }
}

impl RuleSet {
    pub fn new() -> (rs: Self)
        ensures
            rs@ == Seq::<RuleModel>::empty(),
    {
        let rs = RuleSet { rules: Vec::new() };
        assert(rs@ == Seq::<RuleModel>::empty());
        rs
    }

    /// Number of rules.
    pub fn len(&self) -> (n: usize)
        ensures
            n == self@.len(),
    {
        self.rules.len()
    }

    pub fn is_empty(&self) -> (b: bool)
        ensures
            b == (self@.len() == 0),
    {
        self.rules.len() == 0
    }

    /// Borrow ordered rules.
    pub fn rules(&self) -> (r: &[Rule])
        ensures
            r@.len() == self@.len(),
            forall|i: int| 0 <= i < r@.len() ==> #[trigger] r@[i]@ == self@[i],
    {
        self.rules.as_slice()
    }

    fn push_rule(&mut self, rule: Rule)
        ensures
            final(self)@ == old(self)@.push(rule@),
    {
        self.rules.push(rule);
        assert(self@ == old(self)@.push(rule@));
    }

    /// Append an exclude pattern.
    pub fn push_exclude(&mut self, pat: &str) -> (r: Result<()>)
        ensures
            match parse_rule_spec(RuleAction::Exclude, pat@) {
                Some(m) => r is Ok && final(self)@ == old(self)@.push(m),
                None => (r matches Err(e) && e is Selection) && final(self)@ == old(self)@,
            },
    {
        let rule = parse_rule(RuleAction::Exclude, pat)?;
        self.push_rule(rule);
        Ok(())
    }

    /// Append an include pattern.
    pub fn push_include(&mut self, pat: &str) -> (r: Result<()>)
        ensures
            match parse_rule_spec(RuleAction::Include, pat@) {
                Some(m) => r is Ok && final(self)@ == old(self)@.push(m),
                None => (r matches Err(e) && e is Selection) && final(self)@ == old(self)@,
            },
    {
        let rule = parse_rule(RuleAction::Include, pat)?;
        self.push_rule(rule);
        Ok(())
    }

    /// Parse a filter line: `+ pattern`, `- pattern`, or long `include` / `exclude`.
    /// Blank lines and `#` comments are skipped.
    pub fn push_filter_line(&mut self, line: &str) -> (r: Result<()>)
        ensures
            match filter_line_spec(line@) {
                Some(Some(m)) => r is Ok && final(self)@ == old(self)@.push(m),
                Some(None) => r is Ok && final(self)@ == old(self)@,
                None => (r matches Err(e) && e is Selection) && final(self)@ == old(self)@,
            },
    {
        let raw = chars_of(line);
        let t = trim_chars(&raw);
        if t.len() == 0 || t[0] == '#' {
            return Ok(());
        }
        proof {
            lemma_trim_idempotent(raw@);
        }
        match parse_filter_prefix(&t) {
            None => Err(Error::Selection(string_from("invalid filter line (expected +/- or include/exclude)"))),
            Some((action, rest)) => {
                let rule = parse_rule_chars(action, &rest)?;
                self.push_rule(rule);
                Ok(())
            },
        }
    }

    /// Push a bare pattern with a default action (include-from / exclude-from);
    /// a `+`/`-`/`include`/`exclude` prefix wins over `default`.
    pub fn push_from_file_line(&mut self, line: &str, default: RuleAction) -> (r: Result<()>)
        ensures
            match from_file_line_spec(line@, default) {
                Some(Some(m)) => r is Ok && final(self)@ == old(self)@.push(m),
                Some(None) => r is Ok && final(self)@ == old(self)@,
                None => (r matches Err(e) && e is Selection) && final(self)@ == old(self)@,
            },
    {
        let raw = chars_of(line);
        let t = trim_chars(&raw);
        if t.len() == 0 || t[0] == '#' {
            return Ok(());
        }
        proof {
            lemma_trim_idempotent(raw@);
        }
        let rule = match parse_filter_prefix(&t) {
            Some((action, rest)) => parse_rule_chars(action, &rest)?,
            None => {
                proof {
                    lemma_trim_idempotent(raw@);
                }
                let r = parse_rule_chars(default, &t);
                proof {
                    assert(trim(t@) == t@);
                }
                r?
            },
        };
        self.push_rule(rule);
        Ok(())
    }
}

} // verus!
