//! Compact soft-skip / soft-warn summary for create: per kind, a count and a
//! few short samples, rendered as one line per kind.

use crate::text::{chars_of, string_of, trim, trim_chars, truncate_to_bytes, fit_count, utf8};
use vstd::prelude::*;

verus! {

/// Max path/name samples kept per soft-skip kind (then "+N more").
pub const SOFT_SKIP_SAMPLE_MAX: usize = 5;

/// Longest sample kept, in UTF-8 bytes.
pub const SAMPLE_MAX_BYTES: usize = 64;

/// Soft event kinds aggregated during create.
#[derive(Debug, Clone, Copy, PartialEq, Eq, Hash, Structural)]
pub enum SoftKind {
    /// Member path vanished / unreadable at walk, open, or encode.
    Vanished,
    /// Hard-link member dropped because target body was not written.
    Hardlink,
    /// Member short-read / mid-read pad with zeros (tar / seekable).
    Padded,
    /// `--files-from` line soft-skipped.
    FilesFrom,
    /// Multi-SRC missing root soft-skipped.
    MissingSrc,
    /// Invalid restriction-list line ignored.
    Config,
}

pub open spec fn label_spec(k: SoftKind) -> Seq<char> {
    match k {
        SoftKind::Vanished => "vanished"@,
        SoftKind::Hardlink => "hardlink"@,
        SoftKind::Padded => "padded"@,
        SoftKind::FilesFrom => "files-from"@,
        SoftKind::MissingSrc => "missing-src"@,
        SoftKind::Config => "config"@,
    }
}

impl SoftKind {
    /// The kind's name in the summary.
    pub fn label(self) -> (s: &'static str)
        ensures
            s@ == label_spec(self),
    {
        match self {
            SoftKind::Vanished => "vanished",
            SoftKind::Hardlink => "hardlink",
            SoftKind::Padded => "padded",
            SoftKind::FilesFrom => "files-from",
            SoftKind::MissingSrc => "missing-src",
            SoftKind::Config => "config",
        }
    }
}

/// What follows the last `/` or `\` of `t` (all of `t` when it has none).
pub open spec fn last_piece(t: Seq<char>) -> Seq<char>
    decreases t.len(),
{
    if t.len() == 0 {
        t
    } else if t.last() == '/' || t.last() == '\\' {
        Seq::empty()
    } else {
        last_piece(t.drop_last()).push(t.last())
    }
}

/// The text a sample is taken from: the trimmed sample, or its last path
/// component when that is at least 8 bytes and shorter than the whole.
pub open spec fn sample_pick(s: Seq<char>) -> Seq<char> {
    let t = trim(s);
    let base = last_piece(t);
    if utf8(base).len() >= 8 && utf8(base).len() < utf8(t).len() {
        base
    } else {
        t
    }
}

/// A sample that can be shortened: it fits in 64 bytes, or its 63rd byte ends
/// a character.
pub open spec fn sample_ok(s: Seq<char>) -> bool {
    let u = sample_pick(s);
    utf8(u).len() <= 64 || utf8(u.take(fit_count(u, 63) as int)).len() == 63
}

/// A compacted sample: empty for a blank one; else the picked text, cut to
/// 63 bytes and followed by `…` when longer than 64 bytes.
pub open spec fn compact_spec(s: Seq<char>) -> Seq<char> {
    let u = sample_pick(s);
    if trim(s).len() == 0 {
        Seq::empty()
    } else if utf8(u).len() <= 64 {
        u
    } else {
        u.take(fit_count(u, 63) as int).push('…')
    }
}

fn last_piece_chars(t: &[char]) -> (r: Vec<char>)
    ensures
        r@ == last_piece(t@),
{
    let mut j: usize = t.len();
    assert(t@.take(j as int) =~= t@);
    assert(t@.skip(j as int) =~= Seq::<char>::empty());
    assert(last_piece(t@) + Seq::<char>::empty() =~= last_piece(t@));
    while j > 0 && t[j - 1] != '/' && t[j - 1] != '\\'
        invariant
            j <= t.len(),
            last_piece(t@) == last_piece(t@.take(j as int)) + t@.skip(j as int),
        decreases j,
    {
        let ghost tj = t@.take(j as int);
        assert(tj.drop_last() =~= t@.take(j - 1));
        assert(t@.skip(j - 1) =~= seq![t@[j - 1]] + t@.skip(j as int));
        assert(last_piece(tj) == last_piece(t@.take(j - 1)).push(t@[j - 1]));
        assert(last_piece(t@.take(j - 1)).push(t@[j - 1]) + t@.skip(j as int) =~= last_piece(t@.take(j - 1)) + t@.skip(
            j - 1,
        ));
        j = j - 1;
    }
    proof {
        assert(last_piece(t@.take(j as int)) =~= Seq::<char>::empty()) by {
            if j > 0 {
                assert(t@.take(j as int).last() == t@[j - 1]);
            }
        }
    }
    crate::text::slice_of(t, j, t.len())
}

/// Compact a sample for the summary (see [`compact_spec`]).
pub fn compact_sample(s: &str) -> (r: String)
    requires
        sample_ok(s@),
    ensures
        r@ == compact_spec(s@),
{
    let v = chars_of(s);
    let t = trim_chars(&v);
    if t.len() == 0 {
        return String::new();
    }
    let base = last_piece_chars(&t);
    let bs = string_of(&base);
    let ts = string_of(&t);
    let bl = bs.as_str().as_bytes().len();
    let tl = ts.as_str().as_bytes().len();
    let u = if bl >= 8 && bl < tl {
        base
    } else {
        t
    };
    let us = string_of(&u);
    if us.as_str().as_bytes().len() <= SAMPLE_MAX_BYTES {
        return us;
    }
    let mut cut = truncate_to_bytes(&u, SAMPLE_MAX_BYTES - 1);
    cut.push('…');
    string_of(&cut)
}


/// Whether [`compact_sample`] can shorten `s` (see [`sample_ok`]).
pub fn sample_fits(s: &str) -> (b: bool)
    ensures
        b == sample_ok(s@),
{
    let v = chars_of(s);
    let t = trim_chars(&v);
    let base = last_piece_chars(&t);
    let bs = string_of(&base);
    let ts = string_of(&t);
    let bl = bs.as_str().as_bytes().len();
    let tl = ts.as_str().as_bytes().len();
    let u = if bl >= 8 && bl < tl {
        base
    } else {
        t
    };
    let us = string_of(&u);
    if us.as_str().as_bytes().len() <= SAMPLE_MAX_BYTES {
        return true;
    }
    let cut = truncate_to_bytes(&u, SAMPLE_MAX_BYTES - 1);
    let cs = string_of(&cut);
    cs.as_str().as_bytes().len() == SAMPLE_MAX_BYTES - 1
}

/// Decimal digits of `n`.
pub open spec fn dec_str(n: nat) -> Seq<char>
    decreases n,
{
    if n < 10 {
        seq![(48 + n) as char]
    } else {
        dec_str(n / 10).push((48 + n % 10) as char)
    }
}

/// Decimal digits of `n`.
pub fn dec_chars(n: u64) -> (v: Vec<char>)
    ensures
        v@ == dec_str(n as nat),
    decreases n,
{
    let d = (48 + (n % 10) as u8) as char;
    if n < 10 {
        let v = vec![d];
        assert(v@ =~= dec_str(n as nat));
        v
    } else {
        let mut v = dec_chars(n / 10);
        v.push(d);
        v
    }
}

/// Count and samples of one kind.
#[derive(Debug, Clone)]
struct Bucket {
    count: u64,
    samples: Vec<String>,
}

pub open spec fn sample_views(v: Seq<String>) -> Seq<Seq<char>> {
    v.map_values(|s: String| s@)
}

/// Samples joined with `, `.
pub open spec fn join_samples(ss: Seq<Seq<char>>) -> Seq<char>
    decreases ss.len(),
{
    if ss.len() == 0 {
        Seq::empty()
    } else if ss.len() == 1 {
        ss[0]
    } else {
        join_samples(ss.drop_last()) + ", "@ + ss.last()
    }
}

/// One summary line: `skip: <kind> <count>`, then `: ` and the samples, then
/// ` … (+N)` for the events without a sample.
pub open spec fn line_spec(k: SoftKind, count: u64, samples: Seq<Seq<char>>) -> Seq<char> {
    let head = "skip: "@ + label_spec(k) + " "@ + dec_str(count as nat);
    if samples.len() == 0 {
        head
    } else {
        let body = head + ": "@ + join_samples(samples);
        if count > samples.len() {
            body + " … (+"@ + dec_str((count - samples.len()) as nat) + ")"@
        } else {
            body
        }
    }
}

fn push_str(v: &mut Vec<char>, s: &str)
    ensures
        final(v)@ == old(v)@ + s@,
{
    let w = chars_of(s);
    let ghost v0 = v@;
    let mut i: usize = 0;
    while i < w.len()
        invariant
            i <= w.len(),
            v@ == v0 + w@.take(i as int),
        decreases w.len() - i,
    {
        v.push(w[i]);
        i = i + 1;
        assert(v@ =~= v0 + w@.take(i as int));
    }
    assert(w@.take(w.len() as int) =~= w@);
}

fn push_chars(v: &mut Vec<char>, w: &[char])
    ensures
        final(v)@ == old(v)@ + w@,
{
    let ghost v0 = v@;
    let mut i: usize = 0;
    while i < w.len()
        invariant
            i <= w.len(),
            v@ == v0 + w@.take(i as int),
        decreases w.len() - i,
    {
        v.push(w[i]);
        i = i + 1;
        assert(v@ =~= v0 + w@.take(i as int));
    }
    assert(w@.take(w.len() as int) =~= w@);
}

impl Bucket {
    spec fn samples_spec(&self) -> Seq<Seq<char>> {
        sample_views(self.samples@)
    }

    fn note(&mut self, sample: &str)
        requires
            old(self).samples@.len() < SOFT_SKIP_SAMPLE_MAX ==> sample_ok(sample@),
        ensures
            final(self).count == (if old(self).count == u64::MAX { u64::MAX } else { (old(self).count + 1) as u64 }),
            final(self).samples_spec() == (if old(self).samples@.len() < SOFT_SKIP_SAMPLE_MAX && compact_spec(
                sample@,
            ).len() > 0 {
                old(self).samples_spec().push(compact_spec(sample@))
            } else {
                old(self).samples_spec()
            }),
    {
        self.count = self.count.saturating_add(1);
        if self.samples.len() < SOFT_SKIP_SAMPLE_MAX {
            let s = compact_sample(sample);
            if s.as_str().unicode_len() > 0 {
                let ghost s0 = self.samples_spec();
                self.samples.push(s);
                assert(self.samples_spec() =~= s0.push(compact_spec(sample@)));
            }
        }
    }

    fn format_line(&self, kind: SoftKind) -> (s: String)
        ensures
            s@ == line_spec(kind, self.count, self.samples_spec()),
    {
        let mut out: Vec<char> = Vec::new();
        push_str(&mut out, "skip: ");
        push_str(&mut out, kind.label());
        push_str(&mut out, " ");
        let c = dec_chars(self.count);
        push_chars(&mut out, &c);
        let ghost head = out@;
        assert(head =~= "skip: "@ + label_spec(kind) + " "@ + dec_str(self.count as nat));
        if self.samples.len() > 0 {
            push_str(&mut out, ": ");
            let ghost h2 = out@;
            let ghost ss = self.samples_spec();
            let mut i: usize = 0;
            while i < self.samples.len()
                invariant
                    i <= self.samples.len(),
                    ss == sample_views(self.samples@),
                    self.samples.len() > 0,
                    i == 0 ==> out@ == h2,
                    i > 0 ==> out@ == h2 + join_samples(ss.take(i as int)),
                decreases self.samples.len() - i,
            {
                assert(ss.take(i + 1).drop_last() =~= ss.take(i as int));
                assert(ss[i as int] == self.samples@[i as int]@);
                if i > 0 {
                    push_str(&mut out, ", ");
                }
                let ghost before = out@;
                push_str(&mut out, self.samples[i].as_str());
                proof {
                    if i == 0 {
                        assert(ss.take(1) =~= seq![ss[0]]);
                        assert(out@ =~= h2 + join_samples(ss.take(1)));
                    } else {
                        assert(out@ =~= h2 + join_samples(ss.take(i + 1)));
                    }
                }
                i = i + 1;
            }
            assert(ss.take(self.samples.len() as int) =~= ss);
            let shown = self.samples.len() as u64;
            if self.count > shown {
                push_str(&mut out, " … (+");
                let m = dec_chars(self.count - shown);
                push_chars(&mut out, &m);
                push_str(&mut out, ")");
            }
        }
        string_of(&out)
    }
}

/// Aggregator for soft skips during one create.
#[derive(Debug, Clone)]
pub struct SoftSkipLog {
    vanished: Bucket,
    hardlink: Bucket,
    padded: Bucket,
    files_from: Bucket,
    missing_src: Bucket,
    config: Bucket,
}

/// Kinds in summary order.
pub open spec fn kind_at(i: int) -> SoftKind {
    if i == 0 {
        SoftKind::Vanished
    } else if i == 1 {
        SoftKind::Hardlink
    } else if i == 2 {
        SoftKind::Padded
    } else if i == 3 {
        SoftKind::FilesFrom
    } else if i == 4 {
        SoftKind::MissingSrc
    } else {
        SoftKind::Config
    }
}

impl SoftSkipLog {
    spec fn bucket(&self, k: SoftKind) -> Bucket {
        match k {
            SoftKind::Vanished => self.vanished,
            SoftKind::Hardlink => self.hardlink,
            SoftKind::Padded => self.padded,
            SoftKind::FilesFrom => self.files_from,
            SoftKind::MissingSrc => self.missing_src,
            SoftKind::Config => self.config,
        }
    }

    /// Events noted for `k`.
    pub closed spec fn count_of(&self, k: SoftKind) -> u64 {
        self.bucket(k).count
    }

    /// Samples kept for `k`.
    pub closed spec fn samples_of(&self, k: SoftKind) -> Seq<Seq<char>> {
        self.bucket(k).samples_spec()
    }

    /// Each kind keeps at most [`SOFT_SKIP_SAMPLE_MAX`] samples, and never
    /// more samples than events noted.
    pub open spec fn wf(&self) -> bool {
        forall|k: SoftKind|
            #![trigger self.samples_of(k)]
            self.samples_of(k).len() <= SOFT_SKIP_SAMPLE_MAX && self.samples_of(k).len() <= self.count_of(k)
    }

    /// A log with nothing noted.
    pub fn new() -> (l: Self)
        ensures
            forall|k: SoftKind| l.count_of(k) == 0 && l.samples_of(k) == Seq::<Seq<char>>::empty(),
            l.wf(),
    {
        let l = SoftSkipLog {
            vanished: Bucket { count: 0, samples: Vec::new() },
            hardlink: Bucket { count: 0, samples: Vec::new() },
            padded: Bucket { count: 0, samples: Vec::new() },
            files_from: Bucket { count: 0, samples: Vec::new() },
            missing_src: Bucket { count: 0, samples: Vec::new() },
            config: Bucket { count: 0, samples: Vec::new() },
        };
        assert forall|k: SoftKind| l.count_of(k) == 0 && l.samples_of(k) == Seq::<Seq<char>>::empty() by {
            assert(l.samples_of(k) =~= Seq::<Seq<char>>::empty());
        }
        l
    }

    /// Note one event of `kind`: its count grows by one (held at `u64::MAX`)
    /// and, while fewer than [`SOFT_SKIP_SAMPLE_MAX`] are kept, the compacted
    /// sample is kept when not blank. Other kinds are unchanged.
    pub fn note(&mut self, kind: SoftKind, sample: &str)
        requires
            old(self).samples_of(kind).len() < SOFT_SKIP_SAMPLE_MAX ==> sample_ok(sample@),
        ensures
            final(self).count_of(kind) == (if old(self).count_of(kind) == u64::MAX {
                u64::MAX
            } else {
                (old(self).count_of(kind) + 1) as u64
            }),
            final(self).samples_of(kind) == (if old(self).samples_of(kind).len() < SOFT_SKIP_SAMPLE_MAX
                && compact_spec(sample@).len() > 0 {
                old(self).samples_of(kind).push(compact_spec(sample@))
            } else {
                old(self).samples_of(kind)
            }),
            forall|k: SoftKind|
                k != kind ==> final(self).count_of(k) == old(self).count_of(k) && final(self).samples_of(k)
                    == old(self).samples_of(k),
            old(self).wf() ==> final(self).wf(),
    {
        match kind {
            SoftKind::Vanished => self.vanished.note(sample),
            SoftKind::Hardlink => self.hardlink.note(sample),
            SoftKind::Padded => self.padded.note(sample),
            SoftKind::FilesFrom => self.files_from.note(sample),
            SoftKind::MissingSrc => self.missing_src.note(sample),
            SoftKind::Config => self.config.note(sample),
        }
        proof {
            if old(self).wf() {
                assert forall|k: SoftKind| #![trigger self.samples_of(k)]
                    self.samples_of(k).len() <= SOFT_SKIP_SAMPLE_MAX && self.samples_of(k).len() <= self.count_of(k) by {
                    assert(old(self).samples_of(k).len() <= SOFT_SKIP_SAMPLE_MAX);
                    assert(old(self).samples_of(k).len() <= old(self).count_of(k));
                }
            }
        }
    }

    /// Events noted for `kind`.
    pub fn count(&self, kind: SoftKind) -> (c: u64)
        ensures
            c == self.count_of(kind),
    {
        match kind {
            SoftKind::Vanished => self.vanished.count,
            SoftKind::Hardlink => self.hardlink.count,
            SoftKind::Padded => self.padded.count,
            SoftKind::FilesFrom => self.files_from.count,
            SoftKind::MissingSrc => self.missing_src.count,
            SoftKind::Config => self.config.count,
        }
    }

    /// Number of samples kept for `kind`.
    pub fn sample_count(&self, kind: SoftKind) -> (n: usize)
        ensures
            n == self.samples_of(kind).len(),
    {
        match kind {
            SoftKind::Vanished => self.vanished.samples.len(),
            SoftKind::Hardlink => self.hardlink.samples.len(),
            SoftKind::Padded => self.padded.samples.len(),
            SoftKind::FilesFrom => self.files_from.samples.len(),
            SoftKind::MissingSrc => self.missing_src.samples.len(),
            SoftKind::Config => self.config.samples.len(),
        }
    }

    /// Forget everything noted.
    pub fn clear(&mut self)
        ensures
            forall|k: SoftKind| final(self).count_of(k) == 0 && final(self).samples_of(k) == Seq::<Seq<char>>::empty(),
            final(self).wf(),
    {
        *self = SoftSkipLog::new();
    }

    /// Events noted over all kinds.
    pub fn total(&self) -> (t: u64)
        requires
            self.count_of(SoftKind::Vanished) + self.count_of(SoftKind::Hardlink) + self.count_of(SoftKind::Padded)
                + self.count_of(SoftKind::FilesFrom) + self.count_of(SoftKind::MissingSrc) + self.count_of(
                SoftKind::Config,
            ) <= u64::MAX,
        ensures
            t == self.count_of(SoftKind::Vanished) + self.count_of(SoftKind::Hardlink) + self.count_of(SoftKind::Padded)
                + self.count_of(SoftKind::FilesFrom) + self.count_of(SoftKind::MissingSrc) + self.count_of(
                SoftKind::Config,
            ),
    {
        self.vanished.count + self.hardlink.count + self.padded.count + self.files_from.count + self.missing_src.count
            + self.config.count
    }

    /// The summary lines, one per kind with events, in kind order.
    pub fn format_lines(&self) -> (out: Vec<String>)
        ensures
            sample_views(out@) == summary_spec(*self, 6),
    {
        let mut out: Vec<String> = Vec::new();
        let kinds = [
            SoftKind::Vanished,
            SoftKind::Hardlink,
            SoftKind::Padded,
            SoftKind::FilesFrom,
            SoftKind::MissingSrc,
            SoftKind::Config,
        ];
        let mut i: usize = 0;
        while i < 6
            invariant
                i <= 6,
                kinds@ == seq![kind_at(0), kind_at(1), kind_at(2), kind_at(3), kind_at(4), kind_at(5)],
                sample_views(out@) == summary_spec(*self, i as int),
            decreases 6 - i,
        {
            let k = kinds[i];
            assert(k == kind_at(i as int));
            let b = match k {
                SoftKind::Vanished => &self.vanished,
                SoftKind::Hardlink => &self.hardlink,
                SoftKind::Padded => &self.padded,
                SoftKind::FilesFrom => &self.files_from,
                SoftKind::MissingSrc => &self.missing_src,
                SoftKind::Config => &self.config,
            };
            if b.count != 0 {
                let line = b.format_line(k);
                let ghost o0 = sample_views(out@);
                out.push(line);
                assert(sample_views(out@) =~= o0.push(line@));
            }
            i = i + 1;
        }
        out
    }
}

/// Summary lines for the first `n` kinds.
pub open spec fn summary_spec(l: SoftSkipLog, n: int) -> Seq<Seq<char>>
    decreases n,
{
    if n <= 0 {
        Seq::empty()
    } else {
        let k = kind_at(n - 1);
        let r = summary_spec(l, n - 1);
        if l.count_of(k) != 0 {
            r.push(line_spec(k, l.count_of(k), l.samples_of(k)))
        } else {
            r
        }
    }
}

impl Default for SoftSkipLog {
    fn default() -> (l: Self)
        ensures
            forall|k: SoftKind| l.count_of(k) == 0 && l.samples_of(k) == Seq::<Seq<char>>::empty(),
    {
        SoftSkipLog::new()
    }
}

} // verus!
