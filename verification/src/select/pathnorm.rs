//! Path normalization for archive member names and filter paths.
//!
//! All archive-relative paths use `/` separators, no leading `/`, and reject `..`.
//! Paths are handled as their UTF-8 text.

use crate::error::{Error, Result};
use crate::text::{
    chars_of, contains_char, eq_chars, join, join_chars, lemma_join_first, lemma_join_lacks,
    lemma_replace_absent, lemma_split_join, lemma_split_len, lemma_split_pieces, replace_char,
    replace_chars, split, split_chars, string_from, string_of, trim, trim_chars, views,
};
use vstd::prelude::*;

verus! {

pub open spec fn dot() -> Seq<char> {
    seq!['.']
}

pub open spec fn dotdot() -> Seq<char> {
    seq!['.', '.']
}

/// Pieces kept by normalization (not empty, not `.`), in order.
pub open spec fn kept_segments(parts: Seq<Seq<char>>) -> Seq<Seq<char>>
    decreases parts.len(),
{
    if parts.len() == 0 {
        Seq::<Seq<char>>::empty()
    } else {
        let k = kept_segments(parts.drop_last());
        let p = parts.last();
        if p.len() == 0 || p == dot() {
            k
        } else {
            k.push(p)
        }
    }
}

/// Whether some piece is `..`.
pub open spec fn has_dotdot(parts: Seq<Seq<char>>) -> bool {
    exists|k: int| 0 <= k < parts.len() && #[trigger] parts[k] == dotdot()
}

/// `/`-pieces of `s` after `\` → `/`.
pub open spec fn norm_parts(s: Seq<char>) -> Seq<Seq<char>> {
    split(replace_char(s, '\\', '/'), '/')
}

/// Outcome class of [`normalize_archive_str`].
pub enum NormOutcome {
    Normal(Seq<char>),
    Traversal,
    Empty,
}

/// Normalized archive path: `\` → `/`, drop empty and `.` pieces, reject `..`,
/// reject an empty result.
pub open spec fn normalize_spec(s: Seq<char>) -> NormOutcome {
    let parts = norm_parts(s);
    if has_dotdot(parts) {
        NormOutcome::Traversal
    } else if kept_segments(parts).len() == 0 {
        NormOutcome::Empty
    } else {
        NormOutcome::Normal(join(kept_segments(parts), seq!['/']))
    }
}

/// Whether a result of `normalize_archive_str` matches its specification.
pub open spec fn norm_result(s: Seq<char>, r: Result<String>) -> bool {
    match normalize_spec(s) {
        NormOutcome::Normal(n) => r matches Ok(v) && v@ == n,
        NormOutcome::Traversal => r matches Err(e) && e is PathTraversal,
        NormOutcome::Empty => r matches Err(e) && e is InvalidMemberName,
    }
}

fn is_dot_vec(p: &[char]) -> (b: bool)
    ensures
        b == (p@ == dot()),
{
    let r = p.len() == 1 && p[0] == '.';
    proof {
        if p@.len() == 1 && p@[0] == '.' {
            assert(p@ == dot());
        }
    }
    r
}

fn is_dotdot_vec(p: &[char]) -> (b: bool)
    ensures
        b == (p@ == dotdot()),
{
    let r = p.len() == 2 && p[0] == '.' && p[1] == '.';
    proof {
        if p@.len() == 2 && p@[0] == '.' && p@[1] == '.' {
            assert(p@ == dotdot());
        }
    }
    r
}

/// Same as [`normalize_archive_str`]; the path is given as its UTF-8 text.
pub fn normalize_archive_path(path: &str) -> (r: Result<String>)
    ensures
        norm_result(path@, r),
{
    normalize_archive_str(path)
}

/// Normalize a path for use as an archive member name.
pub fn normalize_archive_str(s: &str) -> (r: Result<String>)
    ensures
        norm_result(s@, r),
{
    let v = chars_of(s);
    normalize_chars(&v)
}

/// Character-level normalization.
pub fn normalize_chars(v: &[char]) -> (r: Result<String>)
    ensures
        norm_result(v@, r),
{
    let s1 = replace_chars(v, '\\', '/');
    let parts = split_chars(&s1, '/');
    let mut out: Vec<Vec<char>> = Vec::new();
    let mut k: usize = 0;
    while k < parts.len()
        invariant
            k <= parts.len(),
            views(parts@) == norm_parts(v@),
            views(out@) == kept_segments(views(parts@).take(k as int)),
            forall|j: int| 0 <= j < k ==> #[trigger] views(parts@)[j] != dotdot(),
        decreases parts.len() - k,
    {
        let ghost pre = views(parts@).take(k as int);
        assert(views(parts@).take(k + 1).drop_last() == pre);
        assert(views(parts@).take(k + 1).last() == parts@[k as int]@);
        let p = &parts[k];
        if is_dotdot_vec(p) {
            assert(views(parts@)[k as int] == dotdot());
            return Err(Error::PathTraversal(string_from("path contains '..'")));
        }
        if !(p.len() == 0 || is_dot_vec(p)) {
            out.push(clone_chars(p));
        }
        k = k + 1;
    }
    assert(views(parts@).take(parts.len() as int) == views(parts@));
    if out.len() == 0 {
        return Err(Error::InvalidMemberName(string_from("normalized path is empty")));
    }
    let joined = join_chars(&out, '/');
    Ok(string_of(&joined))
}

/// A copy of a character vector.
pub fn clone_chars(v: &[char]) -> (r: Vec<char>)
    ensures
        r@ == v@,
{
    let r = crate::text::slice_of(v, 0, v.len());
    assert(v@.subrange(0, v@.len() as int) == v@);
    r
}

/// Outcome of [`normalize_prefix`]: `None` = rejected.
pub open spec fn prefix_spec(prefix: Seq<char>) -> Option<NormOutcome> {
    let t = trim(prefix);
    if t.len() == 0 {
        Some(NormOutcome::Normal(Seq::<char>::empty()))
    } else if t[0] == '/' || t[0] == '\\' || (t.len() >= 2 && t[1] == ':') {
        None
    } else {
        match normalize_spec(t) {
            NormOutcome::Normal(n) => Some(NormOutcome::Normal(n.push('/'))),
            other => Some(other),
        }
    }
}

/// Normalize an optional embed/create prefix: relative, no `..`, trailing `/`.
/// Empty input gives the empty prefix.
pub fn normalize_prefix(prefix: &str) -> (r: Result<String>)
    ensures
        match prefix_spec(prefix@) {
            None => r matches Err(e) && e is InvalidMemberName,
            Some(NormOutcome::Normal(n)) => r matches Ok(v) && v@ == n,
            Some(NormOutcome::Traversal) => r matches Err(e) && e is PathTraversal,
            Some(NormOutcome::Empty) => r matches Err(e) && e is InvalidMemberName,
        },
{
    let raw = chars_of(prefix);
    let t = trim_chars(&raw);
    if t.len() == 0 {
        return Ok(String::new());
    }
    if t[0] == '/' || t[0] == '\\' || (t.len() >= 2 && t[1] == ':') {
        return Err(Error::InvalidMemberName(string_from("prefix must be relative")));
    }
    let n = normalize_chars(&t)?;
    let mut nv = chars_of(n.as_str());
    nv.push('/');
    Ok(string_of(&nv))
}

/// Outcome of [`join_archive_name`].
pub open spec fn join_name_spec(prefix: Seq<char>, base: Seq<char>) -> NormOutcome {
    if base.len() == 0 || base == dot() || base == dotdot() {
        NormOutcome::Empty
    } else if has_dotdot(split(base, '/')) {
        NormOutcome::Traversal
    } else if prefix.len() == 0 {
        NormOutcome::Normal(base)
    } else if prefix.last() == '/' {
        normalize_spec(prefix + base)
    } else {
        normalize_spec(prefix.push('/') + base)
    }
}

fn has_dotdot_piece(parts: &Vec<Vec<char>>) -> (b: bool)
    ensures
        b == has_dotdot(views(parts@)),
{
    let mut k: usize = 0;
    while k < parts.len()
        invariant
            k <= parts.len(),
            forall|j: int| 0 <= j < k ==> #[trigger] views(parts@)[j] != dotdot(),
        decreases parts.len() - k,
    {
        if is_dotdot_vec(&parts[k]) {
            assert(views(parts@)[k as int] == dotdot());
            return true;
        }
        k = k + 1;
    }
    false
}

/// Join prefix (may be empty or end with `/`) and base member name.
pub fn join_archive_name(prefix: &str, base: &str) -> (r: Result<String>)
    ensures
        match join_name_spec(prefix@, base@) {
            NormOutcome::Normal(n) => r matches Ok(v) && v@ == n,
            NormOutcome::Traversal => r matches Err(e) && e is PathTraversal,
            NormOutcome::Empty => r matches Err(e) && e is InvalidMemberName,
        },
{
    let b = chars_of(base);
    if b.len() == 0 || is_dot_vec(&b) || is_dotdot_vec(&b) {
        return Err(Error::InvalidMemberName(string_from("invalid base name")));
    }
    let pieces = split_chars(&b, '/');
    if has_dotdot_piece(&pieces) {
        return Err(Error::PathTraversal(string_from("member base contains '..'")));
    }
    let mut p = chars_of(prefix);
    if p.len() == 0 {
        return Ok(string_of(&b));
    }
    if p[p.len() - 1] != '/' {
        p.push('/');
    }
    let ghost p0 = p@;
    let mut i: usize = 0;
    while i < b.len()
        invariant
            i <= b.len(),
            p@ == p0 + b@.take(i as int),
        decreases b.len() - i,
    {
        p.push(b[i]);
        i = i + 1;
        assert(p@ == p0 + b@.take(i as int));
    }
    assert(b@.take(b.len() as int) == b@);
    normalize_chars(&p)
}

/// Unix `Path::file_name`: the last component unless it is `..` (or there is none).
pub open spec fn file_name_spec(path: Seq<char>) -> Option<Seq<char>> {
    let k = kept_segments(split(path, '/'));
    if k.len() == 0 || k.last() == dotdot() {
        None
    } else {
        Some(k.last())
    }
}

/// Outcome of [`basename_utf8`]: `None` = rejected as an invalid member name.
pub open spec fn basename_utf8_spec(path: Seq<char>) -> Option<Seq<char>> {
    match file_name_spec(path) {
        None => None,
        Some(n) => if n.contains('/') || n.contains('\\') {
            None
        } else {
            Some(n)
        },
    }
}

/// The `/`-pieces of `v` that are neither empty nor `.`, in order.
pub fn kept_pieces(v: &[char]) -> (out: Vec<Vec<char>>)
    ensures
        views(out@) == kept_segments(split(v@, '/')),
{
    let parts = split_chars(v, '/');
    let mut out: Vec<Vec<char>> = Vec::new();
    let mut k: usize = 0;
    while k < parts.len()
        invariant
            k <= parts.len(),
            views(parts@) == split(v@, '/'),
            views(out@) == kept_segments(views(parts@).take(k as int)),
        decreases parts.len() - k,
    {
        assert(views(parts@).take(k + 1).drop_last() == views(parts@).take(k as int));
        assert(views(parts@).take(k + 1).last() == parts@[k as int]@);
        let p = &parts[k];
        if !(p.len() == 0 || is_dot_vec(p)) {
            out.push(clone_chars(p));
        }
        k = k + 1;
    }
    assert(views(parts@).take(parts.len() as int) == views(parts@));
    out
}

/// Basename for flatten naming. Rejects `.` / `..` / empty and names holding a
/// separator.
pub fn basename_utf8(path: &str) -> (r: Result<String>)
    ensures
        match basename_utf8_spec(path@) {
            Some(n) => r matches Ok(v) && v@ == n,
            None => r matches Err(e) && e is InvalidMemberName,
        },
{
    let v = chars_of(path);
    let out = kept_pieces(&v);
    if out.len() == 0 {
        return Err(Error::InvalidMemberName(string_from("path has no basename")));
    }
    let last = &out[out.len() - 1];
    assert(views(out@).last() == last@);
    if is_dotdot_vec(last) {
        return Err(Error::InvalidMemberName(string_from("path has no basename")));
    }
    if contains_char(last, '/') || contains_char(last, '\\') {
        return Err(Error::InvalidMemberName(string_from("basename contains separator")));
    }
    Ok(string_of(last))
}

/// Outcome of [`validate_member_name`].
pub enum ValidOutcome {
    Valid,
    Invalid,
    Traversal,
}

/// A `..` or empty piece.
pub open spec fn bad_piece(p: Seq<char>) -> bool {
    p == dotdot() || p.len() == 0
}

pub open spec fn validate_spec(name: Seq<char>) -> ValidOutcome {
    if name.len() == 0 || name.contains('\0') || name[0] == '/' {
        ValidOutcome::Invalid
    } else if exists|k: int|
        0 <= k < split(name, '/').len() && #[trigger] bad_piece(split(name, '/')[k]) {
        ValidOutcome::Traversal
    } else {
        ValidOutcome::Valid
    }
}

/// Validate a final archive member name (non-empty, no NUL, no `..`, no empty
/// piece, no leading `/`).
pub fn validate_member_name(name: &str) -> (r: Result<()>)
    ensures
        match validate_spec(name@) {
            ValidOutcome::Valid => r is Ok,
            ValidOutcome::Invalid => r matches Err(e) && e is InvalidMemberName,
            ValidOutcome::Traversal => r matches Err(e) && e is PathTraversal,
        },
{
    let v = chars_of(name);
    if v.len() == 0 {
        return Err(Error::InvalidMemberName(string_from("empty member name")));
    }
    if contains_char(&v, '\0') {
        return Err(Error::InvalidMemberName(string_from("member name contains NUL")));
    }
    if v[0] == '/' {
        return Err(Error::InvalidMemberName(string_from("member name must not start with /")));
    }
    let parts = split_chars(&v, '/');
    let mut k: usize = 0;
    while k < parts.len()
        invariant
            k <= parts.len(),
            views(parts@) == split(v@, '/'),
            forall|j: int| 0 <= j < k ==> !#[trigger] bad_piece(split(v@, '/')[j]),
            v@ == name@,
            !(v@.len() == 0 || v@.contains('\0') || v@[0] == '/'),
        decreases parts.len() - k,
    {
        assert(views(parts@)[k as int] == parts@[k as int]@);
        if is_dotdot_vec(&parts[k]) || parts[k].len() == 0 {
            assert(bad_piece(split(v@, '/')[k as int]));
            return Err(Error::PathTraversal(string_from("invalid member name segments")));
        }
        k = k + 1;
    }
    Ok(())
}

/// Whether a path string ends with a path separator.
pub fn has_trailing_slash(s: &str) -> (b: bool)
    ensures
        b == (s@.len() > 0 && (s@.last() == '/' || s@.last() == '\\')),
{
    let v = chars_of(s);
    v.len() > 0 && (v[v.len() - 1] == '/' || v[v.len() - 1] == '\\')
}

/// True if any `/`-separated component is `..`.
pub fn contains_parent_dir(path: &str) -> (b: bool)
    ensures
        b == has_dotdot(split(path@, '/')),
{
    let v = chars_of(path);
    let parts = split_chars(&v, '/');
    has_dotdot_piece(&parts)
}


/// Every kept piece is non-empty, not `.`, and one of the input pieces.
proof fn lemma_kept_from(parts: Seq<Seq<char>>)
    ensures
        forall|k: int|
            #![trigger kept_segments(parts)[k]]
            0 <= k < kept_segments(parts).len() ==> kept_segments(parts)[k].len() > 0
                && kept_segments(parts)[k] != dot() && exists|j: int|
                0 <= j < parts.len() && #[trigger] parts[j] == kept_segments(parts)[k],
    decreases parts.len(),
{
    if parts.len() > 0 {
        let q = parts.drop_last();
        lemma_kept_from(q);
        let kq = kept_segments(q);
        assert forall|k: int|
            #![trigger kept_segments(parts)[k]]
            0 <= k < kept_segments(parts).len() implies kept_segments(parts)[k].len() > 0
                && kept_segments(parts)[k] != dot() && exists|j: int|
                0 <= j < parts.len() && #[trigger] parts[j] == kept_segments(parts)[k] by {
            if k < kq.len() {
                assert(kept_segments(parts)[k] == kq[k]);
                let j = choose|j: int| 0 <= j < q.len() && #[trigger] q[j] == kq[k];
                assert(parts[j] == q[j]);
            } else {
                assert(kept_segments(parts)[k] == parts.last());
                assert(parts[parts.len() - 1] == parts.last());
            }
        }
    }
}

/// Pieces that are all non-empty and not `.` are kept as they are.
proof fn lemma_kept_fixed(parts: Seq<Seq<char>>)
    requires
        forall|k: int| 0 <= k < parts.len() ==> (#[trigger] parts[k]).len() > 0 && parts[k] != dot(),
    ensures
        kept_segments(parts) == parts,
    decreases parts.len(),
{
    if parts.len() > 0 {
        let q = parts.drop_last();
        assert forall|k: int| 0 <= k < q.len() implies (#[trigger] q[k]).len() > 0 && q[k] != dot() by {
            assert(q[k] == parts[k]);
        }
        lemma_kept_fixed(q);
        assert(parts[parts.len() - 1] == parts.last());
        assert(q.push(parts.last()) == parts);
    }
}

/// Facts on the pieces of a normalized path: the kept pieces of `s` hold
/// neither separator, are non-empty, not `.` and not `..`, and hold only
/// characters of `s` other than `\`.
proof fn lemma_norm_pieces(s: Seq<char>)
    requires
        !has_dotdot(norm_parts(s)),
    ensures
        forall|k: int|
            #![trigger kept_segments(norm_parts(s))[k]]
            0 <= k < kept_segments(norm_parts(s)).len() ==> {
                let p = kept_segments(norm_parts(s))[k];
                &&& p.len() > 0
                &&& p != dot()
                &&& p != dotdot()
                &&& !p.contains('/')
                &&& !p.contains('\\')
                &&& !p.contains('\0') || s.contains('\0')
            },
{
    let r = replace_char(s, '\\', '/');
    let parts = norm_parts(s);
    lemma_split_pieces(r, '/');
    lemma_kept_from(parts);
    let kp = kept_segments(parts);
    assert forall|k: int|
        #![trigger kept_segments(norm_parts(s))[k]]
        0 <= k < kp.len() implies {
            let p = kept_segments(norm_parts(s))[k];
            &&& p.len() > 0
            &&& p != dot()
            &&& p != dotdot()
            &&& !p.contains('/')
            &&& !p.contains('\\')
            &&& !p.contains('\0') || s.contains('\0')
        } by {
        let p = kp[k];
        let j = choose|j: int| 0 <= j < parts.len() && #[trigger] parts[j] == kp[k];
        assert(!split(r, '/')[j].contains('/'));
        if p.contains('\\') {
            assert(split(r, '/')[j].contains('\\'));
            let i = choose|i: int| 0 <= i < r.len() && r[i] == '\\';
            assert(false);
        }
        if p.contains('\0') {
            assert(split(r, '/')[j].contains('\0'));
            let i = choose|i: int| 0 <= i < r.len() && r[i] == '\0';
            assert(s[i] == '\0');
        }
        if p == dotdot() {
            assert(parts[j] == dotdot());
        }
    }
}

/// Normalization is idempotent: a normalized name normalizes to itself.
pub proof fn lemma_normalize_idempotent(s: Seq<char>)
    ensures
        match normalize_spec(s) {
            NormOutcome::Normal(n) => normalize_spec(n) == NormOutcome::Normal(n),
            _ => true,
        },
{
    if normalize_spec(s) is Normal {
        let parts = norm_parts(s);
        let kp = kept_segments(parts);
        let n = join(kp, seq!['/']);
        lemma_norm_pieces(s);
        assert forall|k: int| 0 <= k < kp.len() implies !(#[trigger] kp[k]).contains('\\') by {
            assert(kept_segments(norm_parts(s))[k] == kp[k]);
        }
        assert forall|k: int| 0 <= k < kp.len() implies !(#[trigger] kp[k]).contains('/') by {
            assert(kept_segments(norm_parts(s))[k] == kp[k]);
        }
        assert forall|k: int| 0 <= k < kp.len() implies (#[trigger] kp[k]).len() > 0 && kp[k] != dot() by {
            assert(kept_segments(norm_parts(s))[k] == kp[k]);
        }
        lemma_join_lacks(kp, '/', '\\');
        lemma_replace_absent(n, '\\', '/');
        lemma_split_join(kp, '/');
        assert(norm_parts(n) == kp);
        assert(!has_dotdot(kp)) by {
            if has_dotdot(kp) {
                let k = choose|k: int| 0 <= k < kp.len() && #[trigger] kp[k] == dotdot();
                assert(kept_segments(norm_parts(s))[k] == kp[k]);
            }
        }
        lemma_kept_fixed(kp);
    }
}

/// A name normalized from text without NUL passes member-name validation.
pub proof fn lemma_normalized_is_valid(s: Seq<char>)
    requires
        !s.contains('\0'),
    ensures
        match normalize_spec(s) {
            NormOutcome::Normal(n) => validate_spec(n) == ValidOutcome::Valid,
            _ => true,
        },
{
    if normalize_spec(s) is Normal {
        let parts = norm_parts(s);
        let kp = kept_segments(parts);
        let n = join(kp, seq!['/']);
        lemma_norm_pieces(s);
        assert forall|k: int| 0 <= k < kp.len() implies !(#[trigger] kp[k]).contains('\0') by {
            assert(kept_segments(norm_parts(s))[k] == kp[k]);
        }
        assert forall|k: int| 0 <= k < kp.len() implies !(#[trigger] kp[k]).contains('/') by {
            assert(kept_segments(norm_parts(s))[k] == kp[k]);
        }
        assert(kp[0] == kept_segments(norm_parts(s))[0]);
        lemma_join_first(kp, seq!['/']);
        assert(kp[0][0] != '/') by {
            assert(kp[0].contains(kp[0][0]));
        }
        lemma_join_lacks(kp, '/', '\0');
        lemma_split_join(kp, '/');
        assert forall|k: int| 0 <= k < split(n, '/').len() implies !#[trigger] bad_piece(split(n, '/')[k]) by {
            assert(kept_segments(norm_parts(s))[k] == kp[k]);
        }
    }
}

} // verus!
