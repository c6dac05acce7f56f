//! Character-level string helpers with specifications over `Seq<char>`.

use vstd::prelude::*;

verus! {

/// Unicode `White_Space` property (the set that `char::is_whitespace` tests).
pub open spec fn is_ws(c: char) -> bool {
    let u = c as u32;
    ||| 0x09 <= u <= 0x0D
    ||| u == 0x20
    ||| u == 0x85
    ||| u == 0xA0
    ||| u == 0x1680
    ||| 0x2000 <= u <= 0x200A
    ||| u == 0x2028
    ||| u == 0x2029
    ||| u == 0x202F
    ||| u == 0x205F
    ||| u == 0x3000
}

/// Whether `c` is Unicode white space.
pub fn is_ws_char(c: char) -> (b: bool)
    ensures
        b == is_ws(c),
{
    let u = c as u32;
    (0x09 <= u && u <= 0x0D) || u == 0x20 || u == 0x85 || u == 0xA0 || u == 0x1680 || (0x2000
        <= u && u <= 0x200A) || u == 0x2028 || u == 0x2029 || u == 0x202F || u == 0x205F || u
        == 0x3000
}

/// `s` with leading white space removed.
pub open spec fn trim_start(s: Seq<char>) -> Seq<char>
    decreases s.len(),
{
    if s.len() > 0 && is_ws(s[0]) {
        trim_start(s.drop_first())
    } else {
        s
    }
}

/// `s` with trailing white space removed.
pub open spec fn trim_end(s: Seq<char>) -> Seq<char>
    decreases s.len(),
{
    if s.len() > 0 && is_ws(s.last()) {
        trim_end(s.drop_last())
    } else {
        s
    }
}

/// `s` with leading and trailing white space removed (as `str::trim`).
pub open spec fn trim(s: Seq<char>) -> Seq<char> {
    trim_end(trim_start(s))
}

/// `s` with every leading `c` removed (as `str::trim_start_matches(c)`).
pub open spec fn strip_leading<T>(s: Seq<T>, c: T) -> Seq<T>
    decreases s.len(),
{
    if s.len() > 0 && s[0] == c {
        strip_leading(s.drop_first(), c)
    } else {
        s
    }
}

/// `s` with every trailing `c` removed (as `str::trim_end_matches(c)`).
pub open spec fn strip_trailing<T>(s: Seq<T>, c: T) -> Seq<T>
    decreases s.len(),
{
    if s.len() > 0 && s.last() == c {
        strip_trailing(s.drop_last(), c)
    } else {
        s
    }
}

/// Pieces of `s` between occurrences of `sep` (as `str::split(sep)`): always at
/// least one piece; `n` separators give `n + 1` pieces.
pub open spec fn split<T>(s: Seq<T>, sep: T) -> Seq<Seq<T>>
    decreases s.len(),
{
    if s.len() == 0 {
        seq![Seq::<T>::empty()]
    } else {
        let p = split(s.drop_last(), sep);
        if s.last() == sep {
            p.push(Seq::<T>::empty())
        } else {
            p.update(p.len() - 1, p.last().push(s.last()))
        }
    }
}

/// Pieces joined with `sep` between them (as `[&str]::join`).
pub open spec fn join<T>(parts: Seq<Seq<T>>, sep: Seq<T>) -> Seq<T>
    decreases parts.len(),
{
    if parts.len() == 0 {
        Seq::<T>::empty()
    } else if parts.len() == 1 {
        parts[0]
    } else {
        join(parts.drop_last(), sep) + sep + parts.last()
    }
}

/// `s` with every `from` replaced by `to`.
pub open spec fn replace_char(s: Seq<char>, from: char, to: char) -> Seq<char> {
    s.map_values(|c: char| if c == from { to } else { c })
}

/// ASCII lower-casing of one character (as `char::to_ascii_lowercase`).
pub open spec fn ascii_lower(c: char) -> char {
    if 'A' <= c <= 'Z' {
        ((c as u32) + 32) as char
    } else {
        c
    }
}

/// ASCII lower-casing of a string (as `str::to_ascii_lowercase`).
pub open spec fn lower(s: Seq<char>) -> Seq<char> {
    s.map_values(|c: char| ascii_lower(c))
}

/// UTF-8 bytes of a character sequence.
pub open spec fn utf8(s: Seq<char>) -> Seq<u8> {
    vstd::utf8::encode_utf8(s)
}

/// Views of a sequence of byte vectors.
pub open spec fn bviews(v: Seq<Vec<u8>>) -> Seq<Seq<u8>> {
    v.map_values(|p: Vec<u8>| p@)
}

/// Views of a sequence of character vectors.
pub open spec fn views(v: Seq<Vec<char>>) -> Seq<Seq<char>> {
    v.map_values(|p: Vec<char>| p@)
}

pub open spec fn starts_with<T>(s: Seq<T>, p: Seq<T>) -> bool {
    p.len() <= s.len() && s.take(p.len() as int) == p
}

pub open spec fn ends_with<T>(s: Seq<T>, p: Seq<T>) -> bool {
    p.len() <= s.len() && s.skip(s.len() - p.len()) == p
}

/// Collects the characters of `s` into a vector.
pub fn chars_of(s: &str) -> (v: Vec<char>)
    ensures
        v@ == s@,
{
    let mut v: Vec<char> = Vec::new();
    for c in it: s.chars()
        invariant
            v@ == it.seq().take(it.index() as int),
    {
        v.push(c);
    }
    v
}

/// Appends one character to a `String` (`String::push`).
#[verifier::external_body]
fn string_push(s: &mut String, c: char)
    ensures
        final(s)@ == old(s)@.push(c),
{
    s.push(c);
}

/// Builds a `String` from characters.
pub fn string_of(v: &[char]) -> (s: String)
    ensures
        s@ == v@,
{
    let mut s = String::new();
    let mut i: usize = 0;
    while i < v.len()
        invariant
            i <= v.len(),
            s@ == v@.take(i as int),
        decreases v.len() - i,
    {
        string_push(&mut s, v[i]);
        i = i + 1;
        assert(s@ == v@.take(i as int));
    }
    assert(v@.take(v.len() as int) == v@);
    s
}

/// Builds a `String` from a string slice.
pub fn string_from(t: &str) -> (s: String)
    ensures
        s@ == t@,
{
    let v = chars_of(t);
    string_of(&v)
}

/// Concatenation of two character sequences as a `String`.
pub fn concat_str(a: &str, b: &str) -> (s: String)
    ensures
        s@ == a@ + b@,
{
    let mut v = chars_of(a);
    let w = chars_of(b);
    let mut i: usize = 0;
    let ghost a0 = v@;
    while i < w.len()
        invariant
            i <= w.len(),
            v@ == a0 + w@.take(i as int),
        decreases w.len() - i,
    {
        v.push(w[i]);
        i = i + 1;
        assert(v@ == a0 + w@.take(i as int));
    }
    assert(w@.take(w.len() as int) == w@);
    string_of(&v)
}

/// Copy of `v[a..b]`.
pub fn slice_of(v: &[char], a: usize, b: usize) -> (r: Vec<char>)
    requires
        a <= b <= v.len(),
    ensures
        r@ == v@.subrange(a as int, b as int),
{
    let mut r: Vec<char> = Vec::new();
    let mut i = a;
    while i < b
        invariant
            a <= i <= b <= v.len(),
            r@ == v@.subrange(a as int, i as int),
        decreases b - i,
    {
        r.push(v[i]);
        i = i + 1;
        assert(r@ == v@.subrange(a as int, i as int));
    }
    r
}

/// Character-wise equality.
pub fn eq_chars(a: &[char], b: &[char]) -> (r: bool)
    ensures
        r == (a@ == b@),
{
    if a.len() != b.len() {
        return false;
    }
    let mut i: usize = 0;
    while i < a.len()
        invariant
            a.len() == b.len(),
            i <= a.len(),
            a@.take(i as int) == b@.take(i as int),
        decreases a.len() - i,
    {
        if a[i] != b[i] {
            return false;
        }
        assert(a@.take(i + 1) == a@.take(i as int).push(a@[i as int]));
        assert(b@.take(i + 1) == b@.take(i as int).push(b@[i as int]));
        i = i + 1;
    }
    assert(a@.take(a.len() as int) == a@);
    assert(b@.take(b.len() as int) == b@);
    true
}

/// Whether `c` occurs in `v`.
pub fn contains_char(v: &[char], c: char) -> (r: bool)
    ensures
        r == v@.contains(c),
{
    let mut i: usize = 0;
    while i < v.len()
        invariant
            i <= v.len(),
            forall|k: int| 0 <= k < i ==> v@[k] != c,
        decreases v.len() - i,
    {
        if v[i] == c {
            assert(v@[i as int] == c);
            return true;
        }
        i = i + 1;
    }
    false
}

/// Whether `v` starts with `p`.
pub fn has_prefix(v: &[char], p: &[char]) -> (r: bool)
    ensures
        r == starts_with(v@, p@),
{
    if p.len() > v.len() {
        return false;
    }
    let head = slice_of(v, 0, p.len());
    eq_chars(&head, p)
}

/// Whether `v` ends with `p`.
pub fn has_suffix(v: &[char], p: &[char]) -> (r: bool)
    ensures
        r == ends_with(v@, p@),
{
    if p.len() > v.len() {
        return false;
    }
    let tail = slice_of(v, v.len() - p.len(), v.len());
    assert(tail@ == v@.skip(v.len() - p.len()));
    eq_chars(&tail, p)
}

proof fn lemma_trim_start_skip(s: Seq<char>, i: int)
    requires
        0 <= i < s.len(),
        is_ws(s[i]),
    ensures
        trim_start(s.skip(i)) == trim_start(s.skip(i + 1)),
{
    assert(s.skip(i).drop_first() == s.skip(i + 1));
}

proof fn lemma_trim_end_take(s: Seq<char>, j: int)
    requires
        0 < j <= s.len(),
        is_ws(s[j - 1]),
    ensures
        trim_end(s.take(j)) == trim_end(s.take(j - 1)),
{
    assert(s.take(j).drop_last() == s.take(j - 1));
}

/// `v` with leading and trailing white space removed.
pub fn trim_chars(v: &[char]) -> (r: Vec<char>)
    ensures
        r@ == trim(v@),
{
    let mut i: usize = 0;
    assert(v@.skip(0) == v@);
    while i < v.len() && is_ws_char(v[i])
        invariant
            i <= v.len(),
            trim_start(v@) == trim_start(v@.skip(i as int)),
        decreases v.len() - i,
    {
        proof {
            lemma_trim_start_skip(v@, i as int);
        }
        i = i + 1;
    }
    let w = slice_of(v, i, v.len());
    assert(w@ == v@.skip(i as int));
    assert(trim_start(w@) == w@);
    let mut j: usize = w.len();
    assert(w@.take(j as int) == w@);
    while j > 0 && is_ws_char(w[j - 1])
        invariant
            j <= w.len(),
            trim_end(w@) == trim_end(w@.take(j as int)),
        decreases j,
    {
        proof {
            lemma_trim_end_take(w@, j as int);
        }
        j = j - 1;
    }
    slice_of(&w, 0, j)
}

proof fn lemma_strip_leading_skip(s: Seq<char>, c: char, i: int)
    requires
        0 <= i < s.len(),
        s[i] == c,
    ensures
        strip_leading(s.skip(i), c) == strip_leading(s.skip(i + 1), c),
{
    assert(s.skip(i).drop_first() == s.skip(i + 1));
}

proof fn lemma_strip_trailing_take(s: Seq<char>, c: char, j: int)
    requires
        0 < j <= s.len(),
        s[j - 1] == c,
    ensures
        strip_trailing(s.take(j), c) == strip_trailing(s.take(j - 1), c),
{
    assert(s.take(j).drop_last() == s.take(j - 1));
}

/// `v` with all leading `c` removed.
pub fn strip_leading_chars(v: &[char], c: char) -> (r: Vec<char>)
    ensures
        r@ == strip_leading(v@, c),
{
    let mut i: usize = 0;
    assert(v@.skip(0) == v@);
    while i < v.len() && v[i] == c
        invariant
            i <= v.len(),
            strip_leading(v@, c) == strip_leading(v@.skip(i as int), c),
        decreases v.len() - i,
    {
        proof {
            lemma_strip_leading_skip(v@, c, i as int);
        }
        i = i + 1;
    }
    let r = slice_of(v, i, v.len());
    assert(r@ == v@.skip(i as int));
    r
}

/// `v` with all trailing `c` removed.
pub fn strip_trailing_chars(v: &[char], c: char) -> (r: Vec<char>)
    ensures
        r@ == strip_trailing(v@, c),
{
    let mut j: usize = v.len();
    assert(v@.take(j as int) == v@);
    while j > 0 && v[j - 1] == c
        invariant
            j <= v.len(),
            strip_trailing(v@, c) == strip_trailing(v@.take(j as int), c),
        decreases j,
    {
        proof {
            lemma_strip_trailing_take(v@, c, j as int);
        }
        j = j - 1;
    }
    let r = slice_of(v, 0, j);
    assert(r@ == v@.take(j as int));
    r
}

/// `v` with every `from` replaced by `to`.
pub fn replace_chars(v: &[char], from: char, to: char) -> (r: Vec<char>)
    ensures
        r@ == replace_char(v@, from, to),
{
    let mut r: Vec<char> = Vec::new();
    let mut i: usize = 0;
    while i < v.len()
        invariant
            i <= v.len(),
            r@ == replace_char(v@.take(i as int), from, to),
        decreases v.len() - i,
    {
        let c = if v[i] == from {
            to
        } else {
            v[i]
        };
        r.push(c);
        i = i + 1;
        assert(r@ == replace_char(v@.take(i as int), from, to));
    }
    assert(v@.take(v.len() as int) == v@);
    r
}

/// ASCII lower-casing of one character.
pub fn ascii_lower_char(c: char) -> (d: char)
    ensures
        d == ascii_lower(c),
{
    if 'A' <= c && c <= 'Z' {
        let u = (c as u32) + 32;
        proof {
            assert(0x61 <= u <= 0x7a);
        }
        char_from_ascii(u)
    } else {
        c
    }
}

/// The character with the given ASCII code.
fn char_from_ascii(u: u32) -> (c: char)
    requires
        u < 0x80,
    ensures
        c == u as char,
{
    (u as u8) as char
}

/// ASCII lower-casing of a string.
pub fn lower_chars(v: &[char]) -> (r: Vec<char>)
    ensures
        r@ == lower(v@),
{
    let mut r: Vec<char> = Vec::new();
    let mut i: usize = 0;
    while i < v.len()
        invariant
            i <= v.len(),
            r@ == lower(v@.take(i as int)),
        decreases v.len() - i,
    {
        r.push(ascii_lower_char(v[i]));
        i = i + 1;
        assert(r@ == lower(v@.take(i as int)));
    }
    assert(v@.take(v.len() as int) == v@);
    r
}

/// Pieces of `v` between occurrences of `sep`.
pub fn split_chars(v: &[char], sep: char) -> (r: Vec<Vec<char>>)
    ensures
        views(r@) == split(v@, sep),
        r@.len() >= 1,
{
    let mut done: Vec<Vec<char>> = Vec::new();
    let mut cur: Vec<char> = Vec::new();
    let mut i: usize = 0;
    assert(v@.take(0) == Seq::<char>::empty());
    assert(views(done@).push(cur@) == split(v@.take(0), sep));
    while i < v.len()
        invariant
            i <= v.len(),
            views(done@).push(cur@) == split(v@.take(i as int), sep),
        decreases v.len() - i,
    {
        let ghost prev = v@.take(i as int);
        assert(v@.take(i + 1).drop_last() == prev);
        if v[i] == sep {
            done.push(cur);
            cur = Vec::new();
            assert(views(done@) == views(done@).drop_last().push(views(done@).last()));
        } else {
            cur.push(v[i]);
        }
        i = i + 1;
        assert(views(done@).push(cur@) == split(v@.take(i as int), sep));
    }
    assert(v@.take(v.len() as int) == v@);
    done.push(cur);
    assert(views(done@) == split(v@, sep));
    done
}

/// Pieces joined with `sep`.
pub fn join_chars(parts: &Vec<Vec<char>>, sep: char) -> (r: Vec<char>)
    ensures
        r@ == join(views(parts@), seq![sep]),
{
    let mut r: Vec<char> = Vec::new();
    let mut k: usize = 0;
    while k < parts.len()
        invariant
            k <= parts.len(),
            r@ == join(views(parts@).take(k as int), seq![sep]),
        decreases parts.len() - k,
    {
        let ghost before = r@;
        if k > 0 {
            r.push(sep);
        }
        let p = &parts[k];
        let mut i: usize = 0;
        let ghost mid = r@;
        while i < p.len()
            invariant
                i <= p.len(),
                r@ == mid + p@.take(i as int),
            decreases p.len() - i,
        {
            r.push(p[i]);
            i = i + 1;
            assert(r@ == mid + p@.take(i as int));
        }
        assert(p@.take(p.len() as int) == p@);
        let ghost t = views(parts@).take(k + 1);
        assert(t.drop_last() == views(parts@).take(k as int));
        assert(t.last() == p@);
        k = k + 1;
    }
    assert(views(parts@).take(parts.len() as int) == views(parts@));
    r
}

/// Index of the first `c` in `s` (`s.len()` when there is none).
pub open spec fn first_of(s: Seq<char>, c: char) -> nat
    decreases s.len(),
{
    if s.len() == 0 || s[0] == c {
        0
    } else {
        1 + first_of(s.skip(1), c)
    }
}

/// `s` split at its first `c` (as `str::split_once`).
pub open spec fn split_once_spec(s: Seq<char>, c: char) -> Option<(Seq<char>, Seq<char>)> {
    let i = first_of(s, c) as int;
    if i < s.len() {
        Some((s.take(i), s.skip(i + 1)))
    } else {
        None
    }
}

pub proof fn lemma_first_of(s: Seq<char>, c: char)
    ensures
        first_of(s, c) <= s.len(),
        first_of(s, c) < s.len() ==> s[first_of(s, c) as int] == c,
        forall|k: int| 0 <= k < first_of(s, c) ==> s[k] != c,
    decreases s.len(),
{
    if s.len() > 0 && s[0] != c {
        lemma_first_of(s.skip(1), c);
        assert forall|k: int| 0 <= k < first_of(s, c) implies s[k] != c by {
            if k > 0 {
                assert(s.skip(1)[k - 1] == s[k]);
            }
        }
    }
}

/// Index of the first `c` in `v` (`v.len()` when there is none).
pub fn index_of_char(v: &[char], c: char) -> (i: usize)
    ensures
        i == first_of(v@, c),
        i <= v.len(),
{
    let mut i: usize = 0;
    assert(v@.skip(0) == v@);
    while i < v.len() && v[i] != c
        invariant
            i <= v.len(),
            first_of(v@, c) == i + first_of(v@.skip(i as int), c),
        decreases v.len() - i,
    {
        assert(v@.skip(i as int).skip(1) == v@.skip(i + 1));
        i = i + 1;
    }
    if i < v.len() {
        assert(v@.skip(i as int)[0] == v@[i as int]);
    } else {
        assert(v@.skip(i as int).len() == 0);
    }
    i
}

/// `v` split at its first `c`.
pub fn split_once_chars(v: &[char], c: char) -> (r: Option<(Vec<char>, Vec<char>)>)
    ensures
        match split_once_spec(v@, c) {
            Some((a, b)) => r matches Some(x) && x.0@ == a && x.1@ == b,
            None => r is None,
        },
{
    let i = index_of_char(v, c);
    if i < v.len() {
        let a = slice_of(v, 0, i);
        let b = slice_of(v, i + 1, v.len());
        assert(v@.subrange(i + 1, v@.len() as int) == v@.skip(i + 1));
        Some((a, b))
    } else {
        None
    }
}

/// White space mapped to `' '`.
pub open spec fn ws_to_space(s: Seq<char>) -> Seq<char> {
    s.map_values(|c: char| if is_ws(c) { ' ' } else { c })
}

/// The non-empty pieces, in order.
pub open spec fn nonempty(parts: Seq<Seq<char>>) -> Seq<Seq<char>>
    decreases parts.len(),
{
    if parts.len() == 0 {
        Seq::empty()
    } else if parts.last().len() == 0 {
        nonempty(parts.drop_last())
    } else {
        nonempty(parts.drop_last()).push(parts.last())
    }
}

/// Runs of non-white-space characters (as `str::split_whitespace`).
pub open spec fn words(s: Seq<char>) -> Seq<Seq<char>> {
    nonempty(split(ws_to_space(s), ' '))
}

/// `p` occurs in `s` as a contiguous run.
pub open spec fn has_infix(s: Seq<char>, p: Seq<char>) -> bool {
    exists|i: int| 0 <= i && i + p.len() <= s.len() && #[trigger] s.subrange(i, i + p.len()) == p
}

/// Some character of `s` is white space.
pub open spec fn has_ws(s: Seq<char>) -> bool {
    exists|i: int| 0 <= i < s.len() && is_ws(#[trigger] s[i])
}

/// The white-space separated words of `v`.
pub fn words_of(v: &[char]) -> (r: Vec<Vec<char>>)
    ensures
        views(r@) == words(v@),
{
    let mut m: Vec<char> = Vec::new();
    let mut i: usize = 0;
    while i < v.len()
        invariant
            i <= v.len(),
            m@ == ws_to_space(v@.take(i as int)),
        decreases v.len() - i,
    {
        let c = v[i];
        if is_ws_char(c) {
            m.push(' ');
        } else {
            m.push(c);
        }
        i = i + 1;
        assert(m@ =~= ws_to_space(v@.take(i as int)));
    }
    assert(v@.take(v.len() as int) == v@);
    let parts = split_chars(&m, ' ');
    let mut r: Vec<Vec<char>> = Vec::new();
    let mut k: usize = 0;
    while k < parts.len()
        invariant
            k <= parts.len(),
            views(r@) == nonempty(views(parts@).take(k as int)),
        decreases parts.len() - k,
    {
        assert(views(parts@).take(k + 1).drop_last() == views(parts@).take(k as int));
        assert(views(parts@).take(k + 1).last() == parts@[k as int]@);
        if parts[k].len() > 0 {
            let ghost rv = r@;
            r.push(slice_of(&parts[k], 0, parts[k].len()));
            assert(parts@[k as int]@.subrange(0, parts@[k as int]@.len() as int) == parts@[k as int]@);
            assert(views(r@) =~= views(rv).push(parts@[k as int]@));
        }
        k = k + 1;
    }
    assert(views(parts@).take(parts.len() as int) == views(parts@));
    r
}

/// Whether `p` occurs in `v`.
pub fn has_infix_chars(v: &[char], p: &[char]) -> (b: bool)
    ensures
        b == has_infix(v@, p@),
{
    if p.len() > v.len() {
        return false;
    }
    let mut i: usize = 0;
    let last = v.len() - p.len();
    while i <= last
        invariant
            p.len() <= v.len(),
            last == v.len() - p.len(),
            i <= last + 1,
            forall|j: int| 0 <= j < i ==> #[trigger] v@.subrange(j, j + p.len()) != p@,
        decreases last + 1 - i,
    {
        if i == v.len() {
            let w = slice_of(v, i, i + p.len());
            return eq_chars(&w, p);
        }
        let w = slice_of(v, i, i + p.len());
        if eq_chars(&w, p) {
            return true;
        }
        i = i + 1;
    }
    false
}

/// Whether some character of `v` is white space.
pub fn has_ws_chars(v: &[char]) -> (b: bool)
    ensures
        b == has_ws(v@),
{
    let mut i: usize = 0;
    while i < v.len()
        invariant
            i <= v.len(),
            forall|j: int| 0 <= j < i ==> !is_ws(#[trigger] v@[j]),
        decreases v.len() - i,
    {
        if is_ws_char(v[i]) {
            return true;
        }
        i = i + 1;
    }
    false
}

/// `String::from_utf8`: the text whose UTF-8 encoding is `buf`, if `buf` is
/// valid UTF-8.
#[verifier::external_body]
pub(crate) fn decode_utf8_text(buf: Vec<u8>) -> (r: Option<String>)
    ensures
        r is Some <==> vstd::utf8::valid_utf8(buf@),
        r matches Some(s) ==> utf8(s@) == buf@,
{
    String::from_utf8(buf).ok()
}

/// UTF-8 width of a character.
pub open spec fn cw(c: char) -> nat {
    vstd::utf8::encode_scalar(c as u32).len()
}

pub proof fn lemma_cw(c: char)
    ensures
        1 <= cw(c) <= 4,
        (c as u32) < 0x80 ==> cw(c) == 1,
        0x80 <= (c as u32) < 0x800 ==> cw(c) == 2,
        0x800 <= (c as u32) < 0x10000 ==> cw(c) == 3,
        0x10000 <= (c as u32) ==> cw(c) == 4,
{
    vstd::utf8::char_is_scalar(c);
}

/// UTF-8 width of a character, computed.
pub fn char_width(c: char) -> (w: usize)
    ensures
        w == cw(c),
{
    proof {
        lemma_cw(c);
    }
    let u = c as u32;
    if u < 0x80 {
        1
    } else if u < 0x800 {
        2
    } else if u < 0x10000 {
        3
    } else {
        4
    }
}

pub proof fn lemma_utf8_first(s: Seq<char>)
    requires
        s.len() > 0,
    ensures
        utf8(s).len() == cw(s[0]) + utf8(s.drop_first()).len(),
{
}

/// Number of leading characters whose UTF-8 encoding fits in `max` bytes.
pub open spec fn fit_count(s: Seq<char>, max: nat) -> nat
    decreases s.len(),
{
    if s.len() == 0 || cw(s[0]) > max {
        0
    } else {
        1 + fit_count(s.drop_first(), (max - cw(s[0])) as nat)
    }
}

/// The longest prefix of `v` whose UTF-8 encoding fits in `max` bytes
/// (a byte truncation on a character boundary).
pub fn truncate_to_bytes(v: &[char], max: usize) -> (r: Vec<char>)
    ensures
        r@ == v@.take(fit_count(v@, max as nat) as int),
{
    let mut i: usize = 0;
    let mut rem: usize = max;
    assert(v@.skip(0) == v@);
    while i < v.len() && char_width(v[i]) <= rem
        invariant
            i <= v.len(),
            fit_count(v@, max as nat) == i + fit_count(v@.skip(i as int), rem as nat),
        decreases v.len() - i,
    {
        let w = char_width(v[i]);
        assert(v@.skip(i as int)[0] == v@[i as int]);
        assert(v@.skip(i as int).drop_first() == v@.skip(i + 1));
        rem = rem - w;
        i = i + 1;
    }
    if i < v.len() {
        assert(v@.skip(i as int)[0] == v@[i as int]);
    }
    slice_of(v, 0, i)
}

/// `s` without leading characters until its UTF-8 encoding fits in `max` bytes.
pub open spec fn fit_suffix(s: Seq<char>, max: nat) -> Seq<char>
    decreases s.len(),
{
    if s.len() == 0 || utf8(s).len() <= max {
        s
    } else {
        fit_suffix(s.drop_first(), max)
    }
}

/// UTF-8 byte length of `v`.
pub fn utf8_len(v: &[char]) -> (n: u64)
    requires
        v.len() <= 0x3fff_ffff_ffff_ffff,
    ensures
        n == utf8(v@).len(),
{
    let mut n: u64 = 0;
    let mut i: usize = v.len();
    while i > 0
        invariant
            i <= v.len() <= 0x3fff_ffff_ffff_ffff,
            n == utf8(v@.skip(i as int)).len(),
            n <= 4 * (v.len() - i),
        decreases i,
    {
        proof {
            lemma_utf8_first(v@.skip(i - 1));
            assert(v@.skip(i - 1).drop_first() == v@.skip(i as int));
            assert(v@.skip(i - 1)[0] == v@[i - 1]);
            lemma_cw(v@[i - 1]);
        }
        n = n + char_width(v[i - 1]) as u64;
        i = i - 1;
    }
    assert(v@.skip(0) == v@);
    n
}
} // verus!




verus! {

/// `split` always yields at least one piece.
pub proof fn lemma_split_len<T>(s: Seq<T>, sep: T)
    ensures
        split(s, sep).len() >= 1,
    decreases s.len(),
{
    if s.len() > 0 {
        lemma_split_len(s.drop_last(), sep);
    }
}

/// Splitting `a`, a separator, then `b` gives the pieces of `a` then those of `b`.
pub proof fn lemma_split_concat<T>(a: Seq<T>, b: Seq<T>, sep: T)
    ensures
        split(a + seq![sep] + b, sep) == split(a, sep) + split(b, sep),
    decreases b.len(),
{
    let c = a + seq![sep] + b;
    if b.len() == 0 {
        assert(c.drop_last() == a);
        assert(split(b, sep) == seq![Seq::<T>::empty()]);
        assert(split(c, sep) == split(a, sep) + split(b, sep));
    } else {
        assert(c.drop_last() == a + seq![sep] + b.drop_last());
        lemma_split_concat(a, b.drop_last(), sep);
        lemma_split_len(b.drop_last(), sep);
        let pa = split(a, sep);
        let pb = split(b.drop_last(), sep);
        assert(c.last() == b.last());
        if b.last() == sep {
            assert(split(c, sep) == (pa + pb).push(Seq::<T>::empty()));
            assert((pa + pb).push(Seq::<T>::empty()) == pa + pb.push(Seq::<T>::empty()));
        } else {
            let p = pa + pb;
            assert(p.update(p.len() - 1, p.last().push(b.last())) == pa + pb.update(
                pb.len() - 1,
                pb.last().push(b.last()),
            ));
        }
    }
}

} // verus!

verus! {

/// Pieces never hold the separator, and hold only characters of the whole.
pub proof fn lemma_split_pieces<T>(s: Seq<T>, sep: T)
    ensures
        forall|k: int| 0 <= k < split(s, sep).len() ==> !(#[trigger] split(s, sep)[k]).contains(sep),
        forall|k: int, c: T|
            #![trigger split(s, sep)[k].contains(c)]
            0 <= k < split(s, sep).len() && split(s, sep)[k].contains(c) ==> s.contains(c),
    decreases s.len(),
{
    lemma_split_len(s, sep);
    if s.len() > 0 {
        let s0 = s.drop_last();
        lemma_split_pieces(s0, sep);
        lemma_split_len(s0, sep);
        let p = split(s0, sep);
        assert forall|k: int| 0 <= k < split(s, sep).len() implies !(#[trigger] split(s, sep)[k]).contains(sep) by {
            if s.last() == sep {
                if k < p.len() {
                    assert(split(s, sep)[k] == p[k]);
                }
            } else if k < p.len() - 1 {
                assert(split(s, sep)[k] == p[k]);
            } else {
                let nl = p.last().push(s.last());
                assert(split(s, sep)[k] == nl);
                if nl.contains(sep) {
                    let i = choose|i: int| 0 <= i < nl.len() && nl[i] == sep;
                    if i < p.last().len() {
                        assert(p.last()[i] == sep);
                        assert(p[p.len() - 1].contains(sep));
                    }
                }
            }
        }
        assert forall|k: int, c: T|
            #![trigger split(s, sep)[k].contains(c)]
            0 <= k < split(s, sep).len() && split(s, sep)[k].contains(c) implies s.contains(c) by {
            let piece = split(s, sep)[k];
            let i = choose|i: int| 0 <= i < piece.len() && piece[i] == c;
            if s.last() == sep {
                if k < p.len() {
                    assert(piece == p[k]);
                    assert(p[k].contains(c));
                    let j = choose|j: int| 0 <= j < s0.len() && s0[j] == c;
                    assert(s[j] == c);
                }
            } else if k < p.len() - 1 {
                assert(piece == p[k]);
                assert(p[k].contains(c));
                let j = choose|j: int| 0 <= j < s0.len() && s0[j] == c;
                assert(s[j] == c);
            } else {
                assert(piece == p.last().push(s.last()));
                if i < p.last().len() {
                    assert(p.last()[i] == c);
                    assert(p[p.len() - 1].contains(c));
                    let j = choose|j: int| 0 <= j < s0.len() && s0[j] == c;
                    assert(s[j] == c);
                } else {
                    assert(s[s.len() - 1] == c);
                }
            }
        }
    }
}

/// A sequence without the separator splits into itself.
pub proof fn lemma_split_no_sep<T>(s: Seq<T>, sep: T)
    requires
        !s.contains(sep),
    ensures
        split(s, sep) == seq![s],
    decreases s.len(),
{
    if s.len() > 0 {
        let s0 = s.drop_last();
        assert(!s0.contains(sep)) by {
            if s0.contains(sep) {
                let j = choose|j: int| 0 <= j < s0.len() && s0[j] == sep;
                assert(s0[j] == s[j]);
            }
        }
        lemma_split_no_sep(s0, sep);
        assert(s.last() != sep) by {
            assert(s[s.len() - 1] == s.last());
        }
        let p = split(s0, sep);
        assert(s0.push(s.last()) =~= s);
        assert(split(s, sep) == p.update(0, s0.push(s.last())));
        assert(p.update(0, s) =~= seq![s]);
    } else {
        assert(s =~= Seq::<T>::empty());
    }
}

/// Splitting a join of separator-free pieces gives the pieces back.
pub proof fn lemma_split_join<T>(parts: Seq<Seq<T>>, sep: T)
    requires
        parts.len() >= 1,
        forall|k: int| 0 <= k < parts.len() ==> !(#[trigger] parts[k]).contains(sep),
    ensures
        split(join(parts, seq![sep]), sep) == parts,
    decreases parts.len(),
{
    if parts.len() == 1 {
        lemma_split_no_sep(parts[0], sep);
        assert(seq![parts[0]] == parts);
    } else {
        let q = parts.drop_last();
        assert forall|k: int| 0 <= k < q.len() implies !(#[trigger] q[k]).contains(sep) by {
            assert(q[k] == parts[k]);
        }
        lemma_split_join(q, sep);
        lemma_split_concat(join(q, seq![sep]), parts.last(), sep);
        assert(!parts[parts.len() - 1].contains(sep));
        lemma_split_no_sep(parts.last(), sep);
        assert(q + seq![parts.last()] == parts);
    }
}

/// A join of pieces lacking `c` (with a separator other than `c`) lacks `c`.
pub proof fn lemma_join_lacks<T>(parts: Seq<Seq<T>>, sep: T, c: T)
    requires
        sep != c,
        forall|k: int| 0 <= k < parts.len() ==> !(#[trigger] parts[k]).contains(c),
    ensures
        !join(parts, seq![sep]).contains(c),
    decreases parts.len(),
{
    if parts.len() == 1 {
        assert(!parts[0].contains(c));
    } else if parts.len() > 1 {
        let q = parts.drop_last();
        assert forall|k: int| 0 <= k < q.len() implies !(#[trigger] q[k]).contains(c) by {
            assert(q[k] == parts[k]);
        }
        lemma_join_lacks(q, sep, c);
        let j = join(parts, seq![sep]);
        let a = join(q, seq![sep]);
        let l = parts.last();
        assert(!parts[parts.len() - 1].contains(c));
        assert(j == a + seq![sep] + l);
        if j.contains(c) {
            let i = choose|i: int| 0 <= i < j.len() && j[i] == c;
            if i < a.len() {
                assert(a[i] == c);
            } else if i == a.len() {
            } else {
                assert(l[i - a.len() - 1] == c);
            }
        }
    }
}

/// The first element of a join of non-empty pieces is the first piece's first.
pub proof fn lemma_join_first<T>(parts: Seq<Seq<T>>, sep: Seq<T>)
    requires
        parts.len() >= 1,
        parts[0].len() > 0,
    ensures
        join(parts, sep).len() > 0,
        join(parts, sep)[0] == parts[0][0],
    decreases parts.len(),
{
    if parts.len() > 1 {
        let q = parts.drop_last();
        lemma_join_first(q, sep);
    }
}

/// Replacing a character that does not occur changes nothing.
pub proof fn lemma_replace_absent(s: Seq<char>, from: char, to: char)
    requires
        !s.contains(from),
    ensures
        replace_char(s, from, to) == s,
{
    assert forall|i: int| 0 <= i < s.len() implies replace_char(s, from, to)[i] == s[i] by {
        if s[i] == from {
            assert(s.contains(from));
        }
    }
    assert(replace_char(s, from, to) =~= s);
}

} // verus!
