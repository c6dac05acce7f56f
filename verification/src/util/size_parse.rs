//! Human-friendly byte size parsing (`500M`, `1G`, `1.5K`, `1e3`, raw integers).

use crate::error::{Error, Result};
use crate::text::{chars_of, ends_with, has_suffix, lower, lower_chars, slice_of, string_from, trim, trim_chars};
use vstd::arithmetic::div_mod::lemma_fundamental_div_mod_converse;
use vstd::prelude::*;

verus! {

/// Default encode size budget: 500 MiB.
pub const DEFAULT_ENCODE_SIZE_BUDGET: u64 = 524288000;

pub open spec fn is_digit(c: char) -> bool {
    '0' <= c <= '9'
}

pub open spec fn digit_of(c: char) -> nat {
    ((c as int) - ('0' as int)) as nat
}

pub open spec fn all_digits(s: Seq<char>) -> bool {
    forall|i: int| 0 <= i < s.len() ==> is_digit(#[trigger] s[i])
}

/// Decimal value of a digit string.
pub open spec fn dec_val(s: Seq<char>) -> nat
    decreases s.len(),
{
    if s.len() == 0 {
        0
    } else {
        dec_val(s.drop_last()) * 10 + digit_of(s.last())
    }
}

pub open spec fn pow10(n: nat) -> nat
    decreases n,
{
    if n == 0 {
        1
    } else {
        10 * pow10((n - 1) as nat)
    }
}

/// Unit suffix of a lower-cased size string: the number text and the multiplier.
pub open spec fn size_unit(l: Seq<char>) -> (Seq<char>, nat) {
    if ends_with(l, seq!['k', 'i', 'b']) {
        (l.take(l.len() - 3), 1024)
    } else if ends_with(l, seq!['m', 'i', 'b']) {
        (l.take(l.len() - 3), 1048576)
    } else if ends_with(l, seq!['g', 'i', 'b']) {
        (l.take(l.len() - 3), 1073741824)
    } else if ends_with(l, seq!['k', 'b']) {
        (l.take(l.len() - 2), 1024)
    } else if ends_with(l, seq!['m', 'b']) {
        (l.take(l.len() - 2), 1048576)
    } else if ends_with(l, seq!['g', 'b']) {
        (l.take(l.len() - 2), 1073741824)
    } else if ends_with(l, seq!['k']) {
        (l.take(l.len() - 1), 1024)
    } else if ends_with(l, seq!['m']) {
        (l.take(l.len() - 1), 1048576)
    } else if ends_with(l, seq!['g']) {
        (l.take(l.len() - 1), 1073741824)
    } else if ends_with(l, seq!['b']) {
        (l.take(l.len() - 1), 1)
    } else {
        (l, 1)
    }
}

/// Index of the first `.` in `s` (`s.len()` when there is none).
pub open spec fn first_dot(s: Seq<char>) -> nat
    decreases s.len(),
{
    if s.len() == 0 {
        0
    } else if s[0] == '.' {
        0
    } else {
        1 + first_dot(s.skip(1))
    }
}

/// Index of the first `c` in `s` (`s.len()` when there is none).
pub open spec fn first_char(s: Seq<char>, c: char) -> nat
    decreases s.len(),
{
    if s.len() == 0 {
        0
    } else if s[0] == c {
        0
    } else {
        1 + first_char(s.skip(1), c)
    }
}

/// A mantissa `digits[.digits]` with at least one digit: its integer and
/// fraction digits.
pub open spec fn split_decimal_spec(m: Seq<char>) -> Option<(Seq<char>, Seq<char>)> {
    let i = first_dot(m) as int;
    let a = m.take(i);
    let b = if i < m.len() { m.skip(i + 1) } else { Seq::<char>::empty() };
    if all_digits(a) && all_digits(b) && a.len() + b.len() >= 1 {
        Some((a, b))
    } else {
        None
    }
}

/// An exponent `[+|-]digits` with at least one digit: whether it is
/// negative, and its digits.
pub open spec fn exponent_spec(x: Seq<char>) -> Option<(bool, Seq<char>)> {
    let signed = x.len() > 0 && (x[0] == '+' || x[0] == '-');
    let d = if signed { x.skip(1) } else { x };
    if d.len() >= 1 && all_digits(d) {
        Some((x.len() > 0 && x[0] == '-', d))
    } else {
        None
    }
}

/// A number as Rust reads a float, `[+|-]mantissa[e[+|-]digits]` (the
/// exponent letter lower-cased): its sign, the mantissa's integer and
/// fraction digits, and the exponent's sign and digits (none: no digits).
pub open spec fn number_parts_spec(t: Seq<char>) -> Option<(bool, Seq<char>, Seq<char>, bool, Seq<char>)> {
    let signed = t.len() > 0 && (t[0] == '+' || t[0] == '-');
    let neg = t.len() > 0 && t[0] == '-';
    let body = if signed { t.skip(1) } else { t };
    let ie = first_char(body, 'e') as int;
    match split_decimal_spec(body.take(ie)) {
        None => None,
        Some((a, b)) => if ie < body.len() {
            match exponent_spec(body.skip(ie + 1)) {
                None => None,
                Some((eneg, d)) => Some((neg, a, b, eneg, d)),
            }
        } else {
            Some((neg, a, b, false, Seq::<char>::empty()))
        },
    }
}

/// `n` zero digits.
pub open spec fn zero_digits(n: nat) -> Seq<char> {
    Seq::new(n, |i: int| '0')
}

/// The integer and fraction digits of `a.b` with the decimal point moved
/// `e` places right, or left when `eneg`: `a.b × 10^(±e)`.
pub open spec fn shift_point(a: Seq<char>, b: Seq<char>, eneg: bool, e: nat) -> (Seq<char>, Seq<char>) {
    if !eneg {
        if e <= b.len() {
            (a + b.take(e as int), b.skip(e as int))
        } else {
            (a + b + zero_digits((e - b.len()) as nat), Seq::<char>::empty())
        }
    } else {
        if e <= a.len() {
            (a.take(a.len() - e), a.skip(a.len() - e) + b)
        } else {
            (Seq::<char>::empty(), zero_digits((e - a.len()) as nat) + a + b)
        }
    }
}

/// `a.b × mult`, rounded half up to a whole number of bytes.
pub open spec fn scaled_value(a: Seq<char>, b: Seq<char>, mult: nat) -> nat {
    dec_val(a) * mult + (2 * dec_val(b) * mult + pow10(b.len())) / (2 * pow10(b.len()))
}

/// Bytes denoted by a size string; `None` when it is rejected. The number is
/// read as Rust reads a float (an exponent is allowed); a negative number
/// other than zero is rejected, and the value, times the unit, is rounded
/// to the nearest byte, halves up.
pub open spec fn byte_size_spec(s: Seq<char>) -> Option<u64> {
    let t = trim(s);
    let (rest, mult) = size_unit(lower(t));
    let num = trim(rest);
    if t.len() == 0 || num.len() == 0 {
        None
    } else {
        match number_parts_spec(num) {
            None => None,
            Some((neg, a, b, eneg, d)) => if dec_val(a) == 0 && dec_val(b) == 0 {
                Some(0)
            } else if neg {
                None
            } else {
                let (a2, b2) = shift_point(a, b, eneg, dec_val(d));
                if scaled_value(a2, b2, mult) > u64::MAX {
                    None
                } else {
                    Some(scaled_value(a2, b2, mult) as u64)
                }
            },
        }
    }
}

proof fn lemma_first_dot_le(s: Seq<char>)
    ensures
        first_dot(s) <= s.len(),
        first_dot(s) < s.len() ==> s[first_dot(s) as int] == '.',
    decreases s.len(),
{
    if s.len() > 0 && s[0] != '.' {
        lemma_first_dot_le(s.skip(1));
    }
}

proof fn lemma_pow10_pos(n: nat)
    ensures
        pow10(n) >= 1,
    decreases n,
{
    if n > 0 {
        lemma_pow10_pos((n - 1) as nat);
    }
}

/// The leading digit of a digit string weighs `10^(len-1)`.
proof fn lemma_dec_val_front(s: Seq<char>)
    requires
        s.len() >= 1,
    ensures
        dec_val(s) == digit_of(s[0]) * pow10((s.len() - 1) as nat) + dec_val(s.skip(1)),
    decreases s.len(),
{
    let d = digit_of(s[0]);
    if s.len() == 1 {
        assert(s.drop_last().len() == 0);
        assert(dec_val(s.drop_last()) == 0);
        assert(s.skip(1).len() == 0);
        assert(dec_val(s.skip(1)) == 0);
        assert(s.last() == s[0]);
        assert(dec_val(s) == d);
        assert(pow10(0) == 1);
        assert(d * pow10(0) == d);
    } else {
        let s0 = s.drop_last();
        lemma_dec_val_front(s0);
        assert(s0.skip(1) == s.skip(1).drop_last());
        assert(s.skip(1).last() == s.last());
        let x = dec_val(s0.skip(1));
        let dl = digit_of(s.last());
        assert(dec_val(s.skip(1)) == x * 10 + dl);
        let p = pow10((s.len() - 2) as nat);
        assert(s0[0] == s[0]);
        assert(dec_val(s0) == d * p + x);
        assert(dec_val(s) == dec_val(s0) * 10 + dl);
        assert(pow10((s.len() - 1) as nat) == 10 * p);
        assert((d * p + x) * 10 + dl == d * (10 * p) + (x * 10 + dl)) by (nonlinear_arith);
    }
}

fn is_digit_char(c: char) -> (b: bool)
    ensures
        b == is_digit(c),
{
    '0' <= c && c <= '9'
}

fn all_digit_chars(v: &[char]) -> (b: bool)
    ensures
        b == all_digits(v@),
{
    let mut i: usize = 0;
    while i < v.len()
        invariant
            i <= v.len(),
            forall|j: int| 0 <= j < i ==> is_digit(#[trigger] v@[j]),
        decreases v.len() - i,
    {
        if !is_digit_char(v[i]) {
            return false;
        }
        i = i + 1;
    }
    true
}

/// Strips a unit suffix; the multiplier is 1024-based.
fn split_size_unit(l: &[char]) -> (r: (Vec<char>, u64))
    ensures
        r.0@ == size_unit(l@).0,
        r.1 == size_unit(l@).1,
{
    let kib = vec!['k', 'i', 'b'];
    let mib = vec!['m', 'i', 'b'];
    let gib = vec!['g', 'i', 'b'];
    let kb = vec!['k', 'b'];
    let mb = vec!['m', 'b'];
    let gb = vec!['g', 'b'];
    let k = vec!['k'];
    let m = vec!['m'];
    let g = vec!['g'];
    let b = vec!['b'];
    assert(kib@ =~= seq!['k', 'i', 'b'] && mib@ =~= seq!['m', 'i', 'b'] && gib@ =~= seq!['g', 'i', 'b']);
    assert(kb@ =~= seq!['k', 'b'] && mb@ =~= seq!['m', 'b'] && gb@ =~= seq!['g', 'b']);
    assert(k@ =~= seq!['k'] && m@ =~= seq!['m'] && g@ =~= seq!['g'] && b@ =~= seq!['b']);
    assert(l@.subrange(0, l@.len() as int) == l@);
    if has_suffix(l, &kib) {
        (slice_of(l, 0, l.len() - 3), 1024)
    } else if has_suffix(l, &mib) {
        (slice_of(l, 0, l.len() - 3), 1048576)
    } else if has_suffix(l, &gib) {
        (slice_of(l, 0, l.len() - 3), 1073741824)
    } else if has_suffix(l, &kb) {
        (slice_of(l, 0, l.len() - 2), 1024)
    } else if has_suffix(l, &mb) {
        (slice_of(l, 0, l.len() - 2), 1048576)
    } else if has_suffix(l, &gb) {
        (slice_of(l, 0, l.len() - 2), 1073741824)
    } else if has_suffix(l, &k) {
        (slice_of(l, 0, l.len() - 1), 1024)
    } else if has_suffix(l, &m) {
        (slice_of(l, 0, l.len() - 1), 1048576)
    } else if has_suffix(l, &g) {
        (slice_of(l, 0, l.len() - 1), 1073741824)
    } else if has_suffix(l, &b) {
        (slice_of(l, 0, l.len() - 1), 1)
    } else {
        (slice_of(l, 0, l.len()), 1)
    }
}

fn first_dot_index(s: &[char]) -> (i: usize)
    ensures
        i == first_dot(s@),
{
    let mut i: usize = 0;
    assert(s@.skip(0) == s@);
    while i < s.len() && s[i] != '.'
        invariant
            i <= s.len(),
            first_dot(s@) == i + first_dot(s@.skip(i as int)),
        decreases s.len() - i,
    {
        assert(s@.skip(i as int).skip(1) == s@.skip(i + 1));
        i = i + 1;
    }
    if i < s.len() {
        assert(s@.skip(i as int)[0] == s@[i as int]);
    } else {
        assert(s@.skip(i as int).len() == 0);
    }
    i
}

fn first_char_index(s: &[char], c: char) -> (i: usize)
    ensures
        i == first_char(s@, c),
        i <= s.len(),
        i < s.len() ==> s@[i as int] == c,
{
    let mut i: usize = 0;
    assert(s@.skip(0) == s@);
    while i < s.len() && s[i] != c
        invariant
            i <= s.len(),
            first_char(s@, c) == i + first_char(s@.skip(i as int), c),
        decreases s.len() - i,
    {
        assert(s@.skip(i as int).skip(1) == s@.skip(i + 1));
        i = i + 1;
    }
    if i < s.len() {
        assert(s@.skip(i as int)[0] == s@[i as int]);
    } else {
        assert(s@.skip(i as int).len() == 0);
    }
    i
}

/// Splits a mantissa `digits[.digits]` into integer and fraction digits.
fn split_decimal(m: &[char]) -> (r: Option<(Vec<char>, Vec<char>)>)
    ensures
        match split_decimal_spec(m@) {
            None => r is None,
            Some((a, b)) => r matches Some(x) && x.0@ == a && x.1@ == b,
        },
{
    let i = first_dot_index(m);
    proof {
        lemma_first_dot_le(m@);
    }
    let a = slice_of(m, 0, i);
    let b = if i < m.len() { slice_of(m, i + 1, m.len()) } else { Vec::new() };
    assert(a@ == m@.take(i as int));
    if all_digit_chars(&a) && all_digit_chars(&b) && a.len() + b.len() >= 1 {
        Some((a, b))
    } else {
        None
    }
}

/// Splits an exponent `[+|-]digits` into its sign and digits.
fn exponent_parts(x: &[char]) -> (r: Option<(bool, Vec<char>)>)
    ensures
        match exponent_spec(x@) {
            None => r is None,
            Some((eneg, d)) => r matches Some(y) && y.0 == eneg && y.1@ == d,
        },
{
    let signed = x.len() > 0 && (x[0] == '+' || x[0] == '-');
    let eneg = x.len() > 0 && x[0] == '-';
    let d = if signed { slice_of(x, 1, x.len()) } else { slice_of(x, 0, x.len()) };
    assert(x@.subrange(0, x@.len() as int) == x@);
    if d.len() >= 1 && all_digit_chars(&d) {
        Some((eneg, d))
    } else {
        None
    }
}

/// Splits a number `[+|-]mantissa[e[+|-]digits]` into its parts.
fn number_parts(t: &[char]) -> (r: Option<(bool, Vec<char>, Vec<char>, bool, Vec<char>)>)
    ensures
        match number_parts_spec(t@) {
            None => r is None,
            Some((neg, a, b, eneg, d)) => r matches Some(x) && x.0 == neg && x.1@ == a && x.2@ == b && x.3
                == eneg && x.4@ == d,
        },
{
    let signed = t.len() > 0 && (t[0] == '+' || t[0] == '-');
    let neg = t.len() > 0 && t[0] == '-';
    let body = if signed { slice_of(t, 1, t.len()) } else { slice_of(t, 0, t.len()) };
    assert(t@.subrange(0, t@.len() as int) == t@);
    let ie = first_char_index(&body, 'e');
    let mant = slice_of(&body, 0, ie);
    assert(mant@ == body@.take(ie as int));
    let (a, b) = match split_decimal(&mant) {
        Some(x) => x,
        None => return None,
    };
    if ie < body.len() {
        let ex = slice_of(&body, ie + 1, body.len());
        assert(ex@ == body@.skip(ie + 1));
        match exponent_parts(&ex) {
            Some((eneg, d)) => Some((neg, a, b, eneg, d)),
            None => None,
        }
    } else {
        Some((neg, a, b, false, Vec::new()))
    }
}

/// The value of digits `d`, or `None` when it passes `cap`.
fn capped_dec_val(d: &[char], cap: u128) -> (r: Option<u128>)
    requires
        all_digits(d@),
        cap <= 0x1_0000_0000_0000_0000_0000,
    ensures
        r matches Some(v) ==> v == dec_val(d@) && v <= cap,
        r is None ==> dec_val(d@) > cap,
{
    let mut v: u128 = 0;
    let mut i: usize = 0;
    while i < d.len()
        invariant
            i <= d.len(),
            all_digits(d@),
            cap <= 0x1_0000_0000_0000_0000_0000,
            v == dec_val(d@.take(i as int)),
            v <= cap,
        decreases d.len() - i,
    {
        assert(d@.take(i + 1).drop_last() == d@.take(i as int));
        assert(d@.take(i + 1).last() == d@[i as int]);
        assert(is_digit(d@[i as int]));
        let digit = (d[i] as u32 - '0' as u32) as u128;
        let nv = v * 10 + digit;
        if nv > cap {
            proof {
                lemma_dec_val_prefix_le(d@, i + 1);
            }
            return None;
        }
        v = nv;
        i = i + 1;
    }
    assert(d@.take(d.len() as int) == d@);
    Some(v)
}

/// The digits of `a.b` with the point moved by the exponent (`eneg`,
/// `d`), or `None` when it moves more than 40 places past the digits.
fn shifted_digits(a: &[char], b: &[char], eneg: bool, d: &[char]) -> (r: Option<(Vec<char>, Vec<char>)>)
    requires
        all_digits(a@),
        all_digits(b@),
        all_digits(d@),
    ensures
        r matches Some(x) ==> x.0@ == shift_point(a@, b@, eneg, dec_val(d@)).0 && x.1@ == shift_point(
            a@,
            b@,
            eneg,
            dec_val(d@),
        ).1 && all_digits(x.0@) && all_digits(x.1@),
        r is None && !eneg ==> dec_val(d@) > b@.len() + 40,
        r is None && eneg ==> dec_val(d@) > a@.len() + 40,
{
    let la = a.len();
    let lb = b.len();
    proof {
        lemma_all_digits_concat(a@, b@);
    }
    if !eneg {
        match capped_dec_val(d, lb as u128 + 40) {
            None => None,
            Some(e) => {
                if e <= lb as u128 {
                    let k = e as usize;
                    let x = concat_chars(a, &slice_of(b, 0, k));
                    let y = slice_of(b, k, lb);
                    proof {
                        assert(b@.subrange(0, k as int) == b@.take(k as int));
                        assert(b@.subrange(k as int, lb as int) == b@.skip(k as int));
                        lemma_all_digits_concat(a@, b@.take(k as int));
                    }
                    Some((x, y))
                } else {
                    let z = zeros_vec((e - lb as u128) as usize);
                    let x = concat_chars(&concat_chars(a, b), &z);
                    proof {
                        lemma_all_digits_concat(a@ + b@, z@);
                    }
                    Some((x, Vec::new()))
                }
            },
        }
    } else {
        match capped_dec_val(d, la as u128 + 40) {
            None => None,
            Some(e) => {
                if e <= la as u128 {
                    let k = la - e as usize;
                    let x = slice_of(a, 0, k);
                    let y = concat_chars(&slice_of(a, k, la), b);
                    proof {
                        assert(a@.subrange(0, k as int) == a@.take(k as int));
                        assert(a@.subrange(k as int, la as int) == a@.skip(k as int));
                        lemma_all_digits_concat(a@.skip(k as int), b@);
                    }
                    Some((x, y))
                } else {
                    let z = zeros_vec((e - la as u128) as usize);
                    let y = concat_chars(&concat_chars(&z, a), b);
                    proof {
                        lemma_all_digits_concat(z@, a@);
                        lemma_all_digits_concat(z@ + a@, b@);
                    }
                    Some((Vec::new(), y))
                }
            },
        }
    }
}

/// `n` zero digits.
fn zeros_vec(n: usize) -> (v: Vec<char>)
    ensures
        v@ == zero_digits(n as nat),
{
    let mut v: Vec<char> = Vec::new();
    let mut i: usize = 0;
    while i < n
        invariant
            i <= n,
            v@ == zero_digits(i as nat),
        decreases n - i,
    {
        v.push('0');
        i = i + 1;
        assert(v@ =~= zero_digits(i as nat));
    }
    v
}

/// `x` followed by `y`.
fn concat_chars(x: &[char], y: &[char]) -> (r: Vec<char>)
    ensures
        r@ == x@ + y@,
{
    let mut r = slice_of(x, 0, x.len());
    assert(x@.subrange(0, x@.len() as int) == x@);
    let mut i: usize = 0;
    while i < y.len()
        invariant
            i <= y.len(),
            r@ == x@ + y@.take(i as int),
        decreases y.len() - i,
    {
        r.push(y[i]);
        i = i + 1;
        assert(r@ =~= x@ + y@.take(i as int));
    }
    assert(y@.take(y.len() as int) == y@);
    r
}

proof fn lemma_pow10_add(x: nat, y: nat)
    ensures
        pow10(x + y) == pow10(x) * pow10(y),
    decreases y,
{
    if y > 0 {
        let y1 = (y - 1) as nat;
        lemma_pow10_add(x, y1);
        assert((x + y - 1) as nat == x + y1);
        assert(pow10(x + y) == 10 * pow10(x + y1));
        assert(pow10(y) == 10 * pow10(y1));
        assert(10 * (pow10(x) * pow10(y1)) == pow10(x) * (10 * pow10(y1))) by (nonlinear_arith);
    } else {
        assert(pow10(0) == 1);
        assert(x + y == x);
        assert(pow10(x) * 1 == pow10(x));
    }
}

proof fn lemma_pow10_mono(x: nat, y: nat)
    requires
        x <= y,
    ensures
        pow10(x) <= pow10(y),
    decreases y,
{
    lemma_pow10_pos(y);
    if x < y {
        lemma_pow10_mono(x, (y - 1) as nat);
        lemma_pow10_pos((y - 1) as nat);
    }
}

/// The digits after `x` weigh by their count: `dec_val(x + y) = dec_val(x) × 10^|y| + dec_val(y)`.
proof fn lemma_dec_val_append(x: Seq<char>, y: Seq<char>)
    ensures
        dec_val(x + y) == dec_val(x) * pow10(y.len()) + dec_val(y),
    decreases y.len(),
{
    if y.len() == 0 {
        assert(x + y =~= x);
        assert(pow10(0) == 1);
        assert(dec_val(y) == 0);
        assert(dec_val(x) * 1 == dec_val(x));
    } else {
        let y0 = y.drop_last();
        lemma_dec_val_append(x, y0);
        assert((x + y).drop_last() =~= x + y0);
        assert((x + y).last() == y.last());
        assert(dec_val(x + y) == dec_val(x + y0) * 10 + digit_of(y.last()));
        assert(dec_val(y) == dec_val(y0) * 10 + digit_of(y.last()));
        assert(pow10(y.len()) == 10 * pow10(y0.len()));
        assert((dec_val(x) * pow10(y0.len()) + dec_val(y0)) * 10 + digit_of(y.last()) == dec_val(x) * (10
            * pow10(y0.len())) + (dec_val(y0) * 10 + digit_of(y.last()))) by (nonlinear_arith);
    }
}

proof fn lemma_dec_val_zeros(n: nat)
    ensures
        dec_val(zero_digits(n)) == 0,
    decreases n,
{
    if n > 0 {
        lemma_dec_val_zeros((n - 1) as nat);
        assert(zero_digits(n).drop_last() =~= zero_digits((n - 1) as nat));
    }
}

proof fn lemma_dec_val_lt(s: Seq<char>)
    requires
        all_digits(s),
    ensures
        dec_val(s) < pow10(s.len()),
    decreases s.len(),
{
    if s.len() > 0 {
        let s0 = s.drop_last();
        assert(all_digits(s0));
        lemma_dec_val_lt(s0);
        assert(is_digit(s[s.len() - 1]));
        assert(dec_val(s0) * 10 + digit_of(s.last()) < 10 * pow10(s0.len())) by (nonlinear_arith)
            requires
                dec_val(s0) < pow10(s0.len()),
                digit_of(s.last()) <= 9,
        ;
    }
}

proof fn lemma_all_digits_concat(x: Seq<char>, y: Seq<char>)
    requires
        all_digits(x),
        all_digits(y),
    ensures
        all_digits(x + y),
{
    assert forall|i: int| 0 <= i < (x + y).len() implies is_digit(#[trigger] (x + y)[i]) by {
        if i < x.len() {
            assert((x + y)[i] == x[i]);
        } else {
            assert((x + y)[i] == y[i - x.len()]);
        }
    }
}

/// A nonzero mantissa moved more than 40 places right is past `u64::MAX`.
proof fn lemma_shift_right_too_large(a: Seq<char>, b: Seq<char>, e: nat, mult: nat)
    requires
        all_digits(a),
        all_digits(b),
        dec_val(a) > 0 || dec_val(b) > 0,
        e > b.len() + 40,
        mult >= 1,
    ensures
        scaled_value(shift_point(a, b, false, e).0, shift_point(a, b, false, e).1, mult) > u64::MAX,
{
    let z = (e - b.len()) as nat;
    let a2 = a + b + zero_digits(z);
    lemma_dec_val_append(a, b);
    lemma_dec_val_append(a + b, zero_digits(z));
    lemma_dec_val_zeros(z);
    lemma_pow10_pos(b.len());
    lemma_pow10_pos(z);
    assert(dec_val(a + b) >= 1) by (nonlinear_arith)
        requires
            dec_val(a + b) == dec_val(a) * pow10(b.len()) + dec_val(b),
            dec_val(a) > 0 || dec_val(b) > 0,
            pow10(b.len()) >= 1,
    ;
    lemma_pow10_mono(41, z);
    assert(pow10(41) > u64::MAX) by {
        reveal_with_fuel(pow10, 42);
    }
    assert(dec_val(a2) >= pow10(z)) by (nonlinear_arith)
        requires
            dec_val(a2) == dec_val(a + b) * pow10(z),
            dec_val(a + b) >= 1,
    ;
    assert(dec_val(a2) * mult >= dec_val(a2)) by (nonlinear_arith)
        requires
            mult >= 1,
    ;
}

/// A mantissa moved more than 40 places left rounds to zero bytes.
proof fn lemma_shift_left_rounds_to_zero(a: Seq<char>, b: Seq<char>, e: nat, mult: nat)
    requires
        all_digits(a),
        all_digits(b),
        e > a.len() + 40,
        1 <= mult <= 1073741824,
    ensures
        scaled_value(shift_point(a, b, true, e).0, shift_point(a, b, true, e).1, mult) == 0,
{
    let z = (e - a.len()) as nat;
    let b2 = zero_digits(z) + (a + b);
    assert(zero_digits(z) + a + b =~= b2);
    lemma_dec_val_append(zero_digits(z), a + b);
    lemma_dec_val_zeros(z);
    lemma_all_digits_concat(a, b);
    lemma_dec_val_lt(a + b);
    let x = dec_val(a + b);
    let n = (a + b).len();
    assert(dec_val(b2) == x);
    assert(b2.len() == z + n);
    lemma_pow10_add(z, n);
    lemma_pow10_mono(11, z);
    assert(pow10(11) == 100000000000) by {
        reveal_with_fuel(pow10, 12);
    }
    let p = pow10(b2.len());
    lemma_pow10_pos(n);
    assert(p == pow10(z) * pow10(n));
    let pz = pow10(z);
    let pn = pow10(n);
    assert(2 * x * mult < pz * pn) by (nonlinear_arith)
        requires
            x < pn,
            1 <= mult <= 1073741824,
            pz >= 100000000000,
    ;
    assert(dec_val(Seq::<char>::empty()) == 0);
    assert((2 * x * mult + p) / (2 * p) == 0) by (nonlinear_arith)
        requires
            2 * x * mult < p,
            p >= 1,
    ;
    assert(shift_point(a, b, true, e).0 == Seq::<char>::empty());
    assert(shift_point(a, b, true, e).1 == b2);
    assert(scaled_value(Seq::<char>::empty(), b2, mult) == dec_val(Seq::<char>::empty()) * mult + (2 * dec_val(b2)
        * mult + p) / (2 * p));
    assert(dec_val(Seq::<char>::empty()) * mult == 0);
}

/// `dec_val(a) × mult + round_half_up(0.b × mult)`, or `None` above `u64::MAX`.
fn scaled_decimal(a: &[char], b: &[char], mult: u64) -> (r: Option<u64>)
    requires
        all_digits(a@),
        all_digits(b@),
        1 <= mult <= 1073741824,
    ensures
        match r {
            Some(v) => v == scaled_value(a@, b@, mult as nat),
            None => scaled_value(a@, b@, mult as nat) > u64::MAX,
        },
{
    // Integer part, saturating once it exceeds u64::MAX.
    let mut ip: u128 = 0;
    let mut big = false;
    let mut i: usize = 0;
    while i < a.len()
        invariant
            i <= a.len(),
            all_digits(a@),
            big ==> dec_val(a@.take(i as int)) > u64::MAX,
            !big ==> ip == dec_val(a@.take(i as int)) && ip <= u64::MAX,
        decreases a.len() - i,
    {
        assert(a@.take(i + 1).drop_last() == a@.take(i as int));
        assert(a@.take(i + 1).last() == a@[i as int]);
        assert(is_digit(a@[i as int]));
        if !big {
            let d = (a[i] as u32 - '0' as u32) as u128;
            ip = ip * 10 + d;
            if ip > 18446744073709551615u128 {
                big = true;
            }
        }
        i = i + 1;
    }
    assert(a@.take(a.len() as int) == a@);
    // Fraction: multiply 0.b by mult from the last digit, keeping the carry.
    let mut carry: u64 = 0;
    let mut first: u64 = 0;
    let mut j: usize = b.len();
    let ghost mut o: int = 0;
    assert(b@.skip(b.len() as int).len() == 0);
    while j > 0
        invariant
            j <= b.len(),
            all_digits(b@),
            1 <= mult <= 1073741824,
            carry < mult,
            first < 10,
            carry * pow10((b.len() - j) as nat) + o == mult * dec_val(b@.skip(j as int)),
            0 <= o < pow10((b.len() - j) as nat),
            j < b.len() ==> (o >= 5 * pow10((b.len() - j - 1) as nat) <==> first >= 5),
        decreases j,
    {
        let ghost lw = (b.len() - j) as nat;
        let ghost p = pow10(lw);
        assert(is_digit(b@[j - 1]));
        let d = (b[j - 1] as u32 - '0' as u32) as u64;
        proof {
            lemma_dec_val_front(b@.skip(j - 1));
            assert(b@.skip(j - 1).skip(1) == b@.skip(j as int));
            assert(b@.skip(j - 1)[0] == b@[j - 1]);
            assert(b@.skip(j - 1).len() - 1 == lw);
        }
        assert(d * mult + carry < 10 * mult) by (nonlinear_arith)
            requires
                d <= 9,
                carry < mult,
        ;
        let t = d * mult + carry;
        let out = t % 10;
        let c2 = t / 10;
        proof {
            let s = dec_val(b@.skip(j as int));
            assert(pow10(lw + 1) == 10 * p);
            assert(c2 * (10 * p) + (out * p + o) == mult * (d * p + s)) by (nonlinear_arith)
                requires
                    t == d * mult + carry,
                    t == c2 * 10 + out,
                    carry * p + o == mult * s,
            ;
            assert(out * p + o >= 5 * p <==> out >= 5) by (nonlinear_arith)
                requires
                    0 <= o < p,
                    0 <= out < 10,
            ;
            assert(out * p + o < 10 * p) by (nonlinear_arith)
                requires
                    0 <= o < p,
                    0 <= out < 10,
            ;
            o = out * p + o;
        }
        carry = c2;
        first = out;
        j = j - 1;
    }
    assert(b@.skip(0) == b@);
    let up: u64 = if b.len() > 0 && first >= 5 { 1 } else { 0 };
    proof {
        let pk = pow10(b.len() as nat);
        let f = dec_val(b@);
        lemma_pow10_pos(b.len() as nat);
        if b.len() > 0 {
            assert(pk == 10 * pow10((b.len() - 1) as nat));
        }
        assert(2 * o >= pk <==> up == 1);
        let r = if up == 1 { 2 * o - pk } else { 2 * o + pk };
        assert(0 <= r < 2 * pk);
        assert(2 * f * mult + pk == (carry + up) * (2 * pk) + r) by (nonlinear_arith)
            requires
                carry * pk + o == mult * f,
                up == 0 || up == 1,
                r == (if up == 1 { 2 * o - pk } else { 2 * o + pk }),
        ;
        lemma_fundamental_div_mod_converse(2 * f * mult + pk, (2 * pk) as int, carry + up, r);
    }
    if big {
        proof {
            assert(dec_val(a@) * mult >= dec_val(a@)) by (nonlinear_arith)
                requires
                    mult >= 1,
            ;
        }
        return None;
    }
    assert(ip * mult <= 18446744073709551615u128 * 1073741824u128) by (nonlinear_arith)
        requires
            ip <= 18446744073709551615u128,
            mult <= 1073741824,
    ;
    let total: u128 = ip * (mult as u128) + (carry as u128) + (up as u128);
    if total > 18446744073709551615u128 {
        None
    } else {
        Some(total as u64)
    }
}

fn all_zero(v: &[char]) -> (b: bool)
    requires
        all_digits(v@),
    ensures
        b == (dec_val(v@) == 0),
{
    let mut i: usize = 0;
    while i < v.len()
        invariant
            i <= v.len(),
            all_digits(v@),
            dec_val(v@.take(i as int)) == 0,
        decreases v.len() - i,
    {
        assert(v@.take(i + 1).drop_last() == v@.take(i as int));
        assert(v@.take(i + 1).last() == v@[i as int]);
        if v[i] != '0' {
            proof {
                lemma_dec_val_prefix_le(v@, i + 1);
            }
            return false;
        }
        i = i + 1;
    }
    assert(v@.take(v.len() as int) == v@);
    true
}

/// A prefix never weighs more than the whole.
proof fn lemma_dec_val_prefix_le(s: Seq<char>, n: int)
    requires
        0 <= n <= s.len(),
    ensures
        dec_val(s.take(n)) <= dec_val(s),
    decreases s.len(),
{
    if n < s.len() {
        lemma_dec_val_prefix_le(s.drop_last(), n);
        assert(s.drop_last().take(n) == s.take(n));
    } else {
        assert(s.take(n) == s);
    }
}

/// Parse a size string into bytes.
///
/// Accepts plain numbers (bytes) or a number with a suffix `K`/`KB`/`KiB`,
/// `M`/`MB`/`MiB`, `G`/`GB`/`GiB` (1024-based) or `B`; the number is written
/// as a float is (a fraction and an exponent such as `1e3` are allowed) and
/// the result is rounded to the nearest byte (halves up).
pub fn parse_byte_size(s: &str) -> (r: Result<u64>)
    ensures
        match byte_size_spec(s@) {
            Some(v) => r matches Ok(x) && x == v,
            None => r matches Err(e) && e is Message,
        },
{
    let raw = chars_of(s);
    let t = trim_chars(&raw);
    if t.len() == 0 {
        return Err(Error::Message(string_from("empty size string")));
    }
    let low = lower_chars(&t);
    let (rest, mult) = split_size_unit(&low);
    let num = trim_chars(&rest);
    if num.len() == 0 {
        return Err(Error::Message(string_from("missing number in size")));
    }
    let (neg, a, b, eneg, d) = match number_parts(&num) {
        Some(x) => x,
        None => {
            return Err(Error::Message(string_from("invalid size number")));
        },
    };
    if all_zero(&a) && all_zero(&b) {
        return Ok(0);
    }
    if neg {
        return Err(Error::Message(string_from("invalid size")));
    }
    let (a2, b2) = match shifted_digits(&a, &b, eneg, &d) {
        Some(x) => x,
        None => {
            if eneg {
                proof {
                    lemma_shift_left_rounds_to_zero(a@, b@, dec_val(d@), mult as nat);
                }
                return Ok(0);
            } else {
                proof {
                    lemma_shift_right_too_large(a@, b@, dec_val(d@), mult as nat);
                }
                return Err(Error::Message(string_from("size too large")));
            }
        },
    };
    match scaled_decimal(&a2, &b2, mult) {
        Some(v) => Ok(v),
        None => Err(Error::Message(string_from("size too large"))),
    }
}

/// `n × m` bytes when that fits in 64 bits.
pub open spec fn whole_bytes(n: nat, m: nat) -> Option<u64> {
    if n * m <= u64::MAX {
        Some((n * m) as u64)
    } else {
        None
    }
}

proof fn lemma_no_ws_trim(s: Seq<char>)
    requires
        s.len() > 0,
        !crate::text::is_ws(s[0]),
        !crate::text::is_ws(s.last()),
    ensures
        trim(s) == s,
{
    assert(crate::text::trim_start(s) == s);
    assert(crate::text::trim_end(s) == s);
}

proof fn lemma_digits_first_char(s: Seq<char>, c: char)
    requires
        all_digits(s),
        !is_digit(c),
    ensures
        first_char(s, c) == s.len(),
        first_dot(s) == s.len(),
    decreases s.len(),
{
    if s.len() > 0 {
        assert(is_digit(s[0]));
        let t = s.skip(1);
        assert(all_digits(t)) by {
            assert forall|i: int| 0 <= i < t.len() implies is_digit(#[trigger] t[i]) by {
                assert(t[i] == s[i + 1]);
            }
        }
        lemma_digits_first_char(t, c);
    }
}

/// `s` does not end with `p` when they differ at `i` of `p`'s positions.
proof fn lemma_not_ends_with(s: Seq<char>, p: Seq<char>, i: int)
    requires
        0 <= i < p.len(),
        p.len() <= s.len() ==> s[s.len() - p.len() + i] != p[i],
    ensures
        !ends_with(s, p),
{
    if p.len() <= s.len() {
        let t = s.skip(s.len() - p.len());
        assert(t[i] == s[s.len() - p.len() + i]);
    }
}

/// A digit string followed by a unit spelled `l` (lower case) splits into the
/// digits and the multiplier `m`.
proof fn lemma_unit_of(d: Seq<char>, l: Seq<char>, m: nat)
    requires
        d.len() >= 1,
        all_digits(d),
        (l == seq!['k', 'i', 'b'] && m == 1024) || (l == seq!['m', 'i', 'b'] && m == 1048576) || (l == seq![
            'g',
            'i',
            'b',
        ] && m == 1073741824) || (l == seq!['k', 'b'] && m == 1024) || (l == seq!['m', 'b'] && m == 1048576) || (
        l == seq!['g', 'b'] && m == 1073741824) || (l == seq!['k'] && m == 1024) || (l == seq!['m'] && m == 1048576)
            || (l == seq!['g'] && m == 1073741824) || (l == seq!['b'] && m == 1) || (l.len() == 0 && m == 1),
    ensures
        size_unit(d + l) == (d, m),
{
    let s = d + l;
    let n = s.len();
    let kib = seq!['k', 'i', 'b'];
    let mib = seq!['m', 'i', 'b'];
    let gib = seq!['g', 'i', 'b'];
    let kb = seq!['k', 'b'];
    let mb = seq!['m', 'b'];
    let gb = seq!['g', 'b'];
    let k = seq!['k'];
    let mm = seq!['m'];
    let g = seq!['g'];
    let b = seq!['b'];
    assert(forall|i: int| 0 <= i < d.len() ==> s[i] == d[i]);
    assert(forall|i: int| 0 <= i < l.len() ==> s[d.len() + i] == l[i]);
    assert(is_digit(d[d.len() - 1]));
    if l.len() == 3 {
        assert(s.skip(n - 3) =~= l);
        assert(s.take(n - 3) =~= d);
        if l == mib {
            lemma_not_ends_with(s, kib, 0);
        } else if l == gib {
            lemma_not_ends_with(s, kib, 0);
            lemma_not_ends_with(s, mib, 0);
        }
    } else if l.len() == 2 {
        assert(s.skip(n - 2) =~= l);
        assert(s.take(n - 2) =~= d);
        lemma_not_ends_with(s, kib, 1);
        lemma_not_ends_with(s, mib, 1);
        lemma_not_ends_with(s, gib, 1);
        if l == mb {
            lemma_not_ends_with(s, kb, 0);
        } else if l == gb {
            lemma_not_ends_with(s, kb, 0);
            lemma_not_ends_with(s, mb, 0);
        }
    } else if l.len() == 1 {
        assert(s.skip(n - 1) =~= l);
        assert(s.take(n - 1) =~= d);
        assert(s[n - 2] == d[d.len() - 1]) by {
            if d.len() >= 1 {
                assert(n - 2 == d.len() - 1);
            }
        }
        lemma_not_ends_with(s, kib, 1);
        lemma_not_ends_with(s, mib, 1);
        lemma_not_ends_with(s, gib, 1);
        lemma_not_ends_with(s, kb, 0);
        lemma_not_ends_with(s, mb, 0);
        lemma_not_ends_with(s, gb, 0);
        if l == mm {
            lemma_not_ends_with(s, k, 0);
        } else if l == g {
            lemma_not_ends_with(s, k, 0);
            lemma_not_ends_with(s, mm, 0);
        } else if l == b {
            lemma_not_ends_with(s, k, 0);
            lemma_not_ends_with(s, mm, 0);
            lemma_not_ends_with(s, g, 0);
        }
    } else {
        assert(s =~= d);
        lemma_not_ends_with(s, kib, 2);
        lemma_not_ends_with(s, mib, 2);
        lemma_not_ends_with(s, gib, 2);
        lemma_not_ends_with(s, kb, 1);
        lemma_not_ends_with(s, mb, 1);
        lemma_not_ends_with(s, gb, 1);
        lemma_not_ends_with(s, k, 0);
        lemma_not_ends_with(s, mm, 0);
        lemma_not_ends_with(s, g, 0);
        lemma_not_ends_with(s, b, 0);
    }
}

/// A whole number `d` followed by a unit `u` whose lower-case spelling is
/// `l` denotes `dec_val(d) × m` bytes.
proof fn lemma_digits_with_unit(d: Seq<char>, u: Seq<char>, l: Seq<char>, m: nat)
    requires
        d.len() >= 1,
        all_digits(d),
        lower(u) == l,
        1 <= m,
        (l == seq!['k', 'i', 'b'] && m == 1024) || (l == seq!['m', 'i', 'b'] && m == 1048576) || (l == seq![
            'g',
            'i',
            'b',
        ] && m == 1073741824) || (l == seq!['k', 'b'] && m == 1024) || (l == seq!['m', 'b'] && m == 1048576) || (
        l == seq!['g', 'b'] && m == 1073741824) || (l == seq!['k'] && m == 1024) || (l == seq!['m'] && m == 1048576)
            || (l == seq!['g'] && m == 1073741824) || (l == seq!['b'] && m == 1) || (l.len() == 0 && m == 1),
    ensures
        byte_size_spec(d + u) == whole_bytes(dec_val(d), m),
{
    let s = d + u;
    assert(is_digit(d[0]));
    assert(s[0] == d[0]);
    if u.len() > 0 {
        let c = u.last();
        assert(lower(u)[u.len() - 1] == crate::text::ascii_lower(c));
        assert(s.last() == c);
    } else {
        assert(s =~= d);
        assert(is_digit(d[d.len() - 1]));
    }
    lemma_no_ws_trim(s);
    assert(lower(s) =~= d + l) by {
        assert forall|i: int| 0 <= i < s.len() implies #[trigger] lower(s)[i] == (d + l)[i] by {
            if i < d.len() {
                assert(is_digit(d[i]));
            } else {
                assert(lower(u)[i - d.len()] == crate::text::ascii_lower(u[i - d.len()]));
            }
        }
    }
    lemma_unit_of(d, l, m);
    assert(is_digit(d[d.len() - 1]));
    lemma_no_ws_trim(d);
    lemma_digits_first_char(d, 'e');
    assert(d.take(d.len() as int) =~= d);
    assert(d.skip(0) =~= d);
    let e = Seq::<char>::empty();
    assert(all_digits(e));
    assert(split_decimal_spec(d) == Some((d, e)));
    assert(number_parts_spec(d) == Some((false, d, e, false, e)));
    assert(dec_val(e) == 0);
    assert(pow10(0) == 1);
    let (a2, b2) = shift_point(d, e, false, 0);
    assert(a2 =~= d);
    assert(b2 =~= e);
    assert(e.len() == 0);
    assert(2 * dec_val(e) * m == 0) by (nonlinear_arith)
        requires
            dec_val(e) == 0,
    ;
    assert((2 * dec_val(e) * m + pow10(e.len())) / (2 * pow10(e.len())) == 0);
    assert(scaled_value(d, e, m) == dec_val(d) * m);
    if dec_val(d) == 0 {
        assert(dec_val(d) * m == 0);
    }
}

/// Law: a whole number `n` written with a unit suffix, in any letter case,
/// denotes `n × 1024` bytes for `K`, `KB`, `KiB`; `n × 1024²` for `M`, `MB`,
/// `MiB`; `n × 1024³` for `G`, `GB`, `GiB`; and `n` bytes for `B` or no
/// suffix, and is refused when that passes `u64::MAX`.
pub proof fn lemma_unit_suffixes(d: Seq<char>, u: Seq<char>)
    requires
        d.len() >= 1,
        all_digits(d),
    ensures
        lower(u) == seq!['k'] || lower(u) == seq!['k', 'b'] || lower(u) == seq!['k', 'i', 'b'] ==> byte_size_spec(
            d + u,
        ) == whole_bytes(dec_val(d), 1024),
        lower(u) == seq!['m'] || lower(u) == seq!['m', 'b'] || lower(u) == seq!['m', 'i', 'b'] ==> byte_size_spec(
            d + u,
        ) == whole_bytes(dec_val(d), 1048576),
        lower(u) == seq!['g'] || lower(u) == seq!['g', 'b'] || lower(u) == seq!['g', 'i', 'b'] ==> byte_size_spec(
            d + u,
        ) == whole_bytes(dec_val(d), 1073741824),
        lower(u) == seq!['b'] || u.len() == 0 ==> byte_size_spec(d + u) == whole_bytes(dec_val(d), 1),
{
    let l = lower(u);
    if l == seq!['k'] || l == seq!['k', 'b'] || l == seq!['k', 'i', 'b'] {
        lemma_digits_with_unit(d, u, l, 1024);
    }
    if l == seq!['m'] || l == seq!['m', 'b'] || l == seq!['m', 'i', 'b'] {
        lemma_digits_with_unit(d, u, l, 1048576);
    }
    if l == seq!['g'] || l == seq!['g', 'b'] || l == seq!['g', 'i', 'b'] {
        lemma_digits_with_unit(d, u, l, 1073741824);
    }
    if l == seq!['b'] || u.len() == 0 {
        if u.len() == 0 {
            assert(l.len() == 0);
        }
        lemma_digits_with_unit(d, u, l, 1);
    }
}

/// `a + b`, saturated at `u64::MAX`.
pub open spec fn sat_add(a: u64, b: u64) -> int {
    if a + b > u64::MAX {
        u64::MAX as int
    } else {
        a + b
    }
}

/// Whether a job of `job_size` may start given current in-flight state:
/// never past `max_workers`; always when nothing runs; `budget == 0` means
/// no size limit; else the running sum plus the job must fit the budget.
pub fn can_admit(
    running_sum: u64,
    running_count: usize,
    job_size: u64,
    budget: u64,
    max_workers: usize,
) -> (b: bool)
    ensures
        b == (max_workers != 0 && running_count < max_workers && (running_count == 0 || budget
            == 0 || sat_add(running_sum, job_size) <= budget)),
{
    if max_workers == 0 || running_count >= max_workers {
        return false;
    }
    if running_count == 0 {
        return true;
    }
    if budget == 0 {
        return true;
    }
    running_sum.saturating_add(job_size) <= budget
}

} // verus!
