//! Byte-slice helpers with specifications over `Seq<u8>`.

use crate::text::{bviews, split, strip_leading, strip_trailing};
use vstd::prelude::*;

verus! {

/// Copy of `v[a..b]`.
pub fn bslice(v: &[u8], a: usize, b: usize) -> (r: Vec<u8>)
    requires
        a <= b <= v.len(),
    ensures
        r@ == v@.subrange(a as int, b as int),
{
    let mut r: Vec<u8> = Vec::new();
    let mut i = a;
    while i < b
        invariant
            a <= i <= b <= v.len(),
            r@ == v@.subrange(a as int, i as int),
        decreases b - i,
    {
        r.push(v[i]);
        i = i + 1;
        assert(r@ == v@.subrange(a as int, i as int));
    }
    r
}

/// Byte-wise equality.
pub fn beq(a: &[u8], b: &[u8]) -> (r: bool)
    ensures
        r == (a@ == b@),
{
    if a.len() != b.len() {
        return false;
    }
    let mut i: usize = 0;
    while i < a.len()
        invariant
            a.len() == b.len(),
            i <= a.len(),
            a@.take(i as int) == b@.take(i as int),
        decreases a.len() - i,
    {
        if a[i] != b[i] {
            return false;
        }
        assert(a@.take(i + 1) == a@.take(i as int).push(a@[i as int]));
        assert(b@.take(i + 1) == b@.take(i as int).push(b@[i as int]));
        i = i + 1;
    }
    assert(a@.take(a.len() as int) == a@);
    assert(b@.take(b.len() as int) == b@);
    true
}

/// Whether byte `c` occurs in `v`.
pub fn bcontains(v: &[u8], c: u8) -> (r: bool)
    ensures
        r == v@.contains(c),
{
    let mut i: usize = 0;
    while i < v.len()
        invariant
            i <= v.len(),
            forall|k: int| 0 <= k < i ==> v@[k] != c,
        decreases v.len() - i,
    {
        if v[i] == c {
            assert(v@[i as int] == c);
            return true;
        }
        i = i + 1;
    }
    false
}

/// Appends all of `src` to `dst`.
pub fn bextend(dst: &mut Vec<u8>, src: &[u8])
    ensures
        final(dst)@ == old(dst)@ + src@,
{
    let mut i: usize = 0;
    let ghost d0 = dst@;
    while i < src.len()
        invariant
            i <= src.len(),
            dst@ == d0 + src@.take(i as int),
        decreases src.len() - i,
    {
        dst.push(src[i]);
        i = i + 1;
        assert(dst@ == d0 + src@.take(i as int));
    }
    assert(src@.take(src.len() as int) == src@);
}

/// Pieces of `v` between occurrences of `sep`.
pub fn bsplit(v: &[u8], sep: u8) -> (r: Vec<Vec<u8>>)
    ensures
        bviews(r@) == split(v@, sep),
        r@.len() >= 1,
{
    let mut done: Vec<Vec<u8>> = Vec::new();
    let mut cur: Vec<u8> = Vec::new();
    let mut i: usize = 0;
    assert(v@.take(0) == Seq::<u8>::empty());
    assert(bviews(done@).push(cur@) == split(v@.take(0), sep));
    while i < v.len()
        invariant
            i <= v.len(),
            bviews(done@).push(cur@) == split(v@.take(i as int), sep),
        decreases v.len() - i,
    {
        let ghost prev = v@.take(i as int);
        assert(v@.take(i + 1).drop_last() == prev);
        if v[i] == sep {
            done.push(cur);
            cur = Vec::new();
            assert(bviews(done@) == bviews(done@).drop_last().push(bviews(done@).last()));
        } else {
            cur.push(v[i]);
        }
        i = i + 1;
        assert(bviews(done@).push(cur@) == split(v@.take(i as int), sep));
    }
    assert(v@.take(v.len() as int) == v@);
    done.push(cur);
    assert(bviews(done@) == split(v@, sep));
    done
}

/// `v` with every leading and trailing `c` removed (`str::trim_matches(c)`).
pub fn bstrip(v: &[u8], c: u8) -> (r: Vec<u8>)
    ensures
        r@ == strip_trailing(strip_leading(v@, c), c),
{
    let mut i: usize = 0;
    assert(v@.skip(0) == v@);
    while i < v.len() && v[i] == c
        invariant
            i <= v.len(),
            strip_leading(v@, c) == strip_leading(v@.skip(i as int), c),
        decreases v.len() - i,
    {
        assert(v@.skip(i as int).drop_first() == v@.skip(i + 1));
        i = i + 1;
    }
    let w = bslice(v, i, v.len());
    assert(w@ == v@.skip(i as int));
    let mut j: usize = w.len();
    assert(w@.take(j as int) == w@);
    while j > 0 && w[j - 1] == c
        invariant
            j <= w.len(),
            strip_trailing(w@, c) == strip_trailing(w@.take(j as int), c),
        decreases j,
    {
        assert(w@.take(j as int).drop_last() == w@.take(j - 1));
        j = j - 1;
    }
    let r = bslice(&w, 0, j);
    assert(r@ == w@.take(j as int));
    r
}

/// `n` little-endian bytes of `x` (the low `8n` bits).
pub open spec fn le_bytes(x: nat, n: nat) -> Seq<u8>
    decreases n,
{
    if n == 0 {
        Seq::empty()
    } else {
        seq![(x % 256) as u8] + le_bytes(x / 256, (n - 1) as nat)
    }
}

/// Value of little-endian bytes.
pub open spec fn le_val(s: Seq<u8>) -> nat
    decreases s.len(),
{
    if s.len() == 0 {
        0
    } else {
        s[0] as nat + 256 * le_val(s.skip(1))
    }
}

pub open spec fn pow256(n: nat) -> nat
    decreases n,
{
    if n == 0 {
        1
    } else {
        256 * pow256((n - 1) as nat)
    }
}

pub proof fn lemma_le_len(x: nat, n: nat)
    ensures
        le_bytes(x, n).len() == n,
    decreases n,
{
    if n > 0 {
        lemma_le_len(x / 256, (n - 1) as nat);
    }
}

/// Little-endian bytes of a value that fits read back as that value.
pub proof fn lemma_le_roundtrip(x: nat, n: nat)
    requires
        x < pow256(n),
    ensures
        le_val(le_bytes(x, n)) == x,
        le_bytes(x, n).len() == n,
    decreases n,
{
    lemma_le_len(x, n);
    if n > 0 {
        assert(x / 256 < pow256((n - 1) as nat)) by (nonlinear_arith)
            requires
                x < 256 * pow256((n - 1) as nat),
        ;
        lemma_le_roundtrip(x / 256, (n - 1) as nat);
        let s = le_bytes(x, n);
        assert(s.skip(1) == le_bytes(x / 256, (n - 1) as nat));
        assert(s[0] == (x % 256) as u8);
    }
}

/// Little-endian values below `256^n` fit in `n` bytes.
pub proof fn lemma_le_val_bound(s: Seq<u8>)
    ensures
        le_val(s) < pow256(s.len()),
    decreases s.len(),
{
    if s.len() > 0 {
        lemma_le_val_bound(s.skip(1));
        assert(s[0] as nat + 256 * le_val(s.skip(1)) < 256 * pow256((s.len() - 1) as nat)) by (nonlinear_arith)
            requires
                le_val(s.skip(1)) < pow256((s.len() - 1) as nat),
                s[0] < 256,
        ;
    }
}

/// Appends the `n` little-endian bytes of `x`.
pub fn push_le(buf: &mut Vec<u8>, x: u64, n: usize)
    requires
        n <= 8,
    ensures
        final(buf)@ == old(buf)@ + le_bytes(x as nat, n as nat),
{
    let mut v = x;
    let mut k: usize = 0;
    let ghost b0 = buf@;
    while k < n
        invariant
            k <= n,
            buf@ + le_bytes(v as nat, (n - k) as nat) == b0 + le_bytes(x as nat, n as nat),
        decreases n - k,
    {
        let ghost before = buf@;
        assert(le_bytes(v as nat, (n - k) as nat) == seq![(v % 256) as u8] + le_bytes((v / 256) as nat, (n - k - 1) as nat));
        buf.push((v % 256) as u8);
        assert(buf@ + le_bytes((v / 256) as nat, (n - k - 1) as nat) == before + (seq![(v % 256) as u8] + le_bytes((v / 256) as nat, (n - k - 1) as nat)));
        v = v / 256;
        k = k + 1;
    }
    assert(le_bytes(v as nat, 0) == Seq::<u8>::empty());
    assert(buf@ + Seq::<u8>::empty() == buf@);
}

/// Little-endian value of `v[a..a+n]`.
pub fn read_le(v: &[u8], a: usize, n: usize) -> (x: u64)
    requires
        n <= 8,
        a + n <= v.len(),
    ensures
        x as nat == le_val(v@.subrange(a as int, a + n)),
{
    let mut x: u64 = 0;
    let mut k: usize = n;
    proof {
        lemma_le_val_bound(v@.subrange(a as int, a + n));
    }
    while k > 0
        invariant
            k <= n <= 8,
            a + n <= v.len(),
            x as nat == le_val(v@.subrange(a + k, a + n)),
            le_val(v@.subrange(a + k, a + n)) < pow256((n - k) as nat),
        decreases k,
    {
        let ghost s = v@.subrange(a + k - 1, a + n);
        assert(s.skip(1) == v@.subrange(a + k, a + n));
        assert(s[0] == v@[a + k - 1]);
        proof {
            lemma_le_val_bound(s);
            assert(pow256((n - k + 1) as nat) <= pow256(8)) by {
                lemma_pow256_mono((n - k + 1) as nat, 8);
            }
            assert(pow256(8) == 18446744073709551616) by {
                reveal_with_fuel(pow256, 9);
            }
        }
        x = v[a + k - 1] as u64 + 256 * x;
        k = k - 1;
    }
    x
}

pub proof fn lemma_pow256_mono(a: nat, b: nat)
    requires
        a <= b,
    ensures
        pow256(a) <= pow256(b),
    decreases b,
{
    if a < b {
        lemma_pow256_mono(a, (b - 1) as nat);
    }
}

/// Bytes are the little-endian encoding of their value.
pub proof fn lemma_le_inverse(s: Seq<u8>)
    ensures
        le_bytes(le_val(s), s.len()) == s,
    decreases s.len(),
{
    if s.len() > 0 {
        let v = le_val(s);
        let b = le_val(s.skip(1));
        lemma_le_inverse(s.skip(1));
        vstd::arithmetic::div_mod::lemma_fundamental_div_mod_converse(v as int, 256, b as int, s[0] as int);
        assert(le_bytes(v, s.len()) == seq![(v % 256) as u8] + le_bytes(v / 256, (s.len() - 1) as nat));
        assert(s =~= seq![s[0]] + s.skip(1));
    } else {
        assert(s =~= Seq::<u8>::empty());
    }
}

} // verus!
