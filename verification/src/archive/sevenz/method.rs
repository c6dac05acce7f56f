//! Compression method selection for non-solid create.

use crate::error::{Error, Result};
use crate::text::{chars_of, concat_str, eq_chars, lower, lower_chars, trim, trim_chars};
use vstd::prelude::*;

verus! {

/// Create compression method (per-file packs in non-solid 7z).
#[derive(Debug, Clone, Copy, PartialEq, Eq, Structural)]
pub enum CompressMethod {
    /// LZMA2 (`0x21`): the default; best ratio, slower.
    Lzma2,
    /// Zstandard (`04 F7 11 01`).
    Zstd,
    /// LZ4 (`04 F7 11 04`): fastest, weaker ratio.
    Lz4,
}

impl Default for CompressMethod {
    fn default() -> (m: Self)
        ensures
            m == CompressMethod::Lzma2,
    {
        CompressMethod::Lzma2
    }
}

pub open spec fn method_name(m: CompressMethod) -> Seq<char> {
    match m {
        CompressMethod::Lzma2 => seq!['l', 'z', 'm', 'a', '2'],
        CompressMethod::Zstd => seq!['z', 's', 't', 'd'],
        CompressMethod::Lz4 => seq!['l', 'z', '4'],
    }
}

/// 7z coder method id bytes.
pub open spec fn method_id_spec(m: CompressMethod) -> Seq<u8> {
    match m {
        CompressMethod::Lzma2 => seq![0x21u8],
        CompressMethod::Zstd => seq![0x04u8, 0xF7, 0x11, 0x01],
        CompressMethod::Lz4 => seq![0x04u8, 0xF7, 0x11, 0x04],
    }
}

/// The method a name selects (case-insensitive, surrounding white space ignored).
pub open spec fn parse_method_spec(s: Seq<char>) -> Option<CompressMethod> {
    let l = lower(trim(s));
    if l == seq!['l', 'z', 'm', 'a', '2'] || l == seq!['l', 'z', 'm', 'a'] || l == seq!['7', 'z'] {
        Some(CompressMethod::Lzma2)
    } else if l == seq!['z', 's', 't', 'd'] || l == seq!['z', 's', 't'] || l == seq![
        'z',
        's',
        't',
        'a',
        'n',
        'd',
        'a',
        'r',
        'd',
    ] {
        Some(CompressMethod::Zstd)
    } else if l == seq!['l', 'z', '4'] {
        Some(CompressMethod::Lz4)
    } else {
        None
    }
}

fn is_word(v: &Vec<char>, w: Vec<char>) -> (b: bool)
    ensures
        b == (v@ == w@),
{
    eq_chars(v, &w)
}

impl CompressMethod {
    /// Lower-case method name.
    pub fn as_str(self) -> (s: &'static str)
        ensures
            s@ == method_name(self),
    {
        proof {
            reveal_strlit("lzma2");
            reveal_strlit("zstd");
            reveal_strlit("lz4");
        }
        match self {
            CompressMethod::Lzma2 => "lzma2",
            CompressMethod::Zstd => "zstd",
            CompressMethod::Lz4 => "lz4",
        }
    }

    /// Parse a method name: `lzma2`/`lzma`/`7z`, `zstd`/`zst`/`zstandard`, `lz4`.
    pub fn parse(s: &str) -> (r: Result<CompressMethod>)
        ensures
            match parse_method_spec(s@) {
                Some(m) => r matches Ok(x) && x == m,
                None => r matches Err(e) && e is Cli,
            },
    {
        let raw = chars_of(s);
        let t = trim_chars(&raw);
        let l = lower_chars(&t);
        proof {
            assert(seq!['l', 'z', 'm', 'a', '2'] =~= seq!['l', 'z', 'm', 'a', '2']);
        }
        let a1 = vec!['l', 'z', 'm', 'a', '2'];
        let a2 = vec!['l', 'z', 'm', 'a'];
        let a3 = vec!['7', 'z'];
        let b1 = vec!['z', 's', 't', 'd'];
        let b2 = vec!['z', 's', 't'];
        let b3 = vec!['z', 's', 't', 'a', 'n', 'd', 'a', 'r', 'd'];
        let c1 = vec!['l', 'z', '4'];
        assert(a1@ =~= seq!['l', 'z', 'm', 'a', '2'] && a2@ =~= seq!['l', 'z', 'm', 'a'] && a3@ =~= seq!['7', 'z']);
        assert(b1@ =~= seq!['z', 's', 't', 'd'] && b2@ =~= seq!['z', 's', 't']);
        assert(b3@ =~= seq!['z', 's', 't', 'a', 'n', 'd', 'a', 'r', 'd'] && c1@ =~= seq!['l', 'z', '4']);
        if is_word(&l, a1) || is_word(&l, a2) || is_word(&l, a3) {
            Ok(CompressMethod::Lzma2)
        } else if is_word(&l, b1) || is_word(&l, b2) || is_word(&l, b3) {
            Ok(CompressMethod::Zstd)
        } else if is_word(&l, c1) {
            Ok(CompressMethod::Lz4)
        } else {
            Err(Error::Cli(concat_str("unknown method (expected lzma2, zstd, or lz4): ", s)))
        }
    }

    /// 7z coder method id bytes.
    pub fn method_id(self) -> (id: Vec<u8>)
        ensures
            id@ == method_id_spec(self),
    {
        let v = match self {
            CompressMethod::Lzma2 => vec![0x21u8],
            CompressMethod::Zstd => vec![0x04u8, 0xF7, 0x11, 0x01],
            CompressMethod::Lz4 => vec![0x04u8, 0xF7, 0x11, 0x04],
        };
        assert(v@ =~= method_id_spec(self));
        v
    }
}

/// Law: the 7z coder ids are 7-Zip's: LZMA2 is `21`, and from the zstd
/// plugin Zstd is `04 F7 11 01` and LZ4 `04 F7 11 04`; no two methods share
/// an id, and the names `zstd` and `lz4` (any case, surrounding white space
/// ignored) select the methods with those ids.
pub proof fn lemma_coder_ids(m: CompressMethod, n: CompressMethod, s: Seq<char>)
    ensures
        m is Lzma2 ==> method_id_spec(m) == seq![0x21u8],
        m is Zstd ==> method_id_spec(m) == seq![0x04u8, 0xF7u8, 0x11u8, 0x01u8],
        m is Lz4 ==> method_id_spec(m) == seq![0x04u8, 0xF7u8, 0x11u8, 0x04u8],
        m != n ==> method_id_spec(m) != method_id_spec(n),
        lower(trim(s)) == seq!['z', 's', 't', 'd'] ==> (parse_method_spec(s) matches Some(p) && method_id_spec(p)
            == seq![0x04u8, 0xF7u8, 0x11u8, 0x01u8]),
        lower(trim(s)) == seq!['l', 'z', '4'] ==> (parse_method_spec(s) matches Some(p) && method_id_spec(p)
            == seq![0x04u8, 0xF7u8, 0x11u8, 0x04u8]),
{
    if m != n {
        let a = method_id_spec(m);
        let b = method_id_spec(n);
        if a.len() == b.len() {
            assert(a.len() == 4);
            assert(a[3] != b[3]);
        }
    }
    let l = lower(trim(s));
    if l == seq!['l', 'z', '4'] {
        assert(l != seq!['l', 'z', 'm', 'a', '2'] && l != seq!['l', 'z', 'm', 'a'] && l != seq!['7', 'z']);
        assert(l != seq!['z', 's', 't', 'd'] && l != seq!['z', 's', 't']);
        assert(l.len() != 9);
    }
}

} // verus!
