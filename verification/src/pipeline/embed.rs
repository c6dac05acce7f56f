//! Embed planning: member names for finished files placed under a master
//! store 7z, with the checks made on each input.

use crate::cli::EmbedArgs;
use crate::error::{Error, Result};
use crate::select::pathnorm::{
    basename_utf8, basename_utf8_spec, dot, dotdot, join_archive_name, join_name_spec, normalize_archive_path,
    normalize_prefix, normalize_spec, prefix_spec, validate_member_name, validate_spec, NormOutcome,
    ValidOutcome,
};
use crate::text::{chars_of, concat_str, eq_chars, string_from};
use vstd::prelude::*;

verus! {

/// The 7z signature `7z\xBC\xAF\x27\x1C`.
pub open spec fn sevenz_magic() -> Seq<u8> {
    seq![0x37u8, 0x7A, 0xBC, 0xAF, 0x27, 0x1C]
}

/// One planned embed member after naming and validation.
#[derive(Debug, Clone)]
pub struct EmbedMember {
    pub src: String,
    pub archive_name: String,
}

/// The base name before any prefix: the normalized path with `keep_path`,
/// else the file name; `Empty` stands for an invalid member name.
pub open spec fn base_name_spec(input: Seq<char>, keep_path: bool) -> NormOutcome {
    let b = if keep_path {
        normalize_spec(input)
    } else {
        match basename_utf8_spec(input) {
            Some(n) => NormOutcome::Normal(n),
            None => NormOutcome::Empty,
        }
    };
    match b {
        NormOutcome::Normal(n) => if n.len() == 0 || n == dot() || n == dotdot() {
            NormOutcome::Empty
        } else {
            NormOutcome::Normal(n)
        },
        other => other,
    }
}

/// Member name for an embed input: the base name under the normalized
/// prefix, then validated. `Empty` stands for an invalid member name,
/// `Traversal` for a `..` component.
pub open spec fn member_name_spec(input: Seq<char>, keep_path: bool, prefix: Option<Seq<char>>) -> NormOutcome {
    match base_name_spec(input, keep_path) {
        NormOutcome::Normal(base) => {
            let joined = match prefix {
                None => NormOutcome::Normal(base),
                Some(p) => match prefix_spec(p) {
                    None => NormOutcome::Empty,
                    Some(NormOutcome::Normal(q)) => if q.len() == 0 {
                        NormOutcome::Normal(base)
                    } else {
                        join_name_spec(q, base)
                    },
                    Some(other) => other,
                },
            };
            match joined {
                NormOutcome::Normal(m) => match validate_spec(m) {
                    ValidOutcome::Valid => NormOutcome::Normal(m),
                    ValidOutcome::Invalid => NormOutcome::Empty,
                    ValidOutcome::Traversal => NormOutcome::Traversal,
                },
                other => other,
            }
        },
        other => other,
    }
}

/// Whether a result agrees with a naming outcome.
pub open spec fn name_result(o: NormOutcome, r: Result<String>) -> bool {
    match o {
        NormOutcome::Normal(n) => r matches Ok(v) && v@ == n,
        NormOutcome::Traversal => r matches Err(e) && e is PathTraversal,
        NormOutcome::Empty => r matches Err(e) && e is InvalidMemberName,
    }
}

/// Compute the archive member name for an embed input.
pub fn member_name(input: &str, keep_path: bool, prefix: Option<&str>) -> (r: Result<String>)
    ensures
        name_result(
            member_name_spec(
                input@,
                keep_path,
                match prefix {
                    Some(p) => Some(p@),
                    None => None,
                },
            ),
            r,
        ),
{
    let base = if keep_path {
        normalize_archive_path(input)?
    } else {
        basename_utf8(input)?
    };
    let bv = chars_of(base.as_str());
    let is_dot = bv.len() == 1 && bv[0] == '.';
    let is_dotdot = bv.len() == 2 && bv[0] == '.' && bv[1] == '.';
    proof {
        if bv@ == dot() {
            assert(is_dot);
        }
        if is_dot {
            assert(bv@ =~= dot());
        }
        if bv@ == dotdot() {
            assert(is_dotdot);
        }
        if is_dotdot {
            assert(bv@ =~= dotdot());
        }
    }
    if bv.len() == 0 || is_dot || is_dotdot {
        return Err(Error::InvalidMemberName(concat_str("invalid base name for ", input)));
    }
    let member = match prefix {
        Some(p) => {
            let q = normalize_prefix(p)?;
            if q.as_str().unicode_len() == 0 {
                base
            } else {
                join_archive_name(q.as_str(), base.as_str())?
            }
        },
        None => base,
    };
    validate_member_name(member.as_str())?;
    Ok(member)
}

/// Whether the first bytes of a file start with the 7z signature.
pub fn has_sevenz_magic_bytes(head: &[u8]) -> (b: bool)
    ensures
        b == (head@.len() >= 6 && head@.take(6) == sevenz_magic()),
{
    if head.len() < 6 {
        return false;
    }
    let b = head[0] == 0x37 && head[1] == 0x7A && head[2] == 0xBC && head[3] == 0xAF && head[4] == 0x27 && head[5]
        == 0x1C;
    proof {
        if b {
            assert(head@.take(6) =~= sevenz_magic());
        }
        if head@.take(6) == sevenz_magic() {
            assert(head@.take(6)[0] == head@[0]);
            assert(head@.take(6)[5] == head@[5]);
            assert(head@.take(6)[1] == head@[1]);
            assert(head@.take(6)[2] == head@[2]);
            assert(head@.take(6)[3] == head@[3]);
            assert(head@.take(6)[4] == head@[4]);
        }
    }
    b
}

/// What was found out about one embed input on disk.
#[derive(Debug)]
pub enum InputFacts {
    /// The input could not be examined; the message says why.
    StatFailed(String),
    /// The input is a symlink, directory or other non-regular file.
    NotRegular,
    /// A regular file, and whether it starts with the 7z signature (`Err`
    /// with a message when that could not be read; `Ok(false)` when it was
    /// not looked at because any file is allowed).
    Regular(core::result::Result<bool, String>),
}

/// Whether an input passes the file and signature checks.
pub open spec fn facts_ok(f: InputFacts, require_7z: bool, allow_any: bool) -> bool {
    match f {
        InputFacts::StatFailed(_) => false,
        InputFacts::NotRegular => false,
        InputFacts::Regular(m) => allow_any || match m {
            Ok(has) => has || !require_7z,
            Err(_) => false,
        },
    }
}

pub open spec fn prefix_view(p: Option<String>) -> Option<Seq<char>> {
    match p {
        Some(s) => Some(s@),
        None => None,
    }
}

/// The member name planned for input `i`, if naming succeeds.
pub open spec fn planned_name(a: EmbedArgs, i: int) -> Option<Seq<char>> {
    match member_name_spec(a.inputs@[i]@, a.keep_path, prefix_view(a.prefix)) {
        NormOutcome::Normal(n) => Some(n),
        _ => None,
    }
}

/// Input `i` passes every check, its name included, and its name is not one
/// of an earlier input's.
pub open spec fn input_ok(a: EmbedArgs, facts: Seq<InputFacts>, i: int) -> bool {
    &&& facts_ok(facts[i], a.require_7z, a.allow_any)
    &&& planned_name(a, i) is Some
    &&& forall|j: int| 0 <= j < i ==> planned_name(a, j) != planned_name(a, i)
}

/// The error `plan_embed` gives for input `i`, the first one that fails.
pub open spec fn input_error(a: EmbedArgs, facts: Seq<InputFacts>, i: int, e: Error) -> bool {
    match facts[i] {
        InputFacts::StatFailed(m) => e matches Error::Message(x) && x@ == m@,
        InputFacts::NotRegular => e matches Error::NotRegularFile(p) && p@ == a.inputs@[i]@,
        InputFacts::Regular(m) => if !facts_ok(facts[i], a.require_7z, a.allow_any) {
            e is Message
        } else {
            match member_name_spec(a.inputs@[i]@, a.keep_path, prefix_view(a.prefix)) {
                NormOutcome::Traversal => e is PathTraversal,
                NormOutcome::Empty => e is InvalidMemberName,
                NormOutcome::Normal(n) => e matches Error::Collision(c) && c@ == n,
            }
        },
    }
}

/// Plan embed members from the inputs and what was found out about each on
/// disk: check each input in order, name it and refuse duplicate names.
pub fn plan_embed(args: &EmbedArgs, facts: &[InputFacts]) -> (r: Result<Vec<EmbedMember>>)
    requires
        facts.len() == args.inputs.len(),
    ensures
        args.inputs.len() == 0 ==> (r matches Err(e) && e is EmptyArchive),
        args.inputs.len() > 0 ==> match r {
            Ok(ms) => {
                &&& forall|i: int| 0 <= i < args.inputs.len() ==> input_ok(*args, facts@, i)
                &&& ms.len() == args.inputs.len()
                &&& forall|i: int|
                    0 <= i < ms.len() ==> (#[trigger] ms@[i]).src@ == args.inputs@[i]@ && Some(ms@[i].archive_name@)
                        == planned_name(*args, i)
            },
            Err(e) => exists|i: int|
                0 <= i < args.inputs.len() && (forall|j: int| 0 <= j < i ==> input_ok(*args, facts@, j)) && !input_ok(
                    *args,
                    facts@,
                    i,
                ) && #[trigger] input_error(*args, facts@, i, e),
        },
{
    if args.inputs.len() == 0 {
        return Err(Error::EmptyArchive);
    }
    let prefix: Option<&str> = match &args.prefix {
        Some(p) => Some(p.as_str()),
        None => None,
    };
    let mut members: Vec<EmbedMember> = Vec::new();
    let mut i: usize = 0;
    while i < args.inputs.len()
        invariant
            i <= args.inputs.len(),
            facts.len() == args.inputs.len(),
            prefix_view(args.prefix) == match prefix {
                Some(p) => Some(p@),
                None => None,
            },
            members.len() == i,
            forall|j: int| 0 <= j < i ==> input_ok(*args, facts@, j),
            forall|j: int|
                0 <= j < i ==> (#[trigger] members@[j]).src@ == args.inputs@[j]@ && Some(members@[j].archive_name@)
                    == planned_name(*args, j),
        decreases args.inputs.len() - i,
    {
        let src = &args.inputs[i];
        match &facts[i] {
            InputFacts::StatFailed(m) => {
                let e = Error::Message(string_from(m.as_str()));
                assert(input_error(*args, facts@, i as int, e));
                return Err(e);
            },
            InputFacts::NotRegular => {
                let e = Error::NotRegularFile(string_from(src.as_str()));
                assert(input_error(*args, facts@, i as int, e));
                return Err(e);
            },
            InputFacts::Regular(m) => {
                if !args.allow_any {
                    match m {
                        Ok(has) => {
                            if !*has && args.require_7z {
                                let e = Error::Message(
                                    concat_str(
                                        "missing 7z magic (use --allow-any to embed arbitrary files): ",
                                        src.as_str(),
                                    ),
                                );
                                assert(input_error(*args, facts@, i as int, e));
                                return Err(e);
                            }
                        },
                        Err(msg) => {
                            let e = Error::Message(string_from(msg.as_str()));
                            assert(input_error(*args, facts@, i as int, e));
                            return Err(e);
                        },
                    }
                }
            },
        }
        assert(facts_ok(facts@[i as int], args.require_7z, args.allow_any));
        let name = match member_name(src.as_str(), args.keep_path, prefix) {
            Ok(n) => n,
            Err(e) => {
                assert(input_error(*args, facts@, i as int, e));
                return Err(e);
            },
        };
        let nv = chars_of(name.as_str());
        let mut k: usize = 0;
        while k < members.len()
            invariant
                k <= members.len(),
                members.len() == i,
                i < args.inputs.len(),
                facts.len() == args.inputs.len(),
                forall|j: int| 0 <= j < i ==> input_ok(*args, facts@, j),
                nv@ == name@,
                facts_ok(facts@[i as int], args.require_7z, args.allow_any),
                member_name_spec(args.inputs@[i as int]@, args.keep_path, prefix_view(args.prefix)) == NormOutcome::Normal(name@),
                forall|j: int|
                    0 <= j < i ==> Some((#[trigger] members@[j]).archive_name@) == planned_name(*args, j),
                forall|j: int| 0 <= j < k ==> (#[trigger] members@[j]).archive_name@ != name@,
            decreases members.len() - k,
        {
            let mv = chars_of(members[k].archive_name.as_str());
            if eq_chars(&mv, &nv) {
                let e = Error::Collision(name);
                proof {
                    assert(planned_name(*args, k as int) == planned_name(*args, i as int));
                    assert(!input_ok(*args, facts@, i as int));
                    assert(input_error(*args, facts@, i as int, e));
                }
                return Err(e);
            }
            k = k + 1;
        }
        proof {
            assert forall|j: int| 0 <= j < i implies planned_name(*args, j) != planned_name(*args, i as int) by {
                assert(members@[j].archive_name@ != name@);
            }
        }
        members.push(EmbedMember { src: string_from(src.as_str()), archive_name: name });
        i = i + 1;
    }
    Ok(members)
}

} // verus!
