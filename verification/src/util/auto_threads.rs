//! Worker-count policy for create: an explicit count always wins; many tiny
//! files pack best on one worker; otherwise every available CPU.

use vstd::prelude::*;

verus! {

/// Selections with at least this many files use one encode worker.
pub const HIGH_FILE_COUNT: usize = 1000;

/// Selections whose average file is smaller than this use one encode worker.
pub const SMALL_AVG_SIZE: u64 = 65536;

/// Encode workers for a selection of `file_count` files and `total_bytes`
/// bytes on a machine with `parallelism` CPUs.
pub open spec fn workers_spec(explicit: Option<u32>, file_count: usize, total_bytes: u64, parallelism: usize) -> int {
    match explicit {
        Some(t) => if t < 1 {
            1
        } else {
            t as int
        },
        None => if file_count == 0 {
            1
        } else if file_count >= HIGH_FILE_COUNT || total_bytes / (file_count as u64) < SMALL_AVG_SIZE {
            1
        } else {
            parallelism as int
        },
    }
}

/// Resolve the pack / encode worker count for create, given the available
/// parallelism of the machine (see [`workers_spec`]).
pub fn resolve_encode_workers(explicit: Option<u32>, file_count: usize, total_bytes: u64, parallelism: usize) -> (n: usize)
    requires
        parallelism >= 1,
    ensures
        n == workers_spec(explicit, file_count, total_bytes, parallelism),
        n >= 1,
{
    if let Some(t) = explicit {
        return if t < 1 {
            1
        } else {
            t as usize
        };
    }
    if file_count == 0 {
        return 1;
    }
    let avg = total_bytes / file_count as u64;
    if file_count >= HIGH_FILE_COUNT || avg < SMALL_AVG_SIZE {
        1
    } else {
        parallelism
    }
}

/// Resolve concurrent encode slots from `--encode-concurrency` (`0` = auto
/// from the thread count).
pub fn resolve_encode_concurrency(explicit: usize, threads_or_auto: usize) -> (n: usize)
    ensures
        n == (if explicit == 0 {
            if threads_or_auto < 1 { 1 } else { threads_or_auto }
        } else {
            explicit
        }),
{
    if explicit == 0 {
        if threads_or_auto < 1 {
            1
        } else {
            threads_or_auto
        }
    } else {
        explicit
    }
}

/// Sum of sizes, held at `u64::MAX`.
pub open spec fn sat_sum(sizes: Seq<u64>) -> nat
    decreases sizes.len(),
{
    if sizes.len() == 0 {
        0
    } else {
        let s = sat_sum(sizes.drop_last()) + sizes.last() as nat;
        if s > u64::MAX {
            u64::MAX as nat
        } else {
            s
        }
    }
}

/// File count and total bytes (saturating) of a list of sizes.
pub fn file_stats_from_sizes(sizes: &[u64]) -> (r: (usize, u64))
    ensures
        r.0 == sizes@.len(),
        r.1 == sat_sum(sizes@),
{
    let mut bytes: u64 = 0;
    let mut i: usize = 0;
    while i < sizes.len()
        invariant
            i <= sizes.len(),
            bytes == sat_sum(sizes@.take(i as int)),
        decreases sizes.len() - i,
    {
        assert(sizes@.take(i + 1).drop_last() =~= sizes@.take(i as int));
        bytes = bytes.saturating_add(sizes[i]);
        i = i + 1;
    }
    assert(sizes@.take(sizes.len() as int) =~= sizes@);
    (sizes.len(), bytes)
}

} // verus!
