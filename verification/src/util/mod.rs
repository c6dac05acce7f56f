//! Shared helpers: worker policy, size parsing, soft-skip summary, and
//! retrying interrupted I/O.

pub mod auto_threads;
pub mod size_parse;
pub mod soft_log;

use vstd::prelude::*;

verus! {

/// The standard library's I/O error, carried through the retry loop.
#[verifier::external_type_specification]
#[verifier::external_body]
pub struct ExIoError(std::io::Error);

/// How many consecutive interrupted results to tolerate before failing.
pub const INTERRUPTED_RETRY_LIMIT: u32 = 16;

/// `std::io::Error::kind` compared with `ErrorKind::Interrupted`: whether the
/// error reports an interrupted system call. What the kind of a given error
/// is cannot be stated here, so nothing is claimed of the answer.
#[verifier::external_body]
pub fn is_retryable_fs_io(e: &std::io::Error) -> (b: bool) {
    e.kind() == std::io::ErrorKind::Interrupted
}

/// How a retry loop went: `hist` are the results of the calls of `f`, in
/// order, and `r` is what the loop returned. Every result but the last is an
/// error that `again` asked to retry; the loop stops at the first result
/// that is not such an error, or after [`INTERRUPTED_RETRY_LIMIT`] calls,
/// and returns the last result.
pub open spec fn retry_history<T, E, F: Fn() -> core::result::Result<T, E>, P: Fn(&E) -> bool>(
    f: F,
    again: P,
    hist: Seq<core::result::Result<T, E>>,
    r: core::result::Result<T, E>,
) -> bool {
    &&& 1 <= hist.len() <= INTERRUPTED_RETRY_LIMIT
    &&& r == hist.last()
    &&& forall|k: int| 0 <= k < hist.len() ==> call_ensures(f, (), #[trigger] hist[k])
    &&& forall|k: int|
        0 <= k < hist.len() - 1 ==> (#[trigger] hist[k] matches Err(e) && call_ensures(again, (&e,), true))
    &&& hist.len() < INTERRUPTED_RETRY_LIMIT ==> (r is Ok || (r matches Err(e) && call_ensures(again, (&e,), false)))
}

/// Call `f` until it returns something other than an error that `again`
/// asks to retry, at most [`INTERRUPTED_RETRY_LIMIT`] times; the last result
/// is handed back.
pub fn retry_while<T, E, F: Fn() -> core::result::Result<T, E>, P: Fn(&E) -> bool>(f: F, again: P) -> (r:
    core::result::Result<T, E>)
    requires
        call_requires(f, ()),
        forall|e: &E| call_requires(again, (e,)),
    ensures
        exists|hist: Seq<core::result::Result<T, E>>| retry_history(f, again, hist, r),
{
    let mut attempts: u32 = 0;
    let ghost mut hist: Seq<core::result::Result<T, E>> = Seq::empty();
    loop
        invariant
            attempts < INTERRUPTED_RETRY_LIMIT,
            hist.len() == attempts,
            call_requires(f, ()),
            forall|e: &E| call_requires(again, (e,)),
            forall|k: int| 0 <= k < hist.len() ==> call_ensures(f, (), #[trigger] hist[k]),
            forall|k: int| 0 <= k < hist.len() ==> (#[trigger] hist[k] matches Err(e) && call_ensures(again, (&e,), true)),
        decreases INTERRUPTED_RETRY_LIMIT - attempts,
    {
        let r = f();
        let retry = match &r {
            Err(e) => again(e),
            Ok(_) => false,
        };
        proof {
            hist = hist.push(r);
        }
        if !retry {
            assert(retry_history(f, again, hist, r));
            return r;
        }
        attempts = attempts + 1;
        if attempts >= INTERRUPTED_RETRY_LIMIT {
            assert(retry_history(f, again, hist, r));
            return r;
        }
    }
}

/// Call `f` until it returns something other than an interrupted error, at
/// most [`INTERRUPTED_RETRY_LIMIT`] times; the last result is handed back.
/// Which errors count as interrupted is [`is_retryable_fs_io`]'s answer.
pub fn retry_interrupted<T, F: Fn() -> std::io::Result<T>>(f: F) -> (r: std::io::Result<T>)
    requires
        call_requires(f, ()),
    ensures
        exists|hist: Seq<std::io::Result<T>>| retry_history(f, is_retryable_fs_io, hist, r),
{
    retry_while(f, is_retryable_fs_io)
}

} // verus!
