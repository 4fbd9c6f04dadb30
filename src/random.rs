//! Random draws from the thread-local generator of `rand`.
use rand::Rng;
use vstd::prelude::*;

verus! {

/// Relies on `rand::Rng::gen_range` with an inclusive range, on
/// `rand::thread_rng()`: a value between `lo` and `hi`, both included; it
/// panics only on an empty range.
#[verifier::external_body]
pub(crate) fn draw_between(lo: i64, hi: i64) -> (r: i64)
    requires
        lo <= hi,
    ensures
        lo <= r <= hi,
{
    rand::thread_rng().gen_range(lo..=hi)
}

/// Relies on `rand::random::<bool>`: a fair coin, of which nothing is promised.
#[verifier::external_body]
pub(crate) fn draw_coin() -> (r: bool) {
    rand::random::<bool>()
}

} // verus!
