//! The random source. Every draw is made through one of these functions;
//! their contracts say only what holds of every outcome.
use rand::rngs::StdRng;
use vstd::prelude::*;

verus! {

#[verifier::external_type_specification]
#[verifier::external_body]
pub struct ExStdRng(StdRng);

/// `rand::seq::SliceRandom::choose` on a slice: `None` where the slice is
/// empty, else a reference to one of its elements.
#[verifier::external_body]
pub(crate) fn pick<'a, T>(items: &'a [T], rng: &mut StdRng) -> (picked: Option<&'a T>)
    ensures
        picked is None <==> items@.len() == 0,
        picked matches Some(x) ==> exists|i: int| 0 <= i < items@.len() && items@[i] == *x,
{
    rand::seq::SliceRandom::choose(items, rng)
}

/// `rand::Rng::gen_range` on the half-open range from 0 to `n`: a number
/// below `n`. The outside function panics on an empty range.
#[verifier::external_body]
pub(crate) fn below(rng: &mut StdRng, n: usize) -> (r: usize)
    requires
        n > 0,
    ensures
        r < n,
{
    rand::Rng::gen_range(rng, 0..n)
}

/// `rand::Rng::gen_range` on the closed range from 0 to `n`: a number that is
/// at most `n`.
#[verifier::external_body]
pub(crate) fn at_most(rng: &mut StdRng, n: usize) -> (r: usize)
    ensures
        r <= n,
{
    rand::Rng::gen_range(rng, 0..=n)
}

/// `rand::Rng::gen_range` on the closed range from `lo` to `hi`: a number
/// within it. The outside function panics on an empty range.
#[verifier::external_body]
pub(crate) fn between(rng: &mut StdRng, lo: i32, hi: i32) -> (r: i32)
    requires
        lo <= hi,
    ensures
        lo <= r <= hi,
{
    rand::Rng::gen_range(rng, lo..=hi)
}

} // verus!
