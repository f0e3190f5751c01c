use vstd::prelude::*;

verus! {

/// Relies on rand's `Rng::gen_range` over `a..=b`: for a nonempty inclusive
/// range it returns a uniformly drawn value inside the range.
#[verifier::external_body]
pub(crate) fn rand_usize(a: usize, b: usize) -> (r: usize)
    requires
        a <= b,
    ensures
        a <= r <= b,
{
    rand::Rng::gen_range(&mut rand::thread_rng(), a..=b)
}

/// Relies on rand's `Rng::gen_range` over `a..=b`: for a nonempty inclusive
/// range it returns a uniformly drawn value inside the range.
#[verifier::external_body]
pub(crate) fn rand_i64(a: i64, b: i64) -> (r: i64)
    requires
        a <= b,
    ensures
        a <= r <= b,
{
    rand::Rng::gen_range(&mut rand::thread_rng(), a..=b)
}

/// A biased coin: true with probability `num / den`. Nothing can be promised
/// of a single draw beyond well-definedness.
pub(crate) fn chance(num: usize, den: usize) -> bool
    requires
        0 < den,
{
    let x = rand_usize(0, den - 1);
    x < num
}

} // verus!
