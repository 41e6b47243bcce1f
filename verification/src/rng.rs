//! Random generation of encryption keys: uniformly drawn alphabet indices.

use vstd::prelude::*;

verus! {

/// Relies on rand's `Uniform::from(0..n)` together with
/// `Distribution::sample` and `thread_rng`: a sample from the half-open
/// range `[0, n)` is an integer below `n`.  `Uniform::from` panics when the
/// range is empty, so `n` must be positive.
#[verifier::external_body]
fn sample_below(n: usize) -> (r: usize)
    requires
        n > 0,
    ensures
        r < n,
{
    let dist = rand::distributions::Uniform::from(0..n);
    rand::distributions::Distribution::sample(&dist, &mut rand::thread_rng())
}

/// Draws `keysize` independent uniform samples from `[0, range)`, the fresh
/// encryption key for an alphabet of `range` characters.
///
/// The degenerate case `range == 0` offers nothing to sample from; it is
/// answered with the empty key rather than an error, since an engine's
/// alphabet is never empty.
pub fn get_one_time_pad_key(range: usize, keysize: usize) -> (r: Vec<usize>)
    ensures
        range > 0 ==> r@.len() == keysize,
        range == 0 ==> r@.len() == 0,
        forall|i: int| 0 <= i < r@.len() ==> r@[i] < range,
{
    let mut r: Vec<usize> = Vec::new();
    if range == 0 {
        return r;
    }
    let mut i: usize = 0;
    while i < keysize
        invariant
            range > 0,
            i <= keysize,
            r@.len() == i as int,
            forall|j: int| 0 <= j < r@.len() ==> r@[j] < range,
        decreases keysize - i,
    {
        r.push(sample_below(range));
        i = i + 1;
    }
    r
}

} // verus!
