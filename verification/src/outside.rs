//! The trusted boundary to the outside crates: the system clock (chrono) and
//! the random number generator (rand). Each wrapper states only what the
//! called crate's own source shows; of a random or clock-dependent result it
//! states what holds of every outcome.

use vstd::prelude::*;
use chrono::Timelike;
use rand::distributions::Distribution;

verus! {

/// Relies on chrono's `Local::now` and its `timestamp`, `hour`, `minute` and
/// `second` accessors: the current moment as whole seconds since the unix
/// epoch, and the local time of day. chrono keeps `hour` below 24 and
/// `minute` and `second` below 60; nothing can be promised of the timestamp
/// itself, which depends on the machine's clock.
#[verifier::external_body]
pub(crate) fn now_parts() -> (r: (i64, u32, u32, u32))
    ensures
        r.1 < 24,
        r.2 < 60,
        r.3 < 60,
{
    let now = chrono::Local::now();
    (now.timestamp(), now.hour(), now.minute(), now.second())
}

/// Relies on rand's `Rng::gen_range` over `0..bound`: the draw lies in the
/// (non-empty) range. Which value comes back depends on the generator, so no
/// more is stated.
#[verifier::external_body]
pub(crate) fn rand_below(bound: u128) -> (r: u128)
    requires
        bound > 0,
    ensures
        r < bound,
{
    rand::Rng::gen_range(&mut rand::thread_rng(), 0..bound)
}

/// Relies on rand's `WeightedIndex::new` and `Distribution::sample`: `new`
/// fails exactly when the weights are empty or all zero (for unsigned weights
/// no other failure is reachable), and `sample` returns the index of an entry
/// with positive weight. The weights are widened to `u128` before summing, so
/// the sum of at most `usize::MAX` values of `u64` cannot overflow.
#[verifier::external_body]
pub(crate) fn weighted_pick(weights: &Vec<u64>) -> (r: Option<usize>)
    ensures
        r matches Some(i) ==> i < weights@.len() && weights@[i as int] > 0,
        r is None <==> (forall|j: int| 0 <= j < weights@.len() ==> weights@[j] == 0),
{
    let dist = match rand::distributions::WeightedIndex::new(weights.iter().map(|w| *w as u128)) {
        Ok(d) => d,
        Err(_) => return None,
    };
    Some(dist.sample(&mut rand::thread_rng()))
}

} // verus!
