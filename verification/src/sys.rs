//! The library's only contact with the world outside the state machine:
//! the clock and the random number generator.  Each item is a trusted
//! wrapper around one outside call.

use vstd::prelude::*;
use rand::Rng;
use rand::seq::SliceRandom;
use crate::cards::card_bag;

verus! {

/// Seconds since the Unix epoch.
///
/// Relies on `std::time::SystemTime::now`.  The clock is environmental, so
/// nothing is promised of the value; callers state what holds of any time.
#[verifier::external_body]
pub fn get_time_s() -> u64 {
    std::time::SystemTime::now()
        .duration_since(std::time::UNIX_EPOCH)
        .map(|d| d.as_secs())
        .unwrap_or(0)
}

/// A random index below `n`.
///
/// Relies on `rand::Rng::gen_range` over `0..n`, which panics on an empty
/// range and otherwise returns a value inside it.  The draw is random, so
/// only the bound is promised.
#[verifier::external_body]
pub fn random_below(n: usize) -> (r: usize)
    requires
        n > 0,
    ensures
        r < n,
{
    rand::thread_rng().gen_range(0..n)
}

/// Permute a list of strings in place.
///
/// Relies on `rand::seq::SliceRandom::shuffle`, which rearranges the
/// elements by swaps and neither adds nor removes any.  The order is
/// random, so only the contents are promised.
#[verifier::external_body]
pub fn shuffle_strings(v: &mut Vec<String>)
    ensures
        final(v)@.len() == old(v)@.len(),
        card_bag(final(v)@) == card_bag(old(v)@),
{
    v.shuffle(&mut rand::thread_rng());
}

} // verus!
