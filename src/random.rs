use vstd::prelude::*;

use rand::seq::SliceRandom;
use rand_seeder::SipRng;

verus! {

/// The seeded random source of rand_seeder, threaded through every step that
/// draws.
#[verifier::external_type_specification]
#[verifier::external_body]
pub struct ExSipRng(SipRng);

/// Relies on rand's `SliceRandom::shuffle`: the items are permuted in place,
/// none added or lost.
#[verifier::external_body]
pub(crate) fn shuffle<T>(v: &mut Vec<T>, rng: &mut SipRng)
    ensures
        final(v)@.to_multiset() == old(v)@.to_multiset(),
{
    v.shuffle(rng);
}

/// Relies on rand's `SliceRandom::choose`: one item of a non-empty slice.
#[verifier::external_body]
pub(crate) fn choose_text(options: &[&'static str], rng: &mut SipRng) -> (r: &'static str)
    requires
        options@.len() > 0,
    ensures
        options@.contains(r),
{
    options.choose(rng).unwrap()
}

} // verus!
