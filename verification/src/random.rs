//! The seeded random source of the `rand` crate. Nothing in this module is
//! proved, and nothing is claimed of which value is drawn.

use vstd::prelude::*;
use rand::{Rng, StdRng};

verus! {

#[verifier::external_type_specification]
#[verifier::external_body]
pub struct ExStdRng(StdRng);

/// `Rng::choose`: nothing when `values` is empty, else one of its items.
#[verifier::external_body]
pub(crate) fn pick<'a, T>(rng: &mut StdRng, values: &'a [T]) -> (picked: Option<&'a T>)
    ensures
        match picked {
            Some(value) => values@.contains(*value),
            None => values@.len() == 0,
        },
{
    rng.choose(values)
}

} // verus!
