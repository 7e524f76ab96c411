//! The random source. The generator itself is `rltk`'s; the functions here
//! say what every roll is known to satisfy.

use vstd::prelude::*;

verus! {

#[verifier::external_type_specification]
#[verifier::external_body]
pub struct ExRandomNumberGenerator(rltk::RandomNumberGenerator);

/// `rltk::RandomNumberGenerator::new`: a generator seeded from the system's
/// entropy. Nothing is claimed of its state.
#[verifier::external_body]
pub(crate) fn new_rng() -> rltk::RandomNumberGenerator {
    rltk::RandomNumberGenerator::new()
}

/// `rltk::RandomNumberGenerator::roll_dice`: the sum of `n` dice with
/// `die_type` sides each. Every die shows at least 1 and at most `die_type`,
/// so the sum lies between `n` and `n * die_type`. The call aborts on a die
/// without sides and on a sum that leaves `i32`; both are excluded here.
#[verifier::external_body]
pub(crate) fn roll_dice(rng: &mut rltk::RandomNumberGenerator, n: i32, die_type: i32) -> (r: i32)
    requires
        0 <= n,
        1 <= die_type < i32::MAX,
        n * die_type <= i32::MAX,
    ensures
        n <= r <= n * die_type,
{
    rng.roll_dice(n, die_type)
}

/// `rltk::RandomNumberGenerator::range` on `i32`: a value from `min`
/// (included) up to `max` (excluded). The call aborts on an empty range,
/// which is excluded here.
#[verifier::external_body]
pub(crate) fn range(rng: &mut rltk::RandomNumberGenerator, min: i32, max: i32) -> (r: i32)
    requires
        min < max,
    ensures
        min <= r < max,
{
    rng.range(min, max)
}

} // verus!
