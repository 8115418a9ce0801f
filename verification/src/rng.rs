//! The random source that the interpreter draws from.

use vstd::prelude::*;
use rand::rngs::SmallRng;
use rand::Rng;

verus! {

/// `rand::rngs::SmallRng`, the generator that random turns are drawn from.
/// Its state is not modelled: a value of it is only carried to the draw.
#[verifier::external_type_specification]
#[verifier::external_body]
pub struct SmallRngState(SmallRng);

/// Draws the number of a direction: `rand::Rng::gen_range` on the range
/// `0..4`, with `i32` numbers. The range is not empty, so the call does not
/// panic, and the crate documents that the value it generates lies in the
/// given range. Which of the four numbers comes depends on the state of the
/// generator, of which nothing is claimed.
#[verifier::external_body]
pub(crate) fn draw_turn(rng: &mut SmallRng) -> (draw: i32)
    ensures
        0 <= draw < 4,
{
    rng.gen_range(0..4)
}

} // verus!
