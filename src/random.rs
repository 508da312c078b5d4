//! Drawing edge values with the thread-local random generator.

use rand::Rng;
use vstd::prelude::*;

verus! {

/// A value drawn for one interlocking edge: a shape in `1..=side_types`
/// with either sign.
pub open spec fn is_side_pick(v: i8, side_types: u8) -> bool {
    &&& v != 0
    &&& -(side_types as int) <= v <= side_types
}

/// Relies on rand's `thread_rng().gen_range(1..=n)`: a value inside the
/// inclusive range, which must not be empty.
#[verifier::external_body]
fn random_magnitude(side_types: u8) -> (r: u8)
    requires
        side_types >= 1,
    ensures
        1 <= r <= side_types,
{
    rand::thread_rng().gen_range(1..=side_types)
}

/// Relies on rand's `random::<bool>()`: a fair coin flip.
#[verifier::external_body]
fn random_sign() -> (r: bool) {
    rand::random::<bool>()
}

/// The edge value for a drawn shape and sign: the shape itself when the
/// sign is positive, its negation otherwise.
pub fn side_from_draw(magnitude: u8, positive: bool) -> (r: i8)
    requires
        1 <= magnitude <= 127,
    ensures
        r as int == if positive {
            magnitude as int
        } else {
            -(magnitude as int)
        },
{
    let side = magnitude as i8;
    if positive {
        side
    } else {
        -side
    }
}

/// Draws a fresh edge value: a uniform shape and an independent fair sign.
pub fn pick_side(side_types: u8) -> (r: i8)
    requires
        1 <= side_types <= 127,
    ensures
        is_side_pick(r, side_types),
{
    let magnitude = random_magnitude(side_types);
    let positive = random_sign();
    side_from_draw(magnitude, positive)
}

} // verus!
