//! The simulator's only source of randomness.
//!
//! Measurement draws one value uniformly from [0, 1), here a fixed-point
//! integer in [0, SCALE). The draw is the single trusted call; everything
//! that interprets it is verified for every possible drawn value.

use vstd::prelude::*;

use crate::scalar::SCALE;

verus! {

/// Relies on rand::random_range: a draw from the non-empty range
/// 0..SCALE lies in that range. Nothing more is assumed of it.
#[verifier::external_body]
pub fn draw_unit() -> (r: i64)
    ensures
        0 <= r < SCALE,
{
    rand::random_range(0..SCALE)
}

} // verus!
