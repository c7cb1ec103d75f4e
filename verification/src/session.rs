//! The one decision an order session takes between cycles.

use vstd::prelude::*;

verus! {

/// ASCII code of the letter `y`.
pub const LOWER_Y: u8 = 121;

/// ASCII code of the letter `Y`.
pub const UPPER_Y: u8 = 89;

/// Decides whether the session runs another order cycle: it does exactly
/// when the operator's answer, given as ASCII bytes, is the single letter
/// `y` in either case. Any other answer ends the session.
pub fn continue_ordering(answer: &[u8]) -> (r: bool)
    ensures
        r == (answer@.len() == 1 && (answer@[0] == LOWER_Y || answer@[0] == UPPER_Y)),
{
    answer.len() == 1 && (answer[0] == LOWER_Y || answer[0] == UPPER_Y)
}

} // verus!
