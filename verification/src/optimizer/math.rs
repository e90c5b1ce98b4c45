//! Counting cards seen. The probabilities built on it are floating point and live with the
//! application.

use vstd::prelude::*;

verus! {

/// The opening hand.
pub const OPENING_HAND: u32 = 7;

/// Cards seen by the start of turn `turn`: the opening seven and one per draw step, the
/// first draw skipped on the play.
pub open spec fn seen(turn: u32, on_the_play: bool) -> int {
    OPENING_HAND + (if on_the_play {
        if turn >= 1 {
            turn - 1
        } else {
            0
        }
    } else {
        turn as int
    })
}

/// How many cards you have seen by the start of turn `turn`.
///
/// Seven for the opening hand, plus one per draw step. On the play you skip the first draw,
/// which is the whole disadvantage of choosing to go first.
pub fn cards_seen_by_turn(turn: u32, on_the_play: bool) -> (r: u32)
    requires
        seen(turn, on_the_play) <= u32::MAX,
    ensures
        r == seen(turn, on_the_play),
{
    let skipped: u32 = if on_the_play {
        1
    } else {
        0
    };
    let draws = turn.saturating_sub(skipped);
    OPENING_HAND + draws
}

/// Going second sees exactly one more card by any turn from the first on.
pub proof fn law_going_second_sees_one_more_card(turn: u32)
    requires
        turn >= 1,
    ensures
        seen(turn, false) == seen(turn, true) + 1,
{
}

} // verus!
