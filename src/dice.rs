//! Dice: one six-sided die per category with faces 1, 1, 1, 2, 2, 3.
use vstd::prelude::*;
use rand::rngs::StdRng;
use crate::cards::{BITS_CATEGORY_PAPER, BITS_CATEGORY_ROCK, BITS_CATEGORY_SCISSORS};
use crate::moves::DiceRoll;
use crate::random::random_index;

verus! {

/// The value of face `i` of a die.
pub open spec fn face_value(i: int) -> i8 {
    if i < 3 {
        1
    } else if i < 5 {
        2
    } else {
        3
    }
}

/// The value of face `face` of a die.
pub fn dice_face(face: usize) -> (r: i8)
    requires
        face < 6,
    ensures
        r == face_value(face as int),
{
    if face < 3 {
        1
    } else if face < 5 {
        2
    } else {
        3
    }
}

/// Rolls one die.
pub fn roll_dice(rng: &mut StdRng) -> (r: i8)
    ensures
        1 <= r <= 3,
{
    dice_face(random_index(rng, 6))
}

/// Rolls the rock, paper and scissors dice, in that order.
pub fn roll_dice_three_times(rng: &mut StdRng) -> (r: [DiceRoll; 3])
    ensures
        r@[0].category == BITS_CATEGORY_ROCK,
        r@[1].category == BITS_CATEGORY_PAPER,
        r@[2].category == BITS_CATEGORY_SCISSORS,
        forall|i: int| 0 <= i < 3 ==> 1 <= #[trigger] r@[i].roll <= 3,
{
    let rock = roll_dice(rng);
    let paper = roll_dice(rng);
    let scissors = roll_dice(rng);
    [
        DiceRoll { category: BITS_CATEGORY_ROCK, roll: rock },
        DiceRoll { category: BITS_CATEGORY_PAPER, roll: paper },
        DiceRoll { category: BITS_CATEGORY_SCISSORS, roll: scissors },
    ]
}

} // verus!
