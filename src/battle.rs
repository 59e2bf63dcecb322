//! Resolution of a single clash between two cards.
use vstd::prelude::*;
use crate::cards::{
    BIT_NON_NULL, BITS_CATEGORY_JOKER, BITS_CATEGORY_PAPER, BITS_CATEGORY_ROCK,
    BITS_CATEGORY_SCISSORS, CHECK_CATEGORY, CHECK_STRENGTH, CHECK_TEAM, NULL, category_bits,
    is_joker, is_valid_card, lemma_category_values, lemma_with_strength, strength_bits,
    with_strength,
};

verus! {

/// The outcome of one battle.
#[derive(Clone, Copy, Debug, PartialEq, Eq)]
pub struct BattleResult {
    /// `NULL` on a draw, else the winning card as it was before the battle.
    pub winner: u8,
    /// What is left of the first card: `NULL` when it is eliminated.
    pub card_a_residual: u8,
    /// What is left of the second card: `NULL` when it is eliminated.
    pub card_b_residual: u8,
}

/// Cyclic dominance: with rock, paper, scissors numbered 0, 1, 2, the card
/// whose number minus the other's is 1 modulo 3 wins.
pub open spec fn beats_category(a: u8, b: u8) -> bool {
    ((category_bits(a) / 16) as int + 3 - (category_bits(b) / 16) as int) % 3 == 1
}

/// A joker keeps `s` of its strength; any other card is left as it was.
pub open spec fn residual(c: u8, s: u8) -> u8 {
    if is_joker(c) {
        with_strength(c, s)
    } else {
        c
    }
}

/// The rules of a battle between `a` and `b`.
pub open spec fn battle_spec(a: u8, b: u8) -> BattleResult {
    let sa = strength_bits(a);
    let sb = strength_bits(b);
    if is_joker(a) || is_joker(b) {
        if sa > sb {
            BattleResult { winner: a, card_a_residual: residual(a, (sa - sb) as u8), card_b_residual: NULL }
        } else if sa < sb {
            BattleResult { winner: b, card_a_residual: NULL, card_b_residual: residual(b, (sb - sa) as u8) }
        } else {
            BattleResult { winner: NULL, card_a_residual: residual(a, 0), card_b_residual: residual(b, 0) }
        }
    } else if category_bits(a) != category_bits(b) {
        if beats_category(a, b) {
            BattleResult { winner: a, card_a_residual: a, card_b_residual: NULL }
        } else {
            BattleResult { winner: b, card_a_residual: NULL, card_b_residual: b }
        }
    } else if sa > sb {
        BattleResult { winner: a, card_a_residual: a, card_b_residual: NULL }
    } else if sa < sb {
        BattleResult { winner: b, card_a_residual: NULL, card_b_residual: b }
    } else {
        BattleResult { winner: NULL, card_a_residual: a, card_b_residual: b }
    }
}

fn reduced(card: u8, by: u8) -> (r: u8)
    requires
        by <= strength_bits(card),
    ensures
        r == with_strength(card, (strength_bits(card) - by) as u8),
{
    BIT_NON_NULL | (card & CHECK_TEAM) | (card & CHECK_CATEGORY) | ((card & CHECK_STRENGTH) - by)
}

/// Resolves the clash of `card_a` with `card_b`.
pub fn battle_winner(card_a: u8, card_b: u8) -> (r: BattleResult)
    ensures
        r == battle_spec(card_a, card_b),
{
    let category_a = card_a & CHECK_CATEGORY;
    let category_b = card_b & CHECK_CATEGORY;
    let strength_a = card_a & CHECK_STRENGTH;
    let strength_b = card_b & CHECK_STRENGTH;
    proof {
        lemma_category_values(card_a);
        lemma_category_values(card_b);
    }
    if category_a == BITS_CATEGORY_JOKER || category_b == BITS_CATEGORY_JOKER {
        if strength_a > strength_b {
            let a_left = if category_a == BITS_CATEGORY_JOKER {
                reduced(card_a, strength_b)
            } else {
                card_a
            };
            BattleResult { winner: card_a, card_a_residual: a_left, card_b_residual: NULL }
        } else if strength_a < strength_b {
            let b_left = if category_b == BITS_CATEGORY_JOKER {
                reduced(card_b, strength_a)
            } else {
                card_b
            };
            BattleResult { winner: card_b, card_a_residual: NULL, card_b_residual: b_left }
        } else {
            let a_left = if category_a == BITS_CATEGORY_JOKER {
                reduced(card_a, strength_a)
            } else {
                card_a
            };
            let b_left = if category_b == BITS_CATEGORY_JOKER {
                reduced(card_b, strength_b)
            } else {
                card_b
            };
            BattleResult { winner: NULL, card_a_residual: a_left, card_b_residual: b_left }
        }
    } else if category_a != category_b {
        let a_wins = if category_a == BITS_CATEGORY_ROCK {
            category_b == BITS_CATEGORY_SCISSORS
        } else if category_a == BITS_CATEGORY_PAPER {
            category_b == BITS_CATEGORY_ROCK
        } else {
            category_b == BITS_CATEGORY_PAPER
        };
        if a_wins {
            BattleResult { winner: card_a, card_a_residual: card_a, card_b_residual: NULL }
        } else {
            BattleResult { winner: card_b, card_a_residual: NULL, card_b_residual: card_b }
        }
    } else if strength_a > strength_b {
        BattleResult { winner: card_a, card_a_residual: card_a, card_b_residual: NULL }
    } else if strength_a < strength_b {
        BattleResult { winner: card_b, card_a_residual: NULL, card_b_residual: card_b }
    } else {
        BattleResult { winner: NULL, card_a_residual: card_a, card_b_residual: card_b }
    }
}

/// Swapping the two cards (and so the two teams) swaps the residuals and
/// keeps the winner. For two distinct live cards that are not jokers, exactly
/// one of "a wins", "b wins" and "draw" holds: a card of another category
/// wins by cyclic dominance, one of the same category by strength.
pub proof fn lemma_battle_symmetric(a: u8, b: u8)
    ensures
        battle_spec(b, a).winner == battle_spec(a, b).winner,
        battle_spec(b, a).card_a_residual == battle_spec(a, b).card_b_residual,
        battle_spec(b, a).card_b_residual == battle_spec(a, b).card_a_residual,
        a >= BIT_NON_NULL && b >= BIT_NON_NULL && a != b && !is_joker(a) && !is_joker(b) ==> {
            let w = battle_spec(a, b).winner;
            &&& (w == a) != (w == b) || w == NULL
            &&& !(w == NULL && (w == a || w == b))
            &&& (w == a) == (if category_bits(a) != category_bits(b) {
                beats_category(a, b)
            } else {
                strength_bits(a) > strength_bits(b)
            })
            &&& (w == b) == (if category_bits(a) != category_bits(b) {
                beats_category(b, a)
            } else {
                strength_bits(b) > strength_bits(a)
            })
        },
{
    lemma_category_values(a);
    lemma_category_values(b);
}

/// A joker that beats a weaker card keeps the difference of the strengths;
/// a joker that survives is left with strength 0 exactly when the two
/// strengths tie.
pub proof fn lemma_joker_residual(a: u8, b: u8)
    requires
        is_joker(a),
    ensures
        strength_bits(a) > strength_bits(b) ==> battle_spec(a, b).winner == a
            && strength_bits(battle_spec(a, b).card_a_residual) == strength_bits(a)
            - strength_bits(b),
        battle_spec(a, b).card_a_residual != NULL ==> (strength_bits(
            battle_spec(a, b).card_a_residual,
        ) == 0 <==> strength_bits(a) == strength_bits(b)),
{
    lemma_category_values(a);
    lemma_category_values(b);
    let sa = strength_bits(a);
    let sb = strength_bits(b);
    if sa > sb {
        lemma_with_strength(a, (sa - sb) as u8);
    } else if sa == sb {
        lemma_with_strength(a, 0);
    }
}

/// On valid cards a battle leaves valid cards or empty slots, and eliminates
/// exactly the losers.
pub proof fn lemma_battle_valid(a: u8, b: u8)
    requires
        is_valid_card(a),
        is_valid_card(b),
    ensures
        ({
            let r = battle_spec(a, b);
            &&& r.winner == NULL || r.winner == a || r.winner == b
            &&& r.winner == a ==> r.card_b_residual == NULL && is_valid_card(r.card_a_residual)
            &&& r.winner == b && a != b ==> r.card_a_residual == NULL && is_valid_card(
                r.card_b_residual,
            )
            &&& r.winner == NULL ==> is_valid_card(r.card_a_residual) && is_valid_card(
                r.card_b_residual,
            )
            &&& r.winner != NULL ==> r.winner == a || a != b
        }),
{
    lemma_category_values(a);
    lemma_category_values(b);
    let sa = strength_bits(a);
    let sb = strength_bits(b);
    if sa > sb {
        lemma_with_strength(a, (sa - sb) as u8);
    } else if sa < sb {
        lemma_with_strength(b, (sb - sa) as u8);
    } else {
        lemma_with_strength(a, 0);
        lemma_with_strength(b, 0);
    }
}

} // verus!
