use ninja_taisen::battle::battle_winner;
use ninja_taisen::cards;
use ninja_taisen::cards::{from_string, to_string, GameError};

#[test]
fn battle_test_rock_paper_scissors_1() {
    let card_a = cards::MP1;
    let card_b = cards::WS2;
    let result = battle_winner(card_a, card_b);

    assert_eq!(cards::WS2, result.winner);
    assert_eq!(cards::NULL, result.card_a_residual);
    assert_eq!(cards::WS2, result.card_b_residual);
}

#[test]
fn battle_test_rock_paper_scissors_2() {
    let card_a = cards::MR2;
    let card_b = cards::WP3;
    let result = battle_winner(card_a, card_b);

    assert_eq!(card_b, result.winner);
    assert_eq!(cards::NULL, result.card_a_residual);
    assert_eq!(card_b, result.card_b_residual);
}

#[test]
fn battle_test_rock_paper_scissors_3() {
    let card_a = cards::MS1;
    let card_b = cards::WR1;
    let result = battle_winner(card_a, card_b);

    assert_eq!(card_b, result.winner);
    assert_eq!(cards::NULL, result.card_a_residual);
    assert_eq!(card_b, result.card_b_residual);
}

#[test]
fn battle_test_strength_draw() {
    let card_a = cards::MR2;
    let card_b = cards::WR2;
    let result = battle_winner(card_a, card_b);

    assert_eq!(cards::NULL, result.winner);
    assert_eq!(card_a, result.card_a_residual);
    assert_eq!(card_b, result.card_b_residual);
}

#[test]
fn battle_test_joker_battles_1() {
    let card_a = cards::MJ4;
    let result_1 = battle_winner(card_a, cards::WS3);

    assert_eq!(card_a, result_1.winner);
    assert_eq!(
        cards::BIT_NON_NULL | cards::BIT_TEAM_MONKEY | cards::BITS_CATEGORY_JOKER | cards::BITS_STRENGTH_1,
        result_1.card_a_residual
    );
    assert_eq!(cards::NULL, result_1.card_b_residual);

    let result_2 = battle_winner(result_1.card_a_residual, cards::WP1);
    assert_eq!(cards::NULL, result_2.winner);
    assert_eq!(
        cards::BIT_NON_NULL | cards::BIT_TEAM_MONKEY | cards::BITS_CATEGORY_JOKER | cards::BITS_STRENGTH_0,
        result_2.card_a_residual
    );
    assert_eq!(cards::WP1, result_2.card_b_residual);

    let result_3 = battle_winner(result_2.card_a_residual, cards::WJ4);
    assert_eq!(cards::WJ4, result_3.winner);
    assert_eq!(cards::NULL, result_3.card_a_residual);
    assert_eq!(cards::WJ4, result_3.card_b_residual);
}

#[test]
fn battle_test_joker_battles_2() {
    let result_a = battle_winner(cards::MJ4, cards::WJ4);
    assert_eq!(cards::NULL, result_a.winner);
    assert_eq!(
        cards::BIT_NON_NULL | cards::BIT_TEAM_MONKEY | cards::BITS_CATEGORY_JOKER | cards::BITS_STRENGTH_0,
        result_a.card_a_residual
    );
    assert_eq!(
        cards::BIT_NON_NULL | cards::BIT_TEAM_WOLF | cards::BITS_CATEGORY_JOKER | cards::BITS_STRENGTH_0,
        result_a.card_b_residual
    );

    let result_b = battle_winner(cards::MP1, result_a.card_b_residual);
    assert_eq!(cards::MP1, result_b.winner);
    assert_eq!(cards::MP1, result_b.card_a_residual);
    assert_eq!(cards::NULL, result_b.card_b_residual);
}

#[test]
fn card_test_rock_paper_scissors_1() {
    let card_a = cards::MP1;
    let card_b = cards::WS2;
    let result = battle_winner(card_a, card_b);

    assert_eq!(cards::WS2, result.winner);
    assert_eq!(cards::NULL, result.card_a_residual);
    assert_eq!(cards::WS2, result.card_b_residual);
}

#[test]
fn card_test_rock_paper_scissors_2() {
    let card_a = cards::MR2;
    let card_b = cards::WP3;
    let result = battle_winner(card_a, card_b);

    assert_eq!(card_b, result.winner);
    assert_eq!(cards::NULL, result.card_a_residual);
    assert_eq!(card_b, result.card_b_residual);
}

#[test]
fn card_test_rock_paper_scissors_3() {
    let card_a = cards::MS1;
    let card_b = cards::WR1;
    let result = battle_winner(card_a, card_b);

    assert_eq!(card_b, result.winner);
    assert_eq!(cards::NULL, result.card_a_residual);
    assert_eq!(card_b, result.card_b_residual);
}

#[test]
fn card_test_strength_draw() {
    let card_a = cards::MR2;
    let card_b = cards::WR2;
    let result = battle_winner(card_a, card_b);

    assert_eq!(cards::NULL, result.winner);
    assert_eq!(card_a, result.card_a_residual);
    assert_eq!(card_b, result.card_b_residual);
}

#[test]
fn card_test_joker_battles_1() {
    let card_a = cards::MJ4;
    let result_1 = battle_winner(card_a, cards::WS3);

    assert_eq!(card_a, result_1.winner);
    assert_eq!(
        cards::BIT_NON_NULL | cards::BIT_TEAM_MONKEY | cards::BITS_CATEGORY_JOKER | cards::BITS_STRENGTH_1,
        result_1.card_a_residual
    );
    assert_eq!(cards::NULL, result_1.card_b_residual);

    let result_2 = battle_winner(result_1.card_a_residual, cards::WP1);
    assert_eq!(cards::NULL, result_2.winner);
    assert_eq!(
        cards::BIT_NON_NULL | cards::BIT_TEAM_MONKEY | cards::BITS_CATEGORY_JOKER | cards::BITS_STRENGTH_0,
        result_2.card_a_residual
    );
    assert_eq!(cards::WP1, result_2.card_b_residual);

    let result_3 = battle_winner(result_2.card_a_residual, cards::WJ4);
    assert_eq!(cards::WJ4, result_3.winner);
    assert_eq!(cards::NULL, result_3.card_a_residual);
    assert_eq!(cards::WJ4, result_3.card_b_residual);
}

#[test]
fn card_test_joker_battles_2() {
    let result_a = battle_winner(cards::MJ4, cards::WJ4);
    assert_eq!(cards::NULL, result_a.winner);
    assert_eq!(
        cards::BIT_NON_NULL | cards::BIT_TEAM_MONKEY | cards::BITS_CATEGORY_JOKER | cards::BITS_STRENGTH_0,
        result_a.card_a_residual
    );
    assert_eq!(
        cards::BIT_NON_NULL | cards::BIT_TEAM_WOLF | cards::BITS_CATEGORY_JOKER | cards::BITS_STRENGTH_0,
        result_a.card_b_residual
    );

    let result_b = battle_winner(cards::MP1, result_a.card_b_residual);
    assert_eq!(cards::MP1, result_b.winner);
    assert_eq!(cards::MP1, result_b.card_a_residual);
    assert_eq!(cards::NULL, result_b.card_b_residual);
}

#[test]
fn test_rock_paper_scissors_4() {
    let card_a = cards::MR2;
    let card_b = cards::WS1;
    let result = battle_winner(card_a, card_b);

    assert_eq!(card_a, result.winner);
    assert_eq!(card_a, result.card_a_residual);
    assert_eq!(cards::NULL, result.card_b_residual);
}

#[test]
fn test_strength_win_1() {
    let card_a = cards::MP3;
    let card_b = cards::WP1;
    let result = battle_winner(card_a, card_b);

    assert_eq!(card_a, result.winner);
    assert_eq!(card_a, result.card_a_residual);
    assert_eq!(cards::NULL, result.card_b_residual);
}

#[test]
fn test_strength_win() {
    let card_a = cards::MP3;
    let card_b = cards::WP1;
    let result = battle_winner(card_a, card_b);

    assert_eq!(card_a, result.winner);
    assert_eq!(card_a, result.card_a_residual);
    assert_eq!(cards::NULL, result.card_b_residual);
}

const ALL_CARDS: [u8; 20] = [
    cards::MR1, cards::MR2, cards::MR3, cards::MP1, cards::MP2, cards::MP3, cards::MS1, cards::MS2,
    cards::MS3, cards::MJ4, cards::WR1, cards::WR2, cards::WR3, cards::WP1, cards::WP2, cards::WP3,
    cards::WS1, cards::WS2, cards::WS3, cards::WJ4,
];

#[test]
fn battle_swapping_operands_swaps_residuals() {
    for &a in ALL_CARDS.iter() {
        for &b in ALL_CARDS.iter() {
            let ab = battle_winner(a, b);
            let ba = battle_winner(b, a);
            assert_eq!(ab.winner, ba.winner);
            assert_eq!(ab.card_a_residual, ba.card_b_residual);
            assert_eq!(ab.card_b_residual, ba.card_a_residual);
        }
    }
}

#[test]
fn battle_of_distinct_non_jokers_has_one_outcome() {
    let a = cards::MS2;
    let b = cards::WR3;
    let r = battle_winner(a, b);
    let outcomes = [r.winner == a, r.winner == b, r.winner == cards::NULL];
    assert_eq!(outcomes.iter().filter(|&&x| x).count(), 1);
    assert_eq!(r.winner, b);
}

#[test]
fn rock_beats_scissors_regardless_of_strength() {
    let r = battle_winner(cards::MS2, cards::WR3);
    assert_eq!(r.winner, cards::WR3);
    let r = battle_winner(cards::WR3, cards::MS2);
    assert_eq!(r.winner, cards::WR3);
    assert_eq!(r.card_a_residual, cards::WR3);
    assert_eq!(r.card_b_residual, cards::NULL);
}

#[test]
fn paper_beats_rock_and_scissors_beats_paper() {
    assert_eq!(battle_winner(cards::MP1, cards::WR3).winner, cards::MP1);
    assert_eq!(battle_winner(cards::MS1, cards::WP3).winner, cards::MS1);
    assert_eq!(battle_winner(cards::MR1, cards::WS3).winner, cards::MR1);
}

#[test]
fn joker_winner_keeps_strength_difference() {
    let r = battle_winner(cards::MJ4, cards::WR1);
    assert_eq!(r.winner, cards::MJ4);
    assert_eq!(r.card_a_residual & cards::CHECK_STRENGTH, 3);
    assert_eq!(r.card_a_residual & cards::CHECK_CATEGORY, cards::BITS_CATEGORY_JOKER);
    assert_eq!(r.card_b_residual, cards::NULL);
    let r = battle_winner(cards::WR2, cards::MJ4);
    assert_eq!(r.winner, cards::MJ4);
    assert_eq!(r.card_b_residual & cards::CHECK_STRENGTH, 2);
    assert_eq!(r.card_a_residual, cards::NULL);
}

#[test]
fn joker_tie_with_non_joker_leaves_joker_at_zero() {
    let weak_joker = cards::BIT_NON_NULL | cards::BIT_TEAM_MONKEY | cards::BITS_CATEGORY_JOKER | cards::BITS_STRENGTH_3;
    let r = battle_winner(weak_joker, cards::WS3);
    assert_eq!(r.winner, cards::NULL);
    assert_eq!(r.card_a_residual & cards::CHECK_STRENGTH, 0);
    assert_eq!(r.card_b_residual, cards::WS3);
}

#[test]
fn joker_losing_leaves_non_joker_unchanged() {
    let weak_joker = cards::BIT_NON_NULL | cards::BIT_TEAM_WOLF | cards::BITS_CATEGORY_JOKER | cards::BITS_STRENGTH_1;
    let r = battle_winner(cards::MP3, weak_joker);
    assert_eq!(r.winner, cards::MP3);
    assert_eq!(r.card_a_residual, cards::MP3);
    assert_eq!(r.card_b_residual, cards::NULL);
}

#[test]
fn two_full_jokers_draw_at_zero() {
    let r = battle_winner(cards::MJ4, cards::WJ4);
    assert_eq!(r.winner, cards::NULL);
    assert_eq!(r.card_a_residual & cards::CHECK_STRENGTH, 0);
    assert_eq!(r.card_b_residual & cards::CHECK_STRENGTH, 0);
    assert_ne!(r.card_a_residual, cards::NULL);
    assert_ne!(r.card_b_residual, cards::NULL);
}

#[test]
fn card_text_round_trip() {
    for &c in ALL_CARDS.iter() {
        let text = to_string(c).unwrap();
        assert_eq!(text.len(), 3);
        assert_eq!(from_string(&text), Ok(c));
    }
    assert_eq!(to_string(cards::MR1).unwrap(), "MR1");
    assert_eq!(to_string(cards::WJ4).unwrap(), "WJ4");
    assert_eq!(from_string(&String::from("WS2")), Ok(cards::WS2));
    assert_eq!(from_string(&String::from("MJ0")), Ok(cards::BIT_NON_NULL | cards::BITS_CATEGORY_JOKER));
}

#[test]
fn card_text_errors() {
    assert_eq!(from_string(&String::from("MR")), Err(GameError::FormatError));
    assert_eq!(from_string(&String::from("MR12")), Err(GameError::FormatError));
    assert_eq!(from_string(&String::from("XR1")), Err(GameError::FormatError));
    assert_eq!(from_string(&String::from("MX1")), Err(GameError::FormatError));
    assert_eq!(from_string(&String::from("MR5")), Err(GameError::FormatError));
    assert_eq!(from_string(&String::from("mr1")), Err(GameError::FormatError));
    assert_eq!(to_string(cards::BIT_NON_NULL | 5), Err(GameError::InvariantViolation));
    assert_eq!(to_string(cards::MR1 | cards::CHECK_STRENGTH), Err(GameError::InvariantViolation));
}
