use std::collections::HashSet;
use rand::rngs::StdRng;
use rand::SeedableRng;
use ninja_taisen::board::{Board, CardLocation};
use ninja_taisen::cards;
use ninja_taisen::cards::GameError;

fn empty_board() -> Board {
    Board {
        monkey_cards: [cards::NULL; 110],
        wolf_cards: [cards::NULL; 110],
        monkey_heights: [0; 11],
        wolf_heights: [0; 11],
    }
}

#[test]
fn board_test_new_board() {
    for seed in 42..45 {
        let mut rnd = StdRng::seed_from_u64(seed);
        let original = Board::new(&mut rnd);
        let cloned = original.clone();

        for board in [original, cloned] {
            assert_eq!(board.monkey_heights, [4, 3, 2, 1, 0, 0, 0, 0, 0, 0, 0]);
            assert_eq!(board.wolf_heights, [0, 0, 0, 0, 0, 0, 0, 1, 2, 3, 4]);
            assert_eq!(board.monkey_cards[0], cards::MJ4);
            assert_eq!(board.wolf_cards[100], cards::WJ4);
            assert_eq!(board.monkey_cards.len(), 110);
            assert_eq!(board.wolf_cards.len(), 110);

            {
                let monkey_indices: [usize; 10] = [0, 1, 2, 3, 10, 11, 12, 20, 21, 30];
                let monkey_cards = [
                    cards::MJ4,
                    cards::MR1, cards::MR2, cards::MR3,
                    cards::MP1, cards::MP2, cards::MP3,
                    cards::MS1, cards::MS2, cards::MS3
                ];
                let mut seen_monkey_cards = HashSet::new();
                for i in 0..board.monkey_cards.len() {
                    let card = board.monkey_cards[i];
                    if monkey_indices.contains(&i) {
                        assert_ne!(cards::NULL, card);
                        assert!(monkey_cards.contains(&card));
                        assert!(!seen_monkey_cards.contains(&card));
                        seen_monkey_cards.insert(card);
                    }
                    else {
                        assert_eq!(cards::NULL, board.monkey_cards[i]);
                    }
                }
            }

            {
                let wolf_indices: [usize; 10] = [100, 101, 102, 103, 90, 91, 92, 80, 81, 70];
                let wolf_cards = [
                    cards::WJ4,
                    cards::WR1, cards::WR2, cards::WR3,
                    cards::WP1, cards::WP2, cards::WP3,
                    cards::WS1, cards::WS2, cards::WS3
                ];
                let mut seen_wolf_cards = HashSet::new();
                for i in 0..board.wolf_cards.len() {
                    let card = board.wolf_cards[i];
                    if wolf_indices.contains(&i) {
                        assert_ne!(cards::NULL, card);
                        assert!(wolf_cards.contains(&card));
                        assert!(!seen_wolf_cards.contains(&card));
                        seen_wolf_cards.insert(card);
                    }
                    else {
                        assert_eq!(cards::NULL, board.wolf_cards[i]);
                    }
                }
            }
        }
    }
}

#[test]
fn test_dto_round_trip() {
    let mut rng = StdRng::seed_from_u64(42);
    let board_a = Board::new(&mut rng);
    let board_dto_a = board_a.to_dto();

    let board_b = Board::from_dto(&board_dto_a).unwrap();
    assert_eq!(board_a, board_b);

    let board_dto_b = board_b.to_dto();
    assert_eq!(board_dto_a, board_dto_b);
}

#[test]
fn board_test_complex_battle() {
    let mut board = Board{
        monkey_cards: [cards::NULL; 110],
        wolf_cards: [cards::NULL; 110],
        monkey_heights: [0, 1, 0, 0, 2, 3, 0, 0, 0, 0, 0],
        wolf_heights: [0, 0, 0, 0, 0, 0, 2, 1, 1, 1, 0],
    };

    board.set_card(true, 1, 0, cards::MS2);
    board.set_card(true, 4, 0, cards::MP2);
    board.set_card(true, 4, 1, cards::MJ4);
    board.set_card(true, 5, 0, cards::MR2);
    board.set_card(true, 5, 1, cards::MS1);
    board.set_card(true, 5, 2, cards::MS3);

    board.set_card(false, 6, 0, cards::WS1);
    board.set_card(false, 6, 1, cards::WP1);
    board.set_card(false, 7, 0, cards::WJ4);
    board.set_card(false, 8, 0, cards::WR3);
    board.set_card(false, 9, 0, cards::WP3);

    board.move_card_and_resolve_battles(true, 2, 5, 0);

    assert_eq!(board.monkey_heights, [0, 1, 0, 0, 2, 1, 0, 1, 0, 0, 0]);
    assert_eq!(board.wolf_heights,   [0, 0, 0, 0, 0, 0, 0, 0, 2, 1, 0]);

    assert_eq!(cards::MS2, board.get_card(true, 1, 0));
    assert_eq!(cards::MP2, board.get_card(true, 4, 0));
    assert_eq!(cards::MJ4, board.get_card(true, 4, 1));
    assert_eq!(cards::MS1, board.get_card(true, 5, 0));
    assert_eq!(cards::MR2, board.get_card(true, 7, 0));

    assert_eq!(cards::WR3, board.get_card(false, 8, 0));
    assert_eq!(cards::WJ4, board.get_card(false, 8, 1));
    assert_eq!(cards::WP3, board.get_card(false, 9, 0));
}

fn assert_well_formed(board: &Board) {
    for team in [true, false] {
        let heights = if team { board.monkey_heights } else { board.wolf_heights };
        let total: u32 = heights.iter().map(|&h| h as u32).sum();
        assert!(total <= 10);
        for p in 0..11u8 {
            let h = heights[p as usize];
            assert!(h <= 10);
            for i in 0..10u8 {
                let c = board.get_card(team, p, i);
                if i < h {
                    assert!(c >= cards::BIT_NON_NULL);
                    assert!(c & cards::CHECK_STRENGTH <= 4);
                    if c & cards::CHECK_CATEGORY == cards::BITS_CATEGORY_JOKER {
                        assert_eq!(c & cards::CHECK_STRENGTH, 4);
                    }
                } else {
                    assert_eq!(c, cards::NULL);
                }
            }
        }
    }
}

#[test]
fn complex_battle_keeps_board_well_formed() {
    let mut board = empty_board();
    board.monkey_heights = [0, 1, 0, 0, 2, 3, 0, 0, 0, 0, 0];
    board.wolf_heights = [0, 0, 0, 0, 0, 0, 2, 1, 1, 1, 0];
    board.set_card(true, 1, 0, cards::MS2);
    board.set_card(true, 4, 0, cards::MP2);
    board.set_card(true, 4, 1, cards::MJ4);
    board.set_card(true, 5, 0, cards::MR2);
    board.set_card(true, 5, 1, cards::MS1);
    board.set_card(true, 5, 2, cards::MS3);
    board.set_card(false, 6, 0, cards::WS1);
    board.set_card(false, 6, 1, cards::WP1);
    board.set_card(false, 7, 0, cards::WJ4);
    board.set_card(false, 8, 0, cards::WR3);
    board.set_card(false, 9, 0, cards::WP3);
    assert_well_formed(&board);
    for (pile, index) in [(4u8, 0u8), (4, 1), (1, 0)] {
        let mut b = board;
        b.move_card_and_resolve_battles(true, 3, pile, index);
        assert_well_formed(&b);
    }
}

#[test]
fn scissors_card_moved_onto_lone_rock_loses_to_it() {
    let mut board = empty_board();
    board.monkey_heights[2] = 1;
    board.set_card(true, 2, 0, cards::MS2);
    board.wolf_heights[4] = 1;
    board.set_card(false, 4, 0, cards::WR3);
    board.move_card_and_resolve_battles(true, 2, 2, 0);
    assert_eq!(board.monkey_heights, [0; 11]);
    assert_eq!(board.wolf_heights[4], 1);
    assert_eq!(board.get_card(false, 4, 0), cards::WR3);
    assert_eq!(board.get_card(true, 4, 0), cards::NULL);
}

#[test]
fn scissors_card_moved_onto_lone_paper_eliminates_it() {
    let mut board = empty_board();
    board.monkey_heights[2] = 1;
    board.set_card(true, 2, 0, cards::MS2);
    board.wolf_heights[4] = 1;
    board.set_card(false, 4, 0, cards::WP3);
    board.move_card_and_resolve_battles(true, 2, 2, 0);
    assert_eq!(board.wolf_heights, [0; 11]);
    assert_eq!(board.monkey_heights[4], 1);
    assert_eq!(board.get_card(true, 4, 0), cards::MS2);
}

#[test]
fn jokers_colliding_draw_and_both_retreat() {
    let mut board = empty_board();
    board.monkey_heights[3] = 1;
    board.set_card(true, 3, 0, cards::MJ4);
    board.wolf_heights[5] = 1;
    board.set_card(false, 5, 0, cards::WJ4);
    board.move_card_and_resolve_battles(true, 2, 3, 0);
    assert_eq!(board.monkey_heights, [0, 0, 0, 0, 1, 0, 0, 0, 0, 0, 0]);
    assert_eq!(board.wolf_heights, [0, 0, 0, 0, 0, 0, 1, 0, 0, 0, 0]);
    assert_eq!(board.get_card(true, 4, 0), cards::MJ4);
    assert_eq!(board.get_card(false, 6, 0), cards::WJ4);
}

#[test]
fn draw_at_wolf_home_row_eliminates_wolf_card() {
    let mut board = empty_board();
    board.monkey_heights[8] = 1;
    board.set_card(true, 8, 0, cards::MR2);
    board.wolf_heights[10] = 1;
    board.set_card(false, 10, 0, cards::WR2);
    board.move_card_and_resolve_battles(true, 2, 8, 0);
    assert_eq!(board.wolf_heights[10], 0);
    assert_eq!(board.get_card(false, 10, 0), cards::NULL);
    assert_eq!(board.monkey_heights[10], 1);
    assert_eq!(board.get_card(true, 10, 0), cards::MR2);
    assert_eq!(board.victorious_team(), cards::BIT_NON_NULL | cards::BIT_TEAM_MONKEY);
}

#[test]
fn draw_at_monkey_home_row_eliminates_monkey_card() {
    let mut board = empty_board();
    board.wolf_heights[1] = 1;
    board.set_card(false, 1, 0, cards::WP1);
    board.monkey_heights[0] = 1;
    board.set_card(true, 0, 0, cards::MP1);
    board.move_card_and_resolve_battles(false, 1, 1, 0);
    assert_eq!(board.monkey_heights[0], 0);
    assert_eq!(board.wolf_heights[0], 1);
    assert_eq!(board.victorious_team(), cards::BIT_NON_NULL | cards::BIT_TEAM_WOLF);
}

#[test]
fn draw_away_from_edges_pushes_both_back_and_cascades() {
    let mut board = empty_board();
    board.monkey_heights[3] = 1;
    board.set_card(true, 3, 0, cards::MR2);
    board.wolf_heights[5] = 1;
    board.set_card(false, 5, 0, cards::WR2);
    board.wolf_heights[6] = 1;
    board.set_card(false, 6, 0, cards::WS1);
    board.move_card_and_resolve_battles(true, 2, 3, 0);
    // The wolf rock retreats onto its scissors at 6; the monkey rock retreats to 4.
    assert_eq!(board.monkey_heights, [0, 0, 0, 0, 1, 0, 0, 0, 0, 0, 0]);
    assert_eq!(board.wolf_heights, [0, 0, 0, 0, 0, 0, 2, 0, 0, 0, 0]);
    assert_eq!(board.get_card(false, 6, 0), cards::WS1);
    assert_eq!(board.get_card(false, 6, 1), cards::WR2);
}

#[test]
fn moving_a_run_keeps_its_order() {
    let mut board = empty_board();
    board.monkey_heights[0] = 3;
    board.set_card(true, 0, 0, cards::MR1);
    board.set_card(true, 0, 1, cards::MP1);
    board.set_card(true, 0, 2, cards::MS1);
    board.monkey_heights[3] = 1;
    board.set_card(true, 3, 0, cards::MR3);
    board.move_card_and_resolve_battles(true, 3, 0, 1);
    assert_eq!(board.monkey_heights, [1, 0, 0, 3, 0, 0, 0, 0, 0, 0, 0]);
    assert_eq!(board.get_card(true, 0, 0), cards::MR1);
    assert_eq!(board.get_card(true, 0, 1), cards::NULL);
    assert_eq!(board.get_card(true, 3, 0), cards::MR3);
    assert_eq!(board.get_card(true, 3, 1), cards::MP1);
    assert_eq!(board.get_card(true, 3, 2), cards::MS1);
}

#[test]
fn moves_stop_at_the_board_edges() {
    assert_eq!(Board::new_pile_index(true, 3, 9), 10);
    assert_eq!(Board::new_pile_index(false, 3, 1), 0);
    assert_eq!(Board::new_pile_index(true, -1, 0), 0);
    assert_eq!(Board::new_pile_index(false, -1, 10), 10);
    assert_eq!(Board::new_pile_index(true, 2, 3), 5);
    assert_eq!(Board::new_pile_index(false, 2, 3), 1);
}

#[test]
fn victorious_team_cases() {
    let mut board = empty_board();
    assert_eq!(board.victorious_team(), cards::NULL);
    board.monkey_heights[2] = 1;
    board.set_card(true, 2, 0, cards::MR1);
    assert_eq!(board.victorious_team(), cards::BIT_NON_NULL | cards::BIT_TEAM_MONKEY);
    board.wolf_heights[8] = 1;
    board.set_card(false, 8, 0, cards::WR1);
    assert_eq!(board.victorious_team(), cards::NULL);
    board.monkey_heights = [0; 11];
    board.set_card(true, 2, 0, cards::NULL);
    assert_eq!(board.victorious_team(), cards::BIT_NON_NULL | cards::BIT_TEAM_WOLF);
    board.monkey_heights[10] = 1;
    board.set_card(true, 10, 0, cards::MP2);
    assert_eq!(board.victorious_team(), cards::BIT_NON_NULL | cards::BIT_TEAM_MONKEY);
}

#[test]
fn locate_card_finds_first_or_reports_missing() {
    let mut rng = StdRng::seed_from_u64(7);
    let board = Board::new(&mut rng);
    assert_eq!(board.locate_card(true, cards::MJ4), Ok(CardLocation { pile_index: 0, card_index: 0 }));
    assert_eq!(board.locate_card(false, cards::WJ4), Ok(CardLocation { pile_index: 10, card_index: 0 }));
    let loc = board.locate_card(true, cards::MS3).unwrap();
    assert_eq!(board.get_card(true, loc.pile_index, loc.card_index), cards::MS3);
    assert_eq!(board.locate_card(true, cards::WS3), Err(GameError::NotFound));
    assert_eq!(board.locate_card(false, cards::MJ4), Err(GameError::NotFound));
}

#[test]
fn snapshot_rejects_malformed_input() {
    let mut rng = StdRng::seed_from_u64(3);
    let board = Board::new(&mut rng);
    let mut dto = board.to_dto();
    assert_eq!(dto.monkey.len(), 4);
    assert_eq!(dto.monkey[&0][0], "MJ4");
    dto.monkey.insert(11, vec![String::from("MR1")]);
    assert_eq!(Board::from_dto(&dto), Err(GameError::FormatError));

    let mut dto = board.to_dto();
    dto.wolf.get_mut(&7).unwrap()[0] = String::from("W?1");
    assert_eq!(Board::from_dto(&dto), Err(GameError::FormatError));

    let mut dto = board.to_dto();
    dto.monkey.insert(5, vec![String::from("MR1")]);
    assert_eq!(Board::from_dto(&dto), Err(GameError::FormatError));

    let mut dto = board.to_dto();
    dto.monkey.insert(5, Vec::new());
    assert_eq!(Board::from_dto(&dto), Ok(board));
}
