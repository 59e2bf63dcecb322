use std::collections::{BTreeMap, HashSet};
use rand::rngs::StdRng;
use rand::SeedableRng;
use ninja_taisen::api::{choose_move, execute_move};
use ninja_taisen::board::Board;
use ninja_taisen::cards;
use ninja_taisen::cards::GameError;
use ninja_taisen::dice::{dice_face, roll_dice_three_times};
use ninja_taisen::dto::{ChooseRequest, DiceRollDto, ExecuteRequest, InstructionDto, MoveDto};
use ninja_taisen::game::{simulate_one, MAX_TURNS};
use ninja_taisen::metric::{normalise, CountMetric, MetricValue, PositionMetric, StrengthMetric};
use ninja_taisen::moves::{
    gather_all_moves, moveable_card_indices, CompletedMoves, DiceRoll, Move,
};
use ninja_taisen::strategy::{strategy_from_lowercase, Strategy, StrategyName};

fn empty_board() -> Board {
    Board {
        monkey_cards: [cards::NULL; 110],
        wolf_cards: [cards::NULL; 110],
        monkey_heights: [0; 11],
        wolf_heights: [0; 11],
    }
}

fn dice(rock: i8, paper: i8, scissors: i8) -> [DiceRoll; 3] {
    [
        DiceRoll { category: cards::BITS_CATEGORY_ROCK, roll: rock },
        DiceRoll { category: cards::BITS_CATEGORY_PAPER, roll: paper },
        DiceRoll { category: cards::BITS_CATEGORY_SCISSORS, roll: scissors },
    ]
}

#[test]
fn enumeration_sequences_are_distinct_and_valid() {
    for seed in 0..5 {
        let mut rng = StdRng::seed_from_u64(seed);
        let board = Board::new(&mut rng);
        for is_monkey in [true, false] {
            let all = gather_all_moves(&board, is_monkey, &dice(1, 2, 3));
            assert!(!all.is_empty());
            let mut seen = HashSet::new();
            for c in all.iter() {
                assert!(c.moves.len() >= 1 && c.moves.len() <= 3);
                let cats: Vec<u8> = c.moves.iter().map(|m| m.dice_category).collect();
                let unique: HashSet<u8> = cats.iter().cloned().collect();
                assert_eq!(unique.len(), cats.len());
                let jokers = c.moves.iter()
                    .filter(|m| m.card & cards::CHECK_CATEGORY == cards::BITS_CATEGORY_JOKER)
                    .count();
                assert!(jokers <= 1);
                assert_eq!(c.is_monkey, is_monkey);
                let key: Vec<(u8, u8)> = c.moves.iter().map(|m| (m.dice_category, m.card)).collect();
                assert!(seen.insert(key));
            }
        }
    }
}

#[test]
fn enumeration_order_and_counts_on_a_small_board() {
    let mut board = empty_board();
    board.monkey_heights[0] = 1;
    board.set_card(true, 0, 0, cards::MR1);
    board.wolf_heights[10] = 1;
    board.set_card(false, 10, 0, cards::WR1);
    let all = gather_all_moves(&board, true, &dice(1, 2, 3));
    // Only the rock die can move the lone rock card.
    assert_eq!(all.len(), 1);
    assert_eq!(all[0].moves, vec![Move { dice_category: cards::BITS_CATEGORY_ROCK, card: cards::MR1 }]);
    assert_eq!(all[0].board.monkey_heights[1], 1);

    board.monkey_heights[0] = 2;
    board.set_card(true, 0, 1, cards::MJ4);
    let all = gather_all_moves(&board, true, &dice(1, 1, 1));
    let lengths: Vec<usize> = all.iter().map(|c| c.moves.len()).collect();
    assert!(lengths.contains(&1) && lengths.contains(&2));
    assert!(all.iter().all(|c| c.moves.len() <= 2));
    // The first die is rock, and the deepest extensions come before the shorter ones.
    assert_eq!(all[0].moves[0].dice_category, cards::BITS_CATEGORY_ROCK);
    assert_eq!(all[0].moves.len(), 2);
}

#[test]
fn no_move_gives_empty_enumeration() {
    let all = gather_all_moves(&empty_board(), true, &dice(1, 2, 3));
    assert!(all.is_empty());
}

#[test]
fn decided_boards_are_not_extended() {
    let mut board = empty_board();
    board.monkey_heights[9] = 1;
    board.set_card(true, 9, 0, cards::MR1);
    board.monkey_heights[0] = 1;
    board.set_card(true, 0, 0, cards::MP1);
    board.wolf_heights[5] = 1;
    board.set_card(false, 5, 0, cards::WS1);
    let all = gather_all_moves(&board, true, &dice(1, 1, 1));
    for c in all.iter() {
        if c.moves.len() > 1 {
            let first = &c.moves[0];
            assert!(!(first.card == cards::MR1 && first.dice_category == cards::BITS_CATEGORY_ROCK));
        }
    }
    assert!(all.iter().any(|c| c.moves.len() == 1 && c.board.victorious_team() == cards::BIT_NON_NULL));
}

#[test]
fn only_top_three_cards_can_move() {
    let mut board = empty_board();
    board.monkey_heights[0] = 5;
    for (i, c) in [cards::MR1, cards::MR2, cards::MR3, cards::MP1, cards::MS1].iter().enumerate() {
        board.set_card(true, 0, i as u8, *c);
    }
    let rock = moveable_card_indices(&board, true, cards::BITS_CATEGORY_ROCK, false);
    assert_eq!(rock.len(), 1);
    assert_eq!((rock[0].pile_index, rock[0].card_index), (0, 2));
    board.set_card(true, 0, 3, cards::MJ4);
    assert_eq!(moveable_card_indices(&board, true, cards::BITS_CATEGORY_SCISSORS, false).len(), 2);
    assert_eq!(moveable_card_indices(&board, true, cards::BITS_CATEGORY_SCISSORS, true).len(), 1);
}

#[test]
fn used_joker_looks_at_moves() {
    let c = CompletedMoves {
        moves: vec![Move { dice_category: cards::BITS_CATEGORY_ROCK, card: cards::MR1 }],
        board: empty_board(),
        is_monkey: true,
    };
    assert!(!c.used_joker());
    let c = CompletedMoves {
        moves: vec![Move { dice_category: cards::BITS_CATEGORY_PAPER, card: cards::MJ4 }],
        board: empty_board(),
        is_monkey: true,
    };
    assert!(c.used_joker());
}

#[test]
fn metrics_exact_values() {
    let mut rng = StdRng::seed_from_u64(1);
    let board = Board::new(&mut rng);
    let c = CompletedMoves { moves: Vec::new(), board, is_monkey: true };
    assert_eq!(CountMetric {}.calculate(&c), MetricValue { own: 10, other: 10 });
    // Three cards of each strength 1..3 and a joker: 3*(3+4+5) + 9.
    assert_eq!(StrengthMetric {}.calculate(&c), MetricValue { own: 45, other: 45 });
    // Heights 4, 3, 2, 1 on piles weighted 4, 4, 4, 4.
    assert_eq!(PositionMetric {}.calculate(&c), MetricValue { own: 40, other: 40 });
    assert_eq!(normalise(3, 0), MetricValue { own: 3, other: 0 });
    assert!(MetricValue { own: 3, other: 0 }.ge(&MetricValue { own: 5, other: 2 }));
    assert!(!MetricValue { own: 2, other: 1 }.ge(&MetricValue { own: 5, other: 2 }));
    assert!(MetricValue { own: 4, other: 2 }.ge(&MetricValue { own: 2, other: 1 }));

    let mut board = empty_board();
    board.monkey_heights[9] = 2;
    board.set_card(true, 9, 0, cards::MR1);
    board.set_card(true, 9, 1, cards::MS3);
    board.wolf_heights[9] = 1;
    board.set_card(false, 9, 0, cards::WJ4);
    let c = CompletedMoves { moves: Vec::new(), board, is_monkey: false };
    assert_eq!(CountMetric {}.calculate(&c), MetricValue { own: 1, other: 2 });
    assert_eq!(StrengthMetric {}.calculate(&c), MetricValue { own: 9, other: 8 });
    assert_eq!(PositionMetric {}.calculate(&c), MetricValue { own: 4, other: 20 });
}

#[test]
fn strategy_names() {
    assert_eq!(Strategy::new(&String::from("Metric_Count")).unwrap().name, StrategyName::MetricCount);
    assert_eq!(Strategy::new(&String::from("RANDOM")).unwrap().name, StrategyName::Random);
    assert_eq!(Strategy::new(&String::from("random_spot_win")).unwrap().name, StrategyName::RandomSpotWin);
    assert_eq!(Strategy::new(&String::from("metric_position")).unwrap().name, StrategyName::MetricPosition);
    assert_eq!(Strategy::new(&String::from("metric_strength")).unwrap().name, StrategyName::MetricStrength);
    assert_eq!(Strategy::new(&String::from("wolf_strength")), Err(GameError::FormatError));
    assert_eq!(strategy_from_lowercase("metric_count"), Some(StrategyName::MetricCount));
    assert_eq!(strategy_from_lowercase("Metric_Count"), None);
}

fn winning_position() -> Board {
    let mut board = empty_board();
    board.monkey_heights[8] = 1;
    board.set_card(true, 8, 0, cards::MP1);
    board.monkey_heights[2] = 1;
    board.set_card(true, 2, 0, cards::MR1);
    board.wolf_heights[6] = 2;
    board.set_card(false, 6, 0, cards::WR1);
    board.set_card(false, 6, 1, cards::WS2);
    board
}

#[test]
fn spot_win_takes_first_winning_candidate() {
    let board = winning_position();
    let all = gather_all_moves(&board, true, &dice(1, 2, 1));
    let first_win = all.iter().position(|c| c.board.victorious_team() == cards::BIT_NON_NULL).unwrap();
    assert_eq!(Strategy::spot_win(&all), Some(first_win));
    let mut rng = StdRng::seed_from_u64(5);
    for name in ["random_spot_win", "metric_count", "metric_position", "metric_strength"] {
        let s = Strategy::new(&String::from(name)).unwrap();
        let chosen = s.choose_move(&all, &mut rng);
        assert_eq!(chosen.moves, all[first_win].moves);
    }
}

#[test]
fn metric_strategy_picks_a_best_candidate() {
    let mut rng = StdRng::seed_from_u64(11);
    let board = Board::new(&mut rng);
    let all = gather_all_moves(&board, true, &dice(3, 3, 3));
    let s = Strategy::new(&String::from("metric_position")).unwrap();
    let best = s.best_metric_indices(&all);
    assert!(!best.is_empty());
    let values: Vec<MetricValue> = all.iter().map(|c| s.metric_value(c)).collect();
    for &k in best.iter() {
        for v in values.iter() {
            assert!(values[k].ge(v));
        }
    }
    for (k, v) in values.iter().enumerate() {
        if values.iter().all(|w| v.ge(w)) {
            assert!(best.contains(&k));
        }
    }
    let chosen = s.choose_move(&all, &mut rng);
    assert!(best.iter().any(|&k| all[k].moves == chosen.moves));
}

#[test]
fn dice_faces_and_rolls() {
    assert_eq!([0, 1, 2, 3, 4, 5].map(dice_face), [1, 1, 1, 2, 2, 3]);
    let mut rng = StdRng::seed_from_u64(9);
    for _ in 0..50 {
        let r = roll_dice_three_times(&mut rng);
        assert_eq!(r[0].category, cards::BITS_CATEGORY_ROCK);
        assert_eq!(r[1].category, cards::BITS_CATEGORY_PAPER);
        assert_eq!(r[2].category, cards::BITS_CATEGORY_SCISSORS);
        assert!(r.iter().all(|d| d.roll >= 1 && d.roll <= 3));
    }
}

fn small_request_board() -> ninja_taisen::dto::BoardDto {
    let mut monkey = BTreeMap::new();
    monkey.insert(2u8, vec![String::from("MR2"), String::from("MS1")]);
    let mut wolf = BTreeMap::new();
    wolf.insert(4u8, vec![String::from("WP3")]);
    ninja_taisen::dto::BoardDto { monkey, wolf }
}

#[test]
fn execute_named_moves() {
    let request = ExecuteRequest {
        board: small_request_board(),
        dice: DiceRollDto { rock: 1, paper: 1, scissors: 2 },
        team: String::from("monkey"),
        moves: vec![MoveDto { dice_category: String::from("scissors"), card: String::from("MS1") }],
    };
    let response = execute_move(&request).unwrap();
    assert_eq!(response.board.monkey[&2], vec![String::from("MR2")]);
    assert_eq!(response.board.monkey[&4], vec![String::from("MS1")]);
    assert!(response.board.wolf.is_empty());

    let mut bad = request;
    bad.team = String::from("bear");
    assert!(matches!(execute_move(&bad), Err(GameError::FormatError)));
    bad.team = String::from("monkey");
    bad.moves[0].card = String::from("MS3");
    assert!(matches!(execute_move(&bad), Err(GameError::NotFound)));
    bad.moves[0].card = String::from("MSX");
    assert!(matches!(execute_move(&bad), Err(GameError::FormatError)));
    bad.moves[0].card = String::from("MS1");
    bad.moves[0].dice_category = String::from("joker");
    assert!(matches!(execute_move(&bad), Err(GameError::FormatError)));
}

#[test]
fn choose_returns_moves_of_a_candidate() {
    let mut rng = StdRng::seed_from_u64(4);
    let request = ChooseRequest {
        board: small_request_board(),
        dice: DiceRollDto { rock: 1, paper: 2, scissors: 2 },
        team: String::from("monkey"),
        strategy: String::from("metric_count"),
    };
    let response = choose_move(&request, &mut rng).unwrap();
    assert!(!response.moves.is_empty());
    assert!(response.moves.iter().all(|m| m.card == "MR2" || m.card == "MS1"));
    // Scissors two steps onto the paper wins it; metric_count keeps every monkey card.
    assert!(response.moves.iter().any(|m| m.card == "MS1" && m.dice_category == "scissors"));

    let mut empty = request;
    empty.board = ninja_taisen::dto::BoardDto { monkey: BTreeMap::new(), wolf: BTreeMap::new() };
    empty.strategy = String::from("unknown");
    assert!(choose_move(&empty, &mut rng).unwrap().moves.is_empty());
    empty.team = String::from("nobody");
    assert!(matches!(choose_move(&empty, &mut rng), Err(GameError::FormatError)));
}

#[test]
fn move_text() {
    let m = Move { dice_category: cards::BITS_CATEGORY_PAPER, card: cards::WJ4 };
    let dto = m.to_dto().unwrap();
    assert_eq!(dto.dice_category, "paper");
    assert_eq!(dto.card, "WJ4");
    let m = Move { dice_category: cards::BITS_CATEGORY_JOKER, card: cards::WJ4 };
    assert!(matches!(m.to_dto(), Err(GameError::FormatError)));
}

#[test]
fn simulated_games_end_consistently() {
    for seed in 0..4 {
        let instruction = InstructionDto {
            id: seed,
            seed,
            monkey_strategy: String::from("metric_strength"),
            wolf_strategy: String::from("random"),
        };
        let outcome = simulate_one(&instruction).unwrap();
        assert!(outcome.turn_count <= MAX_TURNS);
        assert!(outcome.monkey_cards_left <= 10 && outcome.wolf_cards_left <= 10);
        if outcome.winner == cards::NULL {
            assert_eq!(outcome.turn_count, MAX_TURNS);
        }
        assert_eq!(simulate_one(&instruction).unwrap(), outcome);
    }
    let bad = InstructionDto {
        id: 0,
        seed: 0,
        monkey_strategy: String::from("metric_strength"),
        wolf_strategy: String::from("wolf_strength"),
    };
    assert_eq!(simulate_one(&bad), Err(GameError::FormatError));
}

#[test]
fn board_method_enumerates_the_same_candidates() {
    let mut rng = StdRng::seed_from_u64(21);
    let board = Board::new(&mut rng);
    let free = gather_all_moves(&board, false, &dice(2, 1, 3));
    let method = board.gather_all_moves(false, &dice(2, 1, 3));
    assert_eq!(free.len(), method.len());
    for (a, b) in free.iter().zip(method.iter()) {
        assert_eq!(a.moves, b.moves);
        assert_eq!(a.board, b.board);
    }
}
