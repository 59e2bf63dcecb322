//! A whole game between two policies.
use vstd::prelude::*;
use rand::rngs::StdRng;
use crate::board::{Board, BoardModel};
use crate::cards::{
    BITS_CATEGORY_PAPER, BITS_CATEGORY_ROCK, BITS_CATEGORY_SCISSORS, GameError, NULL,
};
use crate::dice::roll_dice_three_times;
use crate::dto::InstructionDto;
use crate::metric::count_of;
use crate::moves::{DiceRoll, all_moves_spec, gather_all_moves, models};
use crate::random::seeded_rng;
use crate::strategy::{Strategy, StrategyName, chosen_ok, lower_of, strategy_of};
use crate::setup::is_opening;

verus! {

/// Turns after which a game stops undecided.
pub const MAX_TURNS: u8 = 100;

/// How a game ended.
#[derive(Clone, Copy, Debug, PartialEq, Eq)]
pub struct GameOutcome {
    /// The winner's team bits with the live bit set, or `NULL`.
    pub winner: u8,
    pub turn_count: u8,
    pub monkey_cards_left: u8,
    pub wolf_cards_left: u8,
}

/// The dice of one turn: rock, paper and scissors, in that order, each
/// showing 1 to 3.
pub open spec fn turn_dice(dice: Seq<DiceRoll>) -> bool {
    &&& dice.len() == 3
    &&& dice[0].category == BITS_CATEGORY_ROCK
    &&& dice[1].category == BITS_CATEGORY_PAPER
    &&& dice[2].category == BITS_CATEGORY_SCISSORS
    &&& forall|i: int| 0 <= i < 3 ==> 1 <= (#[trigger] dice[i]).roll <= 3
}

/// One turn of the team `monkey` with policy `name` takes `b` to `n`: for
/// some roll of the dice, the side passes when the enumeration is empty, and
/// otherwise `n` is the board of a candidate the policy may choose.
pub open spec fn turn_step(b: BoardModel, monkey: bool, name: StrategyName, n: BoardModel) -> bool {
    exists|dice: Seq<DiceRoll>|
        #![trigger all_moves_spec(b, monkey, dice)]
        turn_dice(dice) && {
            let all = all_moves_spec(b, monkey, dice);
            ||| all.len() == 0 && n == b
            ||| exists|k: int| #[trigger] chosen_ok(name, all, k) && n == all[k].board
        }
}

/// `bs` is a game of `turns` turns, monkeys first: an opening layout, then
/// one legal turn after another while no team has won.
pub open spec fn game_trace(
    bs: Seq<BoardModel>,
    turns: int,
    monkey_name: StrategyName,
    wolf_name: StrategyName,
) -> bool {
    &&& bs.len() == turns + 1
    &&& is_opening(bs[0])
    &&& forall|t: int|
        0 <= t < turns ==> (#[trigger] bs[t]).victor() == NULL && turn_step(
            bs[t],
            t % 2 == 0,
            if t % 2 == 0 {
                monkey_name
            } else {
                wolf_name
            },
            bs[t + 1],
        )
}

/// `r` is how a legal game between the two policies ended: a winner is the
/// victor of the last board, no winner means the turns ran out, and the
/// cards left are those of the last board.
pub open spec fn played(r: GameOutcome, monkey_name: StrategyName, wolf_name: StrategyName) -> bool {
    &&& r.turn_count <= MAX_TURNS
    &&& r.winner == NULL ==> r.turn_count == MAX_TURNS
    &&& exists|bs: Seq<BoardModel>|
        #[trigger] game_trace(bs, r.turn_count as int, monkey_name, wolf_name) && {
            let last = bs[r.turn_count as int];
            &&& last.wf()
            &&& r.winner != NULL ==> r.winner == last.victor()
            &&& r.monkey_cards_left == count_of(last, true)
            &&& r.wolf_cards_left == count_of(last, false)
        }
}

fn cards_left(heights: &[u8; 11]) -> (r: u8)
    requires
        crate::board::total(heights@, 11) <= 10,
    ensures
        r == crate::board::total(heights@, 11),
{
    let mut sum: u8 = 0;
    let mut p: usize = 0;
    while p < 11
        invariant
            0 <= p <= 11,
            crate::board::total(heights@, 11) <= 10,
            sum == crate::board::total(heights@, p as int),
        decreases 11 - p,
    {
        proof {
            crate::metric::lemma_total_prefix(heights@, p as int + 1, 11);
            crate::board::lemma_total_bounds(heights@, p as int, 0, 0);
        }
        sum = sum + heights[p];
        p = p + 1;
    }
    sum
}

/// Plays a game from a new board, the monkeys first, each turn rolling the
/// three dice and letting the side's policy pick among the enumerated end
/// states; a side without a legal move passes. The game stops when a side
/// has won or after `MAX_TURNS` turns.
pub fn play_game(monkey_strategy: &Strategy, wolf_strategy: &Strategy, rng: &mut StdRng) -> (r: GameOutcome)
    ensures
        played(r, monkey_strategy.name, wolf_strategy.name),
{
    let mut board = Board::new(rng);
    let ghost mut bs: Seq<BoardModel> = seq![board@];
    let mut is_monkey = true;
    let mut turn_count: u8 = 0;
    let mut winner: u8 = NULL;
    while turn_count < MAX_TURNS
        invariant_except_break
            winner == NULL,
        invariant
            board@.wf(),
            turn_count <= MAX_TURNS,
            is_monkey == (turn_count % 2 == 0),
            game_trace(bs, turn_count as int, monkey_strategy.name, wolf_strategy.name),
            bs[turn_count as int] == board@,
        ensures
            winner != NULL ==> winner == board@.victor(),
            winner == NULL ==> turn_count == MAX_TURNS,
        decreases MAX_TURNS - turn_count,
    {
        let victorious_team = board.victorious_team();
        if victorious_team != NULL {
            winner = victorious_team;
            break;
        }
        let dice_rolls = roll_dice_three_times(rng);
        let ghost b0 = board@;
        let ghost name = if is_monkey { monkey_strategy.name } else { wolf_strategy.name };
        let permitted_moves = gather_all_moves(&board, is_monkey, &dice_rolls);
        proof {
            assert(turn_dice(dice_rolls@));
        }
        if permitted_moves.len() > 0 {
            let chosen = if is_monkey {
                monkey_strategy.choose_move(&permitted_moves, rng)
            } else {
                wolf_strategy.choose_move(&permitted_moves, rng)
            };
            proof {
                let all = models(permitted_moves@);
                let k = choose|k: int| chosen_ok(name, all, k) && *chosen == permitted_moves@[k];
                assert(permitted_moves@[k].board@.wf());
                assert(all[k] == permitted_moves@[k]@);
                assert(chosen_ok(name, all_moves_spec(b0, is_monkey, dice_rolls@), k));
            }
            board = chosen.board;
        } else {
            proof {
                assert(models(permitted_moves@).len() == 0);
            }
        }
        proof {
            assert(turn_step(b0, is_monkey, name, board@));
            let old_bs = bs;
            bs = bs.push(board@);
            assert forall|t: int| 0 <= t < turn_count + 1 implies (#[trigger] bs[t]).victor() == NULL
                && turn_step(
                bs[t],
                t % 2 == 0,
                if t % 2 == 0 {
                    monkey_strategy.name
                } else {
                    wolf_strategy.name
                },
                bs[t + 1],
            ) by {
                if t < turn_count {
                    assert(bs[t] == old_bs[t] && bs[t + 1] == old_bs[t + 1]);
                } else {
                    assert(bs[t] == b0);
                }
            }
        }
        turn_count = turn_count + 1;
        is_monkey = !is_monkey;
    }
    let monkey_cards_left = cards_left(&board.monkey_heights);
    let wolf_cards_left = cards_left(&board.wolf_heights);
    let r = GameOutcome { winner, turn_count, monkey_cards_left, wolf_cards_left };
    proof {
        assert(game_trace(bs, r.turn_count as int, monkey_strategy.name, wolf_strategy.name));
    }
    r
}

/// Plays the game an instruction describes: its seed drives every draw.
pub fn simulate_one(instruction: &InstructionDto) -> (r: Result<GameOutcome, GameError>)
    ensures
        (r is Ok) == (strategy_of(lower_of(instruction.monkey_strategy@)) is Some && strategy_of(
            lower_of(instruction.wolf_strategy@),
        ) is Some),
        r is Err ==> r == Err::<GameOutcome, GameError>(GameError::FormatError),
        r is Ok ==> played(
            r->Ok_0,
            strategy_of(lower_of(instruction.monkey_strategy@))->0,
            strategy_of(lower_of(instruction.wolf_strategy@))->0,
        ),
{
    let mut rng = seeded_rng(instruction.seed);
    let monkey_strategy = match Strategy::new(&instruction.monkey_strategy) {
        Ok(s) => s,
        Err(e) => return Err(e),
    };
    let wolf_strategy = match Strategy::new(&instruction.wolf_strategy) {
        Ok(s) => s,
        Err(e) => return Err(e),
    };
    Ok(play_game(&monkey_strategy, &wolf_strategy, &mut rng))
}

} // verus!
