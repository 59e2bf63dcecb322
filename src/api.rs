//! The engine's boundary: turn requests on board snapshots.
use vstd::prelude::*;
use rand::rngs::StdRng;
use crate::board::{Board, BoardModel, first_location, on_board};
use crate::cascade::resolved_move;
use crate::cards::{
    BITS_CATEGORY_PAPER, BITS_CATEGORY_ROCK, BITS_CATEGORY_SCISSORS, GameError, card_text,
    from_string, parse_card,
};
use crate::dto::{
    ChooseRequest, ChooseResponse, DiceRollDto, ExecuteRequest, ExecuteResponse, MoveDto,
    board_matches, category_name, snapshot_of, team_snapshot_ok,
};
use crate::moves::{DiceRoll, Move, all_moves_spec, gather_all_moves, models};
use crate::strategy::{Strategy, chosen_ok, same_text};

verus! {

/// The team a name stands for: `true` for `monkey`, `false` for `wolf`.
pub open spec fn team_of(s: Seq<char>) -> Option<bool> {
    if s == "monkey"@ {
        Some(true)
    } else if s == "wolf"@ {
        Some(false)
    } else {
        None
    }
}

/// The magnitude of the die a category name stands for.
pub open spec fn roll_for(dice: DiceRollDto, name: Seq<char>) -> Option<i8> {
    if name == "rock"@ {
        Some(dice.rock)
    } else if name == "paper"@ {
        Some(dice.paper)
    } else if name == "scissors"@ {
        Some(dice.scissors)
    } else {
        None
    }
}

/// One named move applied to `b`: the card must read, stand on the board and
/// name a die.
pub open spec fn apply_one(b: BoardModel, monkey: bool, dice: DiceRollDto, mv: MoveDto) -> Result<
    BoardModel,
    GameError,
> {
    match parse_card(mv.card@) {
        None => Err(GameError::FormatError),
        Some(card) => if !on_board(b, monkey, card) {
            Err(GameError::NotFound)
        } else {
            match roll_for(dice, mv.dice_category@) {
                None => Err(GameError::FormatError),
                Some(roll) => {
                    let loc = first_location(b, monkey, card);
                    Ok(resolved_move(b, monkey, roll as int, loc.pile_index as int, loc.card_index as int))
                },
            }
        },
    }
}

/// The first `n` named moves applied in order; the first failure stops.
pub open spec fn apply_moves(b: BoardModel, monkey: bool, dice: DiceRollDto, moves: Seq<MoveDto>, n: int) -> Result<
    BoardModel,
    GameError,
>
    decreases n,
{
    if n <= 0 {
        Ok(b)
    } else {
        match apply_moves(b, monkey, dice, moves, n - 1) {
            Err(e) => Err(e),
            Ok(b1) => apply_one(b1, monkey, dice, moves[n - 1]),
        }
    }
}

/// The team named `team`.
pub fn team_from_name(team: &String) -> (r: Result<bool, GameError>)
    ensures
        match team_of(team@) {
            Some(m) => r == Ok::<bool, GameError>(m),
            None => r == Err::<bool, GameError>(GameError::FormatError),
        },
{
    if same_text(team.as_str(), "monkey") {
        Ok(true)
    } else if same_text(team.as_str(), "wolf") {
        Ok(false)
    } else {
        Err(GameError::FormatError)
    }
}

fn roll_from_name(dice: &DiceRollDto, name: &String) -> (r: Option<i8>)
    ensures
        r == roll_for(*dice, name@),
{
    if same_text(name.as_str(), "rock") {
        Some(dice.rock)
    } else if same_text(name.as_str(), "paper") {
        Some(dice.paper)
    } else if same_text(name.as_str(), "scissors") {
        Some(dice.scissors)
    } else {
        None
    }
}

proof fn lemma_apply_err_stable(
    b: BoardModel,
    monkey: bool,
    dice: DiceRollDto,
    moves: Seq<MoveDto>,
    m: int,
    n: int,
)
    requires
        0 <= m <= n,
        apply_moves(b, monkey, dice, moves, m) is Err,
    ensures
        apply_moves(b, monkey, dice, moves, n) == apply_moves(b, monkey, dice, moves, m),
    decreases n - m,
{
    if m < n {
        lemma_apply_err_stable(b, monkey, dice, moves, m, n - 1);
    }
}

/// Applies the named moves of `request`, in order, to its board and returns
/// the board that results.
pub fn execute_move(request: &ExecuteRequest) -> (r: Result<ExecuteResponse, GameError>)
    ensures
        team_of(request.team@) is None ==> r == Err::<ExecuteResponse, GameError>(GameError::FormatError),
        team_of(request.team@) is Some && !(team_snapshot_ok(request.board.monkey@)
            && team_snapshot_ok(request.board.wolf@)) ==> r == Err::<ExecuteResponse, GameError>(
            GameError::FormatError,
        ),
        r is Ok ==> team_of(request.team@) is Some && exists|b: BoardModel|
            b.wf() && board_matches(b, true, request.board.monkey@) && board_matches(
                b,
                false,
                request.board.wolf@,
            ) && match apply_moves(
                b,
                team_of(request.team@)->0,
                request.dice,
                request.moves@,
                request.moves@.len() as int,
            ) {
                Ok(end) => snapshot_of(r->Ok_0.board.monkey@, end, true) && snapshot_of(
                    r->Ok_0.board.wolf@,
                    end,
                    false,
                ),
                Err(_) => false,
            },
        team_of(request.team@) is Some && team_snapshot_ok(request.board.monkey@)
            && team_snapshot_ok(request.board.wolf@) ==> (r is Err ==> exists|b: BoardModel|
            b.wf() && board_matches(b, true, request.board.monkey@) && board_matches(
                b,
                false,
                request.board.wolf@,
            ) && apply_moves(
                b,
                team_of(request.team@)->0,
                request.dice,
                request.moves@,
                request.moves@.len() as int,
            ) == Err::<BoardModel, GameError>(r->Err_0)),
{
    let is_monkey = match team_from_name(&request.team) {
        Ok(m) => m,
        Err(e) => return Err(e),
    };
    let mut board = match Board::from_dto(&request.board) {
        Ok(b) => b,
        Err(e) => return Err(e),
    };
    let ghost b0 = board@;
    let mut k: usize = 0;
    while k < request.moves.len()
        invariant
            b0.wf(),
            board_matches(b0, true, request.board.monkey@),
            board_matches(b0, false, request.board.wolf@),
            team_of(request.team@) == Some(is_monkey),
            team_snapshot_ok(request.board.monkey@) && team_snapshot_ok(request.board.wolf@),
            0 <= k <= request.moves.len(),
            board@.wf(),
            apply_moves(b0, is_monkey, request.dice, request.moves@, k as int) == Ok::<
                BoardModel,
                GameError,
            >(board@),
        decreases request.moves.len() - k,
    {
        let a_move = &request.moves[k];
        let card = match from_string(&a_move.card) {
            Ok(c) => c,
            Err(e) => {
                proof {
                    assert(request.moves@[k as int] == *a_move);
                    assert(apply_moves(b0, is_monkey, request.dice, request.moves@, k + 1) == Err::<BoardModel, GameError>(e));
                    lemma_apply_err_stable(b0, is_monkey, request.dice, request.moves@, k + 1, request.moves@.len() as int);
                }
                return Err(e)
            },
        };
        let location = match board.locate_card(is_monkey, card) {
            Ok(loc) => loc,
            Err(e) => {
                proof {
                    assert(request.moves@[k as int] == *a_move);
                    assert(apply_moves(b0, is_monkey, request.dice, request.moves@, k + 1) == Err::<BoardModel, GameError>(e));
                    lemma_apply_err_stable(b0, is_monkey, request.dice, request.moves@, k + 1, request.moves@.len() as int);
                }
                return Err(e)
            },
        };
        let dice_roll = match roll_from_name(&request.dice, &a_move.dice_category) {
            Some(roll) => roll,
            None => {
                proof {
                    assert(request.moves@[k as int] == *a_move);
                    assert(apply_moves(b0, is_monkey, request.dice, request.moves@, k + 1) == Err::<BoardModel, GameError>(GameError::FormatError));
                    lemma_apply_err_stable(b0, is_monkey, request.dice, request.moves@, k + 1, request.moves@.len() as int);
                }
                return Err(GameError::FormatError)
            },
        };
        proof {
            crate::board::lemma_first_location_exists(board@, is_monkey, card);
        }
        board.move_card_and_resolve_battles(
            is_monkey,
            dice_roll,
            location.pile_index,
            location.card_index,
        );
        k = k + 1;
    }
    Ok(ExecuteResponse { board: board.to_dto() })
}

/// The dice of a request, rock, paper and scissors in that order.
pub fn dice_of(dice: &DiceRollDto) -> (r: [DiceRoll; 3])
    ensures
        r@ == seq![
            DiceRoll { category: BITS_CATEGORY_ROCK, roll: dice.rock },
            DiceRoll { category: BITS_CATEGORY_PAPER, roll: dice.paper },
            DiceRoll { category: BITS_CATEGORY_SCISSORS, roll: dice.scissors },
        ],
{
    let r = [
        DiceRoll { category: BITS_CATEGORY_ROCK, roll: dice.rock },
        DiceRoll { category: BITS_CATEGORY_PAPER, roll: dice.paper },
        DiceRoll { category: BITS_CATEGORY_SCISSORS, roll: dice.scissors },
    ];
    proof {
        assert(r@ =~= seq![
            DiceRoll { category: BITS_CATEGORY_ROCK, roll: dice.rock },
            DiceRoll { category: BITS_CATEGORY_PAPER, roll: dice.paper },
            DiceRoll { category: BITS_CATEGORY_SCISSORS, roll: dice.scissors },
        ]);
    }
    r
}

/// The moves as text.
pub fn moves_to_dto(moves: &Vec<Move>) -> (r: Result<Vec<MoveDto>, GameError>)
    ensures
        (forall|j: int| 0 <= j < moves@.len() ==> category_name((#[trigger] moves@[j]).dice_category) is Some
            && crate::cards::strength_bits(moves@[j].card) <= 4) ==> r is Ok,
        r is Ok ==> r->Ok_0@.len() == moves@.len() && forall|j: int|
            0 <= j < moves@.len() ==> (#[trigger] r->Ok_0@[j]).card@ == card_text(moves@[j].card)
                && r->Ok_0@[j].dice_category@ == category_name(moves@[j].dice_category)->0,
{
    let mut texts: Vec<MoveDto> = Vec::new();
    let mut k: usize = 0;
    while k < moves.len()
        invariant
            0 <= k <= moves.len(),
            texts@.len() == k,
            forall|j: int|
                0 <= j < k ==> (#[trigger] texts@[j]).card@ == card_text(moves@[j].card)
                    && texts@[j].dice_category@ == category_name(moves@[j].dice_category)->0,
        decreases moves.len() - k,
    {
        match moves[k].to_dto() {
            Ok(t) => texts.push(t),
            Err(e) => return Err(e),
        }
        k = k + 1;
    }
    Ok(texts)
}

/// Chooses a turn's moves for the request's team with the request's policy.
/// No legal move gives an empty answer, whatever the policy's name.
pub fn choose_move(request: &ChooseRequest, rng: &mut StdRng) -> (r: Result<ChooseResponse, GameError>)
    ensures
        team_of(request.team@) is Some && team_snapshot_ok(request.board.monkey@)
            && team_snapshot_ok(request.board.wolf@) && crate::strategy::strategy_of(
            crate::strategy::lower_of(request.strategy@),
        ) is Some ==> r is Ok,
        team_of(request.team@) is None || !(team_snapshot_ok(request.board.monkey@)
            && team_snapshot_ok(request.board.wolf@)) ==> r == Err::<ChooseResponse, GameError>(
            GameError::FormatError,
        ),
        r is Ok ==> exists|b: BoardModel|
            b.wf() && board_matches(b, true, request.board.monkey@) && board_matches(
                b,
                false,
                request.board.wolf@,
            ) && {
                let all = all_moves_spec(
                    b,
                    team_of(request.team@)->0,
                    seq![
                        DiceRoll { category: BITS_CATEGORY_ROCK, roll: request.dice.rock },
                        DiceRoll { category: BITS_CATEGORY_PAPER, roll: request.dice.paper },
                        DiceRoll { category: BITS_CATEGORY_SCISSORS, roll: request.dice.scissors },
                    ],
                );
                &&& all.len() == 0 ==> r->Ok_0.moves@.len() == 0
                &&& all.len() > 0 ==> exists|name, k: int|
                    chosen_ok(name, all, k) && crate::strategy::strategy_of(
                        crate::strategy::lower_of(request.strategy@),
                    ) == Some(name) && r->Ok_0.moves@.len() == all[k].moves.len() && forall|j: int|
                        0 <= j < all[k].moves.len() ==> (#[trigger] r->Ok_0.moves@[j]).card@
                            == card_text(all[k].moves[j].card) && r->Ok_0.moves@[j].dice_category@
                            == category_name(all[k].moves[j].dice_category)->0
            },
{
    let board = match Board::from_dto(&request.board) {
        Ok(b) => b,
        Err(e) => return Err(e),
    };
    let is_monkey = match team_from_name(&request.team) {
        Ok(m) => m,
        Err(e) => return Err(e),
    };
    let dice_roll = dice_of(&request.dice);
    proof {
        assert(crate::cards::category_bits(BITS_CATEGORY_ROCK) == 0u8) by (bit_vector);
        assert(crate::cards::category_bits(BITS_CATEGORY_PAPER) == 16u8) by (bit_vector);
        assert(crate::cards::category_bits(BITS_CATEGORY_SCISSORS) == 32u8) by (bit_vector);
        assert(crate::moves::distinct_dice(dice_roll@));
    }
    let all_permitted_moves = gather_all_moves(&board, is_monkey, &dice_roll);
    if all_permitted_moves.len() == 0 {
        return Ok(ChooseResponse { moves: Vec::new() });
    }
    let strategy = match Strategy::new(&request.strategy) {
        Ok(s) => s,
        Err(e) => return Err(e),
    };
    let chosen = strategy.choose_move(&all_permitted_moves, rng);
    let ghost all = models(all_permitted_moves@);
    let ghost k = choose|k: int| chosen_ok(strategy.name, all, k) && *chosen == all_permitted_moves@[k];
    proof {
        assert(all[k] == chosen@);
        assert(crate::moves::printable(chosen.moves@));
        assert forall|j: int| 0 <= j < chosen.moves@.len() implies category_name(
            (#[trigger] chosen.moves@[j]).dice_category,
        ) is Some && crate::cards::strength_bits(chosen.moves@[j].card) <= 4 by {
            crate::cards::lemma_category_values(chosen.moves@[j].dice_category);
        }
    }
    match moves_to_dto(&chosen.moves) {
        Ok(moves) => Ok(ChooseResponse { moves }),
        Err(e) => Err(e),
    }
}

} // verus!
