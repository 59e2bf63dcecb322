//! Enumeration of every end-of-turn board reachable with a turn's dice.
use vstd::prelude::*;
use crate::board::{
    Board, BoardModel, CardLocation, NUM_PILES, PILE_CAPACITY, slot, lemma_moved_wf, target_pile,
};
use crate::cascade::{cascade_spec, lemma_cascade, lemma_restored_wf, piles_in_range, resolved_move};
use crate::distinct::{distinct_board, distinct_moves, lemma_enumeration_distinct};
use crate::cards::{
    BITS_CATEGORY_JOKER, CHECK_CATEGORY, NULL, category_bits, is_joker, is_valid_card,
    strength_bits,
};

verus! {

/// One die of a turn: the category it serves and how far it moves a card.
#[derive(Clone, Copy, Debug, PartialEq, Eq)]
pub struct DiceRoll {
    pub category: u8,
    pub roll: i8,
}

/// The use of one die: its category and the card it moved.
#[derive(Clone, Copy, Debug, PartialEq, Eq)]
pub struct Move {
    pub dice_category: u8,
    pub card: u8,
}

/// A sequence of moves of one team and the board it leads to.
pub struct CompletedMoves {
    pub moves: Vec<Move>,
    pub board: Board,
    pub is_monkey: bool,
}

/// The contents of a `CompletedMoves`.
pub struct Candidate {
    pub moves: Seq<Move>,
    pub board: BoardModel,
    pub is_monkey: bool,
}

impl View for CompletedMoves {
    type V = Candidate;

    open spec fn view(&self) -> Candidate {
        Candidate { moves: self.moves@, board: self.board@, is_monkey: self.is_monkey }
    }
}

pub open spec fn models(v: Seq<CompletedMoves>) -> Seq<Candidate> {
    v.map_values(|c: CompletedMoves| c@)
}

/// Some move of the sequence moved a joker.
pub open spec fn has_joker(moves: Seq<Move>) -> bool {
    exists|k: int| 0 <= k < moves.len() && is_joker(#[trigger] moves[k].card)
}

/// A die of `category` may move card `c`: a card of that category, or a
/// joker while no joker has moved yet this turn.
pub open spec fn is_movable(c: u8, category: u8, used_joker: bool) -> bool {
    category_bits(c) == category || (is_joker(c) && !used_joker)
}

/// The lowest slot of a pile of height `h` that a die can reach.
pub open spec fn reach_start(h: int) -> int {
    if h > 3 {
        h - 3
    } else {
        0
    }
}

/// Movable cards of pile `p` below slot `j`, bottom first.
pub open spec fn pile_movable(
    b: BoardModel,
    monkey: bool,
    category: u8,
    used_joker: bool,
    p: int,
    j: int,
) -> Seq<CardLocation>
    decreases j,
{
    if j <= reach_start(b.height(monkey, p)) {
        seq![]
    } else {
        let r = pile_movable(b, monkey, category, used_joker, p, j - 1);
        if is_movable(b.card(monkey, p, j - 1), category, used_joker) {
            r.push(CardLocation { pile_index: p as u8, card_index: (j - 1) as u8 })
        } else {
            r
        }
    }
}

/// Movable cards of the first `n` piles, pile by pile.
pub open spec fn movable_spec(b: BoardModel, monkey: bool, category: u8, used_joker: bool, n: int) -> Seq<
    CardLocation,
>
    decreases n,
{
    if n <= 0 {
        seq![]
    } else {
        movable_spec(b, monkey, category, used_joker, n - 1) + pile_movable(
            b,
            monkey,
            category,
            used_joker,
            n - 1,
            b.height(monkey, n - 1),
        )
    }
}

/// `c` extended by moving the card at `loc` with a die of `category`.
pub open spec fn step(c: Candidate, monkey: bool, category: u8, roll: int, loc: CardLocation) -> Candidate {
    Candidate {
        moves: c.moves.push(
            Move {
                dice_category: category,
                card: c.board.card(monkey, loc.pile_index as int, loc.card_index as int),
            },
        ),
        board: resolved_move(c.board, monkey, roll, loc.pile_index as int, loc.card_index as int),
        is_monkey: monkey,
    }
}

/// `c` extended at each of `locs`.
pub open spec fn steps(c: Candidate, monkey: bool, category: u8, roll: int, locs: Seq<CardLocation>) -> Seq<
    Candidate,
> {
    locs.map_values(|loc: CardLocation| step(c, monkey, category, roll, loc))
}

/// Every extension of `c` by one die; none once the game is decided.
pub open spec fn expand_one(c: Candidate, monkey: bool, category: u8, roll: int) -> Seq<Candidate> {
    if c.board.victor() != NULL {
        seq![]
    } else {
        steps(c, monkey, category, roll, movable_spec(c.board, monkey, category, has_joker(c.moves), 11))
    }
}

/// The extensions of each of `states` in turn.
pub open spec fn expand(states: Seq<Candidate>, monkey: bool, category: u8, roll: int) -> Seq<
    Candidate,
>
    decreases states.len(),
{
    if states.len() == 0 {
        seq![]
    } else {
        expand(states.drop_last(), monkey, category, roll) + expand_one(
            states.last(),
            monkey,
            category,
            roll,
        )
    }
}

pub open spec fn expand_die(states: Seq<Candidate>, monkey: bool, dice: Seq<DiceRoll>, i: int) -> Seq<
    Candidate,
> {
    expand(states, monkey, dice[i].category, dice[i].roll as int)
}

/// Third dice after dice `a` and `b`, for the first `n` indices.
pub open spec fn third_level(
    bs: Seq<Candidate>,
    monkey: bool,
    dice: Seq<DiceRoll>,
    a: int,
    b: int,
    n: int,
) -> Seq<Candidate>
    decreases n,
{
    if n <= 0 {
        seq![]
    } else {
        third_level(bs, monkey, dice, a, b, n - 1) + if n - 1 == a || n - 1 == b {
            seq![]
        } else {
            expand_die(bs, monkey, dice, n - 1)
        }
    }
}

/// Second dice after die `a`, each followed by the third dice and then by
/// itself, for the first `n` indices.
pub open spec fn second_level(as_: Seq<Candidate>, monkey: bool, dice: Seq<DiceRoll>, a: int, n: int) -> Seq<
    Candidate,
>
    decreases n,
{
    if n <= 0 {
        seq![]
    } else {
        second_level(as_, monkey, dice, a, n - 1) + if n - 1 == a {
            seq![]
        } else {
            let bs = expand_die(as_, monkey, dice, n - 1);
            third_level(bs, monkey, dice, a, n - 1, 3) + bs
        }
    }
}

pub open spec fn start(b: BoardModel, monkey: bool) -> Seq<Candidate> {
    seq![Candidate { moves: seq![], board: b, is_monkey: monkey }]
}

/// First dice, each followed by what comes after it and then by itself.
pub open spec fn first_level(b: BoardModel, monkey: bool, dice: Seq<DiceRoll>, n: int) -> Seq<
    Candidate,
>
    decreases n,
{
    if n <= 0 {
        seq![]
    } else {
        first_level(b, monkey, dice, n - 1) + {
            let as_ = expand_die(start(b, monkey), monkey, dice, n - 1);
            second_level(as_, monkey, dice, n - 1, 3) + as_
        }
    }
}

/// Every sequence of one, two or three of the dice, in the order of search.
pub open spec fn all_moves_spec(b: BoardModel, monkey: bool, dice: Seq<DiceRoll>) -> Seq<Candidate> {
    first_level(b, monkey, dice, 3)
}

pub open spec fn all_wf(v: Seq<CompletedMoves>) -> bool {
    forall|k: int| 0 <= k < v.len() ==> (#[trigger] v[k]).board@.wf()
}

pub proof fn lemma_pile_movable(b: BoardModel, monkey: bool, category: u8, used_joker: bool, p: int, j: int)
    requires
        b.wf(),
        0 <= p < 11,
        j <= b.height(monkey, p),
    ensures
        forall|k: int|
            0 <= k < pile_movable(b, monkey, category, used_joker, p, j).len() ==> {
                let loc = #[trigger] pile_movable(b, monkey, category, used_joker, p, j)[k];
                &&& loc.pile_index == p
                &&& (loc.card_index as int) < b.height(monkey, p)
                &&& is_movable(b.card(monkey, p, loc.card_index as int), category, used_joker)
            },
    decreases j,
{
    if j > reach_start(b.height(monkey, p)) {
        lemma_pile_movable(b, monkey, category, used_joker, p, j - 1);
        assert(b.heights(monkey)[p] <= PILE_CAPACITY);
        let r = pile_movable(b, monkey, category, used_joker, p, j - 1);
        let loc = CardLocation { pile_index: p as u8, card_index: (j - 1) as u8 };
        assert(loc.pile_index as int == p);
        assert(loc.card_index as int == j - 1);
        if is_movable(b.card(monkey, p, j - 1), category, used_joker) {
            assert forall|k: int| 0 <= k < r.push(loc).len() implies {
                let l = #[trigger] r.push(loc)[k];
                &&& l.pile_index == p
                &&& (l.card_index as int) < b.height(monkey, p)
                &&& is_movable(b.card(monkey, p, l.card_index as int), category, used_joker)
            } by {
                if k < r.len() {
                    assert(r.push(loc)[k] == r[k]);
                }
            }
        }
    }
}

pub proof fn lemma_movable(b: BoardModel, monkey: bool, category: u8, used_joker: bool, n: int)
    requires
        b.wf(),
        0 <= n <= 11,
    ensures
        forall|k: int|
            0 <= k < movable_spec(b, monkey, category, used_joker, n).len() ==> {
                let loc = #[trigger] movable_spec(b, monkey, category, used_joker, n)[k];
                &&& (loc.pile_index as int) < n
                &&& (loc.card_index as int) < b.height(monkey, loc.pile_index as int)
                &&& is_movable(
                    b.card(monkey, loc.pile_index as int, loc.card_index as int),
                    category,
                    used_joker,
                )
            },
    decreases n,
{
    if n > 0 {
        lemma_movable(b, monkey, category, used_joker, n - 1);
        lemma_pile_movable(b, monkey, category, used_joker, n - 1, b.height(monkey, n - 1));
        let l = movable_spec(b, monkey, category, used_joker, n - 1);
        let r = pile_movable(b, monkey, category, used_joker, n - 1, b.height(monkey, n - 1));
        assert forall|k: int| 0 <= k < (l + r).len() implies {
            let loc = #[trigger] (l + r)[k];
            &&& (loc.pile_index as int) < n
            &&& (loc.card_index as int) < b.height(monkey, loc.pile_index as int)
            &&& is_movable(
                b.card(monkey, loc.pile_index as int, loc.card_index as int),
                category,
                used_joker,
            )
        } by {
            if k < l.len() {
                assert((l + r)[k] == l[k]);
            } else {
                assert((l + r)[k] == r[k - l.len()]);
            }
        }
    }
}

/// The dice categories of a move sequence.
pub open spec fn categories(moves: Seq<Move>) -> Seq<u8> {
    moves.map_values(|mv: Move| mv.dice_category)
}

pub open spec fn jokers_at_most_once(moves: Seq<Move>) -> bool {
    forall|j: int, l: int|
        0 <= j < l < moves.len() ==> !(is_joker(#[trigger] moves[j].card) && is_joker(
            #[trigger] moves[l].card,
        ))
}

/// One to three moves, no die used twice, at most one joker moved.
pub open spec fn valid_turn(moves: Seq<Move>) -> bool {
    &&& 1 <= moves.len() <= 3
    &&& forall|j: int, l: int|
        0 <= j < l < moves.len() ==> (#[trigger] moves[j]).dice_category != (#[trigger] moves[l]).dice_category
    &&& jokers_at_most_once(moves)
}

/// Three dice of three distinct categories, none of them the joker's.
pub open spec fn distinct_dice(dice: Seq<DiceRoll>) -> bool {
    &&& dice.len() == 3
    &&& forall|i: int, j: int| 0 <= i < j < 3 ==> (#[trigger] dice[i]).category != (#[trigger] dice[j]).category
    &&& forall|i: int|
        0 <= i < 3 ==> (#[trigger] dice[i]).category != BITS_CATEGORY_JOKER && category_bits(
            dice[i].category,
        ) != BITS_CATEGORY_JOKER
}

/// A move of a die of a non-joker category with a card of strength at most 4.
pub open spec fn printable(moves: Seq<Move>) -> bool {
    forall|j: int|
        0 <= j < moves.len() ==> strength_bits((#[trigger] moves[j]).card) <= 4 && category_bits(
            moves[j].dice_category,
        ) != BITS_CATEGORY_JOKER
}

pub open spec fn all_printable(v: Seq<Candidate>) -> bool {
    forall|k: int| 0 <= k < v.len() ==> printable((#[trigger] v[k]).moves)
}

/// Every candidate has moved with dice of categories `cs`, at most one joker,
/// printable moves, and has a well-formed board.
pub open spec fn all_extend(v: Seq<Candidate>, cs: Seq<u8>) -> bool {
    forall|k: int|
        0 <= k < v.len() ==> {
            &&& categories((#[trigger] v[k]).moves) == cs
            &&& jokers_at_most_once(v[k].moves)
            &&& printable(v[k].moves)
            &&& v[k].board.wf()
        }
}

pub open spec fn all_valid(v: Seq<Candidate>) -> bool {
    forall|k: int| 0 <= k < v.len() ==> valid_turn((#[trigger] v[k]).moves)
}

pub proof fn lemma_resolved_wf(b: BoardModel, monkey: bool, roll: int, p: int, idx: int)
    requires
        b.wf(),
        0 <= p <= 10,
        0 <= idx <= b.height(monkey, p),
    ensures
        resolved_move(b, monkey, roll, p, idx).wf(),
{
    lemma_moved_wf(b, monkey, roll, p, idx);
    let s = seq![target_pile(monkey, roll, p) as u8];
    assert(piles_in_range(s));
    lemma_cascade(b.moved(monkey, roll, p, idx), monkey, s);
    lemma_restored_wf(cascade_spec(b.moved(monkey, roll, p, idx), monkey, s));
}

pub proof fn lemma_expand(states: Seq<Candidate>, monkey: bool, category: u8, roll: int, cs: Seq<u8>)
    requires
        all_extend(states, cs),
        category != BITS_CATEGORY_JOKER,
        category_bits(category) != BITS_CATEGORY_JOKER,
    ensures
        all_extend(expand(states, monkey, category, roll), cs.push(category)),
    decreases states.len(),
{
    if states.len() > 0 {
        let rest = states.drop_last();
        assert forall|k: int| 0 <= k < rest.len() implies {
            &&& categories((#[trigger] rest[k]).moves) == cs
            &&& jokers_at_most_once(rest[k].moves)
            &&& printable(rest[k].moves)
            &&& rest[k].board.wf()
        } by {
            assert(rest[k] == states[k]);
        }
        lemma_expand(rest, monkey, category, roll, cs);
        let c = states.last();
        assert(categories(c.moves) == cs && jokers_at_most_once(c.moves) && printable(c.moves)
            && c.board.wf()) by {
            assert(states[states.len() - 1] == c);
        }
        let l = expand(rest, monkey, category, roll);
        let r = expand_one(c, monkey, category, roll);
        if c.board.victor() == NULL {
            let uj = has_joker(c.moves);
            let locs = movable_spec(c.board, monkey, category, uj, 11);
            lemma_movable(c.board, monkey, category, uj, 11);
            assert forall|k: int| 0 <= k < r.len() implies {
                &&& categories((#[trigger] r[k]).moves) == cs.push(category)
                &&& jokers_at_most_once(r[k].moves)
                &&& printable(r[k].moves)
                &&& r[k].board.wf()
            } by {
                let loc = locs[k];
                assert(r[k] == step(c, monkey, category, roll, loc));
                let card = c.board.card(monkey, loc.pile_index as int, loc.card_index as int);
                let mv = c.moves.push(Move { dice_category: category, card });
                assert(categories(mv) =~= cs.push(category));
                assert forall|j: int, l: int|
                    0 <= j < l < mv.len() implies !(is_joker(#[trigger] mv[j].card) && is_joker(
                        #[trigger] mv[l].card,
                    )) by {
                    if l == mv.len() - 1 && is_joker(mv[l].card) {
                        assert(!uj);
                        assert(mv[j] == c.moves[j]);
                    } else if l < mv.len() - 1 {
                        assert(mv[j] == c.moves[j]);
                        assert(mv[l] == c.moves[l]);
                    }
                }
                lemma_resolved_wf(
                    c.board,
                    monkey,
                    roll,
                    loc.pile_index as int,
                    loc.card_index as int,
                );
                assert(is_valid_card(c.board.cards(monkey)[slot(loc.pile_index as int, loc.card_index as int)]));
                assert forall|j: int| 0 <= j < mv.len() implies strength_bits((#[trigger] mv[j]).card) <= 4
                    && category_bits(mv[j].dice_category) != BITS_CATEGORY_JOKER by {
                    if j < c.moves.len() {
                        assert(mv[j] == c.moves[j]);
                    }
                }
            }
        }
        let e = expand(states, monkey, category, roll);
        assert(e == l + r);
        assert forall|k: int| 0 <= k < e.len() implies {
            &&& categories((#[trigger] e[k]).moves) == cs.push(category)
            &&& jokers_at_most_once(e[k].moves)
            &&& printable(e[k].moves)
            &&& e[k].board.wf()
        } by {
            if k < l.len() {
                assert(e[k] == l[k]);
            } else {
                assert(e[k] == r[k - l.len()]);
            }
        }
    }
}

pub proof fn lemma_extend_valid(v: Seq<Candidate>, cs: Seq<u8>)
    requires
        all_extend(v, cs),
        1 <= cs.len() <= 3,
        forall|j: int, l: int| 0 <= j < l < cs.len() ==> cs[j] != cs[l],
    ensures
        all_valid(v),
        all_printable(v),
{
    assert forall|k: int| 0 <= k < v.len() implies valid_turn((#[trigger] v[k]).moves) by {
        let mv = v[k].moves;
        assert(categories(mv).len() == mv.len());
        assert forall|j: int, l: int| 0 <= j < l < mv.len() implies (#[trigger] mv[j]).dice_category
            != (#[trigger] mv[l]).dice_category by {
            assert(categories(mv)[j] == mv[j].dice_category);
            assert(categories(mv)[l] == mv[l].dice_category);
        }
    }
}

pub proof fn lemma_valid_concat(x: Seq<Candidate>, y: Seq<Candidate>)
    requires
        all_valid(x),
        all_valid(y),
        all_printable(x),
        all_printable(y),
    ensures
        all_valid(x + y),
        all_printable(x + y),
{
    assert forall|k: int| 0 <= k < (x + y).len() implies valid_turn((#[trigger] (x + y)[k]).moves)
        && printable((x + y)[k].moves) by {
        if k < x.len() {
            assert((x + y)[k] == x[k]);
        } else {
            assert((x + y)[k] == y[k - x.len()]);
        }
    }
}

proof fn lemma_third_level(bs: Seq<Candidate>, monkey: bool, dice: Seq<DiceRoll>, a: int, b: int, n: int)
    requires
        distinct_dice(dice),
        0 <= a < 3,
        0 <= b < 3,
        a != b,
        0 <= n <= 3,
        all_extend(bs, seq![dice[a].category, dice[b].category]),
    ensures
        all_valid(third_level(bs, monkey, dice, a, b, n)),
        all_printable(third_level(bs, monkey, dice, a, b, n)),
    decreases n,
{
    if n > 0 {
        lemma_third_level(bs, monkey, dice, a, b, n - 1);
        let c = n - 1;
        if c != a && c != b {
            let cs = seq![dice[a].category, dice[b].category];
            lemma_expand(bs, monkey, dice[c].category, dice[c].roll as int, cs);
            let cs3 = cs.push(dice[c].category);
            assert(cs3[0] != cs3[1] && cs3[0] != cs3[2] && cs3[1] != cs3[2]);
            lemma_extend_valid(expand_die(bs, monkey, dice, c), cs3);
            lemma_valid_concat(third_level(bs, monkey, dice, a, b, n - 1), expand_die(bs, monkey, dice, c));
        } else {
            assert(third_level(bs, monkey, dice, a, b, n) =~= third_level(bs, monkey, dice, a, b, n - 1));
        }
    }
}

proof fn lemma_second_level(as_: Seq<Candidate>, monkey: bool, dice: Seq<DiceRoll>, a: int, n: int)
    requires
        distinct_dice(dice),
        0 <= a < 3,
        0 <= n <= 3,
        all_extend(as_, seq![dice[a].category]),
    ensures
        all_valid(second_level(as_, monkey, dice, a, n)),
        all_printable(second_level(as_, monkey, dice, a, n)),
    decreases n,
{
    if n > 0 {
        lemma_second_level(as_, monkey, dice, a, n - 1);
        let b = n - 1;
        if b != a {
            let cs = seq![dice[a].category];
            lemma_expand(as_, monkey, dice[b].category, dice[b].roll as int, cs);
            let bs = expand_die(as_, monkey, dice, b);
            assert(cs.push(dice[b].category) =~= seq![dice[a].category, dice[b].category]);
            lemma_third_level(bs, monkey, dice, a, b, 3);
            let cs2 = cs.push(dice[b].category);
            lemma_extend_valid(bs, cs2);
            lemma_valid_concat(third_level(bs, monkey, dice, a, b, 3), bs);
            lemma_valid_concat(second_level(as_, monkey, dice, a, n - 1), third_level(bs, monkey, dice, a, b, 3) + bs);
        } else {
            assert(second_level(as_, monkey, dice, a, n) =~= second_level(as_, monkey, dice, a, n - 1));
        }
    }
}

proof fn lemma_first_level(b: BoardModel, monkey: bool, dice: Seq<DiceRoll>, n: int)
    requires
        distinct_dice(dice),
        b.wf(),
        0 <= n <= 3,
    ensures
        all_valid(first_level(b, monkey, dice, n)),
        all_printable(first_level(b, monkey, dice, n)),
    decreases n,
{
    if n > 0 {
        lemma_first_level(b, monkey, dice, n - 1);
        let a = n - 1;
        let st = start(b, monkey);
        assert(categories(st[0].moves) =~= seq![]);
        assert(all_extend(st, seq![]));
        lemma_expand(st, monkey, dice[a].category, dice[a].roll as int, seq![]);
        let as_ = expand_die(st, monkey, dice, a);
        assert(seq![].push(dice[a].category) =~= seq![dice[a].category]);
        lemma_second_level(as_, monkey, dice, a, 3);
        lemma_extend_valid(as_, seq![dice[a].category]);
        lemma_valid_concat(second_level(as_, monkey, dice, a, 3), as_);
        lemma_valid_concat(first_level(b, monkey, dice, n - 1), second_level(as_, monkey, dice, a, 3) + as_);
    }
}

/// With one die per category, every candidate of the enumeration has one to
/// three moves, uses each die at most once and moves a joker at most once.
pub proof fn lemma_enumeration_turns(b: BoardModel, monkey: bool, dice: Seq<DiceRoll>)
    requires
        b.wf(),
        distinct_dice(dice),
    ensures
        all_valid(all_moves_spec(b, monkey, dice)),
        all_printable(all_moves_spec(b, monkey, dice)),
{
    lemma_first_level(b, monkey, dice, 3);
}

impl CompletedMoves {
    /// Whether a joker has moved in this sequence.
    pub fn used_joker(&self) -> (r: bool)
        ensures
            r == has_joker(self.moves@),
    {
        let mut k: usize = 0;
        while k < self.moves.len()
            invariant
                0 <= k <= self.moves.len(),
                forall|j: int| 0 <= j < k ==> !is_joker(#[trigger] self.moves@[j].card),
            decreases self.moves.len() - k,
        {
            if (self.moves[k].card & CHECK_CATEGORY) == BITS_CATEGORY_JOKER {
                return true;
            }
            k = k + 1;
        }
        false
    }
}

/// The locations of the team's cards that a die of `category` may move:
/// cards among the top three of each pile, piles from 0, each bottom first.
pub fn moveable_card_indices(board: &Board, is_monkey: bool, category: u8, used_joker: bool) -> (r: Vec<
    CardLocation,
>)
    requires
        board@.wf(),
    ensures
        r@ == movable_spec(board@, is_monkey, category, used_joker, 11),
{
    let mut card_locations: Vec<CardLocation> = Vec::new();
    let mut pile_index: u8 = 0;
    while pile_index < NUM_PILES
        invariant
            board@.wf(),
            0 <= pile_index <= 11,
            card_locations@ == movable_spec(board@, is_monkey, category, used_joker, pile_index as int),
        decreases 11 - pile_index,
    {
        let pile_height = board.get_height(is_monkey, pile_index);
        let accessible_start = if pile_height > 3 {
            pile_height - 3
        } else {
            0
        };
        proof {
            assert(board@.heights(is_monkey)[pile_index as int] <= PILE_CAPACITY);
        }
        let ghost before = card_locations@;
        let mut card_index = accessible_start;
        while card_index < pile_height
            invariant
                board@.wf(),
                0 <= pile_index < 11,
                pile_height == board@.height(is_monkey, pile_index as int),
                pile_height <= 10,
                accessible_start == reach_start(pile_height as int),
                accessible_start <= card_index <= pile_height,
                before == movable_spec(board@, is_monkey, category, used_joker, pile_index as int),
                card_locations@ == before + pile_movable(
                    board@,
                    is_monkey,
                    category,
                    used_joker,
                    pile_index as int,
                    card_index as int,
                ),
            decreases pile_height - card_index,
        {
            let card = board.get_card(is_monkey, pile_index, card_index);
            let card_category = card & CHECK_CATEGORY;
            if card_category == category || (card_category == BITS_CATEGORY_JOKER && !used_joker) {
                card_locations.push(CardLocation { pile_index, card_index });
            }
            card_index = card_index + 1;
            proof {
                assert(card_locations@ =~= before + pile_movable(
                    board@,
                    is_monkey,
                    category,
                    used_joker,
                    pile_index as int,
                    card_index as int,
                ));
            }
        }
        pile_index = pile_index + 1;
    }
    card_locations
}

fn copy_moves(moves: &Vec<Move>) -> (r: Vec<Move>)
    ensures
        r@ == moves@,
{
    let mut r: Vec<Move> = Vec::new();
    let mut k: usize = 0;
    while k < moves.len()
        invariant
            0 <= k <= moves.len(),
            r@ == moves@.subrange(0, k as int),
        decreases moves.len() - k,
    {
        r.push(moves[k]);
        k = k + 1;
        proof {
            assert(r@ =~= moves@.subrange(0, k as int));
        }
    }
    proof {
        assert(moves@.subrange(0, moves.len() as int) =~= moves@);
    }
    r
}

/// Extends each of `initial_states` by every move that a die of
/// `dice_category` and `dice_roll` allows; states whose game is decided are
/// not extended.
pub fn gather_moves_for_dice_roll(
    initial_states: &Vec<CompletedMoves>,
    is_monkey: bool,
    dice_category: u8,
    dice_roll: i8,
) -> (r: Vec<CompletedMoves>)
    requires
        all_wf(initial_states@),
    ensures
        models(r@) == expand(models(initial_states@), is_monkey, dice_category, dice_roll as int),
        all_wf(r@),
{
    let mut end_states: Vec<CompletedMoves> = Vec::new();
    let mut s: usize = 0;
    while s < initial_states.len()
        invariant
            all_wf(initial_states@),
            0 <= s <= initial_states.len(),
            models(end_states@) == expand(
                models(initial_states@).subrange(0, s as int),
                is_monkey,
                dice_category,
                dice_roll as int,
            ),
            all_wf(end_states@),
        decreases initial_states.len() - s,
    {
        let initial_state = &initial_states[s];
        let ghost c = initial_state@;
        let ghost before = models(end_states@);
        proof {
            assert(models(initial_states@).subrange(0, s + 1).drop_last() =~= models(
                initial_states@,
            ).subrange(0, s as int));
            assert(models(initial_states@).subrange(0, s + 1).last() == c);
            assert(initial_states@[s as int].board@.wf());
        }
        if initial_state.board.victorious_team() == NULL {
            let used_joker = initial_state.used_joker();
            let locations = moveable_card_indices(
                &initial_state.board,
                is_monkey,
                dice_category,
                used_joker,
            );
            proof {
                lemma_movable(c.board, is_monkey, dice_category, used_joker, 11);
            }
            let mut k: usize = 0;
            while k < locations.len()
                invariant
                    c == initial_state@,
                    c.board.wf(),
                    0 <= k <= locations.len(),
                    locations@ == movable_spec(c.board, is_monkey, dice_category, has_joker(c.moves), 11),
                    forall|j: int|
                        0 <= j < locations@.len() ==> {
                            let loc = #[trigger] locations@[j];
                            &&& (loc.pile_index as int) < 11
                            &&& (loc.card_index as int) < c.board.height(is_monkey, loc.pile_index as int)
                        },
                    models(end_states@) == before + steps(c, is_monkey, dice_category, dice_roll as int, locations@.subrange(0, k as int)),
                    all_wf(end_states@),
                decreases locations.len() - k,
            {
                let location = locations[k];
                let mut board = initial_state.board;
                let card = board.get_card(is_monkey, location.pile_index, location.card_index);
                board.move_card_and_resolve_battles(
                    is_monkey,
                    dice_roll,
                    location.pile_index,
                    location.card_index,
                );
                let mut moves = copy_moves(&initial_state.moves);
                moves.push(Move { dice_category, card });
                let end_state = CompletedMoves { moves, board, is_monkey };
                proof {
                    assert(end_state@ == step(c, is_monkey, dice_category, dice_roll as int, location));
                }
                let ghost prev = models(end_states@);
                end_states.push(end_state);
                k = k + 1;
                proof {
                    assert(models(end_states@) =~= prev.push(end_state@));
                    assert(steps(c, is_monkey, dice_category, dice_roll as int, locations@.subrange(0, k as int)) =~= steps(c, is_monkey, dice_category, dice_roll as int, locations@.subrange(0, k - 1)).push(step(c, is_monkey, dice_category, dice_roll as int, location)));
                    assert(models(end_states@) =~= before + steps(c, is_monkey, dice_category, dice_roll as int, locations@.subrange(0, k as int)));
                }
            }
            proof {
                assert(locations@.subrange(0, k as int) =~= locations@);
            }
        } else {
            proof {
                assert(before =~= before + expand_one(c, is_monkey, dice_category, dice_roll as int));
            }
        }
        s = s + 1;
    }
    proof {
        assert(models(initial_states@).subrange(0, s as int) =~= models(initial_states@));
    }
    end_states
}

impl Board {
    /// Every end-of-turn state that one, two or three of the dice can reach
    /// from this board; see [`gather_all_moves`].
    pub fn gather_all_moves(&self, is_monkey: bool, dice_rolls: &[DiceRoll; 3]) -> (r: Vec<CompletedMoves>)
        requires
            self@.wf(),
        ensures
            models(r@) == all_moves_spec(self@, is_monkey, dice_rolls@),
            all_wf(r@),
            distinct_dice(dice_rolls@) ==> all_valid(models(r@)) && all_printable(models(r@)),
            distinct_dice(dice_rolls@) && distinct_board(self@) ==> distinct_moves(models(r@)),
    {
        gather_all_moves(self, is_monkey, dice_rolls)
    }
}

fn append_all(completed: &mut Vec<CompletedMoves>, more: &mut Vec<CompletedMoves>)
    requires
        all_wf(old(completed)@),
        all_wf(old(more)@),
    ensures
        models(final(completed)@) == models(old(completed)@) + models(old(more)@),
        all_wf(final(completed)@),
{
    completed.append(more);
    proof {
        assert(models(completed@) =~= models(old(completed)@) + models(old(more)@));
    }
}

/// Every end-of-turn state that one, two or three of the dice can reach, in
/// the order of search: for each first die, its extensions by a second die
/// (each followed by its extensions by the third), then the first die alone.
pub fn gather_all_moves(board: &Board, is_monkey: bool, dice_rolls: &[DiceRoll; 3]) -> (r: Vec<
    CompletedMoves,
>)
    requires
        board@.wf(),
    ensures
        models(r@) == all_moves_spec(board@, is_monkey, dice_rolls@),
        all_wf(r@),
        distinct_dice(dice_rolls@) ==> all_valid(models(r@)) && all_printable(models(r@)),
        distinct_dice(dice_rolls@) && distinct_board(board@) ==> distinct_moves(models(r@)),
{
    proof {
        if distinct_dice(dice_rolls@) {
            lemma_enumeration_turns(board@, is_monkey, dice_rolls@);
            if distinct_board(board@) {
                lemma_enumeration_distinct(board@, is_monkey, dice_rolls@);
            }
        }
    }
    let mut completed_moves: Vec<CompletedMoves> = Vec::new();
    let initial_states = vec![CompletedMoves { moves: Vec::new(), board: *board, is_monkey }];
    proof {
        assert(models(initial_states@) =~= start(board@, is_monkey));
        assert(models(completed_moves@) =~= first_level(board@, is_monkey, dice_rolls@, 0));
    }
    let mut a: usize = 0;
    while a < 3
        invariant
            board@.wf(),
            0 <= a <= 3,
            models(initial_states@) == start(board@, is_monkey),
            all_wf(initial_states@),
            models(completed_moves@) == first_level(board@, is_monkey, dice_rolls@, a as int),
            all_wf(completed_moves@),
        decreases 3 - a,
    {
        let mut new_moves_a = gather_moves_for_dice_roll(
            &initial_states,
            is_monkey,
            dice_rolls[a].category,
            dice_rolls[a].roll,
        );
        let ghost as_ = models(new_moves_a@);
        let ghost done_a = models(completed_moves@);
        proof {
            assert(done_a =~= done_a + second_level(as_, is_monkey, dice_rolls@, a as int, 0));
        }
        let mut b: usize = 0;
        while b < 3
            invariant
                0 <= a < 3,
                0 <= b <= 3,
                as_ == models(new_moves_a@),
                as_ == expand_die(start(board@, is_monkey), is_monkey, dice_rolls@, a as int),
                all_wf(new_moves_a@),
                models(completed_moves@) == done_a + second_level(as_, is_monkey, dice_rolls@, a as int, b as int),
                all_wf(completed_moves@),
            decreases 3 - b,
        {
            let ghost done_b = models(completed_moves@);
            if a != b {
                let mut new_moves_b = gather_moves_for_dice_roll(
                    &new_moves_a,
                    is_monkey,
                    dice_rolls[b].category,
                    dice_rolls[b].roll,
                );
                let ghost bs = models(new_moves_b@);
                proof {
                    assert(done_b =~= done_b + third_level(bs, is_monkey, dice_rolls@, a as int, b as int, 0));
                }
                let mut c: usize = 0;
                while c < 3
                    invariant
                        0 <= a < 3,
                        0 <= b < 3,
                        0 <= c <= 3,
                        bs == models(new_moves_b@),
                        all_wf(new_moves_b@),
                        models(completed_moves@) == done_b + third_level(bs, is_monkey, dice_rolls@, a as int, b as int, c as int),
                        all_wf(completed_moves@),
                    decreases 3 - c,
                {
                    let ghost done_c = models(completed_moves@);
                    if a != c && b != c {
                        let mut new_moves_c = gather_moves_for_dice_roll(
                            &new_moves_b,
                            is_monkey,
                            dice_rolls[c].category,
                            dice_rolls[c].roll,
                        );
                        append_all(&mut completed_moves, &mut new_moves_c);
                    } else {
                        proof {
                            assert(done_c =~= done_c + seq![]);
                        }
                    }
                    c = c + 1;
                    proof {
                        assert(models(completed_moves@) =~= done_b + third_level(bs, is_monkey, dice_rolls@, a as int, b as int, c as int));
                    }
                }
                append_all(&mut completed_moves, &mut new_moves_b);
                proof {
                    assert(models(completed_moves@) =~= done_a + second_level(as_, is_monkey, dice_rolls@, a as int, b + 1));
                }
            } else {
                proof {
                    assert(models(completed_moves@) =~= done_a + second_level(as_, is_monkey, dice_rolls@, a as int, b + 1));
                }
            }
            b = b + 1;
        }
        append_all(&mut completed_moves, &mut new_moves_a);
        a = a + 1;
        proof {
            assert(models(completed_moves@) =~= first_level(board@, is_monkey, dice_rolls@, a as int));
        }
    }
    completed_moves
}

} // verus!
