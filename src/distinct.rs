//! Boards whose live cards are all different stay so through a whole move.
use vstd::prelude::*;
use crate::battle::{battle_spec, residual};
use crate::board::{
    BoardModel, CardLocation, PILE_CAPACITY, lemma_moved_wf, moved_cards, restored_cards, slot,
    target_pile,
};
use crate::cascade::{
    cascade_spec, lemma_cascade, lemma_pile, lemma_retreat, lemma_round, pile_spec, piles_in_range,
    pushed, remove_all, resolved_move, round_spec,
};
use crate::cards::{MJ4, NULL, WJ4, is_joker, lemma_category_values, lemma_with_strength};
use crate::moves::{
    Candidate, DiceRoll, all_extend, all_moves_spec, categories, distinct_dice, expand, expand_die,
    expand_one, first_level, has_joker, lemma_expand, lemma_movable, lemma_pile_movable,
    lemma_resolved_wf, movable_spec, pile_movable, reach_start, second_level, start, step,
    third_level,
};

verus! {

/// The non-empty slots of `cs` hold pairwise different cards, at most one of
/// them a joker.
pub open spec fn distinct_cards(cs: Seq<u8>) -> bool {
    forall|k1: int, k2: int|
        0 <= k1 < cs.len() && 0 <= k2 < cs.len() && k1 != k2 && cs[k1] != NULL && cs[k2] != NULL
            ==> #[trigger] cs[k1] != #[trigger] cs[k2] && !(is_joker(cs[k1]) && is_joker(cs[k2]))
}

/// Both teams' live cards are pairwise different, each team with at most
/// one joker.
pub open spec fn distinct_board(b: BoardModel) -> bool {
    distinct_cards(b.monkey_cards) && distinct_cards(b.wolf_cards)
}

proof fn lemma_update_distinct(cs: Seq<u8>, t: int, r: u8)
    requires
        distinct_cards(cs),
        0 <= t < cs.len(),
        r == cs[t] || r == NULL || (is_joker(cs[t]) && is_joker(r)),
    ensures
        distinct_cards(cs.update(t, r)),
{
    let n = cs.update(t, r);
    assert forall|k1: int, k2: int|
        0 <= k1 < n.len() && 0 <= k2 < n.len() && k1 != k2 && n[k1] != NULL && n[k2] != NULL
            implies #[trigger] n[k1] != #[trigger] n[k2] && !(is_joker(n[k1]) && is_joker(n[k2])) by {
        if k1 != t && k2 != t {
            assert(n[k1] == cs[k1] && n[k2] == cs[k2]);
        } else if k1 == t {
            assert(n[k2] == cs[k2]);
            if r != cs[t] {
                assert(cs[t] != NULL) by {
                    assert(!is_joker(NULL)) by (bit_vector);
                }
                assert(!is_joker(cs[k2]));
            }
        } else {
            assert(n[k1] == cs[k1]);
            if r != cs[t] {
                assert(cs[t] != NULL) by {
                    assert(!is_joker(NULL)) by (bit_vector);
                }
                assert(!is_joker(cs[k1]));
            }
        }
    }
}

proof fn lemma_moved_cards_distinct(cs: Seq<u8>, p: int, idx: int, h: int, to: int, hd: int)
    requires
        distinct_cards(cs),
        cs.len() == 110,
        0 <= p <= 10,
        0 <= to <= 10,
        p != to,
        0 <= idx <= h <= 10,
        0 <= hd,
        hd + h - idx <= 10,
    ensures
        distinct_cards(moved_cards(cs, p, idx, h, to, hd)),
{
    let n = moved_cards(cs, p, idx, h, to, hd);
    let src = |k: int|
        if slot(to, hd) <= k < slot(to, hd) + (h - idx) {
            k - slot(to, hd) + slot(p, idx)
        } else {
            k
        };
    assert forall|k1: int, k2: int|
        0 <= k1 < n.len() && 0 <= k2 < n.len() && k1 != k2 && n[k1] != NULL && n[k2] != NULL
            implies #[trigger] n[k1] != #[trigger] n[k2] && !(is_joker(n[k1]) && is_joker(n[k2])) by {
        let s1 = src(k1);
        let s2 = src(k2);
        assert(n[k1] == cs[s1]);
        assert(n[k2] == cs[s2]);
        assert(s1 != s2);
    }
}

/// A move keeps the cards distinct.
pub proof fn lemma_moved_distinct(b: BoardModel, monkey: bool, roll: int, p: int, idx: int)
    requires
        b.wf(),
        distinct_board(b),
        0 <= p <= 10,
        0 <= idx <= b.height(monkey, p),
    ensures
        distinct_board(b.moved(monkey, roll, p, idx)),
{
    let to = target_pile(monkey, roll, p);
    lemma_moved_wf(b, monkey, roll, p, idx);
    if to != p {
        let h = b.height(monkey, p);
        let hd = b.height(monkey, to);
        crate::board::lemma_total_bounds(b.heights(monkey), 11, p, to);
        lemma_moved_cards_distinct(b.cards(monkey), p, idx, h, to, hd);
        assert(b.moved(monkey, roll, p, idx).cards(monkey) == moved_cards(b.cards(monkey), p, idx, h, to, hd));
    }
}

proof fn lemma_residual_shape(c: u8, s: u8)
    requires
        s <= 15,
    ensures
        residual(c, s) == c || (is_joker(c) && is_joker(residual(c, s))),
{
    if is_joker(c) {
        lemma_with_strength(c, s);
    }
}

/// One battle round keeps the cards distinct.
pub proof fn lemma_round_distinct(b: BoardModel, acting_monkey: bool, p: int, stack: Seq<u8>)
    requires
        b.wf(),
        distinct_board(b),
        0 <= p <= 10,
        b.height(true, p) > 0,
        b.height(false, p) > 0,
        piles_in_range(stack),
    ensures
        distinct_board(round_spec(b, acting_monkey, p, stack).0),
{
    lemma_round(b, acting_monkey, p, stack);
    let mi = b.height(true, p) - 1;
    let wi = b.height(false, p) - 1;
    let mc = b.card(true, p, mi);
    let wc = b.card(false, p, wi);
    let r = battle_spec(mc, wc);
    lemma_category_values(mc);
    lemma_category_values(wc);
    let sa = crate::cards::strength_bits(mc);
    let sb = crate::cards::strength_bits(wc);
    if sa > sb {
        lemma_residual_shape(mc, (sa - sb) as u8);
    } else if sa < sb {
        lemma_residual_shape(wc, (sb - sa) as u8);
    } else {
        lemma_residual_shape(mc, 0);
        lemma_residual_shape(wc, 0);
    }
    let ba = b.set_card(true, p, mi, r.card_a_residual);
    lemma_update_distinct(b.monkey_cards, slot(p, mi), r.card_a_residual);
    let b1 = ba.set_card(false, p, wi, r.card_b_residual);
    lemma_update_distinct(b.wolf_cards, slot(p, wi), r.card_b_residual);
    assert(distinct_board(b1));
    if r.winner == NULL {
        crate::battle::lemma_battle_valid(mc, wc);
        crate::cascade::lemma_set_top_wf(b, true, p, r.card_a_residual);
        crate::cascade::lemma_set_top_wf(ba, false, p, r.card_b_residual);
        if acting_monkey {
            if p == 10 {
                lemma_update_distinct(b1.wolf_cards, slot(p, wi), NULL);
            } else {
                lemma_retreat(b1, false, p, stack);
                lemma_moved_distinct(b1, false, -1, p, wi);
                let r1 = pushed(b1, false, -1, p, wi, stack);
                lemma_moved_distinct(r1.0, true, -1, p, mi);
            }
        } else {
            if p == 0 {
                lemma_update_distinct(b1.monkey_cards, slot(p, mi), NULL);
            } else {
                lemma_retreat(b1, true, p, stack);
                lemma_moved_distinct(b1, true, -1, p, mi);
                let r1 = pushed(b1, true, -1, p, mi, stack);
                lemma_moved_distinct(r1.0, false, -1, p, wi);
            }
        }
    }
}

/// Resolving a pile keeps the cards distinct.
pub proof fn lemma_pile_distinct(b: BoardModel, acting_monkey: bool, p: int, stack: Seq<u8>)
    requires
        b.wf(),
        distinct_board(b),
        0 <= p <= 10,
        piles_in_range(stack),
    ensures
        distinct_board(pile_spec(b, acting_monkey, p, stack).0),
    decreases b.measure(),
{
    if b.height(true, p) != 0 && b.height(false, p) != 0 {
        lemma_round(b, acting_monkey, p, stack);
        lemma_round_distinct(b, acting_monkey, p, stack);
        let r = round_spec(b, acting_monkey, p, stack);
        lemma_pile_distinct(r.0, acting_monkey, p, r.1);
    }
}

/// The cascade keeps the cards distinct.
pub proof fn lemma_cascade_distinct(b: BoardModel, acting_monkey: bool, stack: Seq<u8>)
    requires
        b.wf(),
        distinct_board(b),
        piles_in_range(stack),
    ensures
        distinct_board(cascade_spec(b, acting_monkey, stack)),
    decreases b.measure(), stack.len(),
{
    if stack.len() > 0 {
        let p = stack.last();
        assert(stack[stack.len() - 1] <= 10);
        lemma_pile(b, acting_monkey, p as int, stack);
        lemma_pile_distinct(b, acting_monkey, p as int, stack);
        let r = pile_spec(b, acting_monkey, p as int, stack);
        crate::cascade::lemma_remove_all(r.1, p);
        crate::cascade::lemma_measure_nonneg(b);
        let rest = remove_all(r.1, p);
        if 0 <= r.0.measure() < b.measure() || (0 <= r.0.measure() == b.measure() && rest.len()
            < stack.len()) {
            lemma_cascade_distinct(r.0, acting_monkey, rest);
        }
    }
}

proof fn lemma_restored_distinct(cs: Seq<u8>, j4: u8)
    requires
        distinct_cards(cs),
        is_joker(j4),
        j4 != NULL,
    ensures
        distinct_cards(restored_cards(cs, j4)),
{
    let n = restored_cards(cs, j4);
    assert(!is_joker(NULL)) by (bit_vector);
    assert forall|k1: int, k2: int|
        0 <= k1 < n.len() && 0 <= k2 < n.len() && k1 != k2 && n[k1] != NULL && n[k2] != NULL
            implies #[trigger] n[k1] != #[trigger] n[k2] && !(is_joker(n[k1]) && is_joker(n[k2])) by {
        assert(cs[k1] != NULL);
        assert(cs[k2] != NULL);
    }
}

/// A whole player action keeps the cards distinct.
pub proof fn lemma_resolved_distinct(b: BoardModel, monkey: bool, roll: int, p: int, idx: int)
    requires
        b.wf(),
        distinct_board(b),
        0 <= p <= 10,
        0 <= idx <= b.height(monkey, p),
    ensures
        distinct_board(resolved_move(b, monkey, roll, p, idx)),
{
    lemma_moved_wf(b, monkey, roll, p, idx);
    lemma_moved_distinct(b, monkey, roll, p, idx);
    let s = seq![target_pile(monkey, roll, p) as u8];
    assert(piles_in_range(s));
    let m = b.moved(monkey, roll, p, idx);
    lemma_cascade(m, monkey, s);
    lemma_cascade_distinct(m, monkey, s);
    let c = cascade_spec(m, monkey, s);
    assert(is_joker(MJ4) && is_joker(WJ4)) by (bit_vector);
    lemma_restored_distinct(c.monkey_cards, MJ4);
    lemma_restored_distinct(c.wolf_cards, WJ4);
}


/// No two candidates have the same move sequence.
pub open spec fn distinct_moves(v: Seq<Candidate>) -> bool {
    forall|i: int, j: int| 0 <= i < j < v.len() ==> (#[trigger] v[i]).moves != (#[trigger] v[j]).moves
}

pub open spec fn all_distinct_boards(v: Seq<Candidate>) -> bool {
    forall|k: int| 0 <= k < v.len() ==> distinct_board((#[trigger] v[k]).board) && v[k].board.wf()
}

proof fn lemma_pile_movable_sorted(b: BoardModel, monkey: bool, category: u8, used_joker: bool, p: int, j: int)
    requires
        b.wf(),
        0 <= p < 11,
        j <= b.height(monkey, p),
    ensures
        ({
            let l = pile_movable(b, monkey, category, used_joker, p, j);
            &&& forall|i: int| 0 <= i < l.len() ==> slot(p, 0) <= #[trigger] slot(l[i].pile_index as int, l[i].card_index as int) < slot(p, j)
            &&& forall|i1: int, i2: int| 0 <= i1 < i2 < l.len() ==> slot(
                (#[trigger] l[i1]).pile_index as int,
                l[i1].card_index as int,
            ) < slot((#[trigger] l[i2]).pile_index as int, l[i2].card_index as int)
        }),
    decreases j,
{
    lemma_pile_movable(b, monkey, category, used_joker, p, j);
    if j > reach_start(b.height(monkey, p)) {
        lemma_pile_movable_sorted(b, monkey, category, used_joker, p, j - 1);
        assert(b.heights(monkey)[p] <= PILE_CAPACITY);
        let r = pile_movable(b, monkey, category, used_joker, p, j - 1);
        let loc = CardLocation { pile_index: p as u8, card_index: (j - 1) as u8 };
        assert(loc.pile_index as int == p && loc.card_index as int == j - 1);
        let l = pile_movable(b, monkey, category, used_joker, p, j);
        assert forall|i: int| 0 <= i < l.len() implies slot(p, 0) <= #[trigger] slot(l[i].pile_index as int, l[i].card_index as int) < slot(p, j) by {
            if i < r.len() {
                assert(l[i] == r[i]);
            }
        }
        assert forall|i1: int, i2: int| 0 <= i1 < i2 < l.len() implies slot(
            (#[trigger] l[i1]).pile_index as int,
            l[i1].card_index as int,
        ) < slot((#[trigger] l[i2]).pile_index as int, l[i2].card_index as int) by {
            assert(l[i1] == r[i1]);
            if i2 < r.len() {
                assert(l[i2] == r[i2]);
            }
        }
    }
}

proof fn lemma_movable_sorted(b: BoardModel, monkey: bool, category: u8, used_joker: bool, n: int)
    requires
        b.wf(),
        0 <= n <= 11,
    ensures
        ({
            let l = movable_spec(b, monkey, category, used_joker, n);
            &&& forall|i: int| 0 <= i < l.len() ==> #[trigger] slot(l[i].pile_index as int, l[i].card_index as int) < slot(n, 0)
            &&& forall|i1: int, i2: int| 0 <= i1 < i2 < l.len() ==> slot(
                (#[trigger] l[i1]).pile_index as int,
                l[i1].card_index as int,
            ) < slot((#[trigger] l[i2]).pile_index as int, l[i2].card_index as int)
        }),
    decreases n,
{
    if n > 0 {
        lemma_movable_sorted(b, monkey, category, used_joker, n - 1);
        lemma_pile_movable_sorted(b, monkey, category, used_joker, n - 1, b.height(monkey, n - 1));
        let x = movable_spec(b, monkey, category, used_joker, n - 1);
        let y = pile_movable(b, monkey, category, used_joker, n - 1, b.height(monkey, n - 1));
        let l = x + y;
        assert(b.heights(monkey)[n - 1] <= PILE_CAPACITY);
        assert forall|i: int| 0 <= i < l.len() implies #[trigger] slot(l[i].pile_index as int, l[i].card_index as int) < slot(n, 0) by {
            if i < x.len() {
                assert(l[i] == x[i]);
            } else {
                assert(l[i] == y[i - x.len()]);
            }
        }
        assert forall|i1: int, i2: int| 0 <= i1 < i2 < l.len() implies slot(
            (#[trigger] l[i1]).pile_index as int,
            l[i1].card_index as int,
        ) < slot((#[trigger] l[i2]).pile_index as int, l[i2].card_index as int) by {
            if i2 < x.len() {
                assert(l[i1] == x[i1] && l[i2] == x[i2]);
            } else if i1 < x.len() {
                assert(l[i1] == x[i1] && l[i2] == y[i2 - x.len()]);
            } else {
                assert(l[i1] == y[i1 - x.len()] && l[i2] == y[i2 - x.len()]);
            }
        }
    }
}

proof fn lemma_expand_one_distinct(c: Candidate, monkey: bool, category: u8, roll: int)
    requires
        c.board.wf(),
        distinct_board(c.board),
    ensures
        ({
            let r = expand_one(c, monkey, category, roll);
            &&& distinct_moves(r)
            &&& all_distinct_boards(r)
            &&& forall|i: int| 0 <= i < r.len() ==> (#[trigger] r[i]).moves.drop_last() == c.moves
                && r[i].moves.len() == c.moves.len() + 1
        }),
{
    let r = expand_one(c, monkey, category, roll);
    if c.board.victor() == NULL {
        let uj = has_joker(c.moves);
        let locs = movable_spec(c.board, monkey, category, uj, 11);
        lemma_movable(c.board, monkey, category, uj, 11);
        lemma_movable_sorted(c.board, monkey, category, uj, 11);
        let cs = c.board.cards(monkey);
        assert forall|i: int| 0 <= i < r.len() implies (#[trigger] r[i]).moves.drop_last() == c.moves
            && r[i].moves.len() == c.moves.len() + 1 && distinct_board(r[i].board) && r[i].board.wf() by {
            let loc = locs[i];
            assert(r[i] == step(c, monkey, category, roll, loc));
            assert(r[i].moves.drop_last() =~= c.moves);
            lemma_resolved_wf(c.board, monkey, roll, loc.pile_index as int, loc.card_index as int);
            lemma_resolved_distinct(c.board, monkey, roll, loc.pile_index as int, loc.card_index as int);
        }
        assert forall|i1: int, i2: int| 0 <= i1 < i2 < r.len() implies (#[trigger] r[i1]).moves != (#[trigger] r[i2]).moves by {
            let l1 = locs[i1];
            let l2 = locs[i2];
            let k1 = slot(l1.pile_index as int, l1.card_index as int);
            let k2 = slot(l2.pile_index as int, l2.card_index as int);
            assert(k1 < k2);
            assert(crate::cards::is_valid_card(cs[k1]));
            assert(crate::cards::is_valid_card(cs[k2]));
            assert(cs[k1] != cs[k2]);
            assert(r[i1] == step(c, monkey, category, roll, l1));
            assert(r[i2] == step(c, monkey, category, roll, l2));
            assert(r[i1].moves.last().card == cs[k1]);
            assert(r[i2].moves.last().card == cs[k2]);
        }
    }
}

/// Extending candidates with distinct move sequences gives candidates with
/// distinct move sequences, each its parent's sequence plus one move.
proof fn lemma_expand_distinct(states: Seq<Candidate>, monkey: bool, category: u8, roll: int)
    requires
        distinct_moves(states),
        all_distinct_boards(states),
    ensures
        ({
            let e = expand(states, monkey, category, roll);
            &&& distinct_moves(e)
            &&& all_distinct_boards(e)
            &&& forall|i: int| 0 <= i < e.len() ==> exists|j: int| 0 <= j < states.len() && (#[trigger] e[i]).moves.drop_last() == states[j].moves
        }),
    decreases states.len(),
{
    if states.len() > 0 {
        let rest = states.drop_last();
        let c = states.last();
        assert(distinct_moves(rest)) by {
            assert forall|i: int, j: int| 0 <= i < j < rest.len() implies (#[trigger] rest[i]).moves != (#[trigger] rest[j]).moves by {
                assert(rest[i] == states[i] && rest[j] == states[j]);
            }
        }
        assert(all_distinct_boards(rest)) by {
            assert forall|k: int| 0 <= k < rest.len() implies distinct_board((#[trigger] rest[k]).board) && rest[k].board.wf() by {
                assert(rest[k] == states[k]);
            }
        }
        assert(c == states[states.len() - 1]);
        lemma_expand_distinct(rest, monkey, category, roll);
        lemma_expand_one_distinct(c, monkey, category, roll);
        let x = expand(rest, monkey, category, roll);
        let y = expand_one(c, monkey, category, roll);
        let e = expand(states, monkey, category, roll);
        assert(e == x + y);
        assert forall|i: int| 0 <= i < e.len() implies exists|j: int| 0 <= j < states.len() && (#[trigger] e[i]).moves.drop_last() == states[j].moves by {
            if i < x.len() {
                assert(e[i] == x[i]);
                let j = choose|j: int| 0 <= j < rest.len() && x[i].moves.drop_last() == rest[j].moves;
                assert(rest[j] == states[j]);
            } else {
                assert(e[i] == y[i - x.len()]);
                assert(e[i].moves.drop_last() == states[states.len() - 1].moves);
            }
        }
        assert forall|k: int| 0 <= k < e.len() implies distinct_board((#[trigger] e[k]).board) && e[k].board.wf() by {
            if k < x.len() {
                assert(e[k] == x[k]);
            } else {
                assert(e[k] == y[k - x.len()]);
            }
        }
        assert forall|i1: int, i2: int| 0 <= i1 < i2 < e.len() implies (#[trigger] e[i1]).moves != (#[trigger] e[i2]).moves by {
            if i2 < x.len() {
                assert(e[i1] == x[i1] && e[i2] == x[i2]);
            } else if i1 >= x.len() {
                assert(e[i1] == y[i1 - x.len()] && e[i2] == y[i2 - x.len()]);
            } else {
                assert(e[i1] == x[i1] && e[i2] == y[i2 - x.len()]);
                let j = choose|j: int| 0 <= j < rest.len() && x[i1].moves.drop_last() == rest[j].moves;
                assert(rest[j] == states[j]);
                assert(e[i2].moves.drop_last() == c.moves);
                if e[i1].moves == e[i2].moves {
                    assert(states[j].moves == states[states.len() - 1].moves);
                }
            }
        }
    }
}

proof fn lemma_concat_distinct(x: Seq<Candidate>, y: Seq<Candidate>)
    requires
        distinct_moves(x),
        distinct_moves(y),
        forall|i: int, j: int| 0 <= i < x.len() && 0 <= j < y.len() ==> (#[trigger] x[i]).moves != (#[trigger] y[j]).moves,
    ensures
        distinct_moves(x + y),
{
    assert forall|i1: int, i2: int| 0 <= i1 < i2 < (x + y).len() implies (#[trigger] (x + y)[i1]).moves != (#[trigger] (x + y)[i2]).moves by {
        if i2 < x.len() {
            assert((x + y)[i1] == x[i1] && (x + y)[i2] == x[i2]);
        } else if i1 >= x.len() {
            assert((x + y)[i1] == y[i1 - x.len()] && (x + y)[i2] == y[i2 - x.len()]);
        } else {
            assert((x + y)[i1] == x[i1] && (x + y)[i2] == y[i2 - x.len()]);
        }
    }
}


/// A third-level sequence after dice `a` and `b` whose third die is not
/// among those from index `n` on.
pub open spec fn third_shape(cs: Seq<u8>, dice: Seq<DiceRoll>, a: int, b: int, n: int) -> bool {
    &&& cs.len() == 3
    &&& cs[0] == dice[a].category
    &&& cs[1] == dice[b].category
    &&& forall|c: int| n <= c < 3 ==> cs[2] != (#[trigger] dice[c]).category
}

/// A sequence of two or three dice after die `a` whose second die is not
/// among those from index `n` on.
pub open spec fn second_shape(cs: Seq<u8>, dice: Seq<DiceRoll>, a: int, n: int) -> bool {
    &&& cs.len() >= 2
    &&& cs[0] == dice[a].category
    &&& forall|b: int| n <= b < 3 ==> cs[1] != (#[trigger] dice[b]).category
}

/// A sequence whose first die is not among those from index `n` on.
pub open spec fn first_shape(cs: Seq<u8>, dice: Seq<DiceRoll>, n: int) -> bool {
    &&& cs.len() >= 1
    &&& forall|a: int| n <= a < 3 ==> cs[0] != (#[trigger] dice[a]).category
}

proof fn lemma_third_distinct(bs: Seq<Candidate>, monkey: bool, dice: Seq<DiceRoll>, a: int, b: int, n: int)
    requires
        distinct_dice(dice),
        0 <= a < 3,
        0 <= b < 3,
        a != b,
        0 <= n <= 3,
        all_extend(bs, seq![dice[a].category, dice[b].category]),
        distinct_moves(bs),
        all_distinct_boards(bs),
    ensures
        distinct_moves(third_level(bs, monkey, dice, a, b, n)),
        forall|k: int|
            0 <= k < third_level(bs, monkey, dice, a, b, n).len() ==> third_shape(
                categories((#[trigger] third_level(bs, monkey, dice, a, b, n)[k]).moves),
                dice,
                a,
                b,
                n,
            ),
    decreases n,
{
    if n > 0 {
        lemma_third_distinct(bs, monkey, dice, a, b, n - 1);
        let c = n - 1;
        let t = third_level(bs, monkey, dice, a, b, n - 1);
        let u = third_level(bs, monkey, dice, a, b, n);
        let cs = seq![dice[a].category, dice[b].category];
        if c != a && c != b {
            let g = expand_die(bs, monkey, dice, c);
            lemma_expand(bs, monkey, dice[c].category, dice[c].roll as int, cs);
            lemma_expand_distinct(bs, monkey, dice[c].category, dice[c].roll as int);
            let cs3 = cs.push(dice[c].category);
            assert forall|i: int, j: int| 0 <= i < t.len() && 0 <= j < g.len() implies (#[trigger] t[i]).moves != (#[trigger] g[j]).moves by {
                assert(third_shape(categories(t[i].moves), dice, a, b, n - 1));
                if t[i].moves == g[j].moves {
                    assert(categories(g[j].moves) == cs3);
                    assert(cs3[2] == dice[c].category);
                }
            }
            lemma_concat_distinct(t, g);
            assert(u == t + g);
            assert forall|k: int| 0 <= k < u.len() implies third_shape(categories((#[trigger] u[k]).moves), dice, a, b, n) by {
                if k < t.len() {
                    assert(u[k] == t[k]);
                    assert(third_shape(categories(t[k].moves), dice, a, b, n - 1));
                } else {
                    assert(u[k] == g[k - t.len()]);
                    assert(categories(u[k].moves) == cs3);
                }
            }
        } else {
            assert(u =~= t);
            assert forall|k: int| 0 <= k < u.len() implies third_shape(categories((#[trigger] u[k]).moves), dice, a, b, n) by {
                assert(u[k] == t[k]);
                assert(third_shape(categories(t[k].moves), dice, a, b, n - 1));
                assert(dice[c].category == dice[a].category || dice[c].category == dice[b].category);
            }
        }
    }
}

#[verifier::rlimit(60)]
proof fn lemma_second_distinct(as_: Seq<Candidate>, monkey: bool, dice: Seq<DiceRoll>, a: int, n: int)
    requires
        distinct_dice(dice),
        0 <= a < 3,
        0 <= n <= 3,
        all_extend(as_, seq![dice[a].category]),
        distinct_moves(as_),
        all_distinct_boards(as_),
    ensures
        distinct_moves(second_level(as_, monkey, dice, a, n)),
        forall|k: int|
            0 <= k < second_level(as_, monkey, dice, a, n).len() ==> second_shape(
                categories((#[trigger] second_level(as_, monkey, dice, a, n)[k]).moves),
                dice,
                a,
                n,
            ),
    decreases n,
{
    if n > 0 {
        lemma_second_distinct(as_, monkey, dice, a, n - 1);
        let b = n - 1;
        let t = second_level(as_, monkey, dice, a, n - 1);
        let u = second_level(as_, monkey, dice, a, n);
        if b != a {
            let cs1 = seq![dice[a].category];
            let bs = expand_die(as_, monkey, dice, b);
            lemma_expand(as_, monkey, dice[b].category, dice[b].roll as int, cs1);
            lemma_expand_distinct(as_, monkey, dice[b].category, dice[b].roll as int);
            let cs2 = cs1.push(dice[b].category);
            assert(cs2 =~= seq![dice[a].category, dice[b].category]);
            lemma_third_distinct(bs, monkey, dice, a, b, 3);
            let th = third_level(bs, monkey, dice, a, b, 3);
            assert forall|i: int, j: int| 0 <= i < th.len() && 0 <= j < bs.len() implies (#[trigger] th[i]).moves != (#[trigger] bs[j]).moves by {
                assert(third_shape(categories(th[i].moves), dice, a, b, 3));
                if th[i].moves == bs[j].moves {
                    assert(categories(bs[j].moves) == cs2);
                }
            }
            lemma_concat_distinct(th, bs);
            let g = th + bs;
            assert forall|k: int| 0 <= k < g.len() implies {
                let cs = categories((#[trigger] g[k]).moves);
                cs.len() >= 2 && cs[0] == dice[a].category && cs[1] == dice[b].category
            } by {
                if k < th.len() {
                    assert(g[k] == th[k]);
                    assert(third_shape(categories(th[k].moves), dice, a, b, 3));
                } else {
                    assert(g[k] == bs[k - th.len()]);
                    assert(categories(g[k].moves) == cs2);
                }
            }
            assert forall|i: int, j: int| 0 <= i < t.len() && 0 <= j < g.len() implies (#[trigger] t[i]).moves != (#[trigger] g[j]).moves by {
                assert(second_shape(categories(t[i].moves), dice, a, n - 1));
                if t[i].moves == g[j].moves {
                    assert(categories(g[j].moves)[1] == dice[b].category);
                }
            }
            lemma_concat_distinct(t, g);
            assert(u == t + g);
            assert forall|k: int| 0 <= k < u.len() implies second_shape(categories((#[trigger] u[k]).moves), dice, a, n) by {
                if k < t.len() {
                    assert(u[k] == t[k]);
                    assert(second_shape(categories(t[k].moves), dice, a, n - 1));
                } else {
                    assert(u[k] == g[k - t.len()]);
                }
            }
        } else {
            assert(u =~= t);
            assert forall|k: int| 0 <= k < u.len() implies second_shape(categories((#[trigger] u[k]).moves), dice, a, n) by {
                assert(u[k] == t[k]);
                assert(second_shape(categories(t[k].moves), dice, a, n - 1));
            }
        }
    }
}
#[verifier::rlimit(60)]
proof fn lemma_first_distinct(b: BoardModel, monkey: bool, dice: Seq<DiceRoll>, n: int)
    requires
        distinct_dice(dice),
        b.wf(),
        distinct_board(b),
        0 <= n <= 3,
    ensures
        distinct_moves(first_level(b, monkey, dice, n)),
        forall|k: int|
            0 <= k < first_level(b, monkey, dice, n).len() ==> first_shape(
                categories((#[trigger] first_level(b, monkey, dice, n)[k]).moves),
                dice,
                n,
            ),
    decreases n,
{
    if n > 0 {
        lemma_first_distinct(b, monkey, dice, n - 1);
        let a = n - 1;
        let t = first_level(b, monkey, dice, n - 1);
        let u = first_level(b, monkey, dice, n);
        let st = start(b, monkey);
        assert(categories(st[0].moves) =~= seq![]);
        assert(all_extend(st, seq![]));
        assert(distinct_moves(st));
        assert(all_distinct_boards(st));
        lemma_expand(st, monkey, dice[a].category, dice[a].roll as int, seq![]);
        lemma_expand_distinct(st, monkey, dice[a].category, dice[a].roll as int);
        let as_ = expand_die(st, monkey, dice, a);
        let cs1 = seq![].push(dice[a].category);
        assert(cs1 =~= seq![dice[a].category]);
        lemma_second_distinct(as_, monkey, dice, a, 3);
        let sl = second_level(as_, monkey, dice, a, 3);
        assert forall|i: int, j: int| 0 <= i < sl.len() && 0 <= j < as_.len() implies (#[trigger] sl[i]).moves != (#[trigger] as_[j]).moves by {
            assert(second_shape(categories(sl[i].moves), dice, a, 3));
            if sl[i].moves == as_[j].moves {
                assert(categories(as_[j].moves) == cs1);
            }
        }
        lemma_concat_distinct(sl, as_);
        let g = sl + as_;
        assert forall|k: int| 0 <= k < g.len() implies {
            let cs = categories((#[trigger] g[k]).moves);
            cs.len() >= 1 && cs[0] == dice[a].category
        } by {
            if k < sl.len() {
                assert(g[k] == sl[k]);
                assert(second_shape(categories(sl[k].moves), dice, a, 3));
            } else {
                assert(g[k] == as_[k - sl.len()]);
                assert(categories(g[k].moves) == cs1);
            }
        }
        assert forall|i: int, j: int| 0 <= i < t.len() && 0 <= j < g.len() implies (#[trigger] t[i]).moves != (#[trigger] g[j]).moves by {
            assert(first_shape(categories(t[i].moves), dice, n - 1));
            if t[i].moves == g[j].moves {
                assert(categories(g[j].moves)[0] == dice[a].category);
            }
        }
        lemma_concat_distinct(t, g);
        assert(u == t + g);
        assert forall|k: int| 0 <= k < u.len() implies first_shape(categories((#[trigger] u[k]).moves), dice, n) by {
            if k < t.len() {
                assert(u[k] == t[k]);
                assert(first_shape(categories(t[k].moves), dice, n - 1));
            } else {
                assert(u[k] == g[k - t.len()]);
            }
        }
    }
}

/// On a board whose live cards are all different, each team with at most
/// one joker, and with one die per category, the enumeration never returns
/// two candidates with the same move sequence.
pub proof fn lemma_enumeration_distinct(b: BoardModel, monkey: bool, dice: Seq<DiceRoll>)
    requires
        b.wf(),
        distinct_board(b),
        distinct_dice(dice),
    ensures
        distinct_moves(all_moves_spec(b, monkey, dice)),
{
    lemma_first_distinct(b, monkey, dice, 3);
}

} // verus!
