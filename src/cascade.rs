//! The cascade that a move sets off: battles at the pending piles, most
//! recent first, draws that push both cards back, and the jokers restored.
use vstd::prelude::*;
use crate::battle::{battle_spec, battle_winner, lemma_battle_valid};
use crate::board::{
    Board, BoardModel, NUM_PILES, PILE_CAPACITY, lemma_moved_wf, lemma_total_bounds,
    lemma_total_update, slot, target_pile,
};
use crate::cards::{
    MJ4, NULL, WJ4, is_joker, is_valid_card, lemma_category_values, lemma_with_strength,
    strength_bits,
};

verus! {

/// `b` after a move, with the pile it reached pushed on `stack`.
pub open spec fn pushed(b: BoardModel, monkey: bool, roll: int, p: int, idx: int, stack: Seq<u8>) -> (
    BoardModel,
    Seq<u8>,
) {
    (b.moved(monkey, roll, p, idx), stack.push(target_pile(monkey, roll, p) as u8))
}

/// A draw at pile `p` between the monkey card at slot `mi` and the wolf card
/// at slot `wi`. At the home row that the acting team is heading for the
/// defender's card is eliminated in place; anywhere else both cards retreat
/// one pile towards their own home and both piles they reach are pending.
pub open spec fn draw_spec(
    b: BoardModel,
    acting_monkey: bool,
    p: int,
    mi: int,
    wi: int,
    stack: Seq<u8>,
) -> (BoardModel, Seq<u8>) {
    if acting_monkey {
        if p == 10 {
            (b.set_card(false, p, wi, NULL).set_height(false, p, wi), stack)
        } else {
            let r = pushed(b, false, -1, p, wi, stack);
            pushed(r.0, true, -1, p, mi, r.1)
        }
    } else {
        if p == 0 {
            (b.set_card(true, p, mi, NULL).set_height(true, p, mi), stack)
        } else {
            let r = pushed(b, true, -1, p, mi, stack);
            pushed(r.0, false, -1, p, wi, r.1)
        }
    }
}

/// A draw at the home row that the acting team is heading for eliminates the
/// defender's drawn card in place: nothing is pushed past the edge, no pile
/// is added to the pending ones, and every other card stays where it was.
pub proof fn lemma_draw_at_home_row(b: BoardModel, acting_monkey: bool, mi: int, wi: int, stack: Seq<u8>)
    requires
        b.wf(),
        mi == b.height(true, if acting_monkey { 10 } else { 0 }) - 1,
        wi == b.height(false, if acting_monkey { 10 } else { 0 }) - 1,
        mi >= 0,
        wi >= 0,
    ensures
        ({
            let p = if acting_monkey { 10int } else { 0int };
            let defender = !acting_monkey;
            let i = if acting_monkey { wi } else { mi };
            let r = draw_spec(b, acting_monkey, p, mi, wi, stack);
            &&& r.1 == stack
            &&& r.0.card(defender, p, i) == NULL
            &&& r.0.height(defender, p) == i
            &&& r.0.cards(acting_monkey) == b.cards(acting_monkey)
            &&& r.0.heights(acting_monkey) == b.heights(acting_monkey)
            &&& forall|q: int| 0 <= q < 11 && q != p ==> #[trigger] r.0.height(defender, q) == b.height(defender, q)
            &&& forall|k: int| 0 <= k < 110 && k != slot(p, i) ==> #[trigger] r.0.cards(defender)[k] == b.cards(defender)[k]
        }),
{
}

/// One battle between the top cards of both teams at pile `p`.
pub open spec fn round_spec(b: BoardModel, acting_monkey: bool, p: int, stack: Seq<u8>) -> (
    BoardModel,
    Seq<u8>,
) {
    let mi = b.height(true, p) - 1;
    let wi = b.height(false, p) - 1;
    let mc = b.card(true, p, mi);
    let wc = b.card(false, p, wi);
    let r = battle_spec(mc, wc);
    let b1 = b.set_card(true, p, mi, r.card_a_residual).set_card(false, p, wi, r.card_b_residual);
    if r.winner == NULL {
        draw_spec(b1, acting_monkey, p, mi, wi, stack)
    } else if r.winner == mc {
        (b1.set_height(false, p, wi), stack)
    } else {
        (b1.set_height(true, p, mi), stack)
    }
}

/// Battles at pile `p` until one team has no card there.
pub open spec fn pile_spec(b: BoardModel, acting_monkey: bool, p: int, stack: Seq<u8>) -> (
    BoardModel,
    Seq<u8>,
)
    decreases b.measure(),
{
    if b.height(true, p) == 0 || b.height(false, p) == 0 {
        (b, stack)
    } else {
        let r = round_spec(b, acting_monkey, p, stack);
        if 0 <= r.0.measure() < b.measure() {
            pile_spec(r.0, acting_monkey, p, r.1)
        } else {
            r
        }
    }
}

/// `s` without any entry equal to `x`, order kept.
pub open spec fn remove_all(s: Seq<u8>, x: u8) -> Seq<u8>
    decreases s.len(),
{
    if s.len() == 0 {
        s
    } else {
        let r = remove_all(s.drop_last(), x);
        if s.last() == x {
            r
        } else {
            r.push(s.last())
        }
    }
}

/// Resolves the pending piles, most recently added first; a pile once
/// resolved leaves the stack entirely.
pub open spec fn cascade_spec(b: BoardModel, acting_monkey: bool, stack: Seq<u8>) -> BoardModel
    decreases b.measure(), stack.len(),
{
    if stack.len() == 0 {
        b
    } else {
        let p = stack.last();
        let r = pile_spec(b, acting_monkey, p as int, stack);
        let rest = remove_all(r.1, p);
        if 0 <= r.0.measure() < b.measure() || (0 <= r.0.measure() == b.measure() && rest.len()
            < stack.len()) {
            cascade_spec(r.0, acting_monkey, rest)
        } else {
            r.0
        }
    }
}

/// A whole player action: the move, every battle it sets off, and the
/// jokers restored.
pub open spec fn resolved_move(b: BoardModel, monkey: bool, roll: int, p: int, idx: int) -> BoardModel {
    cascade_spec(b.moved(monkey, roll, p, idx), monkey, seq![target_pile(monkey, roll, p) as u8]).restored()
}

pub open spec fn piles_in_range(s: Seq<u8>) -> bool {
    forall|k: int| 0 <= k < s.len() ==> #[trigger] s[k] <= 10
}

pub proof fn lemma_remove_all(s: Seq<u8>, x: u8)
    ensures
        remove_all(s, x).len() <= s.len(),
        s.len() > 0 && s.last() == x ==> remove_all(s, x).len() < s.len(),
        piles_in_range(s) ==> piles_in_range(remove_all(s, x)),
    decreases s.len(),
{
    if s.len() > 0 {
        lemma_remove_all(s.drop_last(), x);
    }
}

/// A valid card on top of a pile keeps the board well formed.
pub proof fn lemma_set_top_wf(b: BoardModel, monkey: bool, p: int, c: u8)
    requires
        b.wf(),
        0 <= p <= 10,
        b.height(monkey, p) > 0,
        is_valid_card(c),
    ensures
        b.set_card(monkey, p, b.height(monkey, p) - 1, c).wf(),
        b.set_card(monkey, p, b.height(monkey, p) - 1, c).measure() == b.measure(),
{
    let cs = b.cards(monkey);
    let hs = b.heights(monkey);
    let t = slot(p, hs[p] - 1);
    let ncs = cs.update(t, c);
    assert forall|q: int, i: int|
        #![trigger ncs[slot(q, i)]]
        0 <= q < 11 && 0 <= i < 10 implies if i < hs[q] {
        is_valid_card(ncs[slot(q, i)])
    } else {
        ncs[slot(q, i)] == NULL
    } by {
        if slot(q, i) != t {
            assert(ncs[slot(q, i)] == cs[slot(q, i)]);
        }
    }
}

/// Taking away the top card of a pile keeps the board well formed and lowers
/// the measure.
pub proof fn lemma_remove_top_wf(b: BoardModel, monkey: bool, p: int)
    requires
        b.wf(),
        0 <= p <= 10,
        b.height(monkey, p) > 0,
    ensures
        ({
            let h = b.height(monkey, p);
            let b2 = b.set_card(monkey, p, h - 1, NULL).set_height(monkey, p, h - 1);
            &&& b2.wf()
            &&& 0 <= b2.measure() < b.measure()
            &&& b2.heights(!monkey) == b.heights(!monkey)
        }),
{
    let cs = b.cards(monkey);
    let hs = b.heights(monkey);
    let h = hs[p] as int;
    let t = slot(p, h - 1);
    let ncs = cs.update(t, NULL);
    let nhs = hs.update(p, (h - 1) as u8);
    lemma_total_update(hs, p, (h - 1) as u8, 11);
    assert forall|q: int, i: int|
        #![trigger ncs[slot(q, i)]]
        0 <= q < 11 && 0 <= i < 10 implies if i < nhs[q] {
        is_valid_card(ncs[slot(q, i)])
    } else {
        ncs[slot(q, i)] == NULL
    } by {
        if slot(q, i) != t {
            assert(ncs[slot(q, i)] == cs[slot(q, i)]);
        }
    }
    assert forall|q: int| 0 <= q < 11 implies #[trigger] nhs[q] <= PILE_CAPACITY by {}
    let b2 = b.set_card(monkey, p, h - 1, NULL).set_height(monkey, p, h - 1);
    assert(b2.cards(monkey) == ncs);
    assert(b2.heights(monkey) == nhs);
    lemma_total_bounds(nhs, 11, 0, 0);
    lemma_total_bounds(b.heights(!monkey), 11, 0, 0);
}

/// A retreat of the top card of pile `p` by one step.
pub proof fn lemma_retreat(b: BoardModel, monkey: bool, p: int, stack: Seq<u8>)
    requires
        b.wf(),
        0 <= p <= 10,
        b.height(monkey, p) > 0,
        piles_in_range(stack),
    ensures
        ({
            let r = pushed(b, monkey, -1, p, b.height(monkey, p) - 1, stack);
            &&& r.0.wf()
            &&& piles_in_range(r.1)
            &&& r.0.heights(!monkey) == b.heights(!monkey)
            &&& r.0.cards(!monkey) == b.cards(!monkey)
            &&& r.0.measure() <= b.measure()
            &&& target_pile(monkey, -1, p) != p ==> r.0.measure() < b.measure()
        }),
{
    lemma_moved_wf(b, monkey, -1, p, b.height(monkey, p) - 1);
    let r = pushed(b, monkey, -1, p, b.height(monkey, p) - 1, stack);
    assert forall|k: int| 0 <= k < r.1.len() implies #[trigger] r.1[k] <= 10 by {
        if k < stack.len() {
            assert(r.1[k] == stack[k]);
        }
    }
}

/// Each battle round keeps the board well formed, only pushes piles of the
/// board, and lowers the measure.
pub proof fn lemma_round(b: BoardModel, acting_monkey: bool, p: int, stack: Seq<u8>)
    requires
        b.wf(),
        0 <= p <= 10,
        b.height(true, p) > 0,
        b.height(false, p) > 0,
        piles_in_range(stack),
    ensures
        round_spec(b, acting_monkey, p, stack).0.wf(),
        piles_in_range(round_spec(b, acting_monkey, p, stack).1),
        0 <= round_spec(b, acting_monkey, p, stack).0.measure() < b.measure(),
{
    let mi = b.height(true, p) - 1;
    let wi = b.height(false, p) - 1;
    let mc = b.card(true, p, mi);
    let wc = b.card(false, p, wi);
    assert(is_valid_card(b.monkey_cards[slot(p, mi)]));
    assert(is_valid_card(b.wolf_cards[slot(p, wi)]));
    lemma_battle_valid(mc, wc);
    let r = battle_spec(mc, wc);
    let b1 = b.set_card(true, p, mi, r.card_a_residual).set_card(false, p, wi, r.card_b_residual);
    lemma_total_bounds(b.monkey_heights, 11, 0, 0);
    lemma_total_bounds(b.wolf_heights, 11, 0, 0);
    if r.winner == NULL {
        let ba = b.set_card(true, p, mi, r.card_a_residual);
        lemma_set_top_wf(b, true, p, r.card_a_residual);
        lemma_set_top_wf(ba, false, p, r.card_b_residual);
        assert(b1.wf());
        if acting_monkey {
            if p == 10 {
                lemma_remove_top_wf(b1, false, p);
            } else {
                lemma_retreat(b1, false, p, stack);
                let r1 = pushed(b1, false, -1, p, wi, stack);
                lemma_retreat(r1.0, true, p, r1.1);
            }
        } else {
            if p == 0 {
                lemma_remove_top_wf(b1, true, p);
            } else {
                lemma_retreat(b1, true, p, stack);
                let r1 = pushed(b1, true, -1, p, mi, stack);
                lemma_retreat(r1.0, false, p, r1.1);
            }
        }
    } else if r.winner == mc {
        let ba = b.set_card(true, p, mi, r.card_a_residual);
        lemma_set_top_wf(b, true, p, r.card_a_residual);
        lemma_remove_top_wf(ba, false, p);
    } else {
        let bw = b.set_card(false, p, wi, r.card_b_residual);
        lemma_set_top_wf(b, false, p, r.card_b_residual);
        lemma_remove_top_wf(bw, true, p);
        assert(b1 == bw.set_card(true, p, mi, NULL));
    }
    lemma_measure_nonneg(round_spec(b, acting_monkey, p, stack).0);
}

/// The cascade keeps the board well formed.
pub proof fn lemma_cascade(b: BoardModel, acting_monkey: bool, stack: Seq<u8>)
    requires
        b.wf(),
        piles_in_range(stack),
    ensures
        cascade_spec(b, acting_monkey, stack).wf(),
    decreases b.measure(), stack.len(),
{
    if stack.len() > 0 {
        let p = stack.last();
        assert(stack[stack.len() - 1] <= 10);
        lemma_pile(b, acting_monkey, p as int, stack);
        let r = pile_spec(b, acting_monkey, p as int, stack);
        lemma_remove_all(r.1, p);
        lemma_measure_nonneg(b);
        let rest = remove_all(r.1, p);
        if 0 <= r.0.measure() < b.measure() || (0 <= r.0.measure() == b.measure() && rest.len()
            < stack.len()) {
            lemma_cascade(r.0, acting_monkey, rest);
        }
    }
}

/// Restoring the jokers keeps the board well formed.
pub proof fn lemma_restored_wf(b: BoardModel)
    requires
        b.wf(),
    ensures
        b.restored().wf(),
{
    lemma_with_strength(MJ4, 4);
    lemma_with_strength(WJ4, 4);
    assert(strength_bits(MJ4) == 4) by (bit_vector);
    assert(strength_bits(WJ4) == 4) by (bit_vector);
    let r = b.restored();
    assert forall|q: int, i: int|
        #![trigger r.monkey_cards[slot(q, i)]]
        0 <= q < 11 && 0 <= i < 10 implies if i < r.monkey_heights[q] {
        is_valid_card(r.monkey_cards[slot(q, i)])
    } else {
        r.monkey_cards[slot(q, i)] == NULL
    } by {
        assert(b.monkey_cards[slot(q, i)] == b.monkey_cards[slot(q, i)]);
        assert(!is_joker(NULL)) by (bit_vector);
    }
    assert forall|q: int, i: int|
        #![trigger r.wolf_cards[slot(q, i)]]
        0 <= q < 11 && 0 <= i < 10 implies if i < r.wolf_heights[q] {
        is_valid_card(r.wolf_cards[slot(q, i)])
    } else {
        r.wolf_cards[slot(q, i)] == NULL
    } by {
        assert(b.wolf_cards[slot(q, i)] == b.wolf_cards[slot(q, i)]);
        assert(!is_joker(NULL)) by (bit_vector);
    }
}

/// `v` without any entry equal to `x`, order kept.
fn without(v: &Vec<u8>, x: u8) -> (r: Vec<u8>)
    ensures
        r@ == remove_all(v@, x),
{
    let mut r: Vec<u8> = Vec::new();
    let mut i: usize = 0;
    while i < v.len()
        invariant
            0 <= i <= v.len(),
            r@ == remove_all(v@.subrange(0, i as int), x),
        decreases v.len() - i,
    {
        proof {
            assert(v@.subrange(0, i + 1).drop_last() =~= v@.subrange(0, i as int));
        }
        if v[i] != x {
            r.push(v[i]);
        }
        i = i + 1;
    }
    proof {
        assert(v@.subrange(0, v.len() as int) =~= v@);
    }
    r
}

pub proof fn lemma_measure_nonneg(b: BoardModel)
    requires
        b.wf(),
    ensures
        b.measure() >= 0,
{
    lemma_total_bounds(b.monkey_heights, 11, 0, 0);
    lemma_total_bounds(b.wolf_heights, 11, 0, 0);
}

/// Resolving a pile keeps the board well formed and either leaves board and
/// stack as they were or lowers the measure.
pub proof fn lemma_pile(b: BoardModel, acting_monkey: bool, p: int, stack: Seq<u8>)
    requires
        b.wf(),
        0 <= p <= 10,
        piles_in_range(stack),
    ensures
        pile_spec(b, acting_monkey, p, stack).0.wf(),
        piles_in_range(pile_spec(b, acting_monkey, p, stack).1),
        0 <= pile_spec(b, acting_monkey, p, stack).0.measure() < b.measure() || pile_spec(
            b,
            acting_monkey,
            p,
            stack,
        ) == (b, stack),
    decreases b.measure(),
{
    if b.height(true, p) != 0 && b.height(false, p) != 0 {
        lemma_round(b, acting_monkey, p, stack);
        let r = round_spec(b, acting_monkey, p, stack);
        lemma_pile(r.0, acting_monkey, p, r.1);
    }
}

impl Board {
    fn resolve_draw(
        &mut self,
        is_monkey: bool,
        battle_index: u8,
        monkey_card_index: u8,
        wolf_card_index: u8,
        remaining_battles: &mut Vec<u8>,
    )
        requires
            old(self)@.wf(),
            battle_index < NUM_PILES,
            monkey_card_index as int == old(self)@.height(true, battle_index as int) - 1,
            wolf_card_index as int == old(self)@.height(false, battle_index as int) - 1,
            piles_in_range(old(remaining_battles)@),
        ensures
            (final(self)@, final(remaining_battles)@) == draw_spec(
                old(self)@,
                is_monkey,
                battle_index as int,
                monkey_card_index as int,
                wolf_card_index as int,
                old(remaining_battles)@,
            ),
    {
        let ghost b = self@;
        if is_monkey {
            if battle_index == 10 {
                self.set_card(false, battle_index, wolf_card_index, NULL);
                self.set_height(false, battle_index, wolf_card_index);
            } else {
                proof {
                    lemma_retreat(b, false, battle_index as int, remaining_battles@);
                }
                self.move_card(false, -1, battle_index, wolf_card_index, remaining_battles);
                self.move_card(true, -1, battle_index, monkey_card_index, remaining_battles);
            }
        } else {
            if battle_index == 0 {
                self.set_card(true, battle_index, monkey_card_index, NULL);
                self.set_height(true, battle_index, monkey_card_index);
            } else {
                proof {
                    lemma_retreat(b, true, battle_index as int, remaining_battles@);
                }
                self.move_card(true, -1, battle_index, monkey_card_index, remaining_battles);
                self.move_card(false, -1, battle_index, wolf_card_index, remaining_battles);
            }
        }
    }

    fn resolve_battle(&mut self, is_monkey: bool, battle_index: u8, remaining_battles: &mut Vec<u8>)
        requires
            old(self)@.wf(),
            battle_index < NUM_PILES,
            piles_in_range(old(remaining_battles)@),
        ensures
            (final(self)@, final(remaining_battles)@) == pile_spec(
                old(self)@,
                is_monkey,
                battle_index as int,
                old(remaining_battles)@,
            ),
            final(self)@.wf(),
            piles_in_range(final(remaining_battles)@),
    {
        let ghost target = pile_spec(self@, is_monkey, battle_index as int, remaining_battles@);
        while self.get_height(true, battle_index) > 0 && self.get_height(false, battle_index) > 0
            invariant
                self@.wf(),
                battle_index < NUM_PILES,
                piles_in_range(remaining_battles@),
                pile_spec(self@, is_monkey, battle_index as int, remaining_battles@) == target,
            decreases self@.measure(),
        {
            let ghost b = self@;
            let ghost s = remaining_battles@;
            proof {
                lemma_round(b, is_monkey, battle_index as int, s);
            }
            let monkey_card_index = self.get_height(true, battle_index) - 1;
            let wolf_card_index = self.get_height(false, battle_index) - 1;
            let monkey_card = self.get_card(true, battle_index, monkey_card_index);
            let wolf_card = self.get_card(false, battle_index, wolf_card_index);
            let battle_result = battle_winner(monkey_card, wolf_card);
            proof {
                assert(is_valid_card(b.monkey_cards[slot(battle_index as int, monkey_card_index as int)]));
                assert(is_valid_card(b.wolf_cards[slot(battle_index as int, wolf_card_index as int)]));
                lemma_battle_valid(monkey_card, wolf_card);
            }
            self.set_card(true, battle_index, monkey_card_index, battle_result.card_a_residual);
            self.set_card(false, battle_index, wolf_card_index, battle_result.card_b_residual);
            if battle_result.winner == NULL {
                proof {
                    lemma_set_top_wf(b, true, battle_index as int, battle_result.card_a_residual);
                    let ba = b.set_card(true, battle_index as int, monkey_card_index as int, battle_result.card_a_residual);
                    lemma_set_top_wf(ba, false, battle_index as int, battle_result.card_b_residual);
                }
                self.resolve_draw(
                    is_monkey,
                    battle_index,
                    monkey_card_index,
                    wolf_card_index,
                    remaining_battles,
                );
            } else if battle_result.winner == monkey_card {
                self.set_height(false, battle_index, wolf_card_index);
            } else {
                self.set_height(true, battle_index, monkey_card_index);
            }
        }
    }

    /// Moves the run of cards from `card_index` up of the team's pile
    /// `pile_index` by `dice_roll` steps, resolves every battle that this sets
    /// off, and then puts every joker back at strength 4.
    pub fn move_card_and_resolve_battles(
        &mut self,
        is_monkey: bool,
        dice_roll: i8,
        pile_index: u8,
        card_index: u8,
    )
        requires
            old(self)@.wf(),
            pile_index < NUM_PILES,
            card_index as int <= old(self)@.height(is_monkey, pile_index as int),
        ensures
            final(self)@ == resolved_move(
                old(self)@,
                is_monkey,
                dice_roll as int,
                pile_index as int,
                card_index as int,
            ),
            final(self)@.wf(),
            forall|k: int| 0 <= k < 110 && is_joker(#[trigger] final(self).monkey_cards@[k]) ==> final(self).monkey_cards@[k] == MJ4,
            forall|k: int| 0 <= k < 110 && is_joker(#[trigger] final(self).wolf_cards@[k]) ==> final(self).wolf_cards@[k] == WJ4,
    {
        let mut remaining_battles: Vec<u8> = Vec::new();
        self.move_card(is_monkey, dice_roll, pile_index, card_index, &mut remaining_battles);
        let ghost moved = self@;
        proof {
            lemma_moved_wf(old(self)@, is_monkey, dice_roll as int, pile_index as int, card_index as int);
            assert(remaining_battles@ =~= seq![target_pile(is_monkey, dice_roll as int, pile_index as int) as u8]);
            lemma_cascade(moved, is_monkey, remaining_battles@);
        }
        let ghost target = cascade_spec(moved, is_monkey, remaining_battles@);
        while remaining_battles.len() > 0
            invariant
                self@.wf(),
                piles_in_range(remaining_battles@),
                cascade_spec(self@, is_monkey, remaining_battles@) == target,
            decreases self@.measure(), remaining_battles@.len(),
        {
            let next_battle = remaining_battles[remaining_battles.len() - 1];
            let ghost b = self@;
            let ghost s = remaining_battles@;
            proof {
                assert(s[s.len() - 1] <= 10);
                lemma_pile(b, is_monkey, next_battle as int, s);
                lemma_measure_nonneg(b);
            }
            self.resolve_battle(is_monkey, next_battle, &mut remaining_battles);
            remaining_battles = without(&remaining_battles, next_battle);
            proof {
                let r = pile_spec(b, is_monkey, next_battle as int, s);
                lemma_remove_all(r.1, next_battle);
                if r == (b, s) {
                    assert(r.1.last() == next_battle);
                }
            }
        }
        proof {
            lemma_restored_wf(self@);
        }
        self.restore_joker_strengths();
        proof {
            assert forall|k: int| 0 <= k < 110 && is_joker(#[trigger] self.monkey_cards@[k]) implies self.monkey_cards@[k] == MJ4 by {
                lemma_category_values(MJ4);
            }
            assert forall|k: int| 0 <= k < 110 && is_joker(#[trigger] self.wolf_cards@[k]) implies self.wolf_cards@[k] == WJ4 by {
                lemma_category_values(WJ4);
            }
        }
    }

}

} // verus!
