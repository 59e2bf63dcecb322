//! The board: two teams' piles over eleven shared positions, moving a run of
//! cards between piles, victory and finding a card.
use vstd::prelude::*;
use crate::cards::{
    BIT_NON_NULL, BIT_TEAM_MONKEY, BIT_TEAM_WOLF, BITS_CATEGORY_JOKER, CHECK_CATEGORY, MJ4, NULL,
    WJ4, GameError, is_joker, is_valid_card,
};

verus! {

/// Positions on the board, 0 (the monkeys' home row) to 10 (the wolves').
pub const NUM_PILES: u8 = 11;

/// Slots of one pile.
pub const PILE_CAPACITY: u8 = 10;

/// The most cards one team has on the board.
pub const TEAM_SIZE: u8 = 10;

/// Both teams' cards. Pile `p` of a team holds its cards at slots
/// `10 * p .. 10 * p + 10` of the team's array, bottom first; its height is
/// the number of live cards in it.
#[derive(Clone, Copy, Debug, PartialEq, Eq)]
pub struct Board {
    pub monkey_cards: [u8; 110],
    pub wolf_cards: [u8; 110],
    pub monkey_heights: [u8; 11],
    pub wolf_heights: [u8; 11],
}

/// Where a card stands: its pile and its index from the bottom.
#[derive(Clone, Copy, Debug, PartialEq, Eq)]
pub struct CardLocation {
    pub pile_index: u8,
    pub card_index: u8,
}

/// The contents of a board as sequences.
pub struct BoardModel {
    pub monkey_cards: Seq<u8>,
    pub wolf_cards: Seq<u8>,
    pub monkey_heights: Seq<u8>,
    pub wolf_heights: Seq<u8>,
}

impl View for Board {
    type V = BoardModel;

    open spec fn view(&self) -> BoardModel {
        BoardModel {
            monkey_cards: self.monkey_cards@,
            wolf_cards: self.wolf_cards@,
            monkey_heights: self.monkey_heights@,
            wolf_heights: self.wolf_heights@,
        }
    }
}

/// The index of slot `i` of pile `p` in a team's array.
pub open spec fn slot(p: int, i: int) -> int {
    p * 10 + i
}

/// Sum of the first `n` heights.
pub open spec fn total(hs: Seq<u8>, n: int) -> int
    decreases n,
{
    if n <= 0 {
        0
    } else {
        total(hs, n - 1) + hs[n - 1]
    }
}

/// How far a team's card at pile `p` has still to travel, plus one.
pub open spec fn distance_weight(monkey: bool, p: int) -> int {
    if monkey {
        p + 1
    } else {
        11 - p
    }
}

/// Sum over the first `n` piles of height times distance weight.
pub open spec fn weighted(hs: Seq<u8>, monkey: bool, n: int) -> int
    decreases n,
{
    if n <= 0 {
        0
    } else {
        weighted(hs, monkey, n - 1) + hs[n - 1] * distance_weight(monkey, n - 1)
    }
}

/// Some pile has a positive height.
pub open spec fn any_positive(hs: Seq<u8>) -> bool {
    exists|p: int| 0 <= p < 11 && #[trigger] hs[p] > 0
}

/// Well-formed cards and heights of one team: the team holds at most
/// `TEAM_SIZE` cards, every slot below a pile's height holds a valid card and
/// every slot at or above it is empty.
pub open spec fn team_wf(cs: Seq<u8>, hs: Seq<u8>) -> bool {
    &&& cs.len() == 110
    &&& hs.len() == 11
    &&& total(hs, 11) <= TEAM_SIZE
    &&& forall|p: int| 0 <= p < 11 ==> #[trigger] hs[p] <= PILE_CAPACITY
    &&& forall|p: int, i: int|
        #![trigger cs[slot(p, i)]]
        0 <= p < 11 && 0 <= i < 10 ==> if i < hs[p] {
            is_valid_card(cs[slot(p, i)])
        } else {
            cs[slot(p, i)] == NULL
        }
}

/// The pile that a move of `roll` steps from pile `p` reaches: monkeys move
/// towards 10, wolves towards 0, and the edges stop a card.
pub open spec fn target_pile(monkey: bool, roll: int, p: int) -> int {
    let t = if monkey {
        p + roll
    } else {
        p - roll
    };
    if t < 0 {
        0
    } else if t > 10 {
        10
    } else {
        t
    }
}

/// `cs` after the cards at slots `idx .. j` of pile `p` went, in order, to
/// pile `to` from its slot `hd` on.
pub open spec fn moved_cards(cs: Seq<u8>, p: int, idx: int, j: int, to: int, hd: int) -> Seq<
    u8,
> {
    Seq::new(
        cs.len(),
        |k: int|
            if slot(p, idx) <= k < slot(p, j) {
                NULL
            } else if slot(to, hd) <= k < slot(to, hd) + (j - idx) {
                cs[k - slot(to, hd) + slot(p, idx)]
            } else {
                cs[k]
            },
    )
}

/// Every joker of `cs` at full strength `j4`.
pub open spec fn restored_cards(cs: Seq<u8>, j4: u8) -> Seq<u8> {
    Seq::new(cs.len(), |k: int| if is_joker(cs[k]) { j4 } else { cs[k] })
}

impl BoardModel {
    pub open spec fn cards(self, monkey: bool) -> Seq<u8> {
        if monkey {
            self.monkey_cards
        } else {
            self.wolf_cards
        }
    }

    pub open spec fn heights(self, monkey: bool) -> Seq<u8> {
        if monkey {
            self.monkey_heights
        } else {
            self.wolf_heights
        }
    }

    pub open spec fn height(self, monkey: bool, p: int) -> int {
        self.heights(monkey)[p] as int
    }

    pub open spec fn card(self, monkey: bool, p: int, i: int) -> u8 {
        self.cards(monkey)[slot(p, i)]
    }

    pub open spec fn with_cards(self, monkey: bool, cs: Seq<u8>) -> BoardModel {
        if monkey {
            BoardModel { monkey_cards: cs, ..self }
        } else {
            BoardModel { wolf_cards: cs, ..self }
        }
    }

    pub open spec fn with_heights(self, monkey: bool, hs: Seq<u8>) -> BoardModel {
        if monkey {
            BoardModel { monkey_heights: hs, ..self }
        } else {
            BoardModel { wolf_heights: hs, ..self }
        }
    }

    pub open spec fn set_card(self, monkey: bool, p: int, i: int, c: u8) -> BoardModel {
        self.with_cards(monkey, self.cards(monkey).update(slot(p, i), c))
    }

    pub open spec fn set_height(self, monkey: bool, p: int, h: int) -> BoardModel {
        self.with_heights(monkey, self.heights(monkey).update(p, h as u8))
    }

    pub open spec fn wf(self) -> bool {
        &&& team_wf(self.monkey_cards, self.monkey_heights)
        &&& team_wf(self.wolf_cards, self.wolf_heights)
    }

    /// Live cards of a team.
    pub open spec fn count(self, monkey: bool) -> int {
        total(self.heights(monkey), 11)
    }

    /// Decreases with every battle of a cascade.
    pub open spec fn measure(self) -> int {
        weighted(self.monkey_heights, true, 11) + weighted(self.wolf_heights, false, 11)
            + total(self.monkey_heights, 11) + total(self.wolf_heights, 11)
    }

    /// A team has a live card somewhere.
    pub open spec fn alive(self, monkey: bool) -> bool {
        any_positive(self.heights(monkey))
    }

    /// `NULL`, or the team bits of the winner with the live bit set.
    pub open spec fn victor(self) -> u8 {
        if self.monkey_heights[10] > 0 {
            BIT_NON_NULL | BIT_TEAM_MONKEY
        } else if self.wolf_heights[0] > 0 {
            BIT_NON_NULL | BIT_TEAM_WOLF
        } else if self.alive(true) && !self.alive(false) {
            BIT_NON_NULL | BIT_TEAM_MONKEY
        } else if !self.alive(true) && self.alive(false) {
            BIT_NON_NULL | BIT_TEAM_WOLF
        } else {
            NULL
        }
    }

    /// The run from slot `idx` of pile `p` up moved `roll` steps onto the
    /// top of the pile it reaches. A run that stays where it is is unchanged.
    pub open spec fn moved(self, monkey: bool, roll: int, p: int, idx: int) -> BoardModel {
        let to = target_pile(monkey, roll, p);
        if to == p {
            self
        } else {
            let h = self.height(monkey, p);
            let hd = self.height(monkey, to);
            self.with_cards(monkey, moved_cards(self.cards(monkey), p, idx, h, to, hd)).set_height(
                monkey,
                p,
                idx,
            ).set_height(monkey, to, hd + h - idx)
        }
    }

    /// Every joker back at strength 4.
    pub open spec fn restored(self) -> BoardModel {
        BoardModel {
            monkey_cards: restored_cards(self.monkey_cards, MJ4),
            wolf_cards: restored_cards(self.wolf_cards, WJ4),
            ..self
        }
    }
}


/// `loc` holds the team's card `card`, and no slot before it does, piles
/// taken from 0 and each pile from the bottom.
pub open spec fn is_first_location(b: BoardModel, monkey: bool, card: u8, loc: CardLocation) -> bool {
    &&& loc.pile_index < 11
    &&& (loc.card_index as int) < b.height(monkey, loc.pile_index as int)
    &&& b.card(monkey, loc.pile_index as int, loc.card_index as int) == card
    &&& forall|q: int, i: int|
        0 <= q < 11 && 0 <= i < b.height(monkey, q) && (q < loc.pile_index || (q
            == loc.pile_index && i < loc.card_index)) ==> b.card(monkey, q, i) != card
}

/// The team has `card` among its live cards.
pub open spec fn on_board(b: BoardModel, monkey: bool, card: u8) -> bool {
    exists|q: int, i: int| 0 <= q < 11 && 0 <= i < b.height(monkey, q) && b.card(monkey, q, i) == card
}

/// Where the team's first copy of `card` stands.
pub open spec fn first_location(b: BoardModel, monkey: bool, card: u8) -> CardLocation {
    choose|loc: CardLocation| is_first_location(b, monkey, card, loc)
}

/// The first location of a card is unique.
pub proof fn lemma_first_location(b: BoardModel, monkey: bool, card: u8, loc: CardLocation)
    requires
        is_first_location(b, monkey, card, loc),
    ensures
        on_board(b, monkey, card),
        first_location(b, monkey, card) == loc,
{
    assert(b.card(monkey, loc.pile_index as int, loc.card_index as int) == card);
    let other = first_location(b, monkey, card);
    assert(is_first_location(b, monkey, card, other));
    if other != loc {
        if other.pile_index == loc.pile_index {
            assert(other.card_index != loc.card_index);
        }
    }
}

proof fn lemma_first_below(b: BoardModel, monkey: bool, card: u8, n: int)
    requires
        b.wf(),
        0 <= n <= 110,
        exists|q: int, i: int|
            0 <= q < 11 && 0 <= i < b.height(monkey, q) && slot(q, i) < n && b.card(monkey, q, i)
                == card,
    ensures
        exists|loc: CardLocation| is_first_location(b, monkey, card, loc),
    decreases n,
{
    let hs = b.heights(monkey);
    if exists|q: int, i: int|
        0 <= q < 11 && 0 <= i < b.height(monkey, q) && slot(q, i) < n - 1 && b.card(monkey, q, i)
            == card {
        lemma_first_below(b, monkey, card, n - 1);
    } else {
        let (q, i) = choose|q: int, i: int|
            0 <= q < 11 && 0 <= i < b.height(monkey, q) && slot(q, i) < n && b.card(monkey, q, i)
                == card;
        assert(hs[q] <= PILE_CAPACITY);
        let loc = CardLocation { pile_index: q as u8, card_index: i as u8 };
        assert forall|q2: int, i2: int|
            0 <= q2 < 11 && 0 <= i2 < b.height(monkey, q2) && (q2 < loc.pile_index || (q2
                == loc.pile_index && i2 < loc.card_index)) implies b.card(monkey, q2, i2) != card by {
            assert(hs[q2] <= PILE_CAPACITY);
            assert(slot(q2, i2) < slot(q, i));
        }
        assert(is_first_location(b, monkey, card, loc));
    }
}

/// A card on the board has a first location.
pub proof fn lemma_first_location_exists(b: BoardModel, monkey: bool, card: u8)
    requires
        b.wf(),
        on_board(b, monkey, card),
    ensures
        is_first_location(b, monkey, card, first_location(b, monkey, card)),
{
    let (q, i) = choose|q: int, i: int|
        0 <= q < 11 && 0 <= i < b.height(monkey, q) && b.card(monkey, q, i) == card;
    assert(b.heights(monkey)[q] <= PILE_CAPACITY);
    lemma_first_below(b, monkey, card, 110);
}

pub proof fn lemma_total_update(hs: Seq<u8>, i: int, v: u8, n: int)
    requires
        0 <= i < n <= hs.len(),
    ensures
        total(hs.update(i, v), n) == total(hs, n) - hs[i] + v,
        weighted(hs.update(i, v), true, n) == weighted(hs, true, n) + (v - hs[i])
            * distance_weight(true, i),
        weighted(hs.update(i, v), false, n) == weighted(hs, false, n) + (v - hs[i])
            * distance_weight(false, i),
    decreases n,
{
    if n - 1 > i {
        lemma_total_update(hs, i, v, n - 1);
    } else {
        assert(hs.update(i, v).subrange(0, i) =~= hs.subrange(0, i));
        lemma_prefix_same(hs.update(i, v), hs, i);
        assert(weighted(hs.update(i, v), true, n) == weighted(hs, true, i) + v * distance_weight(
            true,
            i,
        ));
        assert(weighted(hs, true, n) == weighted(hs, true, i) + hs[i] * distance_weight(true, i));
        assert(weighted(hs.update(i, v), true, n) == weighted(hs, true, n) + (v - hs[i])
            * distance_weight(true, i)) by (nonlinear_arith)
            requires
                weighted(hs.update(i, v), true, n) == weighted(hs, true, i) + v * distance_weight(
                    true,
                    i,
                ),
                weighted(hs, true, n) == weighted(hs, true, i) + hs[i] * distance_weight(true, i),
        ;
        assert(weighted(hs.update(i, v), false, n) == weighted(hs, false, n) + (v - hs[i])
            * distance_weight(false, i)) by (nonlinear_arith)
            requires
                weighted(hs.update(i, v), false, n) == weighted(hs, false, i) + v
                    * distance_weight(false, i),
                weighted(hs, false, n) == weighted(hs, false, i) + hs[i] * distance_weight(
                    false,
                    i,
                ),
        ;
    }
}

pub proof fn lemma_prefix_same(a: Seq<u8>, b: Seq<u8>, n: int)
    requires
        0 <= n <= a.len(),
        n <= b.len(),
        forall|k: int| 0 <= k < n ==> a[k] == b[k],
    ensures
        total(a, n) == total(b, n),
        weighted(a, true, n) == weighted(b, true, n),
        weighted(a, false, n) == weighted(b, false, n),
    decreases n,
{
    if n > 0 {
        lemma_prefix_same(a, b, n - 1);
    }
}

/// Sums of heights are at least any one height, and two heights together.
pub proof fn lemma_total_bounds(hs: Seq<u8>, n: int, a: int, b: int)
    requires
        0 <= n <= hs.len(),
    ensures
        total(hs, n) >= 0,
        weighted(hs, true, n) >= 0,
        weighted(hs, false, n) >= 0 || n > 11,
        0 <= a < n ==> total(hs, n) >= hs[a],
        0 <= a < n && 0 <= b < n && a != b ==> total(hs, n) >= hs[a] + hs[b],
    decreases n,
{
    if n > 0 {
        lemma_total_bounds(hs, n - 1, a, b);
        assert(total(hs, n) == total(hs, n - 1) + hs[n - 1]);
        if a < n - 1 {
            lemma_total_bounds(hs, n - 1, a, a);
        }
        if b < n - 1 {
            lemma_total_bounds(hs, n - 1, b, b);
        }
        let d = distance_weight(false, n - 1);
        assert(hs[n - 1] * distance_weight(true, n - 1) >= 0) by (nonlinear_arith)
            requires
                distance_weight(true, n - 1) >= 0,
        ;
        if n <= 11 {
            assert(hs[n - 1] * d >= 0) by (nonlinear_arith)
                requires
                    d >= 0,
            ;
        }
    }
}

/// A move keeps the board well formed; when it goes somewhere the number of
/// cards stays and the measure changes by the moved count times the change of
/// distance weight.
pub proof fn lemma_moved_wf(b: BoardModel, monkey: bool, roll: int, p: int, idx: int)
    requires
        b.wf(),
        0 <= p <= 10,
        0 <= idx <= b.height(monkey, p),
    ensures
        b.moved(monkey, roll, p, idx).wf(),
        b.moved(monkey, roll, p, idx).heights(!monkey) == b.heights(!monkey),
        b.moved(monkey, roll, p, idx).cards(!monkey) == b.cards(!monkey),
        target_pile(monkey, roll, p) != p ==> b.moved(monkey, roll, p, idx).measure() == b.measure()
            + (b.height(monkey, p) - idx) * (distance_weight(monkey, target_pile(monkey, roll, p))
            - distance_weight(monkey, p)),
{
    let to = target_pile(monkey, roll, p);
    if to != p {
        let cs = b.cards(monkey);
        let hs = b.heights(monkey);
        let h = hs[p] as int;
        let hd = hs[to] as int;
        lemma_total_bounds(hs, 11, p, to);
        let ncs = moved_cards(cs, p, idx, h, to, hd);
        let hs1 = hs.update(p, idx as u8);
        let hs2 = hs1.update(to, (hd + h - idx) as u8);
        lemma_total_update(hs, p, idx as u8, 11);
        lemma_total_update(hs1, to, (hd + h - idx) as u8, 11);
        assert forall|q: int, i: int|
            #![trigger ncs[slot(q, i)]]
            0 <= q < 11 && 0 <= i < 10 implies if i < hs2[q] {
            is_valid_card(ncs[slot(q, i)])
        } else {
            ncs[slot(q, i)] == NULL
        } by {
            if q == to && hd <= i < hd + h - idx {
                let src = i - hd + idx;
                assert(slot(to, hd) <= slot(q, i) < slot(to, hd) + (h - idx));
                assert(ncs[slot(q, i)] == cs[slot(p, src)]);
            }
        }
        assert forall|q: int| 0 <= q < 11 implies #[trigger] hs2[q] <= PILE_CAPACITY by {}
        let b2 = b.moved(monkey, roll, p, idx);
        assert(b2.cards(monkey) == ncs);
        assert(b2.heights(monkey) == hs2);
        let dm = (h - idx) * (distance_weight(monkey, to) - distance_weight(monkey, p));
        let w1 = weighted(hs, monkey, 11);
        let w2 = weighted(hs1, monkey, 11);
        let w3 = weighted(hs2, monkey, 11);
        assert(w2 == w1 + (idx - h) * distance_weight(monkey, p));
        assert(w3 == w2 + (hd + h - idx - hd) * distance_weight(monkey, to));
        assert(w3 == w1 + dm) by (nonlinear_arith)
            requires
                w2 == w1 + (idx - h) * distance_weight(monkey, p),
                w3 == w2 + (hd + h - idx - hd) * distance_weight(monkey, to),
                dm == (h - idx) * (distance_weight(monkey, to) - distance_weight(monkey, p)),
        ;
    }
}

impl Board {

    /// Cards the team has at pile `pile_index`.
    pub fn get_height(&self, is_monkey: bool, pile_index: u8) -> (r: u8)
        requires
            pile_index < NUM_PILES,
        ensures
            r == self@.height(is_monkey, pile_index as int),
    {
        if is_monkey {
            self.monkey_heights[pile_index as usize]
        } else {
            self.wolf_heights[pile_index as usize]
        }
    }

    /// Sets the team's height at pile `pile_index`.
    pub fn set_height(&mut self, is_monkey: bool, pile_index: u8, height: u8)
        requires
            pile_index < NUM_PILES,
        ensures
            final(self)@ == old(self)@.set_height(is_monkey, pile_index as int, height as int),
    {
        if is_monkey {
            self.monkey_heights[pile_index as usize] = height;
        } else {
            self.wolf_heights[pile_index as usize] = height;
        }
        proof {
            assert(self@.heights(is_monkey) =~= old(self)@.heights(is_monkey).update(
                pile_index as int,
                height,
            ));
        }
    }

    /// The team's card at slot `card_index` of pile `pile_index`.
    pub fn get_card(&self, is_monkey: bool, pile_index: u8, card_index: u8) -> (r: u8)
        requires
            pile_index < NUM_PILES,
            card_index < PILE_CAPACITY,
        ensures
            r == self@.card(is_monkey, pile_index as int, card_index as int),
    {
        let index = pile_index as usize * 10 + card_index as usize;
        if is_monkey {
            self.monkey_cards[index]
        } else {
            self.wolf_cards[index]
        }
    }

    /// Puts `card` at slot `card_index` of the team's pile `pile_index`.
    pub fn set_card(&mut self, is_monkey: bool, pile_index: u8, card_index: u8, card: u8)
        requires
            pile_index < NUM_PILES,
            card_index < PILE_CAPACITY,
        ensures
            final(self)@ == old(self)@.set_card(
                is_monkey,
                pile_index as int,
                card_index as int,
                card,
            ),
    {
        let index = pile_index as usize * 10 + card_index as usize;
        if is_monkey {
            self.monkey_cards[index] = card;
        } else {
            self.wolf_cards[index] = card;
        }
        proof {
            assert(self@.cards(is_monkey) =~= old(self)@.cards(is_monkey).update(
                slot(pile_index as int, card_index as int),
                card,
            ));
        }
    }

    /// The pile that a move of `dice_roll` steps from `pile_index` reaches.
    pub fn new_pile_index(is_monkey: bool, dice_roll: i8, pile_index: u8) -> (r: u8)
        requires
            pile_index < NUM_PILES,
        ensures
            r == target_pile(is_monkey, dice_roll as int, pile_index as int),
    {
        let unsnapped: i16 = if is_monkey {
            pile_index as i16 + dice_roll as i16
        } else {
            pile_index as i16 - dice_roll as i16
        };
        if unsnapped < 0 {
            0
        } else if unsnapped > 10 {
            10
        } else {
            unsnapped as u8
        }
    }

    /// Moves the run of cards from `card_index` up of pile `pile_index` onto
    /// the top of the pile `dice_roll` steps on, and records that pile as
    /// one whose battles are pending.
    pub fn move_card(
        &mut self,
        is_monkey: bool,
        dice_roll: i8,
        pile_index: u8,
        card_index: u8,
        remaining_battles: &mut Vec<u8>,
    )
        requires
            old(self)@.wf(),
            pile_index < NUM_PILES,
            card_index <= old(self)@.height(is_monkey, pile_index as int),
        ensures
            final(self)@ == old(self)@.moved(
                is_monkey,
                dice_roll as int,
                pile_index as int,
                card_index as int,
            ),
            final(remaining_battles)@ == old(remaining_battles)@.push(
                target_pile(is_monkey, dice_roll as int, pile_index as int) as u8,
            ),
    {
        let to = Self::new_pile_index(is_monkey, dice_roll, pile_index);
        if to != pile_index {
            let ghost b0 = self@;
            let h = self.get_height(is_monkey, pile_index);
            let hd = self.get_height(is_monkey, to);
            proof {
                lemma_total_bounds(b0.heights(is_monkey), 11, pile_index as int, to as int);
            }
            let mut old_index = card_index;
            proof {
                assert(moved_cards(
                    b0.cards(is_monkey),
                    pile_index as int,
                    card_index as int,
                    card_index as int,
                    to as int,
                    hd as int,
                ) =~= b0.cards(is_monkey));
                assert(self@ =~= b0.with_cards(is_monkey, b0.cards(is_monkey)));
            }
            while old_index < h
                invariant
                    b0.wf(),
                    card_index <= old_index <= h,
                    h == b0.height(is_monkey, pile_index as int),
                    hd == b0.height(is_monkey, to as int),
                    hd + h <= 10,
                    pile_index < 11,
                    to < 11,
                    to != pile_index,
                    self@ == b0.with_cards(
                        is_monkey,
                        moved_cards(
                            b0.cards(is_monkey),
                            pile_index as int,
                            card_index as int,
                            old_index as int,
                            to as int,
                            hd as int,
                        ),
                    ),
                decreases h - old_index,
            {
                let card = self.get_card(is_monkey, pile_index, old_index);
                let new_card_index = hd + old_index - card_index;
                self.set_card(is_monkey, to, new_card_index, card);
                self.set_card(is_monkey, pile_index, old_index, NULL);
                old_index = old_index + 1;
                proof {
                    let cs = b0.cards(is_monkey);
                    let prev = moved_cards(
                        cs,
                        pile_index as int,
                        card_index as int,
                        (old_index - 1) as int,
                        to as int,
                        hd as int,
                    );
                    assert(card == prev[slot(pile_index as int, (old_index - 1) as int)]);
                    assert(card == cs[slot(pile_index as int, (old_index - 1) as int)]);
                    assert(self@.cards(is_monkey) =~= moved_cards(
                        cs,
                        pile_index as int,
                        card_index as int,
                        old_index as int,
                        to as int,
                        hd as int,
                    ));
                }
            }
            self.set_height(is_monkey, pile_index, card_index);
            self.set_height(is_monkey, to, hd + h - card_index);
            proof {
                assert(self@ =~= b0.moved(
                    is_monkey,
                    dice_roll as int,
                    pile_index as int,
                    card_index as int,
                ));
            }
        }
        remaining_battles.push(to);
    }


    /// Where the team's card `card` stands, searching piles from 0 and each
    /// pile from the bottom.
    pub fn locate_card(&self, is_monkey: bool, card: u8) -> (r: Result<CardLocation, GameError>)
        requires
            self@.wf(),
        ensures
            match r {
                Ok(loc) => on_board(self@, is_monkey, card) && loc == first_location(
                    self@,
                    is_monkey,
                    card,
                ),
                Err(e) => e == GameError::NotFound && !on_board(self@, is_monkey, card),
            },
    {
        let mut pile_index: u8 = 0;
        while pile_index < NUM_PILES
            invariant
                self@.wf(),
                0 <= pile_index <= 11,
                forall|q: int, i: int| 0 <= q < pile_index && 0 <= i < self@.height(is_monkey, q) ==> self@.card(is_monkey, q, i) != card,
            decreases 11 - pile_index,
        {
            let height = self.get_height(is_monkey, pile_index);
            let mut card_index: u8 = 0;
            while card_index < height
                invariant
                    self@.wf(),
                    0 <= pile_index < 11,
                    height == self@.height(is_monkey, pile_index as int),
                    0 <= card_index <= height,
                    forall|q: int, i: int| 0 <= q < pile_index && 0 <= i < self@.height(is_monkey, q) ==> self@.card(is_monkey, q, i) != card,
                    forall|i: int| 0 <= i < card_index ==> self@.card(is_monkey, pile_index as int, i) != card,
                decreases height - card_index,
            {
                proof {
                    assert(self@.heights(is_monkey)[pile_index as int] <= PILE_CAPACITY);
                }
                if self.get_card(is_monkey, pile_index, card_index) == card {
                    let loc = CardLocation { pile_index, card_index };
                    proof {
                        assert(is_first_location(self@, is_monkey, card, loc));
                        lemma_first_location(self@, is_monkey, card, loc);
                    }
                    return Ok(loc);
                }
                card_index = card_index + 1;
            }
            pile_index = pile_index + 1;
        }
        Err(GameError::NotFound)
    }

    /// Puts every joker on the board back at strength 4.
    pub fn restore_joker_strengths(&mut self)
        ensures
            final(self)@ == old(self)@.restored(),
    {
        let mut i: usize = 0;
        while i < 110
            invariant
                0 <= i <= 110,
                self.wolf_cards == old(self).wolf_cards,
                self.monkey_heights == old(self).monkey_heights,
                self.wolf_heights == old(self).wolf_heights,
                forall|k: int|
                    0 <= k < i ==> self.monkey_cards@[k] == restored_cards(
                        old(self).monkey_cards@,
                        MJ4,
                    )[k],
                forall|k: int| i <= k < 110 ==> self.monkey_cards@[k] == old(self).monkey_cards@[k],
            decreases 110 - i,
        {
            if (self.monkey_cards[i] & CHECK_CATEGORY) == BITS_CATEGORY_JOKER {
                self.monkey_cards[i] = MJ4;
            }
            i = i + 1;
        }
        let mut i: usize = 0;
        while i < 110
            invariant
                0 <= i <= 110,
                self.monkey_cards@ =~= restored_cards(old(self).monkey_cards@, MJ4),
                self.monkey_heights == old(self).monkey_heights,
                self.wolf_heights == old(self).wolf_heights,
                forall|k: int|
                    0 <= k < i ==> self.wolf_cards@[k] == restored_cards(
                        old(self).wolf_cards@,
                        WJ4,
                    )[k],
                forall|k: int| i <= k < 110 ==> self.wolf_cards@[k] == old(self).wolf_cards@[k],
            decreases 110 - i,
        {
            if (self.wolf_cards[i] & CHECK_CATEGORY) == BITS_CATEGORY_JOKER {
                self.wolf_cards[i] = WJ4;
            }
            i = i + 1;
        }
        proof {
            assert(self@.wolf_cards =~= restored_cards(old(self).wolf_cards@, WJ4));
            assert(self@ =~= old(self)@.restored());
        }
    }

    /// The team that has won, as its team bits with the live bit set, or
    /// `NULL` while the game goes on.
    pub fn victorious_team(&self) -> (r: u8)
        ensures
            r == self@.victor(),
    {
        if self.monkey_heights[10] > 0 {
            return BIT_NON_NULL | BIT_TEAM_MONKEY;
        }
        if self.wolf_heights[0] > 0 {
            return BIT_NON_NULL | BIT_TEAM_WOLF;
        }
        let monkey_alive = Self::any_live(&self.monkey_heights);
        let wolf_alive = Self::any_live(&self.wolf_heights);
        if monkey_alive && !wolf_alive {
            BIT_NON_NULL | BIT_TEAM_MONKEY
        } else if !monkey_alive && wolf_alive {
            BIT_NON_NULL | BIT_TEAM_WOLF
        } else {
            NULL
        }
    }

    fn any_live(heights: &[u8; 11]) -> (r: bool)
        ensures
            r == any_positive(heights@),
    {
        let mut p: usize = 0;
        while p < 11
            invariant
                0 <= p <= 11,
                forall|q: int| 0 <= q < p ==> heights@[q] == 0,
            decreases 11 - p,
        {
            if heights[p] > 0 {
                return true;
            }
            p = p + 1;
        }
        false
    }
}

} // verus!
