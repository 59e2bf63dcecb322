//! Board metrics from one team's point of view, as exact ratios.
use vstd::prelude::*;
use crate::board::{Board, BoardModel, PILE_CAPACITY, TEAM_SIZE, lemma_total_bounds, total};
use crate::cards::{CHECK_STRENGTH, strength_bits};
use crate::moves::CompletedMoves;

verus! {

/// The acting team's value over the opponent's, or its own value when the
/// opponent's is zero: `own / other` with `other == 0` read as `own / 1`.
#[derive(Clone, Copy, Debug, PartialEq, Eq)]
pub struct MetricValue {
    pub own: u32,
    pub other: u32,
}

impl MetricValue {
    pub open spec fn numerator(self) -> int {
        self.own as int
    }

    pub open spec fn denominator(self) -> int {
        if self.other == 0 {
            1
        } else {
            self.other as int
        }
    }

    /// `self` is at least `o` as a ratio.
    pub open spec fn at_least(self, o: MetricValue) -> bool {
        self.numerator() * o.denominator() >= o.numerator() * self.denominator()
    }

    /// Whether `self` is at least `o` as a ratio.
    pub fn ge(&self, o: &MetricValue) -> (r: bool)
        ensures
            r == self.at_least(*o),
    {
        let d_self: u64 = if self.other == 0 {
            1
        } else {
            self.other as u64
        };
        let d_o: u64 = if o.other == 0 {
            1
        } else {
            o.other as u64
        };
        proof {
            assert(self.own as int * d_o <= u32::MAX as int * u32::MAX as int) by (nonlinear_arith)
                requires
                    d_o <= u32::MAX,
            ;
            assert(o.own as int * d_self <= u32::MAX as int * u32::MAX as int) by (nonlinear_arith)
                requires
                    d_self <= u32::MAX,
            ;
        }
        self.own as u64 * d_o >= o.own as u64 * d_self
    }
}

/// The ratio of `team_metric` to `other_team_metric`.
pub fn normalise(team_metric: u32, other_team_metric: u32) -> (r: MetricValue)
    ensures
        r == (MetricValue { own: team_metric, other: other_team_metric }),
{
    MetricValue { own: team_metric, other: other_team_metric }
}

/// Points for a live card of strength `s`.
pub open spec fn card_points(s: u8) -> int {
    if s == 1 {
        3
    } else if s == 2 {
        4
    } else if s == 3 {
        5
    } else if s == 4 {
        9
    } else {
        0
    }
}

/// Points of the cards below slot `j` of pile `p`.
pub open spec fn pile_points(cs: Seq<u8>, p: int, j: int) -> int
    decreases j,
{
    if j <= 0 {
        0
    } else {
        pile_points(cs, p, j - 1) + card_points(strength_bits(cs[p * 10 + j - 1]))
    }
}

/// Points of the live cards of the first `n` piles.
pub open spec fn strength_points(cs: Seq<u8>, hs: Seq<u8>, n: int) -> int
    decreases n,
{
    if n <= 0 {
        0
    } else {
        strength_points(cs, hs, n - 1) + pile_points(cs, n - 1, hs[n - 1] as int)
    }
}

/// The monkeys' weight of a pile; the wolves' is mirrored.
pub open spec fn pile_weight(monkey: bool, p: int) -> int {
    let q = if monkey {
        p
    } else {
        10 - p
    };
    if q < 3 {
        4
    } else if q < 10 {
        q + 1
    } else {
        100
    }
}

/// Height times weight over the first `n` piles.
pub open spec fn position_points(hs: Seq<u8>, monkey: bool, n: int) -> int
    decreases n,
{
    if n <= 0 {
        0
    } else {
        position_points(hs, monkey, n - 1) + hs[n - 1] * pile_weight(monkey, n - 1)
    }
}

pub open spec fn count_of(b: BoardModel, monkey: bool) -> int {
    total(b.heights(monkey), 11)
}

pub open spec fn strength_of(b: BoardModel, monkey: bool) -> int {
    strength_points(b.cards(monkey), b.heights(monkey), 11)
}

pub open spec fn position_of(b: BoardModel, monkey: bool) -> int {
    position_points(b.heights(monkey), monkey, 11)
}

/// Counts live cards.
pub struct CountMetric {}

/// Adds up points by strength: 3, 4, 5 and 9 for strengths 1 to 4.
pub struct StrengthMetric {}

/// Adds up heights weighted towards the opponent's home row.
pub struct PositionMetric {}

fn count_team(heights: &[u8; 11]) -> (r: u32)
    requires
        total(heights@, 11) <= TEAM_SIZE,
    ensures
        r == total(heights@, 11),
{
    let mut sum: u32 = 0;
    let mut p: usize = 0;
    while p < 11
        invariant
            0 <= p <= 11,
            total(heights@, 11) <= TEAM_SIZE,
            sum == total(heights@, p as int),
        decreases 11 - p,
    {
        proof {
            lemma_total_prefix(heights@, p as int + 1, 11);
        }
        sum = sum + heights[p] as u32;
        p = p + 1;
    }
    sum
}

/// A prefix sum of heights is at most the whole sum.
pub proof fn lemma_total_prefix(hs: Seq<u8>, i: int, n: int)
    requires
        0 <= i <= n <= hs.len(),
    ensures
        total(hs, i) <= total(hs, n),
    decreases n - i,
{
    if i < n {
        lemma_total_prefix(hs, i, n - 1);
    }
}

proof fn lemma_pile_points_bound(cs: Seq<u8>, p: int, j: int)
    requires
        j >= 0,
    ensures
        0 <= pile_points(cs, p, j) <= 9 * j,
    decreases j,
{
    if j > 0 {
        lemma_pile_points_bound(cs, p, j - 1);
    }
}

proof fn lemma_position_bound(hs: Seq<u8>, monkey: bool, n: int)
    requires
        0 <= n <= hs.len(),
        n <= 11,
    ensures
        0 <= position_points(hs, monkey, n) <= 100 * total(hs, n),
    decreases n,
{
    if n > 0 {
        lemma_position_bound(hs, monkey, n - 1);
        let w = pile_weight(monkey, n - 1);
        let h = hs[n - 1] as int;
        assert(0 <= h * w <= 100 * h) by (nonlinear_arith)
            requires
                0 <= w <= 100,
                0 <= h,
        ;
    }
}

fn strength_team(heights: &[u8; 11], cards: &[u8; 110]) -> (r: u32)
    requires
        total(heights@, 11) <= TEAM_SIZE,
        forall|p: int| 0 <= p < 11 ==> #[trigger] heights@[p] <= PILE_CAPACITY,
    ensures
        r == strength_points(cards@, heights@, 11),
{
    let mut sum: u32 = 0;
    let mut p: usize = 0;
    while p < 11
        invariant
            0 <= p <= 11,
            total(heights@, 11) <= TEAM_SIZE,
            forall|q: int| 0 <= q < 11 ==> #[trigger] heights@[q] <= PILE_CAPACITY,
            sum == strength_points(cards@, heights@, p as int),
            sum <= 9 * total(heights@, p as int),
        decreases 11 - p,
    {
        let height = heights[p];
        let mut pile_sum: u32 = 0;
        let mut i: u8 = 0;
        while i < height
            invariant
                0 <= p < 11,
                height == heights@[p as int],
                height <= 10,
                0 <= i <= height,
                pile_sum == pile_points(cards@, p as int, i as int),
            decreases height - i,
        {
            proof {
                lemma_pile_points_bound(cards@, p as int, i as int);
            }
            let strength = cards[p * 10 + i as usize] & CHECK_STRENGTH;
            let points: u32 = if strength == 1 {
                3
            } else if strength == 2 {
                4
            } else if strength == 3 {
                5
            } else if strength == 4 {
                9
            } else {
                0
            };
            pile_sum = pile_sum + points;
            i = i + 1;
        }
        proof {
            lemma_pile_points_bound(cards@, p as int, height as int);
            lemma_total_prefix(heights@, p as int + 1, 11);
        }
        sum = sum + pile_sum;
        p = p + 1;
    }
    sum
}

fn position_team(heights: &[u8; 11], is_monkey: bool) -> (r: u32)
    requires
        total(heights@, 11) <= TEAM_SIZE,
    ensures
        r == position_points(heights@, is_monkey, 11),
{
    let monkey_weights: [u32; 11] = [4, 4, 4, 4, 5, 6, 7, 8, 9, 10, 100];
    let mut sum: u32 = 0;
    let mut p: usize = 0;
    while p < 11
        invariant
            0 <= p <= 11,
            total(heights@, 11) <= TEAM_SIZE,
            monkey_weights@ == seq![4u32, 4, 4, 4, 5, 6, 7, 8, 9, 10, 100],
            sum == position_points(heights@, is_monkey, p as int),
        decreases 11 - p,
    {
        proof {
            lemma_position_bound(heights@, is_monkey, p as int + 1);
            lemma_total_prefix(heights@, p as int + 1, 11);
        }
        let weight = if is_monkey {
            monkey_weights[p]
        } else {
            monkey_weights[10 - p]
        };
        proof {
            let q = if is_monkey { p as int } else { 10 - p as int };
            assert(monkey_weights@[q] == pile_weight(true, q));
            assert(weight == pile_weight(is_monkey, p as int));
            lemma_total_bounds(heights@, 11, p as int, p as int);
        }
        sum = sum + heights[p] as u32 * weight;
        p = p + 1;
    }
    sum
}

impl CountMetric {
    /// Live cards of the acting team over the opponent's.
    pub fn calculate(&self, completed_moves: &CompletedMoves) -> (r: MetricValue)
        requires
            completed_moves.board@.wf(),
        ensures
            r.own == count_of(completed_moves.board@, completed_moves.is_monkey),
            r.other == count_of(completed_moves.board@, !completed_moves.is_monkey),
    {
        let monkey_count = count_team(&completed_moves.board.monkey_heights);
        let wolf_count = count_team(&completed_moves.board.wolf_heights);
        if completed_moves.is_monkey {
            normalise(monkey_count, wolf_count)
        } else {
            normalise(wolf_count, monkey_count)
        }
    }
}

impl StrengthMetric {
    /// Strength points of the acting team over the opponent's.
    pub fn calculate(&self, completed_moves: &CompletedMoves) -> (r: MetricValue)
        requires
            completed_moves.board@.wf(),
        ensures
            r.own == strength_of(completed_moves.board@, completed_moves.is_monkey),
            r.other == strength_of(completed_moves.board@, !completed_moves.is_monkey),
    {
        let board: &Board = &completed_moves.board;
        let monkey_metric = strength_team(&board.monkey_heights, &board.monkey_cards);
        let wolf_metric = strength_team(&board.wolf_heights, &board.wolf_cards);
        if completed_moves.is_monkey {
            normalise(monkey_metric, wolf_metric)
        } else {
            normalise(wolf_metric, monkey_metric)
        }
    }
}

impl PositionMetric {
    /// Position points of the acting team over the opponent's, each team
    /// weighted towards its own target row.
    pub fn calculate(&self, completed_moves: &CompletedMoves) -> (r: MetricValue)
        requires
            completed_moves.board@.wf(),
        ensures
            r.own == position_of(completed_moves.board@, completed_moves.is_monkey),
            r.other == position_of(completed_moves.board@, !completed_moves.is_monkey),
    {
        let monkey_metric = position_team(&completed_moves.board.monkey_heights, true);
        let wolf_metric = position_team(&completed_moves.board.wolf_heights, false);
        if completed_moves.is_monkey {
            normalise(monkey_metric, wolf_metric)
        } else {
            normalise(wolf_metric, monkey_metric)
        }
    }
}

} // verus!
