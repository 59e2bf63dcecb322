//! Policies that pick one candidate end state of a turn.
use vstd::prelude::*;
use rand::rngs::StdRng;
use crate::board::BoardModel;
use crate::cards::{BIT_NON_NULL, BIT_TEAM_MONKEY, BIT_TEAM_WOLF, GameError};
use crate::metric::{
    CountMetric, MetricValue, PositionMetric, StrengthMetric, count_of, position_of, strength_of,
};
use crate::moves::{Candidate, CompletedMoves, all_wf, models};
use crate::random::random_index;

verus! {

/// The known policies.
#[derive(Clone, Copy, Debug, PartialEq, Eq, Structural)]
pub enum StrategyName {
    Random,
    RandomSpotWin,
    MetricCount,
    MetricPosition,
    MetricStrength,
}

/// A policy for choosing a turn's moves.
#[derive(Clone, Copy, Debug, PartialEq, Eq)]
pub struct Strategy {
    pub name: StrategyName,
}

/// What `str::to_lowercase` makes of a text.
pub uninterp spec fn lower_of(s: Seq<char>) -> Seq<char>;

/// Relies on `str::to_lowercase`: the result depends on the characters alone.
#[verifier::external_body]
fn lowercase(s: &str) -> (r: String)
    ensures
        r@ == lower_of(s@),
{
    s.to_lowercase()
}

/// The policy a lower-case name stands for.
pub open spec fn strategy_of(s: Seq<char>) -> Option<StrategyName> {
    if s == "random"@ {
        Some(StrategyName::Random)
    } else if s == "random_spot_win"@ {
        Some(StrategyName::RandomSpotWin)
    } else if s == "metric_count"@ {
        Some(StrategyName::MetricCount)
    } else if s == "metric_position"@ {
        Some(StrategyName::MetricPosition)
    } else if s == "metric_strength"@ {
        Some(StrategyName::MetricStrength)
    } else {
        None
    }
}

pub(crate) fn same_text(s: &str, t: &str) -> (r: bool)
    ensures
        r == (s@ == t@),
{
    let n = s.unicode_len();
    if n != t.unicode_len() {
        return false;
    }
    let mut i: usize = 0;
    while i < n
        invariant
            n == s@.len(),
            n == t@.len(),
            0 <= i <= n,
            forall|k: int| 0 <= k < i ==> s@[k] == t@[k],
        decreases n - i,
    {
        if s.get_char(i) != t.get_char(i) {
            return false;
        }
        i = i + 1;
    }
    proof {
        assert(s@ =~= t@);
    }
    true
}

/// The policy that the lower-case name `name` stands for.
pub fn strategy_from_lowercase(name: &str) -> (r: Option<StrategyName>)
    ensures
        r == strategy_of(name@),
{
    if same_text(name, "random") {
        Some(StrategyName::Random)
    } else if same_text(name, "random_spot_win") {
        Some(StrategyName::RandomSpotWin)
    } else if same_text(name, "metric_count") {
        Some(StrategyName::MetricCount)
    } else if same_text(name, "metric_position") {
        Some(StrategyName::MetricPosition)
    } else if same_text(name, "metric_strength") {
        Some(StrategyName::MetricStrength)
    } else {
        None
    }
}

/// The team bits, with the live bit, that a board shows when `monkey` won.
pub open spec fn win_mark(monkey: bool) -> u8 {
    if monkey {
        BIT_NON_NULL | BIT_TEAM_MONKEY
    } else {
        BIT_NON_NULL | BIT_TEAM_WOLF
    }
}

/// The candidate's board declares its own team the victor.
pub open spec fn wins(c: Candidate) -> bool {
    c.board.victor() == win_mark(c.is_monkey)
}

/// The first of the first `n` candidates that wins.
pub open spec fn first_win(v: Seq<Candidate>, n: int) -> Option<int>
    decreases n,
{
    if n <= 0 {
        None
    } else {
        match first_win(v, n - 1) {
            Some(k) => Some(k),
            None => if wins(v[n - 1]) {
                Some(n - 1)
            } else {
                None
            },
        }
    }
}

/// Once some candidate wins, looking further does not change the first.
pub proof fn lemma_first_win_stable(v: Seq<Candidate>, m: int, n: int)
    requires
        0 <= m <= n,
    ensures
        first_win(v, m) is Some ==> first_win(v, n) == first_win(v, m),
        first_win(v, m) is Some ==> 0 <= first_win(v, m)->0 < m,
    decreases n - m,
{
    if m < n {
        lemma_first_win_stable(v, m, n - 1);
    }
    lemma_first_win_bound(v, m);
}

proof fn lemma_first_win_bound(v: Seq<Candidate>, m: int)
    ensures
        first_win(v, m) is Some ==> 0 <= first_win(v, m)->0 < m,
    decreases m,
{
    if m > 0 {
        lemma_first_win_bound(v, m - 1);
    }
}

/// The metric a policy ranks by, for a candidate.
pub open spec fn metric_of(name: StrategyName, c: Candidate) -> MetricValue {
    let f = |b: BoardModel, monkey: bool|
        match name {
            StrategyName::MetricCount => count_of(b, monkey),
            StrategyName::MetricPosition => position_of(b, monkey),
            _ => strength_of(b, monkey),
        };
    MetricValue { own: f(c.board, c.is_monkey) as u32, other: f(c.board, !c.is_monkey) as u32 }
}

pub open spec fn is_metric(name: StrategyName) -> bool {
    name == StrategyName::MetricCount || name == StrategyName::MetricPosition || name
        == StrategyName::MetricStrength
}

/// Candidate `k` ranks at least as high as every candidate.
pub open spec fn is_best(name: StrategyName, v: Seq<Candidate>, k: int) -> bool {
    forall|j: int| 0 <= j < v.len() ==> metric_of(name, v[k]).at_least(#[trigger] metric_of(name, v[j]))
}

/// What a choice of candidate `k` among `v` must satisfy: a policy other
/// than pure random takes the first candidate that wins; failing that a
/// metric policy takes one that ranks highest.
pub open spec fn chosen_ok(name: StrategyName, v: Seq<Candidate>, k: int) -> bool {
    &&& 0 <= k < v.len()
    &&& name != StrategyName::Random && first_win(v, v.len() as int) is Some ==> k == first_win(
        v,
        v.len() as int,
    )->0
    &&& is_metric(name) && first_win(v, v.len() as int) is None ==> is_best(name, v, k)
}

pub proof fn lemma_at_least_trans(a: MetricValue, b: MetricValue, c: MetricValue)
    requires
        a.at_least(b),
        b.at_least(c),
    ensures
        a.at_least(c),
{
    let an = a.numerator();
    let ad = a.denominator();
    let bn = b.numerator();
    let bd = b.denominator();
    let cn = c.numerator();
    let cd = c.denominator();
    assert(an * bd * cd >= bn * ad * cd) by (nonlinear_arith)
        requires
            an * bd >= bn * ad,
            cd > 0,
    ;
    assert(bn * cd * ad >= cn * bd * ad) by (nonlinear_arith)
        requires
            bn * cd >= cn * bd,
            ad > 0,
    ;
    assert(bd * (an * cd - cn * ad) >= 0) by (nonlinear_arith)
        requires
            an * bd * cd >= bn * ad * cd,
            bn * cd * ad >= cn * bd * ad,
    ;
    assert(an * cd - cn * ad >= 0) by (nonlinear_arith)
        requires
            bd * (an * cd - cn * ad) >= 0,
            bd > 0,
    ;
}

impl Strategy {
    /// The policy named `strategy_name_str`, in any case.
    pub fn new(strategy_name_str: &String) -> (r: Result<Strategy, GameError>)
        ensures
            match strategy_of(lower_of(strategy_name_str@)) {
                Some(name) => r == Ok::<Strategy, GameError>(Strategy { name }),
                None => r == Err::<Strategy, GameError>(GameError::FormatError),
            },
    {
        let lowered = lowercase(strategy_name_str.as_str());
        match strategy_from_lowercase(lowered.as_str()) {
            Some(name) => Ok(Strategy { name }),
            None => Err(GameError::FormatError),
        }
    }

    /// The policy's metric of a candidate.
    pub fn metric_value(&self, completed_moves: &CompletedMoves) -> (r: MetricValue)
        requires
            completed_moves.board@.wf(),
            is_metric(self.name),
        ensures
            r == metric_of(self.name, completed_moves@),
    {
        match self.name {
            StrategyName::MetricCount => CountMetric {}.calculate(completed_moves),
            StrategyName::MetricPosition => PositionMetric {}.calculate(completed_moves),
            _ => StrengthMetric {}.calculate(completed_moves),
        }
    }

    /// The index of the first candidate whose board shows its own team as
    /// the victor.
    pub fn spot_win(all_permitted_moves: &Vec<CompletedMoves>) -> (r: Option<usize>)
        ensures
            match first_win(models(all_permitted_moves@), all_permitted_moves@.len() as int) {
                Some(k) => r == Some(k as usize),
                None => r is None,
            },
    {
        let ghost v = models(all_permitted_moves@);
        let mut k: usize = 0;
        while k < all_permitted_moves.len()
            invariant
                v == models(all_permitted_moves@),
                0 <= k <= v.len(),
                first_win(v, k as int) is None,
            decreases all_permitted_moves.len() - k,
        {
            let moves = &all_permitted_moves[k];
            let victorious_team = moves.board.victorious_team();
            let mark = if moves.is_monkey {
                BIT_NON_NULL | BIT_TEAM_MONKEY
            } else {
                BIT_NON_NULL | BIT_TEAM_WOLF
            };
            proof {
                assert(v[k as int] == moves@);
                assert(wins(v[k as int]) == (victorious_team == mark));
                assert(first_win(v, k + 1) == if wins(v[k as int]) {
                    Some(k as int)
                } else {
                    None::<int>
                });
                lemma_first_win_stable(v, k + 1, v.len() as int);
            }
            let found = victorious_team == mark;
            if found {
                return Some(k);
            }
            k = k + 1;
            proof {
                assert(first_win(v, k as int) is None);
            }
        }
        None
    }

    /// The indices, in order, of the candidates that rank highest by the
    /// policy's metric.
    pub fn best_metric_indices(&self, all_permitted_moves: &Vec<CompletedMoves>) -> (r: Vec<usize>)
        requires
            all_permitted_moves.len() > 0,
            all_wf(all_permitted_moves@),
            is_metric(self.name),
        ensures
            r.len() > 0,
            forall|j: int|
                0 <= j < r.len() ==> (#[trigger] r@[j] as int) < all_permitted_moves.len()
                    && is_best(self.name, models(all_permitted_moves@), r@[j] as int),
            forall|k: int|
                0 <= k < all_permitted_moves.len() && is_best(
                    self.name,
                    models(all_permitted_moves@),
                    k,
                ) ==> r@.contains(k as usize),
    {
        let ghost v = models(all_permitted_moves@);
        let n = all_permitted_moves.len();
        proof {
            assert(all_permitted_moves@[0].board@.wf());
        }
        let mut best = self.metric_value(&all_permitted_moves[0]);
        let ghost mut best_index: int = 0;
        let mut i: usize = 1;
        while i < n
            invariant
                v == models(all_permitted_moves@),
                n == v.len(),
                all_wf(all_permitted_moves@),
                is_metric(self.name),
                1 <= i <= n,
                0 <= best_index < n,
                best == metric_of(self.name, v[best_index]),
                forall|j: int| 0 <= j < i ==> best.at_least(#[trigger] metric_of(self.name, v[j])),
            decreases n - i,
        {
            proof {
                assert(all_permitted_moves@[i as int].board@.wf());
                assert(v[i as int] == all_permitted_moves@[i as int]@);
            }
            let value = self.metric_value(&all_permitted_moves[i]);
            if !best.ge(&value) {
                proof {
                    assert forall|j: int| 0 <= j < i + 1 implies value.at_least(#[trigger] metric_of(self.name, v[j])) by {
                        if j < i {
                            lemma_at_least_trans(value, best, metric_of(self.name, v[j]));
                        }
                    }
                    best_index = i as int;
                }
                best = value;
            }
            i = i + 1;
        }
        let mut ties: Vec<usize> = Vec::new();
        let mut k: usize = 0;
        while k < n
            invariant
                v == models(all_permitted_moves@),
                n == v.len(),
                all_wf(all_permitted_moves@),
                is_metric(self.name),
                0 <= k <= n,
                0 <= best_index < n,
                best == metric_of(self.name, v[best_index]),
                forall|j: int| 0 <= j < n ==> best.at_least(#[trigger] metric_of(self.name, v[j])),
                forall|j: int| 0 <= j < ties.len() ==> (#[trigger] ties@[j] as int) < k && is_best(self.name, v, ties@[j] as int),
                forall|j: int| 0 <= j < k && is_best(self.name, v, j) ==> ties@.contains(j as usize),
                best_index < k ==> ties.len() > 0,
            decreases n - k,
        {
            proof {
                assert(all_permitted_moves@[k as int].board@.wf());
                assert(v[k as int] == all_permitted_moves@[k as int]@);
            }
            let value = self.metric_value(&all_permitted_moves[k]);
            let ghost before = ties@;
            if value.ge(&best) {
                proof {
                    assert forall|j: int| 0 <= j < n implies metric_of(self.name, v[k as int]).at_least(#[trigger] metric_of(self.name, v[j])) by {
                        lemma_at_least_trans(value, best, metric_of(self.name, v[j]));
                    }
                }
                ties.push(k);
                proof {
                    assert(ties@[ties.len() - 1] == k);
                    assert forall|j: int| 0 <= j < ties.len() implies (#[trigger] ties@[j] as int) < k + 1 && is_best(self.name, v, ties@[j] as int) by {
                        if j < before.len() {
                            assert(ties@[j] == before[j]);
                        }
                    }
                    assert forall|j: int| 0 <= j < k + 1 && is_best(self.name, v, j) implies ties@.contains(j as usize) by {
                        if j < k {
                            assert(before.contains(j as usize));
                            let w = choose|w: int| 0 <= w < before.len() && before[w] == j as usize;
                            assert(ties@[w] == j as usize);
                        } else {
                            assert(ties@[ties.len() - 1] == j as usize);
                        }
                    }
                }
            } else {
                proof {
                    assert(!is_best(self.name, v, k as int)) by {
                        assert(!metric_of(self.name, v[k as int]).at_least(metric_of(self.name, v[best_index])));
                    }
                    if best_index == k {
                        assert(best.at_least(best));
                    }
                }
            }
            k = k + 1;
        }
        ties
    }

    /// Picks one of `all_permitted_moves`, which must not be empty. Any
    /// policy but pure random takes the first candidate that wins at once;
    /// otherwise the random policies draw uniformly among all candidates and
    /// the metric policies among those that rank highest.
    pub fn choose_move<'a>(&self, all_permitted_moves: &'a Vec<CompletedMoves>, rng: &mut StdRng) -> (r: &'a CompletedMoves)
        requires
            all_permitted_moves.len() > 0,
            all_wf(all_permitted_moves@),
        ensures
            exists|k: int| chosen_ok(self.name, models(all_permitted_moves@), k) && *r == all_permitted_moves@[k],
            self.name != StrategyName::Random && first_win(
                models(all_permitted_moves@),
                all_permitted_moves@.len() as int,
            ) is Some ==> *final(rng) == *old(rng),
    {
        let ghost v = models(all_permitted_moves@);
        assert(v.len() == all_permitted_moves@.len());
        let win = if self.name != StrategyName::Random {
            Self::spot_win(all_permitted_moves)
        } else {
            None
        };
        match win {
            Some(k) => {
                proof {
                    lemma_first_win_bound(v, v.len() as int);
                }
                return &all_permitted_moves[k];
            },
            None => {},
        }
        match self.name {
            StrategyName::Random | StrategyName::RandomSpotWin => {
                let k = random_index(rng, all_permitted_moves.len());
                proof {
                    assert(chosen_ok(self.name, v, k as int));
                }
                &all_permitted_moves[k]
            },
            _ => {
                let ties = self.best_metric_indices(all_permitted_moves);
                let j = random_index(rng, ties.len());
                let k = ties[j];
                proof {
                    assert(is_best(self.name, v, k as int));
                }
                &all_permitted_moves[k]
            },
        }
    }
}

} // verus!
