//! Plain exchange records: board snapshots, dice and moves as text.
use vstd::prelude::*;
use std::collections::BTreeMap;
use crate::board::{Board, BoardModel, NUM_PILES, PILE_CAPACITY, TEAM_SIZE, slot, team_wf, total};
use crate::cards::{
    BITS_CATEGORY_PAPER, BITS_CATEGORY_ROCK, BITS_CATEGORY_SCISSORS, CHECK_CATEGORY, GameError,
    NULL, card_text, category_bits, from_string, is_valid_card, lemma_parse_card_text, parse_card,
    strength_bits, to_string,
};
use crate::moves::Move;

verus! {

/// A board as text: for each team, pile index to the cards of the pile,
/// bottom first, as three-character codes. Empty piles are left out.
#[derive(Debug, PartialEq)]
pub struct BoardDto {
    pub monkey: BTreeMap<u8, Vec<String>>,
    pub wolf: BTreeMap<u8, Vec<String>>,
}

/// The magnitudes of a turn's rock, paper and scissors dice.
#[derive(Clone, Copy, Debug, PartialEq, Eq)]
pub struct DiceRollDto {
    pub rock: i8,
    pub paper: i8,
    pub scissors: i8,
}

/// A move as text: the die's category name and the card's code.
#[derive(Debug, PartialEq, Eq)]
pub struct MoveDto {
    pub dice_category: String,
    pub card: String,
}

/// A request to choose a turn's moves.
pub struct ChooseRequest {
    pub board: BoardDto,
    pub dice: DiceRollDto,
    pub team: String,
    pub strategy: String,
}

/// The chosen moves, in the order they apply.
pub struct ChooseResponse {
    pub moves: Vec<MoveDto>,
}

/// A request to apply named moves to a board.
pub struct ExecuteRequest {
    pub board: BoardDto,
    pub dice: DiceRollDto,
    pub team: String,
    pub moves: Vec<MoveDto>,
}

/// The board after the moves.
pub struct ExecuteResponse {
    pub board: BoardDto,
}

/// One game to simulate: its id, seed and the two teams' policies.
#[derive(Debug, PartialEq, Eq)]
pub struct InstructionDto {
    pub id: u64,
    pub seed: u64,
    pub monkey_strategy: String,
    pub wolf_strategy: String,
}

/// The texts of the cards of pile `p` of a team, bottom first.
pub open spec fn pile_texts_ok(v: Seq<String>, b: BoardModel, monkey: bool, p: int) -> bool {
    &&& v.len() == b.height(monkey, p)
    &&& forall|i: int| 0 <= i < v.len() ==> (#[trigger] v[i])@ == card_text(b.card(monkey, p, i))
}

/// `m` is the snapshot of the team's piles on `b`.
pub open spec fn snapshot_of(m: Map<u8, Vec<String>>, b: BoardModel, monkey: bool) -> bool {
    &&& forall|p: u8| #[trigger] m.contains_key(p) <==> (p < 11 && b.height(monkey, p as int) > 0)
    &&& forall|p: u8| #[trigger] m.contains_key(p) ==> pile_texts_ok(m[p]@, b, monkey, p as int)
}

/// Cards a snapshot gives to pile `p`.
pub open spec fn snapshot_height(m: Map<u8, Vec<String>>, p: int) -> int {
    if m.contains_key(p as u8) {
        m[p as u8]@.len() as int
    } else {
        0
    }
}

/// Cards a snapshot gives to the first `n` piles.
pub open spec fn snapshot_count(m: Map<u8, Vec<String>>, n: int) -> int
    decreases n,
{
    if n <= 0 {
        0
    } else {
        snapshot_count(m, n - 1) + snapshot_height(m, n - 1)
    }
}

/// A snapshot of a team that a board can hold: piles 0 to 10 only, at most
/// `TEAM_SIZE` cards in all, every text a card's.
pub open spec fn team_snapshot_ok(m: Map<u8, Vec<String>>) -> bool {
    &&& forall|k: u8| #[trigger] m.contains_key(k) ==> k < 11
    &&& snapshot_count(m, 11) <= TEAM_SIZE
    &&& forall|k: u8, i: int|
        #![trigger m[k]@[i]]
        m.contains_key(k) && 0 <= i < m[k]@.len() ==> parse_card(m[k]@[i]@) is Some
}

/// The team's piles on `b` are those that `m` describes.
pub open spec fn board_matches(b: BoardModel, monkey: bool, m: Map<u8, Vec<String>>) -> bool {
    &&& forall|p: int| 0 <= p < 11 ==> #[trigger] b.height(monkey, p) == snapshot_height(m, p)
    &&& forall|p: int, i: int|
        #![trigger b.cards(monkey)[slot(p, i)]]
        0 <= p < 11 && 0 <= i < 10 ==> b.cards(monkey)[slot(p, i)] == if i < snapshot_height(m, p) {
            parse_card(m[p as u8]@[i]@)->0
        } else {
            NULL
        }
}

proof fn lemma_snapshot_prefix(m: Map<u8, Vec<String>>, i: int, n: int)
    requires
        0 <= i <= n,
    ensures
        snapshot_count(m, i) <= snapshot_count(m, n),
        i < n ==> snapshot_count(m, i) + snapshot_height(m, i) <= snapshot_count(m, n),
    decreases n - i,
{
    if i < n {
        lemma_snapshot_prefix(m, i, n - 1);
        lemma_snapshot_prefix(m, i + 1, n);
    }
}

proof fn lemma_snapshot_nonneg(m: Map<u8, Vec<String>>, n: int)
    ensures
        snapshot_count(m, n) >= 0,
    decreases n,
{
    if n > 0 {
        lemma_snapshot_nonneg(m, n - 1);
    }
}

proof fn lemma_snapshot_count_total(m: Map<u8, Vec<String>>, hs: Seq<u8>, n: int)
    requires
        0 <= n <= hs.len(),
        forall|p: int| 0 <= p < hs.len() ==> #[trigger] hs[p] == snapshot_height(m, p),
    ensures
        total(hs, n) == snapshot_count(m, n),
    decreases n,
{
    if n > 0 {
        lemma_snapshot_count_total(m, hs, n - 1);
    }
}

/// Exporting a well-formed board and importing the snapshot gives the same
/// board back.
pub proof fn lemma_snapshot_round_trip(
    b: BoardModel,
    monkey_map: Map<u8, Vec<String>>,
    wolf_map: Map<u8, Vec<String>>,
    b2: BoardModel,
)
    requires
        b.wf(),
        snapshot_of(monkey_map, b, true),
        snapshot_of(wolf_map, b, false),
    ensures
        team_snapshot_ok(monkey_map),
        team_snapshot_ok(wolf_map),
        b2.wf() && board_matches(b2, true, monkey_map) && board_matches(b2, false, wolf_map) ==> b2
            == b,
{
    lemma_snapshot_team(b, true, monkey_map, b2);
    lemma_snapshot_team(b, false, wolf_map, b2);
}

proof fn lemma_snapshot_team(b: BoardModel, monkey: bool, m: Map<u8, Vec<String>>, b2: BoardModel)
    requires
        b.wf(),
        snapshot_of(m, b, monkey),
    ensures
        team_snapshot_ok(m),
        b2.wf() && board_matches(b2, monkey, m) ==> b2.cards(monkey) == b.cards(monkey)
            && b2.heights(monkey) == b.heights(monkey),
{
    let hs = b.heights(monkey);
    let cs = b.cards(monkey);
    assert forall|p: int| 0 <= p < hs.len() implies #[trigger] hs[p] == snapshot_height(m, p) by {
        if hs[p] > 0 {
            assert(m.contains_key(p as u8));
        } else {
            assert(!m.contains_key(p as u8));
        }
    }
    lemma_snapshot_count_total(m, hs, 11);
    assert forall|k: u8, i: int|
        #![trigger m[k]@[i]]
        m.contains_key(k) && 0 <= i < m[k]@.len() implies parse_card(m[k]@[i]@) is Some by {
        assert(pile_texts_ok(m[k]@, b, monkey, k as int));
        assert(is_valid_card(cs[slot(k as int, i)]));
        lemma_parse_card_text(cs[slot(k as int, i)]);
    }
    if b2.wf() && board_matches(b2, monkey, m) {
        assert forall|k: int| 0 <= k < 110 implies b2.cards(monkey)[k] == cs[k] by {
            let p = k / 10;
            let i = k % 10;
            assert(k == slot(p, i));
            if i < hs[p] {
                assert(m.contains_key(p as u8));
                assert(pile_texts_ok(m[p as u8]@, b, monkey, p));
                assert(m[p as u8]@[i]@ == card_text(cs[slot(p, i)]));
                lemma_parse_card_text(cs[slot(p, i)]);
            }
        }
        assert(b2.cards(monkey) =~= cs);
        assert forall|p: int| 0 <= p < 11 implies b2.heights(monkey)[p] == hs[p] by {
            assert(b2.height(monkey, p) == snapshot_height(m, p));
        }
        assert(b2.heights(monkey) =~= hs);
    }
}

/// The name of a die's category: `rock`, `paper` or `scissors`.
pub open spec fn category_name(c: u8) -> Option<Seq<char>> {
    if category_bits(c) == BITS_CATEGORY_ROCK {
        Some("rock"@)
    } else if category_bits(c) == BITS_CATEGORY_PAPER {
        Some("paper"@)
    } else if category_bits(c) == BITS_CATEGORY_SCISSORS {
        Some("scissors"@)
    } else {
        None
    }
}

impl Move {
    /// The move as text.
    pub fn to_dto(&self) -> (r: Result<MoveDto, GameError>)
        ensures
            category_name(self.dice_category) is None ==> r == Err::<MoveDto, GameError>(
                GameError::FormatError,
            ),
            category_name(self.dice_category) is Some && strength_bits(self.card) > 4 ==> r
                == Err::<MoveDto, GameError>(GameError::InvariantViolation),
            category_name(self.dice_category) is Some && strength_bits(self.card) <= 4 ==> r is Ok
                && r->Ok_0.dice_category@ == category_name(self.dice_category)->0
                && r->Ok_0.card@ == card_text(self.card),
    {
        let category_bit = self.dice_category & CHECK_CATEGORY;
        let dice_str = if category_bit == BITS_CATEGORY_ROCK {
            String::from_str("rock")
        } else if category_bit == BITS_CATEGORY_PAPER {
            String::from_str("paper")
        } else if category_bit == BITS_CATEGORY_SCISSORS {
            String::from_str("scissors")
        } else {
            return Err(GameError::FormatError);
        };
        match to_string(self.card) {
            Ok(card) => Ok(MoveDto { dice_category: dice_str, card }),
            Err(e) => Err(e),
        }
    }
}

impl Board {
    fn team_snapshot(&self, is_monkey: bool) -> (r: BTreeMap<u8, Vec<String>>)
        requires
            self@.wf(),
        ensures
            snapshot_of(r@, self@, is_monkey),
    {
        broadcast use vstd::laws_cmp::group_laws_cmp;

        let mut map: BTreeMap<u8, Vec<String>> = BTreeMap::new();
        let mut pile_index: u8 = 0;
        while pile_index < NUM_PILES
            invariant
                self@.wf(),
                0 <= pile_index <= 11,
                forall|p: u8|
                    #[trigger] map@.contains_key(p) <==> (p < pile_index && self@.height(
                        is_monkey,
                        p as int,
                    ) > 0),
                forall|p: u8|
                    #[trigger] map@.contains_key(p) ==> pile_texts_ok(
                        map@[p]@,
                        self@,
                        is_monkey,
                        p as int,
                    ),
            decreases 11 - pile_index,
        {
            let height = self.get_height(is_monkey, pile_index);
            if height > 0 {
                proof {
                    assert(self@.heights(is_monkey)[pile_index as int] <= PILE_CAPACITY);
                }
                let mut texts: Vec<String> = Vec::new();
                let mut card_index: u8 = 0;
                while card_index < height
                    invariant
                        self@.wf(),
                        0 <= pile_index < 11,
                        height == self@.height(is_monkey, pile_index as int),
                        height <= 10,
                        0 <= card_index <= height,
                        texts@.len() == card_index,
                        forall|i: int|
                            0 <= i < card_index ==> (#[trigger] texts@[i])@ == card_text(
                                self@.card(is_monkey, pile_index as int, i),
                            ),
                    decreases height - card_index,
                {
                    let card = self.get_card(is_monkey, pile_index, card_index);
                    proof {
                        let cs = self@.cards(is_monkey);
                        assert(is_valid_card(cs[slot(pile_index as int, card_index as int)]));
                    }
                    match to_string(card) {
                        Ok(text) => {
                            texts.push(text);
                        },
                        Err(_) => {
                            proof {
                                assert(false);
                            }
                        },
                    }
                    card_index = card_index + 1;
                }
                map.insert(pile_index, texts);
            }
            pile_index = pile_index + 1;
        }
        map
    }

    /// The board as a snapshot.
    pub fn to_dto(&self) -> (r: BoardDto)
        requires
            self@.wf(),
        ensures
            snapshot_of(r.monkey@, self@, true),
            snapshot_of(r.wolf@, self@, false),
    {
        let monkey = self.team_snapshot(true);
        let wolf = self.team_snapshot(false);
        BoardDto { monkey, wolf }
    }

    fn load_team(&mut self, is_monkey: bool, piles: &BTreeMap<u8, Vec<String>>) -> (ok: bool)
        requires
            forall|k: int| 0 <= k < 110 ==> #[trigger] old(self)@.cards(is_monkey)[k] == NULL,
            forall|p: int| 0 <= p < 11 ==> #[trigger] old(self)@.heights(is_monkey)[p] == 0,
        ensures
            ok == team_snapshot_ok(piles@),
            ok ==> board_matches(final(self)@, is_monkey, piles@) && team_wf(
                final(self)@.cards(is_monkey),
                final(self)@.heights(is_monkey),
            ),
            final(self)@.cards(!is_monkey) == old(self)@.cards(!is_monkey),
            final(self)@.heights(!is_monkey) == old(self)@.heights(!is_monkey),
    {
        broadcast use vstd::laws_cmp::group_laws_cmp, vstd::std_specs::btree::group_btree_axioms;

        let ghost m = piles@;
        let ghost b0 = self@;
        assert(b0 == old(self)@);
        let ghost mut found: Set<u8> = Set::empty();
        let mut found_count: usize = 0;
        let mut count: usize = 0;
        let mut pile_index: u8 = 0;
        while pile_index < NUM_PILES
            invariant
                m == piles@,
                b0 == old(self)@,
                0 <= pile_index <= 11,
                count == snapshot_count(m, pile_index as int),
                count <= 10,
                found == Set::new(|k: u8| k < pile_index && m.contains_key(k)),
                found.finite(),
                found.len() == found_count,
                found_count <= pile_index,
                forall|k: u8, i: int|
                    #![trigger m[k]@[i]]
                    k < pile_index && m.contains_key(k) && 0 <= i < m[k]@.len() ==> parse_card(
                        m[k]@[i]@,
                    ) is Some,
                self@.cards(!is_monkey) == b0.cards(!is_monkey),
                self@.heights(!is_monkey) == b0.heights(!is_monkey),
                self@.cards(is_monkey).len() == 110,
                self@.heights(is_monkey).len() == 11,
                forall|p: int| 0 <= p < 11 ==> #[trigger] self@.height(is_monkey, p) == if p < pile_index {
                    snapshot_height(m, p)
                } else {
                    0
                },
                forall|p: int, i: int|
                    #![trigger self@.cards(is_monkey)[slot(p, i)]]
                    0 <= p < 11 && 0 <= i < 10 ==> self@.cards(is_monkey)[slot(p, i)] == if p
                        < pile_index && i < snapshot_height(m, p) {
                        parse_card(m[p as u8]@[i]@)->0
                    } else {
                        NULL
                    },
            decreases 11 - pile_index,
        {
            let ghost before = self@;
            match piles.get(&pile_index) {
                Some(cards) => {
                    proof {
                        assert(m.contains_key(pile_index) && m[pile_index] == *cards);
                    }
                    if cards.len() > 10 - count {
                        proof {
                            lemma_snapshot_prefix(m, pile_index as int, 11);
                            assert(self@.cards(!is_monkey) == old(self)@.cards(!is_monkey));
                            assert(self@.heights(!is_monkey) == old(self)@.heights(!is_monkey));
                        }
                        return false;
                    }
                    let mut card_index: usize = 0;
                    while card_index < cards.len()
                        invariant
                            m == piles@,
                            b0 == old(self)@,
                            self@.heights(!is_monkey) == b0.heights(!is_monkey),
                            0 <= pile_index < 11,
                            m.contains_key(pile_index),
                            m[pile_index] == *cards,
                            cards.len() <= 10,
                            0 <= card_index <= cards.len(),
                            forall|i: int|
                                0 <= i < card_index ==> parse_card(#[trigger] cards@[i]@) is Some,
                            self@.cards(!is_monkey) == b0.cards(!is_monkey),
                            self@.monkey_heights == before.monkey_heights,
                            self@.wolf_heights == before.wolf_heights,
                            self@.cards(is_monkey).len() == 110,
                            forall|p: int, i: int|
                                #![trigger self@.cards(is_monkey)[slot(p, i)]]
                                0 <= p < 11 && 0 <= i < 10 ==> self@.cards(is_monkey)[slot(p, i)]
                                    == if p == pile_index && i < card_index {
                                    parse_card(cards@[i]@)->0
                                } else {
                                    before.cards(is_monkey)[slot(p, i)]
                                },
                        decreases cards.len() - card_index,
                    {
                        match from_string(&cards[card_index]) {
                            Ok(card) => {
                                self.set_card(is_monkey, pile_index, card_index as u8, card);
                            },
                            Err(_) => {
                                proof {
                                    assert(m[pile_index]@[card_index as int] == cards@[card_index as int]);
                                }
                                return false;
                            },
                        }
                        card_index = card_index + 1;
                    }
                    let ghost mid = self@;
                    self.set_height(is_monkey, pile_index, cards.len() as u8);
                    count = count + cards.len();
                    proof {
                        assert forall|p: int| 0 <= p < 11 implies #[trigger] self@.height(is_monkey, p) == if p < pile_index + 1 {
                            snapshot_height(m, p)
                        } else {
                            0
                        } by {
                            if p != pile_index {
                                assert(self@.height(is_monkey, p) == before.height(is_monkey, p));
                            }
                        }
                        assert(found.insert(pile_index) =~= Set::new(
                            |k: u8| k < pile_index + 1 && m.contains_key(k),
                        ));
                        assert(!found.contains(pile_index));
                        found = found.insert(pile_index);
                        assert forall|k: u8, i: int|
                            #![trigger m[k]@[i]]
                            k < pile_index + 1 && m.contains_key(k) && 0 <= i < m[k]@.len()
                                implies parse_card(m[k]@[i]@) is Some by {
                            if k == pile_index {
                                assert(m[k]@[i] == cards@[i]);
                            }
                        }
                    }
                    found_count = found_count + 1;
                },
                None => {
                    proof {
                        assert(!m.contains_key(pile_index));
                        assert(found =~= Set::new(|k: u8| k < pile_index + 1 && m.contains_key(k)));
                    }
                },
            }
            pile_index = pile_index + 1;
        }
        let all_found = found_count == piles.len();
        proof {
            assert(found.subset_of(m.dom()));
            if all_found {
                vstd::set_lib::lemma_subset_equality(found, m.dom());
            } else {
                if forall|k: u8| #[trigger] m.contains_key(k) ==> k < 11 {
                    assert(found =~= m.dom());
                }
            }
            let hs = self@.heights(is_monkey);
            assert forall|p: int| 0 <= p < hs.len() implies #[trigger] hs[p] == snapshot_height(m, p) by {
                assert(self@.height(is_monkey, p) == snapshot_height(m, p));
            }
            lemma_snapshot_count_total(m, hs, 11);
            assert forall|p: int| 0 <= p < 11 implies #[trigger] hs[p] <= PILE_CAPACITY by {
                lemma_snapshot_prefix(m, p, 11);
                lemma_snapshot_nonneg(m, p);
                assert(hs[p] == snapshot_height(m, p));
            }
            let cs = self@.cards(is_monkey);
            if all_found {
                assert forall|p: int, i: int|
                    #![trigger cs[slot(p, i)]]
                    0 <= p < 11 && 0 <= i < 10 implies if i < hs[p] {
                    is_valid_card(cs[slot(p, i)])
                } else {
                    cs[slot(p, i)] == NULL
                } by {
                    if i < hs[p] {
                        assert(m.contains_key(p as u8));
                        let t = m[p as u8]@[i];
                        let c = parse_card(t@)->0;
                        assert(parse_card(t@) is Some);
                        assert(is_valid_card(c)) by {
                            lemma_parsed_valid(t@);
                        }
                    }
                }
            }
        }
        all_found
    }

    /// The board that a snapshot describes. A snapshot names piles 0 to 10
    /// only, and a team holds at most `TEAM_SIZE` (ten) cards in all, as in a
    /// game; any other snapshot, or a text that is no card's, is a
    /// `FormatError`.
    pub fn from_dto(board_dto: &BoardDto) -> (r: Result<Board, GameError>)
        ensures
            (r is Ok) == (team_snapshot_ok(board_dto.monkey@) && team_snapshot_ok(
                board_dto.wolf@,
            )),
            r is Err ==> r == Err::<Board, GameError>(GameError::FormatError),
            r is Ok ==> r->Ok_0@.wf() && board_matches(r->Ok_0@, true, board_dto.monkey@)
                && board_matches(r->Ok_0@, false, board_dto.wolf@),
    {
        let mut board = Board {
            monkey_cards: [NULL; 110],
            wolf_cards: [NULL; 110],
            monkey_heights: [0; 11],
            wolf_heights: [0; 11],
        };
        proof {
            assert forall|k: int| 0 <= k < 110 implies #[trigger] board@.cards(true)[k] == NULL by {
                assert(board.monkey_cards@[k] == NULL);
            }
            assert forall|k: int| 0 <= k < 110 implies #[trigger] board@.cards(false)[k] == NULL by {
                assert(board.wolf_cards@[k] == NULL);
            }
        }
        if !board.load_team(true, &board_dto.monkey) {
            return Err(GameError::FormatError);
        }
        let ghost after_monkey = board@;
        if !board.load_team(false, &board_dto.wolf) {
            return Err(GameError::FormatError);
        }
        proof {
            assert(board@.cards(true) == after_monkey.cards(true));
            assert(board@.heights(true) == after_monkey.heights(true));
            assert forall|p: int| 0 <= p < 11 implies #[trigger] board@.height(true, p)
                == snapshot_height(board_dto.monkey@, p) by {
                assert(after_monkey.height(true, p) == snapshot_height(board_dto.monkey@, p));
            }
            assert forall|p: int, i: int|
                0 <= p < 11 && 0 <= i < 10 implies #[trigger] board@.cards(true)[slot(p, i)] == if i
                < snapshot_height(board_dto.monkey@, p) {
                parse_card(board_dto.monkey@[p as u8]@[i]@)->0
            } else {
                NULL
            } by {
                assert(after_monkey.cards(true)[slot(p, i)] == board@.cards(true)[slot(p, i)]);
            }
            assert(board_matches(board@, true, board_dto.monkey@));
        }
        Ok(board)
    }
}

proof fn lemma_parsed_valid(s: Seq<char>)
    requires
        parse_card(s) is Some,
    ensures
        is_valid_card(parse_card(s)->0),
{
    let t = crate::cards::team_of_char(s[0])->0;
    let k = crate::cards::category_of_char(s[1])->0;
    let n = crate::cards::strength_of_char(s[2])->0;
    let c = parse_card(s)->0;
    assert(n <= 4);
    assert(c == 128u8 | t | k | n);
    assert((128u8 | t | k | n) >= 128 && ((128u8 | t | k | n) & 15) <= 4) by (bit_vector)
        requires
            n <= 4,
            t == 0 || t == 64,
            k == 0 || k == 16 || k == 32 || k == 48,
    ;
}

} // verus!
