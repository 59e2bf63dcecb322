//! The opening layout of a game.
use vstd::prelude::*;
use rand::rngs::StdRng;
use crate::board::{Board, BoardModel, total};
use crate::cards::{
    MJ4, MP1, MP2, MP3, MR1, MR2, MR3, MS1, MS2, MS3, NULL, WJ4, WP1, WP2, WP3, WR1, WR2, WR3, WS1,
    WS2, WS3, is_joker, is_valid_card,
};
use crate::distinct::{distinct_board, distinct_cards};
use crate::random::shuffle_cards;

verus! {

/// The nine non-joker monkey cards.
pub open spec fn monkey_deck() -> Seq<u8> {
    seq![MR1, MR2, MR3, MP1, MP2, MP3, MS1, MS2, MS3]
}

/// The nine non-joker wolf cards.
pub open spec fn wolf_deck() -> Seq<u8> {
    seq![WR1, WR2, WR3, WP1, WP2, WP3, WS1, WS2, WS3]
}

/// The monkeys' opening layout with the dealt cards `d`: the joker at the
/// bottom of pile 0, then piles of 4, 3, 2 and 1 cards on piles 0 to 3.
pub open spec fn monkey_start(d: Seq<u8>) -> Seq<u8> {
    Seq::new(
        110,
        |k: int|
            if k == 0 {
                MJ4
            } else if 1 <= k <= 3 {
                d[k - 1]
            } else if 10 <= k <= 12 {
                d[k - 7]
            } else if 20 <= k <= 21 {
                d[k - 14]
            } else if k == 30 {
                d[8]
            } else {
                NULL
            },
    )
}

/// The wolves' opening layout with the dealt cards `d`: piles of 1, 2, 3 and
/// 4 cards on piles 7 to 10, the joker at the bottom of pile 10.
pub open spec fn wolf_start(d: Seq<u8>) -> Seq<u8> {
    Seq::new(
        110,
        |k: int|
            if k == 70 {
                d[0]
            } else if 80 <= k <= 81 {
                d[k - 79]
            } else if 90 <= k <= 92 {
                d[k - 87]
            } else if k == 100 {
                WJ4
            } else if 101 <= k <= 103 {
                d[k - 95]
            } else {
                NULL
            },
    )
}

pub open spec fn monkey_start_heights() -> Seq<u8> {
    seq![4u8, 3, 2, 1, 0, 0, 0, 0, 0, 0, 0]
}

pub open spec fn wolf_start_heights() -> Seq<u8> {
    seq![0u8, 0, 0, 0, 0, 0, 0, 1, 2, 3, 4]
}

/// An opening layout: each team's nine non-joker cards, in some order, dealt
/// beside its joker into its opening piles.
pub open spec fn is_opening(b: BoardModel) -> bool {
    &&& b.monkey_heights == monkey_start_heights()
    &&& b.wolf_heights == wolf_start_heights()
    &&& exists|d: Seq<u8>|
        d.to_multiset() == monkey_deck().to_multiset() && b.monkey_cards == monkey_start(d)
    &&& exists|d: Seq<u8>|
        d.to_multiset() == wolf_deck().to_multiset() && b.wolf_cards == wolf_start(d)
}

proof fn lemma_dealt_valid(d: Seq<u8>, deck: Seq<u8>)
    requires
        d.to_multiset() == deck.to_multiset(),
        deck == monkey_deck() || deck == wolf_deck(),
    ensures
        d.len() == 9,
        forall|i: int| 0 <= i < 9 ==> is_valid_card(#[trigger] d[i]),
{
    broadcast use vstd::seq_lib::group_to_multiset_ensures;

    d.to_multiset_ensures();
    deck.to_multiset_ensures();
    assert(d.len() == deck.len());
    assert forall|i: int| 0 <= i < 9 implies is_valid_card(#[trigger] d[i]) by {
        let c = d[i];
        assert(d.contains(c));
        assert(d.to_multiset().count(c) > 0);
        assert(deck.to_multiset().count(c) > 0);
        assert(deck.contains(c));
        assert(c == MR1 || c == MR2 || c == MR3 || c == MP1 || c == MP2 || c == MP3 || c == MS1
            || c == MS2 || c == MS3 || c == WR1 || c == WR2 || c == WR3 || c == WP1 || c == WP2
            || c == WP3 || c == WS1 || c == WS2 || c == WS3);
        assert(c == MR1 || c == MR2 || c == MR3 || c == MP1 || c == MP2 || c == MP3 || c == MS1
            || c == MS2 || c == MS3 || c == WR1 || c == WR2 || c == WR3 || c == WP1 || c == WP2
            || c == WP3 || c == WS1 || c == WS2 || c == WS3 ==> c >= 128 && c & 15 <= 4)
            by (bit_vector);
    }
}

proof fn lemma_dealt_distinct(d: Seq<u8>, deck: Seq<u8>)
    requires
        d.to_multiset() == deck.to_multiset(),
        deck == monkey_deck() || deck == wolf_deck(),
    ensures
        d.no_duplicates(),
        forall|i: int| 0 <= i < d.len() ==> !is_joker(#[trigger] d[i]),
{
    broadcast use vstd::multiset::group_multiset_axioms;

    assert(deck.no_duplicates());
    deck.lemma_multiset_has_no_duplicates();
    d.lemma_multiset_has_no_duplicates_conv();
    lemma_dealt_valid(d, deck);
    assert forall|i: int| 0 <= i < d.len() implies !is_joker(#[trigger] d[i]) by {
        d.to_multiset_ensures();
        deck.to_multiset_ensures();
        let c = d[i];
        assert(d.contains(c));
        assert(deck.to_multiset().count(c) > 0);
        assert(deck.contains(c));
        assert(c == MR1 || c == MR2 || c == MR3 || c == MP1 || c == MP2 || c == MP3 || c == MS1
            || c == MS2 || c == MS3 || c == WR1 || c == WR2 || c == WR3 || c == WP1 || c == WP2
            || c == WP3 || c == WS1 || c == WS2 || c == WS3);
        assert(c == MR1 || c == MR2 || c == MR3 || c == MP1 || c == MP2 || c == MP3 || c == MS1
            || c == MS2 || c == MS3 || c == WR1 || c == WR2 || c == WR3 || c == WP1 || c == WP2
            || c == WP3 || c == WS1 || c == WS2 || c == WS3 ==> c & 48 != 48) by (bit_vector);
    }
}

proof fn lemma_start_distinct(dm: Seq<u8>, dw: Seq<u8>)
    requires
        dm.to_multiset() == monkey_deck().to_multiset(),
        dw.to_multiset() == wolf_deck().to_multiset(),
    ensures
        distinct_cards(monkey_start(dm)),
        distinct_cards(wolf_start(dw)),
{
    lemma_dealt_distinct(dm, monkey_deck());
    lemma_dealt_distinct(dw, wolf_deck());
    lemma_dealt_valid(dm, monkey_deck());
    lemma_dealt_valid(dw, wolf_deck());
    assert(is_joker(MJ4) && is_joker(WJ4)) by (bit_vector);
    let cs = monkey_start(dm);
    assert forall|k1: int, k2: int|
        0 <= k1 < cs.len() && 0 <= k2 < cs.len() && k1 != k2 && cs[k1] != NULL && cs[k2] != NULL
            implies #[trigger] cs[k1] != #[trigger] cs[k2] && !(is_joker(cs[k1]) && is_joker(cs[k2])) by {
        let f = |k: int|
            if 1 <= k <= 3 {
                k - 1
            } else if 10 <= k <= 12 {
                k - 7
            } else if 20 <= k <= 21 {
                k - 14
            } else {
                8
            };
        if k1 != 0 && k2 != 0 {
            assert(cs[k1] == dm[f(k1)] && cs[k2] == dm[f(k2)]);
            assert(f(k1) != f(k2));
        }
    }
    let ws = wolf_start(dw);
    assert forall|k1: int, k2: int|
        0 <= k1 < ws.len() && 0 <= k2 < ws.len() && k1 != k2 && ws[k1] != NULL && ws[k2] != NULL
            implies #[trigger] ws[k1] != #[trigger] ws[k2] && !(is_joker(ws[k1]) && is_joker(ws[k2])) by {
        let f = |k: int|
            if k == 70 {
                0
            } else if 80 <= k <= 81 {
                k - 79
            } else if 90 <= k <= 92 {
                k - 87
            } else {
                k - 95
            };
        if k1 != 100 && k2 != 100 {
            assert(ws[k1] == dw[f(k1)] && ws[k2] == dw[f(k2)]);
            assert(f(k1) != f(k2));
        }
    }
}

impl Board {
    /// A new game: each team's nine non-joker cards shuffled with `rng` and
    /// dealt into its opening piles beside its joker.
    pub fn new(rng: &mut StdRng) -> (r: Board)
        ensures
            r@.wf(),
            distinct_board(r@),
            is_opening(r@),
    {
        let mut monkey: [u8; 9] = [MR1, MR2, MR3, MP1, MP2, MP3, MS1, MS2, MS3];
        let mut wolf: [u8; 9] = [WR1, WR2, WR3, WP1, WP2, WP3, WS1, WS2, WS3];
        proof {
            assert(monkey@ =~= monkey_deck());
            assert(wolf@ =~= wolf_deck());
        }
        shuffle_cards(&mut monkey, rng);
        shuffle_cards(&mut wolf, rng);
        let mut monkey_cards: [u8; 110] = [NULL; 110];
        monkey_cards[0] = MJ4;
        monkey_cards[1] = monkey[0];
        monkey_cards[2] = monkey[1];
        monkey_cards[3] = monkey[2];
        monkey_cards[10] = monkey[3];
        monkey_cards[11] = monkey[4];
        monkey_cards[12] = monkey[5];
        monkey_cards[20] = monkey[6];
        monkey_cards[21] = monkey[7];
        monkey_cards[30] = monkey[8];
        let mut wolf_cards: [u8; 110] = [NULL; 110];
        wolf_cards[70] = wolf[0];
        wolf_cards[80] = wolf[1];
        wolf_cards[81] = wolf[2];
        wolf_cards[90] = wolf[3];
        wolf_cards[91] = wolf[4];
        wolf_cards[92] = wolf[5];
        wolf_cards[100] = WJ4;
        wolf_cards[101] = wolf[6];
        wolf_cards[102] = wolf[7];
        wolf_cards[103] = wolf[8];
        let board = Board {
            monkey_cards,
            wolf_cards,
            monkey_heights: [4, 3, 2, 1, 0, 0, 0, 0, 0, 0, 0],
            wolf_heights: [0, 0, 0, 0, 0, 0, 0, 1, 2, 3, 4],
        };
        proof {
            lemma_dealt_valid(monkey@, monkey_deck());
            lemma_dealt_valid(wolf@, wolf_deck());
            lemma_start_distinct(monkey@, wolf@);
            assert(board.monkey_cards@ =~= monkey_start(monkey@));
            assert(board.wolf_cards@ =~= wolf_start(wolf@));
            assert(board.monkey_heights@ =~= monkey_start_heights());
            assert(board.wolf_heights@ =~= wolf_start_heights());
            reveal_with_fuel(total, 12);
            assert(is_valid_card(MJ4) && is_valid_card(WJ4)) by (bit_vector);
            assert(total(board.monkey_heights@, 11) == 10);
            assert(total(board.wolf_heights@, 11) == 10);
        }
        board
    }
}

} // verus!
