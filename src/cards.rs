//! Bit-packed cards.
//!
//! A card is one byte: bit 7 marks a live card, bit 6 the team (clear for the
//! monkeys, set for the wolves), bits 4-5 the category (rock, paper, scissors,
//! joker) and bits 0-3 the strength. The all-zero byte is the empty slot.
use vstd::prelude::*;

verus! {

/// The empty slot.
pub const NULL: u8 = 0b0_0_00_0000;

pub const BIT_NON_NULL: u8 = 0b1_0_00_0000;
pub const BIT_TEAM_MONKEY: u8 = 0b0_0_00_0000;
pub const BIT_TEAM_WOLF: u8 = 0b0_1_00_0000;

pub const BITS_CATEGORY_ROCK: u8 = 0b0_0_00_0000;
pub const BITS_CATEGORY_PAPER: u8 = 0b0_0_01_0000;
pub const BITS_CATEGORY_SCISSORS: u8 = 0b0_0_10_0000;
pub const BITS_CATEGORY_JOKER: u8 = 0b0_0_11_0000;

pub const BITS_STRENGTH_0: u8 = 0b0_0_00_0000;
pub const BITS_STRENGTH_1: u8 = 0b0_0_00_0001;
pub const BITS_STRENGTH_2: u8 = 0b0_0_00_0010;
pub const BITS_STRENGTH_3: u8 = 0b0_0_00_0011;
pub const BITS_STRENGTH_4: u8 = 0b0_0_00_0100;

pub const MR1: u8 = 0b1_0_00_0001;
pub const MR2: u8 = 0b1_0_00_0010;
pub const MR3: u8 = 0b1_0_00_0011;
pub const MP1: u8 = 0b1_0_01_0001;
pub const MP2: u8 = 0b1_0_01_0010;
pub const MP3: u8 = 0b1_0_01_0011;
pub const MS1: u8 = 0b1_0_10_0001;
pub const MS2: u8 = 0b1_0_10_0010;
pub const MS3: u8 = 0b1_0_10_0011;
pub const MJ4: u8 = 0b1_0_11_0100;

pub const WR1: u8 = 0b1_1_00_0001;
pub const WR2: u8 = 0b1_1_00_0010;
pub const WR3: u8 = 0b1_1_00_0011;
pub const WP1: u8 = 0b1_1_01_0001;
pub const WP2: u8 = 0b1_1_01_0010;
pub const WP3: u8 = 0b1_1_01_0011;
pub const WS1: u8 = 0b1_1_10_0001;
pub const WS2: u8 = 0b1_1_10_0010;
pub const WS3: u8 = 0b1_1_10_0011;
pub const WJ4: u8 = 0b1_1_11_0100;

/// Masks that pick out one field of a card.
pub const CHECK_TEAM: u8 = 0b0_1_00_0000;
pub const CHECK_CATEGORY: u8 = 0b0_0_11_0000;
pub const CHECK_STRENGTH: u8 = 0b0_0_00_1111;

/// What can go wrong in the engine.
#[derive(Clone, Copy, Debug, PartialEq, Eq)]
pub enum GameError {
    /// Malformed card, category, team, strategy or snapshot text.
    FormatError,
    /// A card whose bits decode to no known card.
    InvariantViolation,
    /// A named card is not on the board.
    NotFound,
}

pub open spec fn team_bits(c: u8) -> u8 {
    c & CHECK_TEAM
}

pub open spec fn category_bits(c: u8) -> u8 {
    c & CHECK_CATEGORY
}

pub open spec fn strength_bits(c: u8) -> u8 {
    c & CHECK_STRENGTH
}

pub open spec fn is_joker(c: u8) -> bool {
    category_bits(c) == BITS_CATEGORY_JOKER
}

/// The live card of the given team bit and category bits with strength `s`.
pub open spec fn make_card(team: u8, category: u8, s: u8) -> u8 {
    BIT_NON_NULL | team | category | s
}

/// `c` with its strength replaced by `s`.
pub open spec fn with_strength(c: u8, s: u8) -> u8 {
    make_card(team_bits(c), category_bits(c), s)
}

/// A card that can stand on a board: live, with a strength of at most 4.
pub open spec fn is_valid_card(c: u8) -> bool {
    c >= BIT_NON_NULL && strength_bits(c) <= 4
}

pub proof fn lemma_with_strength(c: u8, s: u8)
    requires
        s <= 15,
    ensures
        team_bits(with_strength(c, s)) == team_bits(c),
        category_bits(with_strength(c, s)) == category_bits(c),
        strength_bits(with_strength(c, s)) == s,
        with_strength(c, s) >= BIT_NON_NULL,
        c >= BIT_NON_NULL && strength_bits(c) == s ==> with_strength(c, s) == c,
{
    assert(team_bits(with_strength(c, s)) == team_bits(c)) by (bit_vector)
        requires
            s <= 15,
    ;
    assert(category_bits(with_strength(c, s)) == category_bits(c)) by (bit_vector)
        requires
            s <= 15,
    ;
    assert(strength_bits(with_strength(c, s)) == s) by (bit_vector)
        requires
            s <= 15,
    ;
    assert(with_strength(c, s) >= BIT_NON_NULL) by (bit_vector);
    assert(c >= BIT_NON_NULL && strength_bits(c) == s ==> with_strength(c, s) == c)
        by (bit_vector);
}

/// The category bits have four values.
pub proof fn lemma_category_values(c: u8)
    ensures
        category_bits(c) == BITS_CATEGORY_ROCK || category_bits(c) == BITS_CATEGORY_PAPER
            || category_bits(c) == BITS_CATEGORY_SCISSORS || category_bits(c)
            == BITS_CATEGORY_JOKER,
        team_bits(c) == BIT_TEAM_MONKEY || team_bits(c) == BIT_TEAM_WOLF,
        strength_bits(c) <= 15,
{
    assert(category_bits(c) == 0 || category_bits(c) == 16 || category_bits(c) == 32
        || category_bits(c) == 48) by (bit_vector);
    assert(team_bits(c) == 0 || team_bits(c) == 64) by (bit_vector);
    assert(strength_bits(c) <= 15) by (bit_vector);
}

pub open spec fn team_char(c: u8) -> char {
    if team_bits(c) == BIT_TEAM_MONKEY {
        'M'
    } else {
        'W'
    }
}

pub open spec fn category_char(c: u8) -> char {
    if category_bits(c) == BITS_CATEGORY_ROCK {
        'R'
    } else if category_bits(c) == BITS_CATEGORY_PAPER {
        'P'
    } else if category_bits(c) == BITS_CATEGORY_SCISSORS {
        'S'
    } else {
        'J'
    }
}

pub open spec fn digit_char(d: u8) -> char {
    if d == 0 {
        '0'
    } else if d == 1 {
        '1'
    } else if d == 2 {
        '2'
    } else if d == 3 {
        '3'
    } else {
        '4'
    }
}

/// The three-character text of a card, such as `MR1` or `WJ4`.
pub open spec fn card_text(c: u8) -> Seq<char> {
    seq![team_char(c), category_char(c), digit_char(strength_bits(c))]
}

pub open spec fn team_of_char(ch: char) -> Option<u8> {
    if ch == 'M' {
        Some(BIT_TEAM_MONKEY)
    } else if ch == 'W' {
        Some(BIT_TEAM_WOLF)
    } else {
        None
    }
}

pub open spec fn category_of_char(ch: char) -> Option<u8> {
    if ch == 'R' {
        Some(BITS_CATEGORY_ROCK)
    } else if ch == 'P' {
        Some(BITS_CATEGORY_PAPER)
    } else if ch == 'S' {
        Some(BITS_CATEGORY_SCISSORS)
    } else if ch == 'J' {
        Some(BITS_CATEGORY_JOKER)
    } else {
        None
    }
}

pub open spec fn strength_of_char(ch: char) -> Option<u8> {
    if ch == '0' {
        Some(0u8)
    } else if ch == '1' {
        Some(1u8)
    } else if ch == '2' {
        Some(2u8)
    } else if ch == '3' {
        Some(3u8)
    } else if ch == '4' {
        Some(4u8)
    } else {
        None
    }
}

/// The card that a text names, if it names one.
pub open spec fn parse_card(s: Seq<char>) -> Option<u8> {
    if s.len() == 3 && team_of_char(s[0]) is Some && category_of_char(s[1]) is Some
        && strength_of_char(s[2]) is Some {
        Some(
            make_card(
                team_of_char(s[0])->0,
                category_of_char(s[1])->0,
                strength_of_char(s[2])->0,
            ),
        )
    } else {
        None
    }
}

fn team_from_char(ch: char) -> (r: Option<u8>)
    ensures
        r == team_of_char(ch),
{
    if ch == 'M' {
        Some(BIT_TEAM_MONKEY)
    } else if ch == 'W' {
        Some(BIT_TEAM_WOLF)
    } else {
        None
    }
}

fn category_from_char(ch: char) -> (r: Option<u8>)
    ensures
        r == category_of_char(ch),
{
    if ch == 'R' {
        Some(BITS_CATEGORY_ROCK)
    } else if ch == 'P' {
        Some(BITS_CATEGORY_PAPER)
    } else if ch == 'S' {
        Some(BITS_CATEGORY_SCISSORS)
    } else if ch == 'J' {
        Some(BITS_CATEGORY_JOKER)
    } else {
        None
    }
}

fn strength_from_char(ch: char) -> (r: Option<u8>)
    ensures
        r == strength_of_char(ch),
{
    if ch == '0' {
        Some(BITS_STRENGTH_0)
    } else if ch == '1' {
        Some(BITS_STRENGTH_1)
    } else if ch == '2' {
        Some(BITS_STRENGTH_2)
    } else if ch == '3' {
        Some(BITS_STRENGTH_3)
    } else if ch == '4' {
        Some(BITS_STRENGTH_4)
    } else {
        None
    }
}

/// Reads a card from its three-character text.
pub fn from_string(card_string: &String) -> (r: Result<u8, GameError>)
    ensures
        match parse_card(card_string@) {
            Some(c) => r == Ok::<u8, GameError>(c),
            None => r == Err::<u8, GameError>(GameError::FormatError),
        },
{
    let s = card_string.as_str();
    if s.unicode_len() != 3 {
        return Err(GameError::FormatError);
    }
    let team = team_from_char(s.get_char(0));
    let category = category_from_char(s.get_char(1));
    let strength = strength_from_char(s.get_char(2));
    match (team, category, strength) {
        (Some(t), Some(k), Some(n)) => Ok(BIT_NON_NULL | t | k | n),
        _ => Err(GameError::FormatError),
    }
}

/// Every valid card reads back from its text.
pub proof fn lemma_parse_card_text(c: u8)
    requires
        is_valid_card(c),
    ensures
        parse_card(card_text(c)) == Some(c),
{
    lemma_category_values(c);
    let s = card_text(c);
    let p = make_card(
        team_of_char(s[0])->0,
        category_of_char(s[1])->0,
        strength_of_char(s[2])->0,
    );
    assert(team_of_char(s[0]) == Some(team_bits(c)));
    assert(category_of_char(s[1]) == Some(category_bits(c)));
    assert(strength_of_char(s[2]) == Some(strength_bits(c)));
    assert(p == c) by (bit_vector)
        requires
            p == 128u8 | (c & 64) | (c & 48) | (c & 15),
            c >= 128,
    ;
}

/// Writes a card as its three-character text.
pub fn to_string(card_u8: u8) -> (r: Result<String, GameError>)
    ensures
        strength_bits(card_u8) <= 4 ==> r == Ok::<String, GameError>(r->Ok_0) && r->Ok_0@
            == card_text(card_u8),
        strength_bits(card_u8) > 4 ==> r == Err::<String, GameError>(
            GameError::InvariantViolation,
        ),
{
    proof {
        lemma_category_values(card_u8);
    }
    let strength = card_u8 & CHECK_STRENGTH;
    if strength > BITS_STRENGTH_4 {
        return Err(GameError::InvariantViolation);
    }
    let mut text = String::new();
    if card_u8 & CHECK_TEAM == BIT_TEAM_MONKEY {
        text.append("M");
    } else {
        text.append("W");
    }
    let category = card_u8 & CHECK_CATEGORY;
    if category == BITS_CATEGORY_ROCK {
        text.append("R");
    } else if category == BITS_CATEGORY_PAPER {
        text.append("P");
    } else if category == BITS_CATEGORY_SCISSORS {
        text.append("S");
    } else {
        text.append("J");
    }
    if strength == BITS_STRENGTH_0 {
        text.append("0");
    } else if strength == BITS_STRENGTH_1 {
        text.append("1");
    } else if strength == BITS_STRENGTH_2 {
        text.append("2");
    } else if strength == BITS_STRENGTH_3 {
        text.append("3");
    } else {
        text.append("4");
    }
    proof {
        reveal_strlit("M");
        reveal_strlit("W");
        reveal_strlit("R");
        reveal_strlit("P");
        reveal_strlit("S");
        reveal_strlit("J");
        reveal_strlit("0");
        reveal_strlit("1");
        reveal_strlit("2");
        reveal_strlit("3");
        reveal_strlit("4");
        assert(text@ =~= card_text(card_u8));
    }
    Ok(text)
}

} // verus!
