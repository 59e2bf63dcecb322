//! Rules engine and move selection for a two-team, dice-driven card battle
//! between monkeys and wolves.
//!
//! - `cards`: the one-byte card encoding and its three-character text.
//! - `battle`: the outcome of one clash between two cards.
//! - `board`: the piles of both teams and moving a run of cards.
//! - `cascade`: the battles and pushbacks that a move sets off.
//! - `distinct`: boards whose cards are all different stay so.
//! - `moves`: every end-of-turn state that a turn's dice can reach.
//! - `metric`, `strategy`: ranking candidates and choosing one.
//! - `setup`, `dice`, `random`: the opening deal and the dice, drawn from a
//!   seeded generator.
//! - `dto`, `api`: board snapshots and turn requests as text.
//! - `game`: a whole game between two policies.
pub mod cards;
pub mod battle;
pub mod board;
pub mod cascade;
pub mod distinct;
pub mod moves;
pub mod random;
pub mod dice;
pub mod setup;
pub mod metric;
pub mod strategy;
pub mod dto;
pub mod api;
pub mod game;
