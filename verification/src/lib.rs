//! A turn-based multiplayer Blackjack rules engine.
//!
//! The engine owns the deck, the dealer's and the players' hands, the turn
//! order, the bets and the payouts. Every operation is described by a pure
//! function on a mathematical picture of the table, and the executable code
//! is proved to compute exactly that function.
//!
//! - [`card`]: suits, ranks and cards.
//! - [`hand`]: hands, their scores, and the laws of scoring.
//! - [`deck`]: the deck, its shuffle and its deals.
//! - [`player`]: a player at the table.
//! - [`rules`]: the rules as functions on the picture of the table, and the
//!   laws of dealing, of the turn order and of the payouts.
//! - [`census`]: the law that cards only move.
//! - [`engine`]: the table as data and the commands that move it.

pub mod card;
pub mod census;
pub mod deck;
pub mod engine;
pub mod hand;
pub mod player;
pub mod rules;
