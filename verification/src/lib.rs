//! Planning core for a two-player growth game on a 37-cell hexagonal board.
//!
//! Every turn the engine lists each sequence of moves that can be made
//! before the day ends, simulates the state that each sequence leads to,
//! has these states ranked, and makes the first move of the best sequence.
//!
//! - [`board`], [`state`]: the cells, the units and the game state, with
//!   the conditions under which they are well formed.
//! - [`cost`], [`shadow`], [`income`]: the prices of the game, the shadows
//!   that units cast and the energy that they gather.
//! - [`reach`]: the cells on which a unit can plant.
//! - [`actions`]: the moves that are open in a state.
//! - [`simulate`]: the state that a move leads to.
//! - [`search`]: the plans for a day.
//! - [`driver`]: the choice of a move.
//! - [`order`], [`input`]: the text of an order and the values announced by
//!   the game.

pub mod actions;
pub mod board;
pub mod cost;
pub mod driver;
pub mod income;
pub mod input;
pub mod order;
pub mod reach;
pub mod search;
pub mod shadow;
pub mod simulate;
pub mod state;
