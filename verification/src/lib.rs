//! Exact bomb probabilities for a grid-based hidden-value digging game.
//!
//! A [`Field`] records what has been revealed of a rectangular grid that
//! hides a known number of bombs. After every change it recomputes, for each
//! cell that is still hidden, the exact probability that the cell holds a
//! bomb, by counting the bomb placements that agree with every revealed clue.
//!
//! The parts, from the ground up:
//!
//! - [`cell`]: the states of a cell, and probabilities as exact fractions;
//! - [`board`]: the mathematical model of a grid, in which all contracts
//!   are written;
//! - [`grid`]: the grid itself, with bounds-checked access, neighbours, the
//!   test of a placement against the clues, and the partition of the cells;
//! - [`binomial`] and [`selection`]: binomial coefficients and the ways to
//!   pick `k` items out of a list;
//! - [`tally`]: the count of placements over the touched cells;
//! - [`solve`]: from counts to estimates;
//! - [`field`]: the state of a game;
//! - [`reference`]: the count of placements the plain way, one by one;
//! - [`crosscheck`], [`mass`] and [`laws`]: what is proved of all this;
//! - [`command`]: the commands a player can type.

pub mod binomial;
pub mod board;
pub mod cell;
pub mod command;
pub mod crosscheck;
pub mod field;
pub mod grid;
pub mod laws;
pub mod mass;
pub mod reference;
pub mod selection;
pub mod solve;
pub mod tally;

pub use crate::cell::{Bucket, Cell, Probability};
pub use crate::command::{parse_command, Command};
pub use crate::field::{Field, SolveError};
pub use crate::grid::{Grid, Partition};
pub use crate::tally::Tally;
