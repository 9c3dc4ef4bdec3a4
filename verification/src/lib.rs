//! Solver for the breach puzzle: a grid of codes, daemons to be found in it
//! and a buffer that bounds the number of moves.
//!
//! A move selects a cell, by its column in the row of the move before and by
//! its row in the column of the move before, turn by turn, and no cell twice.
//! The codes of the cells selected, in order, are to hold every daemon as a
//! contiguous run. [`solver::BreachSolver`] finds the move sequences that do
//! so; [`guarantees`] says what is proved of them.
//!
//! Beside the solver stand the rules that the scan of the screen and the
//! overlay rest on: [`codes`], [`layout`], [`bitmap`], [`messages`] and
//! [`render`].

pub mod bitmap;
pub mod codes;
pub mod configuration;
pub mod decimal;
pub mod enumeration;
pub mod guarantees;
pub mod layout;
pub mod matcher;
pub mod messages;
pub mod order;
pub mod path;
pub mod render;
pub mod search;
pub mod solver;
pub mod types;
pub mod utils;
