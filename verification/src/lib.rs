//! A minesweeper board engine with a small command parser.
//!
//! `field` owns the grid: mine placement, neighbor counting, the per-cell
//! state machine, the flood-fill reveal and the textual rendering.
//! `commands` turns one line of player input into a structured action.
//! A session loop around the library does the reading and printing.

pub mod commands;
pub mod field;
mod rng;
