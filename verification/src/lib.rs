//! Ferroforge: the logic behind a point-and-click circuit puzzle game.
//!
//! The player places logic gates on a board and wires them together; the
//! library keeps the gates and their wiring graph and answers whether the
//! board's output is wired back to its input.

pub mod gate;
pub mod circuit;
pub mod laws;
pub mod components;
pub mod controls;
pub mod menu;
pub mod board;
