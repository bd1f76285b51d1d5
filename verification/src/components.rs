//! The pieces of board state that the input handling reads and updates.
//!
//! Entities of the game world are named by their 64-bit identifiers.

use vstd::prelude::*;

verus! {

/// A port on a gate or on the board.
#[derive(Debug, Clone, Copy, PartialEq, Eq, Structural)]
pub struct Port {
    /// 0 for the upper (or only) input and for the output, 1 for the lower input.
    pub port_id: i32,
    /// Whether this is an output port.
    pub is_output: bool,
    /// Identifier of its gate or board node the port belongs to.
    pub identifier: i32,
}

/// A wire drawn from an output port (`from`) to an input port (`to`).
#[derive(Debug, Clone, Copy, PartialEq, Eq, Structural)]
pub struct Wire {
    pub from: u64,
    pub to: u64,
}

/// Which input port the player has picked as the start of a new wire.
#[derive(Debug, Clone, Copy, PartialEq, Eq, Structural)]
pub struct ConnectionState {
    pub selected_input: Option<u64>,
    /// Set in the frame an input was picked, so that the same click does not also complete the wire.
    pub just_selected: bool,
}

impl Default for ConnectionState {
    fn default() -> (s: Self)
        ensures
            s.selected_input is None,
            !s.just_selected,
    {
        ConnectionState { selected_input: None, just_selected: false }
    }
}

/// The entity being dragged, if any.
#[derive(Debug, Clone, Copy, PartialEq, Eq, Structural)]
pub struct DragState {
    pub entity: Option<u64>,
}

impl Default for DragState {
    fn default() -> (s: Self)
        ensures
            s.entity is None,
    {
        DragState { entity: None }
    }
}

} // verus!
