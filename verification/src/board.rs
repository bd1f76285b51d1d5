//! Where things go on the board: grid lines, the ports of a gate, and the
//! labels of the board's own ports. Positions are in whole board units.

use vstd::prelude::*;
use crate::circuit::{BOARD_A, Circuit, row_starting};
use crate::components::Port;
use crate::gate::{GateIds, GateType, input_count};

verus! {

/// Distance between two grid lines.
pub const GRID_SPACING: i32 = 16;

/// Grid lines run from `-GRID_HALF_SIZE` to `GRID_HALF_SIZE`.
pub const GRID_HALF_SIZE: i32 = 2000;

/// Number of grid lines in each direction.
pub const GRID_LINE_COUNT: usize = 251;

/// The offsets at which grid lines are drawn, both across and up: every
/// `GRID_SPACING` units from `-GRID_HALF_SIZE` up to `GRID_HALF_SIZE`.
pub fn grid_lines() -> (lines: Vec<i32>)
    ensures
        lines@.len() == GRID_LINE_COUNT,
        forall|k: int| 0 <= k < lines@.len() ==> #[trigger] lines@[k] == -GRID_HALF_SIZE + GRID_SPACING * k,
        lines@[0] == -GRID_HALF_SIZE,
        lines@[lines@.len() - 1] == GRID_HALF_SIZE,
{
    let mut lines: Vec<i32> = Vec::new();
    let mut x: i32 = -GRID_HALF_SIZE;
    while x <= GRID_HALF_SIZE
        invariant
            x == -GRID_HALF_SIZE + GRID_SPACING * lines@.len(),
            lines@.len() <= GRID_LINE_COUNT,
            forall|k: int| 0 <= k < lines@.len() ==> #[trigger] lines@[k] == -GRID_HALF_SIZE + GRID_SPACING * k,
        decreases GRID_HALF_SIZE + GRID_SPACING - x,
    {
        lines.push(x);
        x = x + GRID_SPACING;
    }
    lines
}

/// A port of a gate, placed relative to its centre.
#[derive(Debug, Clone, Copy, PartialEq, Eq, Structural)]
pub struct PortPlacement {
    pub dx: i32,
    pub dy: i32,
    pub port: Port,
}

/// The ports of a gate: one input on the left for NOT, two inputs on the
/// left otherwise (upper one first), and one output on the right.
pub open spec fn gate_port_layout(kind: GateType, gate_id: i32) -> Seq<PortPlacement> {
    let output = PortPlacement { dx: 48, dy: 0, port: Port { is_output: true, port_id: 0, identifier: gate_id } };
    match kind {
        GateType::NOT => seq![
            PortPlacement { dx: -48i32, dy: 0, port: Port { is_output: false, port_id: 0, identifier: gate_id } },
            output,
        ],
        _ => seq![
            PortPlacement { dx: -48i32, dy: 16, port: Port { is_output: false, port_id: 0, identifier: gate_id } },
            PortPlacement { dx: -48i32, dy: -16i32, port: Port { is_output: false, port_id: 1, identifier: gate_id } },
            output,
        ],
    }
}

/// A gate gets one input port per input: NOT has one input and every other
/// kind two, and the layout lists that many input ports, numbered 0, 1, ...
/// on the left, then one output port on the right; every port carries `gate_id`.
pub proof fn law_one_port_per_input(kind: GateType, gate_id: i32)
    ensures
        input_count(kind) == (if kind == GateType::NOT { 1nat } else { 2nat }),
        gate_port_layout(kind, gate_id).len() == input_count(kind) + 1,
        forall|j: int| 0 <= j < input_count(kind) ==> {
            &&& !(#[trigger] gate_port_layout(kind, gate_id)[j]).port.is_output
            &&& gate_port_layout(kind, gate_id)[j].port.port_id == j
            &&& gate_port_layout(kind, gate_id)[j].dx == -48
        },
        gate_port_layout(kind, gate_id)[input_count(kind) as int].port.is_output,
        gate_port_layout(kind, gate_id)[input_count(kind) as int].port.port_id == 0,
        gate_port_layout(kind, gate_id)[input_count(kind) as int].dx == 48,
        forall|j: int| 0 <= j < gate_port_layout(kind, gate_id).len()
            ==> (#[trigger] gate_port_layout(kind, gate_id)[j]).port.identifier == gate_id,
{
}

/// A gate just placed on the board.
#[derive(Debug, Clone, PartialEq, Eq)]
pub struct SpawnedGate {
    pub gate_id: i32,
    pub ports: Vec<PortPlacement>,
}

/// Places a new gate of kind `gate_type` in `circuit` and lays out its ports.
pub fn handle_spawn_gate(circuit: &mut Circuit, gate_type: GateType, ids: &mut GateIds) -> (spawned: SpawnedGate)
    requires
        old(ids).upcoming() < i32::MAX,
    ensures
        spawned.gate_id == old(ids).upcoming(),
        spawned.ports@ == gate_port_layout(gate_type, spawned.gate_id),
        spawned.ports@.len() == final(circuit).gates@.last().input_states@.len() + 1,
        forall|j: int| 0 <= j < spawned.ports@.len() - 1 ==> {
            &&& !(#[trigger] spawned.ports@[j]).port.is_output
            &&& spawned.ports@[j].port.port_id == j
        },
        final(ids).upcoming() == old(ids).upcoming() + 1,
        final(circuit).gates@.len() == old(circuit).gates@.len() + 1,
        final(circuit).gates@.drop_last() == old(circuit).gates@,
        final(circuit).gates@.last().kind == gate_type,
        final(circuit).gates@.last().input_states@ == Seq::new(input_count(gate_type), |i: int| false),
        final(circuit).gates@.last().output == false,
        final(circuit).gates@.last().id == old(ids).upcoming(),
        final(circuit).rows() == old(circuit).rows().push(row_starting(Some(old(ids).upcoming() as usize))),
        final(circuit).num_inputs == old(circuit).num_inputs,
        old(circuit).well_formed() ==> final(circuit).well_formed(),
{
    circuit.add_gate(gate_type, ids);
    let gate_id = circuit.gates[circuit.gates.len() - 1].id;
    let mut ports: Vec<PortPlacement> = Vec::new();
    match gate_type {
        GateType::NOT => {
            ports.push(PortPlacement { dx: -48, dy: 0, port: Port { is_output: false, port_id: 0, identifier: gate_id } });
        },
        _ => {
            ports.push(PortPlacement { dx: -48, dy: 16, port: Port { is_output: false, port_id: 0, identifier: gate_id } });
            ports.push(PortPlacement { dx: -48, dy: -16, port: Port { is_output: false, port_id: 1, identifier: gate_id } });
        },
    }
    ports.push(PortPlacement { dx: 48, dy: 0, port: Port { is_output: true, port_id: 0, identifier: gate_id } });
    assert(ports@ =~= gate_port_layout(gate_type, gate_id));
    proof {
        law_one_port_per_input(gate_type, gate_id);
    }
    SpawnedGate { gate_id, ports }
}

/// The label drawn beside a port of the board.
#[derive(Debug, Clone, Copy, PartialEq, Eq, Structural)]
pub enum BoardLabel {
    A,
    B,
    F,
}

/// A port of the board and its label.
#[derive(Debug, Clone, Copy, PartialEq, Eq, Structural)]
pub struct BoardPort {
    pub port: Port,
    pub label: BoardLabel,
    /// Horizontal offset of the label from the port.
    pub label_dx: i32,
}

/// A port of the board with its label: the output with identifier `BOARD_A`
/// is `A` and any other output is `B`, both labelled on their left; an input
/// is `F`, labelled on its right.
pub fn spawn_board_port(is_output: bool, identifier: i32, port_id: i32) -> (bp: BoardPort)
    ensures
        bp.port == (Port { port_id, is_output, identifier }),
        bp.label == (if !is_output { BoardLabel::F } else if identifier == BOARD_A { BoardLabel::A } else { BoardLabel::B }),
        bp.label_dx == (if is_output { -32int } else { 32int }),
{
    let port = Port { port_id, is_output, identifier };
    if is_output {
        if identifier == 10000 {
            BoardPort { port, label: BoardLabel::A, label_dx: -32 }
        } else {
            BoardPort { port, label: BoardLabel::B, label_dx: -32 }
        }
    } else {
        BoardPort { port, label: BoardLabel::F, label_dx: 32 }
    }
}

} // verus!
