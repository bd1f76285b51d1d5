//! What a click, a drag or a frame does to the board.
//!
//! The caller measures where the cursor is and hands over, for each entity it
//! considers, whether the cursor is on it; these functions decide what
//! happens and update the board state accordingly.

use vstd::prelude::*;
use crate::circuit::{Circuit, connect_rows, remove_gate_from, remove_node_rows};
use crate::components::{ConnectionState, DragState, Port, Wire};

verus! {

/// A port, and whether the cursor is on it.
#[derive(Debug, Clone, Copy, PartialEq, Eq, Structural)]
pub struct PortHit {
    pub entity: u64,
    pub port: Port,
    pub near: bool,
}

/// A gate on the board, and whether the cursor is on it.
#[derive(Debug, Clone, Copy, PartialEq, Eq, Structural)]
pub struct GateHit {
    pub entity: u64,
    pub gate_id: i32,
    pub near: bool,
}

/// A draggable entity, and whether the cursor is on it.
#[derive(Debug, Clone, Copy, PartialEq, Eq, Structural)]
pub struct DragHit {
    pub entity: u64,
    pub near: bool,
}

/// A wire entity and the ports it joins.
#[derive(Debug, Clone, Copy, PartialEq, Eq, Structural)]
pub struct WireEntry {
    pub entity: u64,
    pub wire: Wire,
}

// ----- picking an input port -----

/// The cursor is on an input port.
pub open spec fn is_input_under_cursor(h: PortHit) -> bool {
    h.near && !h.port.is_output
}

/// Port `k` is the first input port under the cursor.
pub open spec fn is_first_input_under_cursor(hits: Seq<PortHit>, k: int) -> bool {
    &&& 0 <= k < hits.len()
    &&& is_input_under_cursor(hits[k])
    &&& forall|m: int| 0 <= m < k ==> !is_input_under_cursor(#[trigger] hits[m])
}

/// The connection state after a click that may pick an input port.
pub open spec fn after_select_input(
    state: ConnectionState,
    left_just_pressed: bool,
    cursor_found: bool,
    hits: Seq<PortHit>,
) -> ConnectionState {
    if left_just_pressed && state.selected_input is None && cursor_found
        && exists|k: int| #[trigger] is_first_input_under_cursor(hits, k) {
        let k = choose|k: int| #[trigger] is_first_input_under_cursor(hits, k);
        ConnectionState { selected_input: Some(hits[k].entity), just_selected: true }
    } else {
        state
    }
}

/// A left click with no input picked yet picks the first input port under the cursor.
pub fn select_input_port(
    state: &mut ConnectionState,
    left_just_pressed: bool,
    cursor_found: bool,
    ports: &Vec<PortHit>,
)
    ensures
        *final(state) == after_select_input(*old(state), left_just_pressed, cursor_found, ports@),
        final(state).selected_input != old(state).selected_input ==> exists|k: int|
            0 <= k < ports@.len() && #[trigger] ports@[k].entity == final(state).selected_input->0
                && !ports@[k].port.is_output && ports@[k].near,
        (left_just_pressed && old(state).selected_input is None && cursor_found
            && exists|k: int| 0 <= k < ports@.len() && (#[trigger] ports@[k]).near && !ports@[k].port.is_output)
            ==> final(state).selected_input is Some && final(state).just_selected,
{
    proof {
        law_any_input_under_cursor_is_picked(ports@);
    }
    if !left_just_pressed {
        return;
    }
    if state.selected_input.is_some() {
        return;
    }
    if !cursor_found {
        return;
    }
    let mut k: usize = 0;
    while k < ports.len()
        invariant
            k <= ports@.len(),
            *state == *old(state),
            left_just_pressed && cursor_found && old(state).selected_input is None,
            forall|m: int| 0 <= m < k ==> !is_input_under_cursor(#[trigger] ports@[m]),
        decreases ports@.len() - k,
    {
        let hit = ports[k];
        if hit.near && !hit.port.is_output {
            proof {
                assert(is_first_input_under_cursor(ports@, k as int));
                assert forall|m: int| #[trigger] is_first_input_under_cursor(ports@, m) implies m == k by {
                    if m < k {
                        assert(!is_input_under_cursor(ports@[m]));
                    } else if k < m {
                        assert(!is_input_under_cursor(ports@[k as int]));
                    }
                }
            }
            state.selected_input = Some(hit.entity);
            state.just_selected = true;
            return;
        }
        k = k + 1;
    }
    assert forall|m: int| !#[trigger] is_first_input_under_cursor(ports@, m) by {
        if 0 <= m < ports@.len() {
            assert(!is_input_under_cursor(ports@[m]));
        }
    }
}

// ----- completing a wire -----

/// The cursor is on an output port of another gate than the picked input's.
pub open spec fn is_wiring_target(h: PortHit, input: u64, input_port: Port) -> bool {
    h.entity != input && h.near && h.port.is_output && h.port.identifier != input_port.identifier
}

/// Port `k` is the first output port that the picked input can be wired to.
pub open spec fn is_first_wiring_target(hits: Seq<PortHit>, input: u64, input_port: Port, k: int) -> bool {
    &&& 0 <= k < hits.len()
    &&& is_wiring_target(hits[k], input, input_port)
    &&& forall|m: int| 0 <= m < k ==> !is_wiring_target(#[trigger] hits[m], input, input_port)
}

/// Some output port can be wired to the picked input.
pub open spec fn has_wiring_target(hits: Seq<PortHit>, input: u64, input_port: Port) -> bool {
    exists|k: int| #[trigger] is_first_wiring_target(hits, input, input_port, k)
}

/// The click goes on to look for an output port: the button went down, an
/// input is picked and was not picked by this very click, no wire ends at it
/// yet, and the cursor is on the board.
pub open spec fn looks_for_output(
    state: ConnectionState,
    left_just_pressed: bool,
    wire_targets: Seq<u64>,
    cursor_found: bool,
) -> bool {
    &&& left_just_pressed
    &&& state.selected_input is Some
    &&& !state.just_selected
    &&& !wire_targets.contains(state.selected_input->0)
    &&& cursor_found
}

/// The connection state after a click that may complete a wire.
pub open spec fn after_connect(
    state: ConnectionState,
    left_just_pressed: bool,
    wire_targets: Seq<u64>,
    cursor_found: bool,
) -> ConnectionState {
    if !left_just_pressed || state.selected_input is None {
        state
    } else if state.just_selected {
        ConnectionState { selected_input: state.selected_input, just_selected: false }
    } else if !wire_targets.contains(state.selected_input->0) && !cursor_found {
        state
    } else {
        ConnectionState { selected_input: None, just_selected: false }
    }
}

/// A left click with an input picked completes a wire from the first output
/// port under the cursor that belongs to another gate, wiring that gate into
/// the input's gate in `circuit`; an input that already has a wire is
/// refused. Returns the wire to draw, if any.
pub fn connect_to_output(
    state: &mut ConnectionState,
    circuit: &mut Circuit,
    left_just_pressed: bool,
    wire_targets: &Vec<u64>,
    cursor_found: bool,
    ports: &Vec<PortHit>,
    input_port: Option<Port>,
) -> (wire: Option<Wire>)
    requires
        old(circuit).well_formed(),
    ensures
        *final(state) == after_connect(*old(state), left_just_pressed, wire_targets@, cursor_found),
        final(circuit).gates == old(circuit).gates,
        final(circuit).num_inputs == old(circuit).num_inputs,
        final(circuit).well_formed(),
        wire matches Some(w) ==> {
            &&& w.to == old(state).selected_input->0
            &&& w.from != w.to
            &&& exists|k: int|
                0 <= k < ports@.len() && #[trigger] ports@[k].entity == w.from && ports@[k].port.is_output
                    && ports@[k].port.identifier != (input_port->0).identifier
        },
        ({
            let input = old(state).selected_input->0;
            let ip = input_port->0;
            if looks_for_output(*old(state), left_just_pressed, wire_targets@, cursor_found)
                && input_port is Some && has_wiring_target(ports@, input, ip) {
                let k = choose|k: int| #[trigger] is_first_wiring_target(ports@, input, ip, k);
                &&& wire == Some(Wire { from: ports@[k].entity, to: input })
                &&& final(circuit).rows() == connect_rows(
                    old(circuit).rows(),
                    ip.identifier as usize,
                    ports@[k].port.identifier as usize,
                )
            } else {
                &&& wire is None
                &&& final(circuit).rows() == old(circuit).rows()
            }
        }),
        (left_just_pressed && old(state).selected_input is Some && !old(state).just_selected
            && !wire_targets@.contains(old(state).selected_input->0) && cursor_found && input_port is Some
            && exists|k: int| 0 <= k < ports@.len() && (#[trigger] ports@[k]).entity != old(state).selected_input->0
                && ports@[k].near && ports@[k].port.is_output
                && ports@[k].port.identifier != (input_port->0).identifier)
            ==> wire is Some,
{
    proof {
        law_any_other_gate_output_is_wired(ports@, old(state).selected_input->0, input_port->0);
    }
    if !left_just_pressed {
        return None;
    }
    if state.selected_input.is_none() {
        return None;
    }
    if state.just_selected {
        state.just_selected = false;
        return None;
    }
    let input_entity = state.selected_input.unwrap();
    if contains_entity(wire_targets, input_entity) {
        state.selected_input = None;
        return None;
    }
    if !cursor_found {
        return None;
    }
    let mut k: usize = 0;
    while k < ports.len()
        invariant
            k <= ports@.len(),
            input_entity == old(state).selected_input->0,
            looks_for_output(*old(state), left_just_pressed, wire_targets@, cursor_found),
            *state == *old(state),
            *circuit == *old(circuit),
            circuit.well_formed(),
            forall|q: int| 0 <= q < k ==> (#[trigger] ports@[q]).entity == input_entity
                || (input_port is Some && !is_wiring_target(ports@[q], input_entity, input_port->0)),
        decreases ports@.len() - k,
    {
        let hit = ports[k];
        if hit.entity == input_entity {
            k = k + 1;
            continue;
        }
        let ip = match input_port {
            Some(p) => p,
            None => {
                state.selected_input = None;
                return None;
            },
        };
        if hit.near && hit.port.is_output && hit.port.identifier != ip.identifier {
            proof {
                assert(is_first_wiring_target(ports@, input_entity, ip, k as int));
                assert forall|q: int| #[trigger] is_first_wiring_target(ports@, input_entity, ip, q) implies q == k by {
                    if q < k {
                        assert(!is_wiring_target(ports@[q], input_entity, ip));
                    } else if k < q {
                        assert(!is_wiring_target(ports@[k as int], input_entity, ip));
                    }
                }
            }
            let input_id = ip.identifier as usize;
            let output_id = hit.port.identifier as usize;
            circuit.connect_gates(input_id, output_id);
            state.selected_input = None;
            return Some(Wire { from: hit.entity, to: input_entity });
        }
        k = k + 1;
    }
    proof {
        if let Some(ip) = input_port {
            assert forall|q: int| !#[trigger] is_first_wiring_target(ports@, input_entity, ip, q) by {
                if 0 <= q < ports@.len() {
                    assert(ports@[q].entity == input_entity || !is_wiring_target(ports@[q], input_entity, ip));
                }
            }
        }
    }
    state.selected_input = None;
    None
}

// ----- deleting a gate -----

/// Gate `k` is the first gate under the cursor.
pub open spec fn is_first_gate_under_cursor(hits: Seq<GateHit>, k: int) -> bool {
    &&& 0 <= k < hits.len()
    &&& hits[k].near
    &&& forall|m: int| 0 <= m < k ==> !(#[trigger] hits[m]).near
}

/// A port entity and the port it is.
#[derive(Debug, Clone, Copy, PartialEq, Eq, Structural)]
pub struct PortEntry {
    pub entity: u64,
    pub port: Port,
}

/// Entity `entity` is a port of gate `gate_id`.
pub open spec fn is_port_of_gate(ports: Seq<PortEntry>, entity: u64, gate_id: i32) -> bool {
    exists|k: int| 0 <= k < ports.len() && (#[trigger] ports[k]).entity == entity && ports[k].port.identifier == gate_id
}

/// The wire starts or ends at a port of gate `gate_id`.
pub open spec fn touches_gate(w: WireEntry, ports: Seq<PortEntry>, gate_id: i32) -> bool {
    is_port_of_gate(ports, w.wire.from, gate_id) || is_port_of_gate(ports, w.wire.to, gate_id)
}

/// The entities of the wires connected to gate `gate_id`, in order.
pub open spec fn wires_of_gate(wires: Seq<WireEntry>, ports: Seq<PortEntry>, gate_id: i32) -> Seq<u64>
    decreases wires.len(),
{
    if wires.len() == 0 {
        Seq::empty()
    } else {
        wires_of_gate(wires.drop_last(), ports, gate_id) + if touches_gate(wires.last(), ports, gate_id) {
            seq![wires.last().entity]
        } else {
            Seq::empty()
        }
    }
}

/// What a right click takes off the board: a gate and the wires connected to it.
#[derive(Debug, Clone, PartialEq, Eq)]
pub struct Deletion {
    pub gate: u64,
    pub wires: Vec<u64>,
}

/// A right click deletes the first gate under the cursor together with its
/// connected wires: that gate leaves `circuit`, and its entity and the
/// entities of the wires that start or end at one of its ports are returned
/// so that they can be despawned. Only one gate goes per click.
pub fn delete_on_right_click(
    circuit: &mut Circuit,
    right_just_pressed: bool,
    cursor_found: bool,
    gates: &Vec<GateHit>,
    ports: &Vec<PortEntry>,
    wires: &Vec<WireEntry>,
) -> (deleted: Option<Deletion>)
    requires
        old(circuit).well_formed(),
    ensures
        final(circuit).num_inputs == old(circuit).num_inputs,
        final(circuit).well_formed(),
        if right_just_pressed && cursor_found && exists|k: int| #[trigger] is_first_gate_under_cursor(gates@, k) {
            let k = choose|k: int| #[trigger] is_first_gate_under_cursor(gates@, k);
            &&& deleted is Some
            &&& deleted->0.gate == gates@[k].entity
            &&& deleted->0.wires@ == wires_of_gate(wires@, ports@, gates@[k].gate_id)
            &&& final(circuit).gates@ == remove_gate_from(old(circuit).gates@, gates@[k].gate_id)
            &&& final(circuit).rows() == remove_node_rows(old(circuit).rows(), gates@[k].gate_id as usize)
        } else {
            &&& deleted is None
            &&& *final(circuit) == *old(circuit)
        },
        (right_just_pressed && cursor_found && exists|k: int| 0 <= k < gates@.len() && (#[trigger] gates@[k]).near)
            ==> deleted is Some,
{
    proof {
        law_any_gate_under_cursor_is_deleted(gates@);
    }
    if !right_just_pressed {
        return None;
    }
    if !cursor_found {
        return None;
    }
    let mut k: usize = 0;
    while k < gates.len()
        invariant
            k <= gates@.len(),
            right_just_pressed && cursor_found,
            *circuit == *old(circuit),
            circuit.well_formed(),
            forall|m: int| 0 <= m < k ==> !(#[trigger] gates@[m]).near,
        decreases gates@.len() - k,
    {
        let hit = gates[k];
        if hit.near {
            proof {
                assert(is_first_gate_under_cursor(gates@, k as int));
                assert forall|m: int| #[trigger] is_first_gate_under_cursor(gates@, m) implies m == k by {
                    if m < k {
                        assert(!gates@[m].near);
                    } else if k < m {
                        assert(!gates@[k as int].near);
                    }
                }
            }
            circuit.remove_gate(hit.gate_id);
            let connected = connected_wires(wires, ports, hit.gate_id);
            return Some(Deletion { gate: hit.entity, wires: connected });
        }
        k = k + 1;
    }
    assert forall|m: int| !#[trigger] is_first_gate_under_cursor(gates@, m) by {
        if 0 <= m < gates@.len() {
            assert(!gates@[m].near);
        }
    }
    None
}

/// Whether `entity` is a port of gate `gate_id`.
fn port_of_gate(ports: &Vec<PortEntry>, entity: u64, gate_id: i32) -> (b: bool)
    ensures
        b == is_port_of_gate(ports@, entity, gate_id),
{
    let mut k: usize = 0;
    while k < ports.len()
        invariant
            k <= ports@.len(),
            forall|m: int| 0 <= m < k ==> !((#[trigger] ports@[m]).entity == entity && ports@[m].port.identifier == gate_id),
        decreases ports@.len() - k,
    {
        let p = ports[k];
        if p.entity == entity && p.port.identifier == gate_id {
            assert(ports@[k as int] == p);
            return true;
        }
        k = k + 1;
    }
    false
}

/// The wires that start or end at a port of gate `gate_id`, in order.
fn connected_wires(wires: &Vec<WireEntry>, ports: &Vec<PortEntry>, gate_id: i32) -> (out: Vec<u64>)
    ensures
        out@ == wires_of_gate(wires@, ports@, gate_id),
{
    let mut out: Vec<u64> = Vec::new();
    let mut k: usize = 0;
    while k < wires.len()
        invariant
            k <= wires@.len(),
            out@ == wires_of_gate(wires@.take(k as int), ports@, gate_id),
        decreases wires@.len() - k,
    {
        let entry = wires[k];
        let from_here = port_of_gate(ports, entry.wire.from, gate_id);
        let to_here = port_of_gate(ports, entry.wire.to, gate_id);
        assert(wires@.take(k + 1).drop_last() =~= wires@.take(k as int));
        assert(wires@.take(k + 1).last() == entry);
        if from_here || to_here {
            out.push(entry.entity);
        }
        k = k + 1;
    }
    assert(wires@.take(wires@.len() as int) =~= wires@);
    out
}

// ----- dragging -----

/// Entity `k` is the first draggable entity under the cursor.
pub open spec fn is_first_drag_under_cursor(hits: Seq<DragHit>, k: int) -> bool {
    &&& 0 <= k < hits.len()
    &&& hits[k].near
    &&& forall|m: int| 0 <= m < k ==> !(#[trigger] hits[m]).near
}

/// A left click starts dragging the first draggable entity under the cursor;
/// with nothing under it the drag state stays as it was.
pub fn start_drag_system(
    drag_state: &mut DragState,
    left_just_pressed: bool,
    cursor_found: bool,
    targets: &Vec<DragHit>,
)
    ensures
        if left_just_pressed && cursor_found && exists|k: int| #[trigger] is_first_drag_under_cursor(targets@, k) {
            let k = choose|k: int| #[trigger] is_first_drag_under_cursor(targets@, k);
            final(drag_state).entity == Some(targets@[k].entity)
        } else {
            *final(drag_state) == *old(drag_state)
        },
        (left_just_pressed && cursor_found && exists|k: int| 0 <= k < targets@.len() && (#[trigger] targets@[k]).near)
            ==> final(drag_state).entity is Some,
{
    proof {
        law_any_draggable_under_cursor_is_dragged(targets@);
    }
    if !left_just_pressed {
        return;
    }
    if !cursor_found {
        return;
    }
    let mut k: usize = 0;
    while k < targets.len()
        invariant
            k <= targets@.len(),
            left_just_pressed && cursor_found,
            *drag_state == *old(drag_state),
            forall|m: int| 0 <= m < k ==> !(#[trigger] targets@[m]).near,
        decreases targets@.len() - k,
    {
        let hit = targets[k];
        if hit.near {
            proof {
                assert(is_first_drag_under_cursor(targets@, k as int));
                assert forall|m: int| #[trigger] is_first_drag_under_cursor(targets@, m) implies m == k by {
                    if m < k {
                        assert(!targets@[m].near);
                    } else if k < m {
                        assert(!targets@[k as int].near);
                    }
                }
            }
            drag_state.entity = Some(hit.entity);
            return;
        }
        k = k + 1;
    }
    assert forall|m: int| !#[trigger] is_first_drag_under_cursor(targets@, m) by {
        if 0 <= m < targets@.len() {
            assert(!targets@[m].near);
        }
    }
}

/// The entity to move to the cursor this frame: the dragged one, while the
/// left button is held and the cursor is on the board.
pub fn drag_system(drag_state: &DragState, left_pressed: bool, cursor_found: bool) -> (moved: Option<u64>)
    ensures
        moved == (if left_pressed && cursor_found { drag_state.entity } else { None }),
{
    let entity = match drag_state.entity {
        Some(e) => e,
        None => return None,
    };
    if !left_pressed {
        return None;
    }
    if !cursor_found {
        return None;
    }
    Some(entity)
}

/// Releasing the left button ends any drag.
pub fn end_drag_system(drag_state: &mut DragState, left_just_released: bool)
    ensures
        *final(drag_state) == (if left_just_released { DragState { entity: None } } else { *old(drag_state) }),
{
    if left_just_released {
        drag_state.entity = None;
    }
}

// ----- dropping dangling wires -----

/// A wire is dangling when one of its ports is gone.
pub open spec fn is_dangling(w: WireEntry, alive_ports: Seq<u64>) -> bool {
    !alive_ports.contains(w.wire.from) || !alive_ports.contains(w.wire.to)
}

/// The entities of the dangling wires, in order.
pub open spec fn dangling_wires(wires: Seq<WireEntry>, alive_ports: Seq<u64>) -> Seq<u64>
    decreases wires.len(),
{
    if wires.len() == 0 {
        Seq::empty()
    } else {
        dangling_wires(wires.drop_last(), alive_ports) + if is_dangling(wires.last(), alive_ports) {
            seq![wires.last().entity]
        } else {
            Seq::empty()
        }
    }
}

/// The wires to despawn this frame: those whose start or end port no longer exists.
pub fn cleanup_wires(wires: &Vec<WireEntry>, alive_ports: &Vec<u64>) -> (dead: Vec<u64>)
    ensures
        dead@ == dangling_wires(wires@, alive_ports@),
{
    let mut dead: Vec<u64> = Vec::new();
    let mut k: usize = 0;
    while k < wires.len()
        invariant
            k <= wires@.len(),
            dead@ == dangling_wires(wires@.take(k as int), alive_ports@),
        decreases wires@.len() - k,
    {
        let entry = wires[k];
        let from_alive = contains_entity(alive_ports, entry.wire.from);
        let to_alive = contains_entity(alive_ports, entry.wire.to);
        assert(wires@.take(k + 1).drop_last() =~= wires@.take(k as int));
        assert(wires@.take(k + 1).last() == entry);
        if !from_alive || !to_alive {
            dead.push(entry.entity);
        }
        k = k + 1;
    }
    assert(wires@.take(wires@.len() as int) =~= wires@);
    dead
}

// ----- laws -----

/// A click picks an input port exactly when some input port, of whatever
/// number, is under the cursor, and the one it picks is the first of them.
pub proof fn law_any_input_under_cursor_is_picked(hits: Seq<PortHit>)
    ensures
        (exists|k: int| #[trigger] is_first_input_under_cursor(hits, k))
            <==> exists|k: int| 0 <= k < hits.len() && (#[trigger] hits[k]).near && !hits[k].port.is_output,
        forall|k: int| #[trigger] is_first_input_under_cursor(hits, k) ==> {
            &&& 0 <= k < hits.len()
            &&& hits[k].near
            &&& !hits[k].port.is_output
            &&& forall|m: int| 0 <= m < k ==> !((#[trigger] hits[m]).near && !hits[m].port.is_output)
        },
{
    if exists|k: int| 0 <= k < hits.len() && (#[trigger] hits[k]).near && !hits[k].port.is_output {
        let k = choose|k: int| 0 <= k < hits.len() && (#[trigger] hits[k]).near && !hits[k].port.is_output;
        lemma_first_input_exists(hits, k);
    }
}

proof fn lemma_first_input_exists(hits: Seq<PortHit>, k: int)
    requires
        0 <= k < hits.len(),
        hits[k].near && !hits[k].port.is_output,
    ensures
        exists|f: int| #[trigger] is_first_input_under_cursor(hits, f),
    decreases k,
{
    if exists|m: int| 0 <= m < k && (#[trigger] hits[m]).near && !hits[m].port.is_output {
        let m = choose|m: int| 0 <= m < k && (#[trigger] hits[m]).near && !hits[m].port.is_output;
        lemma_first_input_exists(hits, m);
    } else {
        assert(is_first_input_under_cursor(hits, k));
    }
}

/// A click with an input picked finds an output to wire exactly when some
/// port under the cursor, other than the input itself, is an output of a
/// gate other than the input's, however the two gates' identifiers compare;
/// the one it takes is the first of them.
pub proof fn law_any_other_gate_output_is_wired(hits: Seq<PortHit>, input: u64, ip: Port)
    ensures
        has_wiring_target(hits, input, ip) <==> exists|k: int|
            0 <= k < hits.len() && (#[trigger] hits[k]).entity != input && hits[k].near && hits[k].port.is_output
                && hits[k].port.identifier != ip.identifier,
        forall|k: int| #[trigger] is_first_wiring_target(hits, input, ip, k) ==> {
            &&& 0 <= k < hits.len()
            &&& hits[k].entity != input
            &&& hits[k].near
            &&& hits[k].port.is_output
            &&& hits[k].port.identifier != ip.identifier
            &&& forall|m: int| 0 <= m < k ==> !((#[trigger] hits[m]).entity != input && hits[m].near
                && hits[m].port.is_output && hits[m].port.identifier != ip.identifier)
        },
{
    if exists|k: int| 0 <= k < hits.len() && (#[trigger] hits[k]).entity != input && hits[k].near
        && hits[k].port.is_output && hits[k].port.identifier != ip.identifier {
        let k = choose|k: int| 0 <= k < hits.len() && (#[trigger] hits[k]).entity != input && hits[k].near
            && hits[k].port.is_output && hits[k].port.identifier != ip.identifier;
        lemma_first_target_exists(hits, input, ip, k);
    }
}

proof fn lemma_first_target_exists(hits: Seq<PortHit>, input: u64, ip: Port, k: int)
    requires
        0 <= k < hits.len(),
        hits[k].entity != input && hits[k].near && hits[k].port.is_output && hits[k].port.identifier != ip.identifier,
    ensures
        has_wiring_target(hits, input, ip),
    decreases k,
{
    if exists|m: int| 0 <= m < k && (#[trigger] hits[m]).entity != input && hits[m].near
        && hits[m].port.is_output && hits[m].port.identifier != ip.identifier {
        let m = choose|m: int| 0 <= m < k && (#[trigger] hits[m]).entity != input && hits[m].near
            && hits[m].port.is_output && hits[m].port.identifier != ip.identifier;
        lemma_first_target_exists(hits, input, ip, m);
    } else {
        assert(is_first_wiring_target(hits, input, ip, k));
    }
}

/// A right click deletes a gate exactly when some gate, whatever its
/// identifier, is under the cursor, and it deletes the first of them.
pub proof fn law_any_gate_under_cursor_is_deleted(hits: Seq<GateHit>)
    ensures
        (exists|k: int| #[trigger] is_first_gate_under_cursor(hits, k))
            <==> exists|k: int| 0 <= k < hits.len() && (#[trigger] hits[k]).near,
        forall|k: int| #[trigger] is_first_gate_under_cursor(hits, k) ==> {
            &&& 0 <= k < hits.len()
            &&& hits[k].near
            &&& forall|m: int| 0 <= m < k ==> !(#[trigger] hits[m]).near
        },
{
    if exists|k: int| 0 <= k < hits.len() && (#[trigger] hits[k]).near {
        let k = choose|k: int| 0 <= k < hits.len() && (#[trigger] hits[k]).near;
        lemma_first_gate_exists(hits, k);
    }
}

proof fn lemma_first_gate_exists(hits: Seq<GateHit>, k: int)
    requires
        0 <= k < hits.len(),
        hits[k].near,
    ensures
        exists|f: int| #[trigger] is_first_gate_under_cursor(hits, f),
    decreases k,
{
    if exists|m: int| 0 <= m < k && (#[trigger] hits[m]).near {
        let m = choose|m: int| 0 <= m < k && (#[trigger] hits[m]).near;
        lemma_first_gate_exists(hits, m);
    } else {
        assert(is_first_gate_under_cursor(hits, k));
    }
}

/// A left click starts a drag exactly when some draggable entity is under
/// the cursor, and it drags the first of them.
pub proof fn law_any_draggable_under_cursor_is_dragged(hits: Seq<DragHit>)
    ensures
        (exists|k: int| #[trigger] is_first_drag_under_cursor(hits, k))
            <==> exists|k: int| 0 <= k < hits.len() && (#[trigger] hits[k]).near,
        forall|k: int| #[trigger] is_first_drag_under_cursor(hits, k) ==> {
            &&& 0 <= k < hits.len()
            &&& hits[k].near
            &&& forall|m: int| 0 <= m < k ==> !(#[trigger] hits[m]).near
        },
{
    if exists|k: int| 0 <= k < hits.len() && (#[trigger] hits[k]).near {
        let k = choose|k: int| 0 <= k < hits.len() && (#[trigger] hits[k]).near;
        lemma_first_drag_exists(hits, k);
    }
}

proof fn lemma_first_drag_exists(hits: Seq<DragHit>, k: int)
    requires
        0 <= k < hits.len(),
        hits[k].near,
    ensures
        exists|f: int| #[trigger] is_first_drag_under_cursor(hits, f),
    decreases k,
{
    if exists|m: int| 0 <= m < k && (#[trigger] hits[m]).near {
        let m = choose|m: int| 0 <= m < k && (#[trigger] hits[m]).near;
        lemma_first_drag_exists(hits, m);
    } else {
        assert(is_first_drag_under_cursor(hits, k));
    }
}

/// What a click does to the picked input when completing a wire: nothing
/// without a click or without a picked input; the click that picked it only
/// clears the just-picked mark; otherwise the pick is dropped, unless the
/// input is still free and the cursor is off the board, in which case it is
/// kept for the next click.
pub proof fn law_connect_click_outcomes(state: ConnectionState, left_just_pressed: bool, wire_targets: Seq<u64>, cursor_found: bool)
    ensures
        !left_just_pressed ==> after_connect(state, left_just_pressed, wire_targets, cursor_found) == state,
        state.selected_input is None ==> after_connect(state, left_just_pressed, wire_targets, cursor_found) == state,
        left_just_pressed && state.selected_input is Some && state.just_selected
            ==> after_connect(state, left_just_pressed, wire_targets, cursor_found).selected_input == state.selected_input
                && !after_connect(state, left_just_pressed, wire_targets, cursor_found).just_selected,
        left_just_pressed && state.selected_input is Some && !state.just_selected
            && wire_targets.contains(state.selected_input->0)
            ==> after_connect(state, left_just_pressed, wire_targets, cursor_found).selected_input is None,
        left_just_pressed && state.selected_input is Some && !state.just_selected && cursor_found
            ==> after_connect(state, left_just_pressed, wire_targets, cursor_found).selected_input is None
                && !after_connect(state, left_just_pressed, wire_targets, cursor_found).just_selected,
        left_just_pressed && state.selected_input is Some && !state.just_selected && !cursor_found
            && !wire_targets.contains(state.selected_input->0)
            ==> after_connect(state, left_just_pressed, wire_targets, cursor_found) == state,
{
}

/// A click leaves the pick as it was unless the left button went down with
/// nothing picked and the cursor on the board; then it picks an input port
/// under the cursor, marked as just picked, if there is one.
pub proof fn law_select_click_outcomes(state: ConnectionState, left_just_pressed: bool, cursor_found: bool, hits: Seq<PortHit>)
    ensures
        !(left_just_pressed && state.selected_input is None && cursor_found)
            ==> after_select_input(state, left_just_pressed, cursor_found, hits) == state,
        (forall|k: int| 0 <= k < hits.len() ==> !((#[trigger] hits[k]).near && !hits[k].port.is_output))
            ==> after_select_input(state, left_just_pressed, cursor_found, hits) == state,
        after_select_input(state, left_just_pressed, cursor_found, hits) != state ==> {
            &&& after_select_input(state, left_just_pressed, cursor_found, hits).just_selected
            &&& exists|k: int| 0 <= k < hits.len() && (#[trigger] hits[k]).near && !hits[k].port.is_output
                && hits[k].entity == after_select_input(state, left_just_pressed, cursor_found, hits).selected_input->0
        },
{
    law_any_input_under_cursor_is_picked(hits);
}

/// Exactly the wires with a missing start or end port are dropped, in order,
/// each once.
pub proof fn law_cleanup_drops_exactly_dangling(wires: Seq<WireEntry>, alive_ports: Seq<u64>)
    ensures
        dangling_wires(wires, alive_ports).len() <= wires.len(),
        forall|e: u64| dangling_wires(wires, alive_ports).contains(e) <==> exists|k: int|
            0 <= k < wires.len() && (#[trigger] wires[k]).entity == e
                && (!alive_ports.contains(wires[k].wire.from) || !alive_ports.contains(wires[k].wire.to)),
    decreases wires.len(),
{
    if wires.len() > 0 {
        let front = wires.drop_last();
        law_cleanup_drops_exactly_dangling(front, alive_ports);
        let d = dangling_wires(wires, alive_ports);
        let df = dangling_wires(front, alive_ports);
        let last = wires.last();
        let back = if is_dangling(last, alive_ports) { seq![last.entity] } else { Seq::<u64>::empty() };
        assert(d == df + back);
        assert forall|e: u64| d.contains(e) <==> exists|k: int|
            0 <= k < wires.len() && (#[trigger] wires[k]).entity == e
                && (!alive_ports.contains(wires[k].wire.from) || !alive_ports.contains(wires[k].wire.to)) by {
            if d.contains(e) {
                let i = choose|i: int| 0 <= i < d.len() && d[i] == e;
                if i < df.len() {
                    assert(df[i] == e);
                    assert(df.contains(e));
                    let k = choose|k: int| 0 <= k < front.len() && (#[trigger] front[k]).entity == e
                        && (!alive_ports.contains(front[k].wire.from) || !alive_ports.contains(front[k].wire.to));
                    assert(wires[k] == front[k]);
                } else {
                    assert(wires[wires.len() - 1] == last);
                }
            }
            if exists|k: int| 0 <= k < wires.len() && (#[trigger] wires[k]).entity == e
                && (!alive_ports.contains(wires[k].wire.from) || !alive_ports.contains(wires[k].wire.to)) {
                let k = choose|k: int| 0 <= k < wires.len() && (#[trigger] wires[k]).entity == e
                    && (!alive_ports.contains(wires[k].wire.from) || !alive_ports.contains(wires[k].wire.to));
                if k < front.len() {
                    assert(front[k] == wires[k]);
                    assert(df.contains(e));
                    let i = choose|i: int| 0 <= i < df.len() && df[i] == e;
                    assert(d[i] == e);
                } else {
                    assert(d[df.len() as int] == e);
                }
            }
        }
    }
}

/// Exactly the wires that start or end at a port carrying the deleted gate's
/// identifier go with it, in order, each once.
pub proof fn law_deleted_wires_are_exactly_connected(wires: Seq<WireEntry>, ports: Seq<PortEntry>, gate_id: i32)
    ensures
        wires_of_gate(wires, ports, gate_id).len() <= wires.len(),
        forall|e: u64| wires_of_gate(wires, ports, gate_id).contains(e) <==> exists|k: int, p: int|
            0 <= k < wires.len() && 0 <= p < ports.len() && (#[trigger] wires[k]).entity == e
                && (#[trigger] ports[p]).port.identifier == gate_id
                && (ports[p].entity == wires[k].wire.from || ports[p].entity == wires[k].wire.to),
    decreases wires.len(),
{
    if wires.len() > 0 {
        let front = wires.drop_last();
        law_deleted_wires_are_exactly_connected(front, ports, gate_id);
        let d = wires_of_gate(wires, ports, gate_id);
        let df = wires_of_gate(front, ports, gate_id);
        let last = wires.last();
        let back = if touches_gate(last, ports, gate_id) { seq![last.entity] } else { Seq::<u64>::empty() };
        assert(d == df + back);
        assert forall|e: u64| d.contains(e) <==> exists|k: int, p: int|
            0 <= k < wires.len() && 0 <= p < ports.len() && (#[trigger] wires[k]).entity == e
                && (#[trigger] ports[p]).port.identifier == gate_id
                && (ports[p].entity == wires[k].wire.from || ports[p].entity == wires[k].wire.to) by {
            if d.contains(e) {
                let i = choose|i: int| 0 <= i < d.len() && d[i] == e;
                if i < df.len() {
                    assert(df[i] == e);
                    assert(df.contains(e));
                    let (k, p) = choose|k: int, p: int|
                        0 <= k < front.len() && 0 <= p < ports.len() && (#[trigger] front[k]).entity == e
                            && (#[trigger] ports[p]).port.identifier == gate_id
                            && (ports[p].entity == front[k].wire.from || ports[p].entity == front[k].wire.to);
                    assert(wires[k] == front[k]);
                } else {
                    let k = wires.len() - 1;
                    assert(wires[k] == last);
                    if is_port_of_gate(ports, last.wire.from, gate_id) {
                        let p = choose|p: int| 0 <= p < ports.len() && (#[trigger] ports[p]).entity == last.wire.from
                            && ports[p].port.identifier == gate_id;
                        assert(wires[k].entity == e && ports[p].port.identifier == gate_id);
                    } else {
                        let p = choose|p: int| 0 <= p < ports.len() && (#[trigger] ports[p]).entity == last.wire.to
                            && ports[p].port.identifier == gate_id;
                        assert(wires[k].entity == e && ports[p].port.identifier == gate_id);
                    }
                }
            }
            if exists|k: int, p: int|
                0 <= k < wires.len() && 0 <= p < ports.len() && (#[trigger] wires[k]).entity == e
                    && (#[trigger] ports[p]).port.identifier == gate_id
                    && (ports[p].entity == wires[k].wire.from || ports[p].entity == wires[k].wire.to) {
                let (k, p) = choose|k: int, p: int|
                    0 <= k < wires.len() && 0 <= p < ports.len() && (#[trigger] wires[k]).entity == e
                        && (#[trigger] ports[p]).port.identifier == gate_id
                        && (ports[p].entity == wires[k].wire.from || ports[p].entity == wires[k].wire.to);
                if k < front.len() {
                    assert(front[k] == wires[k]);
                    assert(df.contains(e));
                    let i = choose|i: int| 0 <= i < df.len() && df[i] == e;
                    assert(d[i] == e);
                } else {
                    assert(wires[k] == last);
                    assert(touches_gate(last, ports, gate_id));
                    assert(d[df.len() as int] == e);
                }
            }
        }
    }
}

/// Whether `x` is among the items of `v`.
fn contains_entity(v: &Vec<u64>, x: u64) -> (b: bool)
    ensures
        b == v@.contains(x),
{
    let mut k: usize = 0;
    while k < v.len()
        invariant
            k <= v@.len(),
            forall|m: int| 0 <= m < k ==> v@[m] != x,
        decreases v@.len() - k,
    {
        if v[k] == x {
            return true;
        }
        k = k + 1;
    }
    false
}

} // verus!
