use ferroforge::circuit::{BOARD_A, BOARD_F, Circuit, ROW_WIDTH};
use ferroforge::components::{ConnectionState, DragState, Port, Wire};
use ferroforge::controls::{
    Deletion, DragHit, GateHit, PortEntry, PortHit, WireEntry, cleanup_wires, connect_to_output, delete_on_right_click,
    drag_system, end_drag_system, select_input_port, start_drag_system,
};
use ferroforge::gate::{GateIds, GateType};

fn input(entity: u64, gate: i32, near: bool) -> PortHit {
    PortHit { entity, port: Port { port_id: 0, is_output: false, identifier: gate }, near }
}

fn output(entity: u64, gate: i32, near: bool) -> PortHit {
    PortHit { entity, port: Port { port_id: 0, is_output: true, identifier: gate }, near }
}

#[test]
fn default_states_are_empty() {
    let c = ConnectionState::default();
    assert_eq!(c.selected_input, None);
    assert!(!c.just_selected);
    assert_eq!(DragState::default().entity, None);
}

#[test]
fn click_picks_first_input_under_cursor() {
    let mut st = ConnectionState::default();
    let ports = vec![output(1, 0, true), input(2, 0, false), input(3, 0, true), input(4, 1, true)];
    select_input_port(&mut st, true, true, &ports);
    assert_eq!(st, ConnectionState { selected_input: Some(3), just_selected: true });
}

#[test]
fn select_needs_click_cursor_and_no_selection() {
    let ports = vec![input(3, 0, true)];
    let mut st = ConnectionState::default();
    select_input_port(&mut st, false, true, &ports);
    assert_eq!(st, ConnectionState::default());
    select_input_port(&mut st, true, false, &ports);
    assert_eq!(st, ConnectionState::default());
    let mut busy = ConnectionState { selected_input: Some(9), just_selected: false };
    select_input_port(&mut busy, true, true, &ports);
    assert_eq!(busy, ConnectionState { selected_input: Some(9), just_selected: false });
    let mut none_near = ConnectionState::default();
    select_input_port(&mut none_near, true, true, &vec![input(3, 0, false), output(4, 1, true)]);
    assert_eq!(none_near, ConnectionState::default());
}

#[test]
fn same_click_does_not_complete_wire() {
    let mut c = Circuit::new(2, 1);
    let mut st = ConnectionState { selected_input: Some(3), just_selected: true };
    let ports = vec![output(7, BOARD_A as i32, true)];
    let w = connect_to_output(&mut st, &mut c, true, &vec![], true, &ports, Some(Port { port_id: 0, is_output: false, identifier: BOARD_F as i32 }));
    assert_eq!(w, None);
    assert_eq!(st, ConnectionState { selected_input: Some(3), just_selected: false });
}

#[test]
fn second_click_wires_output_into_input() {
    let mut c = Circuit::new(2, 1);
    let mut st = ConnectionState { selected_input: Some(3), just_selected: false };
    let ports = vec![input(3, BOARD_F as i32, true), output(6, BOARD_F as i32, true), output(7, BOARD_A as i32, true), output(8, 5, true)];
    let ip = Some(Port { port_id: 0, is_output: false, identifier: BOARD_F as i32 });
    let w = connect_to_output(&mut st, &mut c, true, &vec![11, 12], true, &ports, ip);
    assert_eq!(w, Some(Wire { from: 7, to: 3 }));
    assert_eq!(st, ConnectionState { selected_input: None, just_selected: false });
    let mut expected = vec![None; ROW_WIDTH];
    expected[0] = Some(BOARD_F);
    expected[1] = Some(BOARD_A);
    assert_eq!(c.graph, vec![expected]);
    assert!(c.check_connection());
}

#[test]
fn occupied_input_is_refused() {
    let mut c = Circuit::new(2, 1);
    let mut st = ConnectionState { selected_input: Some(3), just_selected: false };
    let ports = vec![output(7, BOARD_A as i32, true)];
    let ip = Some(Port { port_id: 0, is_output: false, identifier: BOARD_F as i32 });
    let w = connect_to_output(&mut st, &mut c, true, &vec![3], true, &ports, ip);
    assert_eq!(w, None);
    assert_eq!(st, ConnectionState { selected_input: None, just_selected: false });
    assert!(!c.check_connection());
}

#[test]
fn lost_cursor_keeps_selection() {
    let mut c = Circuit::new(2, 1);
    let mut st = ConnectionState { selected_input: Some(3), just_selected: false };
    let ip = Some(Port { port_id: 0, is_output: false, identifier: BOARD_F as i32 });
    let w = connect_to_output(&mut st, &mut c, true, &vec![], false, &vec![output(7, 1, true)], ip);
    assert_eq!(w, None);
    assert_eq!(st, ConnectionState { selected_input: Some(3), just_selected: false });
}

#[test]
fn missed_click_clears_selection() {
    let mut c = Circuit::new(2, 1);
    let mut st = ConnectionState { selected_input: Some(3), just_selected: false };
    let ip = Some(Port { port_id: 0, is_output: false, identifier: 4 });
    // Output of the same gate, an input, and an output away from the cursor.
    let ports = vec![output(5, 4, true), input(6, 1, true), output(7, 1, false)];
    let w = connect_to_output(&mut st, &mut c, true, &vec![], true, &ports, ip);
    assert_eq!(w, None);
    assert_eq!(st, ConnectionState { selected_input: None, just_selected: false });
    assert_eq!(c.graph.len(), 1);
    assert!(!c.check_connection());
}

#[test]
fn vanished_input_port_clears_selection() {
    let mut c = Circuit::new(2, 1);
    let mut st = ConnectionState { selected_input: Some(3), just_selected: false };
    let w = connect_to_output(&mut st, &mut c, true, &vec![], true, &vec![output(7, 1, true)], None);
    assert_eq!(w, None);
    assert_eq!(st.selected_input, None);
}

#[test]
fn no_click_no_change() {
    let mut c = Circuit::new(2, 1);
    let mut st = ConnectionState { selected_input: Some(3), just_selected: true };
    let w = connect_to_output(&mut st, &mut c, false, &vec![], true, &vec![output(7, 1, true)], None);
    assert_eq!(w, None);
    assert_eq!(st, ConnectionState { selected_input: Some(3), just_selected: true });
}

fn port_entry(entity: u64, gate: i32, is_output: bool) -> PortEntry {
    PortEntry { entity, port: Port { port_id: 0, is_output, identifier: gate } }
}

#[test]
fn right_click_deletes_first_gate_under_cursor_with_its_wires() {
    let mut c = Circuit::new(2, 1);
    let mut ids = GateIds::new();
    c.add_gate(GateType::AND, &mut ids);
    c.add_gate(GateType::OR, &mut ids);
    c.connect_gates(BOARD_F, 1);
    let hits = vec![
        GateHit { entity: 20, gate_id: 0, near: false },
        GateHit { entity: 21, gate_id: 1, near: true },
        GateHit { entity: 22, gate_id: 0, near: true },
    ];
    // Ports 30, 31 belong to gate 0; 40, 41 to gate 1; 50 is the board's F.
    let ports = vec![
        port_entry(30, 0, false),
        port_entry(31, 0, true),
        port_entry(40, 1, false),
        port_entry(41, 1, true),
        port_entry(50, BOARD_F as i32, false),
    ];
    let wires = vec![
        WireEntry { entity: 60, wire: Wire { from: 41, to: 50 } },
        WireEntry { entity: 61, wire: Wire { from: 31, to: 40 } },
        WireEntry { entity: 62, wire: Wire { from: 31, to: 50 } },
    ];
    let d = delete_on_right_click(&mut c, true, true, &hits, &ports, &wires);
    assert_eq!(d, Some(Deletion { gate: 21, wires: vec![60, 61] }));
    assert_eq!(c.gates.len(), 1);
    assert_eq!(c.gates[0].id, 0);
    assert_eq!(c.graph.len(), 2);
    assert_eq!(c.graph[0][1], None);
}

#[test]
fn right_click_elsewhere_deletes_nothing() {
    let mut c = Circuit::new(2, 1);
    let mut ids = GateIds::new();
    c.add_gate(GateType::AND, &mut ids);
    let hits = vec![GateHit { entity: 20, gate_id: 0, near: false }];
    let ports = vec![port_entry(30, 0, true)];
    let wires = vec![WireEntry { entity: 60, wire: Wire { from: 30, to: 31 } }];
    assert_eq!(delete_on_right_click(&mut c, true, true, &hits, &ports, &wires), None);
    let near = vec![GateHit { entity: 20, gate_id: 0, near: true }];
    assert_eq!(delete_on_right_click(&mut c, false, true, &near, &ports, &wires), None);
    assert_eq!(delete_on_right_click(&mut c, true, false, &near, &ports, &wires), None);
    assert_eq!(c.gates.len(), 1);
}

#[test]
fn drag_lifecycle() {
    let mut d = DragState::default();
    let targets = vec![DragHit { entity: 1, near: false }, DragHit { entity: 2, near: true }, DragHit { entity: 3, near: true }];
    start_drag_system(&mut d, true, true, &targets);
    assert_eq!(d.entity, Some(2));
    assert_eq!(drag_system(&d, true, true), Some(2));
    assert_eq!(drag_system(&d, false, true), None);
    assert_eq!(drag_system(&d, true, false), None);
    end_drag_system(&mut d, false);
    assert_eq!(d.entity, Some(2));
    end_drag_system(&mut d, true);
    assert_eq!(d.entity, None);
    assert_eq!(drag_system(&d, true, true), None);
}

#[test]
fn start_drag_keeps_state_when_nothing_is_hit() {
    let mut d = DragState { entity: Some(9) };
    start_drag_system(&mut d, true, true, &vec![DragHit { entity: 1, near: false }]);
    assert_eq!(d.entity, Some(9));
    start_drag_system(&mut d, false, true, &vec![DragHit { entity: 1, near: true }]);
    assert_eq!(d.entity, Some(9));
}

#[test]
fn cleanup_drops_wires_with_missing_ports() {
    let wires = vec![
        WireEntry { entity: 100, wire: Wire { from: 1, to: 2 } },
        WireEntry { entity: 101, wire: Wire { from: 1, to: 3 } },
        WireEntry { entity: 102, wire: Wire { from: 4, to: 2 } },
        WireEntry { entity: 103, wire: Wire { from: 2, to: 1 } },
    ];
    assert_eq!(cleanup_wires(&wires, &vec![1, 2]), vec![101, 102]);
    assert_eq!(cleanup_wires(&wires, &vec![]), vec![100, 101, 102, 103]);
    assert_eq!(cleanup_wires(&vec![], &vec![1]), Vec::<u64>::new());
}
