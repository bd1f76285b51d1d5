use ferroforge::circuit::{BOARD_A, BOARD_F, Circuit, ROW_WIDTH};
use ferroforge::gate::{Gate, GateIds, GateType};

fn row(first: Option<usize>) -> Vec<Option<usize>> {
    let mut r = vec![None; ROW_WIDTH];
    r[0] = first;
    r
}

#[test]
fn new_circuit_has_f_row_and_blank_rows() {
    let c = Circuit::new(2, 3);
    assert_eq!(c.num_inputs, 2);
    assert!(c.gates.is_empty());
    assert_eq!(c.graph, vec![row(Some(BOARD_F)), row(None), row(None)]);
}

#[test]
fn add_gate_uses_next_id_and_input_count() {
    let mut c = Circuit::new(2, 1);
    let mut ids = GateIds::new();
    c.add_gate(GateType::NAND, &mut ids);
    c.add_gate(GateType::NOT, &mut ids);
    assert_eq!(ids.peek(), 2);
    assert_eq!(c.gates.len(), 2);
    assert_eq!(c.gates[0].id, 0);
    assert_eq!(c.gates[0].kind, GateType::NAND);
    assert_eq!(c.gates[0].input_states, vec![false, false]);
    assert_eq!(c.gates[1].id, 1);
    assert_eq!(c.gates[1].kind, GateType::NOT);
    assert_eq!(c.gates[1].input_states, vec![false]);
    assert!(!c.gates[1].output);
    assert_eq!(c.graph, vec![row(Some(BOARD_F)), row(Some(0)), row(Some(1))]);
}

#[test]
fn add_existing_gate_appends_row() {
    let mut c = Circuit::new(0, 1);
    let mut ids = GateIds::new();
    let g = Gate::new(GateType::OR, 2, &mut ids);
    c.add_existing_gate(g, 42);
    assert_eq!(c.gates.len(), 1);
    assert_eq!(c.gates[0].kind, GateType::OR);
    assert_eq!(c.graph, vec![row(Some(BOARD_F)), row(Some(42))]);
}

#[test]
fn connect_fills_first_free_cell() {
    let mut c = Circuit::new(2, 1);
    c.connect_gates(BOARD_F, 7);
    c.connect_gates(BOARD_F, 9);
    let mut expected = row(Some(BOARD_F));
    expected[1] = Some(7);
    expected[2] = Some(9);
    assert_eq!(c.graph, vec![expected]);
}

#[test]
fn connect_unknown_node_does_nothing() {
    let mut c = Circuit::new(2, 2);
    c.connect_gates(55, 7);
    assert_eq!(c.graph, vec![row(Some(BOARD_F)), row(None)]);
}

#[test]
fn connect_full_row_moves_to_next_row_of_same_node() {
    let mut c = Circuit::new(2, 1);
    for k in 0..(ROW_WIDTH - 1) {
        c.connect_gates(BOARD_F, 100 + k);
    }
    let before = c.graph.clone();
    // The only row of F is full: nothing changes.
    c.connect_gates(BOARD_F, 1);
    assert_eq!(c.graph, before);
    // A second row of F takes the wire.
    let mut ids = GateIds::new();
    let g = Gate::new(GateType::AND, 2, &mut ids);
    c.add_existing_gate(g, BOARD_F);
    c.connect_gates(BOARD_F, 1);
    let mut second = row(Some(BOARD_F));
    second[1] = Some(1);
    assert_eq!(c.graph[1], second);
}

#[test]
fn fresh_circuit_is_not_connected() {
    let mut c = Circuit::new(2, 1);
    assert!(!c.check_connection());
}

#[test]
fn direct_wire_connects() {
    let mut c = Circuit::new(2, 1);
    c.connect_gates(BOARD_F, BOARD_A);
    assert!(c.check_connection());
}

#[test]
fn connection_through_gates() {
    // F <- gate 0 <- gate 1 <- A
    let mut c = Circuit::new(2, 1);
    let mut ids = GateIds::new();
    c.add_gate(GateType::NAND, &mut ids);
    c.add_gate(GateType::NOT, &mut ids);
    c.connect_gates(BOARD_F, 0);
    assert!(!c.check_connection());
    c.connect_gates(0, 1);
    assert!(!c.check_connection());
    c.connect_gates(1, BOARD_A);
    assert!(c.check_connection());
    let before = c.graph.clone();
    let _ = c.check_connection();
    assert_eq!(c.graph, before);
}

#[test]
fn connection_needs_right_direction() {
    // A feeds into gate 0, but nothing feeds F.
    let mut c = Circuit::new(2, 1);
    let mut ids = GateIds::new();
    c.add_gate(GateType::AND, &mut ids);
    c.connect_gates(0, BOARD_A);
    assert!(!c.check_connection());
}

#[test]
fn cycle_is_searched_once() {
    let mut c = Circuit::new(2, 1);
    let mut ids = GateIds::new();
    c.add_gate(GateType::XOR, &mut ids);
    c.add_gate(GateType::XNOR, &mut ids);
    c.connect_gates(BOARD_F, 0);
    c.connect_gates(0, 1);
    c.connect_gates(1, 0);
    assert!(!c.check_connection());
    c.connect_gates(1, BOARD_A);
    assert!(c.check_connection());
}

#[test]
fn remove_gate_drops_gate_row_and_wires() {
    let mut c = Circuit::new(2, 1);
    let mut ids = GateIds::new();
    c.add_gate(GateType::NAND, &mut ids);
    c.add_gate(GateType::NOR, &mut ids);
    c.connect_gates(BOARD_F, 0);
    c.connect_gates(0, 1);
    c.connect_gates(1, BOARD_A);
    assert!(c.check_connection());
    c.remove_gate(0);
    assert_eq!(c.gates.len(), 1);
    assert_eq!(c.gates[0].id, 1);
    let mut r1 = row(Some(1));
    r1[1] = Some(BOARD_A);
    assert_eq!(c.graph, vec![row(Some(BOARD_F)), r1]);
    assert!(!c.check_connection());
}

#[test]
fn remove_unknown_gate_only_clears_nothing() {
    let mut c = Circuit::new(2, 1);
    c.connect_gates(BOARD_F, BOARD_A);
    let before = c.graph.clone();
    c.remove_gate(77);
    assert_eq!(c.graph, before);
    assert!(c.gates.is_empty());
}

#[test]
fn remove_undoes_add() {
    let mut c = Circuit::new(2, 2);
    let mut ids = GateIds::new();
    c.add_gate(GateType::AND, &mut ids);
    c.connect_gates(BOARD_F, 0);
    let graph_before = c.graph.clone();
    let ids_before: Vec<i32> = c.gates.iter().map(|g| g.id).collect();
    c.add_gate(GateType::OR, &mut ids);
    c.remove_gate(1);
    assert_eq!(c.graph, graph_before);
    let ids_after: Vec<i32> = c.gates.iter().map(|g| g.id).collect();
    assert_eq!(ids_after, ids_before);
}

#[test]
fn removed_node_cannot_be_reached() {
    let mut c = Circuit::new(2, 1);
    c.connect_gates(BOARD_F, BOARD_A);
    assert!(c.check_connection());
    c.remove_gate(BOARD_A as i32);
    assert!(!c.check_connection());
    assert_eq!(c.graph, vec![row(Some(BOARD_F))]);
}

#[test]
fn wiring_keeps_connection() {
    let mut c = Circuit::new(2, 1);
    c.connect_gates(BOARD_F, BOARD_A);
    let mut ids = GateIds::new();
    c.add_gate(GateType::AND, &mut ids);
    c.connect_gates(0, BOARD_F);
    c.connect_gates(BOARD_F, 0);
    assert!(c.check_connection());
}

#[test]
fn every_row_stays_row_width() {
    let mut c = Circuit::new(2, 3);
    let mut ids = GateIds::new();
    c.add_gate(GateType::AND, &mut ids);
    c.add_gate(GateType::NOT, &mut ids);
    c.connect_gates(0, 1);
    c.connect_gates(BOARD_F, 0);
    c.remove_gate(1);
    assert!(c.graph.iter().all(|r| r.len() == ROW_WIDTH));
}

#[test]
fn next_level_is_fresh_with_two_inputs_and_one_row() {
    let c = Circuit::next_level();
    assert_eq!(c.num_inputs, 2);
    assert!(c.gates.is_empty());
    assert_eq!(c.graph, vec![row(Some(BOARD_F))]);
}

#[test]
fn remove_undoes_add_and_its_wiring() {
    let mut c = Circuit::new(2, 2);
    let mut ids = GateIds::new();
    c.add_gate(GateType::AND, &mut ids);
    c.add_gate(GateType::NOT, &mut ids);
    c.connect_gates(BOARD_F, 0);
    c.connect_gates(0, 1);
    let graph_before = c.graph.clone();
    let ids_before: Vec<i32> = c.gates.iter().map(|g| g.id).collect();
    c.add_gate(GateType::XOR, &mut ids);
    c.connect_gates(BOARD_F, 2);
    c.connect_gates(2, 1);
    c.connect_gates(2, BOARD_A);
    c.connect_gates(1, 2);
    c.connect_gates(2, 2);
    assert!(c.check_connection());
    c.remove_gate(2);
    assert_eq!(c.graph, graph_before);
    let ids_after: Vec<i32> = c.gates.iter().map(|g| g.id).collect();
    assert_eq!(ids_after, ids_before);
    assert!(!c.check_connection());
}
