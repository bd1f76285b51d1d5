use ferroforge::gate::{Gate, GateIds, GateType};

#[test]
fn ids_count_up_from_zero() {
    let mut ids = GateIds::new();
    assert_eq!(ids.peek(), 0);
    assert_eq!(ids.take(), 0);
    assert_eq!(ids.take(), 1);
    assert_eq!(ids.take(), 2);
    assert_eq!(ids.peek(), 3);
}

#[test]
fn new_gate_is_low_with_fresh_id() {
    let mut ids = GateIds::new();
    let a = Gate::new(GateType::XOR, 2, &mut ids);
    let b = Gate::new(GateType::NOT, 1, &mut ids);
    assert_eq!(a.kind, GateType::XOR);
    assert_eq!(a.input_states, vec![false, false]);
    assert!(!a.output);
    assert_eq!(a.id, 0);
    assert_eq!(b.input_states, vec![false]);
    assert_eq!(b.id, 1);
    let c = Gate::new(GateType::OR, 0, &mut ids);
    assert!(c.input_states.is_empty());
    assert_eq!(c.id, 2);
}

#[test]
fn many_takes_count_up_without_repeats() {
    let mut ids = GateIds::new();
    let _ = ids.take();
    let _ = ids.take();
    let start = ids.peek();
    let taken: Vec<i32> = (0..50).map(|_| ids.take()).collect();
    let expected: Vec<i32> = (start..start + 50).collect();
    assert_eq!(taken, expected);
    assert_eq!(ids.peek(), start + 50);
}
