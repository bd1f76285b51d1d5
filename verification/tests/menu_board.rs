use ferroforge::board::{
    BoardLabel, GRID_LINE_COUNT, PortPlacement, grid_lines, handle_spawn_gate, spawn_board_port,
};
use ferroforge::circuit::{BOARD_A, BOARD_F, Circuit};
use ferroforge::components::Port;
use ferroforge::gate::{GateIds, GateType};
use ferroforge::menu::{GameState, MenuButton, UiAction, user_interface};

#[test]
fn game_opens_on_main_menu() {
    assert_eq!(GameState::default(), GameState::MainMenu);
}

#[test]
fn main_menu_buttons() {
    assert_eq!(user_interface(GameState::MainMenu, MenuButton::LevelSelect), Some(UiAction::GoTo(GameState::LevelSelect)));
    assert_eq!(user_interface(GameState::MainMenu, MenuButton::Credits), Some(UiAction::GoTo(GameState::Credits)));
    assert_eq!(user_interface(GameState::MainMenu, MenuButton::Quit), Some(UiAction::Quit));
    assert_eq!(user_interface(GameState::MainMenu, MenuButton::BackToMenu), None);
}

#[test]
fn every_level_opens_the_editor() {
    for n in 1..=5 {
        assert_eq!(user_interface(GameState::LevelSelect, MenuButton::Level(n)), Some(UiAction::GoTo(GameState::Editor)));
    }
    assert_eq!(user_interface(GameState::LevelSelect, MenuButton::Level(0)), None);
    assert_eq!(user_interface(GameState::LevelSelect, MenuButton::Level(6)), None);
    assert_eq!(user_interface(GameState::LevelSelect, MenuButton::Quit), None);
}

#[test]
fn editor_and_credit_buttons() {
    assert_eq!(user_interface(GameState::Editor, MenuButton::BackToMenu), Some(UiAction::GoTo(GameState::MainMenu)));
    assert_eq!(user_interface(GameState::Editor, MenuButton::NextLevel), Some(UiAction::NextLevel));
    assert_eq!(user_interface(GameState::Editor, MenuButton::Spawn(GateType::XNOR)), Some(UiAction::SpawnGate(GateType::XNOR)));
    assert_eq!(user_interface(GameState::Editor, MenuButton::Quit), None);
    assert_eq!(user_interface(GameState::Credits, MenuButton::BackToMenu), Some(UiAction::GoTo(GameState::MainMenu)));
    assert_eq!(user_interface(GameState::Credits, MenuButton::Spawn(GateType::AND)), None);
}

#[test]
fn grid_runs_every_sixteen_units() {
    let lines = grid_lines();
    assert_eq!(lines.len(), GRID_LINE_COUNT);
    assert_eq!(lines[0], -2000);
    assert_eq!(lines[1], -1984);
    assert_eq!(lines[125], 0);
    assert_eq!(lines[250], 2000);
}

fn placed(dx: i32, dy: i32, is_output: bool, port_id: i32, identifier: i32) -> PortPlacement {
    PortPlacement { dx, dy, port: Port { port_id, is_output, identifier } }
}

#[test]
fn not_gate_has_one_input() {
    let mut c = Circuit::new(2, 1);
    let mut ids = GateIds::new();
    let s = handle_spawn_gate(&mut c, GateType::NOT, &mut ids);
    assert_eq!(s.gate_id, 0);
    assert_eq!(s.ports, vec![placed(-48, 0, false, 0, 0), placed(48, 0, true, 0, 0)]);
    assert_eq!(c.gates.len(), 1);
    assert_eq!(c.gates[0].input_states.len(), 1);
}

#[test]
fn other_gates_have_two_inputs() {
    let mut c = Circuit::new(2, 1);
    let mut ids = GateIds::new();
    let _ = handle_spawn_gate(&mut c, GateType::NOT, &mut ids);
    let s = handle_spawn_gate(&mut c, GateType::NAND, &mut ids);
    assert_eq!(s.gate_id, 1);
    assert_eq!(s.ports, vec![placed(-48, 16, false, 0, 1), placed(-48, -16, false, 1, 1), placed(48, 0, true, 0, 1)]);
    assert_eq!(c.graph.len(), 3);
    assert_eq!(c.graph[2][0], Some(1));
}

#[test]
fn board_port_labels() {
    let a = spawn_board_port(true, BOARD_A as i32, 0);
    assert_eq!(a.label, BoardLabel::A);
    assert_eq!(a.label_dx, -32);
    assert_eq!(a.port, Port { port_id: 0, is_output: true, identifier: BOARD_A as i32 });
    let b = spawn_board_port(true, 10002, 1);
    assert_eq!(b.label, BoardLabel::B);
    assert_eq!(b.label_dx, -32);
    let f = spawn_board_port(false, BOARD_F as i32, 2);
    assert_eq!(f.label, BoardLabel::F);
    assert_eq!(f.label_dx, 32);
    assert_eq!(f.port.port_id, 2);
}
