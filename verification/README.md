# Ferroforge

The rules behind a point-and-click puzzle game in which the player builds
logic circuits from gates, verified with Verus.

- `src/gate.rs` – gate kinds, gates, and the source of gate identifiers.
- `src/circuit.rs` – a level's gates and wiring graph: placing, wiring and
  removing gates, and the search that tells whether the board's `F` port is
  wired back to its `A` port.
- `src/laws.rs` – properties that hold across the circuit's operations.
- `src/components.rs`, `src/controls.rs` – ports, wires, and what clicks and
  drags do to the board.
- `src/menu.rs` – the screens and what their buttons do.
- `src/board.rs` – grid lines, port layout of gates and labels of board ports.
- `app/` – the game itself on bevy and bevy_egui: drawing, mouse input and
  the menus, handing every decision to the library.
