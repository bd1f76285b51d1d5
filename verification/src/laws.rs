//! Properties of the circuit that hold across its operations.

use vstd::prelude::*;
use crate::gate::{Gate, GateIds};
use crate::circuit::{
    BOARD_A, BOARD_F, ROW_WIDTH, clear_cells, connect_rows, drop_first_row, edge, fresh_rows, is_first_free_slot,
    is_first_gate_with, is_first_row_of, is_free_slot, is_path, is_row_of, lemma_first_free_slot_unique,
    reachable, remove_gate_from, remove_node_rows, row_starting,
};

verus! {

/// No node of the graph names `key` in any of its cells.
pub open spec fn names_nowhere(g: Seq<Seq<Option<usize>>>, key: usize) -> bool {
    forall|i: int, j: int| 0 <= i < g.len() && 0 <= j < g[i].len() ==> #[trigger] g[i][j] != Some(key)
}

/// Every row has exactly `width` cells.
pub open spec fn rows_of_width(g: Seq<Seq<Option<usize>>>, width: nat) -> bool {
    forall|i: int| 0 <= i < g.len() ==> (#[trigger] g[i]).len() == width
}

/// Every row the circuit makes is `ROW_WIDTH` cells wide, and no operation
/// changes the width of a row: a new graph, a new row, wiring and removing a
/// node all keep every row `ROW_WIDTH` cells wide.
pub proof fn law_rows_keep_width(g: Seq<Seq<Option<usize>>>, size: nat, key: usize, from: usize, to: usize)
    requires
        rows_of_width(g, ROW_WIDTH as nat),
    ensures
        rows_of_width(fresh_rows(size), ROW_WIDTH as nat),
        rows_of_width(g.push(row_starting(Some(key))), ROW_WIDTH as nat),
        rows_of_width(connect_rows(g, from, to), ROW_WIDTH as nat),
        rows_of_width(remove_node_rows(g, key), ROW_WIDTH as nat),
{
    let p = g.push(row_starting(Some(key)));
    assert forall|i: int| 0 <= i < p.len() implies (#[trigger] p[i]).len() == ROW_WIDTH as nat by {
        if i < g.len() {
            assert(p[i] == g[i]);
        }
    }
    let d = drop_first_row(g, key);
    assert(rows_of_width(d, ROW_WIDTH as nat)) by {
        if exists|i: int| #[trigger] is_first_row_of(g, key, i) {
            let i = choose|i: int| #[trigger] is_first_row_of(g, key, i);
            assert forall|r: int| 0 <= r < d.len() implies (#[trigger] d[r]).len() == ROW_WIDTH as nat by {
                if r < i {
                    assert(d[r] == g[r]);
                } else {
                    assert(d[r] == g[r + 1]);
                }
            }
        }
    }
    let c = clear_cells(d, key);
    assert forall|i: int| 0 <= i < c.len() implies (#[trigger] c[i]).len() == ROW_WIDTH as nat by {
        assert(d[i].len() == ROW_WIDTH as nat);
    }
}

/// No gate in the list carries identifier `id`.
pub open spec fn id_unused(gates: Seq<Gate>, id: i32) -> bool {
    forall|k: int| 0 <= k < gates.len() ==> (#[trigger] gates[k]).id != id
}

/// The graph after wiring each pair `(from, to)` of `conns` in turn.
pub open spec fn connect_all(g: Seq<Seq<Option<usize>>>, conns: Seq<(usize, usize)>) -> Seq<Seq<Option<usize>>>
    decreases conns.len(),
{
    if conns.len() == 0 {
        g
    } else {
        connect_all(connect_rows(g, conns[0].0, conns[0].1), conns.drop_first())
    }
}

/// `h` is `g` with one more row, the row of `key`, at the end, and with
/// some empty cells of `g` now naming `key`.
pub open spec fn extends_with_node(h: Seq<Seq<Option<usize>>>, g: Seq<Seq<Option<usize>>>, key: usize) -> bool {
    &&& h.len() == g.len() + 1
    &&& h[g.len() as int].len() > 0
    &&& h[g.len() as int][0] == Some(key)
    &&& forall|i: int| 0 <= i < g.len() ==> (#[trigger] h[i]).len() == g[i].len()
    &&& forall|i: int, j: int| 0 <= i < g.len() && 0 <= j < g[i].len() ==>
        #[trigger] h[i][j] == g[i][j] || (j != 0 && g[i][j] is None && h[i][j] == Some(key))
}

/// Wiring into or out of `key` keeps the shape above.
proof fn lemma_connect_extends(h: Seq<Seq<Option<usize>>>, g: Seq<Seq<Option<usize>>>, key: usize, a: usize, b: usize)
    requires
        extends_with_node(h, g, key),
        names_nowhere(g, key),
        a == key || b == key,
    ensures
        extends_with_node(connect_rows(h, a, b), g, key),
{
    if exists|i0: int, j0: int| #[trigger] is_first_free_slot(h, a, i0, j0) {
        let (i0, j0) = choose|i0: int, j0: int| #[trigger] is_first_free_slot(h, a, i0, j0);
        let h2 = h.update(i0, h[i0].update(j0, Some(b)));
        assert(connect_rows(h, a, b) == h2);
        assert(j0 != 0);
        if i0 < g.len() {
            assert(h[i0][0] == g[i0][0]);
            assert(g[i0][0] != Some(key));
            assert(a != key);
            assert(h[i0][j0] == g[i0][j0] || (j0 != 0 && g[i0][j0] is None && h[i0][j0] == Some(key)));
        }
        assert forall|i: int| 0 <= i < g.len() implies (#[trigger] h2[i]).len() == g[i].len() by {
            assert(h[i].len() == g[i].len());
        }
        assert forall|i: int, j: int| 0 <= i < g.len() && 0 <= j < g[i].len() implies
            #[trigger] h2[i][j] == g[i][j] || (j != 0 && g[i][j] is None && h2[i][j] == Some(key)) by {
            assert(h[i][j] == g[i][j] || (j != 0 && g[i][j] is None && h[i][j] == Some(key)));
        }
    }
}

/// Wiring a whole list of pairs into or out of `key` keeps the shape above.
proof fn lemma_connect_all_extends(h: Seq<Seq<Option<usize>>>, g: Seq<Seq<Option<usize>>>, key: usize, conns: Seq<(usize, usize)>)
    requires
        extends_with_node(h, g, key),
        names_nowhere(g, key),
        forall|k: int| 0 <= k < conns.len() ==> (#[trigger] conns[k]).0 == key || conns[k].1 == key,
    ensures
        extends_with_node(connect_all(h, conns), g, key),
    decreases conns.len(),
{
    if conns.len() > 0 {
        assert(conns[0].0 == key || conns[0].1 == key);
        lemma_connect_extends(h, g, key, conns[0].0, conns[0].1);
        let rest = conns.drop_first();
        assert forall|k: int| 0 <= k < rest.len() implies (#[trigger] rest[k]).0 == key || rest[k].1 == key by {
            assert(rest[k] == conns[k + 1]);
        }
        lemma_connect_all_extends(connect_rows(h, conns[0].0, conns[0].1), g, key, rest);
    }
}

/// Taking node `key` off a graph of that shape gives back `g`.
proof fn lemma_remove_extended(h: Seq<Seq<Option<usize>>>, g: Seq<Seq<Option<usize>>>, key: usize)
    requires
        extends_with_node(h, g, key),
        names_nowhere(g, key),
    ensures
        remove_node_rows(h, key) == g,
{
    let n = g.len() as int;
    assert forall|k: int| 0 <= k < n implies !#[trigger] is_row_of(h, key, k) by {
        if h[k].len() > 0 {
            assert(h[k][0] == g[k][0]);
            assert(g[k][0] != Some(key));
        }
    }
    assert(is_first_row_of(h, key, n));
    assert forall|m: int| #[trigger] is_first_row_of(h, key, m) implies m == n by {
        if m < n {
            assert(!is_row_of(h, key, m));
        }
    }
    let d = h.remove(n);
    assert(drop_first_row(h, key) == d);
    let c = clear_cells(d, key);
    assert forall|i: int| 0 <= i < g.len() implies #[trigger] c[i] =~= g[i] by {
        assert(d[i] == h[i]);
        assert forall|j: int| 0 <= j < g[i].len() implies c[i][j] == #[trigger] g[i][j] by {
            assert(h[i][j] == g[i][j] || (j != 0 && g[i][j] is None && h[i][j] == Some(key)));
            assert(g[i][j] != Some(key));
        }
    }
    assert(c =~= g);
}

/// Removing a gate undoes placing it together with every wire made into or
/// out of it: for an identifier that no gate carries and no cell names,
/// `add_existing_gate(gate, id)`, any number of `connect_gates(from, to)`
/// calls in which `from` or `to` is that gate, and then `remove_gate(id)`
/// give back the gates and the graph as they were.
pub proof fn law_remove_undoes_add_and_wiring(
    gates: Seq<Gate>,
    g: Seq<Seq<Option<usize>>>,
    gate: Gate,
    conns: Seq<(usize, usize)>,
)
    requires
        id_unused(gates, gate.id),
        names_nowhere(g, gate.id as usize),
        forall|k: int| 0 <= k < conns.len() ==> (#[trigger] conns[k]).0 == gate.id as usize || conns[k].1 == gate.id as usize,
    ensures
        remove_gate_from(gates.push(gate), gate.id) == gates,
        remove_node_rows(connect_all(g.push(row_starting(Some(gate.id as usize))), conns), gate.id as usize) == g,
{
    let key = gate.id as usize;
    law_remove_undoes_add(gates, g, gate);
    let h = g.push(row_starting(Some(key)));
    assert(extends_with_node(h, g, key)) by {
        assert forall|i: int| 0 <= i < g.len() implies (#[trigger] h[i]).len() == g[i].len() by {
            assert(h[i] == g[i]);
        }
        assert forall|i: int, j: int| 0 <= i < g.len() && 0 <= j < g[i].len() implies
            #[trigger] h[i][j] == g[i][j] || (j != 0 && g[i][j] is None && h[i][j] == Some(key)) by {
            assert(h[i] == g[i]);
        }
    }
    lemma_connect_all_extends(h, g, key, conns);
    lemma_remove_extended(connect_all(h, conns), g, key);
}

/// Successive identifiers: after `states[k]` hands out `ids[k]` and becomes
/// `states[k + 1]`, as `GateIds::take` does, for each `k`.
pub open spec fn successive_takes(states: Seq<GateIds>, ids: Seq<i32>) -> bool {
    &&& states.len() == ids.len() + 1
    &&& forall|k: int| 0 <= k < ids.len() ==> #[trigger] ids[k] == states[k].upcoming()
        && states[k + 1].upcoming() == states[k].upcoming() + 1
}

/// `n` calls of `GateIds::take` starting from identifier `g` hand out exactly
/// `g, g + 1, ..., g + n - 1`, all different, and leave `g + n` as the next one.
pub proof fn law_takes_count_up(states: Seq<GateIds>, ids: Seq<i32>)
    requires
        successive_takes(states, ids),
    ensures
        forall|k: int| 0 <= k < ids.len() ==> #[trigger] ids[k] == states[0].upcoming() + k,
        forall|j: int, k: int| 0 <= j < k < ids.len() ==> #[trigger] ids[j] != #[trigger] ids[k],
        states[ids.len() as int].upcoming() == states[0].upcoming() + ids.len(),
    decreases ids.len(),
{
    if ids.len() > 0 {
        let n = ids.len() - 1;
        let s2 = states.drop_last();
        let i2 = ids.drop_last();
        assert(successive_takes(s2, i2)) by {
            assert forall|k: int| 0 <= k < i2.len() implies #[trigger] i2[k] == s2[k].upcoming()
                && s2[k + 1].upcoming() == s2[k].upcoming() + 1 by {
                assert(ids[k] == states[k].upcoming() && states[k + 1].upcoming() == states[k].upcoming() + 1);
            }
        }
        law_takes_count_up(s2, i2);
        assert(ids[n] == states[n].upcoming() && states[n + 1].upcoming() == states[n].upcoming() + 1);
        assert(states[n] == s2[n]);
        assert forall|k: int| 0 <= k < ids.len() implies #[trigger] ids[k] == states[0].upcoming() + k by {
            if k < n {
                assert(ids[k] == i2[k]);
            }
        }
    }
}

/// A new graph has `size` rows of `ROW_WIDTH` cells: the first row holds `F`
/// in its first cell, and every other cell is empty.
pub proof fn law_fresh_rows_shape(size: nat)
    ensures
        fresh_rows(size).len() == size,
        forall|i: int, j: int| 0 <= i < size && 0 <= j < ROW_WIDTH ==>
            #[trigger] fresh_rows(size)[i][j] == (if i == 0 && j == 0 { Some(BOARD_F) } else { None }),
        forall|i: int| 0 <= i < size ==> (#[trigger] fresh_rows(size)[i]).len() == ROW_WIDTH,
{
}

/// The cell `(i, j)` is empty and lies in a row whose first cell is `from`.
pub open spec fn empty_cell_of(g: Seq<Seq<Option<usize>>>, from: usize, i: int, j: int) -> bool {
    0 <= i < g.len() && g[i].len() > 0 && g[i][0] == Some(from) && 0 <= j < g[i].len() && g[i][j] is None
}

proof fn lemma_first_empty_cell_exists(g: Seq<Seq<Option<usize>>>, from: usize, i: int, j: int)
    requires
        empty_cell_of(g, from, i, j),
    ensures
        exists|i0: int, j0: int| #[trigger] is_first_free_slot(g, from, i0, j0),
    decreases i, j,
{
    if exists|i2: int, j2: int| (i2 < i || (i2 == i && j2 < j)) && #[trigger] is_free_slot(g, from, i2, j2) {
        let (i2, j2) = choose|i2: int, j2: int| (i2 < i || (i2 == i && j2 < j)) && #[trigger] is_free_slot(g, from, i2, j2);
        lemma_first_empty_cell_exists(g, from, i2, j2);
    } else {
        assert(is_first_free_slot(g, from, i, j));
    }
}

/// Wiring `to` into node `from` writes `to` into exactly one cell, the first
/// empty cell, rows in order and cells in order, among the rows whose first
/// cell is `from`; with no such empty cell the graph stays as it was.
pub proof fn law_connect_fills_first_empty_cell(g: Seq<Seq<Option<usize>>>, from: usize, to: usize)
    ensures
        (forall|i: int, j: int| !#[trigger] empty_cell_of(g, from, i, j)) ==> connect_rows(g, from, to) == g,
        (exists|i: int, j: int| #[trigger] empty_cell_of(g, from, i, j)) ==> exists|i: int, j: int| {
            &&& #[trigger] empty_cell_of(g, from, i, j)
            &&& forall|i2: int, j2: int| (i2 < i || (i2 == i && j2 < j)) ==> !#[trigger] empty_cell_of(g, from, i2, j2)
            &&& connect_rows(g, from, to) == g.update(i, g[i].update(j, Some(to)))
        },
{
    if exists|i: int, j: int| #[trigger] empty_cell_of(g, from, i, j) {
        let (i, j) = choose|i: int, j: int| #[trigger] empty_cell_of(g, from, i, j);
        lemma_first_empty_cell_exists(g, from, i, j);
        let (i0, j0) = choose|i0: int, j0: int| #[trigger] is_first_free_slot(g, from, i0, j0);
        lemma_first_free_slot_unique(g, from, i0, j0);
        assert(empty_cell_of(g, from, i0, j0));
        assert forall|i2: int, j2: int| (i2 < i0 || (i2 == i0 && j2 < j0)) implies !#[trigger] empty_cell_of(g, from, i2, j2) by {
            assert(!is_free_slot(g, from, i2, j2));
        }
    } else {
        if exists|i0: int, j0: int| #[trigger] is_first_free_slot(g, from, i0, j0) {
            let (i0, j0) = choose|i0: int, j0: int| #[trigger] is_first_free_slot(g, from, i0, j0);
            assert(empty_cell_of(g, from, i0, j0));
        }
    }
}

/// Taking node `key` off the graph leaves no cell naming it, drops exactly
/// one row when some row's first cell is `key` and none otherwise, and
/// changes no other cell.
pub proof fn law_remove_node_clears_it(g: Seq<Seq<Option<usize>>>, key: usize)
    ensures
        names_nowhere(remove_node_rows(g, key), key),
        (exists|i: int| 0 <= i < g.len() && (#[trigger] g[i]).len() > 0 && g[i][0] == Some(key))
            ==> remove_node_rows(g, key).len() == g.len() - 1,
        (forall|i: int| 0 <= i < g.len() && (#[trigger] g[i]).len() > 0 ==> g[i][0] != Some(key))
            ==> remove_node_rows(g, key).len() == g.len()
                && forall|i: int, j: int| 0 <= i < g.len() && 0 <= j < g[i].len() ==>
                    #[trigger] remove_node_rows(g, key)[i][j] == (if g[i][j] == Some(key) { None } else { g[i][j] }),
{
    let h = remove_node_rows(g, key);
    if exists|i: int| 0 <= i < g.len() && (#[trigger] g[i]).len() > 0 && g[i][0] == Some(key) {
        let i = choose|i: int| 0 <= i < g.len() && (#[trigger] g[i]).len() > 0 && g[i][0] == Some(key);
        assert(is_row_of(g, key, i));
        lemma_first_row_exists(g, key, i);
    } else {
        assert forall|i: int| !#[trigger] is_first_row_of(g, key, i) by {
            if 0 <= i < g.len() && g[i].len() > 0 {
                assert(g[i][0] != Some(key));
            }
        }
    }
}

proof fn lemma_first_row_exists(g: Seq<Seq<Option<usize>>>, key: usize, i: int)
    requires
        is_row_of(g, key, i),
    ensures
        exists|f: int| #[trigger] is_first_row_of(g, key, f),
    decreases i,
{
    if exists|m: int| 0 <= m < i && #[trigger] is_row_of(g, key, m) {
        let m = choose|m: int| 0 <= m < i && #[trigger] is_row_of(g, key, m);
        lemma_first_row_exists(g, key, m);
    } else {
        assert(is_first_row_of(g, key, i));
    }
}

/// Removing gate `id` from the list takes out exactly the first gate with
/// that identifier and keeps the others in order; with no such gate the list
/// stays as it was.
pub proof fn law_remove_gate_takes_first(gates: Seq<Gate>, id: i32)
    ensures
        (forall|k: int| 0 <= k < gates.len() ==> (#[trigger] gates[k]).id != id) ==> remove_gate_from(gates, id) == gates,
        (exists|k: int| 0 <= k < gates.len() && (#[trigger] gates[k]).id == id) ==> exists|k: int| {
            &&& 0 <= k < gates.len()
            &&& (#[trigger] gates[k]).id == id
            &&& forall|m: int| 0 <= m < k ==> (#[trigger] gates[m]).id != id
            &&& remove_gate_from(gates, id) == gates.remove(k)
        },
{
    if exists|k: int| 0 <= k < gates.len() && (#[trigger] gates[k]).id == id {
        let k = choose|k: int| 0 <= k < gates.len() && (#[trigger] gates[k]).id == id;
        lemma_first_gate_with_exists(gates, id, k);
        let f = choose|f: int| #[trigger] is_first_gate_with(gates, id, f);
        assert forall|m: int| #[trigger] is_first_gate_with(gates, id, m) implies m == f by {
            if m < f {
                assert(gates[m].id != id);
            } else if f < m {
                assert(gates[f].id != id);
            }
        }
        assert(remove_gate_from(gates, id) == gates.remove(f));
        assert(0 <= f < gates.len() && gates[f].id == id);
        assert(forall|m: int| 0 <= m < f ==> (#[trigger] gates[m]).id != id);
    } else {
        assert forall|m: int| !#[trigger] is_first_gate_with(gates, id, m) by {
            if 0 <= m < gates.len() {
                assert(gates[m].id != id);
            }
        }
    }
}

proof fn lemma_first_gate_with_exists(gates: Seq<Gate>, id: i32, k: int)
    requires
        0 <= k < gates.len(),
        gates[k].id == id,
    ensures
        exists|f: int| #[trigger] is_first_gate_with(gates, id, f),
    decreases k,
{
    if exists|m: int| 0 <= m < k && (#[trigger] gates[m]).id == id {
        let m = choose|m: int| 0 <= m < k && (#[trigger] gates[m]).id == id;
        lemma_first_gate_with_exists(gates, id, m);
    } else {
        assert(is_first_gate_with(gates, id, k));
    }
}

/// A new circuit is not connected: nothing is wired into `F`, so `A` cannot be reached from it.
pub proof fn law_fresh_circuit_not_connected(size: nat)
    requires
        size > 0,
    ensures
        !reachable(fresh_rows(size), BOARD_F, BOARD_A),
{
    let g = fresh_rows(size);
    assert(is_row_of(g, BOARD_F, 0));
    assert forall|d: usize| !#[trigger] edge(g, BOARD_F, d) by {
        if edge(g, BOARD_F, d) {
            let (i, j) = choose|i: int, j: int|
                is_first_row_of(g, BOARD_F, i) && 1 <= j < g[i].len() && g[i][j] == Some(d);
            if i > 0 {
                assert(!is_row_of(g, BOARD_F, 0));
            }
        }
    }
    if reachable(g, BOARD_F, BOARD_A) {
        let p = choose|p: Seq<usize>| #[trigger] is_path(g, p) && p[0] == BOARD_F && p[p.len() - 1] == BOARD_A;
        let k: int = 0;
        assert(edge(g, p[k], p[k + 1]));
    }
}

/// Wiring `F` straight to `A` connects a new circuit.
pub proof fn law_wiring_f_to_a_connects(size: nat)
    requires
        size > 0,
    ensures
        reachable(connect_rows(fresh_rows(size), BOARD_F, BOARD_A), BOARD_F, BOARD_A),
{
    let g = fresh_rows(size);
    assert(is_first_free_slot(g, BOARD_F, 0, 1)) by {
        assert forall|i2: int, j2: int| (i2 < 0 || (i2 == 0 && j2 < 1)) implies !#[trigger] is_free_slot(g, BOARD_F, i2, j2) by {}
    }
    lemma_first_free_slot_unique(g, BOARD_F, 0, 1);
    let h = connect_rows(g, BOARD_F, BOARD_A);
    assert(h == g.update(0, g[0].update(1, Some(BOARD_A))));
    assert(is_first_row_of(h, BOARD_F, 0));
    assert(edge(h, BOARD_F, BOARD_A)) by {
        assert(h[0][1] == Some(BOARD_A));
    }
    let p = seq![BOARD_F, BOARD_A];
    assert(is_path(h, p)) by {
        assert forall|k: int| 0 <= k < p.len() - 1 implies #[trigger] edge(h, p[k], p[k + 1]) by {
            assert(k == 0);
        }
    }
}

/// Wiring never cuts a connection: whatever could be reached before
/// `connect_gates` can still be reached after it.
pub proof fn law_connect_keeps_reachability(g: Seq<Seq<Option<usize>>>, from: usize, to: usize, s: usize, t: usize)
    requires
        reachable(g, s, t),
    ensures
        reachable(connect_rows(g, from, to), s, t),
{
    let h = connect_rows(g, from, to);
    assert forall|a: usize, b: usize| #[trigger] edge(g, a, b) implies edge(h, a, b) by {
        lemma_connect_keeps_edge(g, from, to, a, b);
    }
    let p = choose|p: Seq<usize>| #[trigger] is_path(g, p) && p[0] == s && p[p.len() - 1] == t;
    assert forall|k: int| 0 <= k < p.len() - 1 implies #[trigger] edge(h, p[k], p[k + 1]) by {
        assert(edge(g, p[k], p[k + 1]));
    }
    assert(is_path(h, p));
}

/// Filling an empty cell keeps every edge.
proof fn lemma_connect_keeps_edge(g: Seq<Seq<Option<usize>>>, from: usize, to: usize, a: usize, b: usize)
    requires
        edge(g, a, b),
    ensures
        edge(connect_rows(g, from, to), a, b),
{
    let h = connect_rows(g, from, to);
    let (i, j) = choose|i: int, j: int|
        #![trigger is_first_row_of(g, a, i), g[i][j]]
        is_first_row_of(g, a, i) && 1 <= j < g[i].len() && g[i][j] == Some(b);
    if exists|i0: int, j0: int| #[trigger] is_first_free_slot(g, from, i0, j0) {
        let (i0, j0) = choose|i0: int, j0: int| #[trigger] is_first_free_slot(g, from, i0, j0);
        assert(h == g.update(i0, g[i0].update(j0, Some(to))));
        assert(j0 != 0);
        assert forall|r: int| 0 <= r < g.len() implies #[trigger] is_row_of(h, a, r) == is_row_of(g, a, r) by {
            if r == i0 {
                assert(h[r][0] == g[r][0]);
            }
        }
        assert(is_first_row_of(h, a, i));
        assert(h[i][j] == Some(b));
    }
}

/// Once a gate is removed nothing leads to it: the only walk that ends at
/// its node is the walk that starts there.
pub proof fn law_removed_node_unreachable(g: Seq<Seq<Option<usize>>>, key: usize, s: usize)
    requires
        reachable(remove_node_rows(g, key), s, key),
    ensures
        s == key,
{
    let h = remove_node_rows(g, key);
    let p = choose|p: Seq<usize>| #[trigger] is_path(h, p) && p[0] == s && p[p.len() - 1] == key;
    if p.len() > 1 {
        let k = p.len() - 2;
        assert(edge(h, p[k], p[k + 1]));
        let (i, j) = choose|i: int, j: int|
            #![trigger is_first_row_of(h, p[k], i), h[i][j]]
            is_first_row_of(h, p[k], i) && 1 <= j < h[i].len() && h[i][j] == Some(key);
        assert(false);
    }
}

/// Removing a gate undoes placing it: for an identifier that no gate carries
/// and no cell names, `add_existing_gate(gate, id)` followed by
/// `remove_gate(id)` gives back the gates and the graph as they were.
pub proof fn law_remove_undoes_add(gates: Seq<Gate>, g: Seq<Seq<Option<usize>>>, gate: Gate)
    requires
        id_unused(gates, gate.id),
        names_nowhere(g, gate.id as usize),
    ensures
        remove_gate_from(gates.push(gate), gate.id) == gates,
        remove_node_rows(g.push(row_starting(Some(gate.id as usize))), gate.id as usize) == g,
{
    let id = gate.id;
    let key = gate.id as usize;
    let gs = gates.push(gate);
    assert(is_first_gate_with(gs, id, gates.len() as int)) by {
        assert forall|m: int| 0 <= m < gates.len() implies (#[trigger] gs[m]).id != id by {
            assert(gs[m] == gates[m]);
        }
    }
    assert forall|m: int| #[trigger] is_first_gate_with(gs, id, m) implies m == gates.len() by {
        if m < gates.len() {
            assert(gs[m] == gates[m]);
        }
    }
    assert(gs.remove(gates.len() as int) =~= gates);

    let h = g.push(row_starting(Some(key)));
    let n = g.len() as int;
    assert(is_first_row_of(h, key, n)) by {
        assert forall|k: int| 0 <= k < n implies !#[trigger] is_row_of(h, key, k) by {
            assert(h[k] == g[k]);
            if g[k].len() > 0 {
                assert(g[k][0] != Some(key));
            }
        }
    }
    assert forall|m: int| #[trigger] is_first_row_of(h, key, m) implies m == n by {
        if m < n {
            assert(h[m] == g[m]);
            assert(g[m][0] != Some(key));
        }
    }
    assert(drop_first_row(h, key) == g) by {
        assert(h.remove(n) =~= g);
    }
    assert(clear_cells(g, key) =~= g) by {
        assert forall|i: int| 0 <= i < g.len() implies #[trigger] clear_cells(g, key)[i] =~= g[i] by {
            assert forall|j: int| 0 <= j < g[i].len() implies clear_cells(g, key)[i][j] == #[trigger] g[i][j] by {
                assert(g[i][j] != Some(key));
            }
        }
    }
}

} // verus!
