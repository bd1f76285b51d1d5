//! The wiring graph of one level.
//!
//! Each row of the graph belongs to one node: its first cell holds the node's
//! identifier and the remaining cells hold the identifiers of the nodes that
//! feed it. The search for a connection starts at the board's `F` port and
//! follows those cells towards the board's `A` port.

use vstd::prelude::*;
use crate::gate::{Gate, GateIds, GateType, input_count};

verus! {

/// Identifier of the board's `A` port, where a connected search ends.
pub const BOARD_A: usize = 10000;

/// Identifier of the board's `F` port, where the search for a connection starts.
pub const BOARD_F: usize = 10001;

/// Number of inputs of the level that follows the first.
pub const NEXT_LEVEL_INPUTS: u32 = 2;

/// Number of rows the graph of the following level starts with.
pub const NEXT_LEVEL_ROWS: usize = 1;

/// Number of cells in every row that the circuit creates.
pub const ROW_WIDTH: usize = 8;

/// A row of `ROW_WIDTH` cells whose first cell is `first` and whose other cells are empty.
pub open spec fn row_starting(first: Option<usize>) -> Seq<Option<usize>> {
    Seq::new(ROW_WIDTH as nat, |j: int| if j == 0 { first } else { None })
}

/// The graph of a new circuit with `size` rows: the first row belongs to `F`,
/// the others are empty.
pub open spec fn fresh_rows(size: nat) -> Seq<Seq<Option<usize>>> {
    Seq::new(size, |i: int| if i == 0 { row_starting(Some(BOARD_F)) } else { row_starting(None) })
}

/// Every row has a first cell.
pub open spec fn rows_well_formed(g: Seq<Seq<Option<usize>>>) -> bool {
    forall|i: int| 0 <= i < g.len() ==> #[trigger] g[i].len() > 0
}

/// Row `i` belongs to node `key`.
pub open spec fn is_row_of(g: Seq<Seq<Option<usize>>>, key: usize, i: int) -> bool {
    0 <= i < g.len() && g[i].len() > 0 && g[i][0] == Some(key)
}

/// Row `i` is the first row that belongs to node `key`.
pub open spec fn is_first_row_of(g: Seq<Seq<Option<usize>>>, key: usize, i: int) -> bool {
    &&& is_row_of(g, key, i)
    &&& forall|k: int| 0 <= k < i ==> !#[trigger] is_row_of(g, key, k)
}

/// Some row belongs to node `key`.
pub open spec fn has_row(g: Seq<Seq<Option<usize>>>, key: usize) -> bool {
    exists|i: int| #[trigger] is_row_of(g, key, i)
}

/// Node `b` feeds node `a`: it stands in a cell after the first one of `a`'s first row.
pub open spec fn edge(g: Seq<Seq<Option<usize>>>, a: usize, b: usize) -> bool {
    exists|i: int, j: int|
        #![trigger is_first_row_of(g, a, i), g[i][j]]
        is_first_row_of(g, a, i) && 1 <= j < g[i].len() && g[i][j] == Some(b)
}

/// `p` is a walk along edges.
pub open spec fn is_path(g: Seq<Seq<Option<usize>>>, p: Seq<usize>) -> bool {
    &&& p.len() > 0
    &&& forall|k: int| 0 <= k < p.len() - 1 ==> #[trigger] edge(g, p[k], p[k + 1])
}

/// Node `t` can be reached from node `s` by following edges.
pub open spec fn reachable(g: Seq<Seq<Option<usize>>>, s: usize, t: usize) -> bool {
    exists|p: Seq<usize>| #[trigger] is_path(g, p) && p[0] == s && p[p.len() - 1] == t
}

/// Cell `j` of row `i` is empty and the row belongs to node `key`.
pub open spec fn is_free_slot(g: Seq<Seq<Option<usize>>>, key: usize, i: int, j: int) -> bool {
    is_row_of(g, key, i) && 0 <= j < g[i].len() && g[i][j] is None
}

/// Cell `j` of row `i` is the first free slot of node `key`, rows in order and cells in order.
pub open spec fn is_first_free_slot(g: Seq<Seq<Option<usize>>>, key: usize, i: int, j: int) -> bool {
    &&& is_free_slot(g, key, i, j)
    &&& forall|i2: int, j2: int|
        (i2 < i || (i2 == i && j2 < j)) ==> !#[trigger] is_free_slot(g, key, i2, j2)
}

/// Some row of node `key` has an empty cell.
pub open spec fn has_free_slot(g: Seq<Seq<Option<usize>>>, key: usize) -> bool {
    exists|i: int, j: int| #[trigger] is_free_slot(g, key, i, j)
}

/// The graph after wiring `to` into the first free slot of node `from`, if it has one.
pub open spec fn connect_rows(g: Seq<Seq<Option<usize>>>, from: usize, to: usize) -> Seq<Seq<Option<usize>>> {
    if exists|i: int, j: int| #[trigger] is_first_free_slot(g, from, i, j) {
        let (i, j) = choose|i: int, j: int| #[trigger] is_first_free_slot(g, from, i, j);
        g.update(i, g[i].update(j, Some(to)))
    } else {
        g
    }
}

/// Every cell that holds `key` emptied.
pub open spec fn clear_cells(g: Seq<Seq<Option<usize>>>, key: usize) -> Seq<Seq<Option<usize>>> {
    Seq::new(
        g.len(),
        |i: int| Seq::new(g[i].len(), |j: int| if g[i][j] == Some(key) { None } else { g[i][j] }),
    )
}

/// The graph without the first row of node `key`, if there is one.
pub open spec fn drop_first_row(g: Seq<Seq<Option<usize>>>, key: usize) -> Seq<Seq<Option<usize>>> {
    if exists|i: int| #[trigger] is_first_row_of(g, key, i) {
        g.remove(choose|i: int| #[trigger] is_first_row_of(g, key, i))
    } else {
        g
    }
}

/// The graph once node `key` is taken off the board: its first row goes, and
/// every cell that named it is emptied.
pub open spec fn remove_node_rows(g: Seq<Seq<Option<usize>>>, key: usize) -> Seq<Seq<Option<usize>>> {
    clear_cells(drop_first_row(g, key), key)
}

/// Gate `k` is the first gate with identifier `id`.
pub open spec fn is_first_gate_with(gates: Seq<Gate>, id: i32, k: int) -> bool {
    &&& 0 <= k < gates.len()
    &&& gates[k].id == id
    &&& forall|m: int| 0 <= m < k ==> (#[trigger] gates[m]).id != id
}

/// The gates without the first gate that has identifier `id`, if there is one.
pub open spec fn remove_gate_from(gates: Seq<Gate>, id: i32) -> Seq<Gate> {
    if exists|k: int| #[trigger] is_first_gate_with(gates, id, k) {
        gates.remove(choose|k: int| #[trigger] is_first_gate_with(gates, id, k))
    } else {
        gates
    }
}

/// At most one cell is the first free slot of a node.
pub proof fn lemma_first_free_slot_unique(g: Seq<Seq<Option<usize>>>, key: usize, i: int, j: int)
    requires
        is_first_free_slot(g, key, i, j),
    ensures
        forall|i2: int, j2: int| #[trigger] is_first_free_slot(g, key, i2, j2) ==> i2 == i && j2 == j,
{
    assert forall|i2: int, j2: int| #[trigger] is_first_free_slot(g, key, i2, j2) implies i2 == i && j2 == j by {
        if i2 < i || (i2 == i && j2 < j) {
            assert(!is_free_slot(g, key, i2, j2));
        } else if i < i2 || (i2 == i && j < j2) {
            assert(!is_free_slot(g, key, i, j));
        }
    }
}

/// Dropping a row and emptying cells keeps every row with a first cell.
pub proof fn lemma_remove_node_rows_well_formed(g: Seq<Seq<Option<usize>>>, key: usize)
    requires
        rows_well_formed(g),
    ensures
        rows_well_formed(remove_node_rows(g, key)),
{
    let d = drop_first_row(g, key);
    assert(rows_well_formed(d)) by {
        if exists|i: int| #[trigger] is_first_row_of(g, key, i) {
            let i = choose|i: int| #[trigger] is_first_row_of(g, key, i);
            assert forall|r: int| 0 <= r < d.len() implies #[trigger] d[r].len() > 0 by {
                if r < i {
                    assert(d[r] == g[r]);
                } else {
                    assert(d[r] == g[r + 1]);
                }
            }
        }
    }
}

/// The identifiers held in the cells of a row, in order.
pub open spec fn row_nodes(r: Seq<Option<usize>>) -> Seq<usize>
    decreases r.len(),
{
    if r.len() == 0 {
        Seq::empty()
    } else {
        row_nodes(r.drop_last()) + match r.last() {
            Some(x) => seq![x],
            None => Seq::empty(),
        }
    }
}

/// The identifiers held in the cells of a graph, row by row.
pub open spec fn graph_nodes(g: Seq<Seq<Option<usize>>>) -> Seq<usize>
    decreases g.len(),
{
    if g.len() == 0 {
        Seq::empty()
    } else {
        graph_nodes(g.drop_last()) + row_nodes(g.last())
    }
}

/// Every identifier in a cell of a row is listed by `row_nodes`.
proof fn lemma_row_nodes_contains(r: Seq<Option<usize>>, j: int)
    requires
        0 <= j < r.len(),
        r[j] is Some,
    ensures
        row_nodes(r).contains(r[j]->0),
    decreases r.len(),
{
    let x = r[j]->0;
    if j == r.len() - 1 {
        let front = row_nodes(r.drop_last());
        assert((front + seq![x])[front.len() as int] == x);
    } else {
        lemma_row_nodes_contains(r.drop_last(), j);
        let front = row_nodes(r.drop_last());
        let k = choose|k: int| 0 <= k < front.len() && front[k] == x;
        let back = match r.last() {
            Some(y) => seq![y],
            None => Seq::<usize>::empty(),
        };
        assert((front + back)[k] == x);
    }
}

/// Every identifier in a cell of a graph is listed by `graph_nodes`.
proof fn lemma_graph_nodes_contains(g: Seq<Seq<Option<usize>>>, i: int, j: int)
    requires
        0 <= i < g.len(),
        0 <= j < g[i].len(),
        g[i][j] is Some,
    ensures
        graph_nodes(g).contains(g[i][j]->0),
    decreases g.len(),
{
    let x = g[i][j]->0;
    let front = graph_nodes(g.drop_last());
    let back = row_nodes(g.last());
    if i == g.len() - 1 {
        lemma_row_nodes_contains(g.last(), j);
        let k = choose|k: int| 0 <= k < back.len() && back[k] == x;
        assert((front + back)[front.len() + k] == x);
    } else {
        assert(g.drop_last()[i] == g[i]);
        lemma_graph_nodes_contains(g.drop_last(), i, j);
        let k = choose|k: int| 0 <= k < front.len() && front[k] == x;
        assert((front + back)[k] == x);
    }
}

/// A sequence without repeats whose items all lie in a finite set is no longer than the set.
proof fn lemma_distinct_within_set(v: Seq<usize>, u: Set<usize>)
    requires
        v.no_duplicates(),
        u.finite(),
        forall|k: int| 0 <= k < v.len() ==> u.contains(#[trigger] v[k]),
    ensures
        v.len() <= u.len(),
{
    v.unique_seq_to_set();
    assert(v.to_set().subset_of(u));
    vstd::set_lib::lemma_len_subset(v.to_set(), u);
}

/// A walk that ends at `a` extends by an edge out of `a`.
proof fn lemma_reachable_step(g: Seq<Seq<Option<usize>>>, s: usize, a: usize, b: usize)
    requires
        reachable(g, s, a),
        edge(g, a, b),
    ensures
        reachable(g, s, b),
{
    let p = choose|p: Seq<usize>| #[trigger] is_path(g, p) && p[0] == s && p[p.len() - 1] == a;
    let q = p.push(b);
    assert forall|k: int| 0 <= k < q.len() - 1 implies #[trigger] edge(g, q[k], q[k + 1]) by {
        if k < p.len() - 1 {
            assert(q[k] == p[k] && q[k + 1] == p[k + 1]);
        }
    }
    assert(is_path(g, q));
}

/// A set of nodes that holds the start of a walk and everything fed into its
/// members holds the end of the walk.
proof fn lemma_closed_holds_path(g: Seq<Seq<Option<usize>>>, v: Seq<usize>, p: Seq<usize>)
    requires
        is_path(g, p),
        v.contains(p[0]),
        forall|x: usize, d: usize| v.contains(x) && #[trigger] edge(g, x, d) ==> v.contains(d),
    ensures
        v.contains(p[p.len() - 1]),
    decreases p.len(),
{
    if p.len() > 1 {
        let q = p.drop_last();
        assert forall|k: int| 0 <= k < q.len() - 1 implies #[trigger] edge(g, q[k], q[k + 1]) by {
            assert(edge(g, p[k], p[k + 1]));
        }
        lemma_closed_holds_path(g, v, q);
        let k = p.len() - 2;
        assert(edge(g, p[k], p[k + 1]));
    }
}

/// An item of a sequence with one more item pushed is that item or an item of the sequence.
proof fn lemma_pop_contains(longer: Seq<usize>, shorter: Seq<usize>, last: usize, x: usize)
    requires
        longer == shorter.push(last),
        longer.contains(x),
    ensures
        x == last || shorter.contains(x),
{
    let k = choose|k: int| 0 <= k < longer.len() && longer[k] == x;
    if k < shorter.len() {
        assert(shorter[k] == x);
    }
}

/// Pushing keeps the items already there.
proof fn lemma_contains_push(s: Seq<usize>, last: usize, x: usize)
    requires
        s.contains(x),
    ensures
        s.push(last).contains(x),
{
    let k = choose|k: int| 0 <= k < s.len() && s[k] == x;
    assert(s.push(last)[k] == x);
}

/// An item of a pushed sequence other than the pushed one was there before.
proof fn lemma_push_contains(s: Seq<usize>, last: usize, x: usize)
    requires
        s.push(last).contains(x),
        x != last,
    ensures
        s.contains(x),
{
    lemma_pop_contains(s.push(last), s, last, x);
}

/// Whether `x` is among the items of `v`.
fn contains_node(v: &Vec<usize>, x: usize) -> (b: bool)
    ensures
        b == v@.contains(x),
{
    let mut k: usize = 0;
    while k < v.len()
        invariant
            k <= v@.len(),
            forall|m: int| 0 <= m < k ==> v@[m] != x,
        decreases v@.len() - k,
    {
        if v[k] == x {
            return true;
        }
        k = k + 1;
    }
    false
}

/// The gates and wiring of one level.
pub struct Circuit {
    pub gates: Vec<Gate>,
    pub graph: Vec<Vec<Option<usize>>>,
    pub num_inputs: u32,
}

/// The circuit of the level being played.
pub struct ActiveCircuit(pub Circuit);

impl Circuit {
    /// The graph as a sequence of rows of cells.
    pub open spec fn rows(&self) -> Seq<Seq<Option<usize>>> {
        self.graph@.map_values(|r: Vec<Option<usize>>| r@)
    }

    /// Every row of the graph has a first cell.
    pub open spec fn well_formed(&self) -> bool {
        rows_well_formed(self.rows())
    }
}

/// A new row of `ROW_WIDTH` cells holding `first` in its first cell.
fn new_row(first: Option<usize>) -> (row: Vec<Option<usize>>)
    ensures
        row@ == row_starting(first),
{
    let mut row: Vec<Option<usize>> = Vec::new();
    row.push(first);
    while row.len() < ROW_WIDTH
        invariant
            1 <= row.len() <= ROW_WIDTH,
            forall|j: int| 0 <= j < row.len() ==> row@[j] == row_starting(first)[j],
        decreases ROW_WIDTH - row.len(),
    {
        row.push(None);
    }
    assert(row@ =~= row_starting(first));
    row
}

impl Circuit {
    /// A circuit for a level with `num_inputs` inputs and a graph of `size`
    /// rows, the first of which belongs to the board's `F` port.
    pub fn new(num_inputs: u32, size: usize) -> (c: Self)
        requires
            size > 0,
        ensures
            c.gates@.len() == 0,
            c.rows() == fresh_rows(size as nat),
            c.num_inputs == num_inputs,
            c.well_formed(),
    {
        let mut graphing: Vec<Vec<Option<usize>>> = Vec::new();
        let mut k: usize = 0;
        while k < size
            invariant
                k <= size,
                graphing@.len() == k,
                forall|i: int| 0 <= i < k ==> (#[trigger] graphing@[i])@ == fresh_rows(size as nat)[i],
            decreases size - k,
        {
            if k == 0 {
                graphing.push(new_row(Some(BOARD_F)));
            } else {
                graphing.push(new_row(None));
            }
            k = k + 1;
        }
        let c = Circuit { gates: Vec::with_capacity(size), graph: graphing, num_inputs };
        assert(c.rows() =~= fresh_rows(size as nat));
        c
    }

    /// The empty circuit that "To the Next Level" starts: `NEXT_LEVEL_INPUTS`
    /// inputs and a graph of `NEXT_LEVEL_ROWS` row, the row of `F`.
    pub fn next_level() -> (c: Self)
        ensures
            c.gates@.len() == 0,
            c.num_inputs == NEXT_LEVEL_INPUTS,
            c.rows() == fresh_rows(NEXT_LEVEL_ROWS as nat),
            c.rows() == seq![row_starting(Some(BOARD_F))],
            c.well_formed(),
    {
        let c = Circuit::new(NEXT_LEVEL_INPUTS, NEXT_LEVEL_ROWS);
        assert(fresh_rows(NEXT_LEVEL_ROWS as nat) =~= seq![row_starting(Some(BOARD_F))]);
        c
    }

    /// Places `gate` on the board: it joins the list and the graph gets
    /// a new row that belongs to `id`.
    pub fn add_existing_gate(&mut self, gate: Gate, id: usize)
        ensures
            final(self).gates@ == old(self).gates@.push(gate),
            final(self).rows() == old(self).rows().push(row_starting(Some(id))),
            final(self).num_inputs == old(self).num_inputs,
            old(self).well_formed() ==> final(self).well_formed(),
    {
        self.gates.push(gate);
        let row = new_row(Some(id));
        self.graph.push(row);
        assert(self.rows() =~= old(self).rows().push(row_starting(Some(id))));
    }

    /// Places a new gate of the given kind, with one input for NOT and two
    /// otherwise, under the next identifier from `ids`.
    pub fn add_gate(&mut self, gate_type: GateType, ids: &mut GateIds)
        requires
            old(ids).upcoming() < i32::MAX,
        ensures
            final(self).gates@.len() == old(self).gates@.len() + 1,
            final(self).gates@.drop_last() == old(self).gates@,
            final(self).gates@.last().kind == gate_type,
            final(self).gates@.last().input_states@ == Seq::new(input_count(gate_type), |i: int| false),
            final(self).gates@.last().output == false,
            final(self).gates@.last().id == old(ids).upcoming(),
            final(ids).upcoming() == old(ids).upcoming() + 1,
            final(self).rows() == old(self).rows().push(row_starting(Some(old(ids).upcoming() as usize))),
            final(self).num_inputs == old(self).num_inputs,
            old(self).well_formed() ==> final(self).well_formed(),
    {
        let value: i32 = match gate_type {
            GateType::NOT => 1,
            _ => 2,
        };
        let insert = Gate::new(gate_type, value as usize, ids);
        let curr_id = insert.id as usize;
        self.add_existing_gate(insert, curr_id);
        assert(self.gates@.drop_last() =~= old(self).gates@);
    }
    /// Wires `to_id` into the first empty cell of the first row of `from_id`
    /// that has one; does nothing when no row of `from_id` has an empty cell.
    pub fn connect_gates(&mut self, from_id: usize, to_id: usize)
        requires
            old(self).well_formed(),
        ensures
            final(self).rows() == connect_rows(old(self).rows(), from_id, to_id),
            final(self).gates == old(self).gates,
            final(self).num_inputs == old(self).num_inputs,
            final(self).well_formed(),
    {
        let ghost g = self.rows();
        let n = self.graph.len();
        let mut i: usize = 0;
        while i < n
            invariant
                n == self.graph@.len(),
                i <= n,
                self.rows() == g,
                g == old(self).rows(),
                self.gates == old(self).gates,
                self.num_inputs == old(self).num_inputs,
                rows_well_formed(g),
                forall|i2: int, j2: int| 0 <= i2 < i ==> !#[trigger] is_free_slot(g, from_id, i2, j2),
            decreases n - i,
        {
            assert(self.graph@[i as int]@ == g[i as int]);
            if self.graph[i][0] == Some(from_id) {
                let m = self.graph[i].len();
                let mut v: usize = 0;
                while v < m
                    invariant
                        n == self.graph@.len(),
                        i < n,
                        m == g[i as int].len(),
                        v <= m,
                        self.rows() == g,
                g == old(self).rows(),
                        self.gates == old(self).gates,
                        self.num_inputs == old(self).num_inputs,
                        rows_well_formed(g),
                        is_row_of(g, from_id, i as int),
                        forall|i2: int, j2: int| 0 <= i2 < i ==> !#[trigger] is_free_slot(g, from_id, i2, j2),
                        forall|j2: int| 0 <= j2 < v ==> !#[trigger] is_free_slot(g, from_id, i as int, j2),
                    decreases m - v,
                {
                    assert(self.graph@[i as int]@ == g[i as int]);
                    if self.graph[i][v].is_none() {
                        proof {
                            assert(is_first_free_slot(g, from_id, i as int, v as int));
                            lemma_first_free_slot_unique(g, from_id, i as int, v as int);
                        }
                        self.graph[i][v] = Some(to_id);
                        assert(self.rows() =~= g.update(i as int, g[i as int].update(v as int, Some(to_id))));
                        return;
                    }
                    v = v + 1;
                }
            }
            i = i + 1;
        }
        proof {
            if exists|i2: int, j2: int| #[trigger] is_first_free_slot(g, from_id, i2, j2) {
                let (i2, j2) = choose|i2: int, j2: int| #[trigger] is_first_free_slot(g, from_id, i2, j2);
                assert(is_free_slot(g, from_id, i2, j2));
            }
        }
    }
    /// Takes gate `get_id` off the board: the first gate
    /// with that identifier leaves the list, the first row that belongs to it
    /// leaves the graph, and every cell that names it is emptied.
    pub fn remove_gate(&mut self, get_id: i32)
        requires
            old(self).well_formed(),
        ensures
            final(self).gates@ == remove_gate_from(old(self).gates@, get_id),
            final(self).rows() == remove_node_rows(old(self).rows(), get_id as usize),
            final(self).num_inputs == old(self).num_inputs,
            final(self).well_formed(),
    {
        // The first gate with this identifier.
        let mut index: usize = 0;
        let mut found = false;
        let mut k: usize = 0;
        while !found && k < self.gates.len()
            invariant
                k <= self.gates@.len(),
                self.gates == old(self).gates,
                found ==> is_first_gate_with(self.gates@, get_id, index as int),
                forall|m: int| 0 <= m < k ==> (#[trigger] self.gates@[m]).id != get_id,
            decreases self.gates@.len() - k, if found { 0int } else { 1int },
        {
            if self.gates[k].id == get_id {
                index = k;
                found = true;
            } else {
                k = k + 1;
            }
        }
        proof {
            if found {
                assert forall|m: int| #[trigger] is_first_gate_with(self.gates@, get_id, m) implies m == index by {
                    if m < index {
                        assert(self.gates@[m].id != get_id);
                    } else if index < m {
                        assert(self.gates@[index as int].id != get_id);
                    }
                }
            } else {
                assert forall|m: int| !#[trigger] is_first_gate_with(self.gates@, get_id, m) by {
                    if 0 <= m < self.gates@.len() {
                        assert(self.gates@[m].id != get_id);
                    }
                }
            }
        }
        if found {
            self.gates.remove(index);
        }

        // The first row that belongs to it.
        let row_id = get_id as usize;
        let ghost g = self.rows();
        let mut i: usize = 0;
        let mut removed = false;
        while !removed && i < self.graph.len()
            invariant
                g == old(self).rows(),
                rows_well_formed(g),
                i <= g.len(),
                !removed ==> self.rows() == g,
                forall|k2: int| 0 <= k2 < i ==> !#[trigger] is_row_of(g, row_id, k2),
                removed ==> self.rows() == drop_first_row(g, row_id),
                self.gates@ == remove_gate_from(old(self).gates@, get_id),
                self.num_inputs == old(self).num_inputs,
            decreases g.len() - i, if removed { 0int } else { 1int },
        {
            assert(self.graph@[i as int]@ == g[i as int]);
            if self.graph[i][0] == Some(row_id) {
                proof {
                    assert(is_first_row_of(g, row_id, i as int));
                    assert forall|m: int| #[trigger] is_first_row_of(g, row_id, m) implies m == i by {
                        if m < i {
                            assert(!is_row_of(g, row_id, m));
                        } else if i < m {
                            assert(!is_row_of(g, row_id, i as int));
                        }
                    }
                }
                self.graph.remove(i);
                assert(self.rows() =~= g.remove(i as int));
                removed = true;
            } else {
                i = i + 1;
            }
        }
        proof {
            if !removed {
                assert forall|m: int| !#[trigger] is_first_row_of(g, row_id, m) by {
                    if 0 <= m < g.len() {
                        assert(!is_row_of(g, row_id, m));
                    }
                }
            }
        }

        // Every cell that names it.
        let ghost h = self.rows();
        let n = self.graph.len();
        let mut i: usize = 0;
        while i < n
            invariant
                h == drop_first_row(g, row_id),
                n == h.len(),
                self.graph@.len() == n,
                i <= n,
                forall|r: int| 0 <= r < i ==> (#[trigger] self.rows()[r]) == clear_cells(h, row_id)[r],
                forall|r: int| i <= r < n ==> (#[trigger] self.rows()[r]) == h[r],
                self.gates@ == remove_gate_from(old(self).gates@, get_id),
                self.num_inputs == old(self).num_inputs,
            decreases n - i,
        {
            assert(self.graph@[i as int]@ == self.rows()[i as int]);
            let m = self.graph[i].len();
            let mut j: usize = 0;
            while j < m
                invariant
                    h == drop_first_row(g, row_id),
                    n == h.len(),
                    self.graph@.len() == n,
                    i < n,
                    m == h[i as int].len(),
                    j <= m,
                    forall|r: int| 0 <= r < i ==> (#[trigger] self.rows()[r]) == clear_cells(h, row_id)[r],
                    forall|r: int| i < r < n ==> (#[trigger] self.rows()[r]) == h[r],
                    self.rows()[i as int].len() == m,
                    forall|c: int| 0 <= c < j ==> #[trigger] self.rows()[i as int][c] == clear_cells(h, row_id)[i as int][c],
                    forall|c: int| j <= c < m ==> #[trigger] self.rows()[i as int][c] == h[i as int][c],
                    self.gates@ == remove_gate_from(old(self).gates@, get_id),
                    self.num_inputs == old(self).num_inputs,
                decreases m - j,
            {
                assert(self.graph@[i as int]@ == self.rows()[i as int]);
                let ghost before = self.rows();
                if self.graph[i][j] == Some(row_id) {
                    self.graph[i][j] = None;
                    assert(self.rows() =~= before.update(i as int, before[i as int].update(j as int, None)));
                }
                j = j + 1;
            }
            assert(self.rows()[i as int] =~= clear_cells(h, row_id)[i as int]);
            i = i + 1;
        }
        assert(self.rows() =~= clear_cells(h, row_id));
        proof {
            lemma_remove_node_rows_well_formed(g, row_id);
        }
    }
    /// The first row that belongs to `node_id`, if any.
    fn find_row(&self, node_id: usize) -> (found: Option<&Vec<Option<usize>>>)
        requires
            self.well_formed(),
        ensures
            found is None <==> !has_row(self.rows(), node_id),
            found matches Some(row) ==> exists|i: int|
                #[trigger] is_first_row_of(self.rows(), node_id, i) && row@ == self.rows()[i],
    {
        let ghost g = self.rows();
        let mut i: usize = 0;
        while i < self.graph.len()
            invariant
                g == self.rows(),
                rows_well_formed(g),
                i <= g.len(),
                forall|k: int| 0 <= k < i ==> !#[trigger] is_row_of(g, node_id, k),
            decreases g.len() - i,
        {
            assert(self.graph@[i as int]@ == g[i as int]);
            if self.graph[i][0] == Some(node_id) {
                assert(is_first_row_of(g, node_id, i as int));
                return Some(&self.graph[i]);
            }
            i = i + 1;
        }
        assert forall|k: int| !#[trigger] is_row_of(g, node_id, k) by {
            if 0 <= k < g.len() {
                assert(!is_row_of(g, node_id, k));
            }
        }
        None
    }

    /// Whether the board's `A` port can be reached from its `F` port by
    /// following the graph: a search from `F` that visits every node at most once.
    pub fn check_connection(&mut self) -> (connected: bool)
        requires
            old(self).well_formed(),
        ensures
            connected == reachable(old(self).rows(), BOARD_F, BOARD_A),
            *final(self) == *old(self),
    {
        let ghost g = self.rows();
        let ghost universe = graph_nodes(g).push(BOARD_F).to_set();
        proof {
            vstd::seq_lib::seq_to_set_is_finite(graph_nodes(g).push(BOARD_F));
            assert(reachable(g, BOARD_F, BOARD_F)) by {
                let p = seq![BOARD_F];
                assert(is_path(g, p));
            }
            assert(graph_nodes(g).push(BOARD_F)[graph_nodes(g).len() as int] == BOARD_F);
        }
        let mut to_check: Vec<usize> = Vec::new();
        to_check.push(BOARD_F);
        assert(to_check@[0] == BOARD_F);
        let mut visited: Vec<usize> = Vec::new();
        while to_check.len() > 0
            invariant
                g == self.rows(),
                *self == *old(self),
                g == old(self).rows(),
                rows_well_formed(g),
                universe == graph_nodes(g).push(BOARD_F).to_set(),
                universe.finite(),
                visited@.no_duplicates(),
                visited@.len() <= universe.len(),
                forall|k: int| 0 <= k < visited@.len() ==> universe.contains(#[trigger] visited@[k]),
                forall|k: int| 0 <= k < to_check@.len() ==> universe.contains(#[trigger] to_check@[k]),
                forall|k: int| 0 <= k < visited@.len() ==> reachable(g, BOARD_F, #[trigger] visited@[k]),
                forall|k: int| 0 <= k < to_check@.len() ==> reachable(g, BOARD_F, #[trigger] to_check@[k]),
                forall|x: usize, d: usize| visited@.contains(x) && #[trigger] edge(g, x, d)
                    ==> visited@.contains(d) || to_check@.contains(d),
                visited@.contains(BOARD_F) || to_check@.contains(BOARD_F),
                !visited@.contains(BOARD_A),
            decreases universe.len() - visited@.len(), to_check@.len(),
        {
            let ghost before = to_check@;
            let current = to_check.pop().unwrap();
            assert(before == to_check@.push(current));
            assert(before[before.len() - 1] == current);
            if current == BOARD_A {
                return true;
            }
            if contains_node(&visited, current) {
                proof {
                    assert forall|x: usize, d: usize| visited@.contains(x) && #[trigger] edge(g, x, d)
                        implies visited@.contains(d) || to_check@.contains(d) by {
                        if !visited@.contains(d) {
                            lemma_pop_contains(before, to_check@, current, d);
                        }
                    }
                    if !visited@.contains(BOARD_F) {
                        lemma_pop_contains(before, to_check@, current, BOARD_F);
                    }
                }
                continue;
            }
            let ghost old_visited = visited@;
            visited.push(current);
            proof {
                assert(visited@.last() == current);
                assert(visited@.contains(current));
                lemma_distinct_within_set(visited@, universe);
                assert forall|x: usize, d: usize| visited@.contains(x) && x != current && #[trigger] edge(g, x, d)
                    implies visited@.contains(d) || to_check@.contains(d) by {
                    lemma_push_contains(old_visited, current, x);
                    if old_visited.contains(d) {
                        lemma_contains_push(old_visited, current, d);
                    } else {
                        lemma_pop_contains(before, to_check@, current, d);
                    }
                }
                if old_visited.contains(BOARD_F) {
                    lemma_contains_push(old_visited, current, BOARD_F);
                } else {
                    lemma_pop_contains(before, to_check@, current, BOARD_F);
                }
                assert forall|k: int| 0 <= k < visited@.len() implies reachable(g, BOARD_F, #[trigger] visited@[k]) by {
                    if k == visited@.len() - 1 {
                        assert(before[before.len() - 1] == current);
                    } else {
                        assert(visited@[k] == old_visited[k]);
                    }
                }
                assert forall|k: int| 0 <= k < visited@.len() implies universe.contains(#[trigger] visited@[k]) by {
                    if k == visited@.len() - 1 {
                        assert(before[before.len() - 1] == current);
                    } else {
                        assert(visited@[k] == old_visited[k]);
                    }
                }
                if visited@.contains(BOARD_A) {
                    lemma_push_contains(old_visited, current, BOARD_A);
                }
            }
            match self.find_row(current) {
                Some(row) => {
                    let ghost i = choose|i: int| #[trigger] is_first_row_of(g, current, i) && row@ == g[i];
                    let mut j: usize = 1;
                    while j < row.len()
                        invariant
                            g == self.rows(),
                            *self == *old(self),
                            g == old(self).rows(),
                            rows_well_formed(g),
                            universe == graph_nodes(g).push(BOARD_F).to_set(),
                            universe.finite(),
                            is_first_row_of(g, current, i),
                            row@ == g[i],
                            1 <= j <= row@.len(),
                            visited@.no_duplicates(),
                            visited@.len() <= universe.len(),
                            visited@.contains(current),
                            forall|k: int| 0 <= k < visited@.len() ==> universe.contains(#[trigger] visited@[k]),
                            forall|k: int| 0 <= k < to_check@.len() ==> universe.contains(#[trigger] to_check@[k]),
                            forall|k: int| 0 <= k < visited@.len() ==> reachable(g, BOARD_F, #[trigger] visited@[k]),
                            forall|k: int| 0 <= k < to_check@.len() ==> reachable(g, BOARD_F, #[trigger] to_check@[k]),
                            forall|x: usize, d: usize| visited@.contains(x) && x != current && #[trigger] edge(g, x, d)
                                ==> visited@.contains(d) || to_check@.contains(d),
                            forall|c: int| 1 <= c < j && #[trigger] row@[c] is Some
                                ==> visited@.contains(row@[c]->0) || to_check@.contains(row@[c]->0),
                            visited@.contains(BOARD_F) || to_check@.contains(BOARD_F),
                            !visited@.contains(BOARD_A),
                        decreases row@.len() - j,
                    {
                        let ghost before = to_check@;
                        if let Some(dep) = row[j] {
                            if !contains_node(&visited, dep) {
                                proof {
                                    assert(edge(g, current, dep));
                                    lemma_reachable_step(g, BOARD_F, current, dep);
                                    lemma_graph_nodes_contains(g, i, j as int);
                                    let k = choose|k: int| 0 <= k < graph_nodes(g).len() && graph_nodes(g)[k] == dep;
                                    assert(graph_nodes(g).push(BOARD_F)[k] == dep);
                                }
                                to_check.push(dep);
                                assert(to_check@.last() == dep);
                            }
                        }
                        proof {
                            assert forall|k: int| 0 <= k < before.len() implies to_check@[k] == #[trigger] before[k] by {}
                        }
                        j = j + 1;
                    }
                    proof {
                        assert forall|d: usize| #[trigger] edge(g, current, d)
                            implies visited@.contains(d) || to_check@.contains(d) by {
                            let (i2, c) = choose|i2: int, c: int|
                                is_first_row_of(g, current, i2) && 1 <= c < g[i2].len() && g[i2][c] == Some(d);
                            if i2 < i {
                                assert(!is_row_of(g, current, i2));
                            } else if i < i2 {
                                assert(!is_row_of(g, current, i));
                            }
                            assert(row@[c] is Some);
                        }
                    }
                },
                None => {
                    proof {
                        assert forall|d: usize| !#[trigger] edge(g, current, d) by {
                            if edge(g, current, d) {
                                let (i2, c) = choose|i2: int, c: int|
                                    is_first_row_of(g, current, i2) && 1 <= c < g[i2].len() && g[i2][c] == Some(d);
                                assert(is_row_of(g, current, i2));
                            }
                        }
                    }
                },
            }
        }
        proof {
            if reachable(g, BOARD_F, BOARD_A) {
                let p = choose|p: Seq<usize>| #[trigger] is_path(g, p) && p[0] == BOARD_F && p[p.len() - 1] == BOARD_A;
                lemma_closed_holds_path(g, visited@, p);
            }
        }
        false
    }
}

} // verus!
