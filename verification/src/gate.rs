//! Logic gates and the identifiers they are given.

use vstd::prelude::*;

verus! {

/// The seven kinds of logic gate a player can place.
#[derive(Debug, Clone, Copy, PartialEq, Eq, Structural)]
pub enum GateType {
    NAND,
    NOR,
    AND,
    OR,
    NOT,
    XOR,
    XNOR,
}

/// How many inputs a gate of the given kind has: one for NOT, two otherwise.
pub open spec fn input_count(kind: GateType) -> nat {
    match kind {
        GateType::NOT => 1,
        _ => 2,
    }
}

/// Source of gate identifiers: 0, 1, 2, ... in the order they are taken.
#[derive(Debug)]
pub struct GateIds {
    next: i32,
}

impl GateIds {
    /// The identifier the next call of `take` hands out.
    pub closed spec fn upcoming(&self) -> i32 {
        self.next
    }

    /// A fresh source; the first identifier it hands out is 0.
    pub fn new() -> (ids: Self)
        ensures
            ids.upcoming() == 0,
    {
        GateIds { next: 0 }
    }

    /// The identifier the next call of `take` hands out.
    pub fn peek(&self) -> (id: i32)
        ensures
            id == self.upcoming(),
    {
        self.next
    }

    /// Hands out the current identifier and moves on to the next one.
    pub fn take(&mut self) -> (id: i32)
        requires
            old(self).upcoming() < i32::MAX,
        ensures
            id == old(self).upcoming(),
            final(self).upcoming() == old(self).upcoming() + 1,
    {
        let id = self.next;
        self.next = self.next + 1;
        id
    }
}

/// One logic gate placed on the board.
#[derive(Debug)]
pub struct Gate {
    pub kind: GateType,
    pub input_states: Vec<bool>,
    pub output: bool,
    pub id: i32,
}

impl Gate {
    /// A gate of the given kind with `input_amount` inputs, all low, a low
    /// output, and the next identifier from `ids`.
    pub fn new(kind: GateType, input_amount: usize, ids: &mut GateIds) -> (gate: Self)
        requires
            old(ids).upcoming() < i32::MAX,
        ensures
            gate.kind == kind,
            gate.input_states@ == Seq::new(input_amount as nat, |i: int| false),
            gate.output == false,
            gate.id == old(ids).upcoming(),
            final(ids).upcoming() == old(ids).upcoming() + 1,
    {
        let id = ids.take();
        let mut input_states: Vec<bool> = Vec::new();
        let mut k: usize = 0;
        while k < input_amount
            invariant
                k <= input_amount,
                input_states@ == Seq::new(k as nat, |i: int| false),
            decreases input_amount - k,
        {
            input_states.push(false);
            k = k + 1;
        }
        Gate { kind, input_states, output: false, id }
    }
}

} // verus!
