//! Typed description of 5-state, 2-symbol Turing machines.

use vstd::prelude::*;

verus! {

/// Number of states of every machine handled by this crate.
pub const STATE_COUNT: u8 = 5;

/// Number of tape symbols.
pub const SYMBOL_COUNT: u8 = 2;

/// Cells in a transition table: states times symbols.
pub const CELL_COUNT: usize = 10;

/// A state index. Valid values are below `STATE_COUNT`; state 0 is the
/// initial state, written `A` in the compact textual form.
#[derive(Debug, Clone, Copy, PartialEq, Eq, Structural)]
pub struct State(pub u8);

impl State {
    /// Whether the index is within the machine shape.
    pub open spec fn is_valid(self) -> bool {
        self.0 < STATE_COUNT
    }

    /// Checked constructor: rejects indices at or above `STATE_COUNT`.
    pub fn new(state: u8) -> (r: Option<State>)
        ensures
            r == (if state < STATE_COUNT {
                Some(State(state))
            } else {
                None::<State>
            }),
    {
        if state >= STATE_COUNT {
            return None;
        }
        Some(State(state))
    }

    pub fn get(&self) -> (r: u8)
        ensures
            r == self.0,
    {
        self.0
    }
}

/// A tape symbol. Valid values are below `SYMBOL_COUNT`; the blank symbol is 0.
#[derive(Debug, Clone, Copy, PartialEq, Eq, Structural)]
pub struct Symbol(pub u8);

impl Symbol {
    /// Whether the value is within the machine shape.
    pub open spec fn is_valid(self) -> bool {
        self.0 < SYMBOL_COUNT
    }

    /// Checked constructor: rejects values at or above `SYMBOL_COUNT`.
    pub fn new(symbol: u8) -> (r: Option<Symbol>)
        ensures
            r == (if symbol < SYMBOL_COUNT {
                Some(Symbol(symbol))
            } else {
                None::<Symbol>
            }),
    {
        if symbol >= SYMBOL_COUNT {
            return None;
        }
        Some(Symbol(symbol))
    }

    pub fn get(&self) -> (r: u8)
        ensures
            r == self.0,
    {
        self.0
    }
}

/// Direction of a head move.
#[derive(Debug, Clone, Copy, PartialEq, Eq, Structural)]
pub enum Direction {
    Left,
    Right,
}

/// A non-halting table entry: write a symbol, move the head, enter a state.
#[derive(Debug, Clone, Copy, PartialEq, Eq, Structural)]
pub struct DefinedTransition {
    pub write: Symbol,
    pub move_: Direction,
    pub state: State,
}

/// A table entry: either undefined (reaching it halts the machine) or a
/// defined transition.
#[derive(Debug, Clone, Copy, PartialEq, Eq, Structural)]
pub enum Transition {
    Halt,
    Continue(DefinedTransition),
}

/// Whether a transition only mentions valid states and symbols.
pub open spec fn wf_transition(t: Transition) -> bool {
    match t {
        Transition::Halt => true,
        Transition::Continue(d) => d.write.is_valid() && d.state.is_valid(),
    }
}

/// Index of cell (state, symbol) in the flat transition table.
pub open spec fn cell_index(state: int, symbol: int) -> int {
    2 * state + symbol
}

/// A complete transition table, indexed by (state, symbol): the entry for
/// state `s` and read symbol `y` is cell `2 * s + y`.
#[derive(Debug, Clone, Copy, PartialEq, Eq)]
pub struct States(pub [Transition; 10]);

impl View for States {
    type V = Seq<Transition>;

    open spec fn view(&self) -> Seq<Transition> {
        self.0@
    }
}

impl States {
    /// The table entry for (state, symbol).
    pub open spec fn spec_cell(self, state: int, symbol: int) -> Transition {
        self.0@[cell_index(state, symbol)]
    }

    /// The table with the entry for (state, symbol) overwritten.
    pub open spec fn spec_set_cell(self, state: int, symbol: int, t: Transition) -> States {
        States(vstd::array::spec_array_update(self.0, cell_index(state, symbol), t))
    }

    /// Every entry of the table mentions only valid states and symbols.
    pub open spec fn wf(self) -> bool {
        forall|i: int| 0 <= i < CELL_COUNT ==> wf_transition(#[trigger] self.0@[i])
    }

    pub fn get_transition(&self, state: State, symbol: Symbol) -> (t: Transition)
        requires
            state.is_valid(),
            symbol.is_valid(),
        ensures
            t == self.spec_cell(state.0 as int, symbol.0 as int),
    {
        self.0[(2 * state.0 + symbol.0) as usize]
    }

    /// Overwrite the table entry for (state, symbol).
    pub fn set_transition(&mut self, state: State, symbol: Symbol, t: Transition)
        requires
            state.is_valid(),
            symbol.is_valid(),
        ensures
            final(self).0@ == old(self).0@.update(cell_index(state.0 as int, symbol.0 as int), t),
            *final(self) == old(self).spec_set_cell(state.0 as int, symbol.0 as int, t),
    {
        self.0[(2 * state.0 + symbol.0) as usize] = t;
        proof {
            let updated = old(self).spec_set_cell(state.0 as int, symbol.0 as int, t);
            assert(self.0 =~= updated.0);
        }
    }
}

impl Default for States {
    /// The table with every entry undefined.
    fn default() -> (r: Self)
        ensures
            forall|i: int| 0 <= i < CELL_COUNT ==> r.0@[i] == Transition::Halt,
    {
        States([Transition::Halt; 10])
    }
}

} // verus!
