//! Bounded-tape Turing machine interpreter.
//!
//! A `Runner` holds an installed transition table, the current state, and a
//! fixed-length tape with the head position. One call to [`Runner::step`]
//! performs exactly one transition. The observable behaviour of a step is
//! captured by the specification function [`step_spec`] over [`Config`],
//! the mathematical model of an interpreter configuration.

use vstd::prelude::*;

use crate::states::{
    cell_index, Direction, State, States, Symbol, Transition, CELL_COUNT, STATE_COUNT,
    SYMBOL_COUNT,
};

verus! {

/// Result of one interpreter step.
///
/// On `Halt` nothing was changed. On `TapeFullLeft` / `TapeFullRight` the
/// write and the state change were applied but the head was not moved.
#[derive(Debug, Clone, Copy, PartialEq, Eq, Structural)]
pub enum StepResult {
    /// The transition was applied in full and the head moved.
    Moved,
    /// The current cell is undefined: the machine halts.
    Halt,
    /// The move would cross the left end of the tape.
    TapeFullLeft,
    /// The move would cross the right end of the tape.
    TapeFullRight,
}

/// Mathematical model of an interpreter configuration: the installed table,
/// the current state, the tape contents, and the head position.
pub ghost struct Config {
    pub table: Seq<Transition>,
    pub state: int,
    pub tape: Seq<u8>,
    pub pos: int,
}

impl Config {
    /// Well-formedness: the table has the machine shape and mentions only
    /// valid states and symbols, the state and head are in range, and every
    /// tape cell holds a valid symbol.
    pub open spec fn wf(self) -> bool {
        &&& self.table.len() == CELL_COUNT
        &&& (forall|i: int|
            0 <= i < CELL_COUNT ==> crate::states::wf_transition(#[trigger] self.table[i]))
        &&& 0 <= self.state < STATE_COUNT
        &&& self.tape.len() >= 1
        &&& 0 <= self.pos < self.tape.len()
        &&& (forall|i: int| 0 <= i < self.tape.len() ==> #[trigger] self.tape[i] < SYMBOL_COUNT)
    }
}

/// The configuration an interpreter starts from: blank tape of the given
/// length, head at the midpoint, state 0.
pub open spec fn blank_config(table: Seq<Transition>, len: int) -> Config {
    Config { table, state: 0, tape: Seq::new(len as nat, |i: int| 0u8), pos: len / 2 }
}

/// One interpreter step: what a call to [`Runner::step`] returns and how it
/// changes the configuration.
pub open spec fn step_spec(c: Config) -> (StepResult, Config) {
    match c.table[cell_index(c.state, c.tape[c.pos] as int)] {
        Transition::Halt => (StepResult::Halt, c),
        Transition::Continue(d) => {
            let written = Config {
                table: c.table,
                state: d.state.0 as int,
                tape: c.tape.update(c.pos, d.write.0),
                pos: c.pos,
            };
            match d.move_ {
                Direction::Left => if c.pos == 0 {
                    (StepResult::TapeFullLeft, written)
                } else {
                    (StepResult::Moved, Config { pos: c.pos - 1, ..written })
                },
                Direction::Right => if c.pos + 1 == c.tape.len() {
                    (StepResult::TapeFullRight, written)
                } else {
                    (StepResult::Moved, Config { pos: c.pos + 1, ..written })
                },
            }
        },
    }
}

/// Stepping a well-formed configuration yields a well-formed configuration.
pub proof fn lemma_step_spec_wf(c: Config)
    requires
        c.wf(),
    ensures
        step_spec(c).1.wf(),
        step_spec(c).1.table == c.table,
        step_spec(c).1.tape.len() == c.tape.len(),
{
}

/// The table with every entry undefined.
pub open spec fn all_halt_table() -> Seq<Transition> {
    Seq::new(CELL_COUNT as nat, |i: int| Transition::Halt)
}

/// The configuration after `n` interpreter steps.
pub open spec fn run_n(c: Config, n: int) -> Config
    decreases n,
{
    if n <= 0 {
        c
    } else {
        step_spec(run_n(c, n - 1)).1
    }
}

/// Counting `n` steps from the successor configuration is counting `n + 1`
/// steps from the start.
pub proof fn lemma_run_n_shift(c: Config, n: int)
    requires
        0 <= n,
    ensures
        run_n(step_spec(c).1, n) == run_n(c, n + 1),
    decreases n,
{
    if n == 0 {
        assert(run_n(c, 1) == step_spec(run_n(c, 0)).1);
    } else {
        lemma_run_n_shift(c, n - 1);
        assert(run_n(step_spec(c).1, n) == step_spec(run_n(step_spec(c).1, n - 1)).1);
        assert(run_n(c, n + 1) == step_spec(run_n(c, n)).1);
    }
}

/// Running preserves well-formedness, the installed table, and the tape
/// length.
pub proof fn lemma_run_n_wf(c: Config, n: int)
    requires
        c.wf(),
    ensures
        run_n(c, n).wf(),
        run_n(c, n).table == c.table,
        run_n(c, n).tape.len() == c.tape.len(),
    decreases n,
{
    if n > 0 {
        lemma_run_n_wf(c, n - 1);
        lemma_step_spec_wf(run_n(c, n - 1));
        assert(run_n(c, n) == step_spec(run_n(c, n - 1)).1);
    }
}

/// A Turing machine interpreter with a fixed-length tape.
pub struct Runner {
    states: States,
    state: u8,
    tape: Vec<u8>,
    pos: usize,
}

impl View for Runner {
    type V = Config;

    closed spec fn view(&self) -> Config {
        Config {
            table: self.states.0@,
            state: self.state as int,
            tape: self.tape@,
            pos: self.pos as int,
        }
    }
}

impl Runner {
    /// Internal consistency: the modelled configuration is well-formed.
    pub open spec fn inv(&self) -> bool {
        self@.wf()
    }

    /// A runner with a zeroed tape of the given length, head at the midpoint,
    /// state 0, and every table entry undefined.
    pub fn vector_backed(length: usize) -> (r: Runner)
        requires
            length >= 1,
        ensures
            r.inv(),
            r@ == blank_config(all_halt_table(), length as int),
    {
        let mut tape: Vec<u8> = Vec::new();
        let mut i: usize = 0;
        while i < length
            invariant
                i <= length,
                tape@.len() == i,
                forall|j: int| 0 <= j < i ==> tape@[j] == 0u8,
            decreases length - i,
        {
            tape.push(0u8);
            i += 1;
        }
        let r = Runner { states: States([Transition::Halt; 10]), state: 0, tape, pos: length / 2 };
        proof {
            assert(r@.table =~= all_halt_table());
            assert(r@.tape =~= blank_config(all_halt_table(), length as int).tape);
        }
        r
    }

    /// A runner over a caller-supplied tape. The head starts at the midpoint;
    /// the tape is used as it is, so every cell must already hold a valid
    /// symbol.
    pub fn new(storage: Vec<u8>) -> (r: Runner)
        requires
            storage.len() >= 1,
            forall|i: int| 0 <= i < storage.len() ==> #[trigger] storage@[i] < SYMBOL_COUNT,
        ensures
            r.inv(),
            r@ == (Config {
                table: all_halt_table(),
                state: 0,
                tape: storage@,
                pos: storage.len() as int / 2,
            }),
    {
        let pos = storage.len() / 2;
        let r = Runner { states: States([Transition::Halt; 10]), state: 0, tape: storage, pos };
        proof {
            assert(r@.table =~= all_halt_table());
        }
        r
    }

    /// Zero the tape, recenter the head, and return to state 0. The installed
    /// table is kept.
    pub fn reset(&mut self)
        requires
            old(self).inv(),
        ensures
            final(self).inv(),
            final(self)@ == blank_config(old(self)@.table, old(self)@.tape.len() as int),
    {
        self.state = 0;
        let len = self.tape.len();
        let mut i: usize = 0;
        while i < len
            invariant
                i <= len,
                self.tape@.len() == len,
                self.states == old(self).states,
                self.state == 0,
                forall|j: int| 0 <= j < i ==> self.tape@[j] == 0u8,
            decreases len - i,
        {
            self.tape.set(i, 0u8);
            i += 1;
        }
        self.pos = len / 2;
        proof {
            assert(self@.tape =~= blank_config(old(self)@.table, old(self)@.tape.len() as int).tape);
        }
    }

    /// Install a transition table.
    pub fn set_states(&mut self, states: &States)
        requires
            old(self).inv(),
            states.wf(),
        ensures
            final(self).inv(),
            final(self)@ == (Config { table: states.0@, ..old(self)@ }),
    {
        self.states = *states;
    }

    /// Overwrite one entry of the installed table.
    pub fn set_transition(&mut self, state: State, symbol: Symbol, transition: Transition)
        requires
            old(self).inv(),
            state.is_valid(),
            symbol.is_valid(),
            crate::states::wf_transition(transition),
        ensures
            final(self).inv(),
            final(self)@ == (Config {
                table: old(self)@.table.update(
                    cell_index(state.0 as int, symbol.0 as int),
                    transition,
                ),
                ..old(self)@
            }),
    {
        self.states.set_transition(state, symbol, transition);
    }

    /// The current state.
    pub fn state(&self) -> (r: State)
        requires
            self.inv(),
        ensures
            r.0 as int == self@.state,
            r.is_valid(),
    {
        State(self.state)
    }

    /// The symbol under the head.
    pub fn symbol(&self) -> (r: Symbol)
        requires
            self.inv(),
        ensures
            r.0 == self@.tape[self@.pos],
            r.is_valid(),
    {
        Symbol(self.tape[self.pos])
    }

    /// Perform exactly one transition, as described by [`step_spec`]. When the
    /// head would cross either end of the tape the transition's write and
    /// state change are still applied, but the head is not moved.
    pub fn step(&mut self) -> (r: StepResult)
        requires
            old(self).inv(),
        ensures
            final(self).inv(),
            (r, final(self)@) == step_spec(old(self)@),
    {
        let symbol = self.tape[self.pos];
        let index = (2 * self.state + symbol) as usize;
        let transition = self.states.0[index];
        match transition {
            Transition::Halt => StepResult::Halt,
            Transition::Continue(d) => {
                self.tape.set(self.pos, d.write.0);
                self.state = d.state.0;
                match d.move_ {
                    Direction::Left => {
                        if self.pos == 0 {
                            StepResult::TapeFullLeft
                        } else {
                            self.pos = self.pos - 1;
                            StepResult::Moved
                        }
                    },
                    Direction::Right => {
                        let len = self.tape.len();
                        if self.pos + 1 == len {
                            StepResult::TapeFullRight
                        } else {
                            self.pos = self.pos + 1;
                            StepResult::Moved
                        }
                    },
                }
            },
        }
    }
}

} // verus!
