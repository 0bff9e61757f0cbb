//! Classification of machines and enumeration of child nodes in tree normal
//! form.
//!
//! Every enumerated machine is classified by [`decide`]: structurally
//! redundant machines are `Irrelevant`; the rest are simulated with known
//! step and space limits and classified as `Halt`, `Loop` or `Undecided`.
//! The whole procedure is deterministic and is pinned down by the
//! specification function [`spec_decide`].

use vstd::prelude::*;

use crate::run::{blank_config, run_n, lemma_run_n_shift, step_spec, Config, Runner, StepResult};
use crate::states::{
    cell_index, Direction, State, States, Symbol, Transition, CELL_COUNT, DefinedTransition,
    STATE_COUNT,
};

verus! {

/// Step limit of the bounded simulation: the BB(5) champion's step count.
pub const LIMIT_STEPS: u32 = 47176870;

/// Space limit to each side of the tape midpoint.
pub const LIMIT_MEMORY: usize = 12289;

/// Total tape length used by [`create_runner`].
pub const TAPE_SIZE: usize = 2 * LIMIT_MEMORY;

/// BB(4): a machine that runs more than this many steps while having visited
/// at most 4 distinct states never halts.
pub const BB4_STEPS: u32 = 107;

/// Classification of one enumerated machine.
#[derive(Debug, Clone, Copy, PartialEq, Eq, Structural)]
pub enum Decision {
    /// The machine halts; the payload names the undefined cell it halted on.
    Halt(HaltingTransitionIndex),
    /// The machine runs forever.
    Loop,
    /// The machine could not be decided within the step and space limits.
    Undecided,
    /// The machine is irrelevant for finding BB(5).
    Irrelevant,
}

/// A cell of the transition table, named by (state, read symbol): the
/// undefined cell a simulation halted on, and the cell the enumerator will
/// fill to form child nodes.
#[derive(Debug, Clone, Copy, PartialEq, Eq, Structural)]
pub struct HaltingTransitionIndex(pub State, pub Symbol);

impl HaltingTransitionIndex {
    /// Both components are within the machine shape.
    pub open spec fn is_valid(self) -> bool {
        self.0.is_valid() && self.1.is_valid()
    }

    /// The cell the root machine halts on: (state B, symbol 0).
    pub fn root() -> (r: Self)
        ensures
            r == HaltingTransitionIndex(State(1), Symbol(0)),
    {
        HaltingTransitionIndex(State(1), Symbol(0))
    }
}

/// The fixed first transition of every node: write 1, move right, enter
/// state B ("1RB").
pub open spec fn start_transition() -> Transition {
    Transition::Continue(
        DefinedTransition { write: Symbol(1), move_: Direction::Right, state: State(1) },
    )
}

/// Normal-form invariant of an enumeration node: a well-formed table whose
/// cell (0, 0) is 1RB and that still has at least one undefined cell.
pub open spec fn is_node(m: States) -> bool {
    &&& m.wf()
    &&& m.0@[0] == start_transition()
    &&& exists|i: int| 0 <= i < CELL_COUNT && (#[trigger] m.0@[i]) is Halt
}

/// A machine in the enumeration tree. See [`is_node`] for the invariant the
/// enumeration maintains for it.
#[derive(Debug, Clone, Copy, PartialEq, Eq)]
pub struct Node(pub States);

/// Number of undefined cells among the first `n` cells of a table.
pub open spec fn halt_count_upto(s: Seq<Transition>, n: int) -> int
    decreases n,
{
    if n <= 0 {
        0
    } else {
        halt_count_upto(s, n - 1) + if s[n - 1] is Halt {
            1int
        } else {
            0int
        }
    }
}

/// Number of undefined cells of a table.
pub open spec fn spec_halt_count(s: Seq<Transition>) -> int {
    halt_count_upto(s, CELL_COUNT as int)
}

/// Whether the row of state `i` has at least one defined cell.
pub open spec fn row_partially_defined(s: Seq<Transition>, i: int) -> bool {
    s[2 * i] is Continue || s[2 * i + 1] is Continue
}

/// The largest state index at most `i` whose row has a defined cell, or 0.
pub open spec fn spec_largest_partial(s: Seq<Transition>, i: int) -> int
    decreases i,
{
    if i <= 0 {
        0
    } else if row_partially_defined(s, i) {
        i
    } else {
        spec_largest_partial(s, i - 1)
    }
}

impl Node {
    /// The root of the enumeration tree: 1RB at cell (0, 0), every other cell
    /// undefined.
    pub fn root() -> (r: Node)
        ensures
            r.0.0@[0] == start_transition(),
            forall|i: int| 1 <= i < CELL_COUNT ==> (#[trigger] r.0.0@[i]) is Halt,
            is_node(r.0),
            spec_halt_count(r.0.0@) == 9,
    {
        let mut states = States([Transition::Halt; 10]);
        states.set_transition(
            State(0),
            Symbol(0),
            Transition::Continue(
                DefinedTransition { write: Symbol(1), move_: Direction::Right, state: State(1) },
            ),
        );
        proof {
            reveal_with_fuel(halt_count_upto, 11);
            assert(states.0@[1] is Halt);
        }
        Node(states)
    }

    /// Count the undefined cells of the table.
    pub fn halting_transition_count(&self) -> (r: u8)
        ensures
            r as int == spec_halt_count(self.0.0@),
            r <= 10,
    {
        let mut count: u8 = 0;
        let mut i: usize = 0;
        while i < 10
            invariant
                i <= 10,
                count <= i,
                count as int == halt_count_upto(self.0.0@, i as int),
            decreases 10 - i,
        {
            if matches!(self.0.0[i], Transition::Halt) {
                count += 1;
            }
            i += 1;
        }
        count
    }

    /// The largest state index whose row has at least one defined cell, or
    /// state 0 when no row does.
    pub fn largest_partially_defined_state(&self) -> (r: State)
        ensures
            r.is_valid(),
            r.0 as int == spec_largest_partial(self.0.0@, 4),
    {
        let mut i: u8 = 4;
        while i > 0
            invariant
                i <= 4,
                spec_largest_partial(self.0.0@, 4) == spec_largest_partial(self.0.0@, i as int),
            decreases i,
        {
            let lo = self.0.0[(2 * i) as usize];
            let hi = self.0.0[(2 * i + 1) as usize];
            if matches!(lo, Transition::Continue(_)) || matches!(hi, Transition::Continue(_)) {
                return State(i);
            }
            i -= 1;
        }
        State(0)
    }
}

/// Whether the rows of states `a` and `b` are both fully defined and
/// equivalent up to swapping the two indices in their targets: writes and
/// moves match cell by cell, and each pair of targets is either literally
/// equal or drawn from {`a`, `b`} on both sides.
pub open spec fn spec_states_equivalent(s: Seq<Transition>, a: int, b: int) -> bool {
    match (s[2 * a], s[2 * a + 1], s[2 * b], s[2 * b + 1]) {
        (
            Transition::Continue(a0),
            Transition::Continue(a1),
            Transition::Continue(b0),
            Transition::Continue(b1),
        ) => {
            &&& a0.write == b0.write
            &&& a0.move_ == b0.move_
            &&& a1.write == b1.write
            &&& a1.move_ == b1.move_
            &&& (a0.state == b0.state || ((a0.state.0 == a || a0.state.0 == b) && (b0.state.0 == b
                || b0.state.0 == a)))
            &&& (a1.state == b1.state || ((a1.state.0 == a || a1.state.0 == b) && (b1.state.0 == b
                || b1.state.0 == a)))
        },
        _ => false,
    }
}

/// Whether some state other than `changed` is equivalent to `changed` in the
/// sense of [`spec_states_equivalent`].
pub open spec fn spec_has_equivalent_states(s: Seq<Transition>, changed: int) -> bool {
    exists|i: int| 0 <= i < STATE_COUNT && i != changed && spec_states_equivalent(s, i, changed)
}

/// Whether the just-filled cell (`changed`, `read`) holds a transition whose
/// target state is fully defined, copies the tape cell (writes 0 and 1 back),
/// reverses the move in both cells, and goes to one common successor — a
/// no-op detour that makes the filled transition pointless.
pub open spec fn spec_has_redundant_transition(s: Seq<Transition>, changed: int, read: int) -> bool {
    match s[cell_index(changed, read)] {
        Transition::Continue(t) => match (s[2 * t.state.0], s[2 * t.state.0 + 1]) {
            (Transition::Continue(n0), Transition::Continue(n1)) => {
                &&& n0.write.0 == 0
            &&& n1.write.0 == 1
            &&& n0.move_ != t.move_
            &&& n1.move_ != t.move_
            &&& n0.state == n1.state
            },
            _ => false,
        },
        Transition::Halt => false,
    }
}

/// The structural filters of the decision procedure: a machine is irrelevant
/// when it has equivalent states or the just-filled transition is redundant.
pub open spec fn spec_is_irrelevant(s: Seq<Transition>, changed: int, read: int) -> bool {
    spec_has_equivalent_states(s, changed) || spec_has_redundant_transition(s, changed, read)
}

fn are_states_defined_and_equivalent(states: &States, a: State, b: State) -> (r: bool)
    requires
        a.is_valid(),
        b.is_valid(),
    ensures
        r == spec_states_equivalent(states.0@, a.0 as int, b.0 as int),
{
    let a0t = states.get_transition(a, Symbol(0));
    let a1t = states.get_transition(a, Symbol(1));
    let b0t = states.get_transition(b, Symbol(0));
    let b1t = states.get_transition(b, Symbol(1));
    match (a0t, a1t, b0t, b1t) {
        (
            Transition::Continue(a0),
            Transition::Continue(a1),
            Transition::Continue(b0),
            Transition::Continue(b1),
        ) => {
            (a0.write == b0.write) && (a0.move_ == b0.move_) && (a1.write == b1.write) && (a1.move_
                == b1.move_) && ((a0.state == b0.state) || (((a0.state == a) || (a0.state == b)) && ((
            b0.state == b) || (b0.state == a)))) && ((a1.state == b1.state) || (((a1.state == a)
                || (a1.state == b)) && ((b1.state == b) || (b1.state == a))))
        },
        _ => false,
    }
}

fn has_equivalent_states(states: &States, changed_state: State) -> (r: bool)
    requires
        changed_state.is_valid(),
    ensures
        r == spec_has_equivalent_states(states.0@, changed_state.0 as int),
{
    let mut i: u8 = 0;
    while i < STATE_COUNT
        invariant
            i <= STATE_COUNT,
            changed_state.is_valid(),
            forall|j: int|
                0 <= j < i && j != changed_state.0 ==> !spec_states_equivalent(
                    states.0@,
                    j,
                    changed_state.0 as int,
                ),
        decreases STATE_COUNT - i,
    {
        if i != changed_state.0 && are_states_defined_and_equivalent(states, State(i), changed_state)
        {
            return true;
        }
        i += 1;
    }
    false
}

fn has_redundant_transition(states: &States, changed_state: State, read: Symbol) -> (r: bool)
    requires
        changed_state.is_valid(),
        read.is_valid(),
        states.wf(),
        states.spec_cell(changed_state.0 as int, read.0 as int) is Continue,
    ensures
        r == spec_has_redundant_transition(states.0@, changed_state.0 as int, read.0 as int),
{
    let t = match states.get_transition(changed_state, read) {
        Transition::Continue(t) => t,
        Transition::Halt => {
            return false;
        },
    };
    let n0t = states.get_transition(t.state, Symbol(0));
    let n1t = states.get_transition(t.state, Symbol(1));
    match (n0t, n1t) {
        (Transition::Continue(n0), Transition::Continue(n1)) => {
            (n0.write.0 == 0) && (n1.write.0 == 1) && (n0.move_ != t.move_) && (n1.move_ != t.move_)
                && (n0.state == n1.state)
        },
        _ => false,
    }
}

fn is_irrelevant(states: &States, changed_state: State, read: Symbol) -> (r: bool)
    requires
        changed_state.is_valid(),
        read.is_valid(),
        states.wf(),
        states.spec_cell(changed_state.0 as int, read.0 as int) is Continue,
    ensures
        r == spec_is_irrelevant(states.0@, changed_state.0 as int, read.0 as int),
{
    has_equivalent_states(states, changed_state) || has_redundant_transition(
        states,
        changed_state,
        read,
    )
}

/// The bit of the seen-states set that belongs to `state`.
pub open spec fn spec_seen_insert(seen: u8, state: int) -> u8 {
    seen | (1u8 << (state as u8))
}

/// Outcome of the bounded simulation from configuration `c`, with `seen` the
/// set of states observed so far (as a bitset) and `step` the number of steps
/// already taken. Mirrors the order of checks of the running loop: the
/// seen-set is extended, one step is taken, then the BB(4) loop check fires
/// before the overall step limit, and only then is the step result examined.
pub open spec fn spec_run_outcome(c: Config, seen: u8, step: int) -> Decision
    decreases LIMIT_STEPS + 1 - step,
{
    let seen2 = spec_seen_insert(seen, c.state);
    let all_seen = seen2 == 0x1fu8;
    let (result, c2) = step_spec(c);
    if !all_seen && step > BB4_STEPS as int {
        Decision::Loop
    } else if step > LIMIT_STEPS as int {
        Decision::Undecided
    } else {
        match result {
            StepResult::Moved => spec_run_outcome(c2, seen2, step + 1),
            StepResult::Halt => Decision::Halt(
                HaltingTransitionIndex(State(c.state as u8), Symbol(c.tape[c.pos])),
            ),
            StepResult::TapeFullLeft => Decision::Undecided,
            StepResult::TapeFullRight => Decision::Undecided,
        }
    }
}

/// What [`decide`] returns for a machine `m` whose just-filled cell is
/// `changed`, simulated on a tape of length `tape_len`.
pub open spec fn spec_decide(m: States, changed: HaltingTransitionIndex, tape_len: int) -> Decision {
    if spec_is_irrelevant(m.0@, changed.0.0 as int, changed.1.0 as int) {
        Decision::Irrelevant
    } else {
        spec_run_outcome(blank_config(m.0@, tape_len), 0, 0)
    }
}

/// Run the installed machine from the runner's current configuration until
/// it halts, fills the tape, or exceeds a step limit.
fn run(runner: &mut Runner) -> (d: Decision)
    requires
        old(runner).inv(),
    ensures
        final(runner).inv(),
        final(runner)@.tape.len() == old(runner)@.tape.len(),
        d == spec_run_outcome(old(runner)@, 0, 0),
{
    let mut state_seen: u8 = 0;
    let mut step: u32 = 0;
    loop
        invariant
            runner.inv(),
            runner@.tape.len() == old(runner)@.tape.len(),
            step <= LIMIT_STEPS + 1,
            spec_run_outcome(old(runner)@, 0, 0) == spec_run_outcome(
                runner@,
                state_seen,
                step as int,
            ),
        decreases LIMIT_STEPS + 1 - step,
    {
        let ghost c = runner@;
        let s = runner.state();
        state_seen = state_seen | (1u8 << s.get());
        let all_states_seen = state_seen == 0x1f;
        let result = runner.step();
        if !all_states_seen && step > BB4_STEPS {
            return Decision::Loop;
        }
        if step > LIMIT_STEPS {
            return Decision::Undecided;
        }
        step += 1;
        match result {
            StepResult::Moved => (),
            StepResult::Halt => {
                return Decision::Halt(HaltingTransitionIndex(runner.state(), runner.symbol()));
            },
            StepResult::TapeFullLeft | StepResult::TapeFullRight => {
                return Decision::Undecided;
            },
        }
    }
}

/// Classify one machine: apply the structural filters, then install the
/// machine, reset the runner, and run the bounded simulation. The runner is
/// reused across calls; only its tape length matters to the result.
pub fn decide(runner: &mut Runner, states: &States, changed_transition: HaltingTransitionIndex) -> (d:
    Decision)
    requires
        old(runner).inv(),
        states.wf(),
        changed_transition.is_valid(),
        states.spec_cell(
            changed_transition.0.0 as int,
            changed_transition.1.0 as int,
        ) is Continue,
    ensures
        final(runner).inv(),
        final(runner)@.tape.len() == old(runner)@.tape.len(),
        d == spec_decide(*states, changed_transition, old(runner)@.tape.len() as int),
{
    if is_irrelevant(states, changed_transition.0, changed_transition.1) {
        return Decision::Irrelevant;
    }
    runner.set_states(states);
    runner.reset();
    run(runner)
}

/// A runner with the tape length used by the enumeration.
pub fn create_runner() -> (r: Runner)
    ensures
        r.inv(),
        r@.tape.len() == TAPE_SIZE as int,
{
    Runner::vector_backed(TAPE_SIZE)
}

proof fn lemma_halt_count_upto_update(s: Seq<Transition>, i: int, t: Transition, n: int)
    requires
        0 <= i < s.len(),
        n <= s.len(),
    ensures
        halt_count_upto(s.update(i, t), n) == if i < n {
            halt_count_upto(s, n) - (if s[i] is Halt {
                1int
            } else {
                0int
            }) + (if t is Halt {
                1int
            } else {
                0int
            })
        } else {
            halt_count_upto(s, n)
        },
    decreases n,
{
    if n > 0 {
        lemma_halt_count_upto_update(s, i, t, n - 1);
    }
}

/// How overwriting one cell changes the number of undefined cells.
pub proof fn lemma_halt_count_update(s: Seq<Transition>, i: int, t: Transition)
    requires
        0 <= i < s.len(),
        s.len() == CELL_COUNT,
    ensures
        spec_halt_count(s.update(i, t)) == spec_halt_count(s) - (if s[i] is Halt {
            1int
        } else {
            0int
        }) + (if t is Halt {
            1int
        } else {
            0int
        }),
{
    lemma_halt_count_upto_update(s, i, t, CELL_COUNT as int);
}

/// When the bounded simulation reports a halt, the cell it names is within
/// the machine shape and undefined in the installed table.
pub proof fn lemma_run_outcome_halt(c: Config, seen: u8, step: int)
    requires
        c.wf(),
    ensures
        spec_run_outcome(c, seen, step) matches Decision::Halt(b) ==> {
            &&& b.is_valid()
            &&& c.table[cell_index(b.0.0 as int, b.1.0 as int)] is Halt
        },
    decreases LIMIT_STEPS + 1 - step,
{
    let (result, c2) = step_spec(c);
    let seen2 = spec_seen_insert(seen, c.state);
    if !(seen2 == 0x1fu8) && step > BB4_STEPS as int {
    } else if step > LIMIT_STEPS as int {
    } else if result is Moved {
        crate::run::lemma_step_spec_wf(c);
        lemma_run_outcome_halt(c2, seen2, step + 1);
    }
}

/// A halting configuration: the table entry for the current state and the
/// symbol under the head is undefined.
pub open spec fn is_halting_config(c: Config) -> bool {
    c.table[cell_index(c.state, c.tape[c.pos] as int)] is Halt
}

/// Whether the run from `c` executes a defined transition, with the head
/// staying on the tape, at every step before `n`.
pub open spec fn clean_prefix(c: Config, n: int) -> bool {
    forall|j: int| 0 <= j < n ==> (#[trigger] step_spec(run_n(c, j)).0) is Moved
}

/// A `Halt` outcome names a real halting run: within the remaining step
/// budget the run executes defined transitions up to a configuration whose
/// current cell is undefined, and the decision carries exactly that cell.
pub proof fn lemma_run_outcome_halt_reaches(c: Config, seen: u8, step: int)
    requires
        0 <= step,
    ensures
        spec_run_outcome(c, seen, step) matches Decision::Halt(b) ==> exists|n: int|
            #![trigger run_n(c, n)]
            {
                &&& 0 <= n
                &&& n + step <= LIMIT_STEPS as int
                &&& clean_prefix(c, n)
                &&& is_halting_config(run_n(c, n))
                &&& b == HaltingTransitionIndex(
                    State(run_n(c, n).state as u8),
                    Symbol(run_n(c, n).tape[run_n(c, n).pos]),
                )
            },
    decreases LIMIT_STEPS + 1 - step,
{
    let (result, c2) = step_spec(c);
    let seen2 = spec_seen_insert(seen, c.state);
    if !(seen2 == 0x1fu8) && step > BB4_STEPS as int {
    } else if step > LIMIT_STEPS as int {
    } else if result is Moved {
        lemma_run_outcome_halt_reaches(c2, seen2, step + 1);
        match spec_run_outcome(c, seen, step) {
            Decision::Halt(b) => {
                let n2 = choose|n2: int|
                    #![trigger run_n(c2, n2)]
                    {
                        &&& 0 <= n2
                        &&& n2 + step + 1 <= LIMIT_STEPS as int
                        &&& clean_prefix(c2, n2)
                        &&& is_halting_config(run_n(c2, n2))
                        &&& b == HaltingTransitionIndex(
                            State(run_n(c2, n2).state as u8),
                            Symbol(run_n(c2, n2).tape[run_n(c2, n2).pos]),
                        )
                    };
                assert forall|j: int| 0 <= j <= n2 implies run_n(c, j + 1) == run_n(c2, j) by {
                    lemma_run_n_shift(c, j);
                }
                assert forall|j: int| 0 <= j < n2 + 1 implies (#[trigger] step_spec(
                    run_n(c, j),
                ).0) is Moved by {
                    if j > 0 {
                        assert(run_n(c, j) == run_n(c2, j - 1));
                        assert(step_spec(run_n(c2, j - 1)).0 is Moved);
                    }
                }
                assert(run_n(c, n2 + 1) == run_n(c2, n2));
            },
            _ => (),
        }
    } else if result is Halt {
        assert(run_n(c, 0) == c);
        assert(clean_prefix(c, 0));
    }
}

/// The halt decisions of [`spec_decide`] are sound: a machine decided as
/// `Halt(b)` really halts when run from the blank tape — within `LIMIT_STEPS`
/// steps it reaches a configuration that reads the undefined cell `b`.
/// (The converse is not claimed: a halting machine that first fills the
/// bounded tape is reported Undecided.)
pub proof fn lemma_decide_halt_sound(m: States, changed: HaltingTransitionIndex, tape_len: int)
    requires
        m.wf(),
        tape_len >= 1,
    ensures
        spec_decide(m, changed, tape_len) matches Decision::Halt(b) ==> exists|n: int|
            #![trigger run_n(blank_config(m.0@, tape_len), n)]
            {
                &&& 0 <= n <= LIMIT_STEPS as int
                &&& clean_prefix(blank_config(m.0@, tape_len), n)
                &&& run_n(blank_config(m.0@, tape_len), n).wf()
                &&& is_halting_config(run_n(blank_config(m.0@, tape_len), n))
                &&& b == HaltingTransitionIndex(
                    State(run_n(blank_config(m.0@, tape_len), n).state as u8),
                    Symbol(
                        run_n(blank_config(m.0@, tape_len), n).tape[run_n(
                            blank_config(m.0@, tape_len),
                            n,
                        ).pos],
                    ),
                )
            },
{
    if !spec_is_irrelevant(m.0@, changed.0.0 as int, changed.1.0 as int) {
        let blank = blank_config(m.0@, tape_len);
        assert(blank.wf());
        assert forall|n: int| (#[trigger] run_n(blank, n)).wf() by {
            crate::run::lemma_run_n_wf(blank, n);
        }
        lemma_run_outcome_halt_reaches(blank, 0, 0);
    }
}

/// Whether some defined cell of the table targets state `st`.
pub open spec fn is_target(s: Seq<Transition>, st: int) -> bool {
    exists|i: int|
        0 <= i < CELL_COUNT && ((#[trigger] s[i]) matches Transition::Continue(d) && d.state.0
            == st)
}

/// During a run the current state is always the initial state or the target
/// of some defined cell, so a halt is reported in such a state.
proof fn lemma_run_outcome_halt_state_targeted(c: Config, seen: u8, step: int)
    requires
        c.wf(),
        c.state == 0 || is_target(c.table, c.state),
    ensures
        spec_run_outcome(c, seen, step) matches Decision::Halt(b) ==> (b.0.0 == 0 || is_target(
            c.table,
            b.0.0 as int,
        )),
    decreases LIMIT_STEPS + 1 - step,
{
    let (result, c2) = step_spec(c);
    let seen2 = spec_seen_insert(seen, c.state);
    if !(seen2 == 0x1fu8) && step > BB4_STEPS as int {
    } else if step > LIMIT_STEPS as int {
    } else if result is Moved {
        let cell = cell_index(c.state, c.tape[c.pos] as int);
        match c.table[cell] {
            Transition::Continue(d) => {
                assert(is_target(c.table, d.state.0 as int)) by {
                    assert(c.table[cell] matches Transition::Continue(dd) && dd.state.0
                        == d.state.0);
                }
                crate::run::lemma_step_spec_wf(c);
                lemma_run_outcome_halt_state_targeted(c2, seen2, step + 1);
            },
            Transition::Halt => {},
        }
    }
}

/// When [`spec_decide`] reports a halt, the halting state is the initial
/// state or the target of some defined cell of the machine.
pub proof fn lemma_decide_halt_state_targeted(
    m: States,
    changed: HaltingTransitionIndex,
    tape_len: int,
)
    requires
        m.wf(),
        tape_len >= 1,
    ensures
        spec_decide(m, changed, tape_len) matches Decision::Halt(b) ==> (b.0.0 == 0 || is_target(
            m.0@,
            b.0.0 as int,
        )),
{
    if !spec_is_irrelevant(m.0@, changed.0.0 as int, changed.1.0 as int) {
        let c = blank_config(m.0@, tape_len);
        lemma_run_outcome_halt_state_targeted(c, 0, 0);
    }
}

/// When [`spec_decide`] reports a halt, the cell it names is within the
/// machine shape and undefined in the machine.
pub proof fn lemma_decide_halt(m: States, changed: HaltingTransitionIndex, tape_len: int)
    requires
        m.wf(),
        tape_len >= 1,
    ensures
        spec_decide(m, changed, tape_len) matches Decision::Halt(b) ==> {
            &&& b.is_valid()
            &&& m.0@[cell_index(b.0.0 as int, b.1.0 as int)] is Halt
        },
{
    if !spec_is_irrelevant(m.0@, changed.0.0 as int, changed.1.0 as int) {
        let c = blank_config(m.0@, tape_len);
        assert(c.wf());
        lemma_run_outcome_halt(c, 0, 0);
    }
}

/// The `k`-th candidate transition of the canonical child order: target
/// states ascend in the outer position, within a state the direction is
/// Right then Left, and within a direction the written symbol is 0 then 1.
pub open spec fn child_transition(k: int) -> DefinedTransition {
    DefinedTransition {
        write: Symbol((k % 2) as u8),
        move_: if (k / 2) % 2 == 0 {
            Direction::Right
        } else {
            Direction::Left
        },
        state: State((k / 4) as u8),
    }
}

/// Number of candidate transitions when targets run over states 0..=max.
pub open spec fn child_count(max_state: int) -> int {
    4 * (max_state + 1)
}

/// The largest candidate target state when expanding `s` at a branch in the
/// row of state `branch_state`: one past the largest partially defined state
/// (or the branch's own state, whichever is larger), capped at the last
/// state index.
pub open spec fn spec_target_end(s: Seq<Transition>, branch_state: int) -> int {
    let l = spec_largest_partial(s, 4);
    let m = if l >= branch_state {
        l
    } else {
        branch_state
    };
    if m + 1 <= 4 {
        m + 1
    } else {
        4
    }
}

/// Iterator over the candidate transitions for a node's branch cell, in the
/// canonical order of [`child_transition`]. Finite and not restartable.
pub struct ChildNodes {
    exhausted: bool,
    max_state: u8,
    symbol: u8,
    direction: u8,
    state: u8,
}

impl ChildNodes {
    /// The largest candidate target state.
    pub closed spec fn spec_max(&self) -> int {
        self.max_state as int
    }

    /// How many candidates have been yielded so far.
    pub closed spec fn spec_pos(&self) -> int {
        if self.exhausted {
            child_count(self.max_state as int)
        } else {
            4 * self.state + 2 * self.direction + self.symbol
        }
    }

    /// Internal consistency of the odometer fields.
    pub closed spec fn inv(&self) -> bool {
        &&& self.max_state <= 4
        &&& (!self.exhausted ==> self.state <= self.max_state && self.direction <= 1 && self.symbol
            <= 1)
    }

    /// Candidate transitions for filling `branch` in `node`, in canonical
    /// order.
    pub fn new(node: &Node, branch: HaltingTransitionIndex) -> (it: ChildNodes)
        requires
            is_node(node.0),
            branch.is_valid(),
            node.0.spec_cell(branch.0.0 as int, branch.1.0 as int) is Halt,
            2 <= spec_halt_count(node.0.0@) <= 9,
        ensures
            it.inv(),
            it.spec_pos() == 0,
            it.spec_max() == spec_target_end(node.0.0@, branch.0.0 as int),
    {
        let largest = node.largest_partially_defined_state().get();
        let largest_partially_defined_state = if largest >= branch.0.get() {
            largest
        } else {
            branch.0.get()
        };
        let target_states_end = if largest_partially_defined_state + 1 <= 4 {
            largest_partially_defined_state + 1
        } else {
            4
        };
        ChildNodes { exhausted: false, max_state: target_states_end, state: 0, direction: 0, symbol: 0 }
    }

    /// Yield the next candidate, or nothing once all `4 * (max + 1)`
    /// candidates have been yielded. After exhaustion it stays exhausted.
    pub fn next(&mut self) -> (r: Option<DefinedTransition>)
        requires
            old(self).inv(),
        ensures
            final(self).inv(),
            final(self).spec_max() == old(self).spec_max(),
            old(self).spec_pos() < child_count(old(self).spec_max()) ==> {
                &&& r == Some(child_transition(old(self).spec_pos()))
                &&& final(self).spec_pos() == old(self).spec_pos() + 1
            },
            old(self).spec_pos() == child_count(old(self).spec_max()) ==> {
                &&& r is None
                &&& final(self).spec_pos() == old(self).spec_pos()
            },
    {
        if self.exhausted {
            return None;
        }
        let result = DefinedTransition {
            write: Symbol(self.symbol),
            move_: if self.direction == 0 {
                Direction::Right
            } else {
                Direction::Left
            },
            state: State(self.state),
        };
        proof {
            let k = old(self).spec_pos();
            assert(k % 2 == self.symbol as int && (k / 2) % 2 == self.direction as int && k / 4
                == self.state as int);
        }
        if self.symbol < 1 {
            self.symbol += 1;
        } else {
            self.symbol = 0;
            if self.direction < 1 {
                self.direction += 1;
            } else {
                self.direction = 0;
                if self.state < self.max_state {
                    self.state += 1;
                } else {
                    self.state = 0;
                    self.exhausted = true;
                }
            }
        }
        Some(result)
    }
}

} // verus!
