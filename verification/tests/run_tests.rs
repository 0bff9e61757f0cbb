use busy_beaver::run::{Runner, StepResult};
use busy_beaver::states::{Direction, DefinedTransition, State, Symbol, Transition};

fn continue_(write: u8, move_: Direction, state: u8) -> Transition {
    Transition::Continue(DefinedTransition {
        write: Symbol::new(write).unwrap(),
        move_,
        state: State::new(state).unwrap(),
    })
}

/// A fresh runner starts in state A with the head at the tape midpoint over
/// a blank cell, and every transition halts.
#[test]
fn runner_starts_blank() {
    let mut r = Runner::vector_backed(5);
    assert_eq!(r.state().get(), 0);
    assert_eq!(r.symbol().get(), 0);
    assert_eq!(r.step(), StepResult::Halt);
    // A halting step changes nothing.
    assert_eq!(r.state().get(), 0);
    assert_eq!(r.symbol().get(), 0);
}

/// One step writes, changes state, and moves the head.
#[test]
fn step_applies_transition() {
    let mut r = Runner::vector_backed(5);
    r.set_transition(
        State::new(0).unwrap(),
        Symbol::new(0).unwrap(),
        continue_(1, Direction::Right, 1),
    );
    r.set_transition(
        State::new(1).unwrap(),
        Symbol::new(0).unwrap(),
        continue_(0, Direction::Left, 2),
    );
    assert_eq!(r.step(), StepResult::Moved);
    assert_eq!(r.state().get(), 1);
    assert_eq!(r.symbol().get(), 0);
    assert_eq!(r.step(), StepResult::Moved);
    // Back over the cell written in the first step.
    assert_eq!(r.state().get(), 2);
    assert_eq!(r.symbol().get(), 1);
}

/// A move across the left end of the tape reports TapeFullLeft: the write
/// and the state change are applied, the head stays.
#[test]
fn tape_full_left() {
    let mut r = Runner::new(vec![0u8; 2]);
    // Head starts at index 1; two left moves hit the end.
    r.set_transition(
        State::new(0).unwrap(),
        Symbol::new(0).unwrap(),
        continue_(1, Direction::Left, 1),
    );
    r.set_transition(
        State::new(1).unwrap(),
        Symbol::new(0).unwrap(),
        continue_(1, Direction::Left, 2),
    );
    assert_eq!(r.step(), StepResult::Moved);
    assert_eq!(r.step(), StepResult::TapeFullLeft);
    // The write and the state change still happened.
    assert_eq!(r.state().get(), 2);
    assert_eq!(r.symbol().get(), 1);
}

/// Reset zeroes the tape, recenters the head, and returns to state A, but
/// keeps the installed table.
#[test]
fn reset_restores_blank_configuration() {
    let mut r = Runner::vector_backed(5);
    r.set_transition(
        State::new(0).unwrap(),
        Symbol::new(0).unwrap(),
        continue_(1, Direction::Right, 1),
    );
    assert_eq!(r.step(), StepResult::Moved);
    r.reset();
    assert_eq!(r.state().get(), 0);
    assert_eq!(r.symbol().get(), 0);
    // The table survived the reset: the same first step happens again.
    assert_eq!(r.step(), StepResult::Moved);
    assert_eq!(r.state().get(), 1);
}

/// Installing a whole table at once behaves like setting each transition.
#[test]
fn set_states_installs_table() {
    let m = busy_beaver::format::read_compact(b"1RB---_1LA---_------_------_------").unwrap();
    let mut r = Runner::vector_backed(9);
    r.set_states(&m);
    assert_eq!(r.step(), StepResult::Moved);
    assert_eq!(r.state().get(), 1);
    assert_eq!(r.step(), StepResult::Moved);
    assert_eq!(r.state().get(), 0);
    assert_eq!(r.symbol().get(), 1);
    // (A, 1) is undefined: the machine halts.
    assert_eq!(r.step(), StepResult::Halt);
}
