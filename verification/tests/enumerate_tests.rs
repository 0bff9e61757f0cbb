use busy_beaver::enumerate::{
    create_runner, decide, ChildNodes, Decision, HaltingTransitionIndex, Node, LIMIT_MEMORY,
    LIMIT_STEPS,
};
use busy_beaver::format::read_compact;
use busy_beaver::run::StepResult;
use busy_beaver::states::{Direction, State, Symbol};

const BB5_CHAMPION_COMPACT: &[u8] = b"1RB1LC_1RC1RB_1RD0LE_1LA1LD_---0LA";

fn hti(state: u8, symbol: u8) -> HaltingTransitionIndex {
    HaltingTransitionIndex(State::new(state).unwrap(), Symbol::new(symbol).unwrap())
}

/// From the root, the candidate transitions come in the canonical order:
/// target state outermost, then direction (Right before Left), then symbol.
#[test]
fn root_expansion_order() {
    let node = Node::root();
    let mut it = ChildNodes::new(&node, HaltingTransitionIndex::root());
    let expected = [
        (0u8, Direction::Right, 0u8),
        (0, Direction::Right, 1),
        (0, Direction::Left, 0),
        (0, Direction::Left, 1),
        (1, Direction::Right, 0),
        (1, Direction::Right, 1),
        (1, Direction::Left, 0),
        (1, Direction::Left, 1),
        (2, Direction::Right, 0),
        (2, Direction::Right, 1),
    ];
    for (state, direction, symbol) in expected {
        let t = it.next().unwrap();
        assert_eq!(t.state.get(), state);
        assert_eq!(t.move_, direction);
        assert_eq!(t.write.get(), symbol);
    }
    // The root allows targets up to state C and one more candidate pair
    // remains: (C, L, 0) and (C, L, 1). After those the iterator is spent.
    assert_eq!(it.next().unwrap().move_, Direction::Left);
    assert_eq!(it.next().unwrap().move_, Direction::Left);
    assert!(it.next().is_none());
    assert!(it.next().is_none());
}

/// The decider recognizes the BB(5) champion as halting. The cell reported
/// is the undefined cell the run ends on: state E reading 0.
#[test]
fn champion_recognition() {
    let states = read_compact(BB5_CHAMPION_COMPACT).unwrap();
    let mut runner = create_runner();
    let d = decide(&mut runner, &states, hti(0, 0));
    assert_eq!(d, Decision::Halt(hti(4, 0)));
}

/// The BB(5) champion runs exactly `LIMIT_STEPS` steps from the blank tape,
/// the last of them reading the undefined cell (E, 0).
#[test]
fn champion_halts_at_bb5_steps() {
    let states = read_compact(BB5_CHAMPION_COMPACT).unwrap();
    let mut runner = create_runner();
    runner.set_states(&states);
    runner.reset();
    let mut steps: u64 = 0;
    loop {
        match runner.step() {
            StepResult::Moved => steps += 1,
            StepResult::Halt => break,
            other => panic!("champion ran off the tape: {:?}", other),
        }
    }
    // The final, halting step reads state E's undefined cell; counted like
    // the moves before it, the machine halts at step LIMIT_STEPS.
    assert_eq!(steps + 1, LIMIT_STEPS as u64);
    assert_eq!(runner.state().get(), 4);
    assert_eq!(runner.symbol().get(), 0);
}

/// A machine that visits only 3 states and never halts is caught by the
/// BB(4) step bound and classified as Loop (it runs far beyond 200 steps
/// without halting).
#[test]
fn bb4_loop() {
    let states = read_compact(b"1RB1LC_1RC1RB_1LA0LB_------_------").unwrap();
    let mut runner = create_runner();
    let d = decide(&mut runner, &states, hti(0, 0));
    assert_eq!(d, Decision::Loop);
}

/// A machine that only moves right fills the tape after `LIMIT_MEMORY`
/// steps and is classified Undecided, not Halt.
#[test]
fn tape_full() {
    let states = read_compact(b"1RB---_1RC---_1RD---_1RE---_1RE---").unwrap();
    let mut runner = create_runner();
    let d = decide(&mut runner, &states, hti(0, 0));
    assert_eq!(d, Decision::Undecided);

    // Count the steps until the head hits the right end of the tape.
    runner.set_states(&states);
    runner.reset();
    let mut steps: u64 = 0;
    loop {
        match runner.step() {
            StepResult::Moved => steps += 1,
            StepResult::TapeFullRight => break,
            other => panic!("expected the tape to fill to the right: {:?}", other),
        }
    }
    // The head starts at the midpoint and needs LIMIT_MEMORY - 1 moves to
    // reach the last cell; the step that would cross the end does not move.
    assert_eq!(steps, LIMIT_MEMORY as u64 - 1);
}

/// States B and C identical up to swapping the B and C targets: irrelevant
/// without simulation.
#[test]
fn irrelevant_equivalent_states() {
    let states = read_compact(b"1RB---_1RC0LA_1RB0LA_------_------").unwrap();
    let mut runner = create_runner();
    let d = decide(&mut runner, &states, hti(1, 0));
    assert_eq!(d, Decision::Irrelevant);
}

/// The just-filled transition goes to a fully defined state that copies the
/// cell, reverses the move, and returns to one common successor: irrelevant.
#[test]
fn irrelevant_redundant_transition() {
    let states = read_compact(b"1RB---_0LA1LA_------_------_------").unwrap();
    let mut runner = create_runner();
    let d = decide(&mut runner, &states, hti(0, 0));
    assert_eq!(d, Decision::Irrelevant);
}

/// The classifications of the root's ten children, in canonical order: the
/// children that re-enter only states A and B loop by the BB(4) bound, the
/// left-movers run back into an undefined cell and halt, and the children
/// that reach state C halt on C's undefined row.
#[test]
fn root_children_classifications() {
    let node = Node::root();
    let branch = HaltingTransitionIndex::root();
    let mut runner = create_runner();
    let mut it = ChildNodes::new(&node, branch);
    let mut decisions = Vec::new();
    let mut machine = node.0;
    while let Some(t) = it.next() {
        machine.set_transition(
            branch.0,
            branch.1,
            busy_beaver::states::Transition::Continue(t),
        );
        decisions.push(decide(&mut runner, &machine, branch));
    }
    let expected = vec![
        Decision::Loop,              // 0RA
        Decision::Loop,              // 1RA
        Decision::Halt(hti(0, 1)),   // 0LA
        Decision::Halt(hti(0, 1)),   // 1LA
        Decision::Loop,              // 0RB
        Decision::Loop,              // 1RB
        Decision::Halt(hti(1, 1)),   // 0LB
        Decision::Halt(hti(1, 1)),   // 1LB
        Decision::Halt(hti(2, 0)),   // 0RC
        Decision::Halt(hti(2, 0)),   // 1RC
        Decision::Halt(hti(2, 1)),   // 0LC
        Decision::Halt(hti(2, 1)),   // 1LC
    ];
    assert_eq!(decisions, expected);
}
