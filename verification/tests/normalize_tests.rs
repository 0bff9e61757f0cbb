use busy_beaver::format::{read_compact, write_compact};
use busy_beaver::normalize::{is_normal, normalize};
use busy_beaver::states::{State, States, Symbol, Transition};

#[test]
fn state_and_symbol_bounds() {
    assert!(State::new(0).is_some());
    assert!(State::new(4).is_some());
    assert!(State::new(5).is_none());
    assert_eq!(State::new(3).unwrap().get(), 3);
    assert!(Symbol::new(0).is_some());
    assert!(Symbol::new(1).is_some());
    assert!(Symbol::new(2).is_none());
    assert_eq!(Symbol::new(1).unwrap().get(), 1);
}

#[test]
fn table_get_and_set() {
    let mut m = States::default();
    let b = State::new(1).unwrap();
    let one = Symbol::new(1).unwrap();
    assert_eq!(m.get_transition(b, one), Transition::Halt);
    let t = read_compact(b"1RB---_------_------_------_------")
        .unwrap()
        .get_transition(State::new(0).unwrap(), Symbol::new(0).unwrap());
    m.set_transition(b, one, t);
    assert_eq!(m.get_transition(b, one), t);
    assert_eq!(m.get_transition(b, Symbol::new(0).unwrap()), Transition::Halt);
}

#[test]
fn normal_form_checks() {
    // A single forward transition is normal.
    let m = read_compact(b"1RB---_------_------_------_------").unwrap();
    assert!(is_normal(&m));
    // First defined transition moves left: not normal.
    let m = read_compact(b"1LB---_------_------_------_------").unwrap();
    assert!(!is_normal(&m));
    // The champion's target sequence B,C,C,B,D,E,D repeats states, so the
    // strict table-order check rejects it.
    let m = read_compact(b"1RB1LC_1RC1RB_1RD0LE_1LA1LD_---0LA").unwrap();
    assert!(!is_normal(&m));
}

#[test]
fn normalize_mirrors_directions() {
    let mut m = read_compact(b"1LB0RA_1RA---_------_------_------").unwrap();
    normalize(&mut m);
    assert_eq!(
        write_compact(&m).as_slice(),
        b"1RB0LA_1LA---_------_------_------".as_slice()
    );
    assert!(is_normal(&m));
}

#[test]
fn normalize_keeps_normal_machines() {
    let text = b"1RB1LC_1RC1RB_1RD0LE_1LA1LD_---0LA";
    // Not normal (repeated targets), but already right-moving first and the
    // state-ordering pass only fires on out-of-order target lists; with the
    // champion's list the paired swaps cancel, leaving the machine as it is.
    let mut m = read_compact(text).unwrap();
    normalize(&mut m);
    assert_eq!(write_compact(&m).as_slice(), text.as_slice());

    let text = b"1RB---_------_------_------_------";
    let mut m = read_compact(text).unwrap();
    normalize(&mut m);
    assert_eq!(write_compact(&m).as_slice(), text.as_slice());
}

#[test]
fn normalize_swap_pair_cancels() {
    // Targets in table order are C then B; ordering swaps (C,B) and then
    // (B,C), which cancel, so the machine comes back unchanged.
    let text = b"1RC---_------_1LB---_------_------";
    let mut m = read_compact(text).unwrap();
    normalize(&mut m);
    assert_eq!(write_compact(&m).as_slice(), text.as_slice());
}
