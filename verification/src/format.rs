//! Textual and binary machine formats.
//!
//! The compact textual form renders a machine as five state blocks separated
//! by `_`, each block two 3-character transitions: `---` for an undefined
//! cell, else write digit, direction letter (`L`/`R`), and target state
//! letter (`A`..`E`). The seed-database binary form is thirty bytes, three
//! per cell: `00 00 00` for an undefined cell, else (write, direction with 0
//! for Right and 1 for Left, target state plus one).

use vstd::prelude::*;

use crate::states::{Direction, DefinedTransition, State, States, Symbol, Transition, CELL_COUNT};

verus! {

/// Why a machine representation was rejected.
#[derive(Debug, Clone, Copy, PartialEq, Eq, Structural)]
pub enum FormatError {
    InvalidLength,
    InvalidSymbol,
    InvalidDirection,
    InvalidState,
}

/// The compact textual form of one transition (3 bytes).
pub open spec fn spec_compact_transition(t: Transition) -> Seq<u8> {
    match t {
        Transition::Halt => seq![45u8, 45u8, 45u8],
        Transition::Continue(d) => seq![
            (48 + d.write.0) as u8,
            match d.move_ {
                Direction::Left => 76u8,
                Direction::Right => 82u8,
            },
            (65 + d.state.0) as u8,
        ],
    }
}

/// The compact textual form of a whole machine (34 bytes): the ten cells in
/// (state, symbol) order, with `_` between state blocks.
pub open spec fn spec_compact(m: States) -> Seq<u8> {
    spec_compact_transition(m.0@[0]) + spec_compact_transition(m.0@[1]) + seq![95u8]
        + spec_compact_transition(m.0@[2]) + spec_compact_transition(m.0@[3]) + seq![95u8]
        + spec_compact_transition(m.0@[4]) + spec_compact_transition(m.0@[5]) + seq![95u8]
        + spec_compact_transition(m.0@[6]) + spec_compact_transition(m.0@[7]) + seq![95u8]
        + spec_compact_transition(m.0@[8]) + spec_compact_transition(m.0@[9])
}

pub proof fn lemma_compact_transition_len(t: Transition)
    ensures
        spec_compact_transition(t).len() == 3,
{
}

pub proof fn lemma_compact_len(m: States)
    ensures
        spec_compact(m).len() == 34,
{
    assert forall|t: Transition| spec_compact_transition(t).len() == 3 by {
        lemma_compact_transition_len(t);
    }
}

/// Byte offset of cell `i` within the compact form: 7 bytes per state block,
/// 3 per transition.
pub open spec fn compact_offset(i: int) -> int {
    7 * (i / 2) + 3 * (i % 2)
}

/// Parse one 3-byte compact transition. The write digit must be `0` or `1`,
/// the direction `L` or `R`, the state `A` to `E`; errors are reported in
/// that order.
pub open spec fn spec_parse_compact_transition(s: Seq<u8>) -> Result<Transition, FormatError> {
    if s[0] == 45 && s[1] == 45 && s[2] == 45 {
        Ok(Transition::Halt)
    } else if !(s[0] == 48 || s[0] == 49) {
        Err(FormatError::InvalidSymbol)
    } else if !(s[1] == 76 || s[1] == 82) {
        Err(FormatError::InvalidDirection)
    } else if !(65 <= s[2] <= 69) {
        Err(FormatError::InvalidState)
    } else {
        Ok(
            Transition::Continue(
                DefinedTransition {
                    write: Symbol((s[0] - 48) as u8),
                    move_: if s[1] == 76 {
                        Direction::Left
                    } else {
                        Direction::Right
                    },
                    state: State((s[2] - 65) as u8),
                },
            ),
        )
    }
}

/// Parse the compact cells from index `i` on; the first failing cell's error
/// wins. The separator bytes between state blocks are not inspected.
pub open spec fn spec_parse_compact_cells(b: Seq<u8>, i: int) -> Result<Seq<Transition>, FormatError>
    decreases CELL_COUNT as int - i,
{
    if i >= CELL_COUNT as int {
        Ok(Seq::empty())
    } else {
        match spec_parse_compact_transition(b.subrange(compact_offset(i), compact_offset(i) + 3)) {
            Err(e) => Err(e),
            Ok(t) => match spec_parse_compact_cells(b, i + 1) {
                Err(e) => Err(e),
                Ok(rest) => Ok(seq![t] + rest),
            },
        }
    }
}

/// What [`read_compact`] returns, as a table of cells.
pub open spec fn spec_read_compact(b: Seq<u8>) -> Result<Seq<Transition>, FormatError> {
    if b.len() != 34 {
        Err(FormatError::InvalidLength)
    } else {
        spec_parse_compact_cells(b, 0)
    }
}

fn push_compact_transition(v: &mut Vec<u8>, t: Transition)
    requires
        crate::states::wf_transition(t),
    ensures
        final(v)@ == old(v)@ + spec_compact_transition(t),
{
    match t {
        Transition::Halt => {
            v.push(45);
            v.push(45);
            v.push(45);
        },
        Transition::Continue(d) => {
            v.push(48 + d.write.0);
            v.push(
                match d.move_ {
                    Direction::Left => 76,
                    Direction::Right => 82,
                },
            );
            v.push(65 + d.state.0);
        },
    }
    proof {
        assert(v@ =~= old(v)@ + spec_compact_transition(t));
    }
}

/// Render a machine in the compact textual form (34 bytes).
#[verifier::rlimit(50)]
pub fn write_compact(states: &States) -> (r: Vec<u8>)
    requires
        states.wf(),
    ensures
        r@ == spec_compact(*states),
        r@.len() == 34,
{
    let mut v: Vec<u8> = Vec::new();
    push_compact_transition(&mut v, states.0[0]);
    push_compact_transition(&mut v, states.0[1]);
    v.push(95);
    push_compact_transition(&mut v, states.0[2]);
    push_compact_transition(&mut v, states.0[3]);
    v.push(95);
    push_compact_transition(&mut v, states.0[4]);
    push_compact_transition(&mut v, states.0[5]);
    v.push(95);
    push_compact_transition(&mut v, states.0[6]);
    push_compact_transition(&mut v, states.0[7]);
    v.push(95);
    push_compact_transition(&mut v, states.0[8]);
    push_compact_transition(&mut v, states.0[9]);
    proof {
        lemma_compact_len(*states);
        assert(v@ =~= spec_compact(*states));
    }
    v
}

fn read_transition_compact(b0: u8, b1: u8, b2: u8) -> (r: Result<Transition, FormatError>)
    ensures
        r == spec_parse_compact_transition(seq![b0, b1, b2]),
        r matches Ok(t) ==> crate::states::wf_transition(t),
{
    if b0 == 45 && b1 == 45 && b2 == 45 {
        return Ok(Transition::Halt);
    }
    if !(b0 == 48 || b0 == 49) {
        return Err(FormatError::InvalidSymbol);
    }
    if !(b1 == 76 || b1 == 82) {
        return Err(FormatError::InvalidDirection);
    }
    if !(65 <= b2 && b2 <= 69) {
        return Err(FormatError::InvalidState);
    }
    Ok(
        Transition::Continue(
            DefinedTransition {
                write: Symbol(b0 - 48),
                move_: if b1 == 76 {
                    Direction::Left
                } else {
                    Direction::Right
                },
                state: State(b2 - 65),
            },
        ),
    )
}

proof fn lemma_parse_compact_cells_ok(b: Seq<u8>, c: Seq<Transition>, i: int)
    requires
        0 <= i <= CELL_COUNT as int,
        c.len() == CELL_COUNT as int,
        forall|j: int|
            i <= j < CELL_COUNT as int ==> spec_parse_compact_transition(
                b.subrange(compact_offset(j), compact_offset(j) + 3),
            ) == Ok::<Transition, FormatError>(c[j]),
    ensures
        spec_parse_compact_cells(b, i) == Ok::<Seq<Transition>, FormatError>(
            c.subrange(i, CELL_COUNT as int),
        ),
    decreases CELL_COUNT as int - i,
{
    if i < CELL_COUNT as int {
        lemma_parse_compact_cells_ok(b, c, i + 1);
        assert(seq![c[i]] + c.subrange(i + 1, CELL_COUNT as int) =~= c.subrange(
            i,
            CELL_COUNT as int,
        ));
    } else {
        assert(c.subrange(i, CELL_COUNT as int) =~= Seq::<Transition>::empty());
    }
}

proof fn lemma_parse_compact_cells_err(b: Seq<u8>, k: int, i: int, e: FormatError)
    requires
        0 <= k <= i < CELL_COUNT as int,
        forall|j: int|
            k <= j < i ==> (#[trigger] spec_parse_compact_transition(
                b.subrange(compact_offset(j), compact_offset(j) + 3),
            )) is Ok,
        spec_parse_compact_transition(b.subrange(compact_offset(i), compact_offset(i) + 3)) == Err::<
            Transition,
            FormatError,
        >(e),
    ensures
        spec_parse_compact_cells(b, k) == Err::<Seq<Transition>, FormatError>(e),
    decreases i - k,
{
    if k < i {
        lemma_parse_compact_cells_err(b, k + 1, i, e);
    }
}

/// Parse the compact textual form. Exactly 34 bytes are accepted; each cell
/// is read from its fixed offset, the bytes between state blocks are not
/// inspected, and the first offending cell decides the error.
pub fn read_compact(s: &[u8]) -> (r: Result<States, FormatError>)
    ensures
        match spec_read_compact(s@) {
            Ok(cells) => r matches Ok(m) && m.0@ == cells && m.wf(),
            Err(e) => r == Err::<States, FormatError>(e),
        },
{
    if s.len() != 34 {
        return Err(FormatError::InvalidLength);
    }
    let mut m = States([Transition::Halt; 10]);
    let mut i: usize = 0;
    while i < 10
        invariant
            i <= 10,
            s@.len() == 34,
            m.wf(),
            forall|j: int|
                0 <= j < i ==> spec_parse_compact_transition(
                    s@.subrange(compact_offset(j), compact_offset(j) + 3),
                ) == Ok::<Transition, FormatError>(m.0@[j]),
        decreases 10 - i,
    {
        let off = 7 * (i / 2) + 3 * (i % 2);
        let t = match read_transition_compact(s[off], s[off + 1], s[off + 2]) {
            Ok(t) => t,
            Err(e) => {
                proof {
                    assert(seq![s@[off as int], s@[off as int + 1], s@[off as int + 2]] =~= s@
                        .subrange(compact_offset(i as int), compact_offset(i as int) + 3));
                    lemma_parse_compact_cells_err(s@, 0, i as int, e);
                }
                return Err(e);
            },
        };
        proof {
            assert(seq![s@[off as int], s@[off as int + 1], s@[off as int + 2]] =~= s@.subrange(
                compact_offset(i as int),
                compact_offset(i as int) + 3,
            ));
        }
        m.0[i] = t;
        i += 1;
    }
    proof {
        lemma_parse_compact_cells_ok(s@, m.0@, 0);
        assert(m.0@.subrange(0, CELL_COUNT as int) =~= m.0@);
    }
    Ok(m)
}

/// The seed-database binary form of one transition (3 bytes).
pub open spec fn spec_seed_transition(t: Transition) -> Seq<u8> {
    match t {
        Transition::Halt => seq![0u8, 0u8, 0u8],
        Transition::Continue(d) => seq![
            d.write.0,
            match d.move_ {
                Direction::Right => 0u8,
                Direction::Left => 1u8,
            },
            (d.state.0 + 1) as u8,
        ],
    }
}

/// The seed-database binary form of a whole machine (30 bytes): the ten
/// cells in (state, symbol) order.
pub open spec fn spec_seed_bytes(m: States) -> Seq<u8> {
    spec_seed_transition(m.0@[0]) + spec_seed_transition(m.0@[1]) + spec_seed_transition(m.0@[2])
        + spec_seed_transition(m.0@[3]) + spec_seed_transition(m.0@[4]) + spec_seed_transition(
        m.0@[5],
    ) + spec_seed_transition(m.0@[6]) + spec_seed_transition(m.0@[7]) + spec_seed_transition(
        m.0@[8],
    ) + spec_seed_transition(m.0@[9])
}

pub proof fn lemma_seed_transition_len(t: Transition)
    ensures
        spec_seed_transition(t).len() == 3,
{
}

pub proof fn lemma_seed_bytes_len(m: States)
    ensures
        spec_seed_bytes(m).len() == 30,
{
    assert forall|t: Transition| spec_seed_transition(t).len() == 3 by {
        lemma_seed_transition_len(t);
    }
}

/// Parse one 3-byte seed-database transition. All-zero bytes are an
/// undefined cell; otherwise the write must be below 2, the direction 0
/// (Right) or 1 (Left), and the state byte 1 to 5; errors are reported in
/// that order.
pub open spec fn spec_parse_seed_transition(s: Seq<u8>) -> Result<Transition, FormatError> {
    if s[0] == 0 && s[1] == 0 && s[2] == 0 {
        Ok(Transition::Halt)
    } else if s[0] >= 2 {
        Err(FormatError::InvalidSymbol)
    } else if s[1] >= 2 {
        Err(FormatError::InvalidDirection)
    } else if !(1 <= s[2] <= 5) {
        Err(FormatError::InvalidState)
    } else {
        Ok(
            Transition::Continue(
                DefinedTransition {
                    write: Symbol(s[0]),
                    move_: if s[1] == 1 {
                        Direction::Left
                    } else {
                        Direction::Right
                    },
                    state: State((s[2] - 1) as u8),
                },
            ),
        )
    }
}

/// Parse the seed-database cells from index `i` on; the first failing cell's
/// error wins.
pub open spec fn spec_parse_seed_cells(b: Seq<u8>, i: int) -> Result<Seq<Transition>, FormatError>
    decreases CELL_COUNT as int - i,
{
    if i >= CELL_COUNT as int {
        Ok(Seq::empty())
    } else {
        match spec_parse_seed_transition(b.subrange(3 * i, 3 * i + 3)) {
            Err(e) => Err(e),
            Ok(t) => match spec_parse_seed_cells(b, i + 1) {
                Err(e) => Err(e),
                Ok(rest) => Ok(seq![t] + rest),
            },
        }
    }
}

/// What [`read_seed_database`] returns, as a table of cells.
pub open spec fn spec_read_seed_database(b: Seq<u8>) -> Result<Seq<Transition>, FormatError> {
    if b.len() != 30 {
        Err(FormatError::InvalidLength)
    } else {
        spec_parse_seed_cells(b, 0)
    }
}

/// Append the seed-database form of one transition.
pub fn push_seed_transition(v: &mut Vec<u8>, t: Transition)
    requires
        crate::states::wf_transition(t),
    ensures
        final(v)@ == old(v)@ + spec_seed_transition(t),
{
    match t {
        Transition::Halt => {
            v.push(0);
            v.push(0);
            v.push(0);
        },
        Transition::Continue(d) => {
            v.push(d.write.0);
            v.push(
                match d.move_ {
                    Direction::Right => 0,
                    Direction::Left => 1,
                },
            );
            v.push(d.state.0 + 1);
        },
    }
    proof {
        assert(v@ =~= old(v)@ + spec_seed_transition(t));
    }
}

/// Render a machine in the seed-database binary form (30 bytes).
pub fn write_seed_database(states: &States) -> (r: Vec<u8>)
    requires
        states.wf(),
    ensures
        r@ == spec_seed_bytes(*states),
        r@.len() == 30,
{
    let mut v: Vec<u8> = Vec::new();
    let mut i: usize = 0;
    while i < 10
        invariant
            i <= 10,
            states.wf(),
            v@ =~= spec_seed_prefix(*states, i as int),
        decreases 10 - i,
    {
        push_seed_transition(&mut v, states.0[i]);
        i += 1;
    }
    proof {
        lemma_seed_bytes_len(*states);
        reveal_with_fuel(spec_seed_prefix, 11);
        assert(spec_seed_prefix(*states, 10) =~= spec_seed_bytes(*states));
    }
    v
}

/// The seed-database form of the first `i` cells.
pub open spec fn spec_seed_prefix(m: States, i: int) -> Seq<u8>
    decreases i,
{
    if i <= 0 {
        Seq::empty()
    } else {
        spec_seed_prefix(m, i - 1) + spec_seed_transition(m.0@[i - 1])
    }
}

fn read_transition_seed_database(b0: u8, b1: u8, b2: u8) -> (r: Result<Transition, FormatError>)
    ensures
        r == spec_parse_seed_transition(seq![b0, b1, b2]),
        r matches Ok(t) ==> crate::states::wf_transition(t),
{
    if b0 == 0 && b1 == 0 && b2 == 0 {
        return Ok(Transition::Halt);
    }
    if b0 >= 2 {
        return Err(FormatError::InvalidSymbol);
    }
    if b1 >= 2 {
        return Err(FormatError::InvalidDirection);
    }
    if !(1 <= b2 && b2 <= 5) {
        return Err(FormatError::InvalidState);
    }
    Ok(
        Transition::Continue(
            DefinedTransition {
                write: Symbol(b0),
                move_: if b1 == 1 {
                    Direction::Left
                } else {
                    Direction::Right
                },
                state: State(b2 - 1),
            },
        ),
    )
}

proof fn lemma_parse_seed_cells_ok(b: Seq<u8>, c: Seq<Transition>, i: int)
    requires
        0 <= i <= CELL_COUNT as int,
        c.len() == CELL_COUNT as int,
        forall|j: int|
            i <= j < CELL_COUNT as int ==> spec_parse_seed_transition(b.subrange(3 * j, 3 * j + 3))
                == Ok::<Transition, FormatError>(c[j]),
    ensures
        spec_parse_seed_cells(b, i) == Ok::<Seq<Transition>, FormatError>(
            c.subrange(i, CELL_COUNT as int),
        ),
    decreases CELL_COUNT as int - i,
{
    if i < CELL_COUNT as int {
        lemma_parse_seed_cells_ok(b, c, i + 1);
        assert(seq![c[i]] + c.subrange(i + 1, CELL_COUNT as int) =~= c.subrange(
            i,
            CELL_COUNT as int,
        ));
    } else {
        assert(c.subrange(i, CELL_COUNT as int) =~= Seq::<Transition>::empty());
    }
}

proof fn lemma_parse_seed_cells_err(b: Seq<u8>, k: int, i: int, e: FormatError)
    requires
        0 <= k <= i < CELL_COUNT as int,
        forall|j: int|
            k <= j < i ==> (#[trigger] spec_parse_seed_transition(
                b.subrange(3 * j, 3 * j + 3),
            )) is Ok,
        spec_parse_seed_transition(b.subrange(3 * i, 3 * i + 3)) == Err::<Transition, FormatError>(
            e,
        ),
    ensures
        spec_parse_seed_cells(b, k) == Err::<Seq<Transition>, FormatError>(e),
    decreases i - k,
{
    if k < i {
        lemma_parse_seed_cells_err(b, k + 1, i, e);
    }
}

/// Parse the seed-database binary form. Exactly 30 bytes are accepted and
/// the first offending cell decides the error.
pub fn read_seed_database(s: &[u8]) -> (r: Result<States, FormatError>)
    ensures
        match spec_read_seed_database(s@) {
            Ok(cells) => r matches Ok(m) && m.0@ == cells && m.wf(),
            Err(e) => r == Err::<States, FormatError>(e),
        },
{
    if s.len() != 30 {
        return Err(FormatError::InvalidLength);
    }
    let mut m = States([Transition::Halt; 10]);
    let mut i: usize = 0;
    while i < 10
        invariant
            i <= 10,
            s@.len() == 30,
            m.wf(),
            forall|j: int|
                0 <= j < i ==> spec_parse_seed_transition(s@.subrange(3 * j, 3 * j + 3)) == Ok::<
                    Transition,
                    FormatError,
                >(m.0@[j]),
        decreases 10 - i,
    {
        let off = 3 * i;
        let t = match read_transition_seed_database(s[off], s[off + 1], s[off + 2]) {
            Ok(t) => t,
            Err(e) => {
                proof {
                    assert(seq![s@[off as int], s@[off as int + 1], s@[off as int + 2]] =~= s@
                        .subrange(3 * i as int, 3 * i as int + 3));
                    assert forall|j: int| 0 <= j < i implies (#[trigger] spec_parse_seed_transition(
                        s@.subrange(3 * j, 3 * j + 3),
                    )) is Ok by {
                        assert(spec_parse_seed_transition(s@.subrange(3 * j, 3 * j + 3)) == Ok::<
                            Transition,
                            FormatError,
                        >(m.0@[j]));
                    }
                    lemma_parse_seed_cells_err(s@, 0, i as int, e);
                }
                return Err(e);
            },
        };
        proof {
            assert(seq![s@[off as int], s@[off as int + 1], s@[off as int + 2]] =~= s@.subrange(
                3 * i as int,
                3 * i as int + 3,
            ));
        }
        m.0[i] = t;
        i += 1;
    }
    proof {
        lemma_parse_seed_cells_ok(s@, m.0@, 0);
        assert(m.0@.subrange(0, CELL_COUNT as int) =~= m.0@);
    }
    Ok(m)
}

/// Reading back the seed-database form of any well-formed machine restores
/// the machine exactly.
#[verifier::rlimit(50)]
pub proof fn lemma_seed_round_trip(m: States)
    requires
        m.wf(),
    ensures
        spec_read_seed_database(spec_seed_bytes(m)) == Ok::<Seq<Transition>, FormatError>(m.0@),
{
    let b = spec_seed_bytes(m);
    lemma_seed_bytes_len(m);
    assert forall|j: int| 0 <= j < CELL_COUNT as int implies spec_parse_seed_transition(
        b.subrange(3 * j, 3 * j + 3),
    ) == Ok::<Transition, FormatError>(m.0@[j]) by {
        assert forall|t: Transition| spec_seed_transition(t).len() == 3 by {
            lemma_seed_transition_len(t);
        }
        assert(b.subrange(3 * j, 3 * j + 3) =~= spec_seed_transition(m.0@[j]));
    }
    lemma_parse_seed_cells_ok(b, m.0@, 0);
    assert(m.0@.subrange(0, CELL_COUNT as int) =~= m.0@);
}

/// Reading back the compact form of any well-formed machine restores the
/// machine exactly.
#[verifier::rlimit(50)]
pub proof fn lemma_compact_round_trip(m: States)
    requires
        m.wf(),
    ensures
        spec_read_compact(spec_compact(m)) == Ok::<Seq<Transition>, FormatError>(m.0@),
{
    let b = spec_compact(m);
    lemma_compact_len(m);
    assert forall|j: int| 0 <= j < CELL_COUNT as int implies spec_parse_compact_transition(
        b.subrange(compact_offset(j), compact_offset(j) + 3),
    ) == Ok::<Transition, FormatError>(m.0@[j]) by {
        assert forall|t: Transition| spec_compact_transition(t).len() == 3 by {
            lemma_compact_transition_len(t);
        }
        assert(b.subrange(compact_offset(j), compact_offset(j) + 3) =~= spec_compact_transition(
            m.0@[j],
        ));
    }
    lemma_parse_compact_cells_ok(b, m.0@, 0);
    assert(m.0@.subrange(0, CELL_COUNT as int) =~= m.0@);
}

} // verus!
