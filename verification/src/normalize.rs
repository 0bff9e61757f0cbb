//! Turing machine normalization.
//!
//! A machine is normal when its first defined transition (in table order)
//! moves right and the non-initial target states read off the table in
//! (state, symbol) order are strictly increasing. [`normalize`] reworks a
//! machine towards that shape by mirroring all directions and renaming
//! states; each step is pinned down operationally by a specification
//! function.

use vstd::prelude::*;

use crate::states::{Direction, DefinedTransition, State, States, Transition, CELL_COUNT};

verus! {

/// The non-initial target states of the first `n` cells, in table order,
/// with repetitions.
pub open spec fn spec_targets_upto(s: Seq<Transition>, n: int) -> Seq<State>
    decreases n,
{
    if n <= 0 {
        Seq::empty()
    } else {
        spec_targets_upto(s, n - 1) + (match s[n - 1] {
            Transition::Continue(d) => if d.state.0 != 0 {
                seq![d.state]
            } else {
                Seq::empty()
            },
            Transition::Halt => Seq::empty(),
        })
    }
}

/// The non-initial target states of the whole table, in table order.
pub open spec fn spec_non_initial_targets(s: Seq<Transition>) -> Seq<State> {
    spec_targets_upto(s, CELL_COUNT as int)
}

/// Every element is strictly smaller than the next.
pub open spec fn spec_strictly_ascending(q: Seq<State>) -> bool {
    forall|i: int| 0 <= i < q.len() - 1 ==> (#[trigger] q[i]).0 < q[i + 1].0
}

/// The move of the first defined transition at or after cell `i`, if any.
pub open spec fn spec_first_move(s: Seq<Transition>, i: int) -> Option<Direction>
    decreases CELL_COUNT as int - i,
{
    if i < 0 || i >= CELL_COUNT as int {
        None
    } else {
        match s[i] {
            Transition::Continue(d) => Some(d.move_),
            Transition::Halt => spec_first_move(s, i + 1),
        }
    }
}

/// Normal form: the first defined transition does not move left, and the
/// non-initial targets are strictly increasing in table order.
pub open spec fn spec_is_normal(s: Seq<Transition>) -> bool {
    spec_first_move(s, 0) != Some(Direction::Left) && spec_strictly_ascending(
        spec_non_initial_targets(s),
    )
}

fn first_transition_moves_right(d: &States) -> (r: bool)
    ensures
        r == (spec_first_move(d.0@, 0) != Some(Direction::Left)),
{
    let mut i: usize = 0;
    while i < 10
        invariant
            i <= 10,
            spec_first_move(d.0@, 0) == spec_first_move(d.0@, i as int),
        decreases 10 - i,
    {
        match d.0[i] {
            Transition::Continue(t) => {
                return matches!(t.move_, Direction::Right);
            },
            Transition::Halt => {},
        }
        i += 1;
    }
    true
}

/// The non-initial target states, in table order, as a vector.
fn non_initial_targets(d: &States) -> (r: Vec<State>)
    requires
        d.wf(),
    ensures
        r@ == spec_non_initial_targets(d.0@),
        forall|j: int| 0 <= j < r@.len() ==> (#[trigger] r@[j]).is_valid(),
{
    let mut r: Vec<State> = Vec::new();
    let mut i: usize = 0;
    while i < 10
        invariant
            i <= 10,
            d.wf(),
            r@ == spec_targets_upto(d.0@, i as int),
            forall|j: int| 0 <= j < r@.len() ==> (#[trigger] r@[j]).is_valid(),
        decreases 10 - i,
    {
        match d.0[i] {
            Transition::Continue(t) => {
                if t.state.0 != 0 {
                    r.push(t.state);
                    proof {
                        assert(r@ =~= spec_targets_upto(d.0@, i as int + 1));
                    }
                } else {
                    proof {
                        assert(r@ =~= spec_targets_upto(d.0@, i as int + 1));
                    }
                }
            },
            Transition::Halt => {
                proof {
                    assert(r@ =~= spec_targets_upto(d.0@, i as int + 1));
                }
            },
        }
        i += 1;
    }
    r
}

fn strictly_ascending(q: &Vec<State>) -> (r: bool)
    ensures
        r == spec_strictly_ascending(q@),
{
    let n = q.len();
    if n == 0 {
        return true;
    }
    let mut i: usize = 0;
    while i < n - 1
        invariant
            n == q@.len(),
            n >= 1,
            i <= n - 1,
            forall|j: int| 0 <= j < i ==> (#[trigger] q@[j]).0 < q@[j + 1].0,
        decreases n - i,
    {
        if q[i].0 >= q[i + 1].0 {
            return false;
        }
        i += 1;
    }
    true
}

/// Whether the machine is in normal form.
pub fn is_normal(d: &States) -> (r: bool)
    requires
        d.wf(),
    ensures
        r == spec_is_normal(d.0@),
{
    first_transition_moves_right(d) && {
        let targets = non_initial_targets(d);
        strictly_ascending(&targets)
    }
}

/// A transition with its direction mirrored.
pub open spec fn spec_flip_transition(t: Transition) -> Transition {
    match t {
        Transition::Halt => Transition::Halt,
        Transition::Continue(d) => Transition::Continue(
            DefinedTransition {
                move_: match d.move_ {
                    Direction::Left => Direction::Right,
                    Direction::Right => Direction::Left,
                },
                ..d
            },
        ),
    }
}

/// The table with every direction mirrored.
pub open spec fn spec_flip_table(s: Seq<Transition>) -> Seq<Transition> {
    Seq::new(s.len(), |i: int| spec_flip_transition(s[i]))
}

fn reverse_directions(d: &mut States)
    ensures
        final(d).0@ == spec_flip_table(old(d).0@),
{
    let mut i: usize = 0;
    while i < 10
        invariant
            i <= 10,
            d.0@.len() == CELL_COUNT,
            forall|j: int| 0 <= j < i ==> d.0@[j] == spec_flip_transition(old(d).0@[j]),
            forall|j: int| i <= j < CELL_COUNT ==> d.0@[j] == old(d).0@[j],
        decreases 10 - i,
    {
        let t = d.0[i];
        d.0[i] = match t {
            Transition::Halt => Transition::Halt,
            Transition::Continue(dt) => Transition::Continue(
                DefinedTransition {
                    write: dt.write,
                    move_: match dt.move_ {
                        Direction::Left => Direction::Right,
                        Direction::Right => Direction::Left,
                    },
                    state: dt.state,
                },
            ),
        };
        i += 1;
    }
    proof {
        assert(d.0@ =~= spec_flip_table(old(d).0@));
    }
}

/// A transition with the target states `a` and `b` exchanged.
pub open spec fn spec_rename_target(t: Transition, a: int, b: int) -> Transition {
    match t {
        Transition::Halt => Transition::Halt,
        Transition::Continue(d) => Transition::Continue(
            DefinedTransition {
                state: if d.state.0 == a {
                    State(b as u8)
                } else if d.state.0 == b {
                    State(a as u8)
                } else {
                    d.state
                },
                ..d
            },
        ),
    }
}

/// Cell `i` of the table after exchanging states `a` and `b`: the rows of
/// `a` and `b` are swapped and every target is renamed.
pub open spec fn spec_swap_cell(s: Seq<Transition>, a: int, b: int, i: int) -> Transition {
    let src = if i / 2 == a {
        2 * b + i % 2
    } else if i / 2 == b {
        2 * a + i % 2
    } else {
        i
    };
    spec_rename_target(s[src], a, b)
}

/// The table after exchanging states `a` and `b`.
pub open spec fn spec_swap_table(s: Seq<Transition>, a: int, b: int) -> Seq<Transition> {
    Seq::new(s.len(), |i: int| spec_swap_cell(s, a, b, i))
}

fn swap_states(d: &mut States, a: State, b: State)
    requires
        a.is_valid(),
        b.is_valid(),
        old(d).wf(),
    ensures
        final(d).0@ == spec_swap_table(old(d).0@, a.0 as int, b.0 as int),
        final(d).wf(),
{
    let orig = *d;
    let mut i: usize = 0;
    while i < 10
        invariant
            i <= 10,
            a.is_valid(),
            b.is_valid(),
            orig.wf(),
            orig == *old(d),
            d.0@.len() == CELL_COUNT,
            forall|j: int|
                0 <= j < i ==> d.0@[j] == spec_swap_cell(orig.0@, a.0 as int, b.0 as int, j),
        decreases 10 - i,
    {
        let row = i / 2;
        let col = i % 2;
        let src: usize = if row == a.0 as usize {
            2 * (b.0 as usize) + col
        } else if row == b.0 as usize {
            2 * (a.0 as usize) + col
        } else {
            i
        };
        let t = orig.0[src];
        d.0[i] = match t {
            Transition::Halt => Transition::Halt,
            Transition::Continue(dt) => Transition::Continue(
                DefinedTransition {
                    write: dt.write,
                    move_: dt.move_,
                    state: if dt.state == a {
                        b
                    } else if dt.state == b {
                        a
                    } else {
                        dt.state
                    },
                },
            ),
        };
        i += 1;
    }
    proof {
        assert(d.0@ =~= spec_swap_table(old(d).0@, a.0 as int, b.0 as int));
    }
}

/// Insert `x` into `q` just before the longest suffix of elements larger
/// than `x`.
pub open spec fn spec_insert_sorted(q: Seq<State>, x: State) -> Seq<State>
    decreases q.len(),
{
    if q.len() == 0 {
        seq![x]
    } else if q.last().0 <= x.0 {
        q.push(x)
    } else {
        spec_insert_sorted(q.drop_last(), x).push(q.last())
    }
}

/// Insertion sort, element by element from the left.
pub open spec fn spec_sort(q: Seq<State>) -> Seq<State>
    decreases q.len(),
{
    if q.len() == 0 {
        Seq::empty()
    } else {
        spec_insert_sorted(spec_sort(q.drop_last()), q.last())
    }
}

proof fn lemma_insert_sorted_at(q: Seq<State>, x: State, j: int)
    requires
        0 <= j <= q.len(),
        forall|idx: int| j <= idx < q.len() ==> (#[trigger] q[idx]).0 > x.0,
        j > 0 ==> q[j - 1].0 <= x.0,
    ensures
        spec_insert_sorted(q, x) == q.subrange(0, j) + seq![x] + q.subrange(j, q.len() as int),
    decreases q.len(),
{
    if q.len() == 0 {
        assert(spec_insert_sorted(q, x) =~= q.subrange(0, j) + seq![x] + q.subrange(
            j,
            q.len() as int,
        ));
    } else if j == q.len() {
        assert(q.subrange(j, q.len() as int) =~= Seq::<State>::empty());
        assert(spec_insert_sorted(q, x) =~= q.subrange(0, j) + seq![x] + q.subrange(
            j,
            q.len() as int,
        ));
    } else {
        assert(q.last().0 > x.0);
        lemma_insert_sorted_at(q.drop_last(), x, j);
        assert(q.drop_last().subrange(0, j) =~= q.subrange(0, j));
        assert(q.drop_last().subrange(j, q.len() - 1) =~= q.subrange(j, q.len() - 1));
        assert((q.subrange(0, j) + seq![x] + q.subrange(j, q.len() - 1)).push(q.last()) =~= q
            .subrange(0, j) + seq![x] + q.subrange(j, q.len() as int));
    }
}

/// Sort a list of states by index, stably, as [`spec_sort`] describes.
fn sort_states(v: &Vec<State>) -> (r: Vec<State>)
    requires
        forall|j: int| 0 <= j < v@.len() ==> (#[trigger] v@[j]).is_valid(),
    ensures
        r@ == spec_sort(v@),
        r@.len() == v@.len(),
        forall|j: int| 0 <= j < r@.len() ==> (#[trigger] r@[j]).is_valid(),
{
    let mut r: Vec<State> = Vec::new();
    let mut i: usize = 0;
    while i < v.len()
        invariant
            i <= v@.len(),
            forall|j: int| 0 <= j < v@.len() ==> (#[trigger] v@[j]).is_valid(),
            r@ == spec_sort(v@.subrange(0, i as int)),
            r@.len() == i,
            forall|j: int| 0 <= j < r@.len() ==> (#[trigger] r@[j]).is_valid(),
        decreases v@.len() - i,
    {
        let x = v[i];
        let mut j: usize = r.len();
        while j > 0 && r[j - 1].0 > x.0
            invariant
                j <= r@.len(),
                forall|idx: int| j <= idx < r@.len() ==> (#[trigger] r@[idx]).0 > x.0,
            decreases j,
        {
            j -= 1;
        }
        proof {
            lemma_insert_sorted_at(r@, x, j as int);
            assert(v@.subrange(0, i as int + 1).drop_last() =~= v@.subrange(0, i as int));
        }
        r.insert(j, x);
        proof {
            assert(r@ =~= spec_sort(v@.subrange(0, i as int + 1)));
        }
        i += 1;
    }
    proof {
        assert(v@.subrange(0, v@.len() as int) =~= v@);
    }
    r
}

/// The table after performing the swaps `(a[k], b[k])`, `(a[k+1], b[k+1])`,
/// ... in order.
pub open spec fn spec_apply_swaps(s: Seq<Transition>, a: Seq<State>, b: Seq<State>, k: int) -> Seq<
    Transition,
>
    decreases a.len() - k,
{
    if k < 0 || k >= a.len() || k >= b.len() {
        s
    } else {
        spec_apply_swaps(spec_swap_table(s, a[k].0 as int, b[k].0 as int), a, b, k + 1)
    }
}

/// What [`normalize`] turns a table into: mirror all directions when the
/// first defined transition moves left, then, when the non-initial targets
/// are not strictly ascending, swap each target in table order with its
/// counterpart in the sorted target list.
pub open spec fn spec_normalize(s: Seq<Transition>) -> Seq<Transition> {
    let s1 = if spec_first_move(s, 0) == Some(Direction::Left) {
        spec_flip_table(s)
    } else {
        s
    };
    if !spec_strictly_ascending(spec_non_initial_targets(s1)) {
        let a = spec_non_initial_targets(s1);
        spec_apply_swaps(s1, a, spec_sort(a), 0)
    } else {
        s1
    }
}

/// Rework a machine towards normal form, as [`spec_normalize`] describes.
pub fn normalize(d: &mut States)
    requires
        old(d).wf(),
    ensures
        final(d).0@ == spec_normalize(old(d).0@),
        final(d).wf(),
{
    if !first_transition_moves_right(d) {
        reverse_directions(d);
        proof {
            assert(d.wf());
        }
    }
    let targets = non_initial_targets(d);
    if !strictly_ascending(&targets) {
        let sorted = sort_states(&targets);
        let ghost s1 = d.0@;
        let mut k: usize = 0;
        while k < targets.len()
            invariant
                k <= targets@.len(),
                d.wf(),
                forall|j: int| 0 <= j < targets@.len() ==> (#[trigger] targets@[j]).is_valid(),
                forall|j: int| 0 <= j < sorted@.len() ==> (#[trigger] sorted@[j]).is_valid(),
                sorted@.len() == targets@.len(),
                spec_apply_swaps(s1, targets@, sorted@, 0) == spec_apply_swaps(
                    d.0@,
                    targets@,
                    sorted@,
                    k as int,
                ),
            decreases targets@.len() - k,
        {
            swap_states(d, targets[k], sorted[k]);
            k += 1;
        }
    }
}

} // verus!
