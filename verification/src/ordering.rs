//! The order in which the enumeration discovers states.
//!
//! Filling exactly the cell a run halts on gives every machine of the tree a
//! run that reads each of its defined cells, and makes new states first
//! enter the run in ascending order: whenever a machine emitted by task
//! expansion runs from the blank tape, a state index above all earlier ones
//! can only appear as the immediate successor of the largest so far. This
//! module proves that law over [`crate::driver::spec_expand`].

use vstd::prelude::*;

use crate::driver::{spec_expand, wf_task, Task, MAX_LOCAL_HALTING_TRANSITIONS};
use crate::enumerate::{
    child_count, child_transition, clean_prefix, is_halting_config, is_node, lemma_decide_halt,
    lemma_decide_halt_sound, lemma_halt_count_update, spec_decide, spec_halt_count,
    spec_largest_partial, spec_target_end, start_transition, Decision, HaltingTransitionIndex,
    Node, LIMIT_STEPS,
};
use crate::run::{blank_config, lemma_run_n_wf, run_n, step_spec, Config};
use crate::states::{cell_index, States, Transition, CELL_COUNT};

verus! {

/// The table cell the run reads at step `j`.
pub open spec fn read_cell(c0: Config, j: int) -> int {
    cell_index(run_n(c0, j).state, run_n(c0, j).tape[run_n(c0, j).pos] as int)
}

/// The largest state entered within the first `n + 1` configurations.
pub open spec fn max_visited(c0: Config, n: int) -> int
    decreases n,
{
    if n <= 0 {
        c0.state
    } else if run_n(c0, n).state >= max_visited(c0, n - 1) {
        run_n(c0, n).state
    } else {
        max_visited(c0, n - 1)
    }
}

/// States are first entered in ascending order through step `h`: each state
/// exceeds the largest entered before it by at most one.
pub open spec fn visits_ascending(c0: Config, h: int) -> bool {
    forall|j: int| 0 <= j < h ==> run_n(c0, j + 1).state <= #[trigger] max_visited(c0, j) + 1
}

/// Along every prefix of defined transitions of the run from the blank
/// tape, the machine first enters its states in ascending order.
pub open spec fn machine_visits_ascending(m: States, len: int) -> bool {
    forall|n: int|
        0 <= n && #[trigger] clean_prefix(blank_config(m.0@, len), n) ==> visits_ascending(
            blank_config(m.0@, len),
            n,
        )
}

/// The run from the blank tape discovers the machine `m` and first halts at
/// `branch`: every step before `h` executes a defined transition, step `h`
/// reads the undefined cell `branch`, states are first entered in ascending
/// order, and every defined cell of the table is read by step `h`.
pub open spec fn run_discovers(m: States, branch: HaltingTransitionIndex, h: int, len: int) -> bool {
    let c0 = blank_config(m.0@, len);
    &&& 0 <= h
    &&& clean_prefix(c0, h)
    &&& is_halting_config(run_n(c0, h))
    &&& run_n(c0, h).state == branch.0.0 as int
    &&& run_n(c0, h).tape[run_n(c0, h).pos] == branch.1.0
    &&& visits_ascending(c0, h)
    &&& forall|i: int|
        0 <= i < CELL_COUNT && (#[trigger] m.0@[i]) is Continue ==> exists|j: int|
            0 <= j <= h && #[trigger] read_cell(c0, j) == i
}

/// The task invariant the enumeration maintains from the root: the node's
/// run discovers it and halts first at the branch.
pub open spec fn wf_task_discovering(t: Task, len: int) -> bool {
    &&& wf_task(t)
    &&& exists|h: int| #[trigger] run_discovers(t.node.0, t.branch, h, len)
}

proof fn lemma_max_visited_monotone(c0: Config, j: int, k: int)
    requires
        j <= k,
    ensures
        max_visited(c0, j) <= max_visited(c0, k),
    decreases k - j,
{
    if j < k {
        lemma_max_visited_monotone(c0, j, k - 1);
    }
}

proof fn lemma_state_le_max(c0: Config, j: int, k: int)
    requires
        j <= k,
    ensures
        run_n(c0, j).state <= max_visited(c0, k),
{
    if j <= 0 {
        assert(run_n(c0, j) == c0);
        lemma_max_visited_monotone(c0, j, k);
    } else {
        assert(run_n(c0, j).state <= max_visited(c0, j));
        lemma_max_visited_monotone(c0, j, k);
    }
}

/// Whether two configurations agree on everything but the table.
pub open spec fn configs_agree(a: Config, b: Config) -> bool {
    a.state == b.state && a.tape == b.tape && a.pos == b.pos
}

/// Two well-formed configurations with equal state, tape, and head, whose
/// tables differ at most at one cell the first run never reads, run in
/// lockstep with the same step results.
proof fn lemma_run_agree(c1: Config, c2: Config, x: int, n: int)
    requires
        0 <= n,
        c1.wf(),
        c2.wf(),
        configs_agree(c1, c2),
        forall|i: int| 0 <= i < CELL_COUNT && i != x ==> c1.table[i] == c2.table[i],
        forall|j: int| 0 <= j < n ==> #[trigger] read_cell(c1, j) != x,
    ensures
        forall|j: int| 0 <= j <= n ==> configs_agree(run_n(c1, j), #[trigger] run_n(c2, j)),
        forall|j: int|
            0 <= j < n ==> step_spec(run_n(c1, j)).0 == step_spec(#[trigger] run_n(c2, j)).0,
    decreases n,
{
    if n > 0 {
        lemma_run_agree(c1, c2, x, n - 1);
        let a = run_n(c1, n - 1);
        let b = run_n(c2, n - 1);
        lemma_run_n_wf(c1, n - 1);
        lemma_run_n_wf(c2, n - 1);
        assert(configs_agree(a, b));
        let idx = read_cell(c1, n - 1);
        assert(idx != x);
        assert(0 <= idx < CELL_COUNT);
        assert(a.table[idx] == b.table[idx]);
        assert(run_n(c1, n) == step_spec(a).1);
        assert(run_n(c2, n) == step_spec(b).1);
        assert(configs_agree(step_spec(a).1, step_spec(b).1) && step_spec(a).0 == step_spec(b).0);
    }
}

/// Agreement transfers the largest visited state.
proof fn lemma_max_visited_agree(c1: Config, c2: Config, n: int)
    requires
        forall|j: int| 0 <= j <= n ==> configs_agree(run_n(c1, j), #[trigger] run_n(c2, j)),
        0 <= n,
    ensures
        max_visited(c1, n) == max_visited(c2, n),
    decreases n,
{
    if n > 0 {
        lemma_max_visited_agree(c1, c2, n - 1);
        assert(configs_agree(run_n(c1, n), run_n(c2, n)));
    } else {
        assert(configs_agree(run_n(c1, 0), run_n(c2, 0)));
        assert(run_n(c1, 0) == c1 && run_n(c2, 0) == c2);
    }
}

proof fn lemma_largest_partial_props(s: Seq<Transition>, i: int)
    requires
        0 <= i,
    ensures
        0 <= spec_largest_partial(s, i) <= i,
        spec_largest_partial(s, i) >= 1 ==> crate::enumerate::row_partially_defined(
            s,
            spec_largest_partial(s, i),
        ),
    decreases i,
{
    if i > 0 && !crate::enumerate::row_partially_defined(s, i) {
        lemma_largest_partial_props(s, i - 1);
    }
}

/// Filling the branch cell of a discovered machine with the `k`-th
/// candidate: the child keeps entering states in ascending order along any
/// prefix of defined transitions, and when the child is decided as halting,
/// its own run discovers it and first halts at the reported cell.
proof fn lemma_child_discovers(
    m: States,
    branch: HaltingTransitionIndex,
    h: int,
    k: int,
    tape_len: int,
)
    requires
        m.wf(),
        branch.is_valid(),
        m.spec_cell(branch.0.0 as int, branch.1.0 as int) is Halt,
        run_discovers(m, branch, h, tape_len),
        0 <= k < child_count(spec_target_end(m.0@, branch.0.0 as int)),
        tape_len >= 1,
    ensures
        ({
            let child = m.spec_set_cell(
                branch.0.0 as int,
                branch.1.0 as int,
                Transition::Continue(child_transition(k)),
            );
            &&& machine_visits_ascending(child, tape_len)
            &&& (spec_decide(child, branch, tape_len) matches Decision::Halt(b2) ==> exists|
                h2: int,
            | #[trigger] run_discovers(child, b2, h2, tape_len))
        }),
{
    let cidx = cell_index(branch.0.0 as int, branch.1.0 as int);
    let t = child_transition(k);
    let child = m.spec_set_cell(branch.0.0 as int, branch.1.0 as int, Transition::Continue(t));
    assert(child.0@ == m.0@.update(cidx, Transition::Continue(t)));
    let c0 = blank_config(m.0@, tape_len);
    let c1 = blank_config(child.0@, tape_len);
    assert(c0.wf());
    assert(child.wf()) by {
        assert(0 <= k / 4 <= spec_target_end(m.0@, branch.0.0 as int) <= 4);
    }
    assert(c1.wf());
    assert(configs_agree(c0, c1));
    // The parent's run never reads the branch cell before step h ...
    assert forall|j: int| 0 <= j < h implies #[trigger] read_cell(c0, j) != cidx by {
        lemma_run_n_wf(c0, j);
        assert(step_spec(run_n(c0, j)).0 is Moved);
        if read_cell(c0, j) == cidx {
            assert(step_spec(run_n(c0, j)).0 is Halt);
        }
    }
    // ... and reads it exactly at step h.
    assert(read_cell(c0, h) == cidx);
    // So both runs agree for the first h steps.
    lemma_run_agree(c0, c1, cidx, h);
    assert forall|j: int| 0 <= j < h implies (#[trigger] step_spec(run_n(c1, j)).0) is Moved by {
        assert(step_spec(run_n(c0, j)).0 == step_spec(run_n(c1, j)).0);
    }
    assert(clean_prefix(c1, h));
    assert forall|j: int| 0 <= j <= h implies #[trigger] read_cell(c1, j) == read_cell(c0, j) by {
        assert(configs_agree(run_n(c0, j), run_n(c1, j)));
    }
    let v = max_visited(c0, h);
    lemma_max_visited_agree(c0, c1, h);
    // The new target is at most one past the largest state the parent's run
    // entered: the largest partially defined row and the branch's row were
    // both entered.
    assert(t.state.0 as int <= v + 1) by {
        let br = branch.0.0 as int;
        let lp = spec_largest_partial(m.0@, 4);
        assert(t.state.0 as int == k / 4);
        assert(k / 4 <= spec_target_end(m.0@, br));
        assert(run_n(c0, h).state == br);
        lemma_state_le_max(c0, h, h);
        assert(br <= v);
        lemma_largest_partial_props(m.0@, 4);
        if lp >= 1 {
            let cell = if m.0@[2 * lp] is Continue {
                2 * lp
            } else {
                2 * lp + 1
            };
            assert(m.0@[cell] is Continue);
            let j2 = choose|j2: int| 0 <= j2 <= h && #[trigger] read_cell(c0, j2) == cell;
            lemma_run_n_wf(c0, j2);
            assert(run_n(c0, j2).state == lp);
            lemma_state_le_max(c0, j2, h);
            assert(lp <= v);
        }
        lemma_state_le_max(c0, 0, h);
        assert(v >= 0);
    }
    // Any clean prefix of the child's run enters states in ascending order.
    assert forall|n: int| 0 <= n && #[trigger] clean_prefix(c1, n) implies visits_ascending(
        c1,
        n,
    ) by {
        assert forall|j: int| 0 <= j < n implies run_n(c1, j + 1).state <= #[trigger] max_visited(
            c1,
            j,
        ) + 1 by {
            lemma_run_n_wf(c1, j);
            assert(run_n(c1, j + 1) == step_spec(run_n(c1, j)).1);
            assert(step_spec(run_n(c1, j)).0 is Moved);
            if j < h {
                assert(configs_agree(run_n(c0, j + 1), run_n(c1, j + 1)));
                lemma_max_visited_agree(c0, c1, j);
                assert(run_n(c0, j + 1).state <= max_visited(c0, j) + 1);
            } else if j == h {
                assert(read_cell(c1, h) == cidx);
                assert(run_n(c1, h).table == child.0@);
                assert(child.0@[cidx] == Transition::Continue(t));
                assert(run_n(c1, h + 1).state == t.state.0 as int);
                assert(max_visited(c1, h) == v);
            } else {
                // The cell read now was already read before step h (or is the
                // branch cell), so its target was entered before.
                let idx = read_cell(c1, j);
                assert(0 <= idx < CELL_COUNT);
                assert(run_n(c1, j).table == child.0@);
                // The step at h executes the filled transition.
                assert(step_spec(run_n(c1, h)).0 is Moved);
                lemma_run_n_wf(c1, h);
                assert(run_n(c1, h + 1) == step_spec(run_n(c1, h)).1);
                assert(read_cell(c1, h) == cidx);
                assert(run_n(c1, h + 1).state == t.state.0 as int);
                if idx == cidx {
                    assert(run_n(c1, j + 1).state == t.state.0 as int);
                    lemma_state_le_max(c1, h + 1, j);
                } else {
                    assert(m.0@[idx] == child.0@[idx]);
                    assert(m.0@[idx] is Continue);
                    let j2 = choose|j2: int| 0 <= j2 <= h && #[trigger] read_cell(c0, j2) == idx;
                    assert(j2 != h);
                    assert(step_spec(run_n(c0, j2)).0 is Moved);
                    lemma_run_n_wf(c0, j2);
                    assert(run_n(c0, j2 + 1) == step_spec(run_n(c0, j2)).1);
                    match m.0@[idx] {
                        Transition::Continue(d) => {
                            assert(run_n(c0, j2 + 1).state == d.state.0 as int);
                            assert(run_n(c1, j + 1).state == d.state.0 as int);
                            assert(configs_agree(run_n(c0, j2 + 1), run_n(c1, j2 + 1)));
                            lemma_state_le_max(c1, j2 + 1, j);
                        },
                        Transition::Halt => {},
                    }
                }
            }
        }
    }
    match spec_decide(child, branch, tape_len) {
        Decision::Halt(b2) => {
            lemma_decide_halt_sound(child, branch, tape_len);
            let h2 = choose|n: int|
                #![trigger run_n(c1, n)]
                {
                    &&& 0 <= n <= LIMIT_STEPS as int
                    &&& clean_prefix(c1, n)
                    &&& run_n(c1, n).wf()
                    &&& is_halting_config(run_n(c1, n))
                    &&& b2 == HaltingTransitionIndex(
                        crate::states::State(run_n(c1, n).state as u8),
                        crate::states::Symbol(run_n(c1, n).tape[run_n(c1, n).pos]),
                    )
                };
            // The child's first halting read is past the parent's: before h
            // every step is a move, and at h the filled cell is executed.
            assert(h2 > h) by {
                lemma_run_n_wf(c1, h2);
                if h2 < h {
                    assert(step_spec(run_n(c1, h2)).0 is Moved);
                    assert(!is_halting_config(run_n(c1, h2)));
                } else if h2 == h {
                    assert(read_cell(c1, h) == cidx);
                    assert(run_n(c1, h).table == child.0@);
                    assert(child.0@[cidx] is Continue);
                    assert(!is_halting_config(run_n(c1, h)));
                }
            }
            assert(run_discovers(child, b2, h2, tape_len)) by {
                lemma_run_n_wf(c1, h2);
                assert(run_n(c1, h2).state == b2.0.0 as int);
                assert(run_n(c1, h2).tape[run_n(c1, h2).pos] == b2.1.0);
                assert(visits_ascending(c1, h2));
                assert forall|i: int|
                    0 <= i < CELL_COUNT && (#[trigger] child.0@[i]) is Continue implies exists|
                    j: int,
                |
                    0 <= j <= h2 && #[trigger] read_cell(c1, j) == i by {
                    if i == cidx {
                        assert(read_cell(c1, h) == cidx);
                        assert(0 <= h <= h2 && read_cell(c1, h) == i);
                    } else {
                        assert(m.0@[i] == child.0@[i]);
                        let j2 = choose|j2: int|
                            0 <= j2 <= h && #[trigger] read_cell(c0, j2) == i;
                        assert(read_cell(c1, j2) == read_cell(c0, j2));
                        assert(0 <= j2 <= h2 && read_cell(c1, j2) == i);
                    }
                }
            }
        },
        _ => (),
    }
}

/// Tree normal form discovers states in order. In every machine emitted by
/// expanding a task whose node's own run discovers it — as the root's does —
/// the run from the blank tape first enters states in ascending order along
/// any prefix of defined transitions; and every task handed back for the
/// global queue keeps that invariant.
pub proof fn lemma_expand_visits_ascending(
    m: States,
    branch: HaltingTransitionIndex,
    k: int,
    tape_len: int,
)
    requires
        wf_task_discovering(Task { node: Node(m), branch }, tape_len),
        0 <= k,
        tape_len >= 1,
    ensures
        forall|j: int|
            #![trigger spec_expand(m, branch, k, tape_len).0[j]]
            0 <= j < spec_expand(m, branch, k, tape_len).0.len() ==> machine_visits_ascending(
                spec_expand(m, branch, k, tape_len).0[j].0,
                tape_len,
            ),
        forall|j: int|
            #![trigger spec_expand(m, branch, k, tape_len).1[j]]
            0 <= j < spec_expand(m, branch, k, tape_len).1.len() ==> wf_task_discovering(
                spec_expand(m, branch, k, tape_len).1[j],
                tape_len,
            ),
    decreases spec_halt_count(m.0@), child_count(spec_target_end(m.0@, branch.0.0 as int)) - k,
{
    let cidx = cell_index(branch.0.0 as int, branch.1.0 as int);
    if k < child_count(spec_target_end(m.0@, branch.0.0 as int)) {
        let t = Transition::Continue(child_transition(k));
        let child = m.spec_set_cell(branch.0.0 as int, branch.1.0 as int, t);
        let d = spec_decide(child, branch, tape_len);
        assert(0 <= k / 4 <= spec_target_end(m.0@, branch.0.0 as int) <= 4);
        assert(child.wf());
        assert(cidx != 0);
        assert(child.0@[0] == start_transition());
        let h = choose|h: int| #[trigger] run_discovers(m, branch, h, tape_len);
        lemma_child_discovers(m, branch, h, k, tape_len);
        lemma_decide_halt(child, branch, tape_len);
        lemma_halt_count_update(m.0@, cidx, t);
        lemma_expand_visits_ascending(m, branch, k + 1, tape_len);
        let hc = spec_halt_count(child.0@);
        let this = seq![(child, d)];
        let rest = spec_expand(m, branch, k + 1, tape_len);
        let e = spec_expand(m, branch, k, tape_len);
        match d {
            Decision::Halt(b2) => {
                if 2 <= hc <= MAX_LOCAL_HALTING_TRANSITIONS as int && hc < spec_halt_count(m.0@) {
                    assert(child.0@[cell_index(b2.0.0 as int, b2.1.0 as int)] is Halt);
                    assert(wf_task_discovering(Task { node: Node(child), branch: b2 }, tape_len));
                    lemma_expand_visits_ascending(child, b2, 0, tape_len);
                    let sub = spec_expand(child, b2, 0, tape_len);
                    assert(e.0 == this + sub.0 + rest.0);
                    assert(e.1 == sub.1 + rest.1);
                    assert forall|j: int| 0 <= j < e.0.len() implies machine_visits_ascending(
                        (#[trigger] e.0[j]).0,
                        tape_len,
                    ) by {
                        if j >= 1 + sub.0.len() {
                            assert(e.0[j] == rest.0[j - 1 - sub.0.len()]);
                        } else if j >= 1 {
                            assert(e.0[j] == sub.0[j - 1]);
                        }
                    }
                    assert forall|j: int| 0 <= j < e.1.len() implies wf_task_discovering(
                        #[trigger] e.1[j],
                        tape_len,
                    ) by {
                        if j >= sub.1.len() {
                            assert(e.1[j] == rest.1[j - sub.1.len()]);
                        } else {
                            assert(e.1[j] == sub.1[j]);
                        }
                    }
                } else if hc > MAX_LOCAL_HALTING_TRANSITIONS as int {
                    assert(child.0@[cell_index(b2.0.0 as int, b2.1.0 as int)] is Halt);
                    assert(wf_task_discovering(Task { node: Node(child), branch: b2 }, tape_len));
                    assert(e.0 == this + rest.0);
                    assert(e.1 == seq![Task { node: Node(child), branch: b2 }] + rest.1);
                    assert forall|j: int| 0 <= j < e.0.len() implies machine_visits_ascending(
                        (#[trigger] e.0[j]).0,
                        tape_len,
                    ) by {
                        if j >= 1 {
                            assert(e.0[j] == rest.0[j - 1]);
                        }
                    }
                    assert forall|j: int| 0 <= j < e.1.len() implies wf_task_discovering(
                        #[trigger] e.1[j],
                        tape_len,
                    ) by {
                        if j >= 1 {
                            assert(e.1[j] == rest.1[j - 1]);
                        }
                    }
                } else {
                    assert(e.0 == this + rest.0);
                    assert(e.1 == rest.1);
                    assert forall|j: int| 0 <= j < e.0.len() implies machine_visits_ascending(
                        (#[trigger] e.0[j]).0,
                        tape_len,
                    ) by {
                        if j >= 1 {
                            assert(e.0[j] == rest.0[j - 1]);
                        }
                    }
                }
            },
            _ => {
                assert(e.0 == this + rest.0);
                assert(e.1 == rest.1);
                assert forall|j: int| 0 <= j < e.0.len() implies machine_visits_ascending(
                    (#[trigger] e.0[j]).0,
                    tape_len,
                ) by {
                    if j >= 1 {
                        assert(e.0[j] == rest.0[j - 1]);
                    }
                }
            },
        }
    }
}

/// The root task's run discovers it: its only defined cell is read at step
/// 0 and the run halts at (B, 0) at step 1.
pub proof fn lemma_root_task_discovers(t: Task, len: int)
    requires
        t.node.0.0@[0] == start_transition(),
        forall|i: int| 1 <= i < CELL_COUNT ==> (#[trigger] t.node.0.0@[i]) is Halt,
        t.branch == HaltingTransitionIndex(crate::states::State(1), crate::states::Symbol(0)),
        2 <= spec_halt_count(t.node.0.0@) <= 9,
        len >= 3,
    ensures
        wf_task_discovering(t, len),
{
    let s = t.node.0.0@;
    let c0 = blank_config(s, len);
    assert(is_node(t.node.0)) by {
        assert(s[1] is Halt);
    }
    assert(c0.tape[c0.pos] == 0);
    assert(read_cell(c0, 0) == 0);
    assert(run_n(c0, 1) == step_spec(c0).1);
    assert(c0.pos + 1 < len) by {
        assert(len / 2 + 1 < len);
    }
    assert(step_spec(c0).0 is Moved);
    let c_1 = run_n(c0, 1);
    assert(c_1.state == 1 && c_1.pos == c0.pos + 1);
    assert(c_1.tape[c_1.pos] == 0);
    assert(is_halting_config(c_1)) by {
        assert(c_1.table[cell_index(1, 0)] == s[2]);
        assert(s[2] is Halt);
    }
    assert(clean_prefix(c0, 1)) by {
        assert forall|j: int| 0 <= j < 1 implies (#[trigger] step_spec(run_n(c0, j)).0)
            is Moved by {
            assert(run_n(c0, j) == c0);
        }
    }
    assert(visits_ascending(c0, 1)) by {
        assert forall|j: int| 0 <= j < 1 implies run_n(c0, j + 1).state <= #[trigger] max_visited(
            c0,
            j,
        ) + 1 by {
            assert(max_visited(c0, 0) == 0);
        }
    }
    assert forall|i: int| 0 <= i < CELL_COUNT && (#[trigger] s[i]) is Continue implies exists|
        j: int,
    | 0 <= j <= 1 && #[trigger] read_cell(c0, j) == i by {
        assert(i == 0);
        assert(0 <= 0 <= 1 && read_cell(c0, 0) == 0);
    }
    assert(run_discovers(t.node.0, t.branch, 1, len));
}

} // verus!
