//! The pure core of the parallel driver: depth-first expansion of one task.
//!
//! A task is an unexpanded subtree, rooted at a node and the undefined cell
//! to fill. Expanding it classifies every child; children that halt with few
//! undefined cells left are expanded recursively, children that halt with
//! many are handed back as new tasks for the global queue. The whole
//! expansion is deterministic and is pinned down by [`spec_expand`].

use vstd::prelude::*;

use crate::enumerate::{
    child_count, child_transition, is_target, lemma_decide_halt, lemma_decide_halt_state_targeted,
    lemma_halt_count_update, decide, is_node, row_partially_defined, spec_decide, spec_halt_count,
    spec_largest_partial, spec_target_end, start_transition, ChildNodes, Decision,
    HaltingTransitionIndex, Node,
};
use crate::format::{lemma_compact_len, spec_compact, write_compact};
use crate::run::Runner;
use crate::states::{cell_index, States, Transition, CELL_COUNT};

verus! {

/// Children that halt with at most this many undefined cells left are
/// expanded within the worker; deeper subtrees go back to the global queue.
pub const MAX_LOCAL_HALTING_TRANSITIONS: u8 = 3;

/// An unexpanded subtree: a node and the undefined cell to fill next.
#[derive(Debug, Clone, Copy, PartialEq, Eq)]
pub struct Task {
    pub node: Node,
    pub branch: HaltingTransitionIndex,
}

/// Invariant of every task: the node is in normal form, the branch names a
/// cell within the machine shape, that cell is undefined, and between 2 and 9
/// cells are undefined (with 1 left the children would have none).
pub open spec fn wf_task(t: Task) -> bool {
    &&& is_node(t.node.0)
    &&& t.branch.is_valid()
    &&& t.node.0.spec_cell(t.branch.0.0 as int, t.branch.1.0 as int) is Halt
    &&& 2 <= spec_halt_count(t.node.0.0@) <= 9
}

/// Results and new global tasks of expanding the children of `m` at `branch`,
/// starting from child index `k`, with `tape_len` the simulation tape length.
///
/// Each child is the machine with the branch cell overwritten by the `k`-th
/// candidate transition, paired with its decision. A child decided as halting
/// on cell `b` is recursed into when it has between 2 and
/// `MAX_LOCAL_HALTING_TRANSITIONS` undefined cells left (filling an undefined
/// cell leaves one fewer, which bounds the recursion), handed back as a new
/// task when it has more, and dropped when it has fewer than 2.
pub open spec fn spec_expand(m: States, branch: HaltingTransitionIndex, k: int, tape_len: int) -> (
    Seq<(States, Decision)>,
    Seq<Task>,
)
    decreases spec_halt_count(m.0@), child_count(spec_target_end(m.0@, branch.0.0 as int)) - k,
{
    if k >= child_count(spec_target_end(m.0@, branch.0.0 as int)) {
        (Seq::empty(), Seq::empty())
    } else {
        let child = m.spec_set_cell(
            branch.0.0 as int,
            branch.1.0 as int,
            Transition::Continue(child_transition(k)),
        );
        let d = spec_decide(child, branch, tape_len);
        let rest = spec_expand(m, branch, k + 1, tape_len);
        let this = seq![(child, d)];
        match d {
            Decision::Halt(b2) => {
                let hc = spec_halt_count(child.0@);
                if 2 <= hc <= MAX_LOCAL_HALTING_TRANSITIONS as int && hc < spec_halt_count(m.0@) {
                    let sub = spec_expand(child, b2, 0, tape_len);
                    (this + sub.0 + rest.0, sub.1 + rest.1)
                } else if hc > MAX_LOCAL_HALTING_TRANSITIONS as int {
                    (this + rest.0, seq![Task { node: Node(child), branch: b2 }] + rest.1)
                } else {
                    (this + rest.0, rest.1)
                }
            },
            _ => (this + rest.0, rest.1),
        }
    }
}

#[verifier::loop_isolation(false)]
fn expand_inner(
    runner: &mut Runner,
    node: Node,
    branch: HaltingTransitionIndex,
    results: &mut Vec<(States, Decision)>,
    pending: &mut Vec<Task>,
)
    requires
        old(runner).inv(),
        wf_task(Task { node, branch }),
    ensures
        final(runner).inv(),
        final(runner)@.tape.len() == old(runner)@.tape.len(),
        final(results)@ == old(results)@ + spec_expand(
            node.0,
            branch,
            0,
            old(runner)@.tape.len() as int,
        ).0,
        final(pending)@ == old(pending)@ + spec_expand(
            node.0,
            branch,
            0,
            old(runner)@.tape.len() as int,
        ).1,
    decreases spec_halt_count(node.0.0@),
{
    let ghost m = node.0;
    let ghost len = old(runner)@.tape.len() as int;
    let ghost cidx = cell_index(branch.0.0 as int, branch.1.0 as int);
    let ghost full = spec_expand(m, branch, 0, len);
    let mut node = node;
    let mut it = ChildNodes::new(&node, branch);
    let mut done = false;
    while !done
        invariant
            done ==> it.spec_pos() == child_count(it.spec_max()),
            runner.inv(),
            runner@.tape.len() == len,
            len >= 1,
            it.inv(),
            it.spec_max() == spec_target_end(m.0@, branch.0.0 as int),
            0 <= it.spec_pos() <= child_count(it.spec_max()),
            branch.is_valid(),
            is_node(m),
            m.0@[cidx] is Halt,
            2 <= spec_halt_count(m.0@) <= 9,
            cidx == cell_index(branch.0.0 as int, branch.1.0 as int),
            node.0.0@.len() == CELL_COUNT,
            forall|i: int| 0 <= i < CELL_COUNT && i != cidx ==> node.0.0@[i] == m.0@[i],
            results@ + spec_expand(m, branch, it.spec_pos(), len).0 == old(results)@ + full.0,
            pending@ + spec_expand(m, branch, it.spec_pos(), len).1 == old(pending)@ + full.1,
            full == spec_expand(m, branch, 0, len),
        decreases child_count(it.spec_max()) - it.spec_pos() + 1 - (if done {
            1int
        } else {
            0int
        }),
    {
        let ghost k = it.spec_pos();
        let t = match it.next() {
            Some(t) => t,
            None => {
                done = true;
                continue ;
            },
        };
        assert(k < child_count(it.spec_max()));
        proof {
            assert(0 <= k / 4 <= spec_target_end(m.0@, branch.0.0 as int) <= 4);
        }
        node.0.set_transition(branch.0, branch.1, Transition::Continue(t));
        let ghost child = m.spec_set_cell(cidx / 2, cidx % 2, Transition::Continue(t));
        proof {
            assert(cidx / 2 == branch.0.0 as int && cidx % 2 == branch.1.0 as int);
            assert(node.0.0 =~= child.0);
            assert(node.0.wf());
        }
        let d = decide(runner, &node.0, branch);
        results.push((node.0, d));
        let ghost at_k = spec_expand(m, branch, k, len);
        let ghost at_k1 = spec_expand(m, branch, k + 1, len);
        proof {
            lemma_decide_halt(child, branch, len);
            lemma_halt_count_update(m.0@, cidx, Transition::Continue(t));
        }
        if let Decision::Halt(b2) = d {
            let hc = node.halting_transition_count();
            proof {
                assert(hc as int == spec_halt_count(m.0@) - 1);
            }
            if hc >= 2 {
                if hc <= MAX_LOCAL_HALTING_TRANSITIONS {
                    proof {
                        assert(child.0@[cell_index(b2.0.0 as int, b2.1.0 as int)] is Halt);
                        assert(cidx != 0);
                        assert(child.0@[0] == start_transition());
                        assert(wf_task(Task { node: Node(child), branch: b2 }));
                    }
                    expand_inner(runner, node, b2, results, pending);
                    proof {
                        let sub = spec_expand(child, b2, 0, len);
                        assert(results@ + at_k1.0 =~= old(results)@ + full.0);
                        assert(pending@ + at_k1.1 =~= old(pending)@ + full.1);
                    }
                } else {
                    pending.push(Task { node, branch: b2 });
                    proof {
                        assert(results@ + at_k1.0 =~= old(results)@ + full.0);
                        assert(pending@ + at_k1.1 =~= old(pending)@ + full.1);
                    }
                }
            } else {
                proof {
                    assert(results@ + at_k1.0 =~= old(results)@ + full.0);
                    assert(pending@ + at_k1.1 =~= old(pending)@ + full.1);
                }
            }
        } else {
            proof {
                assert(results@ + at_k1.0 =~= old(results)@ + full.0);
                assert(pending@ + at_k1.1 =~= old(pending)@ + full.1);
            }
        }
    }
}

/// Every machine emitted by expanding a well-formed task keeps the fixed 1RB
/// transition at cell (0, 0) and mentions only valid states and symbols; and
/// every task handed back for the global queue satisfies the task invariant.
pub proof fn lemma_expand_emits_nodes(
    m: States,
    branch: HaltingTransitionIndex,
    k: int,
    tape_len: int,
)
    requires
        wf_task(Task { node: Node(m), branch }),
        0 <= k,
        tape_len >= 1,
    ensures
        forall|j: int|
            #![trigger spec_expand(m, branch, k, tape_len).0[j]]
            0 <= j < spec_expand(m, branch, k, tape_len).0.len() ==> {
                let mm = spec_expand(m, branch, k, tape_len).0[j].0;
                mm.wf() && mm.0@[0] == start_transition()
            },
        forall|j: int|
            #![trigger spec_expand(m, branch, k, tape_len).1[j]]
            0 <= j < spec_expand(m, branch, k, tape_len).1.len() ==> wf_task(
                spec_expand(m, branch, k, tape_len).1[j],
            ),
    decreases spec_halt_count(m.0@), child_count(spec_target_end(m.0@, branch.0.0 as int)) - k,
{
    let cidx = cell_index(branch.0.0 as int, branch.1.0 as int);
    if k < child_count(spec_target_end(m.0@, branch.0.0 as int)) {
        let t = Transition::Continue(child_transition(k));
        let child = m.spec_set_cell(branch.0.0 as int, branch.1.0 as int, t);
        let d = spec_decide(child, branch, tape_len);
        assert(0 <= k / 4 <= spec_target_end(m.0@, branch.0.0 as int) <= 4);
        assert(child.wf());
        assert(cidx != 0);
        assert(child.0@[0] == start_transition());
        lemma_decide_halt(child, branch, tape_len);
        lemma_halt_count_update(m.0@, cidx, t);
        lemma_expand_emits_nodes(m, branch, k + 1, tape_len);
        let hc = spec_halt_count(child.0@);
        match d {
            Decision::Halt(b2) => {
                if 2 <= hc <= MAX_LOCAL_HALTING_TRANSITIONS as int && hc < spec_halt_count(m.0@) {
                    assert(child.0@[cell_index(b2.0.0 as int, b2.1.0 as int)] is Halt);
                    assert(wf_task(Task { node: Node(child), branch: b2 }));
                    lemma_expand_emits_nodes(child, b2, 0, tape_len);
                } else if hc > MAX_LOCAL_HALTING_TRANSITIONS as int {
                    assert(child.0@[cell_index(b2.0.0 as int, b2.1.0 as int)] is Halt);
                    assert(wf_task(Task { node: Node(child), branch: b2 }));
                }
            },
            _ => (),
        }
    }
}

/// Expand one task: classify each child of the node at the branch cell,
/// append every (machine, decision) pair to `results` in canonical order,
/// recurse into halting children with at most
/// `MAX_LOCAL_HALTING_TRANSITIONS` undefined cells left, and append deeper
/// halting children to `pending` as new tasks. The runner is reused; only
/// its tape length matters.
pub fn expand_task(
    runner: &mut Runner,
    task: &Task,
    results: &mut Vec<(States, Decision)>,
    pending: &mut Vec<Task>,
)
    requires
        old(runner).inv(),
        wf_task(*task),
    ensures
        final(runner).inv(),
        final(runner)@.tape.len() == old(runner)@.tape.len(),
        final(results)@ == old(results)@ + spec_expand(
            task.node.0,
            task.branch,
            0,
            old(runner)@.tape.len() as int,
        ).0,
        final(pending)@ == old(pending)@ + spec_expand(
            task.node.0,
            task.branch,
            0,
            old(runner)@.tape.len() as int,
        ).1,
{
    expand_inner(runner, task.node, task.branch, results, pending)
}

/// The non-initial target states of a table form a gap-free range: whenever
/// a state at index 2 or above is the target of some cell, so is the state
/// just below it.
pub open spec fn targets_contiguous(s: Seq<Transition>) -> bool {
    forall|st: int| 2 <= st < 5 && #[trigger] is_target(s, st) ==> is_target(s, st - 1)
}

/// Every partially defined row other than the initial state's is the target
/// of some cell: a state's row gains entries only after something points at
/// the state.
pub open spec fn rows_anchored(s: Seq<Transition>) -> bool {
    forall|r: int| 1 <= r < 5 && #[trigger] row_partially_defined(s, r) ==> is_target(s, r)
}

/// The invariant the enumeration maintains from the root task on: beyond
/// [`wf_task`], the targets are contiguous, defined rows are anchored, and
/// the branch row's state is the initial state or itself a target.
pub open spec fn wf_task_ordered(t: Task) -> bool {
    &&& wf_task(t)
    &&& targets_contiguous(t.node.0.0@)
    &&& rows_anchored(t.node.0.0@)
    &&& (t.branch.0.0 == 0 || is_target(t.node.0.0@, t.branch.0.0 as int))
}

proof fn lemma_targets_downward(s: Seq<Transition>, hi: int, lo: int)
    requires
        targets_contiguous(s),
        is_target(s, hi),
        1 <= lo <= hi < 5,
    ensures
        is_target(s, lo),
    decreases hi - lo,
{
    if lo < hi {
        assert(is_target(s, hi - 1));
        lemma_targets_downward(s, hi - 1, lo);
    }
}

proof fn lemma_largest_partial_bounds(s: Seq<Transition>, i: int)
    requires
        0 <= i,
    ensures
        0 <= spec_largest_partial(s, i) <= i,
    decreases i,
{
    if i > 0 && !row_partially_defined(s, i) {
        lemma_largest_partial_bounds(s, i - 1);
    }
}

proof fn lemma_largest_partial_anchored(s: Seq<Transition>, i: int)
    requires
        rows_anchored(s),
        0 <= i < 5,
    ensures
        spec_largest_partial(s, i) == 0 || is_target(s, spec_largest_partial(s, i)),
    decreases i,
{
    if i > 0 && !row_partially_defined(s, i) {
        lemma_largest_partial_anchored(s, i - 1);
    }
}

proof fn lemma_targets_after_fill(s: Seq<Transition>, cidx: int, d: crate::states::DefinedTransition)
    requires
        0 <= cidx < CELL_COUNT,
        s.len() == CELL_COUNT,
        s[cidx] is Halt,
    ensures
        forall|st: int|
            #![trigger is_target(s.update(cidx, Transition::Continue(d)), st)]
            is_target(s.update(cidx, Transition::Continue(d)), st) <==> (is_target(s, st) || st
                == d.state.0),
{
    let s2 = s.update(cidx, Transition::Continue(d));
    assert forall|st: int| #[trigger]
        is_target(s2, st) implies (is_target(s, st) || st == d.state.0) by {
        let i = choose|i: int|
            0 <= i < CELL_COUNT && ((#[trigger] s2[i]) matches Transition::Continue(dd)
                && dd.state.0 == st);
        if i != cidx {
            assert(s[i] == s2[i]);
        }
    }
    assert forall|st: int| (is_target(s, st) || st == d.state.0) implies #[trigger] is_target(
        s2,
        st,
    ) by {
        if is_target(s, st) {
            let i = choose|i: int|
                0 <= i < CELL_COUNT && ((#[trigger] s[i]) matches Transition::Continue(dd)
                    && dd.state.0 == st);
            assert(i != cidx);
            assert(s2[i] == s[i]);
        } else {
            assert(s2[cidx] matches Transition::Continue(dd) && dd.state.0 == st);
        }
    }
}

/// Filling the branch of a task from the root's line with the `k`-th
/// candidate preserves contiguity and anchoring, and a halt decision on the
/// child names a row that is the initial state's or a target.
proof fn lemma_child_ordered(m: States, branch: HaltingTransitionIndex, k: int, tape_len: int)
    requires
        wf_task_ordered(Task { node: Node(m), branch }),
        0 <= k < child_count(spec_target_end(m.0@, branch.0.0 as int)),
        tape_len >= 1,
    ensures
        ({
            let child = m.spec_set_cell(
                branch.0.0 as int,
                branch.1.0 as int,
                Transition::Continue(child_transition(k)),
            );
            &&& targets_contiguous(child.0@)
            &&& rows_anchored(child.0@)
            &&& (spec_decide(child, branch, tape_len) matches Decision::Halt(b2) ==> (b2.0.0 == 0
                || is_target(child.0@, b2.0.0 as int)))
        }),
{
    let cidx = cell_index(branch.0.0 as int, branch.1.0 as int);
    let t = child_transition(k);
    let child = m.spec_set_cell(branch.0.0 as int, branch.1.0 as int, Transition::Continue(t));
    assert(child.0@ == m.0@.update(cidx, Transition::Continue(t)));
    lemma_targets_after_fill(m.0@, cidx, t);
    let lp = spec_largest_partial(m.0@, 4);
    let br = branch.0.0 as int;
    let u = if lp >= br {
        lp
    } else {
        br
    };
    lemma_largest_partial_bounds(m.0@, 4);
    lemma_largest_partial_anchored(m.0@, 4);
    let st = t.state.0 as int;
    assert(st == k / 4 && st <= spec_target_end(m.0@, br));
    // Contiguity: the one new target is at most one past an existing anchor.
    assert forall|x: int| 2 <= x < 5 && #[trigger] is_target(child.0@, x) implies is_target(
        child.0@,
        x - 1,
    ) by {
        if is_target(m.0@, x) {
            assert(is_target(m.0@, x - 1));
        } else {
            assert(x == st);
            assert(x <= u + 1);
            assert(u >= 1 && is_target(m.0@, u));
            lemma_targets_downward(m.0@, u, x - 1);
        }
    }
    // Anchoring: the branch row is reachable, other rows were anchored.
    assert forall|r: int| 1 <= r < 5 && #[trigger] row_partially_defined(child.0@, r) implies
        is_target(child.0@, r) by {
        if row_partially_defined(m.0@, r) {
            assert(is_target(m.0@, r));
        } else {
            assert(cidx == 2 * r || cidx == 2 * r + 1);
            assert(r == br);
            assert(is_target(m.0@, r));
        }
    }
    assert(child.wf()) by {
        assert(0 <= k / 4 <= spec_target_end(m.0@, br) <= 4);
    }
    lemma_decide_halt_state_targeted(child, branch, tape_len);
}

/// In every machine emitted by expanding a task from the root's line, the
/// non-initial target states form a gap-free range — a state is used as a
/// target only when every state below it is used too, so the enumeration
/// activates new states in ascending order. Every task handed back for the
/// global queue keeps the same invariant.
pub proof fn lemma_expand_targets_contiguous(
    m: States,
    branch: HaltingTransitionIndex,
    k: int,
    tape_len: int,
)
    requires
        wf_task_ordered(Task { node: Node(m), branch }),
        0 <= k,
        tape_len >= 1,
    ensures
        forall|j: int|
            #![trigger spec_expand(m, branch, k, tape_len).0[j]]
            0 <= j < spec_expand(m, branch, k, tape_len).0.len() ==> targets_contiguous(
                spec_expand(m, branch, k, tape_len).0[j].0.0@,
            ),
        forall|j: int|
            #![trigger spec_expand(m, branch, k, tape_len).1[j]]
            0 <= j < spec_expand(m, branch, k, tape_len).1.len() ==> wf_task_ordered(
                spec_expand(m, branch, k, tape_len).1[j],
            ),
    decreases spec_halt_count(m.0@), child_count(spec_target_end(m.0@, branch.0.0 as int)) - k,
{
    let cidx = cell_index(branch.0.0 as int, branch.1.0 as int);
    if k < child_count(spec_target_end(m.0@, branch.0.0 as int)) {
        let t = Transition::Continue(child_transition(k));
        let child = m.spec_set_cell(branch.0.0 as int, branch.1.0 as int, t);
        let d = spec_decide(child, branch, tape_len);
        assert(0 <= k / 4 <= spec_target_end(m.0@, branch.0.0 as int) <= 4);
        assert(child.wf());
        assert(cidx != 0);
        assert(child.0@[0] == start_transition());
        lemma_child_ordered(m, branch, k, tape_len);
        lemma_decide_halt(child, branch, tape_len);
        lemma_halt_count_update(m.0@, cidx, t);
        lemma_expand_targets_contiguous(m, branch, k + 1, tape_len);
        let hc = spec_halt_count(child.0@);
        let this = seq![(child, d)];
        let rest = spec_expand(m, branch, k + 1, tape_len);
        let e = spec_expand(m, branch, k, tape_len);
        match d {
            Decision::Halt(b2) => {
                if 2 <= hc <= MAX_LOCAL_HALTING_TRANSITIONS as int && hc < spec_halt_count(m.0@) {
                    assert(child.0@[cell_index(b2.0.0 as int, b2.1.0 as int)] is Halt);
                    assert(wf_task_ordered(Task { node: Node(child), branch: b2 }));
                    lemma_expand_targets_contiguous(child, b2, 0, tape_len);
                    let sub = spec_expand(child, b2, 0, tape_len);
                    assert(e.0 == this + sub.0 + rest.0);
                    assert(e.1 == sub.1 + rest.1);
                    assert forall|j: int| 0 <= j < e.0.len() implies targets_contiguous(
                        (#[trigger] e.0[j]).0.0@,
                    ) by {
                        if j >= 1 + sub.0.len() {
                            assert(e.0[j] == rest.0[j - 1 - sub.0.len()]);
                        } else if j >= 1 {
                            assert(e.0[j] == sub.0[j - 1]);
                        }
                    }
                    assert forall|j: int| 0 <= j < e.1.len() implies wf_task_ordered(
                        #[trigger] e.1[j],
                    ) by {
                        if j >= sub.1.len() {
                            assert(e.1[j] == rest.1[j - sub.1.len()]);
                        } else {
                            assert(e.1[j] == sub.1[j]);
                        }
                    }
                } else if hc > MAX_LOCAL_HALTING_TRANSITIONS as int {
                    assert(child.0@[cell_index(b2.0.0 as int, b2.1.0 as int)] is Halt);
                    assert(wf_task_ordered(Task { node: Node(child), branch: b2 }));
                    assert(e.0 == this + rest.0);
                    assert(e.1 == seq![Task { node: Node(child), branch: b2 }] + rest.1);
                    assert forall|j: int| 0 <= j < e.0.len() implies targets_contiguous(
                        (#[trigger] e.0[j]).0.0@,
                    ) by {
                        if j >= 1 {
                            assert(e.0[j] == rest.0[j - 1]);
                        }
                    }
                    assert forall|j: int| 0 <= j < e.1.len() implies wf_task_ordered(
                        #[trigger] e.1[j],
                    ) by {
                        if j >= 1 {
                            assert(e.1[j] == rest.1[j - 1]);
                        }
                    }
                } else {
                    assert(e.0 == this + rest.0);
                    assert(e.1 == rest.1);
                    assert forall|j: int| 0 <= j < e.0.len() implies targets_contiguous(
                        (#[trigger] e.0[j]).0.0@,
                    ) by {
                        if j >= 1 {
                            assert(e.0[j] == rest.0[j - 1]);
                        }
                    }
                }
            },
            _ => {
                assert(e.0 == this + rest.0);
                assert(e.1 == rest.1);
                assert forall|j: int| 0 <= j < e.0.len() implies targets_contiguous(
                    (#[trigger] e.0[j]).0.0@,
                ) by {
                    if j >= 1 {
                        assert(e.0[j] == rest.0[j - 1]);
                    }
                }
            },
        }
    }
}

/// The root task satisfies the invariant [`lemma_expand_targets_contiguous`]
/// carries down the tree: its only target is state B, nothing else is
/// defined, and its branch is state B's row.
pub proof fn lemma_root_task_ordered(t: Task)
    requires
        t.node.0.0@[0] == start_transition(),
        forall|i: int| 1 <= i < CELL_COUNT ==> (#[trigger] t.node.0.0@[i]) is Halt,
        t.branch == HaltingTransitionIndex(crate::states::State(1), crate::states::Symbol(0)),
        2 <= spec_halt_count(t.node.0.0@) <= 9,
    ensures
        wf_task_ordered(t),
{
    let s = t.node.0.0@;
    assert(is_target(s, 1)) by {
        assert(s[0] matches Transition::Continue(d) && d.state.0 == 1);
    }
    assert forall|st: int| 2 <= st < 5 implies !is_target(s, st) by {
        if is_target(s, st) {
            let i = choose|i: int|
                0 <= i < CELL_COUNT && ((#[trigger] s[i]) matches Transition::Continue(dd)
                    && dd.state.0 == st);
            assert(i == 0);
        }
    }
    assert forall|r: int| 1 <= r < 5 implies !row_partially_defined(s, r) by {
        assert(s[2 * r] is Halt && s[2 * r + 1] is Halt);
    }
    assert(is_node(t.node.0)) by {
        assert(s[1] is Halt);
    }
}

/// One line of the append-only log is exactly this many bytes.
pub const LOG_ENTRY_LEN: usize = 37;

/// Running counters, one per classification.
#[derive(Debug, Clone, Copy, PartialEq, Eq, Structural)]
pub struct Stats {
    pub halt: u64,
    pub loop_: u64,
    pub undecided: u64,
    pub irrelevant: u64,
}

impl Stats {
    /// Sum of the four counters: how many machines were recorded.
    pub open spec fn spec_total(self) -> int {
        self.halt + self.loop_ + self.undecided + self.irrelevant
    }

    /// All counters zero.
    pub fn new() -> (r: Stats)
        ensures
            r == (Stats { halt: 0, loop_: 0, undecided: 0, irrelevant: 0 }),
    {
        Stats { halt: 0, loop_: 0, undecided: 0, irrelevant: 0 }
    }

    pub fn total(&self) -> (r: u64)
        requires
            self.spec_total() <= u64::MAX,
        ensures
            r as int == self.spec_total(),
    {
        self.halt + self.loop_ + self.undecided + self.irrelevant
    }

    /// Count one decision: exactly the counter of the decision's class goes
    /// up by one, so the total goes up by one — one count per emitted line.
    pub fn record(&mut self, d: Decision)
        requires
            old(self).spec_total() < u64::MAX,
        ensures
            final(self).spec_total() == old(self).spec_total() + 1,
            d matches Decision::Halt(_) ==> *final(self) == (Stats {
                halt: (old(self).halt + 1) as u64,
                ..*old(self)
            }),
            d == Decision::Loop ==> *final(self) == (Stats {
                loop_: (old(self).loop_ + 1) as u64,
                ..*old(self)
            }),
            d == Decision::Undecided ==> *final(self) == (Stats {
                undecided: (old(self).undecided + 1) as u64,
                ..*old(self)
            }),
            d == Decision::Irrelevant ==> *final(self) == (Stats {
                irrelevant: (old(self).irrelevant + 1) as u64,
                ..*old(self)
            }),
    {
        match d {
            Decision::Halt(_) => {
                self.halt = self.halt + 1;
            },
            Decision::Loop => {
                self.loop_ = self.loop_ + 1;
            },
            Decision::Undecided => {
                self.undecided = self.undecided + 1;
            },
            Decision::Irrelevant => {
                self.irrelevant = self.irrelevant + 1;
            },
        }
    }
}

/// The classification character of a log line.
pub open spec fn spec_class_char(d: Decision) -> u8 {
    match d {
        Decision::Halt(_) => 104u8,  // 'h'
        Decision::Loop => 108u8,  // 'l'
        Decision::Undecided => 117u8,  // 'u'
        Decision::Irrelevant => 105u8,  // 'i'
    }
}

/// One log line: the 34-byte compact form, a space, the classification
/// character, and a newline.
pub open spec fn spec_log_line(m: States, d: Decision) -> Seq<u8> {
    spec_compact(m) + seq![32u8, spec_class_char(d), 10u8]
}

/// Every log line is exactly `LOG_ENTRY_LEN` bytes, so the log's byte length
/// is always the number of emitted lines times `LOG_ENTRY_LEN`.
pub proof fn lemma_log_line_len(m: States, d: Decision)
    ensures
        spec_log_line(m, d).len() == LOG_ENTRY_LEN,
{
    lemma_compact_len(m);
}

/// Render one log line (exactly `LOG_ENTRY_LEN` bytes).
pub fn log_line(m: &States, d: Decision) -> (r: Vec<u8>)
    requires
        m.wf(),
    ensures
        r@ == spec_log_line(*m, d),
        r@.len() == LOG_ENTRY_LEN,
{
    let mut v = write_compact(m);
    v.push(32);
    v.push(
        match d {
            Decision::Halt(_) => 104,
            Decision::Loop => 108,
            Decision::Undecided => 117,
            Decision::Irrelevant => 105,
        },
    );
    v.push(10);
    proof {
        lemma_log_line_len(*m, d);
        assert(v@ =~= spec_log_line(*m, d));
    }
    v
}

/// The startup cross-check between resume data and log: a fresh run has no
/// tasks exactly when nothing was counted, and the log holds exactly one
/// `LOG_ENTRY_LEN`-byte line per counted machine.
pub fn resume_log_consistent(stats: &Stats, task_count: usize, log_len: u64) -> (r: bool)
    ensures
        r == (((stats.spec_total() == 0) <==> (task_count == 0)) && log_len as int
            == stats.spec_total() * LOG_ENTRY_LEN),
{
    let total = stats.halt as u128 + stats.loop_ as u128 + stats.undecided as u128
        + stats.irrelevant as u128;
    let fresh_stats = total == 0;
    let fresh_tasks = task_count == 0;
    (fresh_stats == fresh_tasks) && (log_len as u128 == total * 37)
}

} // verus!
