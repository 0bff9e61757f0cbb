//! Binary codec for the resume file.
//!
//! The resume file persists the counters and the remaining tasks across a
//! shutdown. The layout is self-delimiting and round-trips exactly: four
//! 8-byte little-endian counters (halt, loop, undecided, irrelevant), an
//! 8-byte little-endian task count, then 32 bytes per task — the 30-byte
//! seed-database form of the node followed by the branch's state and symbol
//! bytes. No trailing bytes are accepted.

use vstd::prelude::*;

use crate::driver::{Stats, Task};
use crate::enumerate::{HaltingTransitionIndex, Node};
use crate::format::{
    lemma_seed_bytes_len, lemma_seed_round_trip, push_seed_transition, read_seed_database,
    spec_parse_seed_cells, spec_seed_bytes,
};
use crate::states::{State, States, Symbol, Transition, STATE_COUNT, SYMBOL_COUNT};
use vstd::bytes::{
    lemma_auto_spec_u64_to_from_le_bytes, spec_u64_from_le_bytes, spec_u64_to_le_bytes,
    u64_from_le_bytes, u64_to_le_bytes,
};
use vstd::slice::slice_subrange;

verus! {

/// Bytes of the resume header: the four counters and the task count.
pub const RESUME_HEADER_LEN: usize = 40;

/// Bytes per task in the resume file.
pub const RESUME_TASK_LEN: usize = 32;

/// What one task looks like in the resume file, as plain values: the node's
/// table and the branch's two indices.
pub ghost struct TaskImage {
    pub table: Seq<Transition>,
    pub state: u8,
    pub symbol: u8,
}

/// The image a task writes to the resume file.
pub open spec fn spec_task_image(t: Task) -> TaskImage {
    TaskImage { table: t.node.0.0@, state: t.branch.0.0, symbol: t.branch.1.0 }
}

/// The 32 bytes of one task.
pub open spec fn spec_task_bytes(t: Task) -> Seq<u8> {
    spec_seed_bytes(t.node.0) + seq![t.branch.0.0, t.branch.1.0]
}

/// The bytes of the tasks from index `i` on.
pub open spec fn spec_tasks_bytes(ts: Seq<Task>, i: int) -> Seq<u8>
    decreases ts.len() - i,
{
    if i < 0 || i >= ts.len() {
        Seq::empty()
    } else {
        spec_task_bytes(ts[i]) + spec_tasks_bytes(ts, i + 1)
    }
}

/// The whole resume file for the given counters and tasks.
pub open spec fn spec_resume_bytes(stats: Stats, ts: Seq<Task>) -> Seq<u8> {
    spec_u64_to_le_bytes(stats.halt) + spec_u64_to_le_bytes(stats.loop_) + spec_u64_to_le_bytes(
        stats.undecided,
    ) + spec_u64_to_le_bytes(stats.irrelevant) + spec_u64_to_le_bytes(ts.len() as u64)
        + spec_tasks_bytes(ts, 0)
}

/// Parse `n` task images starting at byte `off`; the input must end exactly
/// after them.
pub open spec fn spec_parse_tasks(b: Seq<u8>, off: int, n: int) -> Option<Seq<TaskImage>>
    decreases n,
{
    if n <= 0 {
        if off == b.len() {
            Some(Seq::empty())
        } else {
            None
        }
    } else if off + RESUME_TASK_LEN as int > b.len() {
        None
    } else {
        match spec_parse_seed_cells(b.subrange(off, off + 30), 0) {
            Err(_) => None,
            Ok(cells) => {
                let st = b[off + 30];
                let sy = b[off + 31];
                if st < STATE_COUNT && sy < SYMBOL_COUNT {
                    match spec_parse_tasks(b, off + RESUME_TASK_LEN as int, n - 1) {
                        None => None,
                        Some(rest) => Some(
                            seq![TaskImage { table: cells, state: st, symbol: sy }] + rest,
                        ),
                    }
                } else {
                    None
                }
            },
        }
    }
}

/// What [`decode_resume`] accepts and returns, as plain values.
pub open spec fn spec_parse_resume(b: Seq<u8>) -> Option<(Stats, Seq<TaskImage>)> {
    if b.len() < RESUME_HEADER_LEN as int {
        None
    } else {
        let stats = Stats {
            halt: spec_u64_from_le_bytes(b.subrange(0, 8)),
            loop_: spec_u64_from_le_bytes(b.subrange(8, 16)),
            undecided: spec_u64_from_le_bytes(b.subrange(16, 24)),
            irrelevant: spec_u64_from_le_bytes(b.subrange(24, 32)),
        };
        let n = spec_u64_from_le_bytes(b.subrange(32, 40));
        match spec_parse_tasks(b, RESUME_HEADER_LEN as int, n as int) {
            None => None,
            Some(ts) => Some((stats, ts)),
        }
    }
}

fn append_bytes(dst: &mut Vec<u8>, src: &Vec<u8>)
    ensures
        final(dst)@ == old(dst)@ + src@,
{
    let mut i: usize = 0;
    while i < src.len()
        invariant
            i <= src@.len(),
            dst@ == old(dst)@ + src@.subrange(0, i as int),
        decreases src@.len() - i,
    {
        dst.push(src[i]);
        proof {
            assert(old(dst)@ + src@.subrange(0, i as int) + seq![src@[i as int]] =~= old(dst)@
                + src@.subrange(0, i as int + 1));
        }
        i += 1;
    }
    proof {
        assert(src@.subrange(0, src@.len() as int) =~= src@);
    }
}

/// Append the 32-byte image of one task.
fn push_task(v: &mut Vec<u8>, t: &Task)
    requires
        t.node.0.wf(),
    ensures
        final(v)@ == old(v)@ + spec_task_bytes(*t),
{
    let mut i: usize = 0;
    while i < 10
        invariant
            i <= 10,
            t.node.0.wf(),
            v@ == old(v)@ + spec_seed_prefix_local(t.node.0, i as int),
        decreases 10 - i,
    {
        push_seed_transition(v, t.node.0.0[i]);
        proof {
            assert(old(v)@ + spec_seed_prefix_local(t.node.0, i as int) + crate::format::spec_seed_transition(
                t.node.0.0@[i as int],
            ) =~= old(v)@ + spec_seed_prefix_local(t.node.0, i as int + 1));
        }
        i += 1;
    }
    v.push(t.branch.0.0);
    v.push(t.branch.1.0);
    proof {
        reveal_with_fuel(spec_seed_prefix_local, 11);
        assert(spec_seed_prefix_local(t.node.0, 10) =~= spec_seed_bytes(t.node.0));
        assert(v@ =~= old(v)@ + spec_task_bytes(*t));
    }
}

/// The seed-database form of the first `i` cells.
spec fn spec_seed_prefix_local(m: States, i: int) -> Seq<u8>
    decreases i,
{
    if i <= 0 {
        Seq::empty()
    } else {
        spec_seed_prefix_local(m, i - 1) + crate::format::spec_seed_transition(m.0@[i - 1])
    }
}

/// Serialize the counters and the remaining tasks for the resume file.
pub fn encode_resume(stats: &Stats, tasks: &Vec<Task>) -> (r: Vec<u8>)
    requires
        forall|j: int|
            0 <= j < tasks@.len() ==> (#[trigger] tasks@[j]).node.0.wf() && tasks@[j].branch.is_valid(),
        tasks@.len() <= u64::MAX,
    ensures
        r@ == spec_resume_bytes(*stats, tasks@),
{
    let mut v: Vec<u8> = Vec::new();
    let mut h = u64_to_le_bytes(stats.halt);
    append_bytes(&mut v, &h);
    let l = u64_to_le_bytes(stats.loop_);
    append_bytes(&mut v, &l);
    let u = u64_to_le_bytes(stats.undecided);
    append_bytes(&mut v, &u);
    let ir = u64_to_le_bytes(stats.irrelevant);
    append_bytes(&mut v, &ir);
    let n = u64_to_le_bytes(tasks.len() as u64);
    append_bytes(&mut v, &n);
    let ghost header = v@;
    let mut i: usize = 0;
    while i < tasks.len()
        invariant
            i <= tasks@.len(),
            forall|j: int|
                0 <= j < tasks@.len() ==> (#[trigger] tasks@[j]).node.0.wf()
                    && tasks@[j].branch.is_valid(),
            v@ + spec_tasks_bytes(tasks@, i as int) == header + spec_tasks_bytes(tasks@, 0),
            spec_resume_bytes(*stats, tasks@) == header + spec_tasks_bytes(tasks@, 0),
        decreases tasks@.len() - i,
    {
        push_task(&mut v, &tasks[i]);
        proof {
            assert(v@ + spec_tasks_bytes(tasks@, i as int + 1) =~= header + spec_tasks_bytes(
                tasks@,
                0,
            ));
        }
        i += 1;
    }
    proof {
        assert(v@ =~= spec_resume_bytes(*stats, tasks@));
    }
    v
}

/// Whether the task at index `j` of the resume file parses to `img`.
spec fn task_parses(b: Seq<u8>, j: int, img: TaskImage) -> bool {
    let off = RESUME_HEADER_LEN as int + RESUME_TASK_LEN as int * j;
    &&& off + RESUME_TASK_LEN as int <= b.len()
    &&& spec_parse_seed_cells(b.subrange(off, off + 30), 0) == Ok::<
        Seq<Transition>,
        crate::format::FormatError,
    >(img.table)
    &&& b[off + 30] == img.state
    &&& img.state < STATE_COUNT
    &&& b[off + 31] == img.symbol
    &&& img.symbol < SYMBOL_COUNT
}

/// Whether parsing the task at index `i` fails.
spec fn task_parse_fails(b: Seq<u8>, i: int) -> bool {
    let off = RESUME_HEADER_LEN as int + RESUME_TASK_LEN as int * i;
    ||| off + RESUME_TASK_LEN as int > b.len()
    ||| spec_parse_seed_cells(b.subrange(off, off + 30), 0) is Err
    ||| !(b[off + 30] < STATE_COUNT && b[off + 31] < SYMBOL_COUNT)
}

proof fn lemma_parse_tasks_ok(b: Seq<u8>, c: Seq<TaskImage>, k: int, n: int)
    requires
        0 <= k <= n,
        c.len() == n,
        forall|j: int| k <= j < n ==> task_parses(b, j, #[trigger] c[j]),
        RESUME_HEADER_LEN as int + RESUME_TASK_LEN as int * n == b.len(),
    ensures
        spec_parse_tasks(b, RESUME_HEADER_LEN as int + RESUME_TASK_LEN as int * k, n - k) == Some(
            c.subrange(k, n),
        ),
    decreases n - k,
{
    if k == n {
        assert(c.subrange(k, n) =~= Seq::<TaskImage>::empty());
    } else {
        lemma_parse_tasks_ok(b, c, k + 1, n);
        assert(seq![c[k]] + c.subrange(k + 1, n) =~= c.subrange(k, n));
    }
}

proof fn lemma_parse_tasks_none(b: Seq<u8>, c: Seq<TaskImage>, k: int, i: int, n: int)
    requires
        0 <= k <= i <= n,
        forall|j: int| k <= j < i ==> task_parses(b, j, #[trigger] c[j]),
        i < n ==> task_parse_fails(b, i),
        i == n ==> RESUME_HEADER_LEN as int + RESUME_TASK_LEN as int * n != b.len(),
    ensures
        spec_parse_tasks(b, RESUME_HEADER_LEN as int + RESUME_TASK_LEN as int * k, n - k)
            is None,
    decreases i - k,
{
    if k < i {
        lemma_parse_tasks_none(b, c, k + 1, i, n);
    }
}

/// Parse a resume file, as written by [`encode_resume`]. Every byte is
/// validated: each node must be a valid seed-database machine and each
/// branch a valid cell, and no trailing bytes are accepted. The decisions
/// recorded in the counters are taken as they are.
pub fn decode_resume(b: &[u8]) -> (r: Option<(Stats, Vec<Task>)>)
    ensures
        match spec_parse_resume(b@) {
            None => r is None,
            Some(p) => {
                &&& r matches Some(q)
                &&& q.0 == p.0
                &&& q.1@.len() == p.1.len()
                &&& forall|j: int|
                    0 <= j < p.1.len() ==> spec_task_image(#[trigger] q.1@[j]) == p.1[j]
                &&& forall|j: int|
                    0 <= j < p.1.len() ==> (#[trigger] q.1@[j]).node.0.wf()
                        && q.1@[j].branch.is_valid()
            },
        },
{
    if b.len() < RESUME_HEADER_LEN {
        return None;
    }
    let halt = u64_from_le_bytes(slice_subrange(b, 0, 8));
    let loop_ = u64_from_le_bytes(slice_subrange(b, 8, 16));
    let undecided = u64_from_le_bytes(slice_subrange(b, 16, 24));
    let irrelevant = u64_from_le_bytes(slice_subrange(b, 24, 32));
    let n = u64_from_le_bytes(slice_subrange(b, 32, 40));
    let stats = Stats { halt, loop_, undecided, irrelevant };
    let mut tasks: Vec<Task> = Vec::new();
    let mut i: u64 = 0;
    while i < n
        invariant
            b@.len() >= RESUME_HEADER_LEN as int,
            i <= n,
            tasks@.len() == i,
            n == spec_u64_from_le_bytes(b@.subrange(32, 40)),
            stats == (Stats {
                halt: spec_u64_from_le_bytes(b@.subrange(0, 8)),
                loop_: spec_u64_from_le_bytes(b@.subrange(8, 16)),
                undecided: spec_u64_from_le_bytes(b@.subrange(16, 24)),
                irrelevant: spec_u64_from_le_bytes(b@.subrange(24, 32)),
            }),
            forall|j: int|
                0 <= j < i ==> task_parses(b@, j, spec_task_image(#[trigger] tasks@[j])),
            forall|j: int|
                0 <= j < i ==> (#[trigger] tasks@[j]).node.0.wf() && tasks@[j].branch.is_valid(),
        decreases n - i,
    {
        let off128: u128 = RESUME_HEADER_LEN as u128 + RESUME_TASK_LEN as u128 * i as u128;
        if off128 + RESUME_TASK_LEN as u128 > b.len() as u128 {
            proof {
                lemma_parse_tasks_none(
                    b@,
                    tasks@.map_values(|t: Task| spec_task_image(t)),
                    0,
                    i as int,
                    n as int,
                );
            }
            return None;
        }
        let off = off128 as usize;
        let m = match read_seed_database(slice_subrange(b, off, off + 30)) {
            Ok(m) => m,
            Err(_) => {
                proof {
                    lemma_parse_tasks_none(
                        b@,
                        tasks@.map_values(|t: Task| spec_task_image(t)),
                        0,
                        i as int,
                        n as int,
                    );
                }
                return None;
            },
        };
        let st = b[off + 30];
        let sy = b[off + 31];
        if !(st < STATE_COUNT && sy < SYMBOL_COUNT) {
            proof {
                lemma_parse_tasks_none(
                    b@,
                    tasks@.map_values(|t: Task| spec_task_image(t)),
                    0,
                    i as int,
                    n as int,
                );
            }
            return None;
        }
        tasks.push(
            Task { node: Node(m), branch: HaltingTransitionIndex(State(st), Symbol(sy)) },
        );
        i += 1;
    }
    let total128: u128 = RESUME_HEADER_LEN as u128 + RESUME_TASK_LEN as u128 * n as u128;
    if total128 != b.len() as u128 {
        proof {
            lemma_parse_tasks_none(
                b@,
                tasks@.map_values(|t: Task| spec_task_image(t)),
                0,
                n as int,
                n as int,
            );
        }
        return None;
    }
    proof {
        let c = tasks@.map_values(|t: Task| spec_task_image(t));
        lemma_parse_tasks_ok(b@, c, 0, n as int);
        assert(c.subrange(0, n as int) =~= c);
    }
    Some((stats, tasks))
}

/// Decoding what [`encode_resume`] wrote restores the counters and the task
/// images exactly: the resume file round-trips.
pub proof fn lemma_resume_round_trip(stats: Stats, ts: Seq<Task>)
    requires
        forall|j: int|
            0 <= j < ts.len() ==> (#[trigger] ts[j]).node.0.wf() && ts[j].branch.is_valid(),
        ts.len() <= u64::MAX,
    ensures
        spec_parse_resume(spec_resume_bytes(stats, ts)) == Some(
            (stats, ts.map_values(|t: Task| spec_task_image(t))),
        ),
{
    let b = spec_resume_bytes(stats, ts);
    lemma_auto_spec_u64_to_from_le_bytes();
    assert forall|j: int| 0 <= j <= ts.len() implies spec_tasks_bytes(ts, j).len() == 32 * (
    ts.len() - j) by {
        lemma_tasks_bytes_len(ts, j);
    }
    assert(b.len() == 40 + 32 * ts.len());
    assert(b.subrange(0, 8) =~= spec_u64_to_le_bytes(stats.halt));
    assert(b.subrange(8, 16) =~= spec_u64_to_le_bytes(stats.loop_));
    assert(b.subrange(16, 24) =~= spec_u64_to_le_bytes(stats.undecided));
    assert(b.subrange(24, 32) =~= spec_u64_to_le_bytes(stats.irrelevant));
    assert(b.subrange(32, 40) =~= spec_u64_to_le_bytes(ts.len() as u64));
    let c = ts.map_values(|t: Task| spec_task_image(t));
    assert forall|j: int| 0 <= j < ts.len() implies task_parses(b, j, #[trigger] c[j]) by {
        lemma_task_bytes_at(stats, ts, j);
        lemma_seed_round_trip(ts[j].node.0);
        lemma_seed_bytes_len(ts[j].node.0);
        let off = RESUME_HEADER_LEN as int + RESUME_TASK_LEN as int * j;
        assert(c[j] == spec_task_image(ts[j]));
        assert(b.subrange(off, off + 32) =~= spec_task_bytes(ts[j]));
        assert forall|x: int| 0 <= x < 32 implies b[off + x] == spec_task_bytes(ts[j])[x] by {
            assert(b.subrange(off, off + 32)[x] == b[off + x]);
        }
        assert(b.subrange(off, off + 30) =~= spec_seed_bytes(ts[j].node.0));
        assert(spec_parse_seed_cells(b.subrange(off, off + 30), 0) == Ok::<
            Seq<Transition>,
            crate::format::FormatError,
        >(ts[j].node.0.0@));
        assert(spec_task_bytes(ts[j])[30] == ts[j].branch.0.0);
        assert(spec_task_bytes(ts[j])[31] == ts[j].branch.1.0);
        assert(b[off + 30] == spec_task_bytes(ts[j])[30]);
        assert(b[off + 31] == spec_task_bytes(ts[j])[31]);
    }
    lemma_parse_tasks_ok(b, c, 0, ts.len() as int);
    assert(c.subrange(0, ts.len() as int) =~= c);
}

proof fn lemma_tasks_bytes_len(ts: Seq<Task>, i: int)
    requires
        0 <= i <= ts.len(),
    ensures
        spec_tasks_bytes(ts, i).len() == RESUME_TASK_LEN as int * (ts.len() - i),
    decreases ts.len() - i,
{
    if i < ts.len() {
        lemma_seed_bytes_len(ts[i].node.0);
        lemma_tasks_bytes_len(ts, i + 1);
    }
}

/// The bytes of task `j` sit at offset `40 + 32 * j` of the resume file.
proof fn lemma_task_bytes_at(stats: Stats, ts: Seq<Task>, j: int)
    requires
        0 <= j < ts.len(),
    ensures
        spec_resume_bytes(stats, ts).subrange(
            RESUME_HEADER_LEN as int + RESUME_TASK_LEN as int * j,
            RESUME_HEADER_LEN as int + RESUME_TASK_LEN as int * j + RESUME_TASK_LEN as int,
        ) =~= spec_task_bytes(ts[j]),
        spec_resume_bytes(stats, ts).len() == RESUME_HEADER_LEN as int + RESUME_TASK_LEN as int
            * ts.len(),
{
    lemma_auto_spec_u64_to_from_le_bytes();
    assert forall|x: u64| (#[trigger] spec_u64_to_le_bytes(x)).len() == 8 by {}
    assert forall|i: int| 0 <= i <= ts.len() implies spec_tasks_bytes(ts, i).len() == 32 * (
    ts.len() - i) by {
        lemma_tasks_bytes_len(ts, i);
    }
    lemma_tasks_bytes_at(ts, 0, j);
    lemma_seed_bytes_len(ts[j].node.0);
}

proof fn lemma_tasks_bytes_at(ts: Seq<Task>, i: int, j: int)
    requires
        0 <= i <= j < ts.len(),
    ensures
        spec_tasks_bytes(ts, i).subrange(
            RESUME_TASK_LEN as int * (j - i),
            RESUME_TASK_LEN as int * (j - i) + RESUME_TASK_LEN as int,
        ) =~= spec_task_bytes(ts[j]),
    decreases j - i,
{
    lemma_seed_bytes_len(ts[i].node.0);
    assert forall|x: int| i <= x <= ts.len() implies spec_tasks_bytes(ts, x).len() == 32 * (
    ts.len() - x) by {
        lemma_tasks_bytes_len(ts, x);
    }
    if i < j {
        lemma_tasks_bytes_at(ts, i + 1, j);
    }
}

} // verus!
