use busy_beaver::driver::{expand_task, log_line, Stats, Task, LOG_ENTRY_LEN};
use busy_beaver::enumerate::{
    create_runner, Decision, HaltingTransitionIndex, Node,
};
use busy_beaver::format::{read_compact, write_compact};
use busy_beaver::resume::{decode_resume, encode_resume};
use busy_beaver::run::Runner;
use busy_beaver::states::{Direction, States, Symbol, Transition};

const BB5_CHAMPION_COMPACT: &[u8] = b"1RB1LC_1RC1RB_1RD0LE_1LA1LD_---0LA";

fn root_task() -> Task {
    Task { node: Node::root(), branch: HaltingTransitionIndex::root() }
}

/// Every counted decision raises exactly its own counter, and the total is
/// the sum of the four counters.
#[test]
fn stats_record_totals() {
    let mut stats = Stats::new();
    assert_eq!(stats.total(), 0);
    stats.record(Decision::Halt(HaltingTransitionIndex::root()));
    stats.record(Decision::Loop);
    stats.record(Decision::Loop);
    stats.record(Decision::Undecided);
    stats.record(Decision::Irrelevant);
    assert_eq!(stats.halt, 1);
    assert_eq!(stats.loop_, 2);
    assert_eq!(stats.undecided, 1);
    assert_eq!(stats.irrelevant, 1);
    assert_eq!(stats.total(), 5);
    assert_eq!(stats.total(), stats.halt + stats.loop_ + stats.undecided + stats.irrelevant);
}

/// A log line is exactly `LOG_ENTRY_LEN` bytes: the compact machine, a
/// space, the classification character, and a newline. The champion's line
/// has the published shape.
#[test]
fn log_line_format() {
    let champion = read_compact(BB5_CHAMPION_COMPACT).unwrap();
    let line = log_line(&champion, Decision::Halt(HaltingTransitionIndex::root()));
    assert_eq!(line.len(), LOG_ENTRY_LEN);
    assert_eq!(line.as_slice(), b"1RB1LC_1RC1RB_1RD0LE_1LA1LD_---0LA h".iter().chain(b"\n").copied().collect::<Vec<u8>>().as_slice());
    let line = log_line(&champion, Decision::Loop);
    assert_eq!(line[35], b'l');
    let line = log_line(&champion, Decision::Undecided);
    assert_eq!(line[35], b'u');
    let line = log_line(&champion, Decision::Irrelevant);
    assert_eq!(line[35], b'i');
}

/// Expanding the root yields exactly one result per candidate transition,
/// in canonical order, and hands every halting child back as a new task
/// (their subtrees are too deep to expand locally).
#[test]
fn expand_root_results() {
    let mut runner = create_runner();
    let mut results: Vec<(States, Decision)> = Vec::new();
    let mut pending: Vec<Task> = Vec::new();
    expand_task(&mut runner, &root_task(), &mut results, &mut pending);
    assert_eq!(results.len(), 12);
    let halting = results
        .iter()
        .filter(|r| matches!(r.1, Decision::Halt(_)))
        .count();
    assert_eq!(pending.len(), halting);
    // Every emitted machine keeps the fixed first transition 1RB.
    for (m, _) in &results {
        match m.0[0] {
            Transition::Continue(d) => {
                assert_eq!(d.write, Symbol::new(1).unwrap());
                assert_eq!(d.move_, Direction::Right);
                assert_eq!(d.state.get(), 1);
            }
            Transition::Halt => panic!("emitted machine lost its first transition"),
        }
    }
}

/// A deterministic single-threaded driver loop: pop tasks in first-in
/// first-out order and expand them, up to `max_tasks` expansions.
fn run_driver(
    runner: &mut Runner,
    queue: &mut Vec<Task>,
    results: &mut Vec<(States, Decision)>,
    max_tasks: usize,
) {
    let mut popped: usize = 0;
    let mut head: usize = 0;
    while head < queue.len() && popped < max_tasks {
        let task = queue[head];
        head += 1;
        popped += 1;
        let mut pending: Vec<Task> = Vec::new();
        expand_task(runner, &task, results, &mut pending);
        queue.extend(pending);
    }
    queue.drain(..head);
}

fn undecided_set(results: &[(States, Decision)]) -> Vec<Vec<u8>> {
    let mut set: Vec<Vec<u8>> = results
        .iter()
        .filter(|r| r.1 == Decision::Undecided)
        .map(|r| write_compact(&r.0))
        .collect();
    set.sort();
    set
}

/// A shutdown-and-resume cycle reproduces the uninterrupted run: the resume
/// file restores the counters and the remaining tasks exactly, and the
/// final set of machines (and of undecided machines) is identical.
#[test]
fn shutdown_resume_cycle() {
    let total_tasks = 40;
    let interrupt_after = 7;

    // Uninterrupted run.
    let mut runner = create_runner();
    let mut queue = vec![root_task()];
    let mut results: Vec<(States, Decision)> = Vec::new();
    run_driver(&mut runner, &mut queue, &mut results, total_tasks);

    // Interrupted run: stop early, persist, decode, and continue.
    let mut runner2 = create_runner();
    let mut queue2 = vec![root_task()];
    let mut results2: Vec<(States, Decision)> = Vec::new();
    run_driver(&mut runner2, &mut queue2, &mut results2, interrupt_after);

    let mut stats = Stats::new();
    for r in &results2 {
        stats.record(r.1);
    }
    let bytes = encode_resume(&stats, &queue2);
    let (restored_stats, mut restored_queue) = decode_resume(&bytes).unwrap();
    assert_eq!(restored_stats, stats);
    assert_eq!(restored_queue, queue2);

    run_driver(
        &mut runner2,
        &mut restored_queue,
        &mut results2,
        total_tasks - interrupt_after,
    );

    assert_eq!(results.len(), results2.len());
    let lines: Vec<Vec<u8>> = results.iter().map(|r| write_compact(&r.0)).collect();
    let lines2: Vec<Vec<u8>> = results2.iter().map(|r| write_compact(&r.0)).collect();
    assert_eq!(lines, lines2);
    assert_eq!(undecided_set(&results), undecided_set(&results2));
}

/// The resume codec rejects damaged input and accepts only exact encodings.
#[test]
fn resume_codec_validation() {
    let mut stats = Stats::new();
    stats.record(Decision::Loop);
    let tasks = vec![root_task()];
    let bytes = encode_resume(&stats, &tasks);
    assert_eq!(bytes.len(), 40 + 32);
    let (s, t) = decode_resume(&bytes).unwrap();
    assert_eq!(s, stats);
    assert_eq!(t, tasks);

    // Truncated input, trailing bytes, and invalid cells are rejected.
    assert!(decode_resume(&bytes[..bytes.len() - 1]).is_none());
    let mut longer = bytes.clone();
    longer.push(0);
    assert!(decode_resume(&longer).is_none());
    let mut corrupt = bytes.clone();
    corrupt[40] = 9; // write symbol of the first cell
    assert!(decode_resume(&corrupt).is_none());
    let mut corrupt = bytes.clone();
    corrupt[70] = 7; // branch state byte out of range
    assert!(decode_resume(&corrupt).is_none());
    assert!(decode_resume(&[]).is_none());
}

/// An empty task list round-trips too: the fresh-run resume file.
#[test]
fn resume_empty_round_trip() {
    let stats = Stats::new();
    let tasks: Vec<Task> = Vec::new();
    let bytes = encode_resume(&stats, &tasks);
    assert_eq!(bytes.len(), 40);
    let (s, t) = decode_resume(&bytes).unwrap();
    assert_eq!(s, stats);
    assert!(t.is_empty());
}

/// On every machine emitted by an early, breadth-first slice of the
/// enumeration, the non-initial target states form a gap-free range: a
/// state is targeted somewhere in the table only when every state below it
/// is targeted too.
#[test]
fn emitted_machines_targets_contiguous() {
    let mut runner = create_runner();
    let mut queue = vec![root_task()];
    let mut results: Vec<(States, Decision)> = Vec::new();
    run_driver(&mut runner, &mut queue, &mut results, 60);
    for (m, _) in &results {
        let mut targeted = [false; 5];
        for i in 0..10usize {
            if let Transition::Continue(d) = m.0[i] {
                targeted[d.state.get() as usize] = true;
            }
        }
        for st in 2..5usize {
            assert!(
                !targeted[st] || targeted[st - 1],
                "machine {}: a gap below state {}",
                String::from_utf8(write_compact(m)).unwrap(),
                st
            );
        }
    }
}

/// On every machine emitted by an early, breadth-first slice of the
/// enumeration, the non-initial states are first visited in ascending order
/// when the machine is run from the blank tape: each newly entered state is
/// one past the largest state entered before it. (Read off the table in
/// (state, symbol) order instead, the first occurrences of target states
/// need not ascend: `1RB0RD_1RC---_0LA---_------_------` is emitted, and
/// there D appears at cell (A, 1) before C's first mention at (B, 0).)
#[test]
fn emitted_machines_states_first_visited_in_order() {
    let mut runner = create_runner();
    let mut queue = vec![root_task()];
    let mut results: Vec<(States, Decision)> = Vec::new();
    run_driver(&mut runner, &mut queue, &mut results, 60);
    assert!(results.len() > 200);
    for (m, _) in &results {
        let mut largest_seen: u8 = 0;
        runner.set_states(m);
        runner.reset();
        for _ in 0..300 {
            match runner.step() {
                busy_beaver::run::StepResult::Moved => {}
                _ => break,
            }
            let s = runner.state().get();
            assert!(
                s <= largest_seen + 1,
                "machine {}: state {} entered before state {}",
                String::from_utf8(write_compact(m)).unwrap(),
                s,
                s - 1
            );
            if s > largest_seen {
                largest_seen = s;
            }
        }
    }
}
