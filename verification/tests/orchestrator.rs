use nuke::cli::Cli;
use nuke::collections::SlotVec;
use nuke::graph::{ResolveError, TaskGraph};
use nuke::sched::{ExecutionError, Executor, Scheduler, TaskId};
use nuke::task::{find_task, FileStamp, Span, Spanned, Task};

fn sp(item: &str) -> Spanned<String> {
    Spanned { item: item.to_string(), span: Span { start: 0, end: 0 } }
}

fn file(stamp: Option<u64>) -> FileStamp {
    FileStamp { path: "input".to_string(), stamp }
}

fn task(
    name: &str,
    deps: &[&str],
    files: &[Option<u64>],
    target: Option<Option<u64>>,
    run: Option<u64>,
) -> Task {
    Task {
        name: sp(name),
        deps: deps.iter().map(|d| sp(d)).collect(),
        files: files.iter().map(|s| file(*s)).collect(),
        target: target.map(|s| FileStamp { path: "out".to_string(), stamp: s }),
        run,
    }
}

fn resolve(arena: &Vec<Task>, entry: &str, jobs: usize) -> Result<(Scheduler, TaskId), ResolveError> {
    let mut sched = Scheduler::new(Some(jobs)).unwrap();
    let mut g = TaskGraph::new(arena.len());
    let entry_idx = find_task(arena, &entry.to_string()).expect("entry declared");
    let id = g.submit(arena, entry_idx, &mut sched)?;
    Ok((sched, id))
}

/// Drives an executor to completion sequentially; `fail` names tasks
/// whose action reports failure. Returns the execution order and result.
fn drive(
    arena: &Vec<Task>,
    mut ex: Executor,
    fail: &[&str],
) -> (Vec<String>, Result<(), ExecutionError>) {
    let mut order = Vec::new();
    loop {
        match ex.start_next() {
            Some(id) => {
                let ai = ex.task_of(id);
                let name = arena[ai].name().to_string();
                let ok = !fail.contains(&name.as_str());
                order.push(name);
                ex.finish(id, ok);
            }
            None => {
                if ex.is_done() {
                    break;
                }
                panic!("executor stalled");
            }
        }
    }
    let r = ex.result();
    (order, r)
}

#[test]
fn phony_dependency_forces_run() {
    // A: no deps, no target; B: deps=[A], fresh-looking target.
    let arena = vec![
        task("A", &[], &[], None, Some(1)),
        task("B", &["A"], &[Some(100)], Some(Some(200)), Some(2)),
    ];
    let (sched, _) = resolve(&arena, "B", 1).unwrap();
    let ex = sched.start(&arena);
    let (order, r) = drive(&arena, ex, &[]);
    assert!(r.is_ok());
    assert_eq!(order, vec!["A".to_string(), "B".to_string()]);
}

#[test]
fn fresh_chain_skips_everything() {
    // C: target newer than its single input; D: deps=[C], target newer.
    let arena = vec![
        task("C", &[], &[Some(100)], Some(Some(200)), Some(1)),
        task("D", &["C"], &[Some(200)], Some(Some(300)), Some(2)),
    ];
    let (sched, _) = resolve(&arena, "D", 1).unwrap();
    let ex = sched.start(&arena);
    let (order, r) = drive(&arena, ex, &[]);
    assert!(r.is_ok());
    assert!(order.is_empty());
}

#[test]
fn failure_drains_inflight_and_stops_scheduling() {
    // E depends on F and G; F fails; G, already started, finishes; E
    // is never scheduled; the run reports F's error.
    let arena = vec![
        task("F", &[], &[], None, Some(1)),
        task("G", &[], &[], None, Some(2)),
        task("E", &["F", "G"], &[], None, Some(3)),
    ];
    let (sched, _) = resolve(&arena, "E", 2).unwrap();
    let mut ex = sched.start(&arena);
    let f = ex.start_next().expect("F starts");
    let g = ex.start_next().expect("G starts");
    assert_eq!(ex.start_next(), None);
    let f_arena = ex.task_of(f);
    let g_arena = ex.task_of(g);
    assert_eq!(arena[f_arena].name(), "F");
    assert_eq!(arena[g_arena].name(), "G");
    ex.finish(f, false);
    // G is allowed to finish even though F already failed.
    ex.finish(g, true);
    // no new work is scheduled after the failure: E never starts
    assert_eq!(ex.start_next(), None);
    assert!(ex.is_done());
    assert_eq!(ex.result(), Err(ExecutionError::ActionError { task: f }));
}

#[test]
fn zero_parallelism_is_rejected_before_any_task() {
    let r = Scheduler::new(Some(0));
    assert!(matches!(r, Err(ExecutionError::InvalidParallelism)));
}

#[test]
fn default_parallelism_is_positive() {
    let s = Scheduler::new(None).unwrap();
    assert!(s.jobs >= 1);
}

#[test]
fn shared_dependency_registered_once_in_topological_order() {
    // diamond: D -> B, C; B -> A; C -> A; plus an unreferenced task.
    let arena = vec![
        task("A", &[], &[], None, None),
        task("B", &["A"], &[], None, None),
        task("C", &["A"], &[], None, None),
        task("D", &["B", "C"], &[], None, None),
        task("unrelated", &[], &[], None, None),
    ];
    let (sched, id) = resolve(&arena, "D", 1).unwrap();
    // the unreferenced task is not registered; the others once each
    assert_eq!(sched.registered.len(), 4);
    assert_eq!(sched.registered, vec![0, 1, 2, 3]);
    assert_eq!(id, TaskId(3));
    // dependencies carry strictly smaller handles
    for (i, deps) in sched.deps.iter().enumerate() {
        for d in deps {
            assert!(*d < i);
        }
    }
}

#[test]
fn undeclared_dependency_is_reported_by_name() {
    let arena = vec![task("X", &["missing"], &[], None, None)];
    let r = resolve(&arena, "X", 1);
    match r {
        Err(ResolveError::TaskNotFound { name }) => assert_eq!(name.item, "missing"),
        other => panic!("expected TaskNotFound, got {:?}", other.is_ok()),
    }
}

#[test]
fn cycle_is_reported_and_nothing_on_it_registered() {
    let arena = vec![
        task("A", &["B"], &[], None, None),
        task("B", &["A"], &[], None, None),
    ];
    let mut sched = Scheduler::new(Some(1)).unwrap();
    let mut g = TaskGraph::new(arena.len());
    let entry = find_task(&arena, &"A".to_string()).unwrap();
    let r = g.submit(&arena, entry, &mut sched);
    assert!(matches!(r, Err(ResolveError::CircularDependency { .. })));
    assert_eq!(sched.registered.len(), 0);
}

#[test]
fn self_cycle_is_reported() {
    let arena = vec![task("A", &["A"], &[], None, None)];
    let r = resolve(&arena, "A", 1);
    assert!(matches!(r, Err(ResolveError::CircularDependency { .. })));
}

#[test]
fn cached_at_cases() {
    // no output path: never fresh
    assert_eq!(task("t", &[], &[Some(1)], None, None).cached_at(), None);
    // output absent: stale
    assert_eq!(task("t", &[], &[], Some(None), None).cached_at(), None);
    // an input newer than the output: stale
    assert_eq!(task("t", &[], &[Some(300)], Some(Some(200)), None).cached_at(), None);
    // an input absent: stale
    assert_eq!(task("t", &[], &[None], Some(Some(200)), None).cached_at(), None);
    // output present, no input newer: fresh with the output's stamp
    assert_eq!(task("t", &[], &[Some(100), Some(200)], Some(Some(200)), None).cached_at(), Some(200));
    // no inputs at all: fresh
    assert_eq!(task("t", &[], &[], Some(Some(7)), None).cached_at(), Some(7));
}

#[test]
fn stale_input_reruns_whole_chain() {
    // C's input is newer than its output, so C runs, and D must run
    // too although D's own target looks fresh.
    let arena = vec![
        task("C", &[], &[Some(500)], Some(Some(200)), Some(1)),
        task("D", &["C"], &[Some(200)], Some(Some(300)), Some(2)),
    ];
    let (sched, _) = resolve(&arena, "D", 1).unwrap();
    let ex = sched.start(&arena);
    let (order, r) = drive(&arena, ex, &[]);
    assert!(r.is_ok());
    assert_eq!(order, vec!["C".to_string(), "D".to_string()]);
}

#[test]
fn dependency_stamp_newer_than_output_forces_run() {
    // C is fresh with stamp 400; D's output stamp 300 is older than its
    // skipped dependency's stamp, so D runs.
    let arena = vec![
        task("C", &[], &[Some(100)], Some(Some(400)), Some(1)),
        task("D", &["C"], &[Some(200)], Some(Some(300)), Some(2)),
    ];
    let (sched, _) = resolve(&arena, "D", 1).unwrap();
    let ex = sched.start(&arena);
    let (order, r) = drive(&arena, ex, &[]);
    assert!(r.is_ok());
    assert_eq!(order, vec!["D".to_string()]);
}

#[test]
fn label_only_task_succeeds() {
    let arena = vec![task("L", &[], &[], None, None)];
    let (sched, _) = resolve(&arena, "L", 1).unwrap();
    let ex = sched.start(&arena);
    let (order, r) = drive(&arena, ex, &[]);
    assert!(r.is_ok());
    assert_eq!(order, vec!["L".to_string()]);
}

#[test]
fn slot_vec_inserts_reuse_freed_slots() {
    let mut sv: SlotVec<u32> = SlotVec::default();
    assert!(sv.is_empty());
    let a = sv.insert(10);
    let b = sv.insert(20);
    assert_eq!((a, b), (0, 1));
    assert_eq!(sv.len(), 2);
    let removed = sv.drain(|x| *x == 10);
    assert_eq!(removed, vec![10]);
    assert_eq!(sv.len(), 1);
    // the freed slot is reused before the vector grows
    let c = sv.insert(30);
    assert_eq!(c, 0);
    assert_eq!(sv.len(), 2);
    let rest = sv.drain(|_| true);
    assert_eq!(rest, vec![30, 20]);
    assert!(sv.is_empty());
}

#[test]
fn cli_builds_schedule_invocation() {
    let cli = Cli { jobs: Some(4), name: Some("build".to_string()) };
    let s = cli.nuke_schedule();
    assert_eq!(s.jobs, Some(4));
    assert_eq!(s.name, Some("build".to_string()));
    let bare = Cli { jobs: None, name: None };
    let s2 = bare.nuke_schedule();
    assert_eq!(s2.jobs, None);
    assert_eq!(s2.name, None);
}
