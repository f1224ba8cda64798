use octobuild::graph::BuildGraph;
use octobuild::scheduler::{execute_graph, Scheduler, SchedulerAction};
use octobuild::task::{BuildError, BuildTask};

fn task(title: &str) -> BuildTask {
    BuildTask {
        title: title.to_string(),
        program: "true".to_string(),
        args: Vec::new(),
        working_dir: ".".to_string(),
        env: Vec::new(),
    }
}

fn graph_of(n: usize, edges: &[(usize, usize)]) -> BuildGraph {
    let mut g = BuildGraph::new();
    for i in 0..n {
        g.add_task(task(&format!("t{}", i)));
    }
    for &(u, v) in edges {
        g.add_dep(u, v);
    }
    g
}

#[test]
fn single_node_completes_with_one_dispatch() {
    let g = graph_of(1, &[]);
    let (res, order) = execute_graph(&g, &vec![0]).unwrap();
    assert_eq!(res, Some(0));
    assert_eq!(order, vec![0]);
}

#[test]
fn cycle_is_refused_before_any_dispatch() {
    let g = graph_of(2, &[(0, 1), (1, 0)]);
    match execute_graph(&g, &vec![0, 0]) {
        Err(e) => assert_eq!(e, BuildError::GraphCycle),
        Ok(_) => panic!("a cyclic graph must be refused"),
    }
}

#[test]
fn validate_accepts_acyclic_and_refuses_cyclic() {
    let ok = graph_of(3, &[(0, 1), (1, 2)]);
    assert!(ok.validate().is_ok());
    let bad = graph_of(3, &[(0, 1), (1, 2), (2, 0)]);
    assert_eq!(bad.validate(), Err(BuildError::GraphCycle));
}

#[test]
fn fan_out_dispatches_all_leaves_at_once() {
    // the root (node 0) depends on four leaves; all leaves go out together
    let g = graph_of(5, &[(0, 1), (0, 2), (0, 3), (0, 4)]);
    let (_, initial) = Scheduler::new(&g);
    assert_eq!(initial, vec![1, 2, 3, 4]);
}

#[test]
fn completion_enables_exactly_the_last_consumer() {
    let g = graph_of(3, &[(2, 0), (2, 1)]);
    let (mut sched, initial) = Scheduler::new(&g);
    assert_eq!(initial, vec![0, 1]);
    match sched.on_result(&g, 0, Some(0)) {
        SchedulerAction::Dispatch(newly) => assert_eq!(newly, Vec::<usize>::new()),
        _ => panic!("one completed dependency of two enables nothing"),
    }
    match sched.on_result(&g, 1, Some(0)) {
        SchedulerAction::Dispatch(newly) => assert_eq!(newly, vec![2]),
        _ => panic!("the last completed dependency enables the consumer"),
    }
    match sched.on_result(&g, 2, Some(0)) {
        SchedulerAction::Finished => {}
        _ => panic!("all nodes completed"),
    }
}

#[test]
fn chain_order_is_deterministic_by_node_index() {
    // 0 depends on 1, 1 depends on 2: execution must run 2, 1, 0
    let g = graph_of(3, &[(0, 1), (1, 2)]);
    let (res, order) = execute_graph(&g, &vec![0, 0, 0]).unwrap();
    assert_eq!(res, Some(0));
    assert_eq!(order, vec![2, 1, 0]);
    // a second run of the same graph visits in the same order
    let (_, order2) = execute_graph(&g, &vec![0, 0, 0]).unwrap();
    assert_eq!(order, order2);
}

#[test]
fn abort_on_failure_skips_consumers() {
    // A(0) <- B(1) <- C(2): C runs first, then B fails with 2, A never runs
    let g = graph_of(3, &[(0, 1), (1, 2)]);
    let (res, order) = execute_graph(&g, &vec![0, 2, 0]).unwrap();
    assert_eq!(res, Some(2));
    assert_eq!(order, vec![2, 1]);
}

#[test]
fn full_success_visits_every_node_once() {
    let g = graph_of(4, &[(0, 1), (0, 2), (1, 3), (2, 3)]);
    let (res, order) = execute_graph(&g, &vec![0, 0, 0, 0]).unwrap();
    assert_eq!(res, Some(0));
    let mut sorted = order.clone();
    sorted.sort();
    assert_eq!(sorted, vec![0, 1, 2, 3]);
    assert_eq!(order[0], 3);
    assert_eq!(order[3], 0);
}

#[test]
fn signal_termination_aborts_with_no_status() {
    let g = graph_of(1, &[]);
    let (mut sched, initial) = Scheduler::new(&g);
    assert_eq!(initial, vec![0]);
    match sched.on_result(&g, 0, None) {
        SchedulerAction::Abort(st) => assert_eq!(st, None),
        _ => panic!("a signal-terminated task aborts the run"),
    }
}

#[test]
fn progress_line_has_the_expected_shape() {
    assert_eq!(octobuild::task::progress_line(3, 12, 240, "compile main.cpp"), "#3 12/240: compile main.cpp");
    assert_eq!(octobuild::task::progress_line(0, 1, 1, "link"), "#0 1/1: link");
}
