use quests::cycle::CycleDetector;
use quests::disjoint_set::DisjointSet;
use quests::ec2025_quest20::{Cell, Edge, HopGraph};
use quests::errors::EngineError;
use quests::search::{evaluate, evaluate_plain, shortest_path};
use quests::story2_quest01::DpGraph;

fn trampoline_row(pattern: &str) -> Vec<Vec<Cell>> {
    let row: Vec<Cell> = pattern
        .bytes()
        .map(|b| Cell::new(b, Edge::Up))
        .collect();
    vec![row]
}

#[test]
fn cycle_detector_periodic_pair() {
    // States repeat with period two; values 10 and 20. Five steps total:
    // 10 + 20 + 10 + 20 + 10 = 70.
    let mut detector = CycleDetector::new(5);
    assert_eq!(detector.step(1, 10), None);
    assert_eq!(detector.step(2, 20), None);
    assert_eq!(detector.step(1, 10), Some(70));
}

#[test]
fn cycle_detector_periodic_long() {
    // Period three against a large step target, checked against the
    // brute-force sum of the same periodic values.
    let states = [7u64, 8, 9];
    let values = [3u64, 5, 11];
    let n = 10_000u64;
    let mut brute: u64 = 0;
    for t in 0..n {
        brute += values[(t % 3) as usize];
    }
    let mut detector = CycleDetector::new(n);
    let mut answer = None;
    let mut t = 0usize;
    while answer.is_none() {
        answer = detector.step(states[t % 3], values[t % 3]);
        t += 1;
    }
    assert_eq!(answer, Some(brute));
}

#[test]
fn cycle_detector_no_repeat() {
    // No state ever recurs, so the detector finishes the run naturally
    // with the plain sum.
    let mut detector = CycleDetector::new(4);
    assert_eq!(detector.step(10, 1), None);
    assert_eq!(detector.step(11, 2), None);
    assert_eq!(detector.step(12, 3), None);
    assert_eq!(detector.step(13, 4), Some(10));
}

#[test]
fn cycle_detector_zero_steps() {
    let mut detector = CycleDetector::new(0);
    assert_eq!(detector.step(1, 10), Some(0));
}

#[test]
fn union_find_components() {
    // n = 5 with unions (0,1), (2,3), (1,2): one component of four and a
    // singleton.
    let mut ds = DisjointSet::new(5);
    ds.union(0, 1);
    ds.union(2, 3);
    ds.union(1, 2);
    assert_eq!(ds.find(0), ds.find(3));
    assert_eq!(ds.find(1), ds.find(2));
    assert_ne!(ds.find(0), ds.find(4));
    assert_eq!(ds.size_of(0), 4);
    assert_eq!(ds.size_of(3), 4);
    assert_eq!(ds.size_of(4), 1);
}

#[test]
fn union_same_set_changes_nothing() {
    // A union of two elements already together leaves sizes alone, twice
    // over.
    let mut ds = DisjointSet::new(4);
    ds.union(0, 1);
    ds.union(0, 1);
    ds.union(1, 0);
    assert_eq!(ds.size_of(0), 2);
    assert_eq!(ds.size_of(1), 2);
    assert_eq!(ds.size_of(2), 1);
}

#[test]
fn union_find_out_of_range() {
    let mut ds = DisjointSet::new(3);
    assert_eq!(ds.try_find(7), Err(EngineError::IndexOutOfRange));
    assert_eq!(ds.try_union(0, 9), Err(EngineError::IndexOutOfRange));
    assert!(ds.try_union(0, 2).is_ok());
    assert_eq!(ds.try_find(0).unwrap(), ds.try_find(2).unwrap());
}

#[test]
fn bfs_linear_chain() {
    // Four trampolines in a row: three hops from the first to the last.
    let graph = HopGraph::new(trampoline_row("TTTT"), false, 3);
    assert_eq!(shortest_path(&graph, 0), Ok(3));
}

#[test]
fn bfs_unreachable() {
    // A gap in the row: the far side cannot be reached.
    let graph = HopGraph::new(trampoline_row("TT.T"), false, 3);
    assert_eq!(shortest_path(&graph, 0), Err(EngineError::NotFound));
}

#[test]
fn bfs_start_is_goal() {
    let graph = HopGraph::new(trampoline_row("TTT"), false, 0);
    assert_eq!(shortest_path(&graph, 0), Ok(0));
}

#[test]
fn evaluate_matches_plain() {
    // Memoized and cache-free evaluation agree on an assignment graph.
    let scores = vec![vec![5u64, 10], vec![2, 8]];
    let gmin = DpGraph::new(scores.clone(), 2, false);
    let m1 = evaluate(&gmin, 0);
    let m2 = evaluate_plain(&gmin, 0);
    assert_eq!(m1, m2);
    let gmax = DpGraph::new(scores, 2, true);
    assert_eq!(evaluate(&gmax, 0), evaluate_plain(&gmax, 0));
}

#[test]
fn evaluate_assignment_values() {
    // Two rows, two slots: the best assignments are 5 + 8 and 10 + 2.
    let scores = vec![vec![5u64, 10], vec![2, 8]];
    let gmin = DpGraph::new(scores.clone(), 2, false);
    assert_eq!(evaluate(&gmin, 0), 12);
    let gmax = DpGraph::new(scores, 2, true);
    assert_eq!(evaluate(&gmax, 0), 13);
}

#[test]
fn error_descriptions() {
    assert_eq!(EngineError::NotFound.describe(), "goal not found");
    assert_eq!(EngineError::IndexOutOfRange.describe(), "index out of range");
    assert_eq!(EngineError::InvalidCycle.describe(), "cycle of length zero");
}
