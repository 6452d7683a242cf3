use glyphvis::segment_graph::SegmentGraph;
use glyphvis::segment_set::SegmentSet;
use glyphvis::transition::{
    distribute_changes, transition_next_animation_type, PendingChange, SegmentChange, Transition,
    TransitionAnimationType, TransitionEngine,
};
use std::collections::HashSet;

fn set(ids: &[&str]) -> SegmentSet {
    let mut s = SegmentSet::new();
    for id in ids {
        s.insert(id.to_string());
    }
    s
}

/// A chain a - b - c - d, connected both ways.
fn chain_graph() -> SegmentGraph {
    let mut g = SegmentGraph::new();
    for id in ["a", "b", "c", "d"] {
        g.add_segment(id.to_string(), (1, 1));
    }
    g.set_connections("a", vec!["b".to_string()]);
    g.set_connections("b", vec!["a".to_string(), "c".to_string()]);
    g.set_connections("c", vec!["b".to_string(), "d".to_string()]);
    g.set_connections("d", vec!["c".to_string()]);
    g
}

fn apply(lit: &mut HashSet<String>, steps: &[Vec<SegmentChange>]) {
    for step in steps {
        for change in step {
            if change.turn_on {
                lit.insert(change.segment_id.clone());
            } else {
                lit.remove(&change.segment_id);
            }
        }
    }
}

#[test]
fn animation_types_by_number() {
    assert_eq!(transition_next_animation_type(0), TransitionAnimationType::Random);
    assert_eq!(transition_next_animation_type(1), TransitionAnimationType::Immediate);
    assert_eq!(transition_next_animation_type(2), TransitionAnimationType::Writing);
    assert_eq!(transition_next_animation_type(3), TransitionAnimationType::Overwrite);
    assert_eq!(transition_next_animation_type(17), TransitionAnimationType::Immediate);
    assert_eq!(transition_next_animation_type(-1), TransitionAnimationType::Immediate);
}

#[test]
fn nearest_connected_is_the_closest_lit_segment() {
    let engine = TransitionEngine::new();
    let g = chain_graph();
    let lit = set(&["d", "b"]);
    assert_eq!(engine.find_nearest_connected("a", &lit, &g), Some("b".to_string()));
    assert_eq!(engine.find_nearest_connected("b", &lit, &g), Some("d".to_string()));
    assert_eq!(engine.find_nearest_connected("z", &lit, &g), None);
}

#[test]
fn pending_changes_go_off_first_then_on() {
    let engine = TransitionEngine::new();
    let g = chain_graph();
    let start = set(&["a", "b"]);
    let target = set(&["b", "c"]);
    let settled = set(&["b"]);
    let pending = engine.pending_changes(&g, &start, &target, &settled, false);
    let plan: Vec<(String, String, bool)> =
        pending.iter().map(|p| (p.segment_id.clone(), p.nearest.clone(), p.turn_on)).collect();
    assert_eq!(
        plan,
        vec![("a".to_string(), "b".to_string(), false), ("c".to_string(), "b".to_string(), true)]
    );
    // An immediate change does not spare the settled segments.
    let pending = engine.pending_changes(&g, &start, &target, &settled, true);
    assert_eq!(pending.len(), 3);
    assert_eq!(pending[1].segment_id, "b");
    assert!(pending[1].turn_on);
}

#[test]
fn unreachable_segments_are_left_alone_unless_one_side_is_empty() {
    let engine = TransitionEngine::new();
    let mut g = chain_graph();
    g.add_segment("island".to_string(), (9, 9));
    let pending = engine.pending_changes(&g, &set(&["a"]), &set(&["island"]), &set(&[]), false);
    // "a" has no other lit segment to shrink toward, "island" none to grow from.
    assert!(pending.is_empty());
    let pending = engine.pending_changes(&g, &set(&[]), &set(&["island"]), &set(&[]), false);
    assert_eq!(pending.len(), 1);
    assert_eq!(pending[0].nearest, "island");
    let pending = engine.pending_changes(&g, &set(&["a"]), &set(&[]), &set(&[]), false);
    assert_eq!(pending.len(), 1);
    assert!(!pending[0].turn_on);
}

#[test]
fn immediate_transition_is_one_step() {
    let engine = TransitionEngine::new();
    let g = chain_graph();
    let steps = engine.generate_changes(&g, &set(&["a", "b"]), &set(&["b", "c", "d"]), &set(&[]), true, 10, |_| 1);
    assert_eq!(steps.len(), 1);
    assert_eq!(steps[0].len(), 4);
}

#[test]
fn spread_transition_reaches_the_target() {
    let engine = TransitionEngine::new();
    let g = chain_graph();
    for _ in 0..20 {
        let steps = engine.generate_changes(&g, &set(&["a", "b"]), &set(&["c", "d"]), &set(&[]), false, 3, |_| 1);
        assert!(steps.len() <= 3);
        assert!(!steps.last().unwrap().is_empty());
        let mut lit: HashSet<String> = ["a", "b"].iter().map(|s| s.to_string()).collect();
        apply(&mut lit, &steps);
        let expected: HashSet<String> = ["c", "d"].iter().map(|s| s.to_string()).collect();
        assert_eq!(lit, expected);
    }
}

#[test]
fn no_steps_places_nothing() {
    let pending = vec![PendingChange { segment_id: "a".to_string(), nearest: "b".to_string(), turn_on: true }];
    assert!(distribute_changes(pending, 0, 5).is_empty());
}

#[test]
fn leftovers_go_to_the_last_step() {
    let pending: Vec<PendingChange> = (0..5)
        .map(|i| PendingChange { segment_id: format!("s{}", i), nearest: format!("n{}", i), turn_on: true })
        .collect();
    let steps = distribute_changes(pending, 2, 1);
    assert_eq!(steps.len(), 2);
    assert_eq!(steps[0].len(), 1);
    assert_eq!(steps[1].len(), 4);
    let total: usize = steps.iter().map(|s| s.len()).sum();
    assert_eq!(total, 5);
}

#[test]
fn changes_sharing_a_lit_segment_stay_together() {
    let pending: Vec<PendingChange> = ["x", "y", "z"]
        .iter()
        .map(|id| PendingChange { segment_id: id.to_string(), nearest: "hub".to_string(), turn_on: true })
        .collect();
    let steps = distribute_changes(pending, 3, 3);
    assert_eq!(steps.len(), 1);
    assert_eq!(steps[0].len(), 3);
}

#[test]
fn trailing_empty_steps_are_dropped() {
    let pending = vec![PendingChange { segment_id: "a".to_string(), nearest: "b".to_string(), turn_on: false }];
    let steps = distribute_changes(pending, 5, 1);
    assert_eq!(steps.len(), 1);
}

#[test]
fn transition_plays_each_step_once() {
    let steps = vec![
        vec![
            SegmentChange { segment_id: "a".to_string(), turn_on: true },
            SegmentChange { segment_id: "b".to_string(), turn_on: false },
        ],
        vec![SegmentChange { segment_id: "c".to_string(), turn_on: true }],
    ];
    let mut t = Transition::new(steps);
    assert!(!t.is_complete());
    let first = t.advance().unwrap();
    assert!(first.segments_on.contains("a"));
    assert!(!first.segments_on.contains("b"));
    assert!(first.segments_off.contains("b"));
    assert_eq!(first.segments_on.len(), 1);
    let second = t.advance().unwrap();
    assert!(second.segments_on.contains("c"));
    assert!(second.segments_off.is_empty());
    assert!(t.is_complete());
    assert!(t.advance().is_none());
    assert!(t.is_complete());
}

#[test]
fn steps_fill_up_before_the_next_one_starts() {
    let pending = |n: usize| -> Vec<PendingChange> {
        (0..n)
            .map(|i| PendingChange { segment_id: format!("s{}", i), nearest: format!("n{}", i), turn_on: true })
            .collect()
    };
    let sizes = |steps: Vec<Vec<SegmentChange>>| -> Vec<usize> { steps.iter().map(|s| s.len()).collect() };
    assert_eq!(sizes(distribute_changes(pending(5), 4, 2)), vec![2, 2, 1]);
    assert_eq!(sizes(distribute_changes(pending(5), 2, 2)), vec![2, 3]);
    assert_eq!(sizes(distribute_changes(pending(3), 3, 0)), vec![0, 0, 3]);
    assert_eq!(sizes(distribute_changes(pending(0), 3, 2)), Vec::<usize>::new());
}

#[test]
fn each_step_takes_a_whole_group_when_it_fits() {
    let pending = vec![
        PendingChange { segment_id: "a".to_string(), nearest: "x".to_string(), turn_on: true },
        PendingChange { segment_id: "c".to_string(), nearest: "y".to_string(), turn_on: true },
        PendingChange { segment_id: "b".to_string(), nearest: "x".to_string(), turn_on: true },
        PendingChange { segment_id: "d".to_string(), nearest: "y".to_string(), turn_on: true },
    ];
    let group_of = |id: &str| if id == "a" || id == "b" { "x" } else { "y" };
    for _ in 0..20 {
        let steps = distribute_changes(
            pending
                .iter()
                .map(|p| PendingChange {
                    segment_id: p.segment_id.clone(),
                    nearest: p.nearest.clone(),
                    turn_on: p.turn_on,
                })
                .collect(),
            2,
            2,
        );
        assert_eq!(steps.len(), 2);
        for step in &steps {
            assert_eq!(step.len(), 2);
            assert_eq!(group_of(&step[0].segment_id), group_of(&step[1].segment_id));
        }
    }
}
