use glyphvis::name_map::NameMap;
use glyphvis::segment_graph::SegmentGraph;
use glyphvis::segment_set::SegmentSet;
use glyphvis::stroke::{
    arc_step_score, are_compatible_segments, chain_strokes, convert_to_transition_changes, get_primary_segment_type,
    get_type_priority, group_segments_into_strokes, identify_connections, is_arc_type,
    order_segments_in_stroke, order_strokes_with_connections, quadrant_precedence, tile_quadrant, type_precedence,
    Precedence, SegmentType, Stroke,
};

fn strings(v: &[&str]) -> Vec<String> {
    v.iter().map(|s| s.to_string()).collect()
}

fn set(v: &[&str]) -> SegmentSet {
    let mut s = SegmentSet::new();
    for x in v {
        s.insert(x.to_string());
    }
    s
}

/// a - b - c along one row: a and b horizontal, c vertical.
fn line_graph() -> (SegmentGraph, NameMap<SegmentType>) {
    let mut g = SegmentGraph::new();
    g.add_segment("a".to_string(), (0, 0));
    g.add_segment("b".to_string(), (1, 0));
    g.add_segment("c".to_string(), (2, 0));
    g.set_connections("a", strings(&["b"]));
    g.set_connections("b", strings(&["a", "c"]));
    g.set_connections("c", strings(&["b"]));
    let mut types = NameMap::new();
    types.insert("a".to_string(), SegmentType::Horizontal);
    types.insert("b".to_string(), SegmentType::Horizontal);
    types.insert("c".to_string(), SegmentType::Vertical);
    (g, types)
}

fn stroke(segments: &[&str], primary_type: SegmentType) -> Stroke {
    Stroke {
        segments: strings(segments),
        start_segment: segments[0].to_string(),
        end_segment: segments[segments.len() - 1].to_string(),
        primary_type,
    }
}

#[test]
fn arcs_and_priorities() {
    assert!(is_arc_type(SegmentType::ArcBottomLeft));
    assert!(!is_arc_type(SegmentType::Vertical));
    assert_eq!(get_type_priority(SegmentType::ArcTopLeft), 1);
    assert_eq!(get_type_priority(SegmentType::Horizontal), 5);
    assert_eq!(get_type_priority(SegmentType::Unknown), 7);
}

#[test]
fn neighbouring_arcs_are_compatible_both_ways() {
    assert!(are_compatible_segments(SegmentType::ArcTopLeft, SegmentType::ArcTopRight));
    assert!(are_compatible_segments(SegmentType::ArcTopRight, SegmentType::ArcTopLeft));
    assert!(are_compatible_segments(SegmentType::ArcBottomLeft, SegmentType::ArcTopLeft));
    assert!(!are_compatible_segments(SegmentType::ArcTopLeft, SegmentType::ArcBottomRight));
    assert!(!are_compatible_segments(SegmentType::Horizontal, SegmentType::Vertical));
    assert!(are_compatible_segments(SegmentType::Vertical, SegmentType::Vertical));
}

#[test]
fn quadrants_split_between_tiles_two_and_three() {
    assert_eq!(tile_quadrant(0, 0), 1);
    assert_eq!(tile_quadrant(3, 2), 2);
    assert_eq!(tile_quadrant(2, 3), 3);
    assert_eq!(tile_quadrant(4, 4), 4);
}

#[test]
fn primary_type_is_the_most_common() {
    let (_, types) = line_graph();
    assert_eq!(get_primary_segment_type(&strings(&["a", "b", "c"]), &types), SegmentType::Horizontal);
    assert_eq!(get_primary_segment_type(&strings(&["c"]), &types), SegmentType::Vertical);
    assert_eq!(get_primary_segment_type(&strings(&["zz"]), &types), SegmentType::Unknown);
    // a tie goes to the type declared first
    assert_eq!(get_primary_segment_type(&strings(&["c", "a"]), &types), SegmentType::Horizontal);
}

#[test]
fn writing_lights_one_segment_per_step_then_clears() {
    let start = set(&["x", "a"]);
    let target = set(&["a", "b"]);
    let steps = convert_to_transition_changes(strings(&["b"]), &start, &target);
    assert_eq!(steps.len(), 2);
    assert_eq!(steps[0].len(), 1);
    assert_eq!(steps[0][0].segment_id, "b");
    assert!(steps[0][0].turn_on);
    assert_eq!(steps[1].len(), 1);
    assert_eq!(steps[1][0].segment_id, "x");
    assert!(!steps[1][0].turn_on);
    let steps = convert_to_transition_changes(strings(&["b"]), &set(&["a"]), &target);
    assert_eq!(steps.len(), 1);
}

#[test]
fn segments_group_by_compatible_connections() {
    let (g, types) = line_graph();
    let groups = group_segments_into_strokes(&set(&["a", "b", "c"]), &types, &g);
    assert_eq!(groups, vec![strings(&["a", "b"]), strings(&["c"])]);
    let groups = group_segments_into_strokes(&set(&["a", "c"]), &types, &g);
    assert_eq!(groups, vec![strings(&["a"]), strings(&["c"])]);
}

#[test]
fn strokes_link_where_their_segments_touch() {
    let (g, _) = line_graph();
    let strokes = vec![stroke(&["a", "b"], SegmentType::Horizontal), stroke(&["c"], SegmentType::Vertical)];
    let links = identify_connections(&strokes, &g);
    assert_eq!(links.get("a"), Some(&strings(&["c"])));
    assert_eq!(links.get("c"), Some(&strings(&["a"])));
    assert_eq!(links.len(), 2);
}

#[test]
fn connected_strokes_follow_each_other() {
    let (g, _) = line_graph();
    let strokes = vec![
        stroke(&["c"], SegmentType::Vertical),
        stroke(&["z"], SegmentType::Vertical),
        stroke(&["a", "b"], SegmentType::Horizontal),
    ];
    let links = identify_connections(&strokes, &g);
    let order = order_strokes_with_connections(&strokes, &links, |_c: Vec<usize>| 0);
    assert_eq!(order, strings(&["c", "a", "b", "z"]));
    let chain = chain_strokes(&strokes, &links);
    assert_eq!(chain, vec![0, 2, 1]);
}

#[test]
fn a_pick_past_the_end_takes_the_first_candidate() {
    let strokes = vec![stroke(&["a"], SegmentType::Horizontal), stroke(&["b"], SegmentType::Horizontal), stroke(&["c"], SegmentType::Horizontal)];
    let mut links: NameMap<Vec<String>> = NameMap::new();
    links.insert("a".to_string(), strings(&["b", "c"]));
    let order = order_strokes_with_connections(&strokes, &links, |c: Vec<usize>| {
        assert_eq!(c, vec![1, 2]);
        1
    });
    assert_eq!(order, strings(&["a", "c", "b"]));
    let order = order_strokes_with_connections(&strokes, &links, |_c: Vec<usize>| 9);
    assert_eq!(order, strings(&["a", "b", "c"]));
}

#[test]
fn a_stroke_is_walked_along_its_connections() {
    let (g, _) = line_graph();
    let s = Stroke {
        segments: strings(&["c", "a", "b"]),
        start_segment: "a".to_string(),
        end_segment: String::new(),
        primary_type: SegmentType::Horizontal,
    };
    let (order, end) = order_segments_in_stroke(&s, &g, |_at: String, c: Vec<String>| {
        assert_eq!(c.len(), 1);
        0
    });
    assert_eq!(order, strings(&["a", "b", "c"]));
    assert_eq!(end, "c");
}

#[test]
fn a_walk_that_gets_stuck_jumps_to_the_first_unwritten_segment() {
    let (g, _) = line_graph();
    let s = Stroke {
        segments: strings(&["c", "a"]),
        start_segment: "a".to_string(),
        end_segment: String::new(),
        primary_type: SegmentType::Horizontal,
    };
    let (order, end) = order_segments_in_stroke(&s, &g, |_at: String, _c: Vec<String>| 0);
    assert_eq!(order, strings(&["a", "c"]));
    assert_eq!(end, "c");
}

#[test]
fn the_walk_takes_the_preferred_neighbour() {
    let (g, _) = line_graph();
    let s = Stroke {
        segments: strings(&["a", "b", "c"]),
        start_segment: "b".to_string(),
        end_segment: String::new(),
        primary_type: SegmentType::Horizontal,
    };
    let (order, _) = order_segments_in_stroke(&s, &g, |at: String, c: Vec<String>| {
        assert_eq!(at, "b");
        assert_eq!(c, strings(&["a", "c"]));
        1
    });
    assert_eq!(order, strings(&["b", "c", "a"]));
}

#[test]
fn reading_order_rules_by_quadrant_and_type() {
    assert_eq!(quadrant_precedence(1, 4), Precedence::Before);
    assert_eq!(quadrant_precedence(3, 1), Precedence::After);
    assert_eq!(quadrant_precedence(2, 3), Precedence::Before);
    assert_eq!(quadrant_precedence(4, 2), Precedence::After);
    assert_eq!(quadrant_precedence(3, 4), Precedence::Before);
    assert_eq!(quadrant_precedence(4, 3), Precedence::After);
    assert_eq!(quadrant_precedence(2, 2), Precedence::Undecided);
    assert_eq!(type_precedence(SegmentType::Vertical, SegmentType::Horizontal), Precedence::Before);
    assert_eq!(type_precedence(SegmentType::ArcTopRight, SegmentType::ArcTopLeft), Precedence::After);
    assert_eq!(type_precedence(SegmentType::ArcBottomLeft, SegmentType::Vertical), Precedence::Before);
    assert_eq!(type_precedence(SegmentType::Horizontal, SegmentType::ArcTopRight), Precedence::After);
    assert_eq!(type_precedence(SegmentType::ArcTopLeft, SegmentType::ArcBottomRight), Precedence::Undecided);
    assert_eq!(type_precedence(SegmentType::Unknown, SegmentType::Horizontal), Precedence::Undecided);
    let types = [
        SegmentType::Horizontal,
        SegmentType::Vertical,
        SegmentType::ArcTopLeft,
        SegmentType::ArcTopRight,
        SegmentType::ArcBottomLeft,
        SegmentType::ArcBottomRight,
        SegmentType::Unknown,
    ];
    for &a in &types {
        for &b in &types {
            assert_eq!(type_precedence(a, b) == Precedence::Before, type_precedence(b, a) == Precedence::After);
        }
    }
    for qa in 1..=4u8 {
        for qb in 1..=4u8 {
            assert_eq!(quadrant_precedence(qa, qb) == Precedence::Before, quadrant_precedence(qb, qa) == Precedence::After);
        }
    }
}

#[test]
fn arcs_are_walked_round_clockwise_first() {
    assert_eq!(arc_step_score(SegmentType::ArcTopLeft, SegmentType::ArcTopRight), 0);
    assert_eq!(arc_step_score(SegmentType::ArcBottomLeft, SegmentType::ArcTopLeft), 0);
    assert_eq!(arc_step_score(SegmentType::ArcTopRight, SegmentType::ArcTopLeft), 3);
    assert_eq!(arc_step_score(SegmentType::ArcTopLeft, SegmentType::ArcBottomLeft), 3);
    assert_eq!(arc_step_score(SegmentType::ArcTopLeft, SegmentType::ArcBottomRight), 100);
    assert_eq!(arc_step_score(SegmentType::Horizontal, SegmentType::ArcTopRight), 100);
}
