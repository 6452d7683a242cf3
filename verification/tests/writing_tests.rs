use glyphvis::name_map::NameMap;
use glyphvis::segment_graph::SegmentGraph;
use glyphvis::segment_set::SegmentSet;
use glyphvis::stroke::{SegmentType, Stroke};
use glyphvis::writing_order::{generate_stroke_order, reorder_strokes};

fn strings(v: &[&str]) -> Vec<String> {
    v.iter().map(|s| s.to_string()).collect()
}

fn set(v: &[&str]) -> SegmentSet {
    let mut s = SegmentSet::new();
    for x in v {
        s.insert(x.to_string());
    }
    s
}

/// A horizontal bar a - b - c and, apart, a vertical d - e.
fn glyph() -> (SegmentGraph, NameMap<SegmentType>) {
    let mut g = SegmentGraph::new();
    for (id, tile) in [("a", (1, 1)), ("b", (2, 1)), ("c", (3, 1)), ("d", (1, 3)), ("e", (1, 4))] {
        g.add_segment(id.to_string(), tile);
    }
    g.set_connections("a", strings(&["b"]));
    g.set_connections("b", strings(&["a", "c"]));
    g.set_connections("c", strings(&["b"]));
    g.set_connections("d", strings(&["e"]));
    g.set_connections("e", strings(&["d"]));
    let mut types = NameMap::new();
    for id in ["a", "b", "c"] {
        types.insert(id.to_string(), SegmentType::Horizontal);
    }
    for id in ["d", "e"] {
        types.insert(id.to_string(), SegmentType::Vertical);
    }
    (g, types)
}

fn sorted(mut v: Vec<String>) -> Vec<String> {
    v.sort();
    v
}

#[test]
fn every_new_segment_is_written_once() {
    let (g, types) = glyph();
    let order = generate_stroke_order(
        &set(&["a"]),
        &set(&["a", "b", "c", "d", "e", "untyped"]),
        &types,
        &g,
        |group: &Vec<String>, _: SegmentType| group[group.len() - 1].clone(),
        |_: SegmentType, _: String, _: Vec<String>| 0,
        |strokes: &Vec<Stroke>| (0..strokes.len()).rev().collect(),
        |_: &Vec<Stroke>, _: Vec<usize>| 0,
    );
    assert_eq!(sorted(order.clone()), strings(&["b", "c", "d", "e"]));
    assert_eq!(order, strings(&["e", "d", "c", "b"]));
}

#[test]
fn unusable_choices_still_write_everything() {
    let (g, types) = glyph();
    let order = generate_stroke_order(
        &set(&[]),
        &set(&["a", "b", "c", "d", "e"]),
        &types,
        &g,
        |_: &Vec<String>, _: SegmentType| "nowhere".to_string(),
        |_: SegmentType, _: String, _: Vec<String>| 99,
        |_: &Vec<Stroke>| vec![7, 7, 7],
        |_: &Vec<Stroke>, _: Vec<usize>| 99,
    );
    assert_eq!(order, strings(&["a", "b", "c", "d", "e"]));
    let nothing = generate_stroke_order(
        &set(&["a"]),
        &set(&["a"]),
        &types,
        &g,
        |group: &Vec<String>, _: SegmentType| group[0].clone(),
        |_: SegmentType, _: String, _: Vec<String>| 0,
        |strokes: &Vec<Stroke>| (0..strokes.len()).collect(),
        |_: &Vec<Stroke>, _: Vec<usize>| 0,
    );
    assert!(nothing.is_empty());
}

#[test]
fn strokes_are_reordered_only_by_a_full_order() {
    let stroke = |id: &str| Stroke {
        segments: strings(&[id]),
        start_segment: id.to_string(),
        end_segment: id.to_string(),
        primary_type: SegmentType::Horizontal,
    };
    let strokes = vec![stroke("x"), stroke("y"), stroke("z")];
    let starts = |v: Vec<Stroke>| -> Vec<String> { v.into_iter().map(|s| s.start_segment).collect() };
    assert_eq!(starts(reorder_strokes(&strokes, &vec![2, 0, 1])), strings(&["z", "x", "y"]));
    assert_eq!(starts(reorder_strokes(&strokes, &vec![2, 2, 1])), strings(&["x", "y", "z"]));
    assert_eq!(starts(reorder_strokes(&strokes, &vec![0, 1])), strings(&["x", "y", "z"]));
}
