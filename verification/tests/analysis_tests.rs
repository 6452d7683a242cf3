use glyphvis::geometry::Axis;
use glyphvis::grid::{BaseElement, EdgeType, Grid, GridElement};
use glyphvis::name_map::NameMap;
use glyphvis::segment_analysis::{find_most_compatible_segment, identify_segment_connections};
use glyphvis::segment_graph::SegmentGraph;
use glyphvis::segment_set::SegmentSet;
use glyphvis::stretch::{boundary_segments, is_outer_boundary};
use glyphvis::stroke::SegmentType;

fn strings(v: &[&str]) -> Vec<String> {
    v.iter().map(|s| s.to_string()).collect()
}

fn set(v: &[&str]) -> SegmentSet {
    let mut s = SegmentSet::new();
    for x in v {
        s.insert(x.to_string());
    }
    s
}

fn line_graph() -> (SegmentGraph, NameMap<SegmentType>) {
    let mut g = SegmentGraph::new();
    g.add_segment("a".to_string(), (0, 0));
    g.add_segment("b".to_string(), (1, 0));
    g.add_segment("c".to_string(), (2, 0));
    g.set_connections("a", strings(&["b"]));
    g.set_connections("b", strings(&["a", "c"]));
    g.set_connections("c", strings(&["b"]));
    let mut types = NameMap::new();
    types.insert("a".to_string(), SegmentType::Horizontal);
    types.insert("b".to_string(), SegmentType::Horizontal);
    types.insert("c".to_string(), SegmentType::Vertical);
    (g, types)
}

fn element(position: (u32, u32), edge_type: EdgeType) -> GridElement {
    GridElement { id: "e".to_string(), position, path: 0, edge_type }
}

#[test]
fn outer_boundary_is_the_grid_edge() {
    let grid = Grid::new(2, 2, &vec![]);
    assert!(is_outer_boundary(&grid, &element((1, 1), EdgeType::North)));
    assert!(!is_outer_boundary(&grid, &element((1, 2), EdgeType::North)));
    assert!(is_outer_boundary(&grid, &element((2, 2), EdgeType::South)));
    assert!(is_outer_boundary(&grid, &element((2, 1), EdgeType::East)));
    assert!(!is_outer_boundary(&grid, &element((1, 1), EdgeType::East)));
    assert!(is_outer_boundary(&grid, &element((1, 2), EdgeType::West)));
    assert!(!is_outer_boundary(&grid, &element((1, 1), EdgeType::Northwest)));
}

#[test]
fn boundary_segments_follow_type_and_edge() {
    let base = vec![
        BaseElement { id: "h".to_string(), edge_type: EdgeType::North },
        BaseElement { id: "v".to_string(), edge_type: EdgeType::West },
        BaseElement { id: "m".to_string(), edge_type: EdgeType::NoEdge },
    ];
    let grid = Grid::new(2, 1, &base);
    let mut types = NameMap::new();
    for x in 1..=2u32 {
        types.insert(format!("{},1 : h", x), SegmentType::Horizontal);
        types.insert(format!("{},1 : v", x), SegmentType::Vertical);
        types.insert(format!("{},1 : m", x), SegmentType::Vertical);
    }
    let across_x = boundary_segments(&grid, &types, Axis::X);
    assert_eq!(across_x.to_vec(), strings(&["1,1 : v", "2,1 : v"]));
    let across_y = boundary_segments(&grid, &types, Axis::Y);
    assert_eq!(across_y.to_vec(), strings(&["1,1 : h", "2,1 : h"]));
    let untyped = boundary_segments(&grid, &NameMap::new(), Axis::X);
    assert!(untyped.is_empty());
}

#[test]
fn most_compatible_prefers_lit_then_compatible_then_first() {
    let (g, types) = line_graph();
    assert_eq!(find_most_compatible_segment("b", &g, &types, &set(&["c"])), Some("c".to_string()));
    assert_eq!(find_most_compatible_segment("b", &g, &types, &set(&[])), Some("a".to_string()));
    assert_eq!(find_most_compatible_segment("c", &g, &types, &set(&[])), Some("b".to_string()));
    assert_eq!(find_most_compatible_segment("zz", &g, &types, &set(&["a"])), None);
}

#[test]
fn segments_link_across_groups_only() {
    let (g, _) = line_graph();
    let groups = vec![strings(&["a", "b"]), strings(&["c"])];
    let links = identify_segment_connections(&groups, &g);
    assert_eq!(links.len(), 2);
    assert_eq!(links.get("b"), Some(&strings(&["c"])));
    assert_eq!(links.get("c"), Some(&strings(&["b"])));
    assert_eq!(links.get("a"), None);
    let same = vec![strings(&["a", "b", "c"])];
    assert_eq!(identify_segment_connections(&same, &g).len(), 0);
}
