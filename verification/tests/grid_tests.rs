use glyphvis::grid::{
    alignment_rule, edge_types_match, get_elements_at, get_neighbor_direction, match_candidates, opposite_edge,
    AlignmentRule, BaseElement, EdgeType, Grid, GridElement, PathKind,
};
use glyphvis::grid_init::check_segment_alignment;
use glyphvis::name_map::NameMap;
use glyphvis::segment::segment_id;

fn element(id: &str, position: (u32, u32), path: usize, edge_type: EdgeType) -> GridElement {
    GridElement { id: id.to_string(), position, path, edge_type }
}

fn create_test_elements() -> NameMap<GridElement> {
    let mut elements = NameMap::new();
    elements.insert("0,0 : test1".to_string(), element("test1", (0, 0), 0, EdgeType::North));
    elements.insert("0,0 : test2".to_string(), element("test2", (0, 0), 1, EdgeType::Northwest));
    elements.insert("1,0 : test3".to_string(), element("test3", (1, 0), 0, EdgeType::North));
    elements
}

#[test]
fn test_get_elements_at() {
    let elements = create_test_elements();
    assert_eq!(get_elements_at(&elements, 0, 0).len(), 2);
    assert_eq!(get_elements_at(&elements, 1, 0).len(), 1);
    assert_eq!(get_elements_at(&elements, 2, 2).len(), 0);
}

/// The coordinates of the lines the tests use, by path number.
fn lines() -> Vec<(f32, f32, f32, f32)> {
    vec![(0.0, 0.0, 100.0, 0.0), (100.0, 0.0, 100.0, 50.0), (0.0, 0.0, 0.0, 50.0)]
}

/// Whether two lines coincide under `rule`.
fn lines_align(rule: AlignmentRule, a: (f32, f32, f32, f32), b: (f32, f32, f32, f32)) -> bool {
    match rule {
        AlignmentRule::LineXs => (a.0 == b.0 && a.2 == b.2) || (a.0 == b.2 && a.2 == b.0),
        AlignmentRule::LineYs => (a.1 == b.1 && a.3 == b.3) || (a.1 == b.3 && a.3 == b.1),
        AlignmentRule::Always => true,
        _ => false,
    }
}

/// Whether an element is drawn: unless a candidate across its edge lines up.
fn should_draw(element: &GridElement, width: u32, height: u32, elements: &NameMap<GridElement>) -> bool {
    let paths = lines();
    match match_candidates(element, width, height, elements) {
        None => true,
        Some((candidates, direction)) => !candidates.iter().any(|&k| {
            let other = elements.value_at(k);
            let rule = alignment_rule(PathKind::Line, element.edge_type, PathKind::Line, other.edge_type, direction);
            lines_align(rule, paths[element.path], paths[other.path])
        }),
    }
}

#[test]
fn test_should_draw_element() {
    let mut elements = create_test_elements();
    let element1 = element("edge1", (0, 0), 1, EdgeType::East);
    elements.insert("0,0 : edge1".to_string(), element("edge1", (0, 0), 1, EdgeType::East));
    elements.insert("1,0 : edge2".to_string(), element("edge2", (1, 0), 2, EdgeType::West));
    assert!(!should_draw(&element1, 2, 2, &elements));
    let solo = element("solo", (0, 0), 2, EdgeType::West);
    assert!(should_draw(&solo, 2, 2, &elements));
}

#[test]
fn candidates_lie_across_the_edge() {
    let mut elements = NameMap::new();
    elements.insert("a".to_string(), element("a", (0, 0), 0, EdgeType::East));
    elements.insert("b".to_string(), element("b", (1, 0), 0, EdgeType::West));
    elements.insert("c".to_string(), element("c", (1, 0), 0, EdgeType::North));
    let (candidates, direction) = match_candidates(elements.value_at(0), 2, 1, &elements).unwrap();
    assert_eq!(candidates, vec![1]);
    assert_eq!(direction, Some("East"));
    let (back, direction) = match_candidates(elements.value_at(1), 2, 1, &elements).unwrap();
    assert_eq!(back, vec![0]);
    assert_eq!(direction, Some("West"));
    assert!(match_candidates(elements.value_at(2), 2, 1, &elements).is_none());
    // Nothing lies west of the first column.
    let edge = element("w", (0, 0), 0, EdgeType::West);
    assert!(match_candidates(&edge, 2, 1, &elements).is_none());
}

#[test]
fn alignment_rules() {
    let d = get_neighbor_direction(1, 1, 2, 1);
    assert_eq!(alignment_rule(PathKind::Line, EdgeType::East, PathKind::Line, EdgeType::West, d), AlignmentRule::LineYs);
    let d = get_neighbor_direction(1, 1, 1, 2);
    assert_eq!(alignment_rule(PathKind::Line, EdgeType::South, PathKind::Line, EdgeType::North, d), AlignmentRule::LineXs);
    assert_eq!(alignment_rule(PathKind::Circle, EdgeType::South, PathKind::Circle, EdgeType::North, d), AlignmentRule::CircleX);
    let d = get_neighbor_direction(1, 1, 2, 1);
    assert_eq!(
        alignment_rule(PathKind::Circle, EdgeType::Southeast, PathKind::Circle, EdgeType::Southwest, d),
        AlignmentRule::CircleY
    );
    let d = get_neighbor_direction(1, 1, 2, 2);
    assert_eq!(
        alignment_rule(PathKind::Circle, EdgeType::Southeast, PathKind::Circle, EdgeType::Northwest, d),
        AlignmentRule::Always
    );
    assert_eq!(alignment_rule(PathKind::Arc, EdgeType::East, PathKind::Arc, EdgeType::West, d), AlignmentRule::Never);
    assert_eq!(alignment_rule(PathKind::Line, EdgeType::East, PathKind::Line, EdgeType::East, d), AlignmentRule::Never);
    assert_eq!(alignment_rule(PathKind::Line, EdgeType::NoEdge, PathKind::Line, EdgeType::NoEdge, d), AlignmentRule::Never);
}

/// Whether two circle centres coincide under `rule`.
fn circles_align(rule: AlignmentRule, a: (f32, f32), b: (f32, f32)) -> bool {
    match rule {
        AlignmentRule::CircleX => a.0 == b.0,
        AlignmentRule::CircleY => a.1 == b.1,
        AlignmentRule::Always => true,
        _ => false,
    }
}

#[test]
fn test_check_segment_alignment() {
    let rule = check_segment_alignment(PathKind::Line, EdgeType::North, PathKind::Line, EdgeType::South, Some("North"));
    assert_eq!(rule, AlignmentRule::LineXs);
    assert!(lines_align(rule, (0.0, 0.0, 10.0, 0.0), (0.0, 0.0, 10.0, 0.0)));
}

#[test]
fn test_segment_alignment_mismatches() {
    let rule = check_segment_alignment(PathKind::Line, EdgeType::North, PathKind::Line, EdgeType::South, Some("North"));
    assert!(!lines_align(rule, (0.0, 0.0, 50.0, 0.0), (25.0, 0.0, 75.0, 0.0)));
    let rule = check_segment_alignment(PathKind::Circle, EdgeType::North, PathKind::Circle, EdgeType::South, Some("North"));
    assert!(!circles_align(rule, (0.0, 0.0), (10.0, 0.0)));
    let rule = check_segment_alignment(PathKind::Line, EdgeType::East, PathKind::Line, EdgeType::West, Some("East"));
    assert!(!lines_align(rule, (100.0, 0.0, 100.0, 50.0), (0.0, 25.0, 0.0, 75.0)));
}

#[test]
fn opposite_edges_and_matching() {
    assert_eq!(opposite_edge(EdgeType::North), EdgeType::South);
    assert_eq!(opposite_edge(EdgeType::Northeast), EdgeType::Southwest);
    assert_eq!(opposite_edge(EdgeType::NoEdge), EdgeType::NoEdge);
    assert!(edge_types_match(EdgeType::Northwest, EdgeType::Northeast, Some("West")));
    assert!(!edge_types_match(EdgeType::Northwest, EdgeType::Northeast, Some("North")));
}

#[test]
fn grid_files_every_base_element_on_every_tile() {
    let base = vec![
        BaseElement { id: "hor".to_string(), edge_type: EdgeType::North },
        BaseElement { id: "dot".to_string(), edge_type: EdgeType::Northwest },
    ];
    let grid = Grid::new(3, 2, &base);
    assert_eq!(grid.width, 3);
    assert_eq!(grid.height, 2);
    assert_eq!(grid.elements.len(), 12);
    assert_eq!(grid.elements.key_at(0), "1,1 : hor");
    assert_eq!(grid.elements.key_at(1), "1,1 : dot");
    assert_eq!(grid.elements.key_at(2), "2,1 : hor");
    assert_eq!(grid.elements.key_at(11), "3,2 : dot");
    let e = grid.elements.get("2,2 : dot").unwrap();
    assert_eq!(e.position, (2, 2));
    assert_eq!(e.path, 1);
    assert_eq!(e.edge_type, EdgeType::Northwest);
    assert_eq!(grid.get_elements_at(3, 2), vec![10, 11]);
    assert_eq!(segment_id(12, 3, "x"), "12,3 : x");
}

#[test]
fn a_repeated_base_id_keeps_the_later_element() {
    let base = vec![
        BaseElement { id: "same".to_string(), edge_type: EdgeType::North },
        BaseElement { id: "same".to_string(), edge_type: EdgeType::South },
    ];
    let grid = Grid::new(1, 1, &base);
    assert_eq!(grid.elements.len(), 1);
    let e = grid.elements.get("1,1 : same").unwrap();
    assert_eq!(e.path, 1);
    assert_eq!(e.edge_type, EdgeType::South);
}

/// Whether two lines on the given edges of neighbouring tiles coincide.
fn line_paths_align(edge1: EdgeType, a: (f32, f32, f32, f32), edge2: EdgeType, b: (f32, f32, f32, f32), direction: Option<&str>) -> bool {
    lines_align(alignment_rule(PathKind::Line, edge1, PathKind::Line, edge2, direction), a, b)
}

/// Whether two circles on the given edges of neighbouring tiles coincide.
fn circle_paths_align(edge1: EdgeType, a: (f32, f32), edge2: EdgeType, b: (f32, f32), direction: Option<&str>) -> bool {
    circles_align(alignment_rule(PathKind::Circle, edge1, PathKind::Circle, edge2, direction), a, b)
}

// The edges below are those of the shapes on a 100 by 100 view box: a
// shape on x = 100 lies on the east edge, on y = 100 on the south edge.

#[test]
fn test_line_east_west_alignment() {
    let path1 = (100.0, 50.0, 100.0, 0.0);
    let path2 = (0.0, 0.0, 0.0, 50.0);
    let direction = get_neighbor_direction(1, 1, 2, 1);
    assert!(line_paths_align(EdgeType::East, path1, EdgeType::West, path2, direction));
}

#[test]
fn test_line_north_south_alignment() {
    let path1 = (50.0, 100.0, 0.0, 100.0);
    let path2 = (0.0, 0.0, 50.0, 0.0);
    let direction = get_neighbor_direction(1, 1, 1, 2);
    assert!(line_paths_align(EdgeType::South, path1, EdgeType::North, path2, direction));
}

#[test]
fn test_circle_edge_alignment() {
    let circle1 = (50.0, 100.0);
    let circle2 = (50.0, 0.0);
    let direction = get_neighbor_direction(1, 1, 1, 2);
    assert!(circle_paths_align(EdgeType::South, circle1, EdgeType::North, circle2, direction));
}

#[test]
fn test_circle_corner_alignment() {
    let circle1 = (100.0, 100.0);
    let circle2 = (0.0, 100.0);
    let direction = get_neighbor_direction(1, 1, 2, 1);
    assert!(circle_paths_align(EdgeType::Southeast, circle1, EdgeType::Southwest, circle2, direction));
}

#[test]
fn test_misaligned_paths() {
    let circle1 = (50.0, 100.0);
    let circle2 = (40.0, 0.0);
    let direction = get_neighbor_direction(1, 1, 1, 2);
    assert!(!circle_paths_align(EdgeType::South, circle1, EdgeType::North, circle2, direction));
    let line1 = (100.0, 50.0, 100.0, 0.0);
    let line2 = (0.0, 50.0, 0.0, 10.0);
    let direction = get_neighbor_direction(1, 1, 2, 1);
    assert!(!line_paths_align(EdgeType::East, line1, EdgeType::West, line2, direction));
}
