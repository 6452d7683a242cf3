use glyphvis::segment_graph::{neighbor_positions, SegmentGraph};
use glyphvis::segment_set::SegmentSet;

/// Connects every segment to the candidates that share an endpoint with
/// it, as the renderer does with the segments' draw commands.
fn connect(graph: &mut SegmentGraph, endpoints: &[(&str, Vec<(f32, f32)>)]) {
    for (id, points) in endpoints {
        let candidates = graph.connection_candidates(id);
        let mut connected = Vec::new();
        for candidate in candidates {
            let other = endpoints.iter().find(|(other_id, _)| *other_id == candidate.as_str()).unwrap();
            for p1 in points {
                for p2 in &other.1 {
                    let d = ((p1.0 - p2.0).powi(2) + (p1.1 - p2.1).powi(2)).sqrt();
                    if d <= 0.001 {
                        connected.push(candidate.clone());
                    }
                }
            }
        }
        graph.set_connections(id, connected);
    }
}

fn create_test_graph() -> SegmentGraph {
    let mut graph = SegmentGraph::new();
    graph.add_segment("A".to_string(), (1, 1));
    graph.add_segment("B".to_string(), (1, 1));
    graph.add_segment("C".to_string(), (1, 1));
    let endpoints = vec![
        ("A", vec![(0.0, 50.0), (28.0, 50.0)]),
        ("B", vec![(28.0, 50.0), (68.0, 50.0)]),
        ("C", vec![(68.0, 50.0), (100.0, 50.0)]),
    ];
    connect(&mut graph, &endpoints);
    graph
}

fn create_complex_test_graph() -> SegmentGraph {
    let mut graph = SegmentGraph::new();
    for id in ["H1", "H2", "V", "A1"] {
        graph.add_segment(id.to_string(), (1, 1));
    }
    let arc_points: Vec<(f32, f32)> = (0..=10)
        .map(|i| {
            let t = i as f32 / 10.0;
            let radius = 50.0f32;
            let x = t * radius;
            let y = 50.0 + (radius * radius - x * x).sqrt();
            (x, y)
        })
        .collect();
    let endpoints = vec![
        ("H1", vec![(0.0, 50.0), (48.0, 50.0)]),
        ("H2", vec![(50.0, 50.0), (100.0, 50.0)]),
        ("V", vec![(52.0, 50.0), (50.0, 50.0)]),
        ("A1", vec![arc_points[0], arc_points[10]]),
    ];
    connect(&mut graph, &endpoints);
    graph
}

#[test]
fn test_simple_segment_connections() {
    let graph = create_test_graph();

    let node_a = graph.get_node("A").unwrap();
    assert_eq!(node_a.connections.len(), 1);
    assert_eq!(node_a.connections[0].segment_id, "B");

    let node_b = graph.get_node("B").unwrap();
    assert_eq!(node_b.connections.len(), 2);

    let node_c = graph.get_node("C").unwrap();
    assert_eq!(node_c.connections.len(), 1);
    assert_eq!(node_c.connections[0].segment_id, "B");
}

#[test]
fn test_simple_path_finding() {
    let graph = create_test_graph();

    let path = graph.find_path("A", "C").unwrap();
    assert_eq!(path, vec!["A", "B", "C"]);

    let path = graph.find_path("C", "A").unwrap();
    assert_eq!(path, vec!["C", "B", "A"]);
}

/// On the T-junction, H1 stops at (48, 50) and meets nothing, while H2, V
/// and the arc A1 all end at (50, 50), so each of those three meets the
/// other two.
#[test]
fn t_junction_connections_follow_shared_endpoints() {
    let graph = create_complex_test_graph();
    assert_eq!(graph.get_node("H1").unwrap().connections.len(), 0);
    assert_eq!(graph.get_node("H2").unwrap().connections.len(), 2);
    assert_eq!(graph.get_node("V").unwrap().connections.len(), 2);
    assert_eq!(graph.get_node("A1").unwrap().connections.len(), 2);
}

#[test]
fn test_complex_path_finding() {
    let graph = create_complex_test_graph();

    let path = graph.find_path("H2", "A1").unwrap();
    assert_eq!(path.len(), 2);

    let path = graph.find_path("A1", "V").unwrap();
    assert!(path.len() <= 3);
}

#[test]
fn path_to_itself_and_to_unreachable() {
    let graph = create_complex_test_graph();
    assert_eq!(graph.find_path("H1", "H1").unwrap(), vec!["H1"]);
    assert_eq!(graph.find_path("H1", "V"), None);
    assert_eq!(graph.find_path("missing", "V"), None);
    assert_eq!(graph.find_path("missing", "missing").unwrap(), vec!["missing"]);
}

#[test]
fn neighbours_in_connection_order() {
    let graph = create_test_graph();
    assert_eq!(graph.get_neighbors("B"), vec!["A", "C"]);
    assert!(graph.get_neighbors("nothing").is_empty());
}

#[test]
fn candidates_come_from_the_tile_and_its_four_neighbours() {
    let mut graph = SegmentGraph::new();
    graph.add_segment("here".to_string(), (1, 1));
    graph.add_segment("also_here".to_string(), (1, 1));
    graph.add_segment("right".to_string(), (2, 1));
    graph.add_segment("below".to_string(), (1, 0));
    graph.add_segment("diagonal".to_string(), (2, 2));
    graph.add_segment("far".to_string(), (5, 5));
    assert_eq!(graph.connection_candidates("here"), vec!["also_here", "right", "below"]);
    assert!(graph.connection_candidates("unknown").is_empty());
    // At the edge of the range a neighbour falls back onto the tile itself.
    assert_eq!(neighbor_positions(0, 3), vec![(0, 3), (1, 3), (0, 3), (0, 4), (0, 2)]);
    let mut corner = SegmentGraph::new();
    corner.add_segment("a".to_string(), (0, 0));
    corner.add_segment("b".to_string(), (0, 0));
    assert_eq!(corner.connection_candidates("a"), vec!["b", "b", "b"]);
}

#[test]
fn nearest_member_is_found_breadth_first() {
    let graph = create_test_graph();
    let mut lit = SegmentSet::new();
    lit.insert("C".to_string());
    lit.insert("B".to_string());
    assert_eq!(graph.nearest_member("A", &lit), Some("B".to_string()));
    let mut only_self = SegmentSet::new();
    only_self.insert("A".to_string());
    assert_eq!(graph.nearest_member("A", &only_self), None);
}

#[test]
fn paths_and_nearest_members_take_the_fewest_connections() {
    let mut g = SegmentGraph::new();
    for id in ["a", "b", "c", "d", "e"] {
        g.add_segment(id.to_string(), (0, 0));
    }
    let link = |v: &[&str]| v.iter().map(|s| s.to_string()).collect::<Vec<String>>();
    g.set_connections("a", link(&["b", "e"]));
    g.set_connections("b", link(&["c"]));
    g.set_connections("c", link(&["d"]));
    g.set_connections("e", link(&["d"]));
    assert_eq!(g.find_path("a", "d"), Some(link(&["a", "e", "d"])));
    let mut lit = SegmentSet::new();
    lit.insert("c".to_string());
    lit.insert("e".to_string());
    assert_eq!(g.nearest_member("a", &lit), Some("e".to_string()));
}
