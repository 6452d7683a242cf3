use glyphvis::grid::{get_neighbor_coords, EdgeType};
use glyphvis::grid_init;
use glyphvis::segment::Glyph;

#[test]
fn test_parse_segment() {
    let segment = "1,2 : ver-3-1";
    let parsed = Glyph::parse_segment(segment);
    assert_eq!(parsed, Some((1, 2, "ver-3-1".to_string())));
}

#[test]
fn test_invalid_segment() {
    let segment = "1,2:ver-3-1";
    let parsed = Glyph::parse_segment(segment);
    assert_eq!(parsed, None);
}

#[test]
fn test_edge_type_equality() {
    assert_eq!(EdgeType::North, EdgeType::North);
    assert_ne!(EdgeType::North, EdgeType::South);
    assert_eq!(EdgeType::NoEdge, EdgeType::NoEdge);
}

#[test]
fn grid_service_test_get_neighbor_coords() {
    let tests = vec![
        // (x, y, edge_type, grid_width, grid_height, expected)
        (1, 1, EdgeType::North, 3, 3, Some((1, 0))),
        (1, 1, EdgeType::South, 3, 3, Some((1, 2))),
        (1, 1, EdgeType::East, 3, 3, Some((2, 1))),
        (1, 1, EdgeType::West, 3, 3, Some((0, 1))),
        (1, 1, EdgeType::Northwest, 3, 3, Some((0, 0))),
        (1, 1, EdgeType::Northeast, 3, 3, Some((2, 0))),
        (1, 1, EdgeType::Southwest, 3, 3, Some((0, 2))),
        (1, 1, EdgeType::Southeast, 3, 3, Some((2, 2))),
        (0, 0, EdgeType::West, 3, 3, None),
        (0, 0, EdgeType::North, 3, 3, None),
        (2, 2, EdgeType::South, 3, 3, None),
        (2, 2, EdgeType::East, 3, 3, None),
        (0, 0, EdgeType::Northwest, 3, 3, None),
        (2, 2, EdgeType::Southeast, 3, 3, None),
    ];

    for (x, y, edge_type, width, height, expected) in tests {
        let result = get_neighbor_coords(x, y, edge_type, width, height);
        assert_eq!(result, expected, "Failed for x:{}, y:{}, edge_type:{:?}", x, y, edge_type);
    }
}

#[test]
fn grid_init_test_get_neighbor_coords() {
    let tests = vec![
        // (x, y, edge_type, width, height, expected)
        (2, 2, EdgeType::North, 4, 4, Some((2, 1))),
        (2, 2, EdgeType::South, 4, 4, Some((2, 3))),
        (2, 2, EdgeType::East, 4, 4, Some((3, 2))),
        (2, 2, EdgeType::West, 4, 4, Some((1, 2))),
        (1, 1, EdgeType::West, 4, 4, None),
        (1, 1, EdgeType::North, 4, 4, None),
        (4, 4, EdgeType::South, 4, 4, None),
        (4, 4, EdgeType::East, 4, 4, None),
    ];

    for (x, y, edge_type, width, height, expected) in tests {
        let result = grid_init::get_neighbor_coords(x, y, edge_type, width, height);
        assert_eq!(result, expected, "Failed for x:{}, y:{}, edge_type:{:?}", x, y, edge_type);
    }
}

#[test]
fn test_get_neighbor_direction() {
    let tests = vec![
        ((1, 1), (1, 0), Some("North")),
        ((1, 1), (1, 2), Some("South")),
        ((1, 1), (2, 1), Some("East")),
        ((1, 1), (0, 1), Some("West")),
        ((1, 1), (2, 2), None), // Diagonal
    ];

    for ((x, y), (nx, ny), expected) in tests {
        let result = grid_init::get_neighbor_direction(x, y, nx, ny);
        assert_eq!(result, expected, "Failed for ({}, {}) -> ({}, {})", x, y, nx, ny);
    }
}

#[test]
fn grid_neighbor_direction_includes_diagonals() {
    assert_eq!(glyphvis::grid::get_neighbor_direction(1, 1, 2, 2), Some("Southeast"));
    assert_eq!(glyphvis::grid::get_neighbor_direction(1, 1, 0, 0), Some("Northwest"));
    assert_eq!(glyphvis::grid::get_neighbor_direction(1, 1, 3, 1), None);
}

#[test]
fn corners_have_no_straight_neighbour() {
    assert_eq!(grid_init::get_neighbor_coords(2, 2, EdgeType::Northwest, 4, 4), None);
    assert_eq!(grid_init::get_neighbor_coords(2, 2, EdgeType::NoEdge, 4, 4), None);
}

#[test]
fn viewbox_words_split_on_any_whitespace() {
    let words = grid_init::viewbox_words("  0 0\t100   100 ");
    assert_eq!(words, vec!["0", "0", "100", "100"]);
    assert!(grid_init::viewbox_words("   ").is_empty());
}
