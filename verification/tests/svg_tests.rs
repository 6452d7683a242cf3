use glyphvis::grid::PathKind;
use glyphvis::svg::{
    arc_fields, circle_numbers, element_lines, element_source, find_str, line_numbers, lines_of, parse_id,
    viewbox_fields, viewbox_text,
};

const TILE: &str = "<?xml version=\"1.0\"?>\r\n<svg id=\"tile\" viewBox=\"0 0 100 100\">\n  <path id=\"hor-1\" d=\"M 0,50 L 100,50\"/>\n  <circle id=\"dot\" cx=\"50\" cy=\"50\" r=\"5\"/>\n  <path d=\"M 0,0 L 1,1\"/>\n  <path id=\"arc-1\" d=\"M50,0A50,50 0 0,0 100,50\"/>\n</svg>\n";

#[test]
fn test_parse_line() {
    let d = "M 0,0 L 100,100";
    let numbers = line_numbers(d).unwrap();
    let values: Vec<f32> = numbers.iter().map(|n| n.parse::<f32>().unwrap()).collect();
    assert_eq!(values[0], 0.0);
    assert_eq!(values[1], 0.0);
    assert_eq!(values[2], 100.0);
    assert_eq!(values[3], 100.0);
}

#[test]
fn test_parse_circle() {
    let element = r#"<circle cx="50" cy="50" r="5" />"#;
    let numbers = circle_numbers(element).unwrap();
    let values: Vec<f32> = numbers.iter().map(|n| n.parse::<f32>().unwrap()).collect();
    assert_eq!(values[0], 50.0);
    assert_eq!(values[1], 50.0);
    assert_eq!(values[2], 5.0);
}

#[test]
fn test_parse_arc() {
    let d = "M50,0A50,50 0 0,0 100,50";
    let fields = arc_fields(d).unwrap();
    let values: Vec<f32> = fields.numbers.iter().map(|n| n.parse::<f32>().unwrap()).collect();
    assert_eq!(values[0], 50.0);
    assert_eq!(values[1], 0.0);
    assert_eq!(values[2], 50.0);
    assert_eq!(values[3], 50.0);
    assert!(!fields.large_arc);
    assert!(!fields.sweep);
    assert_eq!(values[5], 100.0);
    assert_eq!(values[6], 50.0);
}

#[test]
fn non_matching_paths_give_nothing() {
    assert!(line_numbers("M 0,0 Q 1,1").is_none());
    assert!(arc_fields("M 0,0 L 1,1").is_none());
    assert!(circle_numbers("<circle r=\"5\"/>").is_none());
}

#[test]
fn ids_are_read_from_the_first_id_attribute() {
    assert_eq!(parse_id("<path id=\"abc\" d=\"x\"/>"), Some("abc".to_string()));
    assert_eq!(parse_id("<path d=\"x\"/>"), None);
    assert_eq!(parse_id("<path id=\"open"), None);
    assert_eq!(parse_id("<path id=\"\"/>"), Some(String::new()));
}

#[test]
fn lines_split_like_str_lines() {
    assert_eq!(lines_of("a\r\nb\n\nc\n"), vec!["a", "b", "", "c"]);
    assert_eq!(lines_of("a\r"), vec!["a\r"]);
    assert!(lines_of("").is_empty());
    assert_eq!(lines_of("\n"), vec![""]);
}

#[test]
fn find_gives_the_first_position() {
    assert_eq!(find_str("abcabc", "ca"), Some(2));
    assert_eq!(find_str("abc", ""), Some(0));
    assert_eq!(find_str("abc", "abcd"), None);
}

#[test]
fn viewbox_is_found_and_split() {
    let text = viewbox_text(TILE).unwrap();
    assert_eq!(text, "0 0 100 100");
    assert_eq!(viewbox_fields(&text), vec!["0", "0", "100", "100"]);
    assert_eq!(viewbox_text("<svg viewBox=\"0 0 1 1\">"), None);
}

#[test]
fn element_lines_keep_identified_paths_and_circles() {
    let lines = element_lines(TILE);
    let ids: Vec<&str> = lines.iter().map(|(id, _)| id.as_str()).collect();
    assert_eq!(ids, vec!["hor-1", "dot", "arc-1"]);
    assert!(lines[0].1.contains("M 0,50"));
}

#[test]
fn element_sources_pick_the_shape() {
    let (kind, text) = element_source("<path id=\"hor-1\" d=\" M 0,50 L 100,50 \"/>").unwrap();
    assert_eq!(kind, PathKind::Line);
    assert_eq!(text, "M 0,50 L 100,50");
    let (kind, text) = element_source("<path id=\"arc-1\" d=\"M50,0A50,50 0 0,0 100,50\"/>").unwrap();
    assert_eq!(kind, PathKind::Arc);
    assert_eq!(text, "M50,0A50,50 0 0,0 100,50");
    let (kind, _) = element_source("<circle id=\"dot\" cx=\"1\" cy=\"2\" r=\"3\"/>").unwrap();
    assert_eq!(kind, PathKind::Circle);
    assert!(element_source("<path d=\"M 0,0 L 1,1\"/>").is_none());
    assert!(element_source("<path id=\"x\"/>").is_none());
}
