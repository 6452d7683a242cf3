use glyphvis::effects::{fx_initialize, EffectsManager};
use glyphvis::glyph_model::GlyphModel;
use glyphvis::grid::{BaseElement, EdgeType, Grid};
use glyphvis::name_map::NameMap;
use glyphvis::order::{dedup_strings, sort_strings, str_le};
use glyphvis::output::{find_next_output_filename, first_free_output_name, output_file_name};
use glyphvis::project::{segments_of, GlyphController, Project, Show, ShowElement};
use glyphvis::segment::{segment_id, Glyph};
use glyphvis::text::{decimal_string, parse_u32, split_str, trim_str};

fn strings(v: &[&str]) -> Vec<String> {
    v.iter().map(|s| s.to_string()).collect()
}

fn glyph(name: &str, segments: &[&str]) -> Glyph {
    Glyph { name: name.to_string(), segments: strings(segments) }
}

fn project() -> Project {
    let mut glyphs = NameMap::new();
    glyphs.insert("b".to_string(), glyph("b", &["1,1 : h", "2,1 : v"]));
    glyphs.insert("a".to_string(), glyph("a", &["1,1 : v"]));
    let mut order = NameMap::new();
    order.insert(
        "0".to_string(),
        ShowElement { name: "b".to_string(), element_type: "glyph".to_string(), position: 0 },
    );
    order.insert(
        "1".to_string(),
        ShowElement { name: "missing".to_string(), element_type: "glyph".to_string(), position: 1 },
    );
    let mut shows = NameMap::new();
    shows.insert("show".to_string(), Show { name: "show".to_string(), show_order: order });
    Project { svg_base_tile: "tile.svg".to_string(), grid_x: 2, grid_y: 1, glyphs, shows }
}

#[test]
fn show_positions_give_glyph_segments() {
    let p = project();
    let c = GlyphController::new();
    let s = c.get_glyph_segments_by_index(&p, "show", 0);
    assert_eq!(s.len(), 2);
    assert!(s.contains("1,1 : h") && s.contains("2,1 : v"));
    assert!(c.get_glyph_segments_by_index(&p, "show", 1).is_empty());
    assert!(c.get_glyph_segments_by_index(&p, "show", 7).is_empty());
    assert!(c.get_glyph_segments_by_index(&p, "other", 0).is_empty());
    assert!(c.no_glyph().is_empty());
    assert!(c.get_show(&p, "show").is_some());
    assert!(c.get_glyph(&p, "zz").is_none());
}

#[test]
fn repeated_segments_count_once() {
    let s = segments_of(&glyph("g", &["x", "y", "x"]));
    assert_eq!(s.len(), 2);
}

#[test]
fn glyph_model_steps_in_name_order_and_wraps() {
    let p = project();
    let mut m = GlyphModel::new(&p);
    assert_eq!(m.glyph_count(), 2);
    assert_eq!(m.get_current_glyph(&p).unwrap().name, "a");
    m.next_glyph();
    assert_eq!(m.get_current_glyph(&p).unwrap().name, "b");
    assert_eq!(m.get_active_segments(&p).len(), 2);
    m.next_glyph();
    assert_eq!(m.get_current_glyph(&p).unwrap().name, "a");
}

#[test]
fn renderable_segments_are_the_lit_or_the_unlit() {
    let p = project();
    let mut m = GlyphModel::new(&p);
    m.next_glyph();
    let base = vec![
        BaseElement { id: "h".to_string(), edge_type: EdgeType::NoEdge },
        BaseElement { id: "v".to_string(), edge_type: EdgeType::West },
    ];
    let grid = Grid::new(2, 1, &base);
    let lit = m.get_renderable_segments(&p, &grid, false);
    let names: Vec<String> = lit.iter().map(|&k| grid.elements.key_at(k).clone()).collect();
    assert_eq!(names, strings(&["1,1 : h", "2,1 : v"]));
    let unlit = m.get_renderable_segments(&p, &grid, true);
    let names: Vec<String> = unlit.iter().map(|&k| grid.elements.key_at(k).clone()).collect();
    assert_eq!(names, strings(&["1,1 : v", "2,1 : h"]));
}

#[test]
fn effects_switch_on_and_off_and_finish() {
    let mut fx: EffectsManager<u32> = fx_initialize(5);
    assert!(fx.has_effect("pulse") && fx.is_active("pulse"));
    fx.add("glow".to_string(), 9);
    fx.deactivate("pulse");
    let active: Vec<u32> = fx.active_effects().into_iter().copied().collect();
    assert_eq!(active, vec![9]);
    fx.activate("pulse");
    let active: Vec<u32> = fx.active_effects().into_iter().copied().collect();
    assert_eq!(active, vec![5, 9]);
    fx.cleanup(|e: &u32| *e > 6);
    assert!(!fx.has_effect("glow"));
    assert!(fx.has_effect("pulse"));
    fx.remove("pulse");
    assert!(fx.active_effects().is_empty());
}

#[test]
fn flags_exist_only_for_held_effects() {
    let mut fx: EffectsManager<u32> = fx_initialize(5);
    fx.activate("ghost");
    assert!(!fx.has_effect("ghost") && !fx.is_active("ghost"));
    fx.remove("ghost");
    assert!(fx.has_effect("pulse") && fx.is_active("pulse"));
    fx.add("glow".to_string(), 9);
    fx.cleanup(|e: &u32| *e > 6);
    assert!(!fx.has_effect("glow") && !fx.is_active("glow"));
    fx.remove("pulse");
    assert!(!fx.has_effect("pulse") && !fx.is_active("pulse"));
}

#[test]
fn output_names_count_up() {
    assert_eq!(output_file_name(0), "output.mp4");
    assert_eq!(output_file_name(1), "output1.mp4");
    assert_eq!(output_file_name(42), "output42.mp4");
    assert_eq!(find_next_output_filename("/nonexistent/dir/for/glyphvis"), "output.mp4");
}

#[test]
fn the_first_free_output_name_is_chosen() {
    let taken = ["output.mp4", "output1.mp4", "output3.mp4"];
    assert_eq!(first_free_output_name(|name: &str| taken.contains(&name)), "output2.mp4");
    assert_eq!(first_free_output_name(|_: &str| false), "output.mp4");
    let mut asked = std::cell::RefCell::new(Vec::<String>::new());
    let name = first_free_output_name(|name: &str| {
        asked.borrow_mut().push(name.to_string());
        name != "output2.mp4"
    });
    assert_eq!(name, "output2.mp4");
    assert_eq!(asked.get_mut().clone(), vec!["output.mp4", "output1.mp4", "output2.mp4"]);
}

#[test]
fn strings_sort_and_dedup() {
    let mut v = strings(&["b", "a", "ab", "a", ""]);
    sort_strings(&mut v);
    assert_eq!(v, strings(&["", "a", "a", "ab", "b"]));
    assert_eq!(dedup_strings(&v), strings(&["", "a", "ab", "b"]));
    assert!(str_le("a", "ab"));
    assert!(!str_le("b", "ab"));
    assert!(str_le("x", "x"));
}

#[test]
fn segment_ids_parse_back() {
    let id = segment_id(3, 12, "arc-1");
    assert_eq!(id, "3,12 : arc-1");
    assert_eq!(Glyph::parse_segment(&id), Some((3, 12, "arc-1".to_string())));
    let g = glyph("g", &["1,2 : a", "bad", "3, 4 :  b "]);
    assert_eq!(g.get_parsed_segments(), vec![(1, 2, "a".to_string()), (3, 4, "b".to_string())]);
}

#[test]
fn text_helpers() {
    assert_eq!(trim_str("  x y \t"), "x y");
    assert_eq!(parse_u32("4294967295"), Some(u32::MAX));
    assert_eq!(parse_u32("4294967296"), None);
    assert_eq!(parse_u32(""), None);
    assert_eq!(parse_u32("+7"), Some(7));
    assert_eq!(decimal_string(0), "0");
    assert_eq!(decimal_string(1203), "1203");
    assert_eq!(split_str("a, b,,c", ","), strings(&["a", " b", "", "c"]));
}
