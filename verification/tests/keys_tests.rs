use glyphvis::keys::{key_pressed, Key};
use glyphvis::osc::{F32Bits, OscArgOf, OscMessage};

fn f(v: f32) -> F32Bits {
    F32Bits { bits: v.to_bits() }
}

fn names(ns: &[&str]) -> Vec<String> {
    ns.iter().map(|s| s.to_string()).collect()
}

fn arg_str(m: &OscMessage, i: usize) -> String {
    match &m.args[i] {
        OscArgOf::Str(s) => s.clone(),
        other => panic!("expected a string, got {:?}", other),
    }
}

fn arg_int(m: &OscMessage, i: usize) -> i32 {
    match &m.args[i] {
        OscArgOf::Int(v) => *v,
        other => panic!("expected an int, got {:?}", other),
    }
}

fn arg_float(m: &OscMessage, i: usize) -> f32 {
    match &m.args[i] {
        OscArgOf::Float(v) => f32::from_bits(v.bits),
        other => panic!("expected a float, got {:?}", other),
    }
}

#[test]
fn space_writes_the_next_glyph_on_every_grid() {
    let r = key_pressed(Key::Space, &names(&["grid_1", "grid_2"]), false, &vec![]);
    assert_eq!(r.messages.len(), 2);
    for (m, n) in r.messages.iter().zip(["grid_1", "grid_2"]) {
        assert_eq!(m.addr, "/grid/nextglyph");
        assert_eq!(arg_str(m, 0), n);
        assert_eq!(arg_int(m, 1), 2);
    }
    assert!(!r.quit && !r.toggle_debug && !r.boundary_test);
}

#[test]
fn slides_move_fifty_units_along_their_axis() {
    let r = key_pressed(Key::Key3, &names(&["a"]), false, &vec![]);
    assert_eq!(r.messages.len(), 1);
    let m = &r.messages[0];
    assert_eq!(m.addr, "/grid/slide");
    assert_eq!(arg_str(m, 1), "y");
    assert_eq!(arg_int(m, 2), 2);
    assert_eq!(arg_float(m, 3), 50.0);
    let r = key_pressed(Key::Key6, &names(&["a"]), false, &vec![]);
    let m = &r.messages[0];
    assert_eq!(arg_str(m, 1), "x");
    assert_eq!(arg_float(m, 3), -50.0);
}

#[test]
fn g_creates_three_test_grids_when_there_are_none() {
    let r = key_pressed(Key::G, &vec![], false, &vec![]);
    assert_eq!(r.messages.len(), 6);
    assert_eq!(r.messages[0].addr, "/grid/create");
    assert_eq!(arg_str(&r.messages[0], 0), "grid_1");
    assert_eq!(arg_str(&r.messages[0], 1), "wesa");
    assert_eq!(arg_str(&r.messages[2], 0), "grid_3");
    assert_eq!(r.messages[5].addr, "/grid/togglevisibility");
    let r = key_pressed(Key::G, &names(&["g"]), false, &vec![]);
    assert_eq!(r.messages.len(), 1);
    assert_eq!(r.messages[0].addr, "/grid/togglevisibility");
}

#[test]
fn h_and_shift_single_out_grid_2() {
    let grids = names(&["grid_1", "grid_2", "grid_3"]);
    let r = key_pressed(Key::H, &grids, false, &vec![]);
    let targets: Vec<String> = r.messages.iter().map(|m| arg_str(m, 0)).collect();
    assert_eq!(targets, vec!["grid_1".to_string(), "grid_3".to_string()]);
    let r = key_pressed(Key::RShift, &grids, false, &vec![]);
    assert_eq!(r.messages.len(), 1);
    assert_eq!(r.messages[0].addr, "/grid/transitiontrigger");
    assert_eq!(arg_str(&r.messages[0], 0), "grid_2");
    let r = key_pressed(Key::LShift, &grids, false, &vec![]);
    assert_eq!(r.messages[0].addr, "/grid/transitionauto");
}

#[test]
fn i_sends_the_drawn_colours() {
    let grids = names(&["grid_1", "grid_2", "grid_3"]);
    let colors = vec![(f(0.1), f(0.2), f(0.3)), (f(0.4), f(0.5), f(0.6)), (f(0.7), f(0.8), f(0.9))];
    let r = key_pressed(Key::I, &grids, false, &colors);
    assert_eq!(r.messages.len(), 2);
    assert_eq!(r.messages[1].addr, "/grid/instantglyphcolor");
    assert_eq!(arg_str(&r.messages[1], 0), "grid_3");
    assert_eq!(arg_float(&r.messages[1], 1), 0.7);
    assert_eq!(arg_float(&r.messages[1], 4), 1.0);
}

#[test]
fn r_follows_the_recorder() {
    let r = key_pressed(Key::R, &vec![], false, &vec![]);
    assert_eq!(r.messages[0].addr, "/recorder/start");
    let r = key_pressed(Key::R, &vec![], true, &vec![]);
    assert_eq!(r.messages[0].addr, "/recorder/stop");
    assert!(r.messages[0].args.is_empty());
}

#[test]
fn direct_keys_send_nothing() {
    let r = key_pressed(Key::Z, &names(&["a"]), false, &vec![]);
    assert!(r.boundary_test && r.messages.is_empty());
    let r = key_pressed(Key::P, &names(&["a"]), false, &vec![]);
    assert!(r.toggle_debug && r.messages.is_empty());
    let r = key_pressed(Key::Q, &names(&["a"]), false, &vec![]);
    assert!(r.quit && r.messages.is_empty());
    let r = key_pressed(Key::D, &names(&["a"]), false, &vec![]);
    assert!(r.messages.is_empty() && !r.quit);
}

#[test]
fn background_keys() {
    let r = key_pressed(Key::B, &vec![], false, &vec![]);
    assert_eq!(r.messages[0].addr, "/background/flash");
    assert_eq!(arg_float(&r.messages[0], 3), 0.1);
    let r = key_pressed(Key::Comma, &vec![], false, &vec![]);
    assert_eq!(r.messages[0].addr, "/background/color_fade");
    assert_eq!(arg_float(&r.messages[0], 0), 0.6);
    assert_eq!(arg_float(&r.messages[0], 3), 10.0);
    let r = key_pressed(Key::Right, &vec![], false, &vec![]);
    assert_eq!(arg_str(&r.messages[0], 0), "grid_3");
    assert_eq!(arg_float(&r.messages[0], 1), 700.0);
}
