use glyphvis::geometry::Axis;
use glyphvis::launcher::{launch_commands, ActionOf};
use glyphvis::osc::{F32Bits, OscCommandOf};
use glyphvis::segment_set::SegmentSet;
use glyphvis::transition::TransitionAnimationType;

fn f(v: f32) -> F32Bits {
    F32Bits { bits: v.to_bits() }
}

fn grids(names: &[&str]) -> SegmentSet {
    let mut s = SegmentSet::new();
    for n in names {
        s.insert(n.to_string());
    }
    s
}

#[test]
fn recorder_toggles_only_on_a_change() {
    let mut g = grids(&[]);
    let mut recording = false;
    let actions = launch_commands(
        vec![
            OscCommandOf::RecorderStart {},
            OscCommandOf::RecorderStart {},
            OscCommandOf::RecorderStop {},
            OscCommandOf::RecorderStop {},
        ],
        &mut g,
        &mut recording,
    );
    assert_eq!(actions.len(), 2);
    assert!(matches!(actions[0], ActionOf::ToggleRecording));
    assert!(matches!(actions[1], ActionOf::ToggleRecording));
    assert!(!recording);
}

#[test]
fn commands_for_unknown_grids_are_dropped() {
    let mut g = grids(&["main"]);
    let mut recording = false;
    let actions = launch_commands(
        vec![
            OscCommandOf::GridOverwrite { grid_name: "other".to_string() },
            OscCommandOf::GridOverwrite { grid_name: "main".to_string() },
        ],
        &mut g,
        &mut recording,
    );
    assert_eq!(actions.len(), 1);
    match &actions[0] {
        ActionOf::Overwrite { grid } => assert_eq!(grid, "main"),
        _ => panic!("expected an overwrite"),
    }
}

#[test]
fn a_created_grid_takes_later_commands() {
    let mut g = grids(&[]);
    let mut recording = false;
    let actions = launch_commands(
        vec![
            OscCommandOf::GridCreate {
                name: "g1".to_string(),
                show: "show".to_string(),
                position: (f(0.0), f(0.0)),
                rotation: f(0.0),
            },
            OscCommandOf::GridGlyph { grid_name: "g1".to_string(), glyph_index: 3, animation_type_msg: 2 },
            OscCommandOf::GridNextGlyph { grid_name: "g1".to_string(), animation_type_msg: 7 },
            OscCommandOf::GridNoGlyph { grid_name: "g1".to_string(), animation_type_msg: 0 },
        ],
        &mut g,
        &mut recording,
    );
    assert!(g.contains("g1"));
    assert_eq!(actions.len(), 4);
    assert!(matches!(actions[0], ActionOf::Forward(OscCommandOf::GridCreate { .. })));
    match &actions[1] {
        ActionOf::StageGlyph { grid, index, animation } => {
            assert_eq!(grid, "g1");
            assert_eq!(*index, 3);
            assert_eq!(*animation, TransitionAnimationType::Writing);
        }
        _ => panic!("expected a staged glyph"),
    }
    match &actions[2] {
        ActionOf::StageNextGlyph { animation, .. } => assert_eq!(*animation, TransitionAnimationType::Immediate),
        _ => panic!("expected the next glyph"),
    }
    match &actions[3] {
        ActionOf::StageEmptyGlyph { animation, .. } => assert_eq!(*animation, TransitionAnimationType::Random),
        _ => panic!("expected the empty glyph"),
    }
}

#[test]
fn a_slide_reads_its_axis() {
    let mut g = grids(&["main"]);
    let mut recording = false;
    let actions = launch_commands(
        vec![OscCommandOf::GridSlide { name: "main".to_string(), axis: "Y".to_string(), number: 2, distance: f(1.5) }],
        &mut g,
        &mut recording,
    );
    assert_eq!(actions.len(), 1);
    match &actions[0] {
        ActionOf::Slide { grid, axis, number, distance } => {
            assert_eq!(grid, "main");
            assert_eq!(*axis, Axis::Y);
            assert_eq!(*number, 2);
            assert_eq!(*distance, f(1.5));
        }
        _ => panic!("expected a slide"),
    }
}

#[test]
fn a_bad_axis_is_reported_and_ends_the_batch() {
    let mut g = grids(&["main"]);
    let mut recording = false;
    let actions = launch_commands(
        vec![
            OscCommandOf::GridSlide { name: "main".to_string(), axis: "z".to_string(), number: 0, distance: f(1.0) },
            OscCommandOf::RecorderStart {},
        ],
        &mut g,
        &mut recording,
    );
    assert_eq!(actions.len(), 1);
    match &actions[0] {
        ActionOf::Report(m) => assert_eq!(m, "Invalid axis: 'z'. Expected 'x' or 'y'"),
        _ => panic!("expected a report"),
    }
    assert!(!recording);
}

#[test]
fn commands_without_a_grid_are_forwarded() {
    let mut g = grids(&[]);
    let mut recording = true;
    let actions = launch_commands(
        vec![OscCommandOf::BackgroundFlash { r: f(1.0), g: f(0.0), b: f(0.0), duration: f(0.5) }],
        &mut g,
        &mut recording,
    );
    assert_eq!(actions.len(), 1);
    assert!(matches!(actions[0], ActionOf::Forward(OscCommandOf::BackgroundFlash { .. })));
    assert!(recording);
}

#[test]
fn settings_become_their_actions() {
    let mut g = grids(&["a"]);
    let mut recording = false;
    let name = || "a".to_string();
    let actions = launch_commands(
        vec![
            OscCommandOf::GridToggleVisibility { grid_name: name() },
            OscCommandOf::GridSetVisibility { grid_name: name(), setting: false },
            OscCommandOf::GridToggleColorful { grid_name: name() },
            OscCommandOf::GridSetColorful { grid_name: name(), setting: true },
            OscCommandOf::GridSetPowerEffect { grid_name: name(), setting: true },
            OscCommandOf::GridTransitionTrigger { grid_name: name() },
            OscCommandOf::GridTransitionAuto { grid_name: name() },
            OscCommandOf::GridRotate { name: name(), angle: f(90.0) },
        ],
        &mut g,
        &mut recording,
    );
    assert_eq!(actions.len(), 8);
    assert!(matches!(actions[0], ActionOf::ToggleVisibility { .. }));
    assert!(matches!(actions[1], ActionOf::SetVisibility { setting: false, .. }));
    assert!(matches!(actions[2], ActionOf::ToggleColorful { .. }));
    assert!(matches!(actions[3], ActionOf::SetColorful { setting: true, .. }));
    assert!(matches!(actions[4], ActionOf::SetPowerEffect { setting: true, .. }));
    assert!(matches!(actions[5], ActionOf::TriggerTransition { .. }));
    assert!(matches!(actions[6], ActionOf::AutoTransition { .. }));
    assert!(matches!(actions[7], ActionOf::Forward(OscCommandOf::GridRotate { .. })));
}

#[test]
fn axis_names_ignore_case() {
    assert_eq!(Axis::try_from("x"), Ok(Axis::X));
    assert_eq!(Axis::try_from("X"), Ok(Axis::X));
    assert_eq!(Axis::try_from("y"), Ok(Axis::Y));
    assert_eq!(Axis::try_from("xy"), Err("Invalid axis: 'xy'. Expected 'x' or 'y'".to_string()));
}

#[test]
fn a_grid_is_created_once_and_never_replaced() {
    let mut g = grids(&["main"]);
    let mut recording = false;
    let create = |name: &str, show: &str| OscCommandOf::GridCreate {
        name: name.to_string(),
        show: show.to_string(),
        position: (f(0.0), f(0.0)),
        rotation: f(0.0),
    };
    let actions = launch_commands(
        vec![create("main", "other show"), create("second", "show"), create("second", "show")],
        &mut g,
        &mut recording,
    );
    assert_eq!(actions.len(), 3);
    match &actions[0] {
        ActionOf::Report(m) => assert_eq!(m, "Grid already exists: main"),
        _ => panic!("expected a report"),
    }
    assert!(matches!(&actions[1], ActionOf::Forward(OscCommandOf::GridCreate { name, .. }) if name == "second"));
    match &actions[2] {
        ActionOf::Report(m) => assert_eq!(m, "Grid already exists: second"),
        _ => panic!("expected a report"),
    }
    assert!(g.contains("main"));
    assert!(g.contains("second"));
    assert_eq!(g.len(), 2);
}
