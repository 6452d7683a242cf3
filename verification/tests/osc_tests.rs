use glyphvis::osc::{decode_message, DecodedOf, F32Bits, OscArgOf, OscCommandOf, OscController, OscMessage};
use glyphvis::osc_encode::{
    create_grid_message, glyph_message, grid_slide_message, move_grid_message, next_glyph_message,
    recorder_start_message, set_power_effect_message, update_transition_config_message,
};

fn f(v: f32) -> F32Bits {
    F32Bits { bits: v.to_bits() }
}

fn s(v: &str) -> OscArgOf<String> {
    OscArgOf::Str(v.to_string())
}

#[test]
fn decodes_a_grid_move() {
    let args = vec![s("grid_1"), OscArgOf::Float(f(10.0)), OscArgOf::Float(f(-5.5)), OscArgOf::Float(f(2.0))];
    match decode_message("/grid/move", &args) {
        DecodedOf::Command(OscCommandOf::GridMove { name, x, y, duration }) => {
            assert_eq!(name, "grid_1");
            assert_eq!(f32::from_bits(x.bits), 10.0);
            assert_eq!(f32::from_bits(y.bits), -5.5);
            assert_eq!(f32::from_bits(duration.bits), 2.0);
        }
        other => panic!("unexpected {:?}", other),
    }
}

#[test]
fn wrong_argument_types_are_malformed() {
    let args = vec![s("grid_1"), OscArgOf::Int(10), OscArgOf::Float(f(1.0)), OscArgOf::Float(f(2.0))];
    assert!(matches!(decode_message("/grid/move", &args), DecodedOf::Malformed));
    assert!(matches!(decode_message("/grid/overwrite", &vec![]), DecodedOf::Malformed));
}

#[test]
fn unknown_address_is_reported() {
    assert!(matches!(decode_message("/nope", &vec![]), DecodedOf::UnknownAddress));
}

#[test]
fn settings_read_nonzero_as_on() {
    match decode_message("/grid/setvisibility", &vec![s("g"), OscArgOf::Int(7)]) {
        DecodedOf::Command(OscCommandOf::GridSetVisibility { grid_name, setting }) => {
            assert_eq!(grid_name, "g");
            assert!(setting);
        }
        other => panic!("unexpected {:?}", other),
    }
    match decode_message("/grid/setcolorful", &vec![s("g"), OscArgOf::Int(0)]) {
        DecodedOf::Command(OscCommandOf::GridSetColorful { setting, .. }) => assert!(!setting),
        other => panic!("unexpected {:?}", other),
    }
}

#[test]
fn transition_update_takes_what_is_there() {
    let args = vec![s("g"), OscArgOf::Int(12), OscArgOf::Float(f(0.5))];
    match decode_message("/transition/update", &args) {
        DecodedOf::Command(OscCommandOf::TransitionUpdate { grid_name, steps, frame_duration, wandering, density }) => {
            assert_eq!(grid_name, "g");
            assert_eq!(steps, Some(12));
            assert_eq!(frame_duration.map(|b| f32::from_bits(b.bits)), Some(0.5));
            assert!(wandering.is_none());
            assert!(density.is_none());
        }
        other => panic!("unexpected {:?}", other),
    }
}

#[test]
fn controller_queues_known_commands_and_reports_unknown_addresses() {
    let mut controller = OscController::new();
    let messages = vec![
        recorder_start_message(),
        OscMessage { addr: "/what".to_string(), args: vec![] },
        OscMessage { addr: "/grid/overwrite".to_string(), args: vec![] },
        next_glyph_message("grid_1", 2),
    ];
    let unknown = controller.process_messages(&messages);
    assert_eq!(unknown, vec!["/what".to_string()]);
    let commands = controller.take_commands();
    assert_eq!(commands.len(), 2);
    assert!(matches!(commands[0], OscCommandOf::RecorderStart {}));
    match &commands[1] {
        OscCommandOf::GridNextGlyph { grid_name, animation_type_msg } => {
            assert_eq!(grid_name, "grid_1");
            assert_eq!(*animation_type_msg, 2);
        }
        other => panic!("unexpected {:?}", other),
    }
    assert!(controller.take_commands().is_empty());
}

#[test]
fn encoded_messages_decode_back() {
    let m = create_grid_message("grid_1", "wesa", f(1.0), f(2.0), f(3.0));
    assert_eq!(m.addr, "/grid/create");
    match decode_message(&m.addr, &m.args) {
        DecodedOf::Command(OscCommandOf::GridCreate { name, show, position, rotation }) => {
            assert_eq!(name, "grid_1");
            assert_eq!(show, "wesa");
            assert_eq!(position, (f(1.0), f(2.0)));
            assert_eq!(rotation, f(3.0));
        }
        other => panic!("unexpected {:?}", other),
    }
    let m = grid_slide_message("g", "x", 2, f(50.0));
    assert!(matches!(decode_message(&m.addr, &m.args), DecodedOf::Command(OscCommandOf::GridSlide { number: 2, .. })));
    let m = glyph_message("g", 4, 1);
    assert!(matches!(
        decode_message(&m.addr, &m.args),
        DecodedOf::Command(OscCommandOf::GridGlyph { glyph_index: 4, animation_type_msg: 1, .. })
    ));
    let m = set_power_effect_message("g", 1);
    assert!(matches!(
        decode_message(&m.addr, &m.args),
        DecodedOf::Command(OscCommandOf::GridSetPowerEffect { setting: true, .. })
    ));
    let m = move_grid_message("g", f(0.0), f(0.0), f(0.0));
    assert!(matches!(decode_message(&m.addr, &m.args), DecodedOf::Command(OscCommandOf::GridMove { .. })));
    let m = update_transition_config_message("g", None, Some(f(0.25)), None, Some(f(0.75)));
    assert_eq!(m.args.len(), 3);
    match decode_message(&m.addr, &m.args) {
        DecodedOf::Command(OscCommandOf::TransitionUpdate { steps, frame_duration, wandering, density, .. }) => {
            // Values travel by position: with the step count missing, the
            // float in second place lands on the frame duration.
            assert_eq!(steps, None);
            assert_eq!(frame_duration, Some(f(0.75)));
            assert_eq!(wandering, None);
            assert_eq!(density, None);
        }
        other => panic!("unexpected {:?}", other),
    }
}
