//! Encoding commands as OSC messages, as the application's own sender does
//! (the keyboard shortcuts drive the application through it), and the law
//! that the decoder reads every such message back as the command it came
//! from.

use vstd::prelude::*;
use crate::osc::{
    args_view, decode_spec, ArgView, CommandView, DecodedOf, F32Bits, OscArg, OscArgOf,
    OscCommandOf, OscMessage,
};

verus! {

pub open spec fn s_arg(s: Seq<char>) -> ArgView {
    OscArgOf::Str(s)
}

pub open spec fn f_arg(f: F32Bits) -> ArgView {
    OscArgOf::Float(f)
}

pub open spec fn i_arg(i: i32) -> ArgView {
    OscArgOf::Int(i)
}

/// The optional trailing arguments of `/transition/update`: each value
/// that is present, in order.
pub open spec fn transition_update_args(
    steps: Option<usize>,
    frame_duration: Option<F32Bits>,
    wandering: Option<F32Bits>,
    density: Option<F32Bits>,
) -> Seq<ArgView> {
    (match steps {
        Some(s) => seq![i_arg(s as i32)],
        None => Seq::empty(),
    }) + (match frame_duration {
        Some(f) => seq![f_arg(f)],
        None => Seq::empty(),
    }) + (match wandering {
        Some(f) => seq![f_arg(f)],
        None => Seq::empty(),
    }) + (match density {
        Some(f) => seq![f_arg(f)],
        None => Seq::empty(),
    })
}

/// The OSC message (address and arguments) that carries a command.
pub open spec fn encode_spec(c: CommandView) -> (Seq<char>, Seq<ArgView>) {
    match c {
        OscCommandOf::RecorderStart {  } => ("/recorder/start"@, Seq::<ArgView>::empty()),
        OscCommandOf::RecorderStop {  } => ("/recorder/stop"@, Seq::<ArgView>::empty()),
        OscCommandOf::GridBackboneFade { name, r, g, b, a, duration } => (
            "/grid/backbone_fade"@,
            seq![s_arg(name), f_arg(r), f_arg(g), f_arg(b), f_arg(a), f_arg(duration)],
        ),
        OscCommandOf::GridCreate { name, show, position, rotation } => (
            "/grid/create"@,
            seq![s_arg(name), s_arg(show), f_arg(position.0), f_arg(position.1), f_arg(rotation)],
        ),
        OscCommandOf::GridMove { name, x, y, duration } => (
            "/grid/move"@,
            seq![s_arg(name), f_arg(x), f_arg(y), f_arg(duration)],
        ),
        OscCommandOf::GridRotate { name, angle } => (
            "/grid/rotate"@,
            seq![s_arg(name), f_arg(angle)],
        ),
        OscCommandOf::GridScale { name, scale } => ("/grid/scale"@, seq![s_arg(name), f_arg(scale)]),
        OscCommandOf::GridSlide { name, axis, number, distance } => (
            "/grid/slide"@,
            seq![s_arg(name), s_arg(axis), i_arg(number), f_arg(distance)],
        ),
        OscCommandOf::BackgroundFlash { r, g, b, duration } => (
            "/background/flash"@,
            seq![f_arg(r), f_arg(g), f_arg(b), f_arg(duration)],
        ),
        OscCommandOf::BackgroundColorFade { r, g, b, duration } => (
            "/background/color_fade"@,
            seq![f_arg(r), f_arg(g), f_arg(b), f_arg(duration)],
        ),
        OscCommandOf::GridGlyph { grid_name, glyph_index, animation_type_msg } => (
            "/grid/glyph"@,
            seq![s_arg(grid_name), i_arg(glyph_index as i32), i_arg(animation_type_msg)],
        ),
        OscCommandOf::GridInstantGlyphColor { grid_name, r, g, b, a } => (
            "/grid/instantglyphcolor"@,
            seq![s_arg(grid_name), f_arg(r), f_arg(g), f_arg(b), f_arg(a)],
        ),
        OscCommandOf::GridNextGlyph { grid_name, animation_type_msg } => (
            "/grid/nextglyph"@,
            seq![s_arg(grid_name), i_arg(animation_type_msg)],
        ),
        OscCommandOf::GridNextGlyphColor { grid_name, r, g, b, a } => (
            "/grid/nextglyphcolor"@,
            seq![s_arg(grid_name), f_arg(r), f_arg(g), f_arg(b), f_arg(a)],
        ),
        OscCommandOf::GridNoGlyph { grid_name, animation_type_msg } => (
            "/grid/noglyph"@,
            seq![s_arg(grid_name), i_arg(animation_type_msg)],
        ),
        OscCommandOf::GridOverwrite { grid_name } => ("/grid/overwrite"@, seq![s_arg(grid_name)]),
        OscCommandOf::GridToggleVisibility { grid_name } => (
            "/grid/togglevisibility"@,
            seq![s_arg(grid_name)],
        ),
        OscCommandOf::GridSetVisibility { grid_name, setting } => (
            "/grid/setvisibility"@,
            seq![s_arg(grid_name), i_arg(if setting { 1 } else { 0 })],
        ),
        OscCommandOf::GridToggleColorful { grid_name } => (
            "/grid/togglecolorful"@,
            seq![s_arg(grid_name)],
        ),
        OscCommandOf::GridSetColorful { grid_name, setting } => (
            "/grid/setcolorful"@,
            seq![s_arg(grid_name), i_arg(if setting { 1 } else { 0 })],
        ),
        OscCommandOf::GridSetPowerEffect { grid_name, setting } => (
            "/grid/setpowereffect"@,
            seq![s_arg(grid_name), i_arg(if setting { 1 } else { 0 })],
        ),
        OscCommandOf::GridTransitionTrigger { grid_name } => (
            "/grid/transitiontrigger"@,
            seq![s_arg(grid_name)],
        ),
        OscCommandOf::GridTransitionAuto { grid_name } => (
            "/grid/transitionauto"@,
            seq![s_arg(grid_name)],
        ),
        OscCommandOf::TransitionUpdate { grid_name, steps, frame_duration, wandering, density } => (
            "/transition/update"@,
            seq![s_arg(grid_name)] + transition_update_args(
                steps,
                frame_duration,
                wandering,
                density,
            ),
        ),
    }
}

/// The commands whose message reads back as the same command: a glyph
/// index or step count must fit in an OSC int, and the optional values of
/// a transition update may only be left out from the end, since the
/// decoder reads them by position.
pub open spec fn round_trips(c: CommandView) -> bool {
    match c {
        OscCommandOf::GridGlyph { glyph_index, .. } => glyph_index <= i32::MAX,
        OscCommandOf::TransitionUpdate { steps, frame_duration, wandering, density, .. } => {
            &&& (steps matches Some(s) ==> s <= i32::MAX)
            &&& (frame_duration is Some ==> steps is Some)
            &&& (wandering is Some ==> frame_duration is Some)
            &&& (density is Some ==> wandering is Some)
        },
        _ => true,
    }
}

/// Reading back what was sent: decoding the message that carries a
/// command gives that command, for every command that fits the message.
pub proof fn lemma_decode_encode(c: CommandView)
    requires
        round_trips(c),
    ensures
        decode_spec(encode_spec(c).0, encode_spec(c).1) == DecodedOf::Command(c),
{
    crate::osc::lemma_addresses_distinct();
    let (addr, args) = encode_spec(c);
    match c {
        OscCommandOf::TransitionUpdate { grid_name, steps, frame_duration, wandering, density } => {
            let tail = transition_update_args(steps, frame_duration, wandering, density);
            assert(args =~= seq![s_arg(grid_name)] + tail);
            assert(args[0] == s_arg(grid_name));
            match steps {
                Some(s) => {
                    assert(args[1] == i_arg(s as i32));
                    assert((s as i32) as usize == s);
                },
                None => {
                    assert(args.len() == 1);
                },
            }
            match frame_duration {
                Some(f) => {
                    assert(args[2] == f_arg(f));
                },
                None => {
                    assert(args.len() <= 2);
                },
            }
            match wandering {
                Some(f) => {
                    assert(args[3] == f_arg(f));
                },
                None => {
                    assert(args.len() <= 3);
                },
            }
            match density {
                Some(f) => {
                    assert(args[4] == f_arg(f));
                },
                None => {
                    assert(args.len() <= 4);
                },
            }
            assert(decode_spec(addr, args) == DecodedOf::Command(
                crate::osc::transition_update_spec(args),
            ));
            assert(crate::osc::transition_update_spec(args) == c);
        },
        OscCommandOf::GridGlyph { grid_name, glyph_index, animation_type_msg } => {
            assert((glyph_index as i32) as usize == glyph_index);
        },
        _ => {},
    }
}

/// The message that starts the frame recorder.
pub fn recorder_start_message() -> (msg: OscMessage)
    ensures
        msg@ == ("/recorder/start"@, Seq::<ArgView>::empty()),
        msg@ == encode_spec(OscCommandOf::RecorderStart {  }),
{
    let args: Vec<OscArg> = Vec::new();
    let m = OscMessage { addr: String::from_str("/recorder/start"), args };
    assert(m@.1 =~= Seq::<ArgView>::empty());
    m
}

/// The message that stops the frame recorder.
pub fn recorder_stop_message() -> (msg: OscMessage)
    ensures
        msg@ == ("/recorder/stop"@, Seq::<ArgView>::empty()),
        msg@ == encode_spec(OscCommandOf::RecorderStop {  }),
{
    let args: Vec<OscArg> = Vec::new();
    let m = OscMessage { addr: String::from_str("/recorder/stop"), args };
    assert(m@.1 =~= Seq::<ArgView>::empty());
    m
}

/// The message that creates a grid showing `show`, placed at (`x`, `y`) and turned by `rotation`.
pub fn create_grid_message(name: &str, show: &str, x: F32Bits, y: F32Bits, rotation: F32Bits) -> (msg: OscMessage)
    ensures
        msg@ == ("/grid/create"@, seq![s_arg(name@), s_arg(show@), f_arg(x), f_arg(y), f_arg(rotation)]),
        msg@ == encode_spec(OscCommandOf::GridCreate { name: name@, show: show@, position: (x, y), rotation }),
{
    let args: Vec<OscArg> = vec![OscArgOf::Str(String::from_str(name)), OscArgOf::Str(String::from_str(show)), OscArgOf::Float(x), OscArgOf::Float(y), OscArgOf::Float(rotation)];
    let m = OscMessage { addr: String::from_str("/grid/create"), args };
    assert(m@.1 =~= seq![s_arg(name@), s_arg(show@), f_arg(x), f_arg(y), f_arg(rotation)]);
    m
}

/// The message that moves a grid to (`x`, `y`) over `duration` seconds.
pub fn move_grid_message(name: &str, x: F32Bits, y: F32Bits, duration: F32Bits) -> (msg: OscMessage)
    ensures
        msg@ == ("/grid/move"@, seq![s_arg(name@), f_arg(x), f_arg(y), f_arg(duration)]),
        msg@ == encode_spec(OscCommandOf::GridMove { name: name@, x, y, duration }),
{
    let args: Vec<OscArg> = vec![OscArgOf::Str(String::from_str(name)), OscArgOf::Float(x), OscArgOf::Float(y), OscArgOf::Float(duration)];
    let m = OscMessage { addr: String::from_str("/grid/move"), args };
    assert(m@.1 =~= seq![s_arg(name@), f_arg(x), f_arg(y), f_arg(duration)]);
    m
}

/// The message that turns a grid by `angle`.
pub fn rotate_grid_message(name: &str, angle: F32Bits) -> (msg: OscMessage)
    ensures
        msg@ == ("/grid/rotate"@, seq![s_arg(name@), f_arg(angle)]),
        msg@ == encode_spec(OscCommandOf::GridRotate { name: name@, angle }),
{
    let args: Vec<OscArg> = vec![OscArgOf::Str(String::from_str(name)), OscArgOf::Float(angle)];
    let m = OscMessage { addr: String::from_str("/grid/rotate"), args };
    assert(m@.1 =~= seq![s_arg(name@), f_arg(angle)]);
    m
}

/// The message that scales a grid to `scale`.
pub fn scale_grid_message(name: &str, scale: F32Bits) -> (msg: OscMessage)
    ensures
        msg@ == ("/grid/scale"@, seq![s_arg(name@), f_arg(scale)]),
        msg@ == encode_spec(OscCommandOf::GridScale { name: name@, scale }),
{
    let args: Vec<OscArg> = vec![OscArgOf::Str(String::from_str(name)), OscArgOf::Float(scale)];
    let m = OscMessage { addr: String::from_str("/grid/scale"), args };
    assert(m@.1 =~= seq![s_arg(name@), f_arg(scale)]);
    m
}

/// The message that slides row or column `number` of a grid along `axis` by `distance`.
pub fn grid_slide_message(name: &str, axis: &str, number: i32, distance: F32Bits) -> (msg: OscMessage)
    ensures
        msg@ == ("/grid/slide"@, seq![s_arg(name@), s_arg(axis@), i_arg(number), f_arg(distance)]),
        msg@ == encode_spec(OscCommandOf::GridSlide { name: name@, axis: axis@, number, distance }),
{
    let args: Vec<OscArg> = vec![OscArgOf::Str(String::from_str(name)), OscArgOf::Str(String::from_str(axis)), OscArgOf::Int(number), OscArgOf::Float(distance)];
    let m = OscMessage { addr: String::from_str("/grid/slide"), args };
    assert(m@.1 =~= seq![s_arg(name@), s_arg(axis@), i_arg(number), f_arg(distance)]);
    m
}

/// The message that fades a grid's backbone to the colour (`r`, `g`, `b`, `a`) over `duration`.
pub fn grid_backbone_fade_message(grid_name: &str, r: F32Bits, g: F32Bits, b: F32Bits, a: F32Bits, duration: F32Bits) -> (msg: OscMessage)
    ensures
        msg@ == ("/grid/backbone_fade"@, seq![s_arg(grid_name@), f_arg(r), f_arg(g), f_arg(b), f_arg(a), f_arg(duration)]),
        msg@ == encode_spec(OscCommandOf::GridBackboneFade { name: grid_name@, r, g, b, a, duration }),
{
    let args: Vec<OscArg> = vec![OscArgOf::Str(String::from_str(grid_name)), OscArgOf::Float(r), OscArgOf::Float(g), OscArgOf::Float(b), OscArgOf::Float(a), OscArgOf::Float(duration)];
    let m = OscMessage { addr: String::from_str("/grid/backbone_fade"), args };
    assert(m@.1 =~= seq![s_arg(grid_name@), f_arg(r), f_arg(g), f_arg(b), f_arg(a), f_arg(duration)]);
    m
}

/// The message that shows a grid's next glyph with animation type `animation_type_msg`.
pub fn next_glyph_message(grid_name: &str, animation_type_msg: i32) -> (msg: OscMessage)
    ensures
        msg@ == ("/grid/nextglyph"@, seq![s_arg(grid_name@), i_arg(animation_type_msg)]),
        msg@ == encode_spec(OscCommandOf::GridNextGlyph { grid_name: grid_name@, animation_type_msg }),
{
    let args: Vec<OscArg> = vec![OscArgOf::Str(String::from_str(grid_name)), OscArgOf::Int(animation_type_msg)];
    let m = OscMessage { addr: String::from_str("/grid/nextglyph"), args };
    assert(m@.1 =~= seq![s_arg(grid_name@), i_arg(animation_type_msg)]);
    m
}

/// The message that sets a grid's glyph colour at once.
pub fn instant_glyph_color_message(grid_name: &str, r: F32Bits, g: F32Bits, b: F32Bits, a: F32Bits) -> (msg: OscMessage)
    ensures
        msg@ == ("/grid/instantglyphcolor"@, seq![s_arg(grid_name@), f_arg(r), f_arg(g), f_arg(b), f_arg(a)]),
        msg@ == encode_spec(OscCommandOf::GridInstantGlyphColor { grid_name: grid_name@, r, g, b, a }),
{
    let args: Vec<OscArg> = vec![OscArgOf::Str(String::from_str(grid_name)), OscArgOf::Float(r), OscArgOf::Float(g), OscArgOf::Float(b), OscArgOf::Float(a)];
    let m = OscMessage { addr: String::from_str("/grid/instantglyphcolor"), args };
    assert(m@.1 =~= seq![s_arg(grid_name@), f_arg(r), f_arg(g), f_arg(b), f_arg(a)]);
    m
}

/// The message that sets the colour a grid's next glyph appears in.
pub fn next_glyph_color_message(grid_name: &str, r: F32Bits, g: F32Bits, b: F32Bits, a: F32Bits) -> (msg: OscMessage)
    ensures
        msg@ == ("/grid/nextglyphcolor"@, seq![s_arg(grid_name@), f_arg(r), f_arg(g), f_arg(b), f_arg(a)]),
        msg@ == encode_spec(OscCommandOf::GridNextGlyphColor { grid_name: grid_name@, r, g, b, a }),
{
    let args: Vec<OscArg> = vec![OscArgOf::Str(String::from_str(grid_name)), OscArgOf::Float(r), OscArgOf::Float(g), OscArgOf::Float(b), OscArgOf::Float(a)];
    let m = OscMessage { addr: String::from_str("/grid/nextglyphcolor"), args };
    assert(m@.1 =~= seq![s_arg(grid_name@), f_arg(r), f_arg(g), f_arg(b), f_arg(a)]);
    m
}

/// The message that clears a grid's glyph with animation type `animation_type_msg`.
pub fn no_glyph_message(grid_name: &str, animation_type_msg: i32) -> (msg: OscMessage)
    ensures
        msg@ == ("/grid/noglyph"@, seq![s_arg(grid_name@), i_arg(animation_type_msg)]),
        msg@ == encode_spec(OscCommandOf::GridNoGlyph { grid_name: grid_name@, animation_type_msg }),
{
    let args: Vec<OscArg> = vec![OscArgOf::Str(String::from_str(grid_name)), OscArgOf::Int(animation_type_msg)];
    let m = OscMessage { addr: String::from_str("/grid/noglyph"), args };
    assert(m@.1 =~= seq![s_arg(grid_name@), i_arg(animation_type_msg)]);
    m
}

/// The message that redraws a grid's current glyph over itself.
pub fn grid_overwrite_message(grid_name: &str) -> (msg: OscMessage)
    ensures
        msg@ == ("/grid/overwrite"@, seq![s_arg(grid_name@)]),
        msg@ == encode_spec(OscCommandOf::GridOverwrite { grid_name: grid_name@ }),
{
    let args: Vec<OscArg> = vec![OscArgOf::Str(String::from_str(grid_name))];
    let m = OscMessage { addr: String::from_str("/grid/overwrite"), args };
    assert(m@.1 =~= seq![s_arg(grid_name@)]);
    m
}

/// The message that advances a grid's transition by one step.
pub fn transition_trigger_message(grid_name: &str) -> (msg: OscMessage)
    ensures
        msg@ == ("/grid/transitiontrigger"@, seq![s_arg(grid_name@)]),
        msg@ == encode_spec(OscCommandOf::GridTransitionTrigger { grid_name: grid_name@ }),
{
    let args: Vec<OscArg> = vec![OscArgOf::Str(String::from_str(grid_name))];
    let m = OscMessage { addr: String::from_str("/grid/transitiontrigger"), args };
    assert(m@.1 =~= seq![s_arg(grid_name@)]);
    m
}

/// The message that lets a grid's transitions run on their own.
pub fn transition_auto_message(grid_name: &str) -> (msg: OscMessage)
    ensures
        msg@ == ("/grid/transitionauto"@, seq![s_arg(grid_name@)]),
        msg@ == encode_spec(OscCommandOf::GridTransitionAuto { grid_name: grid_name@ }),
{
    let args: Vec<OscArg> = vec![OscArgOf::Str(String::from_str(grid_name))];
    let m = OscMessage { addr: String::from_str("/grid/transitionauto"), args };
    assert(m@.1 =~= seq![s_arg(grid_name@)]);
    m
}

/// The message that shows or hides a grid.
pub fn toggle_visibility_message(grid_name: &str) -> (msg: OscMessage)
    ensures
        msg@ == ("/grid/togglevisibility"@, seq![s_arg(grid_name@)]),
        msg@ == encode_spec(OscCommandOf::GridToggleVisibility { grid_name: grid_name@ }),
{
    let args: Vec<OscArg> = vec![OscArgOf::Str(String::from_str(grid_name))];
    let m = OscMessage { addr: String::from_str("/grid/togglevisibility"), args };
    assert(m@.1 =~= seq![s_arg(grid_name@)]);
    m
}

/// The message that switches a grid's colourful mode.
pub fn toggle_colorful_message(grid_name: &str) -> (msg: OscMessage)
    ensures
        msg@ == ("/grid/togglecolorful"@, seq![s_arg(grid_name@)]),
        msg@ == encode_spec(OscCommandOf::GridToggleColorful { grid_name: grid_name@ }),
{
    let args: Vec<OscArg> = vec![OscArgOf::Str(String::from_str(grid_name))];
    let m = OscMessage { addr: String::from_str("/grid/togglecolorful"), args };
    assert(m@.1 =~= seq![s_arg(grid_name@)]);
    m
}

/// The message that flashes the background in colour (`r`, `g`, `b`) for `duration`.
pub fn background_flash_message(r: F32Bits, g: F32Bits, b: F32Bits, duration: F32Bits) -> (msg: OscMessage)
    ensures
        msg@ == ("/background/flash"@, seq![f_arg(r), f_arg(g), f_arg(b), f_arg(duration)]),
        msg@ == encode_spec(OscCommandOf::BackgroundFlash { r, g, b, duration }),
{
    let args: Vec<OscArg> = vec![OscArgOf::Float(r), OscArgOf::Float(g), OscArgOf::Float(b), OscArgOf::Float(duration)];
    let m = OscMessage { addr: String::from_str("/background/flash"), args };
    assert(m@.1 =~= seq![f_arg(r), f_arg(g), f_arg(b), f_arg(duration)]);
    m
}

/// The message that fades the background to colour (`r`, `g`, `b`) over `duration`.
pub fn background_color_fade_message(r: F32Bits, g: F32Bits, b: F32Bits, duration: F32Bits) -> (msg: OscMessage)
    ensures
        msg@ == ("/background/color_fade"@, seq![f_arg(r), f_arg(g), f_arg(b), f_arg(duration)]),
        msg@ == encode_spec(OscCommandOf::BackgroundColorFade { r, g, b, duration }),
{
    let args: Vec<OscArg> = vec![OscArgOf::Float(r), OscArgOf::Float(g), OscArgOf::Float(b), OscArgOf::Float(duration)];
    let m = OscMessage { addr: String::from_str("/background/color_fade"), args };
    assert(m@.1 =~= seq![f_arg(r), f_arg(g), f_arg(b), f_arg(duration)]);
    m
}

/// The message that shows glyph `index` of a grid's show with animation type `animation_type_msg`.
pub fn glyph_message(grid_name: &str, index: i32, animation_type_msg: i32) -> (msg: OscMessage)
    ensures
        msg@ == ("/grid/glyph"@, seq![s_arg(grid_name@), i_arg(index), i_arg(animation_type_msg)]),
        index >= 0 ==> msg@ == encode_spec(OscCommandOf::GridGlyph { grid_name: grid_name@, glyph_index: index as usize, animation_type_msg }),
{
    let args: Vec<OscArg> = vec![OscArgOf::Str(String::from_str(grid_name)), OscArgOf::Int(index), OscArgOf::Int(animation_type_msg)];
    let m = OscMessage { addr: String::from_str("/grid/glyph"), args };
    assert(m@.1 =~= seq![s_arg(grid_name@), i_arg(index), i_arg(animation_type_msg)]);
    m
}

/// The message that switches a grid's power-on effect; a non-zero `setting` switches it on.
pub fn set_power_effect_message(grid_name: &str, setting: i32) -> (msg: OscMessage)
    ensures
        msg@ == ("/grid/setpowereffect"@, seq![s_arg(grid_name@), i_arg(setting)]),
        (setting == 0 || setting == 1) ==> msg@ == encode_spec(OscCommandOf::GridSetPowerEffect { grid_name: grid_name@, setting: setting == 1 }),
{
    let args: Vec<OscArg> = vec![OscArgOf::Str(String::from_str(grid_name)), OscArgOf::Int(setting)];
    let m = OscMessage { addr: String::from_str("/grid/setpowereffect"), args };
    assert(m@.1 =~= seq![s_arg(grid_name@), i_arg(setting)]);
    m
}

/// The message that updates a grid's transition settings: the grid's name,
/// then each value that is present, in order.
pub fn update_transition_config_message(
    grid_name: &str,
    steps: Option<usize>,
    frame_duration: Option<F32Bits>,
    wandering: Option<F32Bits>,
    density: Option<F32Bits>,
) -> (msg: OscMessage)
    ensures
        msg@ == encode_spec(
            OscCommandOf::TransitionUpdate {
                grid_name: grid_name@,
                steps,
                frame_duration,
                wandering,
                density,
            },
        ),
{
    let mut args: Vec<OscArg> = vec![OscArgOf::Str(String::from_str(grid_name))];
    let ghost mut expected: Seq<ArgView> = seq![s_arg(grid_name@)];
    assert(args_view(args@) =~= expected);
    if let Some(s) = steps {
        args.push(OscArgOf::Int(#[verifier::truncate] (s as i32)));
        proof {
            expected = expected.push(i_arg(s as i32));
        }
        assert(args_view(args@) =~= expected);
    }
    if let Some(f) = frame_duration {
        args.push(OscArgOf::Float(f));
        proof {
            expected = expected.push(f_arg(f));
        }
        assert(args_view(args@) =~= expected);
    }
    if let Some(f) = wandering {
        args.push(OscArgOf::Float(f));
        proof {
            expected = expected.push(f_arg(f));
        }
        assert(args_view(args@) =~= expected);
    }
    if let Some(f) = density {
        args.push(OscArgOf::Float(f));
        proof {
            expected = expected.push(f_arg(f));
        }
        assert(args_view(args@) =~= expected);
    }
    assert(expected =~= seq![s_arg(grid_name@)] + transition_update_args(
        steps,
        frame_duration,
        wandering,
        density,
    ));
    OscMessage { addr: String::from_str("/transition/update"), args }
}

} // verus!
