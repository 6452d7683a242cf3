//! The OSC command protocol.  Incoming OSC messages (an address and a list
//! of typed arguments) are decoded into commands; the commands that the
//! application sends to itself are encoded into messages.  Decoding what was
//! encoded gives the command back.
//!
//! OSC carries 32-bit floats; here a float argument travels as its IEEE-754
//! bit pattern (`F32Bits`), untouched, so that nothing in the protocol
//! depends on floating-point arithmetic.

use vstd::prelude::*;
use crate::text::str_eq;

verus! {

/// A 32-bit float, carried as its IEEE-754 bit pattern.
#[derive(Debug, Clone, Copy, PartialEq, Eq, Structural)]
pub struct F32Bits {
    pub bits: u32,
}

/// An OSC argument.  `Other` stands for every OSC type the protocol never
/// accepts (longs, doubles, blobs, booleans, ...).
#[derive(Debug)]
pub enum OscArgOf<S> {
    Int(i32),
    Float(F32Bits),
    Str(S),
    Other,
}

/// An OSC argument as the application handles it.
pub type OscArg = OscArgOf<String>;

impl View for OscArgOf<String> {
    type V = OscArgOf<Seq<char>>;

    open spec fn view(&self) -> OscArgOf<Seq<char>> {
        match self {
            OscArgOf::Int(i) => OscArgOf::Int(*i),
            OscArgOf::Float(f) => OscArgOf::Float(*f),
            OscArgOf::Str(s) => OscArgOf::Str(s@),
            OscArgOf::Other => OscArgOf::Other,
        }
    }
}

/// An OSC message: an address pattern and its arguments.
pub struct OscMessage {
    pub addr: String,
    pub args: Vec<OscArg>,
}

/// The view of a list of arguments.
pub open spec fn args_view(args: Seq<OscArg>) -> Seq<OscArgOf<Seq<char>>> {
    args.map_values(|a: OscArg| a@)
}

impl View for OscMessage {
    type V = (Seq<char>, Seq<OscArgOf<Seq<char>>>);

    open spec fn view(&self) -> (Seq<char>, Seq<OscArgOf<Seq<char>>>) {
        (self.addr@, args_view(self.args@))
    }
}

/// The commands the application accepts over OSC.
#[derive(Debug)]
pub enum OscCommandOf<S> {
    RecorderStart {},
    RecorderStop {},
    GridBackboneFade { name: S, r: F32Bits, g: F32Bits, b: F32Bits, a: F32Bits, duration: F32Bits },
    GridCreate { name: S, show: S, position: (F32Bits, F32Bits), rotation: F32Bits },
    GridMove { name: S, x: F32Bits, y: F32Bits, duration: F32Bits },
    GridRotate { name: S, angle: F32Bits },
    GridScale { name: S, scale: F32Bits },
    GridSlide { name: S, axis: S, number: i32, distance: F32Bits },
    BackgroundFlash { r: F32Bits, g: F32Bits, b: F32Bits, duration: F32Bits },
    BackgroundColorFade { r: F32Bits, g: F32Bits, b: F32Bits, duration: F32Bits },
    GridGlyph { grid_name: S, glyph_index: usize, animation_type_msg: i32 },
    GridInstantGlyphColor { grid_name: S, r: F32Bits, g: F32Bits, b: F32Bits, a: F32Bits },
    GridNextGlyph { grid_name: S, animation_type_msg: i32 },
    GridNextGlyphColor { grid_name: S, r: F32Bits, g: F32Bits, b: F32Bits, a: F32Bits },
    GridNoGlyph { grid_name: S, animation_type_msg: i32 },
    GridOverwrite { grid_name: S },
    GridToggleVisibility { grid_name: S },
    GridSetVisibility { grid_name: S, setting: bool },
    GridToggleColorful { grid_name: S },
    GridSetColorful { grid_name: S, setting: bool },
    GridSetPowerEffect { grid_name: S, setting: bool },
    GridTransitionTrigger { grid_name: S },
    GridTransitionAuto { grid_name: S },
    TransitionUpdate {
        grid_name: S,
        steps: Option<usize>,
        frame_duration: Option<F32Bits>,
        wandering: Option<F32Bits>,
        density: Option<F32Bits>,
    },
}

/// A command as the application handles it.
pub type OscCommand = OscCommandOf<String>;

/// The abstract form of a command.
pub type CommandView = OscCommandOf<Seq<char>>;

impl View for OscCommandOf<String> {
    type V = CommandView;

    open spec fn view(&self) -> CommandView {
        match self {
            OscCommandOf::RecorderStart {  } => OscCommandOf::RecorderStart {  },
            OscCommandOf::RecorderStop {  } => OscCommandOf::RecorderStop {  },
            OscCommandOf::GridBackboneFade { name, r, g, b, a, duration } =>
                OscCommandOf::GridBackboneFade {
                name: name@,
                r: *r,
                g: *g,
                b: *b,
                a: *a,
                duration: *duration,
            },
            OscCommandOf::GridCreate { name, show, position, rotation } => OscCommandOf::GridCreate {
                name: name@,
                show: show@,
                position: *position,
                rotation: *rotation,
            },
            OscCommandOf::GridMove { name, x, y, duration } => OscCommandOf::GridMove {
                name: name@,
                x: *x,
                y: *y,
                duration: *duration,
            },
            OscCommandOf::GridRotate { name, angle } => OscCommandOf::GridRotate {
                name: name@,
                angle: *angle,
            },
            OscCommandOf::GridScale { name, scale } => OscCommandOf::GridScale {
                name: name@,
                scale: *scale,
            },
            OscCommandOf::GridSlide { name, axis, number, distance } => OscCommandOf::GridSlide {
                name: name@,
                axis: axis@,
                number: *number,
                distance: *distance,
            },
            OscCommandOf::BackgroundFlash { r, g, b, duration } => OscCommandOf::BackgroundFlash {
                r: *r,
                g: *g,
                b: *b,
                duration: *duration,
            },
            OscCommandOf::BackgroundColorFade { r, g, b, duration } =>
                OscCommandOf::BackgroundColorFade { r: *r, g: *g, b: *b, duration: *duration },
            OscCommandOf::GridGlyph { grid_name, glyph_index, animation_type_msg } =>
                OscCommandOf::GridGlyph {
                grid_name: grid_name@,
                glyph_index: *glyph_index,
                animation_type_msg: *animation_type_msg,
            },
            OscCommandOf::GridInstantGlyphColor { grid_name, r, g, b, a } =>
                OscCommandOf::GridInstantGlyphColor {
                grid_name: grid_name@,
                r: *r,
                g: *g,
                b: *b,
                a: *a,
            },
            OscCommandOf::GridNextGlyph { grid_name, animation_type_msg } =>
                OscCommandOf::GridNextGlyph {
                grid_name: grid_name@,
                animation_type_msg: *animation_type_msg,
            },
            OscCommandOf::GridNextGlyphColor { grid_name, r, g, b, a } =>
                OscCommandOf::GridNextGlyphColor { grid_name: grid_name@, r: *r, g: *g, b: *b, a: *a },
            OscCommandOf::GridNoGlyph { grid_name, animation_type_msg } => OscCommandOf::GridNoGlyph {
                grid_name: grid_name@,
                animation_type_msg: *animation_type_msg,
            },
            OscCommandOf::GridOverwrite { grid_name } => OscCommandOf::GridOverwrite {
                grid_name: grid_name@,
            },
            OscCommandOf::GridToggleVisibility { grid_name } => OscCommandOf::GridToggleVisibility {
                grid_name: grid_name@,
            },
            OscCommandOf::GridSetVisibility { grid_name, setting } =>
                OscCommandOf::GridSetVisibility { grid_name: grid_name@, setting: *setting },
            OscCommandOf::GridToggleColorful { grid_name } => OscCommandOf::GridToggleColorful {
                grid_name: grid_name@,
            },
            OscCommandOf::GridSetColorful { grid_name, setting } => OscCommandOf::GridSetColorful {
                grid_name: grid_name@,
                setting: *setting,
            },
            OscCommandOf::GridSetPowerEffect { grid_name, setting } =>
                OscCommandOf::GridSetPowerEffect { grid_name: grid_name@, setting: *setting },
            OscCommandOf::GridTransitionTrigger { grid_name } =>
                OscCommandOf::GridTransitionTrigger { grid_name: grid_name@ },
            OscCommandOf::GridTransitionAuto { grid_name } => OscCommandOf::GridTransitionAuto {
                grid_name: grid_name@,
            },
            OscCommandOf::TransitionUpdate { grid_name, steps, frame_duration, wandering, density } =>
                OscCommandOf::TransitionUpdate {
                grid_name: grid_name@,
                steps: *steps,
                frame_duration: *frame_duration,
                wandering: *wandering,
                density: *density,
            },
        }
    }
}

/// What decoding a message gives: a command; nothing, for a known address
/// whose arguments do not have the expected types; or the news that the
/// address is unknown.
#[derive(Debug)]
pub enum DecodedOf<S> {
    Command(OscCommandOf<S>),
    Malformed,
    UnknownAddress,
}

pub type Decoded = DecodedOf<String>;

impl View for DecodedOf<String> {
    type V = DecodedOf<Seq<char>>;

    open spec fn view(&self) -> DecodedOf<Seq<char>> {
        match self {
            DecodedOf::Command(c) => DecodedOf::Command(c@),
            DecodedOf::Malformed => DecodedOf::Malformed,
            DecodedOf::UnknownAddress => DecodedOf::UnknownAddress,
        }
    }
}

pub type ArgView = OscArgOf<Seq<char>>;

pub open spec fn is_s(a: ArgView) -> bool {
    a is Str
}

pub open spec fn is_f(a: ArgView) -> bool {
    a is Float
}

pub open spec fn is_i(a: ArgView) -> bool {
    a is Int
}

pub open spec fn s_of(a: ArgView) -> Seq<char> {
    match a {
        OscArgOf::Str(s) => s,
        _ => Seq::empty(),
    }
}

pub open spec fn f_of(a: ArgView) -> F32Bits {
    match a {
        OscArgOf::Float(f) => f,
        _ => F32Bits { bits: 0 },
    }
}

pub open spec fn i_of(a: ArgView) -> i32 {
    match a {
        OscArgOf::Int(i) => i,
        _ => 0,
    }
}

/// Decoding of a known address whose arguments are a string followed by
/// `n` floats.
pub open spec fn s_then_floats(args: Seq<ArgView>, n: nat) -> bool {
    args.len() == n + 1 && is_s(args[0]) && forall|i: int| 1 <= i <= n ==> is_f(#[trigger] args[i])
}

pub open spec fn all_floats(args: Seq<ArgView>, n: nat) -> bool {
    args.len() == n && forall|i: int| 0 <= i < n ==> is_f(#[trigger] args[i])
}

/// `/transition/update` reads its arguments by position and skips any
/// argument of the wrong type; it always yields a command.
pub open spec fn transition_update_spec(args: Seq<ArgView>) -> CommandView {
    OscCommandOf::TransitionUpdate {
        grid_name: if args.len() > 0 && is_s(args[0]) {
            s_of(args[0])
        } else {
            Seq::empty()
        },
        steps: if args.len() > 1 && is_i(args[1]) {
            Some(i_of(args[1]) as usize)
        } else {
            None
        },
        frame_duration: if args.len() > 2 && is_f(args[2]) {
            Some(f_of(args[2]))
        } else {
            None
        },
        wandering: if args.len() > 3 && is_f(args[3]) {
            Some(f_of(args[3]))
        } else {
            None
        },
        density: if args.len() > 4 && is_f(args[4]) {
            Some(f_of(args[4]))
        } else {
            None
        },
    }
}

/// What the application makes of an OSC message.
pub open spec fn decode_spec(addr: Seq<char>, args: Seq<ArgView>) -> DecodedOf<Seq<char>> {
    if addr == "/recorder/start"@ {
        DecodedOf::Command(OscCommandOf::RecorderStart {  })
    } else if addr == "/recorder/stop"@ {
        DecodedOf::Command(OscCommandOf::RecorderStop {  })
    } else if addr == "/grid/backbone_fade"@ {
        if s_then_floats(args, 5) {
            DecodedOf::Command(
                OscCommandOf::GridBackboneFade {
                    name: s_of(args[0]),
                    r: f_of(args[1]),
                    g: f_of(args[2]),
                    b: f_of(args[3]),
                    a: f_of(args[4]),
                    duration: f_of(args[5]),
                },
            )
        } else {
            DecodedOf::Malformed
        }
    } else if addr == "/grid/create"@ {
        if args.len() == 5 && is_s(args[0]) && is_s(args[1]) && is_f(args[2]) && is_f(args[3])
            && is_f(args[4]) {
            DecodedOf::Command(
                OscCommandOf::GridCreate {
                    name: s_of(args[0]),
                    show: s_of(args[1]),
                    position: (f_of(args[2]), f_of(args[3])),
                    rotation: f_of(args[4]),
                },
            )
        } else {
            DecodedOf::Malformed
        }
    } else if addr == "/grid/move"@ {
        if s_then_floats(args, 3) {
            DecodedOf::Command(
                OscCommandOf::GridMove {
                    name: s_of(args[0]),
                    x: f_of(args[1]),
                    y: f_of(args[2]),
                    duration: f_of(args[3]),
                },
            )
        } else {
            DecodedOf::Malformed
        }
    } else if addr == "/grid/rotate"@ {
        if s_then_floats(args, 1) {
            DecodedOf::Command(OscCommandOf::GridRotate { name: s_of(args[0]), angle: f_of(args[1]) })
        } else {
            DecodedOf::Malformed
        }
    } else if addr == "/grid/scale"@ {
        if s_then_floats(args, 1) {
            DecodedOf::Command(OscCommandOf::GridScale { name: s_of(args[0]), scale: f_of(args[1]) })
        } else {
            DecodedOf::Malformed
        }
    } else if addr == "/grid/slide"@ {
        if args.len() == 4 && is_s(args[0]) && is_s(args[1]) && is_i(args[2]) && is_f(args[3]) {
            DecodedOf::Command(
                OscCommandOf::GridSlide {
                    name: s_of(args[0]),
                    axis: s_of(args[1]),
                    number: i_of(args[2]),
                    distance: f_of(args[3]),
                },
            )
        } else {
            DecodedOf::Malformed
        }
    } else if addr == "/background/flash"@ {
        if all_floats(args, 4) {
            DecodedOf::Command(
                OscCommandOf::BackgroundFlash {
                    r: f_of(args[0]),
                    g: f_of(args[1]),
                    b: f_of(args[2]),
                    duration: f_of(args[3]),
                },
            )
        } else {
            DecodedOf::Malformed
        }
    } else if addr == "/background/color_fade"@ {
        if all_floats(args, 4) {
            DecodedOf::Command(
                OscCommandOf::BackgroundColorFade {
                    r: f_of(args[0]),
                    g: f_of(args[1]),
                    b: f_of(args[2]),
                    duration: f_of(args[3]),
                },
            )
        } else {
            DecodedOf::Malformed
        }
    } else if addr == "/grid/glyph"@ {
        if args.len() == 3 && is_s(args[0]) && is_i(args[1]) && is_i(args[2]) {
            DecodedOf::Command(
                OscCommandOf::GridGlyph {
                    grid_name: s_of(args[0]),
                    glyph_index: i_of(args[1]) as usize,
                    animation_type_msg: i_of(args[2]),
                },
            )
        } else {
            DecodedOf::Malformed
        }
    } else if addr == "/grid/instantglyphcolor"@ {
        if s_then_floats(args, 4) {
            DecodedOf::Command(
                OscCommandOf::GridInstantGlyphColor {
                    grid_name: s_of(args[0]),
                    r: f_of(args[1]),
                    g: f_of(args[2]),
                    b: f_of(args[3]),
                    a: f_of(args[4]),
                },
            )
        } else {
            DecodedOf::Malformed
        }
    } else if addr == "/grid/nextglyph"@ {
        if args.len() == 2 && is_s(args[0]) && is_i(args[1]) {
            DecodedOf::Command(
                OscCommandOf::GridNextGlyph {
                    grid_name: s_of(args[0]),
                    animation_type_msg: i_of(args[1]),
                },
            )
        } else {
            DecodedOf::Malformed
        }
    } else if addr == "/grid/nextglyphcolor"@ {
        if s_then_floats(args, 4) {
            DecodedOf::Command(
                OscCommandOf::GridNextGlyphColor {
                    grid_name: s_of(args[0]),
                    r: f_of(args[1]),
                    g: f_of(args[2]),
                    b: f_of(args[3]),
                    a: f_of(args[4]),
                },
            )
        } else {
            DecodedOf::Malformed
        }
    } else if addr == "/grid/noglyph"@ {
        if args.len() == 2 && is_s(args[0]) && is_i(args[1]) {
            DecodedOf::Command(
                OscCommandOf::GridNoGlyph {
                    grid_name: s_of(args[0]),
                    animation_type_msg: i_of(args[1]),
                },
            )
        } else {
            DecodedOf::Malformed
        }
    } else if addr == "/grid/overwrite"@ {
        if args.len() == 1 && is_s(args[0]) {
            DecodedOf::Command(OscCommandOf::GridOverwrite { grid_name: s_of(args[0]) })
        } else {
            DecodedOf::Malformed
        }
    } else if addr == "/grid/transitiontrigger"@ {
        if args.len() == 1 && is_s(args[0]) {
            DecodedOf::Command(OscCommandOf::GridTransitionTrigger { grid_name: s_of(args[0]) })
        } else {
            DecodedOf::Malformed
        }
    } else if addr == "/grid/transitionauto"@ {
        if args.len() == 1 && is_s(args[0]) {
            DecodedOf::Command(OscCommandOf::GridTransitionAuto { grid_name: s_of(args[0]) })
        } else {
            DecodedOf::Malformed
        }
    } else if addr == "/grid/togglevisibility"@ {
        if args.len() == 1 && is_s(args[0]) {
            DecodedOf::Command(OscCommandOf::GridToggleVisibility { grid_name: s_of(args[0]) })
        } else {
            DecodedOf::Malformed
        }
    } else if addr == "/grid/setvisibility"@ {
        if args.len() == 2 && is_s(args[0]) && is_i(args[1]) {
            DecodedOf::Command(
                OscCommandOf::GridSetVisibility {
                    grid_name: s_of(args[0]),
                    setting: i_of(args[1]) != 0,
                },
            )
        } else {
            DecodedOf::Malformed
        }
    } else if addr == "/grid/togglecolorful"@ {
        if args.len() == 1 && is_s(args[0]) {
            DecodedOf::Command(OscCommandOf::GridToggleColorful { grid_name: s_of(args[0]) })
        } else {
            DecodedOf::Malformed
        }
    } else if addr == "/grid/setcolorful"@ {
        if args.len() == 2 && is_s(args[0]) && is_i(args[1]) {
            DecodedOf::Command(
                OscCommandOf::GridSetColorful {
                    grid_name: s_of(args[0]),
                    setting: i_of(args[1]) != 0,
                },
            )
        } else {
            DecodedOf::Malformed
        }
    } else if addr == "/grid/setpowereffect"@ {
        if args.len() == 2 && is_s(args[0]) && is_i(args[1]) {
            DecodedOf::Command(
                OscCommandOf::GridSetPowerEffect {
                    grid_name: s_of(args[0]),
                    setting: i_of(args[1]) != 0,
                },
            )
        } else {
            DecodedOf::Malformed
        }
    } else if addr == "/transition/update"@ {
        DecodedOf::Command(transition_update_spec(args))
    } else {
        DecodedOf::UnknownAddress
    }
}

/// The addresses the decoder knows are pairwise different.
pub proof fn lemma_addresses_distinct()
    ensures
        "/recorder/start"@ != "/recorder/stop"@,
        "/recorder/start"@ != "/grid/backbone_fade"@,
        "/recorder/start"@ != "/grid/create"@,
        "/recorder/start"@ != "/grid/move"@,
        "/recorder/start"@ != "/grid/rotate"@,
        "/recorder/start"@ != "/grid/scale"@,
        "/recorder/start"@ != "/grid/slide"@,
        "/recorder/start"@ != "/background/flash"@,
        "/recorder/start"@ != "/background/color_fade"@,
        "/recorder/start"@ != "/grid/glyph"@,
        "/recorder/start"@ != "/grid/instantglyphcolor"@,
        "/recorder/start"@ != "/grid/nextglyph"@,
        "/recorder/start"@ != "/grid/nextglyphcolor"@,
        "/recorder/start"@ != "/grid/noglyph"@,
        "/recorder/start"@ != "/grid/overwrite"@,
        "/recorder/start"@ != "/grid/transitiontrigger"@,
        "/recorder/start"@ != "/grid/transitionauto"@,
        "/recorder/start"@ != "/grid/togglevisibility"@,
        "/recorder/start"@ != "/grid/setvisibility"@,
        "/recorder/start"@ != "/grid/togglecolorful"@,
        "/recorder/start"@ != "/grid/setcolorful"@,
        "/recorder/start"@ != "/grid/setpowereffect"@,
        "/recorder/start"@ != "/transition/update"@,
        "/recorder/stop"@ != "/grid/backbone_fade"@,
        "/recorder/stop"@ != "/grid/create"@,
        "/recorder/stop"@ != "/grid/move"@,
        "/recorder/stop"@ != "/grid/rotate"@,
        "/recorder/stop"@ != "/grid/scale"@,
        "/recorder/stop"@ != "/grid/slide"@,
        "/recorder/stop"@ != "/background/flash"@,
        "/recorder/stop"@ != "/background/color_fade"@,
        "/recorder/stop"@ != "/grid/glyph"@,
        "/recorder/stop"@ != "/grid/instantglyphcolor"@,
        "/recorder/stop"@ != "/grid/nextglyph"@,
        "/recorder/stop"@ != "/grid/nextglyphcolor"@,
        "/recorder/stop"@ != "/grid/noglyph"@,
        "/recorder/stop"@ != "/grid/overwrite"@,
        "/recorder/stop"@ != "/grid/transitiontrigger"@,
        "/recorder/stop"@ != "/grid/transitionauto"@,
        "/recorder/stop"@ != "/grid/togglevisibility"@,
        "/recorder/stop"@ != "/grid/setvisibility"@,
        "/recorder/stop"@ != "/grid/togglecolorful"@,
        "/recorder/stop"@ != "/grid/setcolorful"@,
        "/recorder/stop"@ != "/grid/setpowereffect"@,
        "/recorder/stop"@ != "/transition/update"@,
        "/grid/backbone_fade"@ != "/grid/create"@,
        "/grid/backbone_fade"@ != "/grid/move"@,
        "/grid/backbone_fade"@ != "/grid/rotate"@,
        "/grid/backbone_fade"@ != "/grid/scale"@,
        "/grid/backbone_fade"@ != "/grid/slide"@,
        "/grid/backbone_fade"@ != "/background/flash"@,
        "/grid/backbone_fade"@ != "/background/color_fade"@,
        "/grid/backbone_fade"@ != "/grid/glyph"@,
        "/grid/backbone_fade"@ != "/grid/instantglyphcolor"@,
        "/grid/backbone_fade"@ != "/grid/nextglyph"@,
        "/grid/backbone_fade"@ != "/grid/nextglyphcolor"@,
        "/grid/backbone_fade"@ != "/grid/noglyph"@,
        "/grid/backbone_fade"@ != "/grid/overwrite"@,
        "/grid/backbone_fade"@ != "/grid/transitiontrigger"@,
        "/grid/backbone_fade"@ != "/grid/transitionauto"@,
        "/grid/backbone_fade"@ != "/grid/togglevisibility"@,
        "/grid/backbone_fade"@ != "/grid/setvisibility"@,
        "/grid/backbone_fade"@ != "/grid/togglecolorful"@,
        "/grid/backbone_fade"@ != "/grid/setcolorful"@,
        "/grid/backbone_fade"@ != "/grid/setpowereffect"@,
        "/grid/backbone_fade"@ != "/transition/update"@,
        "/grid/create"@ != "/grid/move"@,
        "/grid/create"@ != "/grid/rotate"@,
        "/grid/create"@ != "/grid/scale"@,
        "/grid/create"@ != "/grid/slide"@,
        "/grid/create"@ != "/background/flash"@,
        "/grid/create"@ != "/background/color_fade"@,
        "/grid/create"@ != "/grid/glyph"@,
        "/grid/create"@ != "/grid/instantglyphcolor"@,
        "/grid/create"@ != "/grid/nextglyph"@,
        "/grid/create"@ != "/grid/nextglyphcolor"@,
        "/grid/create"@ != "/grid/noglyph"@,
        "/grid/create"@ != "/grid/overwrite"@,
        "/grid/create"@ != "/grid/transitiontrigger"@,
        "/grid/create"@ != "/grid/transitionauto"@,
        "/grid/create"@ != "/grid/togglevisibility"@,
        "/grid/create"@ != "/grid/setvisibility"@,
        "/grid/create"@ != "/grid/togglecolorful"@,
        "/grid/create"@ != "/grid/setcolorful"@,
        "/grid/create"@ != "/grid/setpowereffect"@,
        "/grid/create"@ != "/transition/update"@,
        "/grid/move"@ != "/grid/rotate"@,
        "/grid/move"@ != "/grid/scale"@,
        "/grid/move"@ != "/grid/slide"@,
        "/grid/move"@ != "/background/flash"@,
        "/grid/move"@ != "/background/color_fade"@,
        "/grid/move"@ != "/grid/glyph"@,
        "/grid/move"@ != "/grid/instantglyphcolor"@,
        "/grid/move"@ != "/grid/nextglyph"@,
        "/grid/move"@ != "/grid/nextglyphcolor"@,
        "/grid/move"@ != "/grid/noglyph"@,
        "/grid/move"@ != "/grid/overwrite"@,
        "/grid/move"@ != "/grid/transitiontrigger"@,
        "/grid/move"@ != "/grid/transitionauto"@,
        "/grid/move"@ != "/grid/togglevisibility"@,
        "/grid/move"@ != "/grid/setvisibility"@,
        "/grid/move"@ != "/grid/togglecolorful"@,
        "/grid/move"@ != "/grid/setcolorful"@,
        "/grid/move"@ != "/grid/setpowereffect"@,
        "/grid/move"@ != "/transition/update"@,
        "/grid/rotate"@ != "/grid/scale"@,
        "/grid/rotate"@ != "/grid/slide"@,
        "/grid/rotate"@ != "/background/flash"@,
        "/grid/rotate"@ != "/background/color_fade"@,
        "/grid/rotate"@ != "/grid/glyph"@,
        "/grid/rotate"@ != "/grid/instantglyphcolor"@,
        "/grid/rotate"@ != "/grid/nextglyph"@,
        "/grid/rotate"@ != "/grid/nextglyphcolor"@,
        "/grid/rotate"@ != "/grid/noglyph"@,
        "/grid/rotate"@ != "/grid/overwrite"@,
        "/grid/rotate"@ != "/grid/transitiontrigger"@,
        "/grid/rotate"@ != "/grid/transitionauto"@,
        "/grid/rotate"@ != "/grid/togglevisibility"@,
        "/grid/rotate"@ != "/grid/setvisibility"@,
        "/grid/rotate"@ != "/grid/togglecolorful"@,
        "/grid/rotate"@ != "/grid/setcolorful"@,
        "/grid/rotate"@ != "/grid/setpowereffect"@,
        "/grid/rotate"@ != "/transition/update"@,
        "/grid/scale"@ != "/grid/slide"@,
        "/grid/scale"@ != "/background/flash"@,
        "/grid/scale"@ != "/background/color_fade"@,
        "/grid/scale"@ != "/grid/glyph"@,
        "/grid/scale"@ != "/grid/instantglyphcolor"@,
        "/grid/scale"@ != "/grid/nextglyph"@,
        "/grid/scale"@ != "/grid/nextglyphcolor"@,
        "/grid/scale"@ != "/grid/noglyph"@,
        "/grid/scale"@ != "/grid/overwrite"@,
        "/grid/scale"@ != "/grid/transitiontrigger"@,
        "/grid/scale"@ != "/grid/transitionauto"@,
        "/grid/scale"@ != "/grid/togglevisibility"@,
        "/grid/scale"@ != "/grid/setvisibility"@,
        "/grid/scale"@ != "/grid/togglecolorful"@,
        "/grid/scale"@ != "/grid/setcolorful"@,
        "/grid/scale"@ != "/grid/setpowereffect"@,
        "/grid/scale"@ != "/transition/update"@,
        "/grid/slide"@ != "/background/flash"@,
        "/grid/slide"@ != "/background/color_fade"@,
        "/grid/slide"@ != "/grid/glyph"@,
        "/grid/slide"@ != "/grid/instantglyphcolor"@,
        "/grid/slide"@ != "/grid/nextglyph"@,
        "/grid/slide"@ != "/grid/nextglyphcolor"@,
        "/grid/slide"@ != "/grid/noglyph"@,
        "/grid/slide"@ != "/grid/overwrite"@,
        "/grid/slide"@ != "/grid/transitiontrigger"@,
        "/grid/slide"@ != "/grid/transitionauto"@,
        "/grid/slide"@ != "/grid/togglevisibility"@,
        "/grid/slide"@ != "/grid/setvisibility"@,
        "/grid/slide"@ != "/grid/togglecolorful"@,
        "/grid/slide"@ != "/grid/setcolorful"@,
        "/grid/slide"@ != "/grid/setpowereffect"@,
        "/grid/slide"@ != "/transition/update"@,
        "/background/flash"@ != "/background/color_fade"@,
        "/background/flash"@ != "/grid/glyph"@,
        "/background/flash"@ != "/grid/instantglyphcolor"@,
        "/background/flash"@ != "/grid/nextglyph"@,
        "/background/flash"@ != "/grid/nextglyphcolor"@,
        "/background/flash"@ != "/grid/noglyph"@,
        "/background/flash"@ != "/grid/overwrite"@,
        "/background/flash"@ != "/grid/transitiontrigger"@,
        "/background/flash"@ != "/grid/transitionauto"@,
        "/background/flash"@ != "/grid/togglevisibility"@,
        "/background/flash"@ != "/grid/setvisibility"@,
        "/background/flash"@ != "/grid/togglecolorful"@,
        "/background/flash"@ != "/grid/setcolorful"@,
        "/background/flash"@ != "/grid/setpowereffect"@,
        "/background/flash"@ != "/transition/update"@,
        "/background/color_fade"@ != "/grid/glyph"@,
        "/background/color_fade"@ != "/grid/instantglyphcolor"@,
        "/background/color_fade"@ != "/grid/nextglyph"@,
        "/background/color_fade"@ != "/grid/nextglyphcolor"@,
        "/background/color_fade"@ != "/grid/noglyph"@,
        "/background/color_fade"@ != "/grid/overwrite"@,
        "/background/color_fade"@ != "/grid/transitiontrigger"@,
        "/background/color_fade"@ != "/grid/transitionauto"@,
        "/background/color_fade"@ != "/grid/togglevisibility"@,
        "/background/color_fade"@ != "/grid/setvisibility"@,
        "/background/color_fade"@ != "/grid/togglecolorful"@,
        "/background/color_fade"@ != "/grid/setcolorful"@,
        "/background/color_fade"@ != "/grid/setpowereffect"@,
        "/background/color_fade"@ != "/transition/update"@,
        "/grid/glyph"@ != "/grid/instantglyphcolor"@,
        "/grid/glyph"@ != "/grid/nextglyph"@,
        "/grid/glyph"@ != "/grid/nextglyphcolor"@,
        "/grid/glyph"@ != "/grid/noglyph"@,
        "/grid/glyph"@ != "/grid/overwrite"@,
        "/grid/glyph"@ != "/grid/transitiontrigger"@,
        "/grid/glyph"@ != "/grid/transitionauto"@,
        "/grid/glyph"@ != "/grid/togglevisibility"@,
        "/grid/glyph"@ != "/grid/setvisibility"@,
        "/grid/glyph"@ != "/grid/togglecolorful"@,
        "/grid/glyph"@ != "/grid/setcolorful"@,
        "/grid/glyph"@ != "/grid/setpowereffect"@,
        "/grid/glyph"@ != "/transition/update"@,
        "/grid/instantglyphcolor"@ != "/grid/nextglyph"@,
        "/grid/instantglyphcolor"@ != "/grid/nextglyphcolor"@,
        "/grid/instantglyphcolor"@ != "/grid/noglyph"@,
        "/grid/instantglyphcolor"@ != "/grid/overwrite"@,
        "/grid/instantglyphcolor"@ != "/grid/transitiontrigger"@,
        "/grid/instantglyphcolor"@ != "/grid/transitionauto"@,
        "/grid/instantglyphcolor"@ != "/grid/togglevisibility"@,
        "/grid/instantglyphcolor"@ != "/grid/setvisibility"@,
        "/grid/instantglyphcolor"@ != "/grid/togglecolorful"@,
        "/grid/instantglyphcolor"@ != "/grid/setcolorful"@,
        "/grid/instantglyphcolor"@ != "/grid/setpowereffect"@,
        "/grid/instantglyphcolor"@ != "/transition/update"@,
        "/grid/nextglyph"@ != "/grid/nextglyphcolor"@,
        "/grid/nextglyph"@ != "/grid/noglyph"@,
        "/grid/nextglyph"@ != "/grid/overwrite"@,
        "/grid/nextglyph"@ != "/grid/transitiontrigger"@,
        "/grid/nextglyph"@ != "/grid/transitionauto"@,
        "/grid/nextglyph"@ != "/grid/togglevisibility"@,
        "/grid/nextglyph"@ != "/grid/setvisibility"@,
        "/grid/nextglyph"@ != "/grid/togglecolorful"@,
        "/grid/nextglyph"@ != "/grid/setcolorful"@,
        "/grid/nextglyph"@ != "/grid/setpowereffect"@,
        "/grid/nextglyph"@ != "/transition/update"@,
        "/grid/nextglyphcolor"@ != "/grid/noglyph"@,
        "/grid/nextglyphcolor"@ != "/grid/overwrite"@,
        "/grid/nextglyphcolor"@ != "/grid/transitiontrigger"@,
        "/grid/nextglyphcolor"@ != "/grid/transitionauto"@,
        "/grid/nextglyphcolor"@ != "/grid/togglevisibility"@,
        "/grid/nextglyphcolor"@ != "/grid/setvisibility"@,
        "/grid/nextglyphcolor"@ != "/grid/togglecolorful"@,
        "/grid/nextglyphcolor"@ != "/grid/setcolorful"@,
        "/grid/nextglyphcolor"@ != "/grid/setpowereffect"@,
        "/grid/nextglyphcolor"@ != "/transition/update"@,
        "/grid/noglyph"@ != "/grid/overwrite"@,
        "/grid/noglyph"@ != "/grid/transitiontrigger"@,
        "/grid/noglyph"@ != "/grid/transitionauto"@,
        "/grid/noglyph"@ != "/grid/togglevisibility"@,
        "/grid/noglyph"@ != "/grid/setvisibility"@,
        "/grid/noglyph"@ != "/grid/togglecolorful"@,
        "/grid/noglyph"@ != "/grid/setcolorful"@,
        "/grid/noglyph"@ != "/grid/setpowereffect"@,
        "/grid/noglyph"@ != "/transition/update"@,
        "/grid/overwrite"@ != "/grid/transitiontrigger"@,
        "/grid/overwrite"@ != "/grid/transitionauto"@,
        "/grid/overwrite"@ != "/grid/togglevisibility"@,
        "/grid/overwrite"@ != "/grid/setvisibility"@,
        "/grid/overwrite"@ != "/grid/togglecolorful"@,
        "/grid/overwrite"@ != "/grid/setcolorful"@,
        "/grid/overwrite"@ != "/grid/setpowereffect"@,
        "/grid/overwrite"@ != "/transition/update"@,
        "/grid/transitiontrigger"@ != "/grid/transitionauto"@,
        "/grid/transitiontrigger"@ != "/grid/togglevisibility"@,
        "/grid/transitiontrigger"@ != "/grid/setvisibility"@,
        "/grid/transitiontrigger"@ != "/grid/togglecolorful"@,
        "/grid/transitiontrigger"@ != "/grid/setcolorful"@,
        "/grid/transitiontrigger"@ != "/grid/setpowereffect"@,
        "/grid/transitiontrigger"@ != "/transition/update"@,
        "/grid/transitionauto"@ != "/grid/togglevisibility"@,
        "/grid/transitionauto"@ != "/grid/setvisibility"@,
        "/grid/transitionauto"@ != "/grid/togglecolorful"@,
        "/grid/transitionauto"@ != "/grid/setcolorful"@,
        "/grid/transitionauto"@ != "/grid/setpowereffect"@,
        "/grid/transitionauto"@ != "/transition/update"@,
        "/grid/togglevisibility"@ != "/grid/setvisibility"@,
        "/grid/togglevisibility"@ != "/grid/togglecolorful"@,
        "/grid/togglevisibility"@ != "/grid/setcolorful"@,
        "/grid/togglevisibility"@ != "/grid/setpowereffect"@,
        "/grid/togglevisibility"@ != "/transition/update"@,
        "/grid/setvisibility"@ != "/grid/togglecolorful"@,
        "/grid/setvisibility"@ != "/grid/setcolorful"@,
        "/grid/setvisibility"@ != "/grid/setpowereffect"@,
        "/grid/setvisibility"@ != "/transition/update"@,
        "/grid/togglecolorful"@ != "/grid/setcolorful"@,
        "/grid/togglecolorful"@ != "/grid/setpowereffect"@,
        "/grid/togglecolorful"@ != "/transition/update"@,
        "/grid/setcolorful"@ != "/grid/setpowereffect"@,
        "/grid/setcolorful"@ != "/transition/update"@,
        "/grid/setpowereffect"@ != "/transition/update"@,
{
    reveal_strlit("/recorder/start");
    reveal_strlit("/recorder/stop");
    reveal_strlit("/grid/backbone_fade");
    reveal_strlit("/grid/create");
    reveal_strlit("/grid/move");
    reveal_strlit("/grid/rotate");
    reveal_strlit("/grid/scale");
    reveal_strlit("/grid/slide");
    reveal_strlit("/background/flash");
    reveal_strlit("/background/color_fade");
    reveal_strlit("/grid/glyph");
    reveal_strlit("/grid/instantglyphcolor");
    reveal_strlit("/grid/nextglyph");
    reveal_strlit("/grid/nextglyphcolor");
    reveal_strlit("/grid/noglyph");
    reveal_strlit("/grid/overwrite");
    reveal_strlit("/grid/transitiontrigger");
    reveal_strlit("/grid/transitionauto");
    reveal_strlit("/grid/togglevisibility");
    reveal_strlit("/grid/setvisibility");
    reveal_strlit("/grid/togglecolorful");
    reveal_strlit("/grid/setcolorful");
    reveal_strlit("/grid/setpowereffect");
    reveal_strlit("/transition/update");
    assert("/recorder/start"@.len() == 15);
    assert("/recorder/stop"@.len() == 14);
    assert("/grid/backbone_fade"@.len() == 19);
    assert("/grid/create"@.len() == 12);
    assert("/grid/move"@.len() == 10);
    assert("/grid/rotate"@.len() == 12);
    assert("/grid/scale"@.len() == 11);
    assert("/grid/slide"@.len() == 11);
    assert("/background/flash"@.len() == 17);
    assert("/background/color_fade"@.len() == 22);
    assert("/grid/glyph"@.len() == 11);
    assert("/grid/instantglyphcolor"@.len() == 23);
    assert("/grid/nextglyph"@.len() == 15);
    assert("/grid/nextglyphcolor"@.len() == 20);
    assert("/grid/noglyph"@.len() == 13);
    assert("/grid/overwrite"@.len() == 15);
    assert("/grid/transitiontrigger"@.len() == 23);
    assert("/grid/transitionauto"@.len() == 20);
    assert("/grid/togglevisibility"@.len() == 22);
    assert("/grid/setvisibility"@.len() == 19);
    assert("/grid/togglecolorful"@.len() == 20);
    assert("/grid/setcolorful"@.len() == 17);
    assert("/grid/setpowereffect"@.len() == 20);
    assert("/transition/update"@.len() == 18);
    assert("/recorder/start"@[1] != "/grid/nextglyph"@[1]);
    assert("/recorder/start"@[1] != "/grid/overwrite"@[1]);
    assert("/grid/backbone_fade"@[6] != "/grid/setvisibility"@[6]);
    assert("/grid/create"@[6] != "/grid/rotate"@[6]);
    assert("/grid/scale"@[7] != "/grid/slide"@[7]);
    assert("/grid/scale"@[6] != "/grid/glyph"@[6]);
    assert("/grid/slide"@[6] != "/grid/glyph"@[6]);
    assert("/background/flash"@[1] != "/grid/setcolorful"@[1]);
    assert("/background/color_fade"@[1] != "/grid/togglevisibility"@[1]);
    assert("/grid/instantglyphcolor"@[6] != "/grid/transitiontrigger"@[6]);
    assert("/grid/nextglyph"@[6] != "/grid/overwrite"@[6]);
    assert("/grid/nextglyphcolor"@[6] != "/grid/transitionauto"@[6]);
    assert("/grid/nextglyphcolor"@[6] != "/grid/togglecolorful"@[6]);
    assert("/grid/nextglyphcolor"@[6] != "/grid/setpowereffect"@[6]);
    assert("/grid/transitionauto"@[7] != "/grid/togglecolorful"@[7]);
    assert("/grid/transitionauto"@[6] != "/grid/setpowereffect"@[6]);
    assert("/grid/togglecolorful"@[6] != "/grid/setpowereffect"@[6]);
}

fn arg_str(args: &Vec<OscArg>, i: usize) -> (r: Option<String>)
    ensures
        match r {
            Some(s) => i < args@.len() && is_s(args@[i as int]@) && s@ == s_of(args@[i as int]@),
            None => !(i < args@.len() && is_s(args@[i as int]@)),
        },
{
    if i < args.len() {
        match &args[i] {
            OscArgOf::Str(s) => Some(s.clone()),
            _ => None,
        }
    } else {
        None
    }
}

fn arg_float(args: &Vec<OscArg>, i: usize) -> (r: Option<F32Bits>)
    ensures
        match r {
            Some(f) => i < args@.len() && is_f(args@[i as int]@) && f == f_of(args@[i as int]@),
            None => !(i < args@.len() && is_f(args@[i as int]@)),
        },
{
    if i < args.len() {
        match &args[i] {
            OscArgOf::Float(f) => Some(*f),
            _ => None,
        }
    } else {
        None
    }
}

fn arg_int(args: &Vec<OscArg>, i: usize) -> (r: Option<i32>)
    ensures
        match r {
            Some(v) => i < args@.len() && is_i(args@[i as int]@) && v == i_of(args@[i as int]@),
            None => !(i < args@.len() && is_i(args@[i as int]@)),
        },
{
    if i < args.len() {
        match &args[i] {
            OscArgOf::Int(v) => Some(*v),
            _ => None,
        }
    } else {
        None
    }
}

/// A string argument followed by `n` float arguments, and nothing else.
fn string_and_floats(args: &Vec<OscArg>, n: usize) -> (r: Option<(String, Vec<F32Bits>)>)
    requires
        n < 16,
    ensures
        match r {
            Some((s, fs)) => s_then_floats(args_view(args@), n as nat) && s@ == s_of(
                args_view(args@)[0],
            ) && fs@.len() == n && forall|i: int|
                1 <= i <= n ==> fs@[i - 1] == f_of(#[trigger] args_view(args@)[i]),
            None => !s_then_floats(args_view(args@), n as nat),
        },
{
    if args.len() != n + 1 {
        return None;
    }
    let name = match arg_str(args, 0) {
        Some(s) => s,
        None => {
            assert(!is_s(args_view(args@)[0]));
            return None;
        },
    };
    let mut fs: Vec<F32Bits> = Vec::new();
    let mut i: usize = 0;
    while i < n
        invariant
            args@.len() == n + 1,
            n < 16,
            i <= n,
            fs@.len() == i,
            forall|j: int| 0 <= j < i ==> is_f(#[trigger] args@[j + 1]@),
            forall|j: int| 0 <= j < i ==> fs@[j] == f_of(#[trigger] args@[j + 1]@),
        decreases n - i,
    {
        match arg_float(args, i + 1) {
            Some(f) => {
                fs.push(f);
            },
            None => {
                assert(!is_f(args_view(args@)[i + 1]));
                return None;
            },
        }
        i = i + 1;
    }
    proof {
        assert forall|j: int| 1 <= j <= n implies is_f(#[trigger] args_view(args@)[j]) && fs@[j
            - 1] == f_of(args_view(args@)[j]) by {
            assert(is_f(args@[(j - 1) + 1]@));
            assert(fs@[j - 1] == f_of(args@[(j - 1) + 1]@));
        }
    }
    Some((name, fs))
}

/// Four float arguments and nothing else.
fn four_floats(args: &Vec<OscArg>) -> (r: Option<(F32Bits, F32Bits, F32Bits, F32Bits)>)
    ensures
        match r {
            Some((a, b, c, d)) => all_floats(args_view(args@), 4) && a == f_of(args@[0]@) && b
                == f_of(args@[1]@) && c == f_of(args@[2]@) && d == f_of(args@[3]@),
            None => !all_floats(args_view(args@), 4),
        },
{
    if args.len() != 4 {
        return None;
    }
    assert(args_view(args@).len() == 4);
    assert(args_view(args@)[0] == args@[0]@);
    assert(args_view(args@)[1] == args@[1]@);
    assert(args_view(args@)[2] == args@[2]@);
    assert(args_view(args@)[3] == args@[3]@);
    match (arg_float(args, 0), arg_float(args, 1), arg_float(args, 2), arg_float(args, 3)) {
        (Some(a), Some(b), Some(c), Some(d)) => {
            assert forall|i: int| 0 <= i < 4 implies is_f(#[trigger] args_view(args@)[i]) by {}
            Some((a, b, c, d))
        },
        _ => None,
    }
}

/// A string argument followed by an int argument, and nothing else.
fn string_and_int(args: &Vec<OscArg>) -> (r: Option<(String, i32)>)
    ensures
        match r {
            Some((s, v)) => args@.len() == 2 && is_s(args@[0]@) && is_i(args@[1]@) && s@ == s_of(
                args@[0]@,
            ) && v == i_of(args@[1]@),
            None => !(args@.len() == 2 && is_s(args@[0]@) && is_i(args@[1]@)),
        },
{
    if args.len() != 2 {
        return None;
    }
    match (arg_str(args, 0), arg_int(args, 1)) {
        (Some(s), Some(v)) => Some((s, v)),
        _ => None,
    }
}

/// A single string argument.
fn lone_string(args: &Vec<OscArg>) -> (r: Option<String>)
    ensures
        match r {
            Some(s) => args@.len() == 1 && is_s(args@[0]@) && s@ == s_of(args@[0]@),
            None => !(args@.len() == 1 && is_s(args@[0]@)),
        },
{
    if args.len() != 1 {
        return None;
    }
    arg_str(args, 0)
}

/// Decodes one OSC message into a command, as the OSC controller does for
/// every message it receives.
pub fn decode_message(addr: &str, args: &Vec<OscArg>) -> (r: Decoded)
    ensures
        r@ == decode_spec(addr@, args_view(args@)),
{
    let ghost av = args_view(args@);
    assert(forall|i: int| 0 <= i < args@.len() ==> #[trigger] av[i] == args@[i]@);
    if str_eq(addr, "/recorder/start") {
        DecodedOf::Command(OscCommandOf::RecorderStart {  })
    } else if str_eq(addr, "/recorder/stop") {
        DecodedOf::Command(OscCommandOf::RecorderStop {  })
    } else if str_eq(addr, "/grid/backbone_fade") {
        match string_and_floats(args, 5) {
            Some((name, fs)) => DecodedOf::Command(
                OscCommandOf::GridBackboneFade {
                    name,
                    r: fs[0],
                    g: fs[1],
                    b: fs[2],
                    a: fs[3],
                    duration: fs[4],
                },
            ),
            None => DecodedOf::Malformed,
        }
    } else if str_eq(addr, "/grid/create") {
        if args.len() == 5 {
            match (
                arg_str(args, 0),
                arg_str(args, 1),
                arg_float(args, 2),
                arg_float(args, 3),
                arg_float(args, 4),
            ) {
                (Some(name), Some(show), Some(x), Some(y), Some(rot)) => DecodedOf::Command(
                    OscCommandOf::GridCreate { name, show, position: (x, y), rotation: rot },
                ),
                _ => DecodedOf::Malformed,
            }
        } else {
            DecodedOf::Malformed
        }
    } else if str_eq(addr, "/grid/move") {
        match string_and_floats(args, 3) {
            Some((name, fs)) => DecodedOf::Command(
                OscCommandOf::GridMove { name, x: fs[0], y: fs[1], duration: fs[2] },
            ),
            None => DecodedOf::Malformed,
        }
    } else if str_eq(addr, "/grid/rotate") {
        match string_and_floats(args, 1) {
            Some((name, fs)) => DecodedOf::Command(OscCommandOf::GridRotate { name, angle: fs[0] }),
            None => DecodedOf::Malformed,
        }
    } else if str_eq(addr, "/grid/scale") {
        match string_and_floats(args, 1) {
            Some((name, fs)) => DecodedOf::Command(OscCommandOf::GridScale { name, scale: fs[0] }),
            None => DecodedOf::Malformed,
        }
    } else if str_eq(addr, "/grid/slide") {
        if args.len() == 4 {
            match (arg_str(args, 0), arg_str(args, 1), arg_int(args, 2), arg_float(args, 3)) {
                (Some(name), Some(axis), Some(number), Some(distance)) => DecodedOf::Command(
                    OscCommandOf::GridSlide { name, axis, number, distance },
                ),
                _ => DecodedOf::Malformed,
            }
        } else {
            DecodedOf::Malformed
        }
    } else if str_eq(addr, "/background/flash") {
        match four_floats(args) {
            Some((r, g, b, duration)) => DecodedOf::Command(
                OscCommandOf::BackgroundFlash { r, g, b, duration },
            ),
            None => DecodedOf::Malformed,
        }
    } else if str_eq(addr, "/background/color_fade") {
        match four_floats(args) {
            Some((r, g, b, duration)) => DecodedOf::Command(
                OscCommandOf::BackgroundColorFade { r, g, b, duration },
            ),
            None => DecodedOf::Malformed,
        }
    } else if str_eq(addr, "/grid/glyph") {
        if args.len() == 3 {
            match (arg_str(args, 0), arg_int(args, 1), arg_int(args, 2)) {
                (Some(grid_name), Some(index), Some(animation_type)) => DecodedOf::Command(
                    OscCommandOf::GridGlyph {
                        grid_name,
                        glyph_index: #[verifier::truncate] (index as usize),
                        animation_type_msg: animation_type,
                    },
                ),
                _ => DecodedOf::Malformed,
            }
        } else {
            DecodedOf::Malformed
        }
    } else if str_eq(addr, "/grid/instantglyphcolor") {
        match string_and_floats(args, 4) {
            Some((grid_name, fs)) => DecodedOf::Command(
                OscCommandOf::GridInstantGlyphColor {
                    grid_name,
                    r: fs[0],
                    g: fs[1],
                    b: fs[2],
                    a: fs[3],
                },
            ),
            None => DecodedOf::Malformed,
        }
    } else if str_eq(addr, "/grid/nextglyph") {
        match string_and_int(args) {
            Some((grid_name, animation_type_msg)) => DecodedOf::Command(
                OscCommandOf::GridNextGlyph { grid_name, animation_type_msg },
            ),
            None => DecodedOf::Malformed,
        }
    } else if str_eq(addr, "/grid/nextglyphcolor") {
        match string_and_floats(args, 4) {
            Some((grid_name, fs)) => DecodedOf::Command(
                OscCommandOf::GridNextGlyphColor { grid_name, r: fs[0], g: fs[1], b: fs[2], a: fs[3] },
            ),
            None => DecodedOf::Malformed,
        }
    } else if str_eq(addr, "/grid/noglyph") {
        match string_and_int(args) {
            Some((grid_name, animation_type_msg)) => DecodedOf::Command(
                OscCommandOf::GridNoGlyph { grid_name, animation_type_msg },
            ),
            None => DecodedOf::Malformed,
        }
    } else if str_eq(addr, "/grid/overwrite") {
        match lone_string(args) {
            Some(grid_name) => DecodedOf::Command(OscCommandOf::GridOverwrite { grid_name }),
            None => DecodedOf::Malformed,
        }
    } else if str_eq(addr, "/grid/transitiontrigger") {
        match lone_string(args) {
            Some(grid_name) => DecodedOf::Command(OscCommandOf::GridTransitionTrigger { grid_name }),
            None => DecodedOf::Malformed,
        }
    } else if str_eq(addr, "/grid/transitionauto") {
        match lone_string(args) {
            Some(grid_name) => DecodedOf::Command(OscCommandOf::GridTransitionAuto { grid_name }),
            None => DecodedOf::Malformed,
        }
    } else if str_eq(addr, "/grid/togglevisibility") {
        match lone_string(args) {
            Some(grid_name) => DecodedOf::Command(OscCommandOf::GridToggleVisibility { grid_name }),
            None => DecodedOf::Malformed,
        }
    } else if str_eq(addr, "/grid/setvisibility") {
        match string_and_int(args) {
            Some((grid_name, setting)) => DecodedOf::Command(
                OscCommandOf::GridSetVisibility { grid_name, setting: setting != 0 },
            ),
            None => DecodedOf::Malformed,
        }
    } else if str_eq(addr, "/grid/togglecolorful") {
        match lone_string(args) {
            Some(grid_name) => DecodedOf::Command(OscCommandOf::GridToggleColorful { grid_name }),
            None => DecodedOf::Malformed,
        }
    } else if str_eq(addr, "/grid/setcolorful") {
        match string_and_int(args) {
            Some((grid_name, setting)) => DecodedOf::Command(
                OscCommandOf::GridSetColorful { grid_name, setting: setting != 0 },
            ),
            None => DecodedOf::Malformed,
        }
    } else if str_eq(addr, "/grid/setpowereffect") {
        match string_and_int(args) {
            Some((grid_name, setting)) => DecodedOf::Command(
                OscCommandOf::GridSetPowerEffect { grid_name, setting: setting != 0 },
            ),
            None => DecodedOf::Malformed,
        }
    } else if str_eq(addr, "/transition/update") {
        let grid_name = match arg_str(args, 0) {
            Some(s) => s,
            None => String::new(),
        };
        let steps = match arg_int(args, 1) {
            Some(s) => Some(#[verifier::truncate] (s as usize)),
            None => None,
        };
        let frame_duration = arg_float(args, 2);
        let wandering = arg_float(args, 3);
        let density = arg_float(args, 4);
        DecodedOf::Command(
            OscCommandOf::TransitionUpdate { grid_name, steps, frame_duration, wandering, density },
        )
    } else {
        DecodedOf::UnknownAddress
    }
}

} // verus!

verus! {

/// The commands, in order, that a run of messages decodes to; messages that
/// do not decode to a command contribute nothing.
pub open spec fn decoded_commands(msgs: Seq<(Seq<char>, Seq<ArgView>)>) -> Seq<CommandView>
    decreases msgs.len(),
{
    if msgs.len() == 0 {
        Seq::empty()
    } else {
        let rest = decoded_commands(msgs.drop_last());
        match decode_spec(msgs.last().0, msgs.last().1) {
            DecodedOf::Command(c) => rest.push(c),
            _ => rest,
        }
    }
}

/// The addresses, in order, of the messages whose address is unknown.
pub open spec fn unknown_addresses(msgs: Seq<(Seq<char>, Seq<ArgView>)>) -> Seq<Seq<char>>
    decreases msgs.len(),
{
    if msgs.len() == 0 {
        Seq::empty()
    } else {
        let rest = unknown_addresses(msgs.drop_last());
        match decode_spec(msgs.last().0, msgs.last().1) {
            DecodedOf::UnknownAddress => rest.push(msgs.last().0),
            _ => rest,
        }
    }
}

/// The queue of commands received between two updates of the application.
pub struct OscController {
    command_queue: Vec<OscCommand>,
}

impl OscController {
    /// The queued commands, oldest first.
    pub closed spec fn queue(&self) -> Seq<CommandView> {
        self.command_queue@.map_values(|c: OscCommand| c@)
    }

    /// A controller with an empty queue.
    pub fn new() -> (r: Self)
        ensures
            r.queue() == Seq::<CommandView>::empty(),
    {
        let r = OscController { command_queue: Vec::new() };
        assert(r.queue() =~= Seq::<CommandView>::empty());
        r
    }

    /// Decodes one received message and queues the command it carries.
    /// Returns `false` when the address is unknown (the caller reports it).
    pub fn process_message(&mut self, message: &OscMessage) -> (known: bool)
        ensures
            known == !(decode_spec(message@.0, message@.1) is UnknownAddress),
            final(self).queue() == match decode_spec(message@.0, message@.1) {
                DecodedOf::Command(c) => old(self).queue().push(c),
                _ => old(self).queue(),
            },
    {
        let decoded = decode_message(message.addr.as_str(), &message.args);
        match decoded {
            DecodedOf::Command(c) => {
                let ghost before = self.command_queue@;
                self.command_queue.push(c);
                assert(self.queue() =~= before.map_values(|c: OscCommand| c@).push(c@));
                true
            },
            DecodedOf::Malformed => true,
            DecodedOf::UnknownAddress => false,
        }
    }

    /// Decodes every received message in order and queues the commands;
    /// returns the addresses it did not know, in order.
    pub fn process_messages(&mut self, messages: &Vec<OscMessage>) -> (unknown: Vec<String>)
        ensures
            final(self).queue() == old(self).queue() + decoded_commands(
                messages@.map_values(|m: OscMessage| m@),
            ),
            unknown@.map_values(|s: String| s@) == unknown_addresses(
                messages@.map_values(|m: OscMessage| m@),
            ),
    {
        let ghost ms = messages@.map_values(|m: OscMessage| m@);
        let mut unknown: Vec<String> = Vec::new();
        let mut i: usize = 0;
        while i < messages.len()
            invariant
                i <= messages@.len(),
                ms == messages@.map_values(|m: OscMessage| m@),
                self.queue() == old(self).queue() + decoded_commands(ms.subrange(0, i as int)),
                unknown@.map_values(|s: String| s@) == unknown_addresses(
                    ms.subrange(0, i as int),
                ),
            decreases messages@.len() - i,
        {
            let ghost q = self.queue();
            assert(ms.subrange(0, i + 1).drop_last() =~= ms.subrange(0, i as int));
            assert(ms.subrange(0, i + 1).last() == messages@[i as int]@);
            let known = self.process_message(&messages[i]);
            if !known {
                let ghost before = unknown@;
                unknown.push(messages[i].addr.clone());
                assert(unknown@.map_values(|s: String| s@) =~= before.map_values(|s: String| s@).push(
                    messages@[i as int].addr@,
                ));
            }
            assert(self.queue() =~= old(self).queue() + decoded_commands(
                ms.subrange(0, i + 1),
            ));
            i = i + 1;
        }
        assert(ms.subrange(0, i as int) =~= ms);
        unknown
    }

    /// Hands out the queued commands, oldest first, and empties the queue.
    pub fn take_commands(&mut self) -> (r: Vec<OscCommand>)
        ensures
            r@.map_values(|c: OscCommand| c@) == old(self).queue(),
            final(self).queue() == Seq::<CommandView>::empty(),
    {
        let mut r: Vec<OscCommand> = Vec::new();
        std::mem::swap(&mut r, &mut self.command_queue);
        assert(self.queue() =~= Seq::<CommandView>::empty());
        r
    }
}

} // verus!
