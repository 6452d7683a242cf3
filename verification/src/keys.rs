//! The keyboard shortcuts.  Most keys drive the application the way an OSC
//! client would: they send the application's own OSC messages, one per grid
//! or one in all.  A few act directly: the debug display, the boundary test
//! and the quit request.

use vstd::prelude::*;
use crate::osc::{ArgView, F32Bits, OscArgOf, OscMessage};
use crate::osc_encode::{
    background_color_fade_message, background_flash_message, create_grid_message, f_arg, glyph_message,
    grid_backbone_fade_message, grid_overwrite_message, grid_slide_message, i_arg, instant_glyph_color_message,
    move_grid_message, next_glyph_color_message, next_glyph_message, no_glyph_message, recorder_start_message,
    recorder_stop_message, rotate_grid_message, s_arg, scale_grid_message, set_power_effect_message,
    toggle_colorful_message, toggle_visibility_message, transition_auto_message, transition_trigger_message,
};
use crate::text::str_eq;

verus! {

/// The keys that do something.
#[derive(Debug, Clone, Copy, PartialEq, Eq, Structural)]
pub enum Key {
    Space,
    Backslash,
    N,
    C,
    X,
    Key1,
    Key2,
    Key3,
    Key4,
    Key5,
    Key6,
    Key9,
    Key0,
    G,
    E,
    D,
    H,
    I,
    J,
    B,
    V,
    M,
    Comma,
    Right,
    Left,
    Up,
    Down,
    T,
    Y,
    Z,
    RShift,
    LShift,
    R,
    P,
    Q,
    Other,
}

/// A message as plain values: address and arguments.
pub type MessageView = (Seq<char>, Seq<ArgView>);

/// A float given by its bit pattern.
pub open spec fn fb(bits: u32) -> F32Bits {
    F32Bits { bits }
}

fn bits(b: u32) -> (r: F32Bits)
    ensures
        r == fb(b),
{
    F32Bits { bits: b }
}

/// A message that a key sends to each chosen grid.
#[derive(Clone, Copy)]
pub enum PerGrid {
    NextGlyph(i32),
    Move(F32Bits, F32Bits, F32Bits),
    NoGlyph(i32),
    Overwrite,
    Glyph(i32, i32),
    /// Slide along x (`true`) or y, row or column, distance.
    Slide(bool, i32, F32Bits),
    BackboneFade(F32Bits, F32Bits, F32Bits, F32Bits, F32Bits),
    ToggleVisibility,
    PowerEffect(i32),
    ToggleColorful,
    NextGlyphColor(F32Bits, F32Bits, F32Bits, F32Bits),
    Scale(F32Bits),
    Rotate(F32Bits),
    TransitionTrigger,
    TransitionAuto,
}

/// The message `t` for grid `name`.
pub open spec fn per_grid_spec(t: PerGrid, name: Seq<char>) -> MessageView {
    match t {
        PerGrid::NextGlyph(a) => ("/grid/nextglyph"@, seq![s_arg(name), i_arg(a)]),
        PerGrid::Move(x, y, d) => ("/grid/move"@, seq![s_arg(name), f_arg(x), f_arg(y), f_arg(d)]),
        PerGrid::NoGlyph(a) => ("/grid/noglyph"@, seq![s_arg(name), i_arg(a)]),
        PerGrid::Overwrite => ("/grid/overwrite"@, seq![s_arg(name)]),
        PerGrid::Glyph(i, a) => ("/grid/glyph"@, seq![s_arg(name), i_arg(i), i_arg(a)]),
        PerGrid::Slide(along_x, n, d) => (
            "/grid/slide"@,
            seq![s_arg(name), s_arg(if along_x { "x"@ } else { "y"@ }), i_arg(n), f_arg(d)],
        ),
        PerGrid::BackboneFade(r, g, b, a, d) => (
            "/grid/backbone_fade"@,
            seq![s_arg(name), f_arg(r), f_arg(g), f_arg(b), f_arg(a), f_arg(d)],
        ),
        PerGrid::ToggleVisibility => ("/grid/togglevisibility"@, seq![s_arg(name)]),
        PerGrid::PowerEffect(s) => ("/grid/setpowereffect"@, seq![s_arg(name), i_arg(s)]),
        PerGrid::ToggleColorful => ("/grid/togglecolorful"@, seq![s_arg(name)]),
        PerGrid::NextGlyphColor(r, g, b, a) => (
            "/grid/nextglyphcolor"@,
            seq![s_arg(name), f_arg(r), f_arg(g), f_arg(b), f_arg(a)],
        ),
        PerGrid::Scale(s) => ("/grid/scale"@, seq![s_arg(name), f_arg(s)]),
        PerGrid::Rotate(a) => ("/grid/rotate"@, seq![s_arg(name), f_arg(a)]),
        PerGrid::TransitionTrigger => ("/grid/transitiontrigger"@, seq![s_arg(name)]),
        PerGrid::TransitionAuto => ("/grid/transitionauto"@, seq![s_arg(name)]),
    }
}

/// The message `t` for grid `name`.
pub fn per_grid_message(t: PerGrid, name: &str) -> (msg: OscMessage)
    ensures
        msg@ == per_grid_spec(t, name@),
{
    match t {
        PerGrid::NextGlyph(a) => next_glyph_message(name, a),
        PerGrid::Move(x, y, d) => move_grid_message(name, x, y, d),
        PerGrid::NoGlyph(a) => no_glyph_message(name, a),
        PerGrid::Overwrite => grid_overwrite_message(name),
        PerGrid::Glyph(i, a) => glyph_message(name, i, a),
        PerGrid::Slide(along_x, n, d) => {
            if along_x {
                grid_slide_message(name, "x", n, d)
            } else {
                grid_slide_message(name, "y", n, d)
            }
        },
        PerGrid::BackboneFade(r, g, b, a, d) => grid_backbone_fade_message(name, r, g, b, a, d),
        PerGrid::ToggleVisibility => toggle_visibility_message(name),
        PerGrid::PowerEffect(setting) => set_power_effect_message(name, setting),
        PerGrid::ToggleColorful => toggle_colorful_message(name),
        PerGrid::NextGlyphColor(r, g, b, a) => next_glyph_color_message(name, r, g, b, a),
        PerGrid::Scale(sc) => scale_grid_message(name, sc),
        PerGrid::Rotate(a) => rotate_grid_message(name, a),
        PerGrid::TransitionTrigger => transition_trigger_message(name),
        PerGrid::TransitionAuto => transition_auto_message(name),
    }
}

/// Which grids a key addresses: all of them, only the one with the test
/// name, or all but that one.
#[derive(Clone, Copy, PartialEq, Eq, Structural)]
pub enum Selector {
    All,
    Only,
    AllBut,
}

/// The grid that some keys single out.
pub open spec fn special_grid() -> Seq<char> {
    "grid_2"@
}

pub open spec fn selected(sel: Selector, name: Seq<char>) -> bool {
    match sel {
        Selector::All => true,
        Selector::Only => name == special_grid(),
        Selector::AllBut => name != special_grid(),
    }
}

/// The messages `t` for the chosen grids among `names`, in order.
pub open spec fn for_grids_spec(names: Seq<Seq<char>>, sel: Selector, t: PerGrid) -> Seq<MessageView>
    decreases names.len(),
{
    if names.len() == 0 {
        Seq::empty()
    } else {
        let rest = for_grids_spec(names.drop_last(), sel, t);
        if selected(sel, names.last()) {
            rest.push(per_grid_spec(t, names.last()))
        } else {
            rest
        }
    }
}

pub open spec fn messages_view(v: Seq<OscMessage>) -> Seq<MessageView> {
    v.map_values(|m: OscMessage| m@)
}

fn for_grids(names: &Vec<String>, sel: Selector, t: PerGrid) -> (r: Vec<OscMessage>)
    ensures
        messages_view(r@) == for_grids_spec(names@.map_values(|n: String| n@), sel, t),
{
    let ghost nv = names@.map_values(|n: String| n@);
    let mut r: Vec<OscMessage> = Vec::new();
    let mut i: usize = 0;
    while i < names.len()
        invariant
            nv == names@.map_values(|n: String| n@),
            i <= nv.len(),
            messages_view(r@) == for_grids_spec(nv.subrange(0, i as int), sel, t),
        decreases nv.len() - i,
    {
        let name = names[i].as_str();
        let ghost before = messages_view(r@);
        assert(nv.subrange(0, i + 1).drop_last() =~= nv.subrange(0, i as int));
        assert(nv.subrange(0, i + 1).last() == name@);
        let is_special = str_eq(name, "grid_2");
        let take = match sel {
            Selector::All => true,
            Selector::Only => is_special,
            Selector::AllBut => !is_special,
        };
        if take {
            let m = per_grid_message(t, name);
            r.push(m);
            assert(messages_view(r@) =~= before.push(per_grid_spec(t, name@)));
        }
        i = i + 1;
    }
    assert(nv.subrange(0, i as int) =~= nv);
    r
}

/// The random-colour messages of the `I` key: for each grid but the one
/// singled out, the colour drawn for it, fully opaque.
pub open spec fn color_messages_spec(names: Seq<Seq<char>>, colors: Seq<(F32Bits, F32Bits, F32Bits)>) -> Seq<
    MessageView,
>
    decreases names.len(),
{
    if names.len() == 0 {
        Seq::empty()
    } else {
        let k = names.len() - 1;
        let rest = color_messages_spec(names.drop_last(), colors);
        if names[k] != special_grid() {
            rest.push(
                (
                    "/grid/instantglyphcolor"@,
                    seq![
                        s_arg(names[k]),
                        f_arg(colors[k].0),
                        f_arg(colors[k].1),
                        f_arg(colors[k].2),
                        f_arg(fb(0x3f80_0000)),
                    ],
                ),
            )
        } else {
            rest
        }
    }
}

/// The three test grids that `G` creates when there is none.
pub open spec fn test_grids_spec() -> Seq<MessageView> {
    let zero = f_arg(fb(0));
    seq![
        ("/grid/create"@, seq![s_arg("grid_1"@), s_arg("wesa"@), zero, zero, zero]),
        ("/grid/create"@, seq![s_arg("grid_2"@), s_arg("wesa"@), zero, zero, zero]),
        ("/grid/create"@, seq![s_arg("grid_3"@), s_arg("wesa"@), zero, zero, zero]),
        ("/grid/togglevisibility"@, seq![s_arg("grid_1"@)]),
        ("/grid/togglevisibility"@, seq![s_arg("grid_2"@)]),
        ("/grid/togglevisibility"@, seq![s_arg("grid_3"@)]),
    ]
}

/// What a key does: the messages it sends, and whether it runs the
/// boundary test, switches the debug display, or asks to quit.
pub struct KeyResponse {
    pub messages: Vec<OscMessage>,
    pub boundary_test: bool,
    pub toggle_debug: bool,
    pub quit: bool,
}

/// The per-grid message of a key, and which grids it goes to.
pub open spec fn per_grid_key(key: Key) -> Option<(Selector, PerGrid)> {
    match key {
        Key::Space => Some((Selector::All, PerGrid::NextGlyph(2))),
        Key::Backslash => Some((Selector::All, PerGrid::Move(fb(0), fb(0), fb(0)))),
        Key::N => Some((Selector::All, PerGrid::NextGlyph(1))),
        Key::C => Some((Selector::All, PerGrid::NoGlyph(1))),
        Key::X => Some((Selector::All, PerGrid::NoGlyph(0))),
        Key::Key1 => Some((Selector::All, PerGrid::Overwrite)),
        Key::Key2 => Some((Selector::All, PerGrid::Glyph(2, 0))),
        Key::Key3 => Some((Selector::All, PerGrid::Slide(false, 2, fb(0x4248_0000)))),
        Key::Key4 => Some((Selector::All, PerGrid::Slide(false, 2, fb(0xc248_0000)))),
        Key::Key5 => Some((Selector::All, PerGrid::Slide(true, 2, fb(0x4248_0000)))),
        Key::Key6 => Some((Selector::All, PerGrid::Slide(true, 2, fb(0xc248_0000)))),
        Key::Key9 => Some(
            (
                Selector::All,
                PerGrid::BackboneFade(fb(0x3e42_8f5c), fb(0x3e42_8f5c), fb(0x3e42_8f5c), fb(0), fb(0)),
            ),
        ),
        Key::Key0 => Some(
            (
                Selector::All,
                PerGrid::BackboneFade(
                    fb(0x3e42_8f5c),
                    fb(0x3e42_8f5c),
                    fb(0x3e42_8f5c),
                    fb(0x3f80_0000),
                    fb(0x4040_0000),
                ),
            ),
        ),
        Key::E => Some((Selector::All, PerGrid::PowerEffect(1))),
        Key::H => Some((Selector::AllBut, PerGrid::ToggleColorful)),
        Key::J => Some(
            (
                Selector::AllBut,
                PerGrid::NextGlyphColor(fb(0x3f51_eb85), fb(0), fb(0x3e0f_5c29), fb(0x3f80_0000)),
            ),
        ),
        Key::Up => Some((Selector::All, PerGrid::Scale(fb(0x3e4c_cccd)))),
        Key::Down => Some((Selector::All, PerGrid::Scale(fb(0x3f80_0000)))),
        Key::T => Some((Selector::All, PerGrid::Rotate(fb(0x40a0_0000)))),
        Key::Y => Some((Selector::All, PerGrid::Rotate(fb(0xc0a0_0000)))),
        Key::RShift => Some((Selector::Only, PerGrid::TransitionTrigger)),
        Key::LShift => Some((Selector::Only, PerGrid::TransitionAuto)),
        _ => None,
    }
}

/// A key message for every grid, in order.
proof fn lemma_for_all(names: Seq<Seq<char>>, t: PerGrid)
    ensures
        for_grids_spec(names, Selector::All, t) == names.map_values(|n: Seq<char>| per_grid_spec(t, n)),
    decreases names.len(),
{
    if names.len() == 0 {
        assert(names.map_values(|n: Seq<char>| per_grid_spec(t, n)) =~= Seq::<MessageView>::empty());
    } else {
        lemma_for_all(names.drop_last(), t);
        assert(names.map_values(|n: Seq<char>| per_grid_spec(t, n)) =~= names.drop_last().map_values(
            |n: Seq<char>| per_grid_spec(t, n),
        ).push(per_grid_spec(t, names.last())));
    }
}

/// A key message for the chosen grids, in order.
proof fn lemma_for_chosen(names: Seq<Seq<char>>, sel: Selector, t: PerGrid)
    ensures
        for_grids_spec(names, sel, t) == names.filter(|n: Seq<char>| selected(sel, n)).map_values(
            |n: Seq<char>| per_grid_spec(t, n),
        ),
    decreases names.len(),
{
    reveal(Seq::filter);
    let p = |n: Seq<char>| selected(sel, n);
    let f = |n: Seq<char>| per_grid_spec(t, n);
    if names.len() == 0 {
        assert(names.filter(p).map_values(f) =~= Seq::<MessageView>::empty());
    } else {
        lemma_for_chosen(names.drop_last(), sel, t);
        if selected(sel, names.last()) {
            assert(names.filter(p) == names.drop_last().filter(p).push(names.last()));
            assert(names.filter(p).map_values(f) =~= names.drop_last().filter(p).map_values(f).push(f(names.last())));
        } else {
            assert(names.filter(p) == names.drop_last().filter(p));
        }
    }
}

/// Keys 3 and 4 slide row 2 of every grid along y by 50 units forward and
/// back; keys 5 and 6 slide it along x by 50 units forward and back.
pub proof fn lemma_slide_keys(names: Seq<Seq<char>>, recording: bool, colors: Seq<(F32Bits, F32Bits, F32Bits)>)
    ensures
        key_messages_spec(Key::Key3, names, recording, colors) == names.map_values(|n: Seq<char>| ("/grid/slide"@, seq![OscArgOf::Str(n), OscArgOf::Str("y"@), OscArgOf::<Seq<char>>::Int(2i32), OscArgOf::<Seq<char>>::Float(F32Bits { bits: 0x4248_0000 })])),
        key_messages_spec(Key::Key4, names, recording, colors) == names.map_values(|n: Seq<char>| ("/grid/slide"@, seq![OscArgOf::Str(n), OscArgOf::Str("y"@), OscArgOf::<Seq<char>>::Int(2i32), OscArgOf::<Seq<char>>::Float(F32Bits { bits: 0xc248_0000 })])),
        key_messages_spec(Key::Key5, names, recording, colors) == names.map_values(|n: Seq<char>| ("/grid/slide"@, seq![OscArgOf::Str(n), OscArgOf::Str("x"@), OscArgOf::<Seq<char>>::Int(2i32), OscArgOf::<Seq<char>>::Float(F32Bits { bits: 0x4248_0000 })])),
        key_messages_spec(Key::Key6, names, recording, colors) == names.map_values(|n: Seq<char>| ("/grid/slide"@, seq![OscArgOf::Str(n), OscArgOf::Str("x"@), OscArgOf::<Seq<char>>::Int(2i32), OscArgOf::<Seq<char>>::Float(F32Bits { bits: 0xc248_0000 })])),
{
    match per_grid_key(Key::Key3) {
        Some((_, t)) => {
            lemma_for_all(names, t);
        },
        None => {},
    }
    assert(key_messages_spec(Key::Key3, names, recording, colors) =~= names.map_values(|n: Seq<char>| ("/grid/slide"@, seq![OscArgOf::Str(n), OscArgOf::Str("y"@), OscArgOf::<Seq<char>>::Int(2i32), OscArgOf::<Seq<char>>::Float(F32Bits { bits: 0x4248_0000 })])));
    match per_grid_key(Key::Key4) {
        Some((_, t)) => {
            lemma_for_all(names, t);
        },
        None => {},
    }
    assert(key_messages_spec(Key::Key4, names, recording, colors) =~= names.map_values(|n: Seq<char>| ("/grid/slide"@, seq![OscArgOf::Str(n), OscArgOf::Str("y"@), OscArgOf::<Seq<char>>::Int(2i32), OscArgOf::<Seq<char>>::Float(F32Bits { bits: 0xc248_0000 })])));
    match per_grid_key(Key::Key5) {
        Some((_, t)) => {
            lemma_for_all(names, t);
        },
        None => {},
    }
    assert(key_messages_spec(Key::Key5, names, recording, colors) =~= names.map_values(|n: Seq<char>| ("/grid/slide"@, seq![OscArgOf::Str(n), OscArgOf::Str("x"@), OscArgOf::<Seq<char>>::Int(2i32), OscArgOf::<Seq<char>>::Float(F32Bits { bits: 0x4248_0000 })])));
    match per_grid_key(Key::Key6) {
        Some((_, t)) => {
            lemma_for_all(names, t);
        },
        None => {},
    }
    assert(key_messages_spec(Key::Key6, names, recording, colors) =~= names.map_values(|n: Seq<char>| ("/grid/slide"@, seq![OscArgOf::Str(n), OscArgOf::Str("x"@), OscArgOf::<Seq<char>>::Int(2i32), OscArgOf::<Seq<char>>::Float(F32Bits { bits: 0xc248_0000 })])));
}

/// Up scales every grid to 0.2 and Down back to 1; T rotates every grid by
/// 5 degrees and Y by -5.
pub proof fn lemma_scale_rotate_keys(names: Seq<Seq<char>>, recording: bool, colors: Seq<(F32Bits, F32Bits, F32Bits)>)
    ensures
        key_messages_spec(Key::Up, names, recording, colors) == names.map_values(|n: Seq<char>| ("/grid/scale"@, seq![OscArgOf::Str(n), OscArgOf::<Seq<char>>::Float(F32Bits { bits: 0x3e4c_cccd })])),
        key_messages_spec(Key::Down, names, recording, colors) == names.map_values(|n: Seq<char>| ("/grid/scale"@, seq![OscArgOf::Str(n), OscArgOf::<Seq<char>>::Float(F32Bits { bits: 0x3f80_0000 })])),
        key_messages_spec(Key::T, names, recording, colors) == names.map_values(|n: Seq<char>| ("/grid/rotate"@, seq![OscArgOf::Str(n), OscArgOf::<Seq<char>>::Float(F32Bits { bits: 0x40a0_0000 })])),
        key_messages_spec(Key::Y, names, recording, colors) == names.map_values(|n: Seq<char>| ("/grid/rotate"@, seq![OscArgOf::Str(n), OscArgOf::<Seq<char>>::Float(F32Bits { bits: 0xc0a0_0000 })])),
{
    match per_grid_key(Key::Up) {
        Some((_, t)) => {
            lemma_for_all(names, t);
        },
        None => {},
    }
    assert(key_messages_spec(Key::Up, names, recording, colors) =~= names.map_values(|n: Seq<char>| ("/grid/scale"@, seq![OscArgOf::Str(n), OscArgOf::<Seq<char>>::Float(F32Bits { bits: 0x3e4c_cccd })])));
    match per_grid_key(Key::Down) {
        Some((_, t)) => {
            lemma_for_all(names, t);
        },
        None => {},
    }
    assert(key_messages_spec(Key::Down, names, recording, colors) =~= names.map_values(|n: Seq<char>| ("/grid/scale"@, seq![OscArgOf::Str(n), OscArgOf::<Seq<char>>::Float(F32Bits { bits: 0x3f80_0000 })])));
    match per_grid_key(Key::T) {
        Some((_, t)) => {
            lemma_for_all(names, t);
        },
        None => {},
    }
    assert(key_messages_spec(Key::T, names, recording, colors) =~= names.map_values(|n: Seq<char>| ("/grid/rotate"@, seq![OscArgOf::Str(n), OscArgOf::<Seq<char>>::Float(F32Bits { bits: 0x40a0_0000 })])));
    match per_grid_key(Key::Y) {
        Some((_, t)) => {
            lemma_for_all(names, t);
        },
        None => {},
    }
    assert(key_messages_spec(Key::Y, names, recording, colors) =~= names.map_values(|n: Seq<char>| ("/grid/rotate"@, seq![OscArgOf::Str(n), OscArgOf::<Seq<char>>::Float(F32Bits { bits: 0xc0a0_0000 })])));
}

/// The glyph keys, for every grid: Space writes the next glyph (animation
/// 2), N steps to it (animation 1), C and X clear the glyph (animation 1
/// and 0), 1 overwrites it, 2 stages glyph 2 (animation 0), and the
/// backslash moves the grid back to the origin at once.
pub proof fn lemma_glyph_keys(names: Seq<Seq<char>>, recording: bool, colors: Seq<(F32Bits, F32Bits, F32Bits)>)
    ensures
        key_messages_spec(Key::Space, names, recording, colors) == names.map_values(|n: Seq<char>| ("/grid/nextglyph"@, seq![OscArgOf::Str(n), OscArgOf::<Seq<char>>::Int(2i32)])),
        key_messages_spec(Key::N, names, recording, colors) == names.map_values(|n: Seq<char>| ("/grid/nextglyph"@, seq![OscArgOf::Str(n), OscArgOf::<Seq<char>>::Int(1i32)])),
        key_messages_spec(Key::C, names, recording, colors) == names.map_values(|n: Seq<char>| ("/grid/noglyph"@, seq![OscArgOf::Str(n), OscArgOf::<Seq<char>>::Int(1i32)])),
        key_messages_spec(Key::X, names, recording, colors) == names.map_values(|n: Seq<char>| ("/grid/noglyph"@, seq![OscArgOf::Str(n), OscArgOf::<Seq<char>>::Int(0i32)])),
        key_messages_spec(Key::Key1, names, recording, colors) == names.map_values(|n: Seq<char>| ("/grid/overwrite"@, seq![OscArgOf::Str(n)])),
        key_messages_spec(Key::Key2, names, recording, colors) == names.map_values(|n: Seq<char>| ("/grid/glyph"@, seq![OscArgOf::Str(n), OscArgOf::<Seq<char>>::Int(2i32), OscArgOf::<Seq<char>>::Int(0i32)])),
        key_messages_spec(Key::Backslash, names, recording, colors) == names.map_values(|n: Seq<char>| ("/grid/move"@, seq![OscArgOf::Str(n), OscArgOf::<Seq<char>>::Float(F32Bits { bits: 0 }), OscArgOf::<Seq<char>>::Float(F32Bits { bits: 0 }), OscArgOf::<Seq<char>>::Float(F32Bits { bits: 0 })])),
{
    match per_grid_key(Key::Space) {
        Some((_, t)) => {
            lemma_for_all(names, t);
        },
        None => {},
    }
    assert(key_messages_spec(Key::Space, names, recording, colors) =~= names.map_values(|n: Seq<char>| ("/grid/nextglyph"@, seq![OscArgOf::Str(n), OscArgOf::<Seq<char>>::Int(2i32)])));
    match per_grid_key(Key::N) {
        Some((_, t)) => {
            lemma_for_all(names, t);
        },
        None => {},
    }
    assert(key_messages_spec(Key::N, names, recording, colors) =~= names.map_values(|n: Seq<char>| ("/grid/nextglyph"@, seq![OscArgOf::Str(n), OscArgOf::<Seq<char>>::Int(1i32)])));
    match per_grid_key(Key::C) {
        Some((_, t)) => {
            lemma_for_all(names, t);
        },
        None => {},
    }
    assert(key_messages_spec(Key::C, names, recording, colors) =~= names.map_values(|n: Seq<char>| ("/grid/noglyph"@, seq![OscArgOf::Str(n), OscArgOf::<Seq<char>>::Int(1i32)])));
    match per_grid_key(Key::X) {
        Some((_, t)) => {
            lemma_for_all(names, t);
        },
        None => {},
    }
    assert(key_messages_spec(Key::X, names, recording, colors) =~= names.map_values(|n: Seq<char>| ("/grid/noglyph"@, seq![OscArgOf::Str(n), OscArgOf::<Seq<char>>::Int(0i32)])));
    match per_grid_key(Key::Key1) {
        Some((_, t)) => {
            lemma_for_all(names, t);
        },
        None => {},
    }
    assert(key_messages_spec(Key::Key1, names, recording, colors) =~= names.map_values(|n: Seq<char>| ("/grid/overwrite"@, seq![OscArgOf::Str(n)])));
    match per_grid_key(Key::Key2) {
        Some((_, t)) => {
            lemma_for_all(names, t);
        },
        None => {},
    }
    assert(key_messages_spec(Key::Key2, names, recording, colors) =~= names.map_values(|n: Seq<char>| ("/grid/glyph"@, seq![OscArgOf::Str(n), OscArgOf::<Seq<char>>::Int(2i32), OscArgOf::<Seq<char>>::Int(0i32)])));
    match per_grid_key(Key::Backslash) {
        Some((_, t)) => {
            lemma_for_all(names, t);
        },
        None => {},
    }
    assert(key_messages_spec(Key::Backslash, names, recording, colors) =~= names.map_values(|n: Seq<char>| ("/grid/move"@, seq![OscArgOf::Str(n), OscArgOf::<Seq<char>>::Float(F32Bits { bits: 0 }), OscArgOf::<Seq<char>>::Float(F32Bits { bits: 0 }), OscArgOf::<Seq<char>>::Float(F32Bits { bits: 0 })])));
}

/// 9 fades every grid's backbone to transparent grey at once, 0 fades it in
/// to opaque grey over 3 seconds, and E switches the power-on effect on.
pub proof fn lemma_effect_keys(names: Seq<Seq<char>>, recording: bool, colors: Seq<(F32Bits, F32Bits, F32Bits)>)
    ensures
        key_messages_spec(Key::Key9, names, recording, colors) == names.map_values(|n: Seq<char>| ("/grid/backbone_fade"@, seq![OscArgOf::Str(n), OscArgOf::<Seq<char>>::Float(F32Bits { bits: 0x3e42_8f5c }), OscArgOf::<Seq<char>>::Float(F32Bits { bits: 0x3e42_8f5c }), OscArgOf::<Seq<char>>::Float(F32Bits { bits: 0x3e42_8f5c }), OscArgOf::<Seq<char>>::Float(F32Bits { bits: 0 }), OscArgOf::<Seq<char>>::Float(F32Bits { bits: 0 })])),
        key_messages_spec(Key::Key0, names, recording, colors) == names.map_values(|n: Seq<char>| ("/grid/backbone_fade"@, seq![OscArgOf::Str(n), OscArgOf::<Seq<char>>::Float(F32Bits { bits: 0x3e42_8f5c }), OscArgOf::<Seq<char>>::Float(F32Bits { bits: 0x3e42_8f5c }), OscArgOf::<Seq<char>>::Float(F32Bits { bits: 0x3e42_8f5c }), OscArgOf::<Seq<char>>::Float(F32Bits { bits: 0x3f80_0000 }), OscArgOf::<Seq<char>>::Float(F32Bits { bits: 0x4040_0000 })])),
        key_messages_spec(Key::E, names, recording, colors) == names.map_values(|n: Seq<char>| ("/grid/setpowereffect"@, seq![OscArgOf::Str(n), OscArgOf::<Seq<char>>::Int(1i32)])),
{
    match per_grid_key(Key::Key9) {
        Some((_, t)) => {
            lemma_for_all(names, t);
        },
        None => {},
    }
    assert(key_messages_spec(Key::Key9, names, recording, colors) =~= names.map_values(|n: Seq<char>| ("/grid/backbone_fade"@, seq![OscArgOf::Str(n), OscArgOf::<Seq<char>>::Float(F32Bits { bits: 0x3e42_8f5c }), OscArgOf::<Seq<char>>::Float(F32Bits { bits: 0x3e42_8f5c }), OscArgOf::<Seq<char>>::Float(F32Bits { bits: 0x3e42_8f5c }), OscArgOf::<Seq<char>>::Float(F32Bits { bits: 0 }), OscArgOf::<Seq<char>>::Float(F32Bits { bits: 0 })])));
    match per_grid_key(Key::Key0) {
        Some((_, t)) => {
            lemma_for_all(names, t);
        },
        None => {},
    }
    assert(key_messages_spec(Key::Key0, names, recording, colors) =~= names.map_values(|n: Seq<char>| ("/grid/backbone_fade"@, seq![OscArgOf::Str(n), OscArgOf::<Seq<char>>::Float(F32Bits { bits: 0x3e42_8f5c }), OscArgOf::<Seq<char>>::Float(F32Bits { bits: 0x3e42_8f5c }), OscArgOf::<Seq<char>>::Float(F32Bits { bits: 0x3e42_8f5c }), OscArgOf::<Seq<char>>::Float(F32Bits { bits: 0x3f80_0000 }), OscArgOf::<Seq<char>>::Float(F32Bits { bits: 0x4040_0000 })])));
    match per_grid_key(Key::E) {
        Some((_, t)) => {
            lemma_for_all(names, t);
        },
        None => {},
    }
    assert(key_messages_spec(Key::E, names, recording, colors) =~= names.map_values(|n: Seq<char>| ("/grid/setpowereffect"@, seq![OscArgOf::Str(n), OscArgOf::<Seq<char>>::Int(1i32)])));
}

/// H switches colourful mode and J sends the next glyph colour to every
/// grid but grid 2; the shifts trigger a transition (right shift) or make
/// transitions automatic (left shift) on grid 2 alone.
pub proof fn lemma_selective_keys(names: Seq<Seq<char>>, recording: bool, colors: Seq<(F32Bits, F32Bits, F32Bits)>)
    ensures
        key_messages_spec(Key::H, names, recording, colors) == names.filter(|n: Seq<char>| n != "grid_2"@).map_values(|n: Seq<char>| ("/grid/togglecolorful"@, seq![OscArgOf::Str(n)])),
        key_messages_spec(Key::J, names, recording, colors) == names.filter(|n: Seq<char>| n != "grid_2"@).map_values(|n: Seq<char>| ("/grid/nextglyphcolor"@, seq![OscArgOf::Str(n), OscArgOf::<Seq<char>>::Float(F32Bits { bits: 0x3f51_eb85 }), OscArgOf::<Seq<char>>::Float(F32Bits { bits: 0 }), OscArgOf::<Seq<char>>::Float(F32Bits { bits: 0x3e0f_5c29 }), OscArgOf::<Seq<char>>::Float(F32Bits { bits: 0x3f80_0000 })])),
        key_messages_spec(Key::RShift, names, recording, colors) == names.filter(|n: Seq<char>| n == "grid_2"@).map_values(|n: Seq<char>| ("/grid/transitiontrigger"@, seq![OscArgOf::Str(n)])),
        key_messages_spec(Key::LShift, names, recording, colors) == names.filter(|n: Seq<char>| n == "grid_2"@).map_values(|n: Seq<char>| ("/grid/transitionauto"@, seq![OscArgOf::Str(n)])),
{
    lemma_for_chosen(names, Selector::AllBut, PerGrid::ToggleColorful);
    assert((|n: Seq<char>| selected(Selector::AllBut, n)) =~= (|n: Seq<char>| n != "grid_2"@));
    assert(key_messages_spec(Key::H, names, recording, colors) =~= names.filter(|n: Seq<char>| n != "grid_2"@).map_values(|n: Seq<char>| ("/grid/togglecolorful"@, seq![OscArgOf::Str(n)])));
    lemma_for_chosen(names, Selector::AllBut, PerGrid::NextGlyphColor(fb(0x3f51_eb85), fb(0), fb(0x3e0f_5c29), fb(0x3f80_0000)));
    assert((|n: Seq<char>| selected(Selector::AllBut, n)) =~= (|n: Seq<char>| n != "grid_2"@));
    assert(key_messages_spec(Key::J, names, recording, colors) =~= names.filter(|n: Seq<char>| n != "grid_2"@).map_values(|n: Seq<char>| ("/grid/nextglyphcolor"@, seq![OscArgOf::Str(n), OscArgOf::<Seq<char>>::Float(F32Bits { bits: 0x3f51_eb85 }), OscArgOf::<Seq<char>>::Float(F32Bits { bits: 0 }), OscArgOf::<Seq<char>>::Float(F32Bits { bits: 0x3e0f_5c29 }), OscArgOf::<Seq<char>>::Float(F32Bits { bits: 0x3f80_0000 })])));
    lemma_for_chosen(names, Selector::Only, PerGrid::TransitionTrigger);
    assert((|n: Seq<char>| selected(Selector::Only, n)) =~= (|n: Seq<char>| n == "grid_2"@));
    assert(key_messages_spec(Key::RShift, names, recording, colors) =~= names.filter(|n: Seq<char>| n == "grid_2"@).map_values(|n: Seq<char>| ("/grid/transitiontrigger"@, seq![OscArgOf::Str(n)])));
    lemma_for_chosen(names, Selector::Only, PerGrid::TransitionAuto);
    assert((|n: Seq<char>| selected(Selector::Only, n)) =~= (|n: Seq<char>| n == "grid_2"@));
    assert(key_messages_spec(Key::LShift, names, recording, colors) =~= names.filter(|n: Seq<char>| n == "grid_2"@).map_values(|n: Seq<char>| ("/grid/transitionauto"@, seq![OscArgOf::Str(n)])));
}

/// G creates the three test grids "grid_1" to "grid_3" with show "wesa" at
/// the origin and shows them, when there is no grid; else it toggles every
/// grid's visibility.  R starts the recorder, or stops it when it runs.
/// D, Z, P, Q and other keys send nothing.
pub proof fn lemma_grid_and_recorder_keys(names: Seq<Seq<char>>, recording: bool, colors: Seq<(F32Bits, F32Bits, F32Bits)>)
    ensures
        names.len() == 0 ==> key_messages_spec(Key::G, names, recording, colors) == seq![
            ("/grid/create"@, seq![OscArgOf::Str("grid_1"@), OscArgOf::Str("wesa"@), OscArgOf::<Seq<char>>::Float(F32Bits { bits: 0 }), OscArgOf::<Seq<char>>::Float(F32Bits { bits: 0 }), OscArgOf::<Seq<char>>::Float(F32Bits { bits: 0 })]),
            ("/grid/create"@, seq![OscArgOf::Str("grid_2"@), OscArgOf::Str("wesa"@), OscArgOf::<Seq<char>>::Float(F32Bits { bits: 0 }), OscArgOf::<Seq<char>>::Float(F32Bits { bits: 0 }), OscArgOf::<Seq<char>>::Float(F32Bits { bits: 0 })]),
            ("/grid/create"@, seq![OscArgOf::Str("grid_3"@), OscArgOf::Str("wesa"@), OscArgOf::<Seq<char>>::Float(F32Bits { bits: 0 }), OscArgOf::<Seq<char>>::Float(F32Bits { bits: 0 }), OscArgOf::<Seq<char>>::Float(F32Bits { bits: 0 })]),
            ("/grid/togglevisibility"@, seq![OscArgOf::Str("grid_1"@)]),
            ("/grid/togglevisibility"@, seq![OscArgOf::Str("grid_2"@)]),
            ("/grid/togglevisibility"@, seq![OscArgOf::Str("grid_3"@)]),
        ],
        names.len() > 0 ==> key_messages_spec(Key::G, names, recording, colors) == names.map_values(
            |n: Seq<char>| ("/grid/togglevisibility"@, seq![OscArgOf::Str(n)]),
        ),
        key_messages_spec(Key::R, names, recording, colors) == seq![
            (if recording { "/recorder/stop"@ } else { "/recorder/start"@ }, Seq::<ArgView>::empty()),
        ],
        key_messages_spec(Key::D, names, recording, colors) == Seq::<MessageView>::empty(),
        key_messages_spec(Key::Z, names, recording, colors) == Seq::<MessageView>::empty(),
        key_messages_spec(Key::P, names, recording, colors) == Seq::<MessageView>::empty(),
        key_messages_spec(Key::Q, names, recording, colors) == Seq::<MessageView>::empty(),
        key_messages_spec(Key::Other, names, recording, colors) == Seq::<MessageView>::empty(),
{
    lemma_for_all(names, PerGrid::ToggleVisibility);
    assert(names.len() > 0 ==> key_messages_spec(Key::G, names, recording, colors) =~= names.map_values(
        |n: Seq<char>| ("/grid/togglevisibility"@, seq![OscArgOf::Str(n)]),
    ));
    assert(names.len() == 0 ==> key_messages_spec(Key::G, names, recording, colors) =~= seq![
            ("/grid/create"@, seq![OscArgOf::Str("grid_1"@), OscArgOf::Str("wesa"@), OscArgOf::<Seq<char>>::Float(F32Bits { bits: 0 }), OscArgOf::<Seq<char>>::Float(F32Bits { bits: 0 }), OscArgOf::<Seq<char>>::Float(F32Bits { bits: 0 })]),
            ("/grid/create"@, seq![OscArgOf::Str("grid_2"@), OscArgOf::Str("wesa"@), OscArgOf::<Seq<char>>::Float(F32Bits { bits: 0 }), OscArgOf::<Seq<char>>::Float(F32Bits { bits: 0 }), OscArgOf::<Seq<char>>::Float(F32Bits { bits: 0 })]),
            ("/grid/create"@, seq![OscArgOf::Str("grid_3"@), OscArgOf::Str("wesa"@), OscArgOf::<Seq<char>>::Float(F32Bits { bits: 0 }), OscArgOf::<Seq<char>>::Float(F32Bits { bits: 0 }), OscArgOf::<Seq<char>>::Float(F32Bits { bits: 0 })]),
            ("/grid/togglevisibility"@, seq![OscArgOf::Str("grid_1"@)]),
            ("/grid/togglevisibility"@, seq![OscArgOf::Str("grid_2"@)]),
            ("/grid/togglevisibility"@, seq![OscArgOf::Str("grid_3"@)]),
        ]);
}

/// B flashes the background white for 0.1 seconds; V fades it to red, M to
/// black and the comma to (0.6, 0.2, 0.5), each over 10 seconds; the right
/// arrow moves grid 3 and the left arrow grid 1 by 700 units right and left
/// over 3 seconds.
pub proof fn lemma_one_message_keys(names: Seq<Seq<char>>, recording: bool, colors: Seq<(F32Bits, F32Bits, F32Bits)>)
    ensures
        key_messages_spec(Key::B, names, recording, colors) == seq![
            ("/background/flash"@, seq![OscArgOf::<Seq<char>>::Float(F32Bits { bits: 0x3f80_0000 }), OscArgOf::<Seq<char>>::Float(F32Bits { bits: 0x3f80_0000 }), OscArgOf::<Seq<char>>::Float(F32Bits { bits: 0x3f80_0000 }), OscArgOf::<Seq<char>>::Float(F32Bits { bits: 0x3dcc_cccd })]),
        ],
        key_messages_spec(Key::V, names, recording, colors) == seq![
            ("/background/color_fade"@, seq![OscArgOf::<Seq<char>>::Float(F32Bits { bits: 0x3f80_0000 }), OscArgOf::<Seq<char>>::Float(F32Bits { bits: 0 }), OscArgOf::<Seq<char>>::Float(F32Bits { bits: 0 }), OscArgOf::<Seq<char>>::Float(F32Bits { bits: 0x4120_0000 })]),
        ],
        key_messages_spec(Key::M, names, recording, colors) == seq![
            ("/background/color_fade"@, seq![OscArgOf::<Seq<char>>::Float(F32Bits { bits: 0 }), OscArgOf::<Seq<char>>::Float(F32Bits { bits: 0 }), OscArgOf::<Seq<char>>::Float(F32Bits { bits: 0 }), OscArgOf::<Seq<char>>::Float(F32Bits { bits: 0x4120_0000 })]),
        ],
        key_messages_spec(Key::Comma, names, recording, colors) == seq![
            ("/background/color_fade"@, seq![OscArgOf::<Seq<char>>::Float(F32Bits { bits: 0x3f19_999a }), OscArgOf::<Seq<char>>::Float(F32Bits { bits: 0x3e4c_cccd }), OscArgOf::<Seq<char>>::Float(F32Bits { bits: 0x3f00_0000 }), OscArgOf::<Seq<char>>::Float(F32Bits { bits: 0x4120_0000 })]),
        ],
        key_messages_spec(Key::Right, names, recording, colors) == seq![
            ("/grid/move"@, seq![OscArgOf::Str("grid_3"@), OscArgOf::<Seq<char>>::Float(F32Bits { bits: 0x442f_0000 }), OscArgOf::<Seq<char>>::Float(F32Bits { bits: 0 }), OscArgOf::<Seq<char>>::Float(F32Bits { bits: 0x4040_0000 })]),
        ],
        key_messages_spec(Key::Left, names, recording, colors) == seq![
            ("/grid/move"@, seq![OscArgOf::Str("grid_1"@), OscArgOf::<Seq<char>>::Float(F32Bits { bits: 0xc42f_0000 }), OscArgOf::<Seq<char>>::Float(F32Bits { bits: 0 }), OscArgOf::<Seq<char>>::Float(F32Bits { bits: 0x4040_0000 })]),
        ],
{
}

/// The colour messages for the grids at the positions below `m` but grid 2.
proof fn lemma_color_positions(names: Seq<Seq<char>>, colors: Seq<(F32Bits, F32Bits, F32Bits)>)
    ensures
        color_messages_spec(names, colors) == Seq::new(names.len(), |k: int| k).filter(
            |k: int| names[k] != "grid_2"@,
        ).map_values(
            |k: int|
                (
                    "/grid/instantglyphcolor"@,
                    seq![
                        OscArgOf::Str(names[k]),
                        OscArgOf::<Seq<char>>::Float(colors[k].0),
                        OscArgOf::<Seq<char>>::Float(colors[k].1),
                        OscArgOf::<Seq<char>>::Float(colors[k].2),
                        OscArgOf::<Seq<char>>::Float(F32Bits { bits: 0x3f80_0000 }),
                    ],
                ),
        ),
    decreases names.len(),
{
    reveal(Seq::filter);
    let n = names.len();
    let idx = Seq::new(n, |k: int| k);
    let p = |k: int| names[k] != "grid_2"@;
    let f = |k: int|
        (
            "/grid/instantglyphcolor"@,
            seq![
                OscArgOf::Str(names[k]),
                OscArgOf::<Seq<char>>::Float(colors[k].0),
                OscArgOf::<Seq<char>>::Float(colors[k].1),
                OscArgOf::<Seq<char>>::Float(colors[k].2),
                OscArgOf::<Seq<char>>::Float(F32Bits { bits: 0x3f80_0000 }),
            ],
        );
    if n == 0 {
        assert(idx.filter(p).map_values(f) =~= Seq::<MessageView>::empty());
    } else {
        let pre = names.drop_last();
        lemma_color_positions(pre, colors);
        let idx0 = Seq::new(pre.len(), |k: int| k);
        let p0 = |k: int| pre[k] != "grid_2"@;
        let f0 = |k: int|
            (
                "/grid/instantglyphcolor"@,
                seq![
                    OscArgOf::Str(pre[k]),
                    OscArgOf::<Seq<char>>::Float(colors[k].0),
                    OscArgOf::<Seq<char>>::Float(colors[k].1),
                    OscArgOf::<Seq<char>>::Float(colors[k].2),
                    OscArgOf::<Seq<char>>::Float(F32Bits { bits: 0x3f80_0000 }),
                ],
            );
        assert(idx.drop_last() =~= idx0);
        assert(idx.last() == n - 1);
        assert forall|k: int| 0 <= k < idx0.len() implies p(idx0[k]) == p0(idx0[k]) && f(idx0[k]) == f0(idx0[k]) by {
            assert(names[k] == pre[k]);
        }
        assert(idx0.filter(p) == idx0.filter(p0)) by {
            lemma_filter_same(idx0, p, p0);
        }
        lemma_filter_in_range(idx0, p0, pre.len() as int);
        assert(idx0.filter(p0).map_values(f) =~= idx0.filter(p0).map_values(f0)) by {
            assert forall|i: int| 0 <= i < idx0.filter(p0).len() implies f(idx0.filter(p0)[i]) == f0(idx0.filter(p0)[i]) by {
                let k = idx0.filter(p0)[i];
                assert(0 <= k < pre.len());
                assert(names[k] == pre[k]);
            }
        }
        if p(n - 1) {
            assert(idx.filter(p) == idx0.filter(p).push(n - 1));
            assert(idx.filter(p).map_values(f) =~= idx0.filter(p).map_values(f).push(f(n - 1)));
        } else {
            assert(idx.filter(p) == idx0.filter(p));
        }
    }
}

/// Two predicates that agree on a sequence keep the same elements of it.
proof fn lemma_filter_same(s: Seq<int>, p: spec_fn(int) -> bool, q: spec_fn(int) -> bool)
    requires
        forall|k: int| 0 <= k < s.len() ==> p(s[k]) == q(s[k]),
    ensures
        s.filter(p) == s.filter(q),
    decreases s.len(),
{
    reveal(Seq::filter);
    if s.len() > 0 {
        lemma_filter_same(s.drop_last(), p, q);
        assert(p(s.last()) == q(s.last()));
    }
}

/// The positions kept from `0 .. m` lie below `m`.
proof fn lemma_filter_in_range(s: Seq<int>, p: spec_fn(int) -> bool, m: int)
    requires
        forall|k: int| 0 <= k < s.len() ==> 0 <= #[trigger] s[k] < m,
    ensures
        forall|i: int| 0 <= i < s.filter(p).len() ==> 0 <= #[trigger] s.filter(p)[i] < m,
{
    assert forall|i: int| 0 <= i < s.filter(p).len() implies 0 <= #[trigger] s.filter(p)[i] < m by {
        s.lemma_filter_contains_rev(p, s.filter(p)[i]);
    }
}

/// I sends, to every grid but grid 2, the colour drawn for that grid, fully
/// opaque, in the order of the grids.
pub proof fn lemma_color_key(names: Seq<Seq<char>>, recording: bool, colors: Seq<(F32Bits, F32Bits, F32Bits)>)
    ensures
        key_messages_spec(Key::I, names, recording, colors) == Seq::new(names.len(), |k: int| k).filter(
            |k: int| names[k] != "grid_2"@,
        ).map_values(
            |k: int|
                (
                    "/grid/instantglyphcolor"@,
                    seq![
                        OscArgOf::Str(names[k]),
                        OscArgOf::<Seq<char>>::Float(colors[k].0),
                        OscArgOf::<Seq<char>>::Float(colors[k].1),
                        OscArgOf::<Seq<char>>::Float(colors[k].2),
                        OscArgOf::<Seq<char>>::Float(F32Bits { bits: 0x3f80_0000 }),
                    ],
                ),
        ),
{
    lemma_color_positions(names, colors);
}

/// The messages of a key, given the grids (in the order the application
/// keeps them), whether the recorder runs, and the colour drawn for each
/// grid.
pub open spec fn key_messages_spec(
    key: Key,
    names: Seq<Seq<char>>,
    recording: bool,
    colors: Seq<(F32Bits, F32Bits, F32Bits)>,
) -> Seq<MessageView> {
    match per_grid_key(key) {
        Some((sel, t)) => for_grids_spec(names, sel, t),
        None => match key {
            Key::G => if names.len() == 0 {
                test_grids_spec()
            } else {
                for_grids_spec(names, Selector::All, PerGrid::ToggleVisibility)
            },
            Key::I => color_messages_spec(names, colors),
            Key::B => seq![
                (
                    "/background/flash"@,
                    seq![f_arg(fb(0x3f80_0000)), f_arg(fb(0x3f80_0000)), f_arg(fb(0x3f80_0000)), f_arg(fb(0x3dcc_cccd))],
                ),
            ],
            Key::V => seq![
                (
                    "/background/color_fade"@,
                    seq![f_arg(fb(0x3f80_0000)), f_arg(fb(0)), f_arg(fb(0)), f_arg(fb(0x4120_0000))],
                ),
            ],
            Key::M => seq![
                ("/background/color_fade"@, seq![f_arg(fb(0)), f_arg(fb(0)), f_arg(fb(0)), f_arg(fb(0x4120_0000))]),
            ],
            Key::Comma => seq![
                (
                    "/background/color_fade"@,
                    seq![f_arg(fb(0x3f19_999a)), f_arg(fb(0x3e4c_cccd)), f_arg(fb(0x3f00_0000)), f_arg(fb(0x4120_0000))],
                ),
            ],
            Key::Right => seq![
                ("/grid/move"@, seq![s_arg("grid_3"@), f_arg(fb(0x442f_0000)), f_arg(fb(0)), f_arg(fb(0x4040_0000))]),
            ],
            Key::Left => seq![
                ("/grid/move"@, seq![s_arg("grid_1"@), f_arg(fb(0xc42f_0000)), f_arg(fb(0)), f_arg(fb(0x4040_0000))]),
            ],
            Key::R => if recording {
                seq![("/recorder/stop"@, Seq::<ArgView>::empty())]
            } else {
                seq![("/recorder/start"@, Seq::<ArgView>::empty())]
            },
            _ => Seq::empty(),
        },
    }
}

fn per_grid_key_exec(key: Key) -> (r: Option<(Selector, PerGrid)>)
    ensures
        r == per_grid_key(key),
{
    match key {
        Key::Space => Some((Selector::All, PerGrid::NextGlyph(2))),
        Key::Backslash => Some((Selector::All, PerGrid::Move(bits(0), bits(0), bits(0)))),
        Key::N => Some((Selector::All, PerGrid::NextGlyph(1))),
        Key::C => Some((Selector::All, PerGrid::NoGlyph(1))),
        Key::X => Some((Selector::All, PerGrid::NoGlyph(0))),
        Key::Key1 => Some((Selector::All, PerGrid::Overwrite)),
        Key::Key2 => Some((Selector::All, PerGrid::Glyph(2, 0))),
        Key::Key3 => Some((Selector::All, PerGrid::Slide(false, 2, bits(0x4248_0000)))),
        Key::Key4 => Some((Selector::All, PerGrid::Slide(false, 2, bits(0xc248_0000)))),
        Key::Key5 => Some((Selector::All, PerGrid::Slide(true, 2, bits(0x4248_0000)))),
        Key::Key6 => Some((Selector::All, PerGrid::Slide(true, 2, bits(0xc248_0000)))),
        Key::Key9 => Some(
            (
                Selector::All,
                PerGrid::BackboneFade(bits(0x3e42_8f5c), bits(0x3e42_8f5c), bits(0x3e42_8f5c), bits(0), bits(0)),
            ),
        ),
        Key::Key0 => Some(
            (
                Selector::All,
                PerGrid::BackboneFade(
                    bits(0x3e42_8f5c),
                    bits(0x3e42_8f5c),
                    bits(0x3e42_8f5c),
                    bits(0x3f80_0000),
                    bits(0x4040_0000),
                ),
            ),
        ),
        Key::E => Some((Selector::All, PerGrid::PowerEffect(1))),
        Key::H => Some((Selector::AllBut, PerGrid::ToggleColorful)),
        Key::J => Some(
            (
                Selector::AllBut,
                PerGrid::NextGlyphColor(bits(0x3f51_eb85), bits(0), bits(0x3e0f_5c29), bits(0x3f80_0000)),
            ),
        ),
        Key::Up => Some((Selector::All, PerGrid::Scale(bits(0x3e4c_cccd)))),
        Key::Down => Some((Selector::All, PerGrid::Scale(bits(0x3f80_0000)))),
        Key::T => Some((Selector::All, PerGrid::Rotate(bits(0x40a0_0000)))),
        Key::Y => Some((Selector::All, PerGrid::Rotate(bits(0xc0a0_0000)))),
        Key::RShift => Some((Selector::Only, PerGrid::TransitionTrigger)),
        Key::LShift => Some((Selector::Only, PerGrid::TransitionAuto)),
        _ => None,
    }
}

fn color_messages(names: &Vec<String>, colors: &Vec<(F32Bits, F32Bits, F32Bits)>) -> (r: Vec<OscMessage>)
    requires
        colors@.len() >= names@.len(),
    ensures
        messages_view(r@) == color_messages_spec(names@.map_values(|n: String| n@), colors@),
{
    let ghost nv = names@.map_values(|n: String| n@);
    let mut r: Vec<OscMessage> = Vec::new();
    let mut i: usize = 0;
    while i < names.len()
        invariant
            nv == names@.map_values(|n: String| n@),
            colors@.len() >= nv.len(),
            i <= nv.len(),
            messages_view(r@) == color_messages_spec(nv.subrange(0, i as int), colors@),
        decreases nv.len() - i,
    {
        let name = names[i].as_str();
        let ghost before = messages_view(r@);
        let ghost pre = nv.subrange(0, i + 1);
        assert(pre.drop_last() =~= nv.subrange(0, i as int));
        assert(pre[i as int] == name@);
        if !str_eq(name, "grid_2") {
            let (cr, cg, cb) = colors[i];
            let m = instant_glyph_color_message(name, cr, cg, cb, bits(0x3f80_0000));
            r.push(m);
            assert(messages_view(r@) =~= before.push(
                (
                    "/grid/instantglyphcolor"@,
                    seq![s_arg(name@), f_arg(cr), f_arg(cg), f_arg(cb), f_arg(fb(0x3f80_0000))],
                ),
            ));
        }
        i = i + 1;
    }
    assert(nv.subrange(0, i as int) =~= nv);
    r
}

fn one(m: OscMessage) -> (r: Vec<OscMessage>)
    ensures
        messages_view(r@) == seq![m@],
{
    let mut r: Vec<OscMessage> = Vec::new();
    r.push(m);
    assert(messages_view(r@) =~= seq![m@]);
    r
}

/// The messages of a key.
fn key_messages(key: Key, grid_names: &Vec<String>, recording: bool, colors: &Vec<(F32Bits, F32Bits, F32Bits)>) -> (r: Vec<
    OscMessage,
>)
    requires
        key == Key::I ==> colors@.len() >= grid_names@.len(),
    ensures
        messages_view(r@) == key_messages_spec(key, grid_names@.map_values(|n: String| n@), recording, colors@),
{
    match per_grid_key_exec(key) {
        Some((sel, t)) => for_grids(grid_names, sel, t),
        None => match key {
            Key::G => {
                if grid_names.len() == 0 {
                    let mut r: Vec<OscMessage> = Vec::new();
                    r.push(create_grid_message("grid_1", "wesa", bits(0), bits(0), bits(0)));
                    r.push(create_grid_message("grid_2", "wesa", bits(0), bits(0), bits(0)));
                    r.push(create_grid_message("grid_3", "wesa", bits(0), bits(0), bits(0)));
                    r.push(toggle_visibility_message("grid_1"));
                    r.push(toggle_visibility_message("grid_2"));
                    r.push(toggle_visibility_message("grid_3"));
                    assert(messages_view(r@) =~= test_grids_spec());
                    r
                } else {
                    for_grids(grid_names, Selector::All, PerGrid::ToggleVisibility)
                }
            },
            Key::I => color_messages(grid_names, colors),
            Key::B => one(background_flash_message(bits(0x3f80_0000), bits(0x3f80_0000), bits(0x3f80_0000), bits(0x3dcc_cccd))),
            Key::V => one(background_color_fade_message(bits(0x3f80_0000), bits(0), bits(0), bits(0x4120_0000))),
            Key::M => one(background_color_fade_message(bits(0), bits(0), bits(0), bits(0x4120_0000))),
            Key::Comma => one(
                background_color_fade_message(bits(0x3f19_999a), bits(0x3e4c_cccd), bits(0x3f00_0000), bits(0x4120_0000)),
            ),
            Key::Right => one(move_grid_message("grid_3", bits(0x442f_0000), bits(0), bits(0x4040_0000))),
            Key::Left => one(move_grid_message("grid_1", bits(0xc42f_0000), bits(0), bits(0x4040_0000))),
            Key::R => {
                if recording {
                    one(recorder_stop_message())
                } else {
                    one(recorder_start_message())
                }
            },
            _ => {
                let r: Vec<OscMessage> = Vec::new();
                assert(messages_view(r@) =~= Seq::<MessageView>::empty());
                r
            },
        },
    }
}

/// What pressing `key` does, given the grids (in the order the application
/// keeps them), whether the recorder runs, and a random colour drawn for
/// each grid (used by `I`).  `D` sends nothing: the message it was meant to
/// send is not part of the protocol.
pub fn key_pressed(key: Key, grid_names: &Vec<String>, recording: bool, colors: &Vec<(F32Bits, F32Bits, F32Bits)>) -> (r:
    KeyResponse)
    requires
        key == Key::I ==> colors@.len() >= grid_names@.len(),
    ensures
        messages_view(r.messages@) == key_messages_spec(key, grid_names@.map_values(|n: String| n@), recording, colors@),
        r.boundary_test == (key == Key::Z),
        r.toggle_debug == (key == Key::P),
        r.quit == (key == Key::Q),
{
    let messages = key_messages(key, grid_names, recording, colors);
    KeyResponse {
        messages,
        boundary_test: key == Key::Z,
        toggle_debug: key == Key::P,
        quit: key == Key::Q,
    }
}

} // verus!
