//! Carrying out the commands that arrived over OSC since the last frame.
//! Commands for a grid that does not exist are dropped, and a grid, once
//! created, is never replaced or removed; the recorder is
//! started or stopped only when that changes something; a slide along an
//! axis that does not exist is reported and ends the batch.  The rest goes
//! to the renderer as actions.

use vstd::prelude::*;
use crate::osc::{OscCommand, OscCommandOf, CommandView, F32Bits};
use crate::geometry::{Axis, axis_from_spec};
use crate::transition::{TransitionAnimationType, animation_type_spec, transition_next_animation_type};
use crate::segment_set::SegmentSet;

verus! {

/// What the renderer is to do.
pub enum ActionOf<S> {
    /// Start recording if it is off, stop it if it is on.
    ToggleRecording,
    /// Carry out this command as it stands (background, backbone, colour,
    /// movement, rotation, scale, new grid, transition settings).
    Forward(OscCommandOf<S>),
    /// Slide a row or column of a grid along an axis.
    Slide { grid: S, axis: Axis, number: i32, distance: F32Bits },
    /// Stage the glyph at this place of the grid's show.
    StageGlyph { grid: S, index: usize, animation: TransitionAnimationType },
    /// Stage the next glyph of the grid's show.
    StageNextGlyph { grid: S, animation: TransitionAnimationType },
    /// Stage the empty glyph.
    StageEmptyGlyph { grid: S, animation: TransitionAnimationType },
    /// Stage the current glyph again with the power-on effect, overwriting.
    Overwrite { grid: S },
    ToggleVisibility { grid: S },
    SetVisibility { grid: S, setting: bool },
    ToggleColorful { grid: S },
    SetColorful { grid: S, setting: bool },
    SetPowerEffect { grid: S, setting: bool },
    /// Start the staged transition now.
    TriggerTransition { grid: S },
    /// Start staged transitions by themselves from now on.
    AutoTransition { grid: S },
    /// Tell the user about a command that could not be carried out.
    Report(S),
}

pub type Action = ActionOf<String>;

pub type ActionView = ActionOf<Seq<char>>;

impl View for ActionOf<String> {
    type V = ActionView;

    open spec fn view(&self) -> ActionView {
        match self {
            ActionOf::ToggleRecording => ActionOf::ToggleRecording,
            ActionOf::Forward(c) => ActionOf::Forward(c@),
            ActionOf::Slide { grid, axis, number, distance } => ActionOf::Slide {
                grid: grid@,
                axis: *axis,
                number: *number,
                distance: *distance,
            },
            ActionOf::StageGlyph { grid, index, animation } => ActionOf::StageGlyph {
                grid: grid@,
                index: *index,
                animation: *animation,
            },
            ActionOf::StageNextGlyph { grid, animation } => ActionOf::StageNextGlyph {
                grid: grid@,
                animation: *animation,
            },
            ActionOf::StageEmptyGlyph { grid, animation } => ActionOf::StageEmptyGlyph {
                grid: grid@,
                animation: *animation,
            },
            ActionOf::Overwrite { grid } => ActionOf::Overwrite { grid: grid@ },
            ActionOf::ToggleVisibility { grid } => ActionOf::ToggleVisibility { grid: grid@ },
            ActionOf::SetVisibility { grid, setting } => ActionOf::SetVisibility {
                grid: grid@,
                setting: *setting,
            },
            ActionOf::ToggleColorful { grid } => ActionOf::ToggleColorful { grid: grid@ },
            ActionOf::SetColorful { grid, setting } => ActionOf::SetColorful {
                grid: grid@,
                setting: *setting,
            },
            ActionOf::SetPowerEffect { grid, setting } => ActionOf::SetPowerEffect {
                grid: grid@,
                setting: *setting,
            },
            ActionOf::TriggerTransition { grid } => ActionOf::TriggerTransition { grid: grid@ },
            ActionOf::AutoTransition { grid } => ActionOf::AutoTransition { grid: grid@ },
            ActionOf::Report(m) => ActionOf::Report(m@),
        }
    }
}

/// The grid a command is addressed to, if it names one that must exist.
pub open spec fn target_grid(c: CommandView) -> Option<Seq<char>> {
    match c {
        OscCommandOf::GridBackboneFade { name, .. } => Some(name),
        OscCommandOf::GridMove { name, .. } => Some(name),
        OscCommandOf::GridRotate { name, .. } => Some(name),
        OscCommandOf::GridScale { name, .. } => Some(name),
        OscCommandOf::GridSlide { name, .. } => Some(name),
        OscCommandOf::GridGlyph { grid_name, .. } => Some(grid_name),
        OscCommandOf::GridInstantGlyphColor { grid_name, .. } => Some(grid_name),
        OscCommandOf::GridNextGlyph { grid_name, .. } => Some(grid_name),
        OscCommandOf::GridNextGlyphColor { grid_name, .. } => Some(grid_name),
        OscCommandOf::GridNoGlyph { grid_name, .. } => Some(grid_name),
        OscCommandOf::GridOverwrite { grid_name } => Some(grid_name),
        OscCommandOf::GridToggleVisibility { grid_name } => Some(grid_name),
        OscCommandOf::GridSetVisibility { grid_name, .. } => Some(grid_name),
        OscCommandOf::GridToggleColorful { grid_name } => Some(grid_name),
        OscCommandOf::GridSetColorful { grid_name, .. } => Some(grid_name),
        OscCommandOf::GridSetPowerEffect { grid_name, .. } => Some(grid_name),
        OscCommandOf::GridTransitionTrigger { grid_name } => Some(grid_name),
        OscCommandOf::GridTransitionAuto { grid_name } => Some(grid_name),
        OscCommandOf::TransitionUpdate { grid_name, .. } => Some(grid_name),
        _ => None,
    }
}

/// What one command does to an existing grid: its actions, and whether it
/// ends the batch.
pub open spec fn grid_command_spec(c: CommandView) -> (Seq<ActionView>, bool) {
    match c {
        OscCommandOf::GridSlide { name, axis, number, distance } => match axis_from_spec(axis) {
            Ok(a) => (seq![ActionOf::Slide { grid: name, axis: a, number, distance }], false),
            Err(m) => (seq![ActionOf::Report(m)], true),
        },
        OscCommandOf::GridGlyph { grid_name, glyph_index, animation_type_msg } => (
            seq![
                ActionOf::StageGlyph {
                    grid: grid_name,
                    index: glyph_index,
                    animation: animation_type_spec(animation_type_msg),
                },
            ],
            false,
        ),
        OscCommandOf::GridNextGlyph { grid_name, animation_type_msg } => (
            seq![ActionOf::StageNextGlyph { grid: grid_name, animation: animation_type_spec(animation_type_msg) }],
            false,
        ),
        OscCommandOf::GridNoGlyph { grid_name, animation_type_msg } => (
            seq![ActionOf::StageEmptyGlyph { grid: grid_name, animation: animation_type_spec(animation_type_msg) }],
            false,
        ),
        OscCommandOf::GridOverwrite { grid_name } => (seq![ActionOf::Overwrite { grid: grid_name }], false),
        OscCommandOf::GridToggleVisibility { grid_name } => (
            seq![ActionOf::ToggleVisibility { grid: grid_name }],
            false,
        ),
        OscCommandOf::GridSetVisibility { grid_name, setting } => (
            seq![ActionOf::SetVisibility { grid: grid_name, setting }],
            false,
        ),
        OscCommandOf::GridToggleColorful { grid_name } => (
            seq![ActionOf::ToggleColorful { grid: grid_name }],
            false,
        ),
        OscCommandOf::GridSetColorful { grid_name, setting } => (
            seq![ActionOf::SetColorful { grid: grid_name, setting }],
            false,
        ),
        OscCommandOf::GridSetPowerEffect { grid_name, setting } => (
            seq![ActionOf::SetPowerEffect { grid: grid_name, setting }],
            false,
        ),
        OscCommandOf::GridTransitionTrigger { grid_name } => (
            seq![ActionOf::TriggerTransition { grid: grid_name }],
            false,
        ),
        OscCommandOf::GridTransitionAuto { grid_name } => (
            seq![ActionOf::AutoTransition { grid: grid_name }],
            false,
        ),
        _ => (seq![ActionOf::Forward(c)], false),
    }
}

/// The report for a request to create grid `name` when one of that name
/// exists already: a grid, once created, stays as it is.
pub open spec fn grid_exists_message(name: Seq<char>) -> Seq<char> {
    "Grid already exists: "@ + name
}

/// The names of the grids that the commands `cs` ask to create.
pub open spec fn created_names(cs: Seq<CommandView>) -> Set<Seq<char>>
    decreases cs.len(),
{
    if cs.len() == 0 {
        Set::empty()
    } else {
        let first = match cs[0] {
            OscCommandOf::GridCreate { name, .. } => set![name],
            _ => Set::empty(),
        };
        first.union(created_names(cs.drop_first()))
    }
}

/// Grids are never removed: after a batch of commands, the known grids are
/// those known before, and at most those the batch asked to create besides.
pub proof fn lemma_grids_only_grow(cs: Seq<CommandView>, grids: Set<Seq<char>>, recording: bool)
    ensures
        grids.subset_of(launch_spec(cs, grids, recording).1),
        launch_spec(cs, grids, recording).1.subset_of(grids.union(created_names(cs))),
    decreases cs.len(),
{
    if cs.len() > 0 {
        let s = step_spec(cs[0], grids, recording);
        let first = match cs[0] {
            OscCommandOf::GridCreate { name, .. } => set![name],
            _ => Set::<Seq<char>>::empty(),
        };
        assert(grids.subset_of(s.1) && s.1.subset_of(grids.union(first)));
        if !s.3 {
            lemma_grids_only_grow(cs.drop_first(), s.1, s.2);
        }
    }
}

/// What one command does, given the grids that exist and whether the
/// recorder runs: its actions, the grids and recorder state after it, and
/// whether it ends the batch.
pub open spec fn step_spec(c: CommandView, grids: Set<Seq<char>>, recording: bool) -> (
    Seq<ActionView>,
    Set<Seq<char>>,
    bool,
    bool,
) {
    match c {
        OscCommandOf::RecorderStart {  } => if recording {
            (seq![], grids, recording, false)
        } else {
            (seq![ActionOf::ToggleRecording], grids, true, false)
        },
        OscCommandOf::RecorderStop {  } => if recording {
            (seq![ActionOf::ToggleRecording], grids, false, false)
        } else {
            (seq![], grids, recording, false)
        },
        OscCommandOf::GridCreate { name, .. } => if grids.contains(name) {
            (seq![ActionOf::Report(grid_exists_message(name))], grids, recording, false)
        } else {
            (seq![ActionOf::Forward(c)], grids.insert(name), recording, false)
        },
        _ => match target_grid(c) {
            None => (seq![ActionOf::Forward(c)], grids, recording, false),
            Some(g) => if grids.contains(g) {
                (grid_command_spec(c).0, grids, recording, grid_command_spec(c).1)
            } else {
                (seq![], grids, recording, false)
            },
        },
    }
}

/// What a batch of commands does: the actions of each command in turn,
/// until one ends the batch; with the grids and recorder state after it.
pub open spec fn launch_spec(cs: Seq<CommandView>, grids: Set<Seq<char>>, recording: bool) -> (
    Seq<ActionView>,
    Set<Seq<char>>,
    bool,
)
    decreases cs.len(),
{
    if cs.len() == 0 {
        (seq![], grids, recording)
    } else {
        let s = step_spec(cs[0], grids, recording);
        if s.3 {
            (s.0, s.1, s.2)
        } else {
            let rest = launch_spec(cs.drop_first(), s.1, s.2);
            (s.0 + rest.0, rest.1, rest.2)
        }
    }
}

pub open spec fn actions_view(v: Seq<Action>) -> Seq<ActionView> {
    v.map_values(|a: Action| a@)
}

fn single(a: Action) -> (r: Vec<Action>)
    ensures
        actions_view(r@) == seq![a@],
{
    let mut r: Vec<Action> = Vec::new();
    r.push(a);
    assert(actions_view(r@) =~= seq![a@]);
    r
}

/// The grid a command is addressed to.
fn grid_of(c: &OscCommand) -> (r: Option<String>)
    ensures
        match r {
            Some(g) => target_grid(c@) == Some(g@),
            None => target_grid(c@) is None,
        },
{
    match c {
        OscCommandOf::GridBackboneFade { name, .. } => Some(name.clone()),
        OscCommandOf::GridMove { name, .. } => Some(name.clone()),
        OscCommandOf::GridRotate { name, .. } => Some(name.clone()),
        OscCommandOf::GridScale { name, .. } => Some(name.clone()),
        OscCommandOf::GridSlide { name, .. } => Some(name.clone()),
        OscCommandOf::GridGlyph { grid_name, .. } => Some(grid_name.clone()),
        OscCommandOf::GridInstantGlyphColor { grid_name, .. } => Some(grid_name.clone()),
        OscCommandOf::GridNextGlyph { grid_name, .. } => Some(grid_name.clone()),
        OscCommandOf::GridNextGlyphColor { grid_name, .. } => Some(grid_name.clone()),
        OscCommandOf::GridNoGlyph { grid_name, .. } => Some(grid_name.clone()),
        OscCommandOf::GridOverwrite { grid_name } => Some(grid_name.clone()),
        OscCommandOf::GridToggleVisibility { grid_name } => Some(grid_name.clone()),
        OscCommandOf::GridSetVisibility { grid_name, .. } => Some(grid_name.clone()),
        OscCommandOf::GridToggleColorful { grid_name } => Some(grid_name.clone()),
        OscCommandOf::GridSetColorful { grid_name, .. } => Some(grid_name.clone()),
        OscCommandOf::GridSetPowerEffect { grid_name, .. } => Some(grid_name.clone()),
        OscCommandOf::GridTransitionTrigger { grid_name } => Some(grid_name.clone()),
        OscCommandOf::GridTransitionAuto { grid_name } => Some(grid_name.clone()),
        OscCommandOf::TransitionUpdate { grid_name, .. } => Some(grid_name.clone()),
        _ => None,
    }
}

/// The actions of a command for an existing grid, and whether it ends the
/// batch.
fn grid_command(c: OscCommand) -> (r: (Vec<Action>, bool))
    ensures
        (actions_view(r.0@), r.1) == grid_command_spec(c@),
{
    match c {
        OscCommandOf::GridSlide { name, axis, number, distance } => match Axis::try_from(axis.as_str()) {
            Ok(a) => (single(ActionOf::Slide { grid: name, axis: a, number, distance }), false),
            Err(m) => (single(ActionOf::Report(m)), true),
        },
        OscCommandOf::GridGlyph { grid_name, glyph_index, animation_type_msg } => {
            let animation = transition_next_animation_type(animation_type_msg);
            (single(ActionOf::StageGlyph { grid: grid_name, index: glyph_index, animation }), false)
        },
        OscCommandOf::GridNextGlyph { grid_name, animation_type_msg } => {
            let animation = transition_next_animation_type(animation_type_msg);
            (single(ActionOf::StageNextGlyph { grid: grid_name, animation }), false)
        },
        OscCommandOf::GridNoGlyph { grid_name, animation_type_msg } => {
            let animation = transition_next_animation_type(animation_type_msg);
            (single(ActionOf::StageEmptyGlyph { grid: grid_name, animation }), false)
        },
        OscCommandOf::GridOverwrite { grid_name } => (single(ActionOf::Overwrite { grid: grid_name }), false),
        OscCommandOf::GridToggleVisibility { grid_name } => (
            single(ActionOf::ToggleVisibility { grid: grid_name }),
            false,
        ),
        OscCommandOf::GridSetVisibility { grid_name, setting } => (
            single(ActionOf::SetVisibility { grid: grid_name, setting }),
            false,
        ),
        OscCommandOf::GridToggleColorful { grid_name } => (
            single(ActionOf::ToggleColorful { grid: grid_name }),
            false,
        ),
        OscCommandOf::GridSetColorful { grid_name, setting } => (
            single(ActionOf::SetColorful { grid: grid_name, setting }),
            false,
        ),
        OscCommandOf::GridSetPowerEffect { grid_name, setting } => (
            single(ActionOf::SetPowerEffect { grid: grid_name, setting }),
            false,
        ),
        OscCommandOf::GridTransitionTrigger { grid_name } => (
            single(ActionOf::TriggerTransition { grid: grid_name }),
            false,
        ),
        OscCommandOf::GridTransitionAuto { grid_name } => (
            single(ActionOf::AutoTransition { grid: grid_name }),
            false,
        ),
        other => (single(ActionOf::Forward(other)), false),
    }
}

/// The actions of one command, updating the known grids and the recorder
/// state; the flag says whether the command ends the batch.
pub fn launch_command(c: OscCommand, grids: &mut SegmentSet, recording: &mut bool) -> (r: (Vec<Action>, bool))
    requires
        old(grids).wf(),
    ensures
        final(grids).wf(),
        (actions_view(r.0@), final(grids)@, *final(recording), r.1) == step_spec(c@, old(grids)@, *old(recording)),
{
    match c {
        OscCommandOf::RecorderStart {  } => {
            if *recording {
                let none: Vec<Action> = Vec::new();
                assert(actions_view(none@) =~= Seq::<ActionView>::empty());
                (none, false)
            } else {
                *recording = true;
                (single(ActionOf::ToggleRecording), false)
            }
        },
        OscCommandOf::RecorderStop {  } => {
            if *recording {
                *recording = false;
                (single(ActionOf::ToggleRecording), false)
            } else {
                let none: Vec<Action> = Vec::new();
                assert(actions_view(none@) =~= Seq::<ActionView>::empty());
                (none, false)
            }
        },
        OscCommandOf::GridCreate { name, show, position, rotation } => {
            if grids.contains(name.as_str()) {
                let mut message = String::from_str("Grid already exists: ");
                message.append(name.as_str());
                proof {
                    reveal_strlit("Grid already exists: ");
                }
                (single(ActionOf::Report(message)), false)
            } else {
                grids.insert(name.clone());
                (single(ActionOf::Forward(OscCommandOf::GridCreate { name, show, position, rotation })), false)
            }
        },
        other => match grid_of(&other) {
            None => (single(ActionOf::Forward(other)), false),
            Some(g) => {
                if grids.contains(g.as_str()) {
                    grid_command(other)
                } else {
                    let none: Vec<Action> = Vec::new();
                    assert(actions_view(none@) =~= Seq::<ActionView>::empty());
                    (none, false)
                }
            },
        },
    }
}

/// The actions for a batch of commands, in order: each command's, until a
/// command ends the batch, after which the rest are dropped.  `grids` and
/// `recording` follow the commands; a grid is never removed, and a request
/// to create a grid that exists is reported and changes nothing.
pub fn launch_commands(commands: Vec<OscCommand>, grids: &mut SegmentSet, recording: &mut bool) -> (r: Vec<Action>)
    requires
        old(grids).wf(),
    ensures
        final(grids).wf(),
        (actions_view(r@), final(grids)@, *final(recording)) == launch_spec(
            commands@.map_values(|c: OscCommand| c@),
            old(grids)@,
            *old(recording),
        ),
        old(grids)@.subset_of(final(grids)@),
        final(grids)@.subset_of(old(grids)@.union(created_names(commands@.map_values(|c: OscCommand| c@)))),
{
    proof {
        lemma_grids_only_grow(commands@.map_values(|c: OscCommand| c@), old(grids)@, *old(recording));
    }
    let ghost all = commands@.map_values(|c: OscCommand| c@);
    let mut rest = commands;
    let mut out: Vec<Action> = Vec::new();
    proof {
        assert(actions_view(out@) =~= Seq::<ActionView>::empty());
    }
    while rest.len() > 0
        invariant
            grids.wf(),
            all == commands@.map_values(|c: OscCommand| c@),
            old(grids)@.subset_of(launch_spec(all, old(grids)@, *old(recording)).1),
            launch_spec(all, old(grids)@, *old(recording)).1.subset_of(old(grids)@.union(created_names(all))),
            launch_spec(all, old(grids)@, *old(recording)) == {
                let tail = launch_spec(rest@.map_values(|c: OscCommand| c@), grids@, *recording);
                (actions_view(out@) + tail.0, tail.1, tail.2)
            },
        decreases rest@.len(),
    {
        let ghost rv = rest@.map_values(|c: OscCommand| c@);
        let ghost before = actions_view(out@);
        let ghost g0 = grids@;
        let ghost r0 = *recording;
        let c = rest.remove(0);
        assert(rest@.map_values(|c: OscCommand| c@) =~= rv.drop_first());
        assert(c@ == rv[0]);
        let (mut acts, stop) = launch_command(c, grids, recording);
        let ghost av = actions_view(acts@);
        out.append(&mut acts);
        assert(actions_view(out@) =~= before + av);
        if stop {
            assert(launch_spec(rv, g0, r0) == (av, grids@, *recording));
            return out;
        }
        assert((before + av) + launch_spec(rest@.map_values(|c: OscCommand| c@), grids@, *recording).0
            =~= before + (av + launch_spec(rest@.map_values(|c: OscCommand| c@), grids@, *recording).0));
    }
    assert(rest@.map_values(|c: OscCommand| c@) =~= Seq::<CommandView>::empty());
    assert(actions_view(out@) + Seq::<ActionView>::empty() =~= actions_view(out@));
    out
}

} // verus!
