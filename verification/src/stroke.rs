//! Writing order: the "writing" transition lights the segments of the next
//! glyph stroke by stroke, the way the glyph would be written.  Segments
//! are grouped into strokes by type and connection, strokes are linked where
//! they touch, and strokes are visited in an order that follows those links.
//! Where segments lie on the page (and so which stroke starts where) is
//! measured by the renderer.

use vstd::prelude::*;
use crate::name_map::NameMap;
use crate::segment_set::SegmentSet;
use crate::transition::{SegmentChange, ChangeView, steps_view};
use crate::segment_graph::SegmentGraph;
use crate::order::{sort_strings, sorted_version, dedup_strings, dedup_spec, strings_view};

verus! {

/// The shape class of a segment.
#[derive(Debug, Clone, Copy, PartialEq, Eq, Hash, Structural)]
pub enum SegmentType {
    Horizontal,
    Vertical,
    ArcTopLeft,
    ArcTopRight,
    ArcBottomLeft,
    ArcBottomRight,
    Unknown,
}

pub open spec fn is_arc_spec(t: SegmentType) -> bool {
    t == SegmentType::ArcTopLeft || t == SegmentType::ArcTopRight || t == SegmentType::ArcBottomLeft || t
        == SegmentType::ArcBottomRight
}

/// Whether a segment type is one of the four quarter arcs.
pub fn is_arc_type(segment_type: SegmentType) -> (r: bool)
    ensures
        r == is_arc_spec(segment_type),
{
    match segment_type {
        SegmentType::ArcTopLeft | SegmentType::ArcTopRight | SegmentType::ArcBottomLeft
        | SegmentType::ArcBottomRight => true,
        _ => false,
    }
}

/// Two quarter arcs that follow each other around a circle.
pub open spec fn adjacent_arcs(a: SegmentType, b: SegmentType) -> bool {
    ||| (a == SegmentType::ArcTopLeft && b == SegmentType::ArcTopRight)
    ||| (a == SegmentType::ArcTopRight && b == SegmentType::ArcBottomRight)
    ||| (a == SegmentType::ArcBottomRight && b == SegmentType::ArcBottomLeft)
    ||| (a == SegmentType::ArcBottomLeft && b == SegmentType::ArcTopLeft)
}

/// Segments of the same type belong to one stroke, and so do quarter arcs
/// that follow each other around a circle, in either direction.
pub open spec fn compatible_spec(a: SegmentType, b: SegmentType) -> bool {
    a == b || adjacent_arcs(a, b) || adjacent_arcs(b, a)
}

/// Whether segments of types `seg1` and `seg2` may share a stroke.
pub fn are_compatible_segments(seg1: SegmentType, seg2: SegmentType) -> (r: bool)
    ensures
        r == compatible_spec(seg1, seg2),
{
    if seg1 == seg2 {
        return true;
    }
    if is_arc_type(seg1) && is_arc_type(seg2) {
        match (seg1, seg2) {
            (SegmentType::ArcTopLeft, SegmentType::ArcTopRight) => return true,
            (SegmentType::ArcTopRight, SegmentType::ArcBottomRight) => return true,
            (SegmentType::ArcBottomRight, SegmentType::ArcBottomLeft) => return true,
            (SegmentType::ArcBottomLeft, SegmentType::ArcTopLeft) => return true,
            (SegmentType::ArcTopRight, SegmentType::ArcTopLeft) => return true,
            (SegmentType::ArcBottomRight, SegmentType::ArcTopRight) => return true,
            (SegmentType::ArcBottomLeft, SegmentType::ArcBottomRight) => return true,
            (SegmentType::ArcTopLeft, SegmentType::ArcBottomLeft) => return true,
            _ => {},
        }
    }
    false
}

/// Compatibility goes both ways.
pub proof fn lemma_compatible_symmetric(a: SegmentType, b: SegmentType)
    ensures
        compatible_spec(a, b) == compatible_spec(b, a),
{
}

pub open spec fn priority_spec(t: SegmentType) -> u8 {
    match t {
        SegmentType::ArcTopLeft => 1,
        SegmentType::ArcTopRight => 2,
        SegmentType::ArcBottomLeft => 3,
        SegmentType::ArcBottomRight => 4,
        SegmentType::Horizontal => 5,
        SegmentType::Vertical => 6,
        SegmentType::Unknown => 7,
    }
}

/// The rank of a type when connected strokes compete: arcs first, their
/// quarters in reading order (top before bottom, left before right), then
/// horizontals, verticals, and the rest.
pub fn get_type_priority(segment_type: SegmentType) -> (r: u8)
    ensures
        r == priority_spec(segment_type),
{
    match segment_type {
        SegmentType::ArcTopLeft => 1,
        SegmentType::ArcTopRight => 2,
        SegmentType::ArcBottomLeft => 3,
        SegmentType::ArcBottomRight => 4,
        SegmentType::Horizontal => 5,
        SegmentType::Vertical => 6,
        SegmentType::Unknown => 7,
    }
}

/// The quadrant of a glyph that tile (`x`, `y`) lies in, the middle of the
/// glyph falling between tiles 2 and 3: 1 top left, 2 top right, 3 bottom
/// left, 4 bottom right.
pub open spec fn quadrant_spec(x: u32, y: u32) -> u8 {
    if y <= 2 {
        if x <= 2 { 1 } else { 2 }
    } else if x <= 2 {
        3
    } else {
        4
    }
}

/// The quadrant of tile (`x`, `y`): the quadrant test at the middle 2.4,
/// made on whole tile numbers.
pub fn tile_quadrant(x: u32, y: u32) -> (r: u8)
    ensures
        r == quadrant_spec(x, y),
{
    if y <= 2 {
        if x <= 2 {
            1
        } else {
            2
        }
    } else if x <= 2 {
        3
    } else {
        4
    }
}

/// Which of two strokes comes first in reading order, as far as one rule
/// decides.
#[derive(Debug, Clone, Copy, PartialEq, Eq, Structural)]
pub enum Precedence {
    Before,
    After,
    Undecided,
}

/// The quadrant rule of reading order: the top left quadrant comes before
/// all others, the top right before the bottom half, the bottom left before
/// the bottom right.
pub open spec fn quadrant_precedence_spec(qa: u8, qb: u8) -> Precedence {
    if qa == 1 && qb != 1 {
        Precedence::Before
    } else if qa != 1 && qb == 1 {
        Precedence::After
    } else if qa == 2 && (qb == 3 || qb == 4) {
        Precedence::Before
    } else if (qa == 3 || qa == 4) && qb == 2 {
        Precedence::After
    } else if qa == 3 && qb == 4 {
        Precedence::Before
    } else if qa == 4 && qb == 3 {
        Precedence::After
    } else {
        Precedence::Undecided
    }
}

/// Whether a stroke starting in quadrant `qa` comes before or after one
/// starting in quadrant `qb`, or whether the quadrants leave it open.
pub fn quadrant_precedence(qa: u8, qb: u8) -> (r: Precedence)
    ensures
        r == quadrant_precedence_spec(qa, qb),
{
    if qa == 1 && qb != 1 {
        Precedence::Before
    } else if qa != 1 && qb == 1 {
        Precedence::After
    } else if qa == 2 && (qb == 3 || qb == 4) {
        Precedence::Before
    } else if (qa == 3 || qa == 4) && qb == 2 {
        Precedence::After
    } else if qa == 3 && qb == 4 {
        Precedence::Before
    } else if qa == 4 && qb == 3 {
        Precedence::After
    } else {
        Precedence::Undecided
    }
}

/// The type rule of reading order, for strokes that start at about the same
/// place: verticals before horizontals, the left arc of a pair before the
/// right one, and arcs before horizontals and verticals.
pub open spec fn type_precedence_spec(a: SegmentType, b: SegmentType) -> Precedence {
    if (a == SegmentType::Vertical && b == SegmentType::Horizontal) || (a == SegmentType::ArcTopLeft && b
        == SegmentType::ArcTopRight) || (a == SegmentType::ArcBottomLeft && b == SegmentType::ArcBottomRight) {
        Precedence::Before
    } else if (a == SegmentType::Horizontal && b == SegmentType::Vertical) || (a == SegmentType::ArcTopRight && b
        == SegmentType::ArcTopLeft) || (a == SegmentType::ArcBottomRight && b == SegmentType::ArcBottomLeft) {
        Precedence::After
    } else if (a == SegmentType::Horizontal || a == SegmentType::Vertical) && is_arc_spec(b) {
        Precedence::After
    } else if is_arc_spec(a) && (b == SegmentType::Horizontal || b == SegmentType::Vertical) {
        Precedence::Before
    } else {
        Precedence::Undecided
    }
}

/// Whether a stroke of type `a` comes before or after one of type `b` when
/// they start at about the same place, or whether the types leave it open.
pub fn type_precedence(a: SegmentType, b: SegmentType) -> (r: Precedence)
    ensures
        r == type_precedence_spec(a, b),
{
    match (a, b) {
        (SegmentType::Vertical, SegmentType::Horizontal)
        | (SegmentType::ArcTopLeft, SegmentType::ArcTopRight)
        | (SegmentType::ArcBottomLeft, SegmentType::ArcBottomRight) => Precedence::Before,
        (SegmentType::Horizontal, SegmentType::Vertical)
        | (SegmentType::ArcTopRight, SegmentType::ArcTopLeft)
        | (SegmentType::ArcBottomRight, SegmentType::ArcBottomLeft) => Precedence::After,
        (SegmentType::Horizontal, t) | (SegmentType::Vertical, t) => if is_arc_type(t) {
            Precedence::After
        } else {
            Precedence::Undecided
        },
        (t, SegmentType::Horizontal) | (t, SegmentType::Vertical) => if is_arc_type(t) {
            Precedence::Before
        } else {
            Precedence::Undecided
        },
        _ => Precedence::Undecided,
    }
}

/// The score of walking, in a stroke of arcs, from an arc of type `a` to one
/// of type `b`: 0 going on round a circle clockwise, 3 going back
/// counter-clockwise, 100 for any other pair.
pub open spec fn arc_step_score_spec(a: SegmentType, b: SegmentType) -> u8 {
    if (a == SegmentType::ArcTopLeft && b == SegmentType::ArcTopRight) || (a == SegmentType::ArcTopRight && b
        == SegmentType::ArcBottomRight) || (a == SegmentType::ArcBottomRight && b == SegmentType::ArcBottomLeft) || (a
        == SegmentType::ArcBottomLeft && b == SegmentType::ArcTopLeft) {
        0
    } else if (a == SegmentType::ArcTopRight && b == SegmentType::ArcTopLeft) || (a == SegmentType::ArcBottomRight
        && b == SegmentType::ArcTopRight) || (a == SegmentType::ArcBottomLeft && b == SegmentType::ArcBottomRight) || (a
        == SegmentType::ArcTopLeft && b == SegmentType::ArcBottomLeft) {
        3
    } else {
        100
    }
}

/// The score of walking from an arc of type `a` to one of type `b`; the
/// lowest score is walked first.
pub fn arc_step_score(a: SegmentType, b: SegmentType) -> (r: u8)
    ensures
        r == arc_step_score_spec(a, b),
{
    match (a, b) {
        (SegmentType::ArcTopLeft, SegmentType::ArcTopRight)
        | (SegmentType::ArcTopRight, SegmentType::ArcBottomRight)
        | (SegmentType::ArcBottomRight, SegmentType::ArcBottomLeft)
        | (SegmentType::ArcBottomLeft, SegmentType::ArcTopLeft) => 0,
        (SegmentType::ArcTopRight, SegmentType::ArcTopLeft)
        | (SegmentType::ArcBottomRight, SegmentType::ArcTopRight)
        | (SegmentType::ArcBottomLeft, SegmentType::ArcBottomRight)
        | (SegmentType::ArcTopLeft, SegmentType::ArcBottomLeft) => 3,
        _ => 100,
    }
}

/// The quarter arc in the top (`top`) or bottom half and the left (`left`)
/// or right half of a circle.
pub open spec fn arc_at(top: bool, left: bool) -> SegmentType {
    if top {
        if left { SegmentType::ArcTopLeft } else { SegmentType::ArcTopRight }
    } else {
        if left { SegmentType::ArcBottomLeft } else { SegmentType::ArcBottomRight }
    }
}

/// Whether a quarter arc lies in the top half of its circle.
pub open spec fn arc_top(t: SegmentType) -> bool {
    t == arc_at(true, true) || t == arc_at(true, false)
}

/// Whether a quarter arc lies in the left half of its circle.
pub open spec fn arc_left(t: SegmentType) -> bool {
    t == arc_at(true, true) || t == arc_at(false, true)
}

/// The quarter that follows `t` going round the circle clockwise: along the
/// top to the right, down the right side, along the bottom to the left, and
/// up the left side.
pub open spec fn clockwise_next(t: SegmentType) -> SegmentType {
    if arc_top(t) {
        if arc_left(t) { arc_at(true, false) } else { arc_at(false, false) }
    } else {
        if arc_left(t) { arc_at(true, true) } else { arc_at(false, true) }
    }
}

/// Walking a circle stroke goes round clockwise: stepping on to the next
/// quarter clockwise scores best (0), stepping back to the previous quarter
/// next best (3), and any other step, or a step that is not from arc to
/// arc, scores worst (100).
pub proof fn lemma_arc_walk_goes_clockwise(a: SegmentType, b: SegmentType)
    ensures
        is_arc_spec(a) ==> arc_step_score_spec(a, clockwise_next(a)) == 0,
        is_arc_spec(a) ==> arc_step_score_spec(clockwise_next(a), a) == 3,
        is_arc_spec(a) && is_arc_spec(b) && b != clockwise_next(a) && a != clockwise_next(b) ==> arc_step_score_spec(
            a,
            b,
        ) == 100,
        !is_arc_spec(a) || !is_arc_spec(b) ==> arc_step_score_spec(a, b) == 100,
{
}

/// Two segments may share a stroke exactly when they have the same type or
/// are quarter arcs next to each other round a circle.
pub proof fn lemma_compatible_neighbours(a: SegmentType, b: SegmentType)
    ensures
        compatible_spec(a, b) <==> (a == b || (is_arc_spec(a) && is_arc_spec(b) && (b == clockwise_next(a) || a
            == clockwise_next(b)))),
{
}

/// The type rule of reading order: of two quarter arcs in the same half of
/// a circle, the left one comes first; an arc comes before a horizontal or
/// a vertical; a vertical comes before a horizontal; nothing else is
/// decided by type.
pub proof fn lemma_type_precedence_rules(a: SegmentType, b: SegmentType)
    ensures
        is_arc_spec(a) && is_arc_spec(b) && arc_top(a) == arc_top(b) && arc_left(a) && !arc_left(b) ==> (
        type_precedence_spec(a, b) == Precedence::Before && type_precedence_spec(b, a) == Precedence::After),
        is_arc_spec(a) && (b == SegmentType::Horizontal || b == SegmentType::Vertical) ==> (type_precedence_spec(a, b)
            == Precedence::Before && type_precedence_spec(b, a) == Precedence::After),
        a == SegmentType::Vertical && b == SegmentType::Horizontal ==> (type_precedence_spec(a, b)
            == Precedence::Before && type_precedence_spec(b, a) == Precedence::After),
        a == b ==> type_precedence_spec(a, b) == Precedence::Undecided,
        is_arc_spec(a) && is_arc_spec(b) && arc_top(a) != arc_top(b) ==> type_precedence_spec(a, b)
            == Precedence::Undecided,
        a == SegmentType::Unknown || b == SegmentType::Unknown ==> type_precedence_spec(a, b) == Precedence::Undecided,
{
}

/// The quadrant rule of reading order: quadrants are numbered in reading
/// order (top left, top right, bottom left, bottom right), and of two
/// different quadrants the one with the lower number comes first.
pub proof fn lemma_quadrant_precedence_order(qa: u8, qb: u8, x1: u32, y1: u32, x2: u32, y2: u32)
    ensures
        1 <= qa <= 4 && 1 <= qb <= 4 ==> quadrant_precedence_spec(qa, qb) == if qa < qb {
            Precedence::Before
        } else if qa > qb {
            Precedence::After
        } else {
            Precedence::Undecided
        },
        y1 <= 2 && y2 > 2 ==> quadrant_spec(x1, y1) < quadrant_spec(x2, y2),
        (y1 <= 2) == (y2 <= 2) && x1 <= 2 && x2 > 2 ==> quadrant_spec(x1, y1) < quadrant_spec(x2, y2),
{
}

/// The ranks of competing strokes: quarter arcs rank first, in reading
/// order of their quarters (a top quarter before a bottom one, a left before
/// a right one in the same half), then horizontals, then verticals, then
/// the rest.
pub proof fn lemma_priority_order(a: SegmentType, b: SegmentType)
    ensures
        is_arc_spec(a) && is_arc_spec(b) ==> (priority_spec(a) < priority_spec(b) <==> ((arc_top(a) && !arc_top(b)) || (
        arc_top(a) == arc_top(b) && arc_left(a) && !arc_left(b)))),
        is_arc_spec(a) && !is_arc_spec(b) ==> priority_spec(a) < priority_spec(b),
        priority_spec(SegmentType::Horizontal) < priority_spec(SegmentType::Vertical),
        b != SegmentType::Unknown ==> priority_spec(b) < priority_spec(SegmentType::Unknown),
{
}

/// The precedence rules of reading order are consistent: swapping the two
/// strokes swaps `Before` and `After`.
pub proof fn lemma_precedence_antisymmetric(qa: u8, qb: u8, a: SegmentType, b: SegmentType)
    ensures
        quadrant_precedence_spec(qa, qb) == Precedence::Before <==> quadrant_precedence_spec(qb, qa)
            == Precedence::After,
        type_precedence_spec(a, b) == Precedence::Before <==> type_precedence_spec(b, a) == Precedence::After,
{
}

/// How many of `segments` have type `t` in `types`.
pub open spec fn type_count(segments: Seq<Seq<char>>, types: Map<Seq<char>, SegmentType>, t: SegmentType) -> nat
    decreases segments.len(),
{
    if segments.len() == 0 {
        0
    } else {
        type_count(segments.drop_last(), types, t) + if types.dom().contains(segments.last())
            && types[segments.last()] == t {
            1nat
        } else {
            0nat
        }
    }
}

pub open spec fn all_types() -> Seq<SegmentType> {
    seq![
        SegmentType::Horizontal,
        SegmentType::Vertical,
        SegmentType::ArcTopLeft,
        SegmentType::ArcTopRight,
        SegmentType::ArcBottomLeft,
        SegmentType::ArcBottomRight,
        SegmentType::Unknown,
    ]
}

/// The position of `t` in declaration order.
pub open spec fn type_index(t: SegmentType) -> int {
    match t {
        SegmentType::Horizontal => 0,
        SegmentType::Vertical => 1,
        SegmentType::ArcTopLeft => 2,
        SegmentType::ArcTopRight => 3,
        SegmentType::ArcBottomLeft => 4,
        SegmentType::ArcBottomRight => 5,
        SegmentType::Unknown => 6,
    }
}

fn type_at(i: usize) -> (r: SegmentType)
    requires
        i < 7,
    ensures
        r == all_types()[i as int],
{
    if i == 0 {
        SegmentType::Horizontal
    } else if i == 1 {
        SegmentType::Vertical
    } else if i == 2 {
        SegmentType::ArcTopLeft
    } else if i == 3 {
        SegmentType::ArcTopRight
    } else if i == 4 {
        SegmentType::ArcBottomLeft
    } else if i == 5 {
        SegmentType::ArcBottomRight
    } else {
        SegmentType::Unknown
    }
}

fn count_type(segments: &Vec<String>, types: &NameMap<SegmentType>, t: SegmentType) -> (r: usize)
    requires
        types.wf(),
    ensures
        r == type_count(strings_of(segments@), types.view(), t),
{
    let ghost sv = strings_of(segments@);
    let mut count: usize = 0;
    let mut i: usize = 0;
    while i < segments.len()
        invariant
            types.wf(),
            sv == strings_of(segments@),
            i <= sv.len(),
            count == type_count(sv.subrange(0, i as int), types.view(), t),
            count <= i,
        decreases sv.len() - i,
    {
        assert(sv.subrange(0, i + 1).drop_last() =~= sv.subrange(0, i as int));
        assert(sv.subrange(0, i + 1).last() == segments@[i as int]@);
        match types.get(segments[i].as_str()) {
            Some(found) => {
                if *found == t {
                    count = count + 1;
                }
            },
            None => {},
        }
        i = i + 1;
    }
    assert(sv.subrange(0, i as int) =~= sv);
    count
}

pub open spec fn strings_of(v: Seq<String>) -> Seq<Seq<char>> {
    v.map_values(|s: String| s@)
}

/// The most common type among a stroke's segments, by the types the grid
/// gives them; `Unknown` when none has a type.  Of equally common types,
/// the first in declaration order is taken.
pub fn get_primary_segment_type(segments: &Vec<String>, types: &NameMap<SegmentType>) -> (r: SegmentType)
    requires
        types.wf(),
    ensures
        (forall|t: SegmentType| #[trigger] type_count(strings_of(segments@), types.view(), t) == 0) ==> r
            == SegmentType::Unknown,
        (exists|t: SegmentType| #[trigger] type_count(strings_of(segments@), types.view(), t) > 0) ==> {
            &&& type_count(strings_of(segments@), types.view(), r) > 0
            &&& forall|t: SegmentType| #[trigger] type_count(strings_of(segments@), types.view(), t) <= type_count(
                strings_of(segments@),
                types.view(),
                r,
            )
            &&& forall|t: SegmentType|
                type_index(t) < type_index(r) ==> #[trigger] type_count(strings_of(segments@), types.view(), t)
                    < type_count(strings_of(segments@), types.view(), r)
        },
{
    let ghost sv = strings_of(segments@);
    let mut best = SegmentType::Unknown;
    let mut best_count: usize = 0;
    let mut i: usize = 0;
    while i < 7
        invariant
            types.wf(),
            sv == strings_of(segments@),
            i <= 7,
            best_count == 0 ==> best == SegmentType::Unknown,
            best_count > 0 ==> best_count == type_count(sv, types.view(), best),
            forall|k: int| 0 <= k < i ==> #[trigger] type_count(sv, types.view(), all_types()[k]) <= best_count,
            best_count > 0 ==> type_index(best) < i,
            best_count > 0 ==> forall|k: int|
                0 <= k < type_index(best) ==> #[trigger] type_count(sv, types.view(), all_types()[k]) < best_count,
        decreases 7 - i,
    {
        let t = type_at(i);
        assert(type_index(t) == i);
        let c = count_type(segments, types, t);
        if c > best_count {
            best = t;
            best_count = c;
        }
        i = i + 1;
    }
    proof {
        assert forall|t: SegmentType| #[trigger] type_count(sv, types.view(), t) <= best_count by {
            assert(all_types()[type_index(t)] == t);
        }
        assert forall|t: SegmentType|
            best_count > 0 && type_index(t) < type_index(best) implies #[trigger] type_count(sv, types.view(), t)
                < best_count by {
            assert(all_types()[type_index(t)] == t);
        }
    }
    best
}

/// The steps of a writing transition: each segment of `ordered_segments`
/// switches on in a step of its own, in that order; then one step switches
/// off the lit segments that the target lacks, if there are any.
pub open spec fn writing_steps_spec(
    ordered: Seq<Seq<char>>,
    start_order: Seq<Seq<char>>,
    target: Set<Seq<char>>,
) -> Seq<Seq<ChangeView>> {
    let ons = ordered.map_values(|s: Seq<char>| seq![(s, true)]);
    let offs = start_order.filter(|s: Seq<char>| !target.contains(s)).map_values(|s: Seq<char>| (s, false));
    if offs.len() == 0 {
        ons
    } else {
        ons.push(offs)
    }
}

/// The steps of a writing transition from the lit segments `start` to the
/// target glyph's `target`, given the order to light its new segments in.
pub fn convert_to_transition_changes(ordered_segments: Vec<String>, start: &SegmentSet, target: &SegmentSet) -> (r: Vec<
    Vec<SegmentChange>,
>)
    requires
        start.wf(),
    ensures
        steps_view(r@) == writing_steps_spec(strings_of(ordered_segments@), start.order(), target@),
{
    let ghost ov = strings_of(ordered_segments@);
    let mut changes: Vec<Vec<SegmentChange>> = Vec::new();
    let mut i: usize = 0;
    while i < ordered_segments.len()
        invariant
            ov == strings_of(ordered_segments@),
            i <= ov.len(),
            steps_view(changes@) == ov.subrange(0, i as int).map_values(|s: Seq<char>| seq![(s, true)]),
        decreases ov.len() - i,
    {
        let ghost before = steps_view(changes@);
        let mut step: Vec<SegmentChange> = Vec::new();
        step.push(SegmentChange { segment_id: ordered_segments[i].clone(), turn_on: true });
        changes.push(step);
        proof {
            assert(crate::transition::step_view(step) =~= seq![(ov[i as int], true)]);
            assert(steps_view(changes@) =~= before.push(seq![(ov[i as int], true)]));
            assert(ov.subrange(0, i + 1).map_values(|s: Seq<char>| seq![(s, true)]) =~= ov.subrange(
                0,
                i as int,
            ).map_values(|s: Seq<char>| seq![(s, true)]).push(seq![(ov[i as int], true)]));
        }
        i = i + 1;
    }
    assert(ov.subrange(0, i as int) =~= ov);
    let ghost so = start.order();
    let ghost keep = |s: Seq<char>| !target@.contains(s);
    let mut offs: Vec<SegmentChange> = Vec::new();
    let mut k: usize = 0;
    let n = start.len();
    while k < n
        invariant
            start.wf(),
            so == start.order(),
            n == so.len(),
            k <= n,
            keep == (|s: Seq<char>| !target@.contains(s)),
            crate::transition::step_view(offs) == so.subrange(0, k as int).filter(keep).map_values(
                |s: Seq<char>| (s, false),
            ),
        decreases n - k,
    {
        let seg = start.get(k);
        let ghost before = crate::transition::step_view(offs);
        proof {
            assert(so.subrange(0, k + 1).drop_last() =~= so.subrange(0, k as int));
            assert(so.subrange(0, k + 1).last() == seg@);
            reveal(Seq::filter);
        }
        if !target.contains(seg.as_str()) {
            offs.push(SegmentChange { segment_id: seg.clone(), turn_on: false });
            assert(crate::transition::step_view(offs) =~= before.push((seg@, false)));
            assert(so.subrange(0, k + 1).filter(keep).map_values(|s: Seq<char>| (s, false)) =~= so.subrange(
                0,
                k as int,
            ).filter(keep).map_values(|s: Seq<char>| (s, false)).push((seg@, false)));
        }
        k = k + 1;
    }
    assert(so.subrange(0, k as int) =~= so);
    if offs.len() > 0 {
        let ghost before = steps_view(changes@);
        changes.push(offs);
        assert(steps_view(changes@) =~= before.push(
            so.filter(keep).map_values(|s: Seq<char>| (s, false)),
        ));
    }
    changes
}

/// A stroke: its segments in writing order, the segment it starts from and
/// the one it ends at (empty while not yet known), and its main type.
pub struct Stroke {
    pub segments: Vec<String>,
    pub start_segment: String,
    pub end_segment: String,
    pub primary_type: SegmentType,
}

/// The start of the first stroke of `strokes` that holds segment `seg`.
pub open spec fn stroke_of(strokes: Seq<Stroke>, seg: Seq<char>) -> Option<Seq<char>>
    decreases strokes.len(),
{
    if strokes.len() == 0 {
        None
    } else if strings_of(strokes[0].segments@).contains(seg) {
        Some(strokes[0].start_segment@)
    } else {
        stroke_of(strokes.drop_first(), seg)
    }
}

pub(crate) fn holds(segments: &Vec<String>, seg: &str) -> (r: bool)
    ensures
        r == strings_of(segments@).contains(seg@),
{
    let mut i: usize = 0;
    while i < segments.len()
        invariant
            i <= segments@.len(),
            forall|k: int| 0 <= k < i ==> segments@[k]@ != seg@,
        decreases segments@.len() - i,
    {
        if crate::text::str_eq(segments[i].as_str(), seg) {
            assert(strings_of(segments@)[i as int] == seg@);
            return true;
        }
        i = i + 1;
    }
    assert forall|k: int| 0 <= k < strings_of(segments@).len() implies strings_of(segments@)[k] != seg@ by {
        assert(strings_of(segments@)[k] == segments@[k]@);
    }
    false
}

fn find_stroke(strokes: &Vec<Stroke>, seg: &str) -> (r: Option<String>)
    ensures
        match r {
            Some(id) => stroke_of(strokes@, seg@) == Some(id@),
            None => stroke_of(strokes@, seg@) is None,
        },
{
    let mut i: usize = 0;
    assert(strokes@.subrange(0, strokes@.len() as int) =~= strokes@);
    while i < strokes.len()
        invariant
            i <= strokes@.len(),
            stroke_of(strokes@, seg@) == stroke_of(strokes@.subrange(i as int, strokes@.len() as int), seg@),
        decreases strokes@.len() - i,
    {
        let ghost rest = strokes@.subrange(i as int, strokes@.len() as int);
        assert(rest[0] == strokes@[i as int]);
        assert(rest.drop_first() =~= strokes@.subrange(i + 1, strokes@.len() as int));
        if holds(&strokes[i].segments, seg) {
            return Some(strokes[i].start_segment.clone());
        }
        i = i + 1;
    }
    None
}

/// The segments that `seg` is connected to, as the graph lists them.
pub open spec fn neighbor_ids(adj: Map<Seq<char>, Seq<Seq<char>>>, seg: Seq<char>) -> Seq<Seq<char>> {
    if adj.dom().contains(seg) {
        adj[seg]
    } else {
        Seq::empty()
    }
}

/// The strokes that segment `seg` of stroke `source` leads into: for each
/// segment connected to it, in string order, the first stroke holding that
/// segment, unless it is `source` itself.
pub open spec fn connected_strokes_spec(
    strokes: Seq<Stroke>,
    adj: Map<Seq<char>, Seq<Seq<char>>>,
    seg: Seq<char>,
    source: Seq<char>,
) -> Seq<Seq<char>> {
    sorted_version(neighbor_ids(adj, seg)).filter_map(|nb: Seq<char>| stroke_of(strokes, nb)).filter(
        |id: Seq<char>| id != source,
    )
}

/// The links between strokes, as plain values.
pub open spec fn links_view(c: NameMap<Vec<String>>) -> Map<Seq<char>, Seq<Seq<char>>> {
    c.view().map_values(|v: Vec<String>| strings_of(v@))
}

/// The links after adding `ids` to those of `source`; nothing changes when
/// there are none to add.
pub open spec fn add_links_spec(m: Map<Seq<char>, Seq<Seq<char>>>, source: Seq<char>, ids: Seq<Seq<char>>) -> Map<
    Seq<char>,
    Seq<Seq<char>>,
> {
    if ids.len() == 0 {
        m
    } else {
        m.insert(source, (if m.dom().contains(source) { m[source] } else { Seq::empty() }) + ids)
    }
}

pub(crate) fn clone_strings(v: &Vec<String>) -> (r: Vec<String>)
    ensures
        strings_of(r@) == strings_of(v@),
{
    let mut r: Vec<String> = Vec::new();
    let mut i: usize = 0;
    while i < v.len()
        invariant
            i <= v@.len(),
            strings_of(r@) == strings_of(v@).subrange(0, i as int),
        decreases v@.len() - i,
    {
        let ghost before = strings_of(r@);
        r.push(v[i].clone());
        assert(strings_of(r@) =~= before.push(v@[i as int]@));
        assert(strings_of(v@).subrange(0, i + 1) =~= strings_of(v@).subrange(0, i as int).push(v@[i as int]@));
        i = i + 1;
    }
    assert(strings_of(v@).subrange(0, i as int) =~= strings_of(v@));
    r
}

/// Adds to the links of stroke `source_stroke_id` the strokes that segment
/// `segment_id` leads into.
pub fn add_connections_from_segment(
    segment_id: &str,
    source_stroke_id: &str,
    strokes: &Vec<Stroke>,
    graph: &SegmentGraph,
    connections: &mut NameMap<Vec<String>>,
)
    requires
        graph.wf(),
        old(connections).wf(),
    ensures
        final(connections).wf(),
        links_view(*final(connections)) == add_links_spec(
            links_view(*old(connections)),
            source_stroke_id@,
            connected_strokes_spec(strokes@, graph.adjacency(), segment_id@, source_stroke_id@),
        ),
{
    let mut connected = graph.get_neighbors(segment_id);
    proof {
        assert(strings_view(connected@) == neighbor_ids(graph.adjacency(), segment_id@));
    }
    sort_strings(&mut connected);
    let ghost sv = strings_of(connected@);
    let ghost f = |nb: Seq<char>| stroke_of(strokes@, nb);
    let ghost p = |id: Seq<char>| id != source_stroke_id@;
    let mut ids: Vec<String> = Vec::new();
    let mut i: usize = 0;
    while i < connected.len()
        invariant
            sv == strings_of(connected@),
            f == (|nb: Seq<char>| stroke_of(strokes@, nb)),
            p == (|id: Seq<char>| id != source_stroke_id@),
            i <= sv.len(),
            strings_of(ids@) == sv.subrange(0, i as int).filter_map(f).filter(p),
        decreases sv.len() - i,
    {
        let ghost pre = sv.subrange(0, i as int);
        let ghost pre1 = sv.subrange(0, i + 1);
        assert(pre1.drop_last() =~= pre);
        assert(pre1.last() == connected@[i as int]@);
        let ghost before = strings_of(ids@);
        match find_stroke(strokes, connected[i].as_str()) {
            Some(id) => {
                assert(pre1.filter_map(f) == pre.filter_map(f) + seq![id@]);
                proof {
                    Seq::filter_distributes_over_add(pre.filter_map(f), seq![id@], p);
                    reveal(Seq::filter);
                    assert(seq![id@].drop_last() =~= Seq::<Seq<char>>::empty());
                }
                if !crate::text::str_eq(id.as_str(), source_stroke_id) {
                    ids.push(id);
                    assert(seq![id@].filter(p) == seq![id@]) by {
                        reveal(Seq::filter);
                        assert(seq![id@].drop_last() =~= Seq::<Seq<char>>::empty());
                        assert(Seq::<Seq<char>>::empty().push(id@) =~= seq![id@]);
                    }
                    assert(strings_of(ids@) =~= before + seq![id@]);
                } else {
                    assert(id@ == source_stroke_id@);
                    assert(!p(id@));
                    assert(seq![id@].filter(p) =~= Seq::<Seq<char>>::empty()) by {
                        reveal(Seq::filter);
                        assert(seq![id@].last() == id@);
                        assert(Seq::<Seq<char>>::empty().filter(p) =~= Seq::<Seq<char>>::empty());
                        assert(seq![id@].drop_last() =~= Seq::<Seq<char>>::empty());
                    }
                    assert(before + Seq::<Seq<char>>::empty() =~= before);
                }
            },
            None => {
                assert(pre1.filter_map(f) == pre.filter_map(f));
            },
        }
        i = i + 1;
    }
    assert(sv.subrange(0, i as int) =~= sv);
    if ids.len() > 0 {
        proof {
            connections.lemma_wf_facts();
        }
        match connections.find(source_stroke_id) {
            Some(k) => {
                let ghost old_links = links_view(*connections);
                let mut list = clone_strings(connections.value_at(k));
                let ghost old_list = strings_of(list@);
                let mut extra = ids;
                let ghost extra_view = strings_of(extra@);
                list.append(&mut extra);
                assert(strings_of(list@) =~= old_list + extra_view);
                assert(connections.view()[source_stroke_id@] == connections.val_seq()[k as int]);
                connections.set_value_at(k, list);
                assert(links_view(*connections) =~= old_links.insert(source_stroke_id@, old_list + extra_view));
            },
            None => {
                let ghost old_links = links_view(*connections);
                assert(!old_links.dom().contains(source_stroke_id@));
                let ghost extra_view = strings_of(ids@);
                connections.insert(String::from_str(source_stroke_id), ids);
                assert(links_view(*connections) =~= old_links.insert(
                    source_stroke_id@,
                    Seq::<Seq<char>>::empty() + extra_view,
                ));
            },
        }
    }
}

/// The segments of a stroke whose connections link it to other strokes,
/// each with the stroke's start: its end segment, once known, and for an
/// arc stroke every other segment as well.
pub open spec fn stroke_link_sources(s: Stroke) -> Seq<(Seq<char>, Seq<char>)> {
    (if s.end_segment@.len() > 0 {
        seq![(s.end_segment@, s.start_segment@)]
    } else {
        Seq::empty()
    }) + (if is_arc_spec(s.primary_type) {
        strings_of(s.segments@).filter(|x: Seq<char>| x != s.end_segment@).map_values(
            |x: Seq<char>| (x, s.start_segment@),
        )
    } else {
        Seq::empty()
    })
}

/// The link sources of all strokes, stroke after stroke.
pub open spec fn link_sources(strokes: Seq<Stroke>) -> Seq<(Seq<char>, Seq<char>)>
    decreases strokes.len(),
{
    if strokes.len() == 0 {
        Seq::empty()
    } else {
        link_sources(strokes.drop_last()) + stroke_link_sources(strokes.last())
    }
}

/// The links that the sources `sources` add to `m`, one after another.
pub open spec fn collect_links(
    m: Map<Seq<char>, Seq<Seq<char>>>,
    strokes: Seq<Stroke>,
    adj: Map<Seq<char>, Seq<Seq<char>>>,
    sources: Seq<(Seq<char>, Seq<char>)>,
) -> Map<Seq<char>, Seq<Seq<char>>>
    decreases sources.len(),
{
    if sources.len() == 0 {
        m
    } else {
        add_links_spec(
            collect_links(m, strokes, adj, sources.drop_last()),
            sources.last().1,
            connected_strokes_spec(strokes, adj, sources.last().0, sources.last().1),
        )
    }
}

proof fn lemma_collect_push(
    m: Map<Seq<char>, Seq<Seq<char>>>,
    strokes: Seq<Stroke>,
    adj: Map<Seq<char>, Seq<Seq<char>>>,
    sources: Seq<(Seq<char>, Seq<char>)>,
    x: (Seq<char>, Seq<char>),
)
    ensures
        collect_links(m, strokes, adj, sources.push(x)) == add_links_spec(
            collect_links(m, strokes, adj, sources),
            x.1,
            connected_strokes_spec(strokes, adj, x.0, x.1),
        ),
{
    assert(sources.push(x).drop_last() =~= sources);
}

/// Sorts each list of links and drops its repeats.
pub(crate) fn normalize_links(connections: &mut NameMap<Vec<String>>)
    requires
        old(connections).wf(),
    ensures
        final(connections).wf(),
        links_view(*final(connections)) == links_view(*old(connections)).map_values(
            |v: Seq<Seq<char>>| dedup_spec(sorted_version(v)),
        ),
{
    let ghost raw = links_view(*connections);
    proof {
        connections.lemma_wf_facts();
    }
    let n = connections.len();
    let mut k: usize = 0;
    while k < n
        invariant
            connections.wf(),
            n == connections.key_seq().len(),
            connections.key_seq().len() == connections.val_seq().len(),
            connections.view().dom() == connections.key_seq().to_set(),
            raw.dom() == connections.view().dom(),
            k <= n,
            forall|t: int| 0 <= t < k ==> #[trigger] links_view(*connections)[connections.key_seq()[t]] == dedup_spec(
                sorted_version(raw[connections.key_seq()[t]]),
            ),
            forall|t: int| k <= t < n ==> #[trigger] links_view(*connections)[connections.key_seq()[t]]
                == raw[connections.key_seq()[t]],
        decreases n - k,
    {
        proof {
            connections.lemma_wf_facts();
        }
        let ghost key = connections.key_seq()[k as int];
        let ghost keys_before = connections.key_seq();
        let ghost before = links_view(*connections);
        assert(connections.key_seq().to_set().contains(key));
        assert(links_view(*connections)[connections.key_seq()[k as int]] == raw[connections.key_seq()[k as int]]);
        assert(connections.view()[key] == connections.val_seq()[k as int]);
        let mut list = clone_strings(connections.value_at(k));
        assert(links_view(*connections)[key] == strings_of(connections.view()[key]@));
        assert(strings_of(list@) == raw[key]);
        sort_strings(&mut list);
        let unique = dedup_strings(&list);
        let ghost uv = strings_of(unique@);
        connections.set_value_at(k, unique);
        proof {
            assert(links_view(*connections) =~= before.insert(key, uv));
            connections.lemma_wf_facts();
            assert forall|t: int| 0 <= t < k + 1 implies #[trigger] links_view(*connections)[connections.key_seq()[t]]
                == dedup_spec(sorted_version(raw[connections.key_seq()[t]])) by {
                if t < k {
                    assert(connections.key_seq()[t] != key);
                }
            }
            assert forall|t: int| k + 1 <= t < n implies #[trigger] links_view(*connections)[connections.key_seq()[t]]
                == raw[connections.key_seq()[t]] by {
                assert(connections.key_seq()[t] != key);
            }
        }
        k = k + 1;
    }
    proof {
        connections.lemma_wf_facts();
        assert forall|key: Seq<char>| #[trigger] links_view(*connections).dom().contains(key) implies links_view(
            *connections,
        )[key] == raw.map_values(|v: Seq<Seq<char>>| dedup_spec(sorted_version(v)))[key] by {
            let t = choose|t: int| 0 <= t < connections.key_seq().len() && connections.key_seq()[t] == key;
        }
        assert(links_view(*connections) =~= raw.map_values(|v: Seq<Seq<char>>| dedup_spec(sorted_version(v))));
    }
}

/// The links between strokes: for each stroke that leads into others, the
/// starts of those strokes, in string order, each once.  (The lists are
/// sorted at the end, so the order in which strokes are visited does not
/// show in the result.)
pub fn identify_connections(strokes: &Vec<Stroke>, graph: &SegmentGraph) -> (r: NameMap<Vec<String>>)
    requires
        graph.wf(),
    ensures
        r.wf(),
        links_view(r) == collect_links(Map::empty(), strokes@, graph.adjacency(), link_sources(strokes@)).map_values(
            |v: Seq<Seq<char>>| dedup_spec(sorted_version(v)),
        ),
{
    let ghost adj = graph.adjacency();
    let mut connections: NameMap<Vec<String>> = NameMap::new();
    proof {
        assert(links_view(connections) =~= Map::<Seq<char>, Seq<Seq<char>>>::empty());
    }
    let mut i: usize = 0;
    while i < strokes.len()
        invariant
            graph.wf(),
            adj == graph.adjacency(),
            connections.wf(),
            i <= strokes@.len(),
            links_view(connections) == collect_links(Map::empty(), strokes@, adj, link_sources(strokes@.subrange(0, i as int))),
        decreases strokes@.len() - i,
    {
        let stroke = &strokes[i];
        let ghost done = link_sources(strokes@.subrange(0, i as int));
        let ghost step = stroke_link_sources(*stroke);
        proof {
            assert(strokes@.subrange(0, i + 1).drop_last() =~= strokes@.subrange(0, i as int));
            assert(strokes@.subrange(0, i + 1).last() == *stroke);
            assert(link_sources(strokes@.subrange(0, i + 1)) == done + step);
        }
        let ghost mut added: Seq<(Seq<char>, Seq<char>)> = Seq::empty();
        assert(done + added =~= done);
        if stroke.end_segment.unicode_len() > 0 {
            add_connections_from_segment(
                stroke.end_segment.as_str(),
                stroke.start_segment.as_str(),
                strokes,
                graph,
                &mut connections,
            );
            proof {
                lemma_collect_push(Map::empty(), strokes@, adj, done, (stroke.end_segment@, stroke.start_segment@));
                added = seq![(stroke.end_segment@, stroke.start_segment@)];
                assert(done.push((stroke.end_segment@, stroke.start_segment@)) =~= done + added);
            }
        }
        let ghost head = added;
        assert(head == (if stroke.end_segment@.len() > 0 {
            seq![(stroke.end_segment@, stroke.start_segment@)]
        } else {
            Seq::<(Seq<char>, Seq<char>)>::empty()
        }));
        if is_arc_type(stroke.primary_type) {
            let ghost segs = strings_of(stroke.segments@);
            let ghost keep = |x: Seq<char>| x != stroke.end_segment@;
            let ghost tag = |x: Seq<char>| (x, stroke.start_segment@);
            let mut j: usize = 0;
            while j < stroke.segments.len()
                invariant
                    graph.wf(),
                    adj == graph.adjacency(),
                    connections.wf(),
                    segs == strings_of(stroke.segments@),
                    keep == (|x: Seq<char>| x != stroke.end_segment@),
                    tag == (|x: Seq<char>| (x, stroke.start_segment@)),
                    j <= segs.len(),
                    added == head + segs.subrange(0, j as int).filter(keep).map_values(tag),
                    links_view(connections) == collect_links(Map::empty(), strokes@, adj, done + added),
                decreases segs.len() - j,
            {
                let seg = stroke.segments[j].as_str();
                proof {
                    assert(segs.subrange(0, j + 1).drop_last() =~= segs.subrange(0, j as int));
                    assert(segs.subrange(0, j + 1).last() == seg@);
                    reveal(Seq::filter);
                }
                if !crate::text::str_eq(seg, stroke.end_segment.as_str()) {
                    add_connections_from_segment(seg, stroke.start_segment.as_str(), strokes, graph, &mut connections);
                    proof {
                        lemma_collect_push(Map::empty(), strokes@, adj, done + added, (seg@, stroke.start_segment@));
                        assert(segs.subrange(0, j + 1).filter(keep) == segs.subrange(0, j as int).filter(keep).push(seg@));
                        assert(segs.subrange(0, j + 1).filter(keep).map_values(tag) =~= segs.subrange(0, j as int).filter(
                            keep,
                        ).map_values(tag).push((seg@, stroke.start_segment@)));
                        assert((done + added).push((seg@, stroke.start_segment@)) =~= done + (head
                            + segs.subrange(0, j + 1).filter(keep).map_values(tag)));
                        added = head + segs.subrange(0, j + 1).filter(keep).map_values(tag);
                    }
                } else {
                    proof {
                        assert(segs.subrange(0, j + 1).filter(keep) == segs.subrange(0, j as int).filter(keep));
                        added = head + segs.subrange(0, j + 1).filter(keep).map_values(tag);
                    }
                }
                j = j + 1;
            }
            proof {
                assert(segs.subrange(0, j as int) =~= segs);
                assert(step =~= added);
            }
        } else {
            proof {
                assert(step =~= head + Seq::<(Seq<char>, Seq<char>)>::empty());
                assert(added + Seq::<(Seq<char>, Seq<char>)>::empty() =~= added);
            }
        }
        i = i + 1;
    }
    assert(strokes@.subrange(0, i as int) =~= strokes@);
    normalize_links(&mut connections);
    connections
}

/// The groups, one after another.
pub open spec fn flat(groups: Seq<Seq<Seq<char>>>) -> Seq<Seq<char>> {
    groups.flatten()
}

pub open spec fn groups_view(g: Seq<Vec<String>>) -> Seq<Seq<Seq<char>>> {
    g.map_values(|v: Vec<String>| strings_of(v@))
}

/// Segment `m` of `g` is connected, compatibly, from one before it.
pub open spec fn follows_earlier(
    adj: Map<Seq<char>, Seq<Seq<char>>>,
    tv: Map<Seq<char>, SegmentType>,
    g: Seq<Seq<char>>,
    m: int,
) -> bool {
    exists|m2: int|
        0 <= m2 < m && #[trigger] neighbor_ids(adj, g[m2]).contains(g[m]) && compatible_spec(tv[g[m2]], tv[g[m]])
}

/// Every segment of `g` after the first is connected, compatibly, from one
/// that comes before it.
pub open spec fn grows_from_first(adj: Map<Seq<char>, Seq<Seq<char>>>, tv: Map<Seq<char>, SegmentType>, g: Seq<Seq<char>>) -> bool {
    forall|m: int| 1 <= m < g.len() ==> #[trigger] follows_earlier(adj, tv, g, m)
}

/// Some segment of `g` connects, compatibly, to `v`.
spec fn fed_by(adj: Map<Seq<char>, Seq<Seq<char>>>, tv: Map<Seq<char>, SegmentType>, g: Seq<Seq<char>>, v: Seq<char>) -> bool {
    exists|m2: int| 0 <= m2 < g.len() && #[trigger] neighbor_ids(adj, g[m2]).contains(v) && compatible_spec(tv[g[m2]], tv[v])
}

proof fn lemma_fed_push(adj: Map<Seq<char>, Seq<Seq<char>>>, tv: Map<Seq<char>, SegmentType>, g: Seq<Seq<char>>, x: Seq<char>, v: Seq<char>)
    requires
        fed_by(adj, tv, g, v) || (neighbor_ids(adj, x).contains(v) && compatible_spec(tv[x], tv[v])),
    ensures
        fed_by(adj, tv, g.push(x), v),
{
    if fed_by(adj, tv, g, v) {
        let m2 = choose|m2: int| 0 <= m2 < g.len() && #[trigger] neighbor_ids(adj, g[m2]).contains(v) && compatible_spec(tv[g[m2]], tv[v]);
        assert(g.push(x)[m2] == g[m2]);
    } else {
        assert(g.push(x)[g.len() as int] == x);
    }
}

proof fn lemma_grows_push(adj: Map<Seq<char>, Seq<Seq<char>>>, tv: Map<Seq<char>, SegmentType>, g: Seq<Seq<char>>, x: Seq<char>)
    requires
        grows_from_first(adj, tv, g),
        g.len() == 0 || fed_by(adj, tv, g, x),
    ensures
        grows_from_first(adj, tv, g.push(x)),
{
    let h = g.push(x);
    assert forall|m: int| 1 <= m < h.len() implies #[trigger] follows_earlier(adj, tv, h, m) by {
        if m < g.len() {
            assert(follows_earlier(adj, tv, g, m));
            let m2 = choose|m2: int| 0 <= m2 < m && #[trigger] neighbor_ids(adj, g[m2]).contains(g[m]) && compatible_spec(tv[g[m2]], tv[g[m]]);
            assert(h[m2] == g[m2] && h[m] == g[m]);
        } else {
            let m2 = choose|m2: int| 0 <= m2 < g.len() && #[trigger] neighbor_ids(adj, g[m2]).contains(x) && compatible_spec(tv[g[m2]], tv[x]);
            assert(h[m2] == g[m2] && h[m] == x);
        }
    }
}

/// Group `k` of `gs` starts with the first segment of `order` that no
/// earlier group holds.
pub open spec fn starts_at_first_free(order: Seq<Seq<char>>, gs: Seq<Seq<Seq<char>>>, k: int) -> bool {
    exists|idx: int|
        0 <= idx < order.len() && #[trigger] order[idx] == gs[k][0] && forall|t: int|
            0 <= t < idx ==> flat(gs.subrange(0, k)).contains(#[trigger] order[t])
}

/// Groups the segments to light into strokes: taking the segments in
/// order, each one not yet grouped starts a stroke, which then takes in,
/// breadth-first along the graph's connections, every segment to light that
/// is compatible with the segment it is reached from.  Every segment lands
/// in exactly one stroke, no stroke is empty, and a stroke leaves out no
/// compatible connected segment that an earlier stroke did not take.
pub fn group_segments_into_strokes(segments: &SegmentSet, types: &NameMap<SegmentType>, graph: &SegmentGraph) -> (r: Vec<
    Vec<String>,
>)
    requires
        segments.wf(),
        types.wf(),
        graph.wf(),
        forall|s: Seq<char>| #[trigger] segments@.contains(s) ==> types.view().dom().contains(s),
    ensures
        flat(groups_view(r@)).no_duplicates(),
        flat(groups_view(r@)).to_set() == segments@,
        forall|k: int| 0 <= k < r@.len() ==> #[trigger] groups_view(r@)[k].len() > 0,
        forall|k: int, u: Seq<char>, v: Seq<char>|
            0 <= k < r@.len() && #[trigger] groups_view(r@)[k].contains(u) && segments@.contains(v)
                && #[trigger] neighbor_ids(graph.adjacency(), u).contains(v) && compatible_spec(
                types.view()[u],
                types.view()[v],
            ) ==> flat(groups_view(r@).subrange(0, k + 1)).contains(v),
        forall|k: int| 0 <= k < r@.len() ==> #[trigger] grows_from_first(graph.adjacency(), types.view(), groups_view(r@)[k]),
        forall|k: int| 0 <= k < r@.len() ==> #[trigger] starts_at_first_free(segments.order(), groups_view(r@), k),
{
    let ghost adj = graph.adjacency();
    let ghost tv = types.view();
    let mut groups: Vec<Vec<String>> = Vec::new();
    let mut visited = SegmentSet::new();
    let n = segments.len();
    let mut i: usize = 0;
    proof {
        segments.lemma_view();
        assert(groups_view(groups@) =~= Seq::<Seq<Seq<char>>>::empty());
        assert(flat(groups_view(groups@)) =~= Seq::<Seq<char>>::empty());
    }
    while i < n
        invariant
            segments.wf(),
            types.wf(),
            graph.wf(),
            adj == graph.adjacency(),
            tv == types.view(),
            forall|s: Seq<char>| #[trigger] segments@.contains(s) ==> tv.dom().contains(s),
            n == segments.order().len(),
            i <= n,
            visited.wf(),
            visited.order() == flat(groups_view(groups@)),
            forall|s: Seq<char>| #[trigger] visited@.contains(s) ==> segments@.contains(s),
            forall|t: int| 0 <= t < i ==> visited@.contains(#[trigger] segments.order()[t]),
            forall|k: int| 0 <= k < groups@.len() ==> #[trigger] groups_view(groups@)[k].len() > 0,
            forall|k: int, u: Seq<char>, v: Seq<char>|
                0 <= k < groups@.len() && #[trigger] groups_view(groups@)[k].contains(u) && segments@.contains(v)
                    && #[trigger] neighbor_ids(adj, u).contains(v) && compatible_spec(tv[u], tv[v]) ==> flat(
                    groups_view(groups@).subrange(0, k + 1),
                ).contains(v),
            forall|k: int| 0 <= k < groups@.len() ==> #[trigger] grows_from_first(adj, tv, groups_view(groups@)[k]),
            forall|k: int| 0 <= k < groups@.len() ==> #[trigger] starts_at_first_free(segments.order(), groups_view(groups@), k),
        decreases n - i,
    {
        let seed = segments.get(i);
        if visited.contains(seed.as_str()) {
            i = i + 1;
            continue;
        }
        let mut queue: Vec<String> = Vec::new();
        queue.push(seed.clone());
        let mut head: usize = 0;
        let mut group: Vec<String> = Vec::new();
        let ghost before_groups = groups_view(groups@);
        let ghost before_visited = visited.order();
        proof {
            segments.lemma_view();
            assert(segments@.contains(seed@));
            vstd::seq_lib::seq_to_set_is_finite(segments.order());
            assert(strings_of(group@) =~= Seq::<Seq<char>>::empty());
            assert(visited.order() =~= before_visited + strings_of(group@));
            visited.lemma_view();
            assert forall|t: int| 0 <= t < i implies before_visited.contains(#[trigger] segments.order()[t]) by {
                assert(visited@.contains(segments.order()[t]));
            }
        }
        while head < queue.len()
            invariant
                segments.wf(),
                types.wf(),
                graph.wf(),
                adj == graph.adjacency(),
                tv == types.view(),
                forall|s: Seq<char>| #[trigger] segments@.contains(s) ==> tv.dom().contains(s),
                visited.wf(),
                visited.order() == before_visited + strings_of(group@),
                before_visited == flat(before_groups),
                head <= queue@.len(),
                forall|s: Seq<char>| #[trigger] visited@.contains(s) ==> segments@.contains(s),
                forall|t: int| 0 <= t < queue@.len() ==> segments@.contains(#[trigger] queue@[t]@),
                strings_of(group@).len() == 0 ==> (head == 0 && queue@.len() == 1 && queue@[0]@ == seed@
                    && !visited@.contains(seed@)),
                strings_of(group@).len() > 0 ==> strings_of(group@)[0] == seed@,
                segments@.finite(),
                forall|t: int| 0 <= t < i ==> before_visited.contains(#[trigger] segments.order()[t]),
                forall|u: Seq<char>, v: Seq<char>|
                    #[trigger] strings_of(group@).contains(u) && segments@.contains(v) && #[trigger] neighbor_ids(
                        adj,
                        u,
                    ).contains(v) && compatible_spec(tv[u], tv[v]) ==> visited@.contains(v) || exists|t: int|
                        head <= t < queue@.len() && #[trigger] queue@[t]@ == v,
                queue@.len() >= 1,
                queue@[0]@ == seed@,
                forall|t: int| 1 <= t < queue@.len() ==> #[trigger] fed_by(adj, tv, strings_of(group@), queue@[t]@),
                grows_from_first(adj, tv, strings_of(group@)),
            decreases segments@.len() - visited@.len(), queue@.len() - head,
        {
            proof {
                visited.lemma_view();
                segments.lemma_view();
                vstd::set_lib::lemma_len_subset(visited@, segments@);
            }
            let current = queue[head].clone();
            head = head + 1;
            if visited.contains(current.as_str()) {
                continue;
            }
            let ghost vis_before = visited@;
            let ghost q_at = (head - 1) as int;
            visited.insert(current.clone());
            let ghost g_before = strings_of(group@);
            group.push(current.clone());
            assert(strings_of(group@) =~= g_before.push(current@));
            proof {
                visited.lemma_view();
                if g_before.len() > 0 && q_at == 0 {
                    assert(g_before[0] == seed@);
                    assert(vis_before.contains(seed@)) by {
                        assert((before_visited + g_before)[before_visited.len() as int] == seed@);
                    }
                }
                assert(current@ == queue@[q_at]@);
                if g_before.len() > 0 {
                    assert(fed_by(adj, tv, g_before, queue@[q_at]@));
                }
                lemma_grows_push(adj, tv, g_before, current@);
                assert forall|t: int| 1 <= t < queue@.len() implies #[trigger] fed_by(adj, tv, strings_of(group@), queue@[t]@) by {
                    lemma_fed_push(adj, tv, g_before, current@, queue@[t]@);
                }
            }
            let current_type = match types.get(current.as_str()) {
                Some(t) => *t,
                None => {
                    assert(false);
                    SegmentType::Unknown
                },
            };
            let neighbors = graph.get_neighbors(current.as_str());
            let ghost nv = strings_of(neighbors@);
            let mut j: usize = 0;
            while j < neighbors.len()
                invariant
                    segments.wf(),
                    types.wf(),
                    tv == types.view(),
                    forall|s: Seq<char>| #[trigger] segments@.contains(s) ==> tv.dom().contains(s),
                    visited.wf(),
                    head <= queue@.len(),
                    forall|t: int| 0 <= t < queue@.len() ==> segments@.contains(#[trigger] queue@[t]@),
                    nv == strings_of(neighbors@),
                    tv.dom().contains(current@),
                    current_type == tv[current@],
                    j <= nv.len(),
                    graph.wf(),
                    adj == graph.adjacency(),
                    nv == neighbor_ids(adj, current@),
                    strings_of(group@) == g_before.push(current@),
                    grows_from_first(adj, tv, strings_of(group@)),
                    queue@.len() >= 1,
                    queue@[0]@ == seed@,
                    forall|t: int| 1 <= t < queue@.len() ==> #[trigger] fed_by(adj, tv, strings_of(group@), queue@[t]@),
                    forall|t: int|
                        0 <= t < j && segments@.contains(#[trigger] nv[t]) && compatible_spec(tv[current@], tv[nv[t]])
                            ==> visited@.contains(nv[t]) || exists|q: int| head <= q < queue@.len() && #[trigger] queue@[q]@ == nv[t],
                    forall|u: Seq<char>, v: Seq<char>|
                        #[trigger] g_before.contains(u) && segments@.contains(v) && #[trigger] neighbor_ids(adj, u).contains(v)
                            && compatible_spec(tv[u], tv[v]) ==> visited@.contains(v) || exists|t: int|
                            head <= t < queue@.len() && #[trigger] queue@[t]@ == v,
                decreases nv.len() - j,
            {
                let nb = &neighbors[j];
                assert(nb@ == nv[j as int]);
                if segments.contains(nb.as_str()) && !visited.contains(nb.as_str()) {
                    let neighbor_type = match types.get(nb.as_str()) {
                        Some(t) => *t,
                        None => {
                            assert(false);
                            SegmentType::Unknown
                        },
                    };
                    if are_compatible_segments(current_type, neighbor_type) {
                        let ghost qb = queue@;
                        queue.push(nb.clone());
                        proof {
                            assert(queue@[queue@.len() - 1]@ == nb@);
                            assert(queue@[0] == qb[0]);
                            assert(nv.contains(nb@)) by {
                                assert(nv[j as int] == nb@);
                            }
                            assert forall|t: int| 1 <= t < queue@.len() implies #[trigger] fed_by(adj, tv, strings_of(group@), queue@[t]@) by {
                                if t < qb.len() {
                                    assert(queue@[t] == qb[t]);
                                    assert(fed_by(adj, tv, strings_of(group@), qb[t]@));
                                } else {
                                    lemma_fed_push(adj, tv, g_before, current@, queue@[t]@);
                                }
                            }
                            assert forall|t: int|
                                0 <= t < j + 1 && segments@.contains(#[trigger] nv[t]) && compatible_spec(tv[current@], tv[nv[t]])
                                    implies visited@.contains(nv[t]) || exists|q: int| head <= q < queue@.len() && #[trigger] queue@[q]@ == nv[t] by {
                                if t < j {
                                    if !visited@.contains(nv[t]) {
                                        let q = choose|q: int| head <= q < qb.len() && #[trigger] qb[q]@ == nv[t];
                                        assert(queue@[q] == qb[q]);
                                    }
                                } else {
                                    assert(queue@[queue@.len() - 1]@ == nv[t]);
                                }
                            }
                            assert forall|u: Seq<char>, v: Seq<char>|
                                #[trigger] g_before.contains(u) && segments@.contains(v) && #[trigger] neighbor_ids(adj, u).contains(v)
                                    && compatible_spec(tv[u], tv[v]) implies visited@.contains(v) || exists|t: int|
                                    head <= t < queue@.len() && #[trigger] queue@[t]@ == v by {
                                if !visited@.contains(v) {
                                    let q = choose|q: int| head <= q < qb.len() && #[trigger] qb[q]@ == v;
                                    assert(queue@[q] == qb[q]);
                                }
                            }
                        }
                    }
                }
                j = j + 1;
            }
            proof {
                assert(nv == neighbor_ids(adj, current@));
                assert forall|u: Seq<char>, v: Seq<char>|
                    #[trigger] strings_of(group@).contains(u) && segments@.contains(v) && #[trigger] neighbor_ids(adj, u).contains(v)
                        && compatible_spec(tv[u], tv[v]) implies visited@.contains(v) || exists|t: int|
                        head <= t < queue@.len() && #[trigger] queue@[t]@ == v by {
                    if u == current@ {
                        let t = choose|t: int| 0 <= t < nv.len() && nv[t] == v;
                        assert(nv[t] == v);
                    } else {
                        let t = choose|t: int| 0 <= t < strings_of(group@).len() && strings_of(group@)[t] == u;
                        assert(g_before[t] == u);
                        assert(g_before.contains(u));
                    }
                }
                visited.lemma_view();
                segments.lemma_view();
                assert(!vis_before.contains(current@));
                assert(visited@.len() == vis_before.len() + 1);
                vstd::set_lib::lemma_len_subset(visited@, segments@);
            }
        }
        proof {
            assert(strings_of(group@).len() > 0);
            assert(visited@.contains(seed@)) by {
                visited.lemma_view();
                assert(visited.order()[before_visited.len() as int] == seed@);
            }
            assert forall|t: int| 0 <= t < i + 1 implies visited@.contains(#[trigger] segments.order()[t]) by {
                visited.lemma_view();
                if t == i {
                    assert(segments.order()[t] == seed@);
                } else {
                    let s = segments.order()[t];
                    let q = choose|q: int| 0 <= q < before_visited.len() && before_visited[q] == s;
                    assert(visited.order()[q] == s);
                }
            }
        }
        let ghost gv = strings_of(group@);
        groups.push(group);
        proof {
            assert(groups_view(groups@) =~= before_groups.push(gv));
            before_groups.lemma_flatten_push(gv);
            assert(flat(groups_view(groups@)) =~= before_visited + gv);
            assert forall|k: int, u: Seq<char>, v: Seq<char>|
                0 <= k < groups@.len() && #[trigger] groups_view(groups@)[k].contains(u) && segments@.contains(v)
                    && #[trigger] neighbor_ids(adj, u).contains(v) && compatible_spec(tv[u], tv[v]) implies flat(
                    groups_view(groups@).subrange(0, k + 1),
                ).contains(v) by {
                if k < before_groups.len() {
                    assert(groups_view(groups@)[k] == before_groups[k]);
                    assert(groups_view(groups@).subrange(0, k + 1) =~= before_groups.subrange(0, k + 1));
                } else {
                    assert(groups_view(groups@).subrange(0, k + 1) =~= groups_view(groups@));
                    assert(visited@.contains(v));
                    visited.lemma_view();
                }
            }
            let order = segments.order();
            assert forall|k: int| 0 <= k < groups@.len() implies #[trigger] starts_at_first_free(
                order,
                groups_view(groups@),
                k,
            ) by {
                let gs = groups_view(groups@);
                if k < before_groups.len() {
                    assert(starts_at_first_free(order, before_groups, k));
                    assert(gs.subrange(0, k) =~= before_groups.subrange(0, k));
                    assert(gs[k] == before_groups[k]);
                    let idx = choose|idx: int|
                        0 <= idx < order.len() && #[trigger] order[idx] == before_groups[k][0] && forall|t: int|
                            0 <= t < idx ==> flat(before_groups.subrange(0, k)).contains(#[trigger] order[t]);
                    assert(order[idx] == gs[k][0]);
                } else {
                    assert(gs.subrange(0, k) =~= before_groups);
                    assert(gs[k] == gv);
                    assert(gv[0] == seed@);
                    assert(order[i as int] == gs[k][0]);
                    assert forall|t: int| 0 <= t < i implies flat(gs.subrange(0, k)).contains(#[trigger] order[t]) by {
                        assert(before_visited.contains(order[t]));
                    }
                }
            }
        }
        i = i + 1;
    }
    proof {
        visited.lemma_view();
        segments.lemma_view();
        assert(flat(groups_view(groups@)).no_duplicates());
        assert(visited@ =~= segments@) by {
            assert forall|s: Seq<char>| segments@.contains(s) implies visited@.contains(s) by {
                let t = choose|t: int| 0 <= t < segments.order().len() && segments.order()[t] == s;
            }
        }
    }
    groups
}

/// No two strokes start from the same segment.
pub open spec fn distinct_starts(strokes: Seq<Stroke>) -> bool {
    forall|a: int, b: int|
        0 <= a < strokes.len() && 0 <= b < strokes.len() && a != b ==> #[trigger] strokes[a].start_segment@
            != #[trigger] strokes[b].start_segment@
}

/// The segments from which the given strokes start.
pub open spec fn start_set(strokes: Seq<Stroke>) -> Set<Seq<char>> {
    Set::new(|s: Seq<char>| exists|t: int| 0 <= t < strokes.len() && #[trigger] strokes[t].start_segment@ == s)
}

proof fn lemma_move_start(r: Set<Seq<char>>, p: Set<Seq<char>>, c: Seq<char>)
    requires
        r.contains(c),
    ensures
        r.remove(c).union(p.insert(c)) == r.union(p),
{
    assert(r.remove(c).union(p.insert(c)) =~= r.union(p));
}

/// The segments of the strokes at positions `order`, one stroke after another.
pub open spec fn strokes_segments(strokes: Seq<Stroke>, order: Seq<int>) -> Seq<Seq<char>> {
    order.map_values(|i: int| strings_of(strokes[i].segments@)).flatten()
}

/// `order` lists each position below `n` once.
pub open spec fn is_permutation(order: Seq<int>, n: nat) -> bool {
    &&& order.len() == n
    &&& order.no_duplicates()
    &&& forall|t: int| 0 <= t < order.len() ==> 0 <= #[trigger] order[t] < n
}

pub(crate) fn append_strings(out: &mut Vec<String>, v: &Vec<String>)
    ensures
        strings_of(final(out)@) == strings_of(old(out)@) + strings_of(v@),
{
    let mut more = clone_strings(v);
    let ghost a = strings_of(out@);
    let ghost b = strings_of(more@);
    out.append(&mut more);
    assert(strings_of(out@) =~= a + b);
}

/// Writes stroke `k`: its segments go out, its start moves from the strokes
/// left to the strokes written.
fn emit(strokes: &Vec<Stroke>, k: usize, out: &mut Vec<String>, remaining: &mut SegmentSet, processed: &mut SegmentSet)
    requires
        k < strokes@.len(),
        old(remaining).wf(),
        old(processed).wf(),
    ensures
        strings_of(final(out)@) == strings_of(old(out)@) + strings_of(strokes@[k as int].segments@),
        final(remaining).wf(),
        final(processed).wf(),
        final(remaining)@ == old(remaining)@.remove(strokes@[k as int].start_segment@),
        final(processed)@ == old(processed)@.insert(strokes@[k as int].start_segment@),
{
    append_strings(out, &strokes[k].segments);
    processed.insert(strokes[k].start_segment.clone());
    remaining.remove(strokes[k].start_segment.as_str());
}

proof fn lemma_permutation(order: Seq<int>, n: nat)
    requires
        order.no_duplicates(),
        forall|t: int| 0 <= t < order.len() ==> 0 <= #[trigger] order[t] < n,
        forall|i: int| 0 <= i < n ==> order.contains(i),
    ensures
        is_permutation(order, n),
{
    order.unique_seq_to_set();
    vstd::set_lib::lemma_int_range(0, n as int);
    assert(order.to_set() =~= vstd::set_lib::set_int_range(0, n as int));
}

proof fn lemma_segments_push(strokes: Seq<Stroke>, order: Seq<int>, k: int)
    ensures
        strokes_segments(strokes, order.push(k)) == strokes_segments(strokes, order) + strings_of(strokes[k].segments@),
{
    let f = |i: int| strings_of(strokes[i].segments@);
    assert(order.push(k).map_values(f) =~= order.map_values(f).push(f(k)));
    order.map_values(f).lemma_flatten_push(f(k));
}

/// The invariant of the writing loop, kept after writing stroke `k`.
proof fn lemma_emit_keeps(
    strokes: Seq<Stroke>,
    order: Seq<int>,
    k: int,
    processed: Set<Seq<char>>,
    remaining: Set<Seq<char>>,
)
    requires
        0 <= k < strokes.len(),
        !processed.contains(strokes[k].start_segment@),
        forall|t: int| 0 <= t < order.len() ==> 0 <= #[trigger] order[t] < strokes.len(),
        forall|t: int| 0 <= t < order.len() ==> processed.contains(#[trigger] strokes[order[t]].start_segment@),
        order.no_duplicates(),
        distinct_starts(strokes) ==> forall|i: int|
            0 <= i < strokes.len() && processed.contains(#[trigger] strokes[i].start_segment@) ==> order.contains(i),
    ensures
        order.push(k).no_duplicates(),
        forall|t: int| 0 <= t < order.push(k).len() ==> 0 <= #[trigger] order.push(k)[t] < strokes.len(),
        forall|t: int|
            0 <= t < order.push(k).len() ==> processed.insert(strokes[k].start_segment@).contains(
                #[trigger] strokes[order.push(k)[t]].start_segment@,
            ),
        distinct_starts(strokes) ==> forall|i: int|
            0 <= i < strokes.len() && processed.insert(strokes[k].start_segment@).contains(
                #[trigger] strokes[i].start_segment@,
            ) ==> order.push(k).contains(i),
{
    let o2 = order.push(k);
    assert forall|t: int| 0 <= t < o2.len() implies 0 <= #[trigger] o2[t] < strokes.len() by {
        if t < order.len() {
            assert(o2[t] == order[t]);
        }
    }
    assert forall|a: int, b: int| 0 <= a < o2.len() && 0 <= b < o2.len() && a != b implies o2[a] != o2[b] by {
        if a == order.len() && b < order.len() {
            assert(o2[b] == order[b]);
            assert(processed.contains(strokes[order[b]].start_segment@));
        } else if b == order.len() && a < order.len() {
            assert(o2[a] == order[a]);
            assert(processed.contains(strokes[order[a]].start_segment@));
        } else if a < order.len() && b < order.len() {
            assert(o2[a] == order[a]);
            assert(o2[b] == order[b]);
        }
    }
    assert forall|t: int| 0 <= t < o2.len() implies processed.insert(strokes[k].start_segment@).contains(
        #[trigger] strokes[o2[t]].start_segment@,
    ) by {
        if t < order.len() {
            assert(o2[t] == order[t]);
        }
    }
    if distinct_starts(strokes) {
        assert forall|i: int|
            0 <= i < strokes.len() && processed.insert(strokes[k].start_segment@).contains(
                #[trigger] strokes[i].start_segment@,
            ) implies o2.contains(i) by {
            if strokes[i].start_segment@ == strokes[k].start_segment@ {
                if i != k {
                    assert(strokes[i].start_segment@ != strokes[k].start_segment@);
                }
                assert(o2[order.len() as int] == k);
            } else {
                assert(order.contains(i));
                let t = choose|t: int| 0 <= t < order.len() && order[t] == i;
                assert(o2[t] == i);
            }
        }
    }
}

/// The positions below `t` of the strokes whose start is among `links` and
/// not in `w`, in order.
pub open spec fn linked_upto(strokes: Seq<Stroke>, links: Seq<Seq<char>>, w: Set<Seq<char>>, t: int) -> Seq<int>
    decreases t,
{
    if t <= 0 {
        Seq::empty()
    } else {
        let pre = linked_upto(strokes, links, w, t - 1);
        if links.contains(strokes[t - 1].start_segment@) && !w.contains(strokes[t - 1].start_segment@) {
            pre.push(t - 1)
        } else {
            pre
        }
    }
}

/// The strokes that may follow the stroke starting at `s` when the starts
/// `w` are written: those it links to that are not written, in order.
pub open spec fn follow_candidates(
    strokes: Seq<Stroke>,
    conns: Map<Seq<char>, Seq<Seq<char>>>,
    s: Seq<char>,
    w: Set<Seq<char>>,
) -> Seq<int> {
    linked_upto(strokes, links_of(conns, s), w, strokes.len() as int)
}

/// Entry `m` of a writing order, when it follows the stroke before it, is
/// the candidate that `pick` answered for the candidates (the first, for an
/// answer past the end).
pub open spec fn picked_follow<F: Fn(Vec<usize>) -> usize>(
    pick: F,
    strokes: Seq<Stroke>,
    conns: Map<Seq<char>, Seq<Seq<char>>>,
    order: Seq<int>,
    kinds: Seq<bool>,
    m: int,
) -> bool {
    let cands = follow_candidates(strokes, conns, strokes[order[m - 1]].start_segment@, written(strokes, order, m));
    !kinds[m] ==> m >= 1 && exists|c: Vec<usize>, p: usize|
        #[trigger] pick.ensures((c,), p) && positions(c@) == cands && order[m] == cands[if p < cands.len() {
            p as int
        } else {
            0
        }]
}

/// The positions of the strokes whose start is among `linked` and not yet
/// written, in order.
fn linked_candidates(strokes: &Vec<Stroke>, linked: &Vec<String>, processed: &SegmentSet) -> (r: Vec<usize>)
    ensures
        forall|q: int| 0 <= q < r@.len() ==> #[trigger] r@[q] < strokes@.len(),
        forall|q: int| 0 <= q < r@.len() ==> !processed@.contains(#[trigger] strokes@[r@[q] as int].start_segment@),
        forall|q: int|
            0 <= q < r@.len() ==> strings_of(linked@).contains(#[trigger] strokes@[r@[q] as int].start_segment@),
        r@.len() == 0 ==> forall|t: int|
            0 <= t < strokes@.len() ==> !(strings_of(linked@).contains(#[trigger] strokes@[t].start_segment@)
                && !processed@.contains(strokes@[t].start_segment@)),
        positions(r@) == linked_upto(strokes@, strings_of(linked@), processed@, strokes@.len() as int),
{
    let mut candidates: Vec<usize> = Vec::new();
    let mut t: usize = 0;
    while t < strokes.len()
        invariant
            t <= strokes@.len(),
            forall|q: int| 0 <= q < candidates@.len() ==> #[trigger] candidates@[q] < strokes@.len(),
            forall|q: int|
                0 <= q < candidates@.len() ==> !processed@.contains(
                    #[trigger] strokes@[candidates@[q] as int].start_segment@,
                ),
            forall|q: int|
                0 <= q < candidates@.len() ==> strings_of(linked@).contains(
                    #[trigger] strokes@[candidates@[q] as int].start_segment@,
                ),
            candidates@.len() == 0 ==> forall|t2: int|
                0 <= t2 < t ==> !(strings_of(linked@).contains(#[trigger] strokes@[t2].start_segment@)
                    && !processed@.contains(strokes@[t2].start_segment@)),
            positions(candidates@) == linked_upto(strokes@, strings_of(linked@), processed@, t as int),
        decreases strokes@.len() - t,
    {
        let start = strokes[t].start_segment.as_str();
        if holds(linked, start) && !processed.contains(start) {
            let ghost before = candidates@;
            candidates.push(t);
            assert(positions(candidates@) =~= positions(before).push(t as int));
        }
        t = t + 1;
    }
    candidates
}

/// The starts of the strokes at the first `m` positions of `order`.
pub open spec fn written(strokes: Seq<Stroke>, order: Seq<int>, m: int) -> Set<Seq<char>> {
    Set::new(|s: Seq<char>| exists|j: int| 0 <= j < m && #[trigger] strokes[order[j]].start_segment@ == s)
}

/// Stroke `t` is the first, in the given order, whose start is not in `w`.
pub open spec fn first_unwritten(strokes: Seq<Stroke>, w: Set<Seq<char>>, t: int) -> bool {
    &&& 0 <= t < strokes.len()
    &&& !w.contains(strokes[t].start_segment@)
    &&& forall|t2: int| 0 <= t2 < t ==> w.contains(#[trigger] strokes[t2].start_segment@)
}

/// The starts that the stroke starting at `s` links to.
pub open spec fn links_of(conns: Map<Seq<char>, Seq<Seq<char>>>, s: Seq<char>) -> Seq<Seq<char>> {
    if conns.dom().contains(s) {
        conns[s]
    } else {
        Seq::empty()
    }
}

/// Stroke `t` may follow the stroke starting at `s`: `s` links to its
/// start, and its start is not in `w`.
pub open spec fn linked_candidate(
    strokes: Seq<Stroke>,
    conns: Map<Seq<char>, Seq<Seq<char>>>,
    s: Seq<char>,
    w: Set<Seq<char>>,
    t: int,
) -> bool {
    &&& 0 <= t < strokes.len()
    &&& links_of(conns, s).contains(strokes[t].start_segment@)
    &&& !w.contains(strokes[t].start_segment@)
}

pub open spec fn has_candidate(strokes: Seq<Stroke>, conns: Map<Seq<char>, Seq<Seq<char>>>, s: Seq<char>, w: Set<Seq<char>>) -> bool {
    exists|t: int| #[trigger] linked_candidate(strokes, conns, s, w, t)
}

/// Entry `m` of a writing order: a stroke taken in turn (`kinds[m]`), the
/// first not yet written, which comes after a stroke taken in turn only when
/// that one had no candidate to follow it; or a stroke that follows the
/// stroke taken in turn just before it, as one of its candidates.
pub open spec fn emission_step(
    strokes: Seq<Stroke>,
    conns: Map<Seq<char>, Seq<Seq<char>>>,
    order: Seq<int>,
    kinds: Seq<bool>,
    m: int,
) -> bool {
    let w = written(strokes, order, m);
    if kinds[m] {
        &&& first_unwritten(strokes, w, order[m])
        &&& (m == 0 || !kinds[m - 1] || !has_candidate(strokes, conns, strokes[order[m - 1]].start_segment@, w))
    } else {
        &&& m >= 1
        &&& kinds[m - 1]
        &&& linked_candidate(strokes, conns, strokes[order[m - 1]].start_segment@, w, order[m])
    }
}

/// `order` is a writing order of `strokes`, with `kinds` telling the
/// strokes taken in turn from those that follow one: every entry keeps the
/// rule, a last stroke taken in turn had no candidate, and every start is
/// written.
pub open spec fn emission_order(
    strokes: Seq<Stroke>,
    conns: Map<Seq<char>, Seq<Seq<char>>>,
    order: Seq<int>,
    kinds: Seq<bool>,
) -> bool {
    &&& order.len() == kinds.len()
    &&& forall|m: int| 0 <= m < order.len() ==> #[trigger] emission_step(strokes, conns, order, kinds, m)
    &&& (order.len() > 0 && kinds.last()) ==> !has_candidate(
        strokes,
        conns,
        strokes[order.last()].start_segment@,
        written(strokes, order, order.len() as int),
    )
    &&& forall|t: int| 0 <= t < strokes.len() ==> written(strokes, order, order.len() as int).contains(
        #[trigger] strokes[t].start_segment@,
    )
}

proof fn lemma_written_push(strokes: Seq<Stroke>, order: Seq<int>, x: int, m: int)
    requires
        0 <= m <= order.len(),
    ensures
        written(strokes, order.push(x), m) == written(strokes, order, m),
        m == order.len() ==> written(strokes, order.push(x), m + 1) == written(strokes, order, m).insert(
            strokes[x].start_segment@,
        ),
{
    let o2 = order.push(x);
    assert forall|s: Seq<char>| written(strokes, o2, m).contains(s) <==> written(strokes, order, m).contains(s) by {
        if written(strokes, o2, m).contains(s) {
            let j = choose|j: int| 0 <= j < m && #[trigger] strokes[o2[j]].start_segment@ == s;
            assert(o2[j] == order[j]);
        }
        if written(strokes, order, m).contains(s) {
            let j = choose|j: int| 0 <= j < m && #[trigger] strokes[order[j]].start_segment@ == s;
            assert(o2[j] == order[j]);
        }
    }
    assert(written(strokes, o2, m) =~= written(strokes, order, m));
    if m == order.len() {
        assert forall|s: Seq<char>| written(strokes, o2, m + 1).contains(s) <==> written(strokes, order, m).insert(
            strokes[x].start_segment@,
        ).contains(s) by {
            if written(strokes, o2, m + 1).contains(s) {
                let j = choose|j: int| 0 <= j < m + 1 && #[trigger] strokes[o2[j]].start_segment@ == s;
                if j < m {
                    assert(o2[j] == order[j]);
                    assert(written(strokes, order, m).contains(s));
                }
            }
            if s == strokes[x].start_segment@ {
                assert(strokes[o2[m]].start_segment@ == s);
            } else if written(strokes, order, m).contains(s) {
                let j = choose|j: int| 0 <= j < m && #[trigger] strokes[order[j]].start_segment@ == s;
                assert(o2[j] == order[j]);
            }
        }
        assert(written(strokes, o2, m + 1) =~= written(strokes, order, m).insert(strokes[x].start_segment@));
    }
}

proof fn lemma_emission_push(
    strokes: Seq<Stroke>,
    conns: Map<Seq<char>, Seq<Seq<char>>>,
    order: Seq<int>,
    kinds: Seq<bool>,
    x: int,
    b: bool,
)
    requires
        order.len() == kinds.len(),
        forall|m: int| 0 <= m < order.len() ==> #[trigger] emission_step(strokes, conns, order, kinds, m),
        emission_step(strokes, conns, order.push(x), kinds.push(b), order.len() as int),
    ensures
        forall|m: int| 0 <= m < order.len() + 1 ==> #[trigger] emission_step(strokes, conns, order.push(x), kinds.push(b), m),
{
    assert forall|m: int| 0 <= m < order.len() + 1 implies #[trigger] emission_step(
        strokes,
        conns,
        order.push(x),
        kinds.push(b),
        m,
    ) by {
        if m < order.len() {
            lemma_written_push(strokes, order, x, m);
            assert(emission_step(strokes, conns, order, kinds, m));
            assert(order.push(x)[m] == order[m] && kinds.push(b)[m] == kinds[m]);
            if m >= 1 {
                assert(order.push(x)[m - 1] == order[m - 1] && kinds.push(b)[m - 1] == kinds[m - 1]);
            }
        }
    }
}

proof fn lemma_picked_push<F: Fn(Vec<usize>) -> usize>(
    pick: F,
    strokes: Seq<Stroke>,
    conns: Map<Seq<char>, Seq<Seq<char>>>,
    order: Seq<int>,
    kinds: Seq<bool>,
    x: int,
    b: bool,
)
    requires
        order.len() == kinds.len(),
        forall|m: int| 0 <= m < order.len() ==> #[trigger] picked_follow(pick, strokes, conns, order, kinds, m),
        b || picked_follow(pick, strokes, conns, order.push(x), kinds.push(b), order.len() as int),
    ensures
        forall|m: int|
            0 <= m < order.len() + 1 ==> #[trigger] picked_follow(pick, strokes, conns, order.push(x), kinds.push(b), m),
{
    assert forall|m: int| 0 <= m < order.len() + 1 implies #[trigger] picked_follow(
        pick,
        strokes,
        conns,
        order.push(x),
        kinds.push(b),
        m,
    ) by {
        if m < order.len() {
            lemma_written_push(strokes, order, x, m);
            assert(picked_follow(pick, strokes, conns, order, kinds, m));
            assert(order.push(x)[m] == order[m] && kinds.push(b)[m] == kinds[m]);
            if m >= 1 {
                assert(order.push(x)[m - 1] == order[m - 1]);
            }
        } else {
            assert(kinds.push(b)[m] == b);
        }
    }
}

/// The writing order of the new segments: the strokes in the order given,
/// each followed, when it links to strokes not yet written, by the one of
/// those that `pick` prefers.  `pick` receives the positions of the
/// candidate strokes, in order, and answers a position in that list (an
/// answer past its end means the first).  When no two strokes share a
/// start, every stroke is written exactly once.
pub fn order_strokes_with_connections<F: Fn(Vec<usize>) -> usize>(
    strokes: &Vec<Stroke>,
    connections: &NameMap<Vec<String>>,
    pick: F,
) -> (r: Vec<String>)
    requires
        connections.wf(),
        forall|c: Vec<usize>| pick.requires((c,)),
    ensures
        exists|order: Seq<int>, kinds: Seq<bool>|
            #[trigger] emission_order(strokes@, links_view(*connections), order, kinds) && strings_of(r@)
                == strokes_segments(strokes@, order) && (distinct_starts(strokes@) ==> is_permutation(
                order,
                strokes@.len(),
            )) && forall|m: int|
                0 <= m < order.len() ==> #[trigger] picked_follow(pick, strokes@, links_view(*connections), order, kinds, m),
{
    let ghost n = strokes@.len();
    let ghost lv = links_view(*connections);
    let ghost mut kinds: Seq<bool> = Seq::empty();
    let mut remaining = SegmentSet::new();
    let mut k: usize = 0;
    while k < strokes.len()
        invariant
            remaining.wf(),
            k <= strokes@.len(),
            forall|s: Seq<char>| #[trigger] remaining@.contains(s) <==> exists|t: int|
                0 <= t < k && #[trigger] strokes@[t].start_segment@ == s,
        decreases strokes@.len() - k,
    {
        let ghost before = remaining@;
        remaining.insert(strokes[k].start_segment.clone());
        proof {
            assert forall|s: Seq<char>| #[trigger] remaining@.contains(s) <==> exists|t: int|
                0 <= t < k + 1 && #[trigger] strokes@[t].start_segment@ == s by {
                if remaining@.contains(s) && s != strokes@[k as int].start_segment@ {
                    assert(before.contains(s));
                }
                if s == strokes@[k as int].start_segment@ {
                    assert(strokes@[k as int].start_segment@ == s);
                }
            }
        }
        k = k + 1;
    }
    let mut processed = SegmentSet::new();
    let mut out: Vec<String> = Vec::new();
    let ghost mut order: Seq<int> = Seq::empty();
    proof {
        assert(order.map_values(|i: int| strings_of(strokes@[i].segments@)) =~= Seq::<Seq<Seq<char>>>::empty());
        assert(strokes_segments(strokes@, order) =~= Seq::<Seq<char>>::empty());
        assert(strings_of(out@) =~= Seq::<Seq<char>>::empty());
        assert(remaining@.union(processed@) =~= start_set(strokes@));
        assert(processed@ =~= written(strokes@, order, 0));
    }
    while !remaining.is_empty()
        invariant
            connections.wf(),
            lv == links_view(*connections),
            kinds.len() == order.len(),
            processed@ == written(strokes@, order, order.len() as int),
            forall|m: int| 0 <= m < order.len() ==> #[trigger] emission_step(strokes@, lv, order, kinds, m),
            forall|m: int| 0 <= m < order.len() ==> #[trigger] picked_follow(pick, strokes@, lv, order, kinds, m),
            (order.len() > 0 && kinds.last()) ==> !has_candidate(
                strokes@,
                lv,
                strokes@[order.last()].start_segment@,
                written(strokes@, order, order.len() as int),
            ),
            forall|c: Vec<usize>| pick.requires((c,)),
            n == strokes@.len(),
            remaining.wf(),
            processed.wf(),
            forall|s: Seq<char>| #[trigger] remaining@.contains(s) ==> !processed@.contains(s),
            remaining@.union(processed@) == start_set(strokes@),
            order.no_duplicates(),
            forall|t: int| 0 <= t < order.len() ==> 0 <= #[trigger] order[t] < n,
            forall|t: int| 0 <= t < order.len() ==> processed@.contains(#[trigger] strokes@[order[t]].start_segment@),
            distinct_starts(strokes@) ==> forall|i: int|
                0 <= i < n && processed@.contains(#[trigger] strokes@[i].start_segment@) ==> order.contains(i),
            strings_of(out@) == strokes_segments(strokes@, order),
        decreases remaining@.len(),
    {
        proof {
            remaining.lemma_view();
            processed.lemma_view();
        }
        let mut next: usize = 0;
        while next < strokes.len() && !remaining.contains(strokes[next].start_segment.as_str())
            invariant
                next <= strokes@.len(),
                forall|t: int| 0 <= t < next ==> !remaining@.contains(#[trigger] strokes@[t].start_segment@),
            decreases strokes@.len() - next,
        {
            next = next + 1;
        }
        if next >= strokes.len() {
            proof {
                let s = remaining.order()[0];
                assert(remaining@.contains(s));
                assert(remaining@.union(processed@).contains(s));
                assert(start_set(strokes@).contains(s));
                let t = choose|t: int| 0 <= t < n && #[trigger] strokes@[t].start_segment@ == s;
                assert(!remaining@.contains(strokes@[t].start_segment@));
                assert(false);
            }
        }
        let ghost p0 = processed@;
        let ghost r0 = remaining@;
        proof {
            lemma_emit_keeps(strokes@, order, next as int, processed@, remaining@);
            lemma_segments_push(strokes@, order, next as int);
            assert(first_unwritten(strokes@, p0, next as int)) by {
                assert(remaining@.contains(strokes@[next as int].start_segment@));
                assert forall|t2: int| 0 <= t2 < next implies p0.contains(#[trigger] strokes@[t2].start_segment@) by {
                    assert(start_set(strokes@).contains(strokes@[t2].start_segment@));
                    assert(remaining@.union(processed@).contains(strokes@[t2].start_segment@));
                }
            }
            lemma_written_push(strokes@, order, next as int, order.len() as int);
            assert(kinds.push(true)[order.len() as int]);
            assert(order.push(next as int)[order.len() as int] == next as int);
            if order.len() > 0 {
                assert(order.push(next as int)[order.len() - 1] == order.last());
                assert(kinds.push(true)[order.len() - 1] == kinds.last());
            }
            assert(emission_step(strokes@, lv, order.push(next as int), kinds.push(true), order.len() as int));
            lemma_emission_push(strokes@, lv, order, kinds, next as int, true);
            lemma_picked_push(pick, strokes@, lv, order, kinds, next as int, true);
        }
        emit(strokes, next, &mut out, &mut remaining, &mut processed);
        proof {
            order = order.push(next as int);
            kinds = kinds.push(true);
            remaining.lemma_view();
            assert(remaining@.len() < r0.len());
            lemma_move_start(r0, p0, strokes@[next as int].start_segment@);
        }
        let ghost main_start = strokes@[next as int].start_segment@;
        match connections.get(strokes[next].start_segment.as_str()) {
            None => {
                proof {
                    assert(links_of(lv, main_start) =~= Seq::<Seq<char>>::empty());
                    assert(!has_candidate(strokes@, lv, main_start, processed@));
                }
            },
            Some(linked) => {
                proof {
                    assert(links_of(lv, main_start) == strings_of(linked@));
                }
                let candidates = linked_candidates(strokes, linked, &processed);
                let offered = linked_candidates(strokes, linked, &processed);
                if candidates.len() == 0 {
                    proof {
                        assert forall|t: int| !#[trigger] linked_candidate(strokes@, lv, main_start, processed@, t) by {
                            if 0 <= t < n {
                                assert(!(strings_of(linked@).contains(strokes@[t].start_segment@) && !processed@.contains(
                                    strokes@[t].start_segment@,
                                )));
                            }
                        }
                    }
                }
                if candidates.len() > 0 {
                    let ghost g_offered = offered;
                    let p = pick(offered);
                    let chosen = if p < candidates.len() {
                        candidates[p]
                    } else {
                        candidates[0]
                    };
                    let ghost p1 = processed@;
                    let ghost r1 = remaining@;
                    proof {
                        let c = strokes@[chosen as int].start_segment@;
                        assert(!processed@.contains(c));
                        assert(start_set(strokes@).contains(c));
                        assert(remaining@.union(processed@).contains(c));
                        assert(remaining@.contains(c));
                        lemma_emit_keeps(strokes@, order, chosen as int, processed@, remaining@);
                        lemma_segments_push(strokes@, order, chosen as int);
                        assert(strings_of(linked@).contains(c));
                        assert(linked_candidate(strokes@, lv, main_start, processed@, chosen as int));
                        lemma_written_push(strokes@, order, chosen as int, order.len() as int);
                        assert(order.push(chosen as int)[order.len() - 1] == order.last());
                        assert(order.last() == next as int);
                        assert(kinds.push(false)[order.len() - 1]);
                        assert(!kinds.push(false)[order.len() as int]);
                        assert(order.push(chosen as int)[order.len() as int] == chosen as int);
                        assert(emission_step(strokes@, lv, order.push(chosen as int), kinds.push(false), order.len() as int));
                        lemma_emission_push(strokes@, lv, order, kinds, chosen as int, false);
                        let cands = follow_candidates(strokes@, lv, main_start, processed@);
                        assert(positions(candidates@) == cands);
                        assert(positions(candidates@)[if p < candidates.len() { p as int } else { 0 }] == chosen as int);
                        assert(pick.ensures((g_offered,), p));
                        assert(written(strokes@, order.push(chosen as int), order.len() as int) == processed@);
                        assert(picked_follow(pick, strokes@, lv, order.push(chosen as int), kinds.push(false), order.len() as int));
                        lemma_picked_push(pick, strokes@, lv, order, kinds, chosen as int, false);
                    }
                    emit(strokes, chosen, &mut out, &mut remaining, &mut processed);
                    proof {
                        order = order.push(chosen as int);
                        kinds = kinds.push(false);
                        let c = strokes@[chosen as int].start_segment@;
                        assert(remaining@ == r1.remove(c));
                        assert(processed@ == p1.insert(c));
                        assert(r1.contains(c));
                        lemma_move_start(r1, p1, c);
                    }
                }
            },
        }
    }
    proof {
        remaining.lemma_view();
        processed.lemma_view();
        if distinct_starts(strokes@) {
            assert forall|i: int| 0 <= i < n implies order.contains(i) by {
                assert(processed@.contains(strokes@[i].start_segment@) || remaining@.contains(
                    strokes@[i].start_segment@,
                )) by {
                    assert(start_set(strokes@).contains(strokes@[i].start_segment@));
                    assert(remaining@.union(processed@).contains(strokes@[i].start_segment@));
                }
            }
            lemma_permutation(order, n);
        }
        assert forall|t: int| 0 <= t < n implies written(strokes@, order, order.len() as int).contains(
            #[trigger] strokes@[t].start_segment@,
        ) by {
            assert(start_set(strokes@).contains(strokes@[t].start_segment@));
            assert(remaining@.union(processed@).contains(strokes@[t].start_segment@));
        }
        assert(emission_order(strokes@, lv, order, kinds));
    }
    out
}

fn find_start(strokes: &Vec<Stroke>, start: &str) -> (r: Option<usize>)
    ensures
        match r {
            Some(k) => k < strokes@.len() && strokes@[k as int].start_segment@ == start@ && forall|t: int|
                0 <= t < k ==> #[trigger] strokes@[t].start_segment@ != start@,
            None => forall|t: int| 0 <= t < strokes@.len() ==> #[trigger] strokes@[t].start_segment@ != start@,
        },
{
    let mut t: usize = 0;
    while t < strokes.len()
        invariant
            t <= strokes@.len(),
            forall|q: int| 0 <= q < t ==> #[trigger] strokes@[q].start_segment@ != start@,
        decreases strokes@.len() - t,
    {
        if crate::text::str_eq(strokes[t].start_segment.as_str(), start) {
            return Some(t);
        }
        t = t + 1;
    }
    None
}

/// Positions as integers.
pub open spec fn positions(v: Seq<usize>) -> Seq<int> {
    v.map_values(|k: usize| k as int)
}

/// Stroke `t` is the first with its start.
pub open spec fn first_with_start(strokes: Seq<Stroke>, t: int) -> bool {
    forall|t2: int| 0 <= t2 < t ==> #[trigger] strokes[t2].start_segment@ != strokes[t].start_segment@
}

/// Entry `m2` belongs to the chain that entry `m` belongs to: no chain
/// starts after `m2` up to `m`.
pub open spec fn same_chain(heads: Seq<bool>, m2: int, m: int) -> bool {
    &&& 0 <= m2 < m
    &&& forall|j: int| m2 < j <= m ==> !#[trigger] heads[j]
}

/// Entry `m2` belongs to the last chain before position `m`.
pub open spec fn in_last_chain(heads: Seq<bool>, m2: int, m: int) -> bool {
    &&& 0 <= m2 < m
    &&& forall|j: int| m2 < j < m ==> !#[trigger] heads[j]
}

/// Every start that a member of the last chain before position `m` links
/// to is written by then.
pub open spec fn chain_closed(
    strokes: Seq<Stroke>,
    conns: Map<Seq<char>, Seq<Seq<char>>>,
    order: Seq<int>,
    heads: Seq<bool>,
    m: int,
) -> bool {
    forall|m2: int, s: Seq<char>|
        #[trigger] in_last_chain(heads, m2, m) && #[trigger] links_of(conns, strokes[order[m2]].start_segment@).contains(s)
            && start_set(strokes).contains(s) ==> written(strokes, order, m).contains(s)
}

/// Entry `m` of a chained order: a chain starts (`heads[m]`) with the first
/// stroke not yet written, once the chain before is closed; or the first
/// stroke with a start not yet written that an earlier member of the same
/// chain links to.
pub open spec fn chain_entry(
    strokes: Seq<Stroke>,
    conns: Map<Seq<char>, Seq<Seq<char>>>,
    order: Seq<int>,
    heads: Seq<bool>,
    m: int,
) -> bool {
    if heads[m] {
        &&& first_unwritten(strokes, written(strokes, order, m), order[m])
        &&& (m > 0 ==> chain_closed(strokes, conns, order, heads, m))
    } else {
        &&& 0 <= order[m] < strokes.len()
        &&& !written(strokes, order, m).contains(strokes[order[m]].start_segment@)
        &&& first_with_start(strokes, order[m])
        &&& exists|m2: int|
            same_chain(heads, m2, m) && #[trigger] links_of(conns, strokes[order[m2]].start_segment@).contains(
                strokes[order[m]].start_segment@,
            )
    }
}

/// `order` chains the strokes, `heads` marking where each chain starts:
/// every entry keeps the rule, the last chain is closed, and every start
/// is written.
pub open spec fn chain_order(
    strokes: Seq<Stroke>,
    conns: Map<Seq<char>, Seq<Seq<char>>>,
    order: Seq<int>,
    heads: Seq<bool>,
) -> bool {
    &&& order.len() == heads.len()
    &&& forall|m: int| 0 <= m < order.len() ==> #[trigger] chain_entry(strokes, conns, order, heads, m)
    &&& chain_closed(strokes, conns, order, heads, order.len() as int)
    &&& forall|t: int| 0 <= t < strokes.len() ==> written(strokes, order, order.len() as int).contains(
        #[trigger] strokes[t].start_segment@,
    )
}

proof fn lemma_chain_closed_push(
    strokes: Seq<Stroke>,
    conns: Map<Seq<char>, Seq<Seq<char>>>,
    order: Seq<int>,
    heads: Seq<bool>,
    x: int,
    b: bool,
    m: int,
)
    requires
        order.len() == heads.len(),
        0 <= m <= order.len(),
        chain_closed(strokes, conns, order, heads, m),
    ensures
        chain_closed(strokes, conns, order.push(x), heads.push(b), m),
{
    lemma_written_push(strokes, order, x, m);
    let o2 = order.push(x);
    let h2 = heads.push(b);
    assert forall|m2: int, s: Seq<char>|
        #[trigger] in_last_chain(h2, m2, m) && #[trigger] links_of(conns, strokes[o2[m2]].start_segment@).contains(s)
            && start_set(strokes).contains(s) implies written(strokes, o2, m).contains(s) by {
        assert(o2[m2] == order[m2]);
        assert forall|j: int| m2 < j < m implies !#[trigger] heads[j] by {
            assert(h2[j] == heads[j]);
            assert(!h2[j]);
        }
        assert(in_last_chain(heads, m2, m));
    }
}

proof fn lemma_chain_entry_push(
    strokes: Seq<Stroke>,
    conns: Map<Seq<char>, Seq<Seq<char>>>,
    order: Seq<int>,
    heads: Seq<bool>,
    x: int,
    b: bool,
)
    requires
        order.len() == heads.len(),
        forall|m: int| 0 <= m < order.len() ==> #[trigger] chain_entry(strokes, conns, order, heads, m),
    ensures
        forall|m: int| 0 <= m < order.len() ==> #[trigger] chain_entry(strokes, conns, order.push(x), heads.push(b), m),
{
    let o2 = order.push(x);
    let h2 = heads.push(b);
    assert forall|m: int| 0 <= m < order.len() implies #[trigger] chain_entry(strokes, conns, o2, h2, m) by {
        assert(chain_entry(strokes, conns, order, heads, m));
        lemma_written_push(strokes, order, x, m);
        assert(o2[m] == order[m] && h2[m] == heads[m]);
        if heads[m] {
            if m > 0 {
                lemma_chain_closed_push(strokes, conns, order, heads, x, b, m);
            }
        } else {
            let m2 = choose|m2: int|
                same_chain(heads, m2, m) && #[trigger] links_of(conns, strokes[order[m2]].start_segment@).contains(
                    strokes[order[m]].start_segment@,
                );
            assert(o2[m2] == order[m2]);
            assert forall|j: int| m2 < j <= m implies !#[trigger] h2[j] by {
                assert(h2[j] == heads[j]);
            }
            assert(same_chain(h2, m2, m));
        }
    }
}

/// The order in which strokes are written, from the strokes sorted by
/// where they start: the first stroke not yet taken, then, breadth-first,
/// every stroke linked to it, or to a stroke so taken, that is not taken
/// yet; then again.  When no two strokes share a start, every stroke comes
/// exactly once, and the first stroke comes first.
pub fn chain_strokes(strokes: &Vec<Stroke>, connections: &NameMap<Vec<String>>) -> (r: Vec<usize>)
    requires
        connections.wf(),
    ensures
        forall|t: int| 0 <= t < r@.len() ==> #[trigger] r@[t] < strokes@.len(),
        strokes@.len() > 0 ==> r@.len() > 0 && r@[0] == 0,
        distinct_starts(strokes@) ==> is_permutation(r@.map_values(|k: usize| k as int), strokes@.len()),
        exists|heads: Seq<bool>|
            #[trigger] chain_order(strokes@, links_view(*connections), positions(r@), heads),
{
    let ghost n = strokes@.len();
    let ghost lv = links_view(*connections);
    let ghost mut heads: Seq<bool> = Seq::empty();
    let mut remaining = SegmentSet::new();
    let mut k: usize = 0;
    while k < strokes.len()
        invariant
            remaining.wf(),
            k <= strokes@.len(),
            forall|s: Seq<char>| #[trigger] remaining@.contains(s) <==> exists|t: int|
                0 <= t < k && #[trigger] strokes@[t].start_segment@ == s,
        decreases strokes@.len() - k,
    {
        let ghost before = remaining@;
        remaining.insert(strokes[k].start_segment.clone());
        proof {
            assert forall|s: Seq<char>| #[trigger] remaining@.contains(s) <==> exists|t: int|
                0 <= t < k + 1 && #[trigger] strokes@[t].start_segment@ == s by {
                if remaining@.contains(s) && s != strokes@[k as int].start_segment@ {
                    assert(before.contains(s));
                }
                if s == strokes@[k as int].start_segment@ {
                    assert(strokes@[k as int].start_segment@ == s);
                }
            }
        }
        k = k + 1;
    }
    let mut processed = SegmentSet::new();
    let mut result: Vec<usize> = Vec::new();
    let ghost mut order: Seq<int> = Seq::empty();
    proof {
        assert(result@.map_values(|k: usize| k as int) =~= order);
        assert(remaining@.union(processed@) =~= start_set(strokes@));
        assert(processed@ =~= written(strokes@, order, 0));
    }
    while !remaining.is_empty()
        invariant
            connections.wf(),
            n == strokes@.len(),
            remaining.wf(),
            processed.wf(),
            forall|s: Seq<char>| #[trigger] remaining@.contains(s) ==> !processed@.contains(s),
            remaining@.union(processed@) == start_set(strokes@),
            order == result@.map_values(|k: usize| k as int),
            order.no_duplicates(),
            forall|t: int| 0 <= t < order.len() ==> 0 <= #[trigger] order[t] < n,
            forall|t: int| 0 <= t < order.len() ==> processed@.contains(#[trigger] strokes@[order[t]].start_segment@),
            distinct_starts(strokes@) ==> forall|i: int|
                0 <= i < n && processed@.contains(#[trigger] strokes@[i].start_segment@) ==> order.contains(i),
            n > 0 && order.len() > 0 ==> order[0] == 0,
            n > 0 && order.len() == 0 ==> remaining@.contains(strokes@[0].start_segment@),
            lv == links_view(*connections),
            heads.len() == order.len(),
            processed@ == written(strokes@, order, order.len() as int),
            forall|m: int| 0 <= m < order.len() ==> #[trigger] chain_entry(strokes@, lv, order, heads, m),
            chain_closed(strokes@, lv, order, heads, order.len() as int),
        decreases remaining@.len(),
    {
        proof {
            remaining.lemma_view();
            processed.lemma_view();
        }
        let mut next: usize = 0;
        while next < strokes.len() && !remaining.contains(strokes[next].start_segment.as_str())
            invariant
                next <= strokes@.len(),
                forall|t: int| 0 <= t < next ==> !remaining@.contains(#[trigger] strokes@[t].start_segment@),
            decreases strokes@.len() - next,
        {
            next = next + 1;
        }
        if next >= strokes.len() {
            proof {
                let s = remaining.order()[0];
                assert(remaining@.contains(s));
                assert(remaining@.union(processed@).contains(s));
                assert(start_set(strokes@).contains(s));
                let t = choose|t: int| 0 <= t < n && #[trigger] strokes@[t].start_segment@ == s;
                assert(!remaining@.contains(strokes@[t].start_segment@));
                assert(false);
            }
        }
        let ghost r0 = remaining@;
        let ghost p0 = processed@;
        proof {
            lemma_emit_keeps(strokes@, order, next as int, processed@, remaining@);
            if order.len() == 0 && n > 0 {
                assert(next == 0);
            }
            assert(first_unwritten(strokes@, p0, next as int)) by {
                assert(remaining@.contains(strokes@[next as int].start_segment@));
                assert forall|t2: int| 0 <= t2 < next implies p0.contains(#[trigger] strokes@[t2].start_segment@) by {
                    assert(start_set(strokes@).contains(strokes@[t2].start_segment@));
                    assert(remaining@.union(processed@).contains(strokes@[t2].start_segment@));
                }
            }
            let m = order.len() as int;
            lemma_written_push(strokes@, order, next as int, m);
            lemma_chain_entry_push(strokes@, lv, order, heads, next as int, true);
            lemma_chain_closed_push(strokes@, lv, order, heads, next as int, true, m);
            assert(order.push(next as int)[m] == next as int);
            assert(heads.push(true)[m]);
            assert(chain_entry(strokes@, lv, order.push(next as int), heads.push(true), m));
        }
        result.push(next);
        processed.insert(strokes[next].start_segment.clone());
        remaining.remove(strokes[next].start_segment.as_str());
        let ghost h = order.len() as int;
        proof {
            lemma_written_push(strokes@, order, next as int, order.len() as int);
            heads = heads.push(true);
            order = order.push(next as int);
            assert(result@.map_values(|k: usize| k as int) =~= order);
            let c = strokes@[next as int].start_segment@;
            lemma_move_start(r0, p0, c);
            remaining.lemma_view();
            assert(remaining@.len() < r0.len());
        }
        let mut chain: Vec<String> = Vec::new();
        chain.push(strokes[next].start_segment.clone());
        proof {
            assert(chain@[0]@ == strokes@[order[h]].start_segment@);
        }
        let mut i: usize = 0;
        while i < chain.len()
            invariant
                connections.wf(),
                n == strokes@.len(),
                remaining.wf(),
                processed.wf(),
                forall|s: Seq<char>| #[trigger] remaining@.contains(s) ==> !processed@.contains(s),
                remaining@.union(processed@) == start_set(strokes@),
                order == result@.map_values(|k: usize| k as int),
                order.no_duplicates(),
                forall|t: int| 0 <= t < order.len() ==> 0 <= #[trigger] order[t] < n,
                forall|t: int| 0 <= t < order.len() ==> processed@.contains(#[trigger] strokes@[order[t]].start_segment@),
                distinct_starts(strokes@) ==> forall|i: int|
                    0 <= i < n && processed@.contains(#[trigger] strokes@[i].start_segment@) ==> order.contains(i),
                n > 0 ==> order.len() > 0 && order[0] == 0,
                remaining@.len() < r0.len(),
                i <= chain@.len(),
                lv == links_view(*connections),
                heads.len() == order.len(),
                processed@ == written(strokes@, order, order.len() as int),
                forall|m: int| 0 <= m < order.len() ==> #[trigger] chain_entry(strokes@, lv, order, heads, m),
                0 <= h < order.len(),
                heads[h],
                forall|j: int| h < j < order.len() ==> !#[trigger] heads[j],
                chain@.len() == order.len() - h,
                forall|c: int| 0 <= c < chain@.len() ==> #[trigger] chain@[c]@ == strokes@[order[h + c]].start_segment@,
                forall|c: int, s: Seq<char>|
                    0 <= c < i && #[trigger] links_of(lv, chain@[c]@).contains(s) && start_set(strokes@).contains(s)
                        ==> processed@.contains(s),
            decreases remaining@.len(), chain@.len() - i,
        {
            proof {
                remaining.lemma_view();
                processed.lemma_view();
            }
            let ghost rem_i = remaining@.len();
            let ghost chain_i = chain@.len();
            match connections.get(chain[i].as_str()) {
                None => {
                    proof {
                        assert(links_of(lv, chain@[i as int]@) =~= Seq::<Seq<char>>::empty());
                    }
                },
                Some(ids) => {
                    proof {
                        assert(links_of(lv, chain@[i as int]@) == strings_of(ids@));
                    }
                    let mut j: usize = 0;
                    while j < ids.len()
                        invariant
                            n == strokes@.len(),
                            remaining.wf(),
                            processed.wf(),
                            forall|s: Seq<char>| #[trigger] remaining@.contains(s) ==> !processed@.contains(s),
                            remaining@.union(processed@) == start_set(strokes@),
                            order == result@.map_values(|k: usize| k as int),
                            order.no_duplicates(),
                            forall|t: int| 0 <= t < order.len() ==> 0 <= #[trigger] order[t] < n,
                            forall|t: int|
                                0 <= t < order.len() ==> processed@.contains(#[trigger] strokes@[order[t]].start_segment@),
                            distinct_starts(strokes@) ==> forall|i: int|
                                0 <= i < n && processed@.contains(#[trigger] strokes@[i].start_segment@) ==> order.contains(i),
                            n > 0 ==> order.len() > 0 && order[0] == 0,
                            remaining@.len() < r0.len(),
                            i < chain@.len(),
                            j <= ids@.len(),
                            remaining@.len() < rem_i || (remaining@.len() == rem_i && chain@.len() == chain_i),
                            lv == links_view(*connections),
                            heads.len() == order.len(),
                            processed@ == written(strokes@, order, order.len() as int),
                            forall|m: int| 0 <= m < order.len() ==> #[trigger] chain_entry(strokes@, lv, order, heads, m),
                            0 <= h < order.len(),
                            heads[h],
                            forall|j2: int| h < j2 < order.len() ==> !#[trigger] heads[j2],
                            chain@.len() == order.len() - h,
                            forall|c: int| 0 <= c < chain@.len() ==> #[trigger] chain@[c]@ == strokes@[order[h + c]].start_segment@,
                            forall|c: int, s: Seq<char>|
                                0 <= c < i && #[trigger] links_of(lv, chain@[c]@).contains(s) && start_set(strokes@).contains(s)
                                    ==> processed@.contains(s),
                            links_of(lv, chain@[i as int]@) == strings_of(ids@),
                            forall|j2: int|
                                0 <= j2 < j && start_set(strokes@).contains(#[trigger] strings_of(ids@)[j2]) ==> processed@.contains(
                                    strings_of(ids@)[j2],
                                ),
                        decreases ids@.len() - j,
                    {
                        let cid = ids[j].as_str();
                        assert(strings_of(ids@)[j as int] == cid@);
                        let ghost p_before = processed@;
                        if remaining.contains(cid) && !holds(&chain, cid) {
                            match find_start(strokes, cid) {
                                None => {
                                    proof {
                                        assert(remaining@.union(processed@).contains(cid@));
                                        assert(start_set(strokes@).contains(cid@));
                                        let t = choose|t: int| 0 <= t < n && #[trigger] strokes@[t].start_segment@ == cid@;
                                        assert(strokes@[t].start_segment@ != cid@);
                                    }
                                },
                                Some(found) => {
                                    let ghost r1 = remaining@;
                                    let ghost p1 = processed@;
                                    let ghost chain0 = chain@;
                                    chain.push(String::from_str(cid));
                                    proof {
                                        assert(!processed@.contains(strokes@[found as int].start_segment@));
                                        lemma_emit_keeps(strokes@, order, found as int, processed@, remaining@);
                                        remaining.lemma_view();
                                        let m = order.len() as int;
                                        lemma_written_push(strokes@, order, found as int, m);
                                        lemma_chain_entry_push(strokes@, lv, order, heads, found as int, false);
                                        let o2 = order.push(found as int);
                                        let h2 = heads.push(false);
                                        assert(o2[m] == found as int);
                                        assert(!h2[m]);
                                        let m2 = h + i;
                                        assert(o2[m2] == order[m2]);
                                        assert(chain@[i as int] == chain0[i as int]);
                                        assert(chain0[i as int]@ == strokes@[order[m2]].start_segment@);
                                        assert forall|j2: int| m2 < j2 <= m implies !#[trigger] h2[j2] by {
                                            if j2 < m {
                                                assert(h2[j2] == heads[j2]);
                                            }
                                        }
                                        assert(same_chain(h2, m2, m));
                                        assert(links_of(lv, strokes@[o2[m2]].start_segment@).contains(strokes@[o2[m]].start_segment@)) by {
                                            assert(strings_of(ids@).contains(cid@));
                                        }
                                        assert(chain_entry(strokes@, lv, o2, h2, m));
                                    }
                                    result.push(found);
                                    processed.insert(strokes[found].start_segment.clone());
                                    remaining.remove(cid);
                                    proof {
                                        lemma_written_push(strokes@, order, found as int, order.len() as int);
                                        let old_order = order;
                                        order = order.push(found as int);
                                        heads = heads.push(false);
                                        assert(result@.map_values(|k: usize| k as int) =~= order);
                                        let c = strokes@[found as int].start_segment@;
                                        assert(c == cid@);
                                        lemma_move_start(r1, p1, c);
                                        remaining.lemma_view();
                                        assert(remaining@.len() < r1.len());
                                        assert forall|c2: int| 0 <= c2 < chain@.len() implies #[trigger] chain@[c2]@
                                            == strokes@[order[h + c2]].start_segment@ by {
                                            if c2 < chain0.len() {
                                                assert(chain@[c2] == chain0[c2]);
                                                assert(order[h + c2] == old_order[h + c2]);
                                            } else {
                                                assert(chain@[c2]@ == cid@);
                                            }
                                        }
                                        assert forall|j2: int| h < j2 < order.len() implies !#[trigger] heads[j2] by {
                                            if j2 < old_order.len() {
                                                assert(heads[j2] == heads.drop_last()[j2]);
                                            }
                                        }
                                        assert forall|c2: int, s2: Seq<char>|
                                            0 <= c2 < i && #[trigger] links_of(lv, chain@[c2]@).contains(s2) && start_set(strokes@).contains(s2)
                                                implies processed@.contains(s2) by {
                                            assert(chain@[c2] == chain0[c2]);
                                            assert(p1.contains(s2));
                                        }
                                    }
                                },
                            }
                        }
                        proof {
                            assert(p_before.subset_of(processed@));
                            assert forall|j2: int|
                                0 <= j2 < j + 1 && start_set(strokes@).contains(#[trigger] strings_of(ids@)[j2]) implies processed@.contains(
                                    strings_of(ids@)[j2],
                                ) by {
                                if j2 == j {
                                    if !processed@.contains(cid@) {
                                        assert(remaining@.union(processed@).contains(cid@));
                                        assert(remaining@.contains(cid@));
                                        let c = choose|c: int| 0 <= c < chain@.len() && strings_of(chain@)[c] == cid@;
                                        assert(chain@[c]@ == cid@);
                                        assert(order[h + c] < n);
                                        assert(processed@.contains(strokes@[order[h + c]].start_segment@));
                                    }
                                } else {
                                    assert(p_before.contains(strings_of(ids@)[j2]));
                                }
                            }
                        }
                        j = j + 1;
                    }
                },
            }
            proof {
                assert forall|c: int, s2: Seq<char>|
                    0 <= c < i + 1 && #[trigger] links_of(lv, chain@[c]@).contains(s2) && start_set(strokes@).contains(s2)
                        implies processed@.contains(s2) by {
                    if c == i {
                        let j2 = choose|j2: int| 0 <= j2 < links_of(lv, chain@[c]@).len() && links_of(lv, chain@[c]@)[j2] == s2;
                    }
                }
            }
            i = i + 1;
        }
        proof {
            assert forall|m2: int, s2: Seq<char>|
                #[trigger] in_last_chain(heads, m2, order.len() as int) && #[trigger] links_of(
                    lv,
                    strokes@[order[m2]].start_segment@,
                ).contains(s2) && start_set(strokes@).contains(s2) implies written(
                    strokes@,
                    order,
                    order.len() as int,
                ).contains(s2) by {
                if m2 < h {
                    assert(!heads[h]);
                }
                let c = m2 - h;
                assert(chain@[c]@ == strokes@[order[h + c]].start_segment@);
            }
        }
    }
    proof {
        remaining.lemma_view();
        processed.lemma_view();
        assert forall|t: int| 0 <= t < result@.len() implies #[trigger] result@[t] < strokes@.len() by {
            assert(order[t] == result@[t] as int);
        }
        if distinct_starts(strokes@) {
            assert forall|i: int| 0 <= i < n implies order.contains(i) by {
                assert(processed@.contains(strokes@[i].start_segment@) || remaining@.contains(
                    strokes@[i].start_segment@,
                )) by {
                    assert(start_set(strokes@).contains(strokes@[i].start_segment@));
                    assert(remaining@.union(processed@).contains(strokes@[i].start_segment@));
                }
            }
            lemma_permutation(order, n);
        }
        if n > 0 {
            assert(order[0] == result@[0] as int);
        }
        assert forall|t: int| 0 <= t < n implies written(strokes@, order, order.len() as int).contains(
            #[trigger] strokes@[t].start_segment@,
        ) by {
            assert(start_set(strokes@).contains(strokes@[t].start_segment@));
            assert(remaining@.union(processed@).contains(strokes@[t].start_segment@));
        }
        assert(chain_order(strokes@, lv, order, heads));
        assert(positions(result@) == order);
    }
    result
}


/// Step `i` of a walk through a stroke's segments `segs`: from `ord[i - 1]`
/// it goes to a segment of the stroke that `ord[i - 1]` connects to and
/// that the walk has not visited, when there is one; otherwise to the first
/// segment of the stroke, in its order, that the walk has not visited.
pub open spec fn walk_step(adj: Map<Seq<char>, Seq<Seq<char>>>, segs: Seq<Seq<char>>, ord: Seq<Seq<char>>, i: int) -> bool {
    let seen = ord.subrange(0, i);
    let prev = ord[i - 1];
    let next = ord[i];
    if exists|v: Seq<char>| #[trigger] neighbor_ids(adj, prev).contains(v) && segs.contains(v) && !seen.contains(v) {
        neighbor_ids(adj, prev).contains(next) && segs.contains(next) && !seen.contains(next)
    } else {
        exists|k: int|
            0 <= k < segs.len() && #[trigger] segs[k] == next && !seen.contains(next) && forall|j: int|
                0 <= j < k ==> seen.contains(#[trigger] segs[j])
    }
}

/// The first `j` of `nbrs` that are segments of `segs` not yet in `seen`,
/// in order.
pub open spec fn open_upto(nbrs: Seq<Seq<char>>, segs: Seq<Seq<char>>, seen: Seq<Seq<char>>, j: int) -> Seq<Seq<char>>
    decreases j,
{
    if j <= 0 {
        Seq::empty()
    } else {
        let pre = open_upto(nbrs, segs, seen, j - 1);
        let v = nbrs[j - 1];
        if segs.contains(v) && !seen.contains(v) {
            pre.push(v)
        } else {
            pre
        }
    }
}

/// The segments a walk that has written `seen` and stands at `prev` may go
/// to next: the neighbours of `prev`, in the graph's order, that belong to
/// the stroke and are not yet written.
pub open spec fn walk_candidates(
    adj: Map<Seq<char>, Seq<Seq<char>>>,
    segs: Seq<Seq<char>>,
    seen: Seq<Seq<char>>,
    prev: Seq<char>,
) -> Seq<Seq<char>> {
    open_upto(neighbor_ids(adj, prev), segs, seen, neighbor_ids(adj, prev).len() as int)
}

/// Step `i` of the walk `ord`, when it had candidates, went to the one that
/// `pick` answered for them (the first, for an answer past the end).
pub open spec fn picked_step<F: Fn(String, Vec<String>) -> usize>(
    pick: F,
    adj: Map<Seq<char>, Seq<Seq<char>>>,
    segs: Seq<Seq<char>>,
    ord: Seq<Seq<char>>,
    i: int,
) -> bool {
    let cands = walk_candidates(adj, segs, ord.subrange(0, i), ord[i - 1]);
    cands.len() > 0 ==> exists|at: String, c: Vec<String>, p: usize|
        #[trigger] pick.ensures((at, c), p) && at@ == ord[i - 1] && strings_of(c@) == cands && ord[i] == cands[if p
            < cands.len() {
            p as int
        } else {
            0
        }]
}

/// The segments of `neighbors` that belong to the stroke and are not yet
/// in `ordered`, in order.
fn open_candidates(neighbors: &Vec<String>, segments: &Vec<String>, ordered: &Vec<String>) -> (r: Vec<String>)
    ensures
        forall|q: int|
            0 <= q < r@.len() ==> strings_of(neighbors@).contains(#[trigger] r@[q]@) && strings_of(segments@).contains(
                r@[q]@,
            ) && !strings_of(ordered@).contains(r@[q]@),
        r@.len() == 0 ==> forall|v: Seq<char>|
            #[trigger] strings_of(neighbors@).contains(v) ==> !(strings_of(segments@).contains(v) && !strings_of(
                ordered@,
            ).contains(v)),
        strings_of(r@) == open_upto(
            strings_of(neighbors@),
            strings_of(segments@),
            strings_of(ordered@),
            neighbors@.len() as int,
        ),
{
    let mut r: Vec<String> = Vec::new();
    let mut j: usize = 0;
    while j < neighbors.len()
        invariant
            j <= neighbors@.len(),
            forall|q: int|
                0 <= q < r@.len() ==> strings_of(neighbors@).contains(#[trigger] r@[q]@) && strings_of(
                    segments@,
                ).contains(r@[q]@) && !strings_of(ordered@).contains(r@[q]@),
            r@.len() == 0 ==> forall|t: int|
                0 <= t < j ==> !(strings_of(segments@).contains(#[trigger] strings_of(neighbors@)[t])
                    && !strings_of(ordered@).contains(strings_of(neighbors@)[t])),
            strings_of(r@) == open_upto(strings_of(neighbors@), strings_of(segments@), strings_of(ordered@), j as int),
        decreases neighbors@.len() - j,
    {
        let n = neighbors[j].as_str();
        assert(strings_of(neighbors@)[j as int] == n@);
        if holds(segments, n) && !holds(ordered, n) {
            let ghost before = r@;
            r.push(neighbors[j].clone());
            assert(strings_of(r@) =~= strings_of(before).push(n@));
            assert forall|q: int| 0 <= q < r@.len() implies strings_of(neighbors@).contains(#[trigger] r@[q]@)
                && strings_of(segments@).contains(r@[q]@) && !strings_of(ordered@).contains(r@[q]@) by {
                if q < before.len() {
                    assert(r@[q] == before[q]);
                } else {
                    assert(r@[q]@ == n@);
                    assert(strings_of(neighbors@)[j as int] == n@);
                }
            }
        }
        j = j + 1;
    }
    proof {
        if r@.len() == 0 {
            assert forall|v: Seq<char>| #[trigger] strings_of(neighbors@).contains(v) implies !(strings_of(
                segments@,
            ).contains(v) && !strings_of(ordered@).contains(v)) by {
                let t = choose|t: int| 0 <= t < strings_of(neighbors@).len() && strings_of(neighbors@)[t] == v;
                assert(strings_of(neighbors@)[t] == v);
            }
        }
    }
    r
}

/// The position of the first segment of the stroke that is not yet in
/// `ordered`.
fn first_unvisited(segments: &Vec<String>, ordered: &Vec<String>) -> (r: Option<usize>)
    ensures
        match r {
            Some(k) => k < segments@.len() && !strings_of(ordered@).contains(segments@[k as int]@) && forall|j: int|
                0 <= j < k ==> strings_of(ordered@).contains(#[trigger] strings_of(segments@)[j]),
            None => forall|k: int|
                0 <= k < segments@.len() ==> strings_of(ordered@).contains(#[trigger] strings_of(segments@)[k]),
        },
{
    let mut k: usize = 0;
    while k < segments.len()
        invariant
            k <= segments@.len(),
            forall|j: int| 0 <= j < k ==> strings_of(ordered@).contains(#[trigger] strings_of(segments@)[j]),
        decreases segments@.len() - k,
    {
        assert(strings_of(segments@)[k as int] == segments@[k as int]@);
        if !holds(ordered, segments[k].as_str()) {
            return Some(k);
        }
        k = k + 1;
    }
    None
}

proof fn lemma_walk_covers(segs: Seq<Seq<char>>, ord: Seq<Seq<char>>)
    requires
        segs.no_duplicates(),
        ord.no_duplicates(),
        forall|i: int| 0 <= i < ord.len() ==> segs.contains(#[trigger] ord[i]),
        ord.len() >= segs.len() || forall|k: int| 0 <= k < segs.len() ==> ord.contains(#[trigger] segs[k]),
    ensures
        ord.to_set() == segs.to_set(),
        ord.len() == segs.len(),
{
    ord.unique_seq_to_set();
    segs.unique_seq_to_set();
    let a = ord.to_set();
    let b = segs.to_set();
    assert(a.subset_of(b)) by {
        assert forall|x: Seq<char>| a.contains(x) implies b.contains(x) by {
            let i = choose|i: int| 0 <= i < ord.len() && ord[i] == x;
            assert(segs.contains(ord[i]));
        }
    }
    vstd::set_lib::lemma_len_subset(a, b);
    if ord.len() >= segs.len() {
        vstd::set_lib::lemma_subset_equality(a, b);
    } else {
        assert(b.subset_of(a)) by {
            assert forall|x: Seq<char>| b.contains(x) implies a.contains(x) by {
                let k = choose|k: int| 0 <= k < segs.len() && segs[k] == x;
                assert(ord.contains(segs[k]));
            }
        }
        assert(a =~= b);
    }
}

/// Orders the segments of a stroke for writing: from its start, each step
/// goes to a segment of the stroke that the last one connects to and that
/// is not yet written, the one that `pick` prefers (`pick` receives the last
/// segment and those segments in the graph's order, and answers a position
/// among them; an answer past the end means the first); when there is none,
/// to the first
/// segment of the stroke not yet written.  The walk ends when it is as long
/// as the stroke or every segment is written.  Also answers the segment it
/// ends at.  When the stroke's segments are distinct and hold its start,
/// every segment is written exactly once.
pub fn order_segments_in_stroke<F: Fn(String, Vec<String>) -> usize>(stroke: &Stroke, graph: &SegmentGraph, pick: F) -> (r: (
    Vec<String>,
    String,
))
    requires
        graph.wf(),
        forall|at: String, c: Vec<String>| pick.requires((at, c)),
    ensures
        r.0@.len() >= 1,
        strings_of(r.0@)[0] == stroke.start_segment@,
        r.1@ == strings_of(r.0@).last(),
        strings_of(r.0@).no_duplicates(),
        forall|i: int| 1 <= i < r.0@.len() ==> #[trigger] walk_step(
            graph.adjacency(),
            strings_of(stroke.segments@),
            strings_of(r.0@),
            i,
        ),
        forall|i: int| 1 <= i < r.0@.len() ==> #[trigger] picked_step(
            pick,
            graph.adjacency(),
            strings_of(stroke.segments@),
            strings_of(r.0@),
            i,
        ),
        r.0@.len() == 1 || r.0@.len() <= stroke.segments@.len(),
        r.0@.len() >= stroke.segments@.len() || forall|k: int|
            0 <= k < stroke.segments@.len() ==> strings_of(r.0@).contains(#[trigger] strings_of(stroke.segments@)[k]),
        strings_of(stroke.segments@).no_duplicates() && strings_of(stroke.segments@).contains(stroke.start_segment@)
            ==> strings_of(r.0@).to_set() == strings_of(stroke.segments@).to_set() && r.0@.len()
            == stroke.segments@.len(),
{
    let ghost adj = graph.adjacency();
    let ghost segs = strings_of(stroke.segments@);
    let mut ordered: Vec<String> = Vec::new();
    ordered.push(stroke.start_segment.clone());
    let mut current = stroke.start_segment.clone();
    proof {
        assert(strings_of(ordered@) =~= seq![stroke.start_segment@]);
    }
    while ordered.len() < stroke.segments.len()
        invariant
            graph.wf(),
            forall|at: String, c: Vec<String>| pick.requires((at, c)),
            adj == graph.adjacency(),
            segs == strings_of(stroke.segments@),
            ordered@.len() >= 1,
            strings_of(ordered@)[0] == stroke.start_segment@,
            current@ == strings_of(ordered@).last(),
            strings_of(ordered@).no_duplicates(),
            forall|i: int| 1 <= i < ordered@.len() ==> #[trigger] walk_step(adj, segs, strings_of(ordered@), i),
            forall|i: int| 1 <= i < ordered@.len() ==> #[trigger] picked_step(pick, adj, segs, strings_of(ordered@), i),
            forall|i: int| 1 <= i < ordered@.len() ==> segs.contains(#[trigger] strings_of(ordered@)[i]),
            ordered@.len() == 1 || ordered@.len() <= segs.len(),
        ensures
            ordered@.len() >= 1,
            strings_of(ordered@)[0] == stroke.start_segment@,
            current@ == strings_of(ordered@).last(),
            strings_of(ordered@).no_duplicates(),
            forall|i: int| 1 <= i < ordered@.len() ==> #[trigger] walk_step(adj, segs, strings_of(ordered@), i),
            forall|i: int| 1 <= i < ordered@.len() ==> #[trigger] picked_step(pick, adj, segs, strings_of(ordered@), i),
            forall|i: int| 1 <= i < ordered@.len() ==> segs.contains(#[trigger] strings_of(ordered@)[i]),
            ordered@.len() == 1 || ordered@.len() <= segs.len(),
            ordered@.len() >= segs.len() || forall|k: int| 0 <= k < segs.len() ==> strings_of(ordered@).contains(
                #[trigger] segs[k],
            ),
        decreases segs.len() - ordered@.len(),
    {
        let ghost ov = strings_of(ordered@);
        let neighbors = graph.get_neighbors(current.as_str());
        assert(strings_of(neighbors@) == neighbor_ids(adj, current@));
        let candidates = open_candidates(&neighbors, &stroke.segments, &ordered);
        let ghost cands = walk_candidates(adj, segs, ov, ov.last());
        assert(strings_of(candidates@) == cands);
        let chosen: String;
        if candidates.len() > 0 {
            let offered = open_candidates(&neighbors, &stroke.segments, &ordered);
            let at = current.clone();
            let ghost g_at = at;
            let ghost g_offered = offered;
            let p = pick(at, offered);
            let q: usize = if p < candidates.len() {
                p
            } else {
                0
            };
            chosen = candidates[q].clone();
            proof {
                assert(candidates@[q as int]@ == chosen@);
                assert(strings_of(candidates@)[q as int] == chosen@);
                assert(neighbor_ids(adj, ov.last()).contains(chosen@));
                assert(pick.ensures((g_at, g_offered), p));
                assert(g_at@ == ov.last() && strings_of(g_offered@) == cands && chosen@ == cands[if p < cands.len() {
                    p as int
                } else {
                    0
                }]);
            }
        } else {
            match first_unvisited(&stroke.segments, &ordered) {
                Some(k) => {
                    chosen = stroke.segments[k].clone();
                    proof {
                        assert(segs[k as int] == chosen@);
                        assert(!(exists|v: Seq<char>| #[trigger] neighbor_ids(adj, ov.last()).contains(v)
                            && segs.contains(v) && !ov.contains(v)));
                    }
                },
                None => {
                    break;
                },
            }
        }
        let ghost before = strings_of(ordered@);
        ordered.push(chosen.clone());
        proof {
            let now = strings_of(ordered@);
            assert(now =~= before.push(chosen@));
            assert(now.subrange(0, before.len() as int) =~= before);
            assert(walk_step(adj, segs, now, before.len() as int));
            assert(now[before.len() - 1] == before.last());
            assert(picked_step(pick, adj, segs, now, before.len() as int));
            assert forall|i: int| 1 <= i < now.len() implies #[trigger] walk_step(adj, segs, now, i) by {
                if i < before.len() {
                    assert(now.subrange(0, i) =~= before.subrange(0, i));
                    assert(now[i] == before[i]);
                    assert(now[i - 1] == before[i - 1]);
                    assert(walk_step(adj, segs, before, i));
                }
            }
            assert forall|i: int| 1 <= i < now.len() implies #[trigger] picked_step(pick, adj, segs, now, i) by {
                if i < before.len() {
                    assert(now.subrange(0, i) =~= before.subrange(0, i));
                    assert(now[i] == before[i]);
                    assert(now[i - 1] == before[i - 1]);
                    assert(picked_step(pick, adj, segs, before, i));
                }
            }
            assert forall|i: int| 1 <= i < now.len() implies segs.contains(#[trigger] now[i]) by {
                if i < before.len() {
                    assert(now[i] == before[i]);
                }
            }
            assert(now.no_duplicates()) by {
                assert forall|a: int, b: int| 0 <= a < b < now.len() implies now[a] != now[b] by {
                    if b == before.len() {
                        assert(before.contains(now[a]));
                    }
                }
            }
        }
        current = chosen;
    }
    let end = current.clone();
    proof {
        let ov = strings_of(ordered@);
        if segs.no_duplicates() && segs.contains(stroke.start_segment@) {
            assert forall|i: int| 0 <= i < ov.len() implies segs.contains(#[trigger] ov[i]) by {}
            lemma_walk_covers(segs, ov);
        }
    }
    (ordered, end)
}

} // verus!
