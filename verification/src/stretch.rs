//! Where a grid stretches along an axis: the elements on the boundaries
//! between tiles, and which of them lie on the grid's outer edge.

use vstd::prelude::*;
use crate::geometry::Axis;
use crate::grid::{EdgeType, Grid, GridElement};
use crate::name_map::NameMap;
use crate::segment_set::SegmentSet;
use crate::stroke::SegmentType;

verus! {

/// An element on `edge` of tile `position` lies on the outer edge of a
/// grid `width` by `height` tiles (tiles are numbered from 1).
pub open spec fn outer_boundary_spec(edge: EdgeType, position: (u32, u32), width: u32, height: u32) -> bool {
    match edge {
        EdgeType::North => position.1 == 1,
        EdgeType::South => position.1 == height,
        EdgeType::East => position.0 == width,
        EdgeType::West => position.0 == 1,
        _ => false,
    }
}

/// Whether `segment` lies on the outer edge of `grid`: on the north edge
/// of a tile of the first row, the south edge of the last row, the west
/// edge of the first column or the east edge of the last.
pub fn is_outer_boundary(grid: &Grid, segment: &GridElement) -> (r: bool)
    ensures
        r == outer_boundary_spec(segment.edge_type, segment.position, grid.width, grid.height),
{
    match segment.edge_type {
        EdgeType::North => segment.position.1 == 1,
        EdgeType::South => segment.position.1 == grid.height,
        EdgeType::East => segment.position.0 == grid.width,
        EdgeType::West => segment.position.0 == 1,
        _ => false,
    }
}

/// An element of type `t` on edge `edge` runs along a boundary between
/// tiles that a stretch along `axis` opens: vertical segments on east or
/// west edges for x, horizontal ones on north or south edges for y.
pub open spec fn on_boundary_spec(t: SegmentType, edge: EdgeType, axis: Axis) -> bool {
    match axis {
        Axis::X => t == SegmentType::Vertical && (edge == EdgeType::East || edge == EdgeType::West),
        Axis::Y => t == SegmentType::Horizontal && (edge == EdgeType::North || edge == EdgeType::South),
    }
}

/// The ids of the elements that run along a boundary for `axis`.
pub open spec fn boundary_set(
    elements: Map<Seq<char>, GridElement>,
    types: Map<Seq<char>, SegmentType>,
    axis: Axis,
) -> Set<Seq<char>> {
    Set::new(
        |k: Seq<char>|
            elements.dom().contains(k) && types.dom().contains(k) && on_boundary_spec(
                types[k],
                elements[k].edge_type,
                axis,
            ),
    )
}

fn on_boundary(t: SegmentType, edge: EdgeType, axis: Axis) -> (r: bool)
    ensures
        r == on_boundary_spec(t, edge, axis),
{
    match axis {
        Axis::X => t == SegmentType::Vertical && (edge == EdgeType::East || edge == EdgeType::West),
        Axis::Y => t == SegmentType::Horizontal && (edge == EdgeType::North || edge == EdgeType::South),
    }
}

/// The elements of `grid` that run along a boundary between tiles for a
/// stretch along `axis`, by their types in `types` (an element without a
/// type is on no boundary).
pub fn boundary_segments(grid: &Grid, types: &NameMap<SegmentType>, axis: Axis) -> (r: SegmentSet)
    requires
        grid.wf(),
        types.wf(),
    ensures
        r.wf(),
        r@ == boundary_set(grid.elements.view(), types.view(), axis),
{
    proof {
        grid.elements.lemma_wf_facts();
    }
    let ghost ks = grid.elements.key_seq();
    let ghost target = boundary_set(grid.elements.view(), types.view(), axis);
    let mut r = SegmentSet::new();
    let n = grid.elements.len();
    let mut i: usize = 0;
    proof {
        assert(ks.subrange(0, 0).to_set() =~= Set::<Seq<char>>::empty());
        assert(r@ =~= target.intersect(ks.subrange(0, 0).to_set()));
    }
    while i < n
        invariant
            grid.wf(),
            types.wf(),
            ks == grid.elements.key_seq(),
            n == ks.len(),
            ks.len() == grid.elements.val_seq().len(),
            target == boundary_set(grid.elements.view(), types.view(), axis),
            forall|j: int| 0 <= j < ks.len() ==> grid.elements.view()[#[trigger] ks[j]] == grid.elements.val_seq()[j],
            grid.elements.view().dom() == ks.to_set(),
            i <= n,
            r.wf(),
            r@ == target.intersect(ks.subrange(0, i as int).to_set()),
        decreases n - i,
    {
        let key = grid.elements.key_at(i);
        let element = grid.elements.value_at(i);
        let ghost k = ks[i as int];
        assert(grid.elements.view()[k] == *element);
        assert(ks.to_set().contains(k));
        let on = match types.get(key.as_str()) {
            Some(t) => on_boundary(*t, element.edge_type, axis),
            None => false,
        };
        assert(on == target.contains(k));
        let ghost before = r@;
        if on {
            r.insert(key.clone());
        }
        proof {
            assert(ks.subrange(0, i + 1).to_set() == ks.subrange(0, i as int).to_set().insert(k)) by {
                assert(ks.subrange(0, i + 1) =~= ks.subrange(0, i as int).push(k));
                ks.subrange(0, i as int).lemma_push_to_set_commute(k);
            }
            assert(r@ =~= target.intersect(ks.subrange(0, i + 1).to_set()));
        }
        i = i + 1;
    }
    proof {
        assert(ks.subrange(0, n as int) =~= ks);
        assert(r@ =~= target);
    }
    r
}

} // verus!
