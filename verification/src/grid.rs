//! Grid neighbourhoods.  A grid is a rectangle of tiles; every tile carries
//! a copy of the base tile's elements.  An element lying on a tile's edge or
//! corner meets the element on the opposite edge or corner of the adjacent
//! tile, and the pair is drawn once.  This module decides which tile is
//! adjacent across an edge, in which direction it lies, which edge types can
//! meet, and which elements of a grid are candidates for such a meeting.

use vstd::prelude::*;
use crate::name_map::NameMap;
use crate::segment::{segment_id, segment_id_spec};

verus! {

/// Which edge or corner of its tile a base element lies on.
#[derive(Debug, Clone, Copy, PartialEq, Eq, Structural)]
pub enum EdgeType {
    North,
    South,
    East,
    West,
    Northwest,
    Northeast,
    Southwest,
    Southeast,
    NoEdge,
}

/// The step (dx, dy) from a tile to the tile across `edge`; north is up,
/// that is towards smaller rows.
pub open spec fn edge_step(edge: EdgeType) -> (int, int) {
    match edge {
        EdgeType::North => (0, -1),
        EdgeType::South => (0, 1),
        EdgeType::East => (1, 0),
        EdgeType::West => (-1, 0),
        EdgeType::Northwest => (-1, -1),
        EdgeType::Northeast => (1, -1),
        EdgeType::Southwest => (-1, 1),
        EdgeType::Southeast => (1, 1),
        EdgeType::NoEdge => (0, 0),
    }
}

/// The name of the direction of a step, as `get_neighbor_direction` reports it.
pub open spec fn direction_name(dx: int, dy: int) -> Option<Seq<char>> {
    if dx == 0 && dy == -1 {
        Some("North"@)
    } else if dx == 1 && dy == -1 {
        Some("Northeast"@)
    } else if dx == 1 && dy == 0 {
        Some("East"@)
    } else if dx == 1 && dy == 1 {
        Some("Southeast"@)
    } else if dx == 0 && dy == 1 {
        Some("South"@)
    } else if dx == -1 && dy == 1 {
        Some("Southwest"@)
    } else if dx == -1 && dy == 0 {
        Some("West"@)
    } else if dx == -1 && dy == -1 {
        Some("Northwest"@)
    } else {
        None
    }
}

/// The view of an optional static direction name.
pub open spec fn opt_str_view(d: Option<&str>) -> Option<Seq<char>> {
    match d {
        Some(s) => Some(s@),
        None => None,
    }
}

/// Reports the direction of the tile at (`neighbor_x`, `neighbor_y`) as seen
/// from (`x`, `y`), for the eight adjacent tiles; `None` for any other tile.
/// The coordinates are compared after conversion to `i32`.
pub fn get_neighbor_direction(x: u32, y: u32, neighbor_x: u32, neighbor_y: u32) -> (r: Option<
    &'static str,
>)
    requires
        i32::MIN <= (neighbor_x as i32) - (x as i32) <= i32::MAX,
        i32::MIN <= (neighbor_y as i32) - (y as i32) <= i32::MAX,
    ensures
        opt_str_view(r) == direction_name(
            (neighbor_x as i32) - (x as i32),
            (neighbor_y as i32) - (y as i32),
        ),
{
    let dx: i32 = neighbor_x as i32 - x as i32;
    let dy: i32 = neighbor_y as i32 - y as i32;
    if dx == 0 && dy == -1 {
        Some("North")
    } else if dx == 1 && dy == -1 {
        Some("Northeast")
    } else if dx == 1 && dy == 0 {
        Some("East")
    } else if dx == 1 && dy == 1 {
        Some("Southeast")
    } else if dx == 0 && dy == 1 {
        Some("South")
    } else if dx == -1 && dy == 1 {
        Some("Southwest")
    } else if dx == -1 && dy == 0 {
        Some("West")
    } else if dx == -1 && dy == -1 {
        Some("Northwest")
    } else {
        None
    }
}

/// The inputs on which `get_neighbor_coords` computes `width - 1` or
/// `height - 1` with a zero width or height, which would underflow; they
/// are left out.
pub open spec fn neighbor_coords_defined(col: u32, row: u32, edge: EdgeType, w: u32, h: u32) -> bool {
    match edge {
        EdgeType::South => h >= 1,
        EdgeType::East => w >= 1,
        EdgeType::Northeast => row > 0 ==> w >= 1,
        EdgeType::Southwest => h >= 1,
        EdgeType::Southeast => h >= 1 && (row < h - 1 ==> w >= 1),
        _ => true,
    }
}

/// The tile across `edge` from (`col`, `row`) in a `w` by `h` grid with
/// 0-based coordinates: present when the step stays inside `0..w` and `0..h`.
pub open spec fn neighbor_coords_spec(col: u32, row: u32, edge: EdgeType, w: u32, h: u32) -> Option<
    (u32, u32),
> {
    let (dx, dy) = edge_step(edge);
    let nx = col + dx;
    let ny = row + dy;
    if edge == EdgeType::NoEdge {
        None
    } else if 0 <= nx && 0 <= ny && (dx <= 0 || nx < w) && (dy <= 0 || ny < h) {
        Some((nx as u32, ny as u32))
    } else {
        None
    }
}

/// Coordinates of the tile across `edge` from (`col`, `row`), if that tile
/// is on a `grid_width` by `grid_height` grid counted from 0.
pub fn get_neighbor_coords(col: u32, row: u32, edge_type: EdgeType, grid_width: u32, grid_height: u32)
    -> (r: Option<(u32, u32)>)
    requires
        neighbor_coords_defined(col, row, edge_type, grid_width, grid_height),
    ensures
        r == neighbor_coords_spec(col, row, edge_type, grid_width, grid_height),
{
    match edge_type {
        EdgeType::North => {
            if row > 0 {
                Some((col, row - 1))
            } else {
                None
            }
        },
        EdgeType::South => {
            if row < grid_height - 1 {
                Some((col, row + 1))
            } else {
                None
            }
        },
        EdgeType::East => {
            if col < grid_width - 1 {
                Some((col + 1, row))
            } else {
                None
            }
        },
        EdgeType::West => {
            if col > 0 {
                Some((col - 1, row))
            } else {
                None
            }
        },
        EdgeType::Northwest => {
            if row > 0 && col > 0 {
                Some((col - 1, row - 1))
            } else {
                None
            }
        },
        EdgeType::Northeast => {
            if row > 0 && col < grid_width - 1 {
                Some((col + 1, row - 1))
            } else {
                None
            }
        },
        EdgeType::Southwest => {
            if row < grid_height - 1 && col > 0 {
                Some((col - 1, row + 1))
            } else {
                None
            }
        },
        EdgeType::Southeast => {
            if row < grid_height - 1 && col < grid_width - 1 {
                Some((col + 1, row + 1))
            } else {
                None
            }
        },
        EdgeType::NoEdge => None,
    }
}

/// The edge or corner that faces `edge` across the tile boundary.
pub open spec fn opposite_spec(edge: EdgeType) -> EdgeType {
    match edge {
        EdgeType::North => EdgeType::South,
        EdgeType::South => EdgeType::North,
        EdgeType::East => EdgeType::West,
        EdgeType::West => EdgeType::East,
        EdgeType::Northwest => EdgeType::Southeast,
        EdgeType::Northeast => EdgeType::Southwest,
        EdgeType::Southwest => EdgeType::Northeast,
        EdgeType::Southeast => EdgeType::Northwest,
        EdgeType::NoEdge => EdgeType::NoEdge,
    }
}

/// The edge an element on the neighbouring tile must lie on to meet an
/// element on `edge`; an element on no edge meets nothing and maps to `None`.
pub fn opposite_edge(edge: EdgeType) -> (r: EdgeType)
    ensures
        r == opposite_spec(edge),
{
    match edge {
        EdgeType::North => EdgeType::South,
        EdgeType::South => EdgeType::North,
        EdgeType::East => EdgeType::West,
        EdgeType::West => EdgeType::East,
        EdgeType::Northwest => EdgeType::Southeast,
        EdgeType::Northeast => EdgeType::Southwest,
        EdgeType::Southwest => EdgeType::Northeast,
        EdgeType::Southeast => EdgeType::Northwest,
        EdgeType::NoEdge => EdgeType::NoEdge,
    }
}

/// Whether an element on `edge1` can meet an element on `edge2` of the tile
/// in direction `dir`: straight edges meet their opposite whatever the
/// direction; a corner meets one of three corners, depending on which of
/// the three tiles around it the other element sits on.
pub open spec fn edge_types_match_spec(edge1: EdgeType, edge2: EdgeType, dir: Option<Seq<char>>) -> bool {
    match edge1 {
        EdgeType::North => edge2 == EdgeType::South,
        EdgeType::South => edge2 == EdgeType::North,
        EdgeType::East => edge2 == EdgeType::West,
        EdgeType::West => edge2 == EdgeType::East,
        EdgeType::Northwest => {
            ||| (dir == Some("Northwest"@) && edge2 == EdgeType::Southeast)
            ||| (dir == Some("West"@) && edge2 == EdgeType::Northeast)
            ||| (dir == Some("North"@) && edge2 == EdgeType::Southwest)
        },
        EdgeType::Northeast => {
            ||| (dir == Some("North"@) && edge2 == EdgeType::Southeast)
            ||| (dir == Some("East"@) && edge2 == EdgeType::Northwest)
            ||| (dir == Some("Northeast"@) && edge2 == EdgeType::Southwest)
        },
        EdgeType::Southwest => {
            ||| (dir == Some("West"@) && edge2 == EdgeType::Southeast)
            ||| (dir == Some("Southwest"@) && edge2 == EdgeType::Northeast)
            ||| (dir == Some("South"@) && edge2 == EdgeType::Northwest)
        },
        EdgeType::Southeast => {
            ||| (dir == Some("East"@) && edge2 == EdgeType::Southwest)
            ||| (dir == Some("South"@) && edge2 == EdgeType::Northeast)
            ||| (dir == Some("Southeast"@) && edge2 == EdgeType::Northwest)
        },
        EdgeType::NoEdge => false,
    }
}

fn dir_is(dir: Option<&str>, name: &str) -> (r: bool)
    ensures
        r == (opt_str_view(dir) == Some(name@)),
{
    match dir {
        Some(d) => crate::text::str_eq(d, name),
        None => false,
    }
}

/// The edge-type half of the alignment check between two elements on
/// neighbouring tiles: whether their edges can meet at all.  Whether their
/// coordinates line up is the other half.
pub fn edge_types_match(edge1: EdgeType, edge2: EdgeType, direction: Option<&str>) -> (r: bool)
    ensures
        r == edge_types_match_spec(edge1, edge2, opt_str_view(direction)),
{
    match edge1 {
        EdgeType::North => edge2 == EdgeType::South,
        EdgeType::South => edge2 == EdgeType::North,
        EdgeType::East => edge2 == EdgeType::West,
        EdgeType::West => edge2 == EdgeType::East,
        EdgeType::Northwest => {
            (dir_is(direction, "Northwest") && edge2 == EdgeType::Southeast) || (dir_is(
                direction,
                "West",
            ) && edge2 == EdgeType::Northeast) || (dir_is(direction, "North") && edge2
                == EdgeType::Southwest)
        },
        EdgeType::Northeast => {
            (dir_is(direction, "North") && edge2 == EdgeType::Southeast) || (dir_is(
                direction,
                "East",
            ) && edge2 == EdgeType::Northwest) || (dir_is(direction, "Northeast") && edge2
                == EdgeType::Southwest)
        },
        EdgeType::Southwest => {
            (dir_is(direction, "West") && edge2 == EdgeType::Southeast) || (dir_is(
                direction,
                "Southwest",
            ) && edge2 == EdgeType::Northeast) || (dir_is(direction, "South") && edge2
                == EdgeType::Northwest)
        },
        EdgeType::Southeast => {
            (dir_is(direction, "East") && edge2 == EdgeType::Southwest) || (dir_is(
                direction,
                "South",
            ) && edge2 == EdgeType::Northeast) || (dir_is(direction, "Southeast") && edge2
                == EdgeType::Northwest)
        },
        EdgeType::NoEdge => false,
    }
}

/// The shape of a base element.
#[derive(Debug, Clone, Copy, PartialEq, Eq, Structural)]
pub enum PathKind {
    Line,
    Arc,
    Circle,
}

/// Which coordinates of two elements on neighbouring tiles must agree for
/// them to coincide.
#[derive(Debug, Clone, Copy, PartialEq, Eq, Structural)]
pub enum AlignmentRule {
    /// They never coincide.
    Never,
    /// Two lines whose x coordinates agree at both ends, in either order.
    LineXs,
    /// Two lines whose y coordinates agree at both ends, in either order.
    LineYs,
    /// Two circles whose centres have the same x.
    CircleX,
    /// Two circles whose centres have the same y.
    CircleY,
    /// They coincide whatever their coordinates.
    Always,
}

pub open spec fn alignment_rule_spec(
    kind1: PathKind,
    edge1: EdgeType,
    kind2: PathKind,
    edge2: EdgeType,
    dir: Option<Seq<char>>,
) -> AlignmentRule {
    if !edge_types_match_spec(edge1, edge2, dir) {
        AlignmentRule::Never
    } else if kind1 == PathKind::Line && kind2 == PathKind::Line {
        match edge1 {
            EdgeType::North | EdgeType::South => AlignmentRule::LineXs,
            EdgeType::East | EdgeType::West => AlignmentRule::LineYs,
            _ => AlignmentRule::Never,
        }
    } else if kind1 == PathKind::Circle && kind2 == PathKind::Circle {
        match edge1 {
            EdgeType::North | EdgeType::South => AlignmentRule::CircleX,
            EdgeType::East | EdgeType::West => AlignmentRule::CircleY,
            EdgeType::NoEdge => AlignmentRule::Never,
            _ => if dir == Some("East"@) || dir == Some("West"@) {
                AlignmentRule::CircleY
            } else if dir == Some("North"@) || dir == Some("South"@) {
                AlignmentRule::CircleX
            } else {
                AlignmentRule::Always
            },
        }
    } else {
        AlignmentRule::Never
    }
}

/// The alignment check between an element on `edge1` and an element on
/// `edge2` of the tile in `direction`, up to comparing coordinates: their
/// edges must be able to meet, and then lines are compared along the edge
/// and circles on the axis that the direction leaves shared; arcs never
/// coincide.
pub fn alignment_rule(
    kind1: PathKind,
    edge1: EdgeType,
    kind2: PathKind,
    edge2: EdgeType,
    direction: Option<&str>,
) -> (r: AlignmentRule)
    ensures
        r == alignment_rule_spec(kind1, edge1, kind2, edge2, opt_str_view(direction)),
{
    if !edge_types_match(edge1, edge2, direction) {
        AlignmentRule::Never
    } else if kind1 == PathKind::Line && kind2 == PathKind::Line {
        match edge1 {
            EdgeType::North | EdgeType::South => AlignmentRule::LineXs,
            EdgeType::East | EdgeType::West => AlignmentRule::LineYs,
            _ => AlignmentRule::Never,
        }
    } else if kind1 == PathKind::Circle && kind2 == PathKind::Circle {
        match edge1 {
            EdgeType::North | EdgeType::South => AlignmentRule::CircleX,
            EdgeType::East | EdgeType::West => AlignmentRule::CircleY,
            EdgeType::NoEdge => AlignmentRule::Never,
            _ => if dir_is(direction, "East") || dir_is(direction, "West") {
                AlignmentRule::CircleY
            } else if dir_is(direction, "North") || dir_is(direction, "South") {
                AlignmentRule::CircleX
            } else {
                AlignmentRule::Always
            },
        }
    } else {
        AlignmentRule::Never
    }
}

/// Whether an edge is one of the four straight edges of a tile.
pub open spec fn straight_edge(e: EdgeType) -> bool {
    e == EdgeType::North || e == EdgeType::South || e == EdgeType::East || e == EdgeType::West
}

/// Whether an edge is one of the four corners of a tile.
pub open spec fn corner_edge(e: EdgeType) -> bool {
    e == EdgeType::Northwest || e == EdgeType::Northeast || e == EdgeType::Southwest || e == EdgeType::Southeast
}

/// A straight edge meets exactly the edge facing it on the next tile,
/// whatever the direction: east meets west and north meets south; an
/// element on no edge meets nothing.
pub proof fn lemma_straight_edges_meet_opposite(e1: EdgeType, e2: EdgeType, dir: Option<Seq<char>>)
    ensures
        (e1 == EdgeType::East || e1 == EdgeType::West) ==> (edge_types_match_spec(e1, e2, dir) <==> (e2
            == EdgeType::East || e2 == EdgeType::West) && e2 != e1),
        (e1 == EdgeType::North || e1 == EdgeType::South) ==> (edge_types_match_spec(e1, e2, dir) <==> (e2
            == EdgeType::North || e2 == EdgeType::South) && e2 != e1),
        e1 == EdgeType::NoEdge ==> !edge_types_match_spec(e1, e2, dir),
        corner_edge(e1) && edge_types_match_spec(e1, e2, dir) ==> corner_edge(e2),
{
}

/// Two elements on meeting edges coincide when they agree along the shared
/// edge: on an east or west edge (which runs north to south) lines agree
/// in their y coordinates and circles in their centres' y; on a north or
/// south edge in x.  Circles meeting at a corner agree in y when the other
/// tile lies east or west, in x when it lies north or south, and always
/// when it lies diagonally.  Arcs, elements of different shapes, lines at
/// corners and elements whose edges do not meet never coincide.
pub proof fn lemma_alignment_along_the_edge(
    k1: PathKind,
    e1: EdgeType,
    k2: PathKind,
    e2: EdgeType,
    dir: Option<Seq<char>>,
)
    ensures
        !edge_types_match_spec(e1, e2, dir) ==> alignment_rule_spec(k1, e1, k2, e2, dir) == AlignmentRule::Never,
        (k1 == PathKind::Arc || k2 == PathKind::Arc || k1 != k2) ==> alignment_rule_spec(k1, e1, k2, e2, dir)
            == AlignmentRule::Never,
        edge_types_match_spec(e1, e2, dir) && (e1 == EdgeType::East || e1 == EdgeType::West) ==> {
            &&& alignment_rule_spec(PathKind::Circle, e1, PathKind::Circle, e2, dir) == AlignmentRule::CircleY
            &&& alignment_rule_spec(PathKind::Line, e1, PathKind::Line, e2, dir) == AlignmentRule::LineYs
        },
        edge_types_match_spec(e1, e2, dir) && (e1 == EdgeType::North || e1 == EdgeType::South) ==> {
            &&& alignment_rule_spec(PathKind::Circle, e1, PathKind::Circle, e2, dir) == AlignmentRule::CircleX
            &&& alignment_rule_spec(PathKind::Line, e1, PathKind::Line, e2, dir) == AlignmentRule::LineXs
        },
        edge_types_match_spec(e1, e2, dir) && corner_edge(e1) ==> {
            &&& alignment_rule_spec(PathKind::Line, e1, PathKind::Line, e2, dir) == AlignmentRule::Never
            &&& alignment_rule_spec(PathKind::Circle, e1, PathKind::Circle, e2, dir) == if dir == Some("East"@) || dir
                == Some("West"@) {
                AlignmentRule::CircleY
            } else if dir == Some("North"@) || dir == Some("South"@) {
                AlignmentRule::CircleX
            } else {
                AlignmentRule::Always
            }
        },
{
}

/// The tile across an edge lies inside the grid whenever the tile itself
/// does.
pub proof fn lemma_neighbor_in_grid(col: u32, row: u32, edge: EdgeType, w: u32, h: u32)
    requires
        col < w,
        row < h,
    ensures
        neighbor_coords_defined(col, row, edge, w, h),
        neighbor_coords_spec(col, row, edge, w, h) matches Some((nx, ny)) ==> nx < w && ny < h,
{
}

/// The tile across an edge lies in the direction that the edge names, and
/// an element on that edge can meet an element on the opposite edge there.
pub proof fn lemma_neighbor_direction(col: u32, row: u32, edge: EdgeType, w: u32, h: u32)
    requires
        col < w,
        row < h,
        w <= i32::MAX,
        h <= i32::MAX,
    ensures
        neighbor_coords_spec(col, row, edge, w, h) matches Some((nx, ny)) ==> {
            &&& direction_name((nx as i32) - (col as i32), (ny as i32) - (row as i32))
                == direction_name(edge_step(edge).0, edge_step(edge).1)
            &&& edge_types_match_spec(
                edge,
                opposite_spec(edge),
                direction_name(edge_step(edge).0, edge_step(edge).1),
            )
        },
{
}

/// The compass of the grid, with columns counted east and rows counted
/// south: across the north edge lies the row above, across the south edge
/// the row below, across the east edge the next column and across the west
/// edge the one before; a corner combines its two edges.  There is no tile
/// past the border, and the neighbouring tile's direction is named after
/// the edge crossed.
pub proof fn lemma_compass(col: u32, row: u32, w: u32, h: u32)
    requires
        col < w,
        row < h,
    ensures
        neighbor_coords_spec(col, row, EdgeType::North, w, h) == if row > 0 {
            Some((col, (row - 1) as u32))
        } else {
            None
        },
        neighbor_coords_spec(col, row, EdgeType::South, w, h) == if row + 1 < h {
            Some((col, (row + 1) as u32))
        } else {
            None
        },
        neighbor_coords_spec(col, row, EdgeType::East, w, h) == if col + 1 < w {
            Some(((col + 1) as u32, row))
        } else {
            None
        },
        neighbor_coords_spec(col, row, EdgeType::West, w, h) == if col > 0 {
            Some(((col - 1) as u32, row))
        } else {
            None
        },
        neighbor_coords_spec(col, row, EdgeType::Northwest, w, h) == if row > 0 && col > 0 {
            Some(((col - 1) as u32, (row - 1) as u32))
        } else {
            None
        },
        neighbor_coords_spec(col, row, EdgeType::Northeast, w, h) == if row > 0 && col + 1 < w {
            Some(((col + 1) as u32, (row - 1) as u32))
        } else {
            None
        },
        neighbor_coords_spec(col, row, EdgeType::Southwest, w, h) == if row + 1 < h && col > 0 {
            Some(((col - 1) as u32, (row + 1) as u32))
        } else {
            None
        },
        neighbor_coords_spec(col, row, EdgeType::Southeast, w, h) == if row + 1 < h && col + 1 < w {
            Some(((col + 1) as u32, (row + 1) as u32))
        } else {
            None
        },
        neighbor_coords_spec(col, row, EdgeType::NoEdge, w, h) == None::<(u32, u32)>,
        direction_name(0, -1) == Some("North"@),
        direction_name(0, 1) == Some("South"@),
        direction_name(1, 0) == Some("East"@),
        direction_name(-1, 0) == Some("West"@),
        direction_name(-1, -1) == Some("Northwest"@),
        direction_name(1, -1) == Some("Northeast"@),
        direction_name(-1, 1) == Some("Southwest"@),
        direction_name(1, 1) == Some("Southeast"@),
        direction_name(0, 0) == None::<Seq<char>>,
{
}

/// Crossing an edge and then the opposite edge returns to the start.
pub proof fn lemma_neighbor_round_trip(col: u32, row: u32, edge: EdgeType, w: u32, h: u32)
    requires
        col < w,
        row < h,
    ensures
        neighbor_coords_spec(col, row, edge, w, h) matches Some((nx, ny)) ==> neighbor_coords_spec(
            nx,
            ny,
            opposite_spec(edge),
            w,
            h,
        ) == Some((col, row)),
{
}

/// An element of a grid: the base element it copies (by its id and its
/// position among the base elements), the tile it sits on and its edge.
#[derive(Debug)]
pub struct GridElement {
    pub id: String,
    pub position: (u32, u32),
    pub path: usize,
    pub edge_type: EdgeType,
}

/// Positions (in `elements`) of the elements on tile (`x`, `y`), in order.
pub open spec fn elements_at_spec(elements: Seq<GridElement>, x: u32, y: u32) -> Seq<int>
    decreases elements.len(),
{
    if elements.len() == 0 {
        Seq::empty()
    } else {
        let rest = elements_at_spec(elements.drop_last(), x, y);
        if elements.last().position == (x, y) {
            rest.push(elements.len() - 1)
        } else {
            rest
        }
    }
}

/// Every position that `elements_at_spec` lists is a position of `elements`.
pub proof fn lemma_elements_at_bounds(elements: Seq<GridElement>, x: u32, y: u32)
    ensures
        forall|t: int|
            0 <= t < elements_at_spec(elements, x, y).len() ==> 0 <= #[trigger] elements_at_spec(
                elements,
                x,
                y,
            )[t] < elements.len(),
    decreases elements.len(),
{
    if elements.len() > 0 {
        let rest = elements_at_spec(elements.drop_last(), x, y);
        lemma_elements_at_bounds(elements.drop_last(), x, y);
        assert forall|t: int| 0 <= t < elements_at_spec(elements, x, y).len() implies 0
            <= #[trigger] elements_at_spec(elements, x, y)[t] < elements.len() by {
            if t < rest.len() {
                assert(elements_at_spec(elements, x, y)[t] == rest[t]);
            }
        }
    }
}

/// The elements on tile (`x`, `y`), given by their positions in `elements`.
pub fn get_elements_at(elements: &NameMap<GridElement>, x: u32, y: u32) -> (r: Vec<usize>)
    requires
        elements.wf(),
    ensures
        r@.map_values(|i: usize| i as int) == elements_at_spec(elements.val_seq(), x, y),
{
    proof {
        elements.lemma_wf_facts();
    }
    let ghost vals = elements.val_seq();
    let n = elements.len();
    let mut out: Vec<usize> = Vec::new();
    let mut i: usize = 0;
    while i < n
        invariant
            elements.wf(),
            vals == elements.val_seq(),
            n == vals.len(),
            vals.len() == elements.key_seq().len(),
            i <= n,
            out@.map_values(|k: usize| k as int) == elements_at_spec(vals.subrange(0, i as int), x, y),
        decreases n - i,
    {
        let ghost before = out@;
        assert(vals.subrange(0, i + 1).drop_last() =~= vals.subrange(0, i as int));
        let e = elements.value_at(i);
        if e.position.0 == x && e.position.1 == y {
            out.push(i);
            assert(out@.map_values(|k: usize| k as int) =~= before.map_values(|k: usize| k as int).push(
                i as int,
            ));
        }
        i = i + 1;
    }
    assert(vals.subrange(0, i as int) =~= vals);
    out
}

/// Element `k` lies on the edge opposite to `element`'s and its edge type
/// can meet `element`'s from direction `dir`.
pub open spec fn candidate_ok(element: GridElement, elements: Seq<GridElement>, dir: Option<Seq<char>>, k: int) -> bool {
    elements[k].edge_type == opposite_spec(element.edge_type) && edge_types_match_spec(
        element.edge_type,
        elements[k].edge_type,
        dir,
    )
}

/// The elements of `elements` that an element may be drawn together with:
/// those on the tile across its edge that lie on the opposite edge and whose
/// edge type can meet its own from that direction.  `None` when there is no
/// tile across its edge.
pub open spec fn match_candidates_spec(
    element: GridElement,
    w: u32,
    h: u32,
    elements: Seq<GridElement>,
) -> Option<(Seq<int>, Option<Seq<char>>)> {
    match neighbor_coords_spec(element.position.0, element.position.1, element.edge_type, w, h) {
        None => None,
        Some((nx, ny)) => {
            let dir = direction_name(
                (nx as i32) - (element.position.0 as i32),
                (ny as i32) - (element.position.1 as i32),
            );
            Some(
                (
                    elements_at_spec(elements, nx, ny).filter(
                        |k: int| candidate_ok(element, elements, dir, k),
                    ),
                    dir,
                ),
            )
        },
    }
}

/// The first half of deciding whether to draw an element: finds the tile
/// across its edge, the direction of that tile, and the elements there that
/// it could coincide with.  The element is drawn when there is no such tile,
/// or when none of these candidates lines up with it.
pub fn match_candidates(
    element: &GridElement,
    grid_width: u32,
    grid_height: u32,
    elements: &NameMap<GridElement>,
) -> (r: Option<(Vec<usize>, Option<&'static str>)>)
    requires
        elements.wf(),
        element.position.0 < i32::MAX,
        element.position.1 < i32::MAX,
        neighbor_coords_defined(
            element.position.0,
            element.position.1,
            element.edge_type,
            grid_width,
            grid_height,
        ),
    ensures
        match r {
            None => match_candidates_spec(*element, grid_width, grid_height, elements.val_seq()) is None,
            Some((ks, d)) => match_candidates_spec(*element, grid_width, grid_height, elements.val_seq())
                == Some((ks@.map_values(|i: usize| i as int), opt_str_view(d))),
        },
{
    let (x, y) = element.position;
    match get_neighbor_coords(x, y, element.edge_type, grid_width, grid_height) {
        None => None,
        Some((nx, ny)) => {
            let here = get_elements_at(elements, nx, ny);
            proof {
                elements.lemma_wf_facts();
                lemma_elements_at_bounds(elements.val_seq(), nx, ny);
            }
            let direction = get_neighbor_direction(x, y, nx, ny);
            let expected = opposite_edge(element.edge_type);
            let ghost all = here@.map_values(|i: usize| i as int);
            let ghost dir = opt_str_view(direction);
            let ghost pred = |k: int| candidate_ok(*element, elements.val_seq(), dir, k);
            let mut out: Vec<usize> = Vec::new();
            let mut j: usize = 0;
            while j < here.len()
                invariant
                    j <= here@.len(),
                    elements.wf(),
                    elements.key_seq().len() == elements.val_seq().len(),
                    all == here@.map_values(|i: usize| i as int),
                    all == elements_at_spec(elements.val_seq(), nx, ny),
                    forall|t: int| 0 <= t < all.len() ==> 0 <= #[trigger] all[t] < elements.val_seq().len(),
                    expected == opposite_spec(element.edge_type),
                    dir == opt_str_view(direction),
                    pred == (|k: int| candidate_ok(*element, elements.val_seq(), dir, k)),
                    out@.map_values(|i: usize| i as int) == all.subrange(0, j as int).filter(pred),
                decreases here@.len() - j,
            {
                let k = here[j];
                assert(all[j as int] == k as int);
                let ghost before = out@;
                assert(all.subrange(0, j + 1).drop_last() =~= all.subrange(0, j as int));
                reveal_with_fuel(Seq::<_>::filter, 1);
                let candidate = elements.value_at(k);
                let keep = candidate.edge_type == expected && edge_types_match(
                    element.edge_type,
                    candidate.edge_type,
                    direction,
                );
                assert(keep == pred(k as int));
                assert(all.subrange(0, j + 1).last() == k as int);
                if keep {
                    out.push(k);
                    assert(out@.map_values(|i: usize| i as int) =~= before.map_values(
                        |i: usize| i as int,
                    ).push(k as int));
                }
                j = j + 1;
            }
            assert(all.subrange(0, j as int) =~= all);
            Some((out, direction))
        },
    }
}

/// A grid element as plain values: base id, tile, base position, edge.
pub type ElementView = (Seq<char>, (u32, u32), usize, EdgeType);

pub open spec fn element_view(e: GridElement) -> ElementView {
    (e.id@, e.position, e.path, e.edge_type)
}

/// A base element as the grid sees it: its id and the edge it lies on.
pub struct BaseElement {
    pub id: String,
    pub edge_type: EdgeType,
}

pub open spec fn base_view(b: BaseElement) -> (Seq<char>, EdgeType) {
    (b.id@, b.edge_type)
}

/// The entries that tile (`x`, `y`) adds: one per base element, in order,
/// keyed by its segment id.
pub open spec fn tile_entries(x: u32, y: u32, base: Seq<(Seq<char>, EdgeType)>) -> Seq<(Seq<char>, ElementView)> {
    Seq::new(
        base.len(),
        |j: int| (segment_id_spec(x, y, base[j].0), (base[j].0, (x, y), j as usize, base[j].1)),
    )
}

/// The entries of the first `upto` tiles of row `y`.
pub open spec fn row_entries(y: u32, upto: u32, base: Seq<(Seq<char>, EdgeType)>) -> Seq<(Seq<char>, ElementView)>
    decreases upto,
{
    if upto == 0 {
        Seq::empty()
    } else {
        row_entries(y, (upto - 1) as u32, base) + tile_entries(upto, y, base)
    }
}

/// The entries of the first `upto` rows of a grid `width` tiles wide.
pub open spec fn grid_entries(upto: u32, width: u32, base: Seq<(Seq<char>, EdgeType)>) -> Seq<(Seq<char>, ElementView)>
    decreases upto,
{
    if upto == 0 {
        Seq::empty()
    } else {
        grid_entries((upto - 1) as u32, width, base) + row_entries(upto, width, base)
    }
}

/// The map that inserting `entries` into `m`, one after another, gives.
pub open spec fn insert_all(m: Map<Seq<char>, ElementView>, entries: Seq<(Seq<char>, ElementView)>) -> Map<
    Seq<char>,
    ElementView,
>
    decreases entries.len(),
{
    if entries.len() == 0 {
        m
    } else {
        insert_all(m, entries.drop_last()).insert(entries.last().0, entries.last().1)
    }
}

/// A grid: its elements by segment id, and its size in tiles.
pub struct Grid {
    pub elements: NameMap<GridElement>,
    pub width: u32,
    pub height: u32,
}

impl Grid {
    pub open spec fn wf(&self) -> bool {
        self.elements.wf()
    }

    /// The elements by segment id, as plain values.
    pub open spec fn elements_view(&self) -> Map<Seq<char>, ElementView> {
        self.elements.view().map_values(|e: GridElement| element_view(e))
    }

    /// The grid of `grid_x` by `grid_y` tiles, each holding a copy of every
    /// base element.  Tiles are numbered from 1; element `j` of tile (x, y)
    /// is filed under the segment id "x,y : id", so that, should two base
    /// elements share an id, the later one stays.
    pub fn new(grid_x: u32, grid_y: u32, base: &Vec<BaseElement>) -> (r: Self)
        ensures
            r.wf(),
            r.width == grid_x,
            r.height == grid_y,
            r.elements_view() == insert_all(
                Map::empty(),
                grid_entries(grid_y, grid_x, base@.map_values(|b: BaseElement| base_view(b))),
            ),
    {
        let ghost bv = base@.map_values(|b: BaseElement| base_view(b));
        let mut elements: NameMap<GridElement> = NameMap::new();
        let ghost mut done: Seq<(Seq<char>, ElementView)> = Seq::empty();
        proof {
            assert(elements.view().map_values(|e: GridElement| element_view(e)) =~= insert_all(Map::empty(), done));
        }
        let mut y: u32 = 0;
        while y < grid_y
            invariant
                elements.wf(),
                bv == base@.map_values(|b: BaseElement| base_view(b)),
                y <= grid_y,
                done == grid_entries(y, grid_x, bv),
                elements.view().map_values(|e: GridElement| element_view(e)) == insert_all(Map::empty(), done),
            decreases grid_y - y,
        {
            y = y + 1;
            let ghost row_start = done;
            let mut x: u32 = 0;
            while x < grid_x
                invariant
                    elements.wf(),
                    bv == base@.map_values(|b: BaseElement| base_view(b)),
                    1 <= y <= grid_y,
                    x <= grid_x,
                    row_start == grid_entries((y - 1) as u32, grid_x, bv),
                    done == row_start + row_entries(y, x, bv),
                    elements.view().map_values(|e: GridElement| element_view(e)) == insert_all(Map::empty(), done),
                decreases grid_x - x,
            {
                x = x + 1;
                let ghost tile_start = done;
                let mut j: usize = 0;
                while j < base.len()
                    invariant
                        elements.wf(),
                        bv == base@.map_values(|b: BaseElement| base_view(b)),
                        1 <= y,
                        1 <= x,
                        j <= base@.len(),
                        tile_start == row_start + row_entries(y, (x - 1) as u32, bv),
                        done == tile_start + tile_entries(x, y, bv).take(j as int),
                        elements.view().map_values(|e: GridElement| element_view(e)) == insert_all(
                            Map::empty(),
                            done,
                        ),
                    decreases base@.len() - j,
                {
                    let b = &base[j];
                    let key = segment_id(x, y, b.id.as_str());
                    let element = GridElement { id: b.id.clone(), position: (x, y), path: j, edge_type: b.edge_type };
                    let ghost entry = (key@, element_view(element));
                    assert(entry == tile_entries(x, y, bv)[j as int]);
                    let ghost old_view = elements.view();
                    elements.insert(key, element);
                    proof {
                        assert(insert_all(Map::empty(), done.push(entry)) == insert_all(Map::empty(), done).insert(
                            entry.0,
                            entry.1,
                        )) by {
                            assert(done.push(entry).drop_last() =~= done);
                        }
                        assert(elements.view().map_values(|e: GridElement| element_view(e)) =~= old_view.map_values(
                            |e: GridElement| element_view(e),
                        ).insert(entry.0, entry.1));
                        assert(tile_entries(x, y, bv).take(j + 1) =~= tile_entries(x, y, bv).take(j as int).push(entry));
                        done = done.push(entry);
                        assert(done =~= tile_start + tile_entries(x, y, bv).take(j + 1));
                    }
                    j = j + 1;
                }
                proof {
                    assert(tile_entries(x, y, bv).take(j as int) =~= tile_entries(x, y, bv));
                    assert(row_entries(y, x, bv) == row_entries(y, (x - 1) as u32, bv) + tile_entries(x, y, bv));
                    assert(done =~= row_start + row_entries(y, x, bv));
                }
            }
            proof {
                assert(grid_entries(y, grid_x, bv) == grid_entries((y - 1) as u32, grid_x, bv) + row_entries(y, grid_x, bv));
            }
        }
        Grid { elements, width: grid_x, height: grid_y }
    }

    /// The elements on tile (`x`, `y`), by their positions in `elements`.
    pub fn get_elements_at(&self, x: u32, y: u32) -> (r: Vec<usize>)
        requires
            self.wf(),
        ensures
            r@.map_values(|i: usize| i as int) == elements_at_spec(self.elements.val_seq(), x, y),
    {
        get_elements_at(&self.elements, x, y)
    }
}

} // verus!
