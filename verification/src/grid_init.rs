//! Grid building as the cached grid does it: tiles are numbered from 1,
//! only the four straight edges have a neighbour, and the viewBox numbers are
//! separated by any whitespace.

use vstd::prelude::*;
use crate::grid::{EdgeType, PathKind, AlignmentRule, alignment_rule, alignment_rule_spec, opt_str_view};
use crate::text::{is_ws, is_whitespace};

verus! {

/// The tile across a straight edge of (`x`, `y`) on a `width` by `height`
/// grid numbered from 1; corners and elements off the edges have none.
pub open spec fn tile_neighbor_spec(x: u32, y: u32, edge: EdgeType, width: u32, height: u32) -> Option<(u32, u32)> {
    match edge {
        EdgeType::North => if y > 1 { Some((x, (y - 1) as u32)) } else { None },
        EdgeType::South => if y < height { Some((x, (y + 1) as u32)) } else { None },
        EdgeType::East => if x < width { Some(((x + 1) as u32, y)) } else { None },
        EdgeType::West => if x > 1 { Some(((x - 1) as u32, y)) } else { None },
        _ => None,
    }
}

/// The tile across the straight edge `edge_type` of (`x`, `y`), on a grid
/// numbered from 1.
pub fn get_neighbor_coords(x: u32, y: u32, edge_type: EdgeType, width: u32, height: u32) -> (r: Option<(u32, u32)>)
    ensures
        r == tile_neighbor_spec(x, y, edge_type, width, height),
{
    match edge_type {
        EdgeType::North => {
            if y > 1 {
                Some((x, y - 1))
            } else {
                None
            }
        },
        EdgeType::South => {
            if y < height {
                Some((x, y + 1))
            } else {
                None
            }
        },
        EdgeType::East => {
            if x < width {
                Some((x + 1, y))
            } else {
                None
            }
        },
        EdgeType::West => {
            if x > 1 {
                Some((x - 1, y))
            } else {
                None
            }
        },
        _ => None,
    }
}

/// The name of a straight step, as this module's `get_neighbor_direction`
/// reports it.
pub open spec fn straight_direction(dx: int, dy: int) -> Option<Seq<char>> {
    if dx == 0 && dy == -1 {
        Some("North"@)
    } else if dx == 0 && dy == 1 {
        Some("South"@)
    } else if dx == 1 && dy == 0 {
        Some("East"@)
    } else if dx == -1 && dy == 0 {
        Some("West"@)
    } else {
        None
    }
}

/// The direction of (`neighbor_x`, `neighbor_y`) from (`x`, `y`) when it
/// is one straight step away; `None` otherwise, diagonals included.  The
/// coordinates are compared after conversion to `i32`.
pub fn get_neighbor_direction(x: u32, y: u32, neighbor_x: u32, neighbor_y: u32) -> (r: Option<&'static str>)
    requires
        i32::MIN <= (neighbor_x as i32) - (x as i32) <= i32::MAX,
        i32::MIN <= (neighbor_y as i32) - (y as i32) <= i32::MAX,
    ensures
        opt_str_view(r) == straight_direction((neighbor_x as i32) - (x as i32), (neighbor_y as i32) - (y as i32)),
{
    let dx: i32 = neighbor_x as i32 - x as i32;
    let dy: i32 = neighbor_y as i32 - y as i32;
    if dx == 0 && dy == -1 {
        Some("North")
    } else if dx == 0 && dy == 1 {
        Some("South")
    } else if dx == 1 && dy == 0 {
        Some("East")
    } else if dx == -1 && dy == 0 {
        Some("West")
    } else {
        None
    }
}

/// The alignment check between two cached segments, up to comparing
/// coordinates: the same rule as for grid elements.
pub fn check_segment_alignment(
    kind1: PathKind,
    edge1: EdgeType,
    kind2: PathKind,
    edge2: EdgeType,
    direction: Option<&str>,
) -> (r: AlignmentRule)
    ensures
        r == alignment_rule_spec(kind1, edge1, kind2, edge2, opt_str_view(direction)),
{
    alignment_rule(kind1, edge1, kind2, edge2, direction)
}

/// The words of `s`: its maximal runs of non-whitespace characters, in
/// order, as `str::split_whitespace` gives them; `cur` is the word being
/// collected.
pub open spec fn words_from(s: Seq<char>, cur: Seq<char>) -> Seq<Seq<char>>
    decreases s.len(),
{
    if s.len() == 0 {
        if cur.len() == 0 {
            Seq::empty()
        } else {
            seq![cur]
        }
    } else if is_ws(s[0]) {
        if cur.len() == 0 {
            words_from(s.drop_first(), cur)
        } else {
            seq![cur] + words_from(s.drop_first(), Seq::empty())
        }
    } else {
        words_from(s.drop_first(), cur.push(s[0]))
    }
}

pub open spec fn words(s: Seq<char>) -> Seq<Seq<char>> {
    words_from(s, Seq::empty())
}

/// The numbers of a `viewBox` attribute, as the texts between runs of
/// whitespace.
pub fn viewbox_words(viewbox: &str) -> (r: Vec<String>)
    ensures
        r@.map_values(|w: String| w@) == words(viewbox@),
{
    let n = viewbox.unicode_len();
    let mut out: Vec<String> = Vec::new();
    let mut start: usize = 0;
    let mut i: usize = 0;
    assert(viewbox@.subrange(0, 0) =~= Seq::<char>::empty());
    assert(viewbox@.subrange(0, n as int) =~= viewbox@);
    while i < n
        invariant
            n == viewbox@.len(),
            start <= i <= n,
            words(viewbox@) == out@.map_values(|w: String| w@) + words_from(
                viewbox@.subrange(i as int, n as int),
                viewbox@.subrange(start as int, i as int),
            ),
        decreases n - i,
    {
        let c = viewbox.get_char(i);
        let ghost rest = viewbox@.subrange(i as int, n as int);
        let ghost cur = viewbox@.subrange(start as int, i as int);
        assert(rest[0] == c);
        assert(rest.drop_first() =~= viewbox@.subrange(i + 1, n as int));
        if is_whitespace(c) {
            if start == i {
                assert(cur =~= Seq::<char>::empty());
                assert(words_from(rest, cur) == words_from(rest.drop_first(), cur));
            }
            if start < i {
                assert(cur.len() > 0);
                assert(words_from(rest, cur) == seq![cur] + words_from(rest.drop_first(), Seq::empty()));
                let word = String::from_str(viewbox.substring_char(start, i));
                let ghost before = out@.map_values(|w: String| w@);
                out.push(word);
                assert(out@.map_values(|w: String| w@) =~= before.push(cur));
                assert(before + (seq![cur] + words_from(rest.drop_first(), Seq::empty())) =~= before.push(cur)
                    + words_from(rest.drop_first(), Seq::empty()));
            }
            i = i + 1;
            start = i;
            assert(viewbox@.subrange(start as int, i as int) =~= Seq::<char>::empty());
        } else {
            assert(cur.push(c) =~= viewbox@.subrange(start as int, i + 1));
            assert(words_from(rest, cur) == words_from(rest.drop_first(), cur.push(c)));
            i = i + 1;
        }
    }
    let ghost cur = viewbox@.subrange(start as int, n as int);
    assert(viewbox@.subrange(n as int, n as int) =~= Seq::<char>::empty());
    if start < n {
        let word = String::from_str(viewbox.substring_char(start, n));
        let ghost before = out@.map_values(|w: String| w@);
        out.push(word);
        assert(out@.map_values(|w: String| w@) =~= before.push(cur));
        assert(before + seq![cur] =~= before.push(cur));
    } else {
        assert(out@.map_values(|w: String| w@) + Seq::<Seq<char>>::empty() =~= out@.map_values(|w: String| w@));
    }
    out
}

} // verus!
