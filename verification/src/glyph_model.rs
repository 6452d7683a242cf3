//! Stepping through the project's glyphs in name order, and choosing the
//! grid elements to draw for the current glyph.

use vstd::prelude::*;
use crate::grid::{Grid, elements_at_spec};
use crate::order::{sort_strings, sorted, strings_view};
use crate::project::{Project, segment_set, segments_of};
use crate::segment::Glyph;
use crate::segment_set::SegmentSet;

verus! {

/// The glyphs of a project, by name in string order, and the one shown.
pub struct GlyphModel {
    glyph_names: Vec<String>,
    current_glyph_index: usize,
}

impl GlyphModel {
    /// The glyph names, in order.
    pub closed spec fn names(&self) -> Seq<Seq<char>> {
        strings_view(self.glyph_names@)
    }

    /// The position of the current glyph among them.
    pub closed spec fn current(&self) -> nat {
        self.current_glyph_index as nat
    }

    pub closed spec fn wf(&self) -> bool {
        self.names().len() == 0 || self.current() < self.names().len()
    }

    /// The model of `project`: its glyph names sorted, the first current.
    pub fn new(project: &Project) -> (r: Self)
        requires
            project.wf(),
        ensures
            r.wf(),
            r.current() == 0,
            sorted(r.names()),
            r.names().to_multiset() == project.glyphs.key_seq().to_multiset(),
    {
        let mut glyph_names: Vec<String> = Vec::new();
        let n = project.glyphs.len();
        let mut i: usize = 0;
        while i < n
            invariant
                project.wf(),
                n == project.glyphs.key_seq().len(),
                i <= n,
                strings_view(glyph_names@) == project.glyphs.key_seq().subrange(0, i as int),
            decreases n - i,
        {
            let ghost before = strings_view(glyph_names@);
            glyph_names.push(project.glyphs.key_at(i).clone());
            assert(strings_view(glyph_names@) =~= before.push(project.glyphs.key_seq()[i as int]));
            assert(project.glyphs.key_seq().subrange(0, i + 1) =~= project.glyphs.key_seq().subrange(0, i as int).push(
                project.glyphs.key_seq()[i as int],
            ));
            i = i + 1;
        }
        assert(project.glyphs.key_seq().subrange(0, n as int) =~= project.glyphs.key_seq());
        sort_strings(&mut glyph_names);
        GlyphModel { glyph_names, current_glyph_index: 0 }
    }

    /// The number of glyphs stepped through.
    pub fn glyph_count(&self) -> (r: usize)
        ensures
            r == self.names().len(),
    {
        self.glyph_names.len()
    }

    /// Moves to the next glyph, from the last back to the first.
    pub fn next_glyph(&mut self)
        requires
            old(self).wf(),
            old(self).names().len() > 0,
        ensures
            final(self).wf(),
            final(self).names() == old(self).names(),
            final(self).current() == (old(self).current() + 1) % old(self).names().len(),
    {
        let n = self.glyph_names.len();
        self.current_glyph_index = (self.current_glyph_index + 1) % n;
    }

    /// The current glyph of `project`, if the project has a glyph of that
    /// name.
    pub fn get_current_glyph<'a>(&self, project: &'a Project) -> (r: Option<&'a Glyph>)
        requires
            self.wf(),
            self.names().len() > 0,
            project.wf(),
        ensures
            match r {
                Some(g) => project.glyphs.view().dom().contains(self.names()[self.current() as int])
                    && *g == project.glyphs.view()[self.names()[self.current() as int]],
                None => !project.glyphs.view().dom().contains(self.names()[self.current() as int]),
            },
    {
        let name = &self.glyph_names[self.current_glyph_index];
        project.get_glyph(name.as_str())
    }

    /// The segments of the current glyph; none when the project lacks it.
    pub fn get_active_segments(&self, project: &Project) -> (r: SegmentSet)
        requires
            self.wf(),
            self.names().len() > 0,
            project.wf(),
        ensures
            r.wf(),
            r@ == if project.glyphs.view().dom().contains(self.names()[self.current() as int]) {
                segment_set(project.glyphs.view()[self.names()[self.current() as int]])
            } else {
                Set::<Seq<char>>::empty()
            },
    {
        match self.get_current_glyph(project) {
            Some(glyph) => segments_of(glyph),
            None => SegmentSet::new(),
        }
    }
}

/// The elements of tile (`x`, `y`) to draw: those whose segment id is lit,
/// or, for the background, those whose id is not.
pub open spec fn tile_pick(grid: Grid, x: u32, y: u32, active: Set<Seq<char>>, background: bool) -> Seq<int> {
    elements_at_spec(grid.elements.val_seq(), x, y).filter(
        |k: int| active.contains(grid.elements.key_seq()[k]) != background,
    )
}

/// The picks of the first `upto` tiles of row `y`.
pub open spec fn row_pick(grid: Grid, y: u32, upto: u32, active: Set<Seq<char>>, background: bool) -> Seq<int>
    decreases upto,
{
    if upto == 0 {
        Seq::empty()
    } else {
        row_pick(grid, y, (upto - 1) as u32, active, background) + tile_pick(grid, upto, y, active, background)
    }
}

/// The picks of the first `upto` rows, tile by tile, row after row.
pub open spec fn grid_pick(grid: Grid, upto: u32, active: Set<Seq<char>>, background: bool) -> Seq<int>
    decreases upto,
{
    if upto == 0 {
        Seq::empty()
    } else {
        grid_pick(grid, (upto - 1) as u32, active, background) + row_pick(grid, upto, grid.width, active, background)
    }
}

impl GlyphModel {
    /// The elements of `grid` to draw for the current glyph, tile by tile
    /// (rows from 1, and within a row columns from 1), by their positions in
    /// the grid: the lit ones, or with `bg_flag` the unlit ones.  Their
    /// styles are the renderer's business.
    pub fn get_renderable_segments(&self, project: &Project, grid: &Grid, bg_flag: bool) -> (r: Vec<usize>)
        requires
            self.wf(),
            self.names().len() > 0,
            project.wf(),
            grid.wf(),
        ensures
            r@.map_values(|i: usize| i as int) == grid_pick(
                *grid,
                grid.height,
                if project.glyphs.view().dom().contains(self.names()[self.current() as int]) {
                    segment_set(project.glyphs.view()[self.names()[self.current() as int]])
                } else {
                    Set::<Seq<char>>::empty()
                },
                bg_flag,
            ),
    {
        let active = self.get_active_segments(project);
        let ghost act = active@;
        proof {
            grid.elements.lemma_wf_facts();
        }
        let mut out: Vec<usize> = Vec::new();
        let mut y: u32 = 0;
        while y < grid.height
            invariant
                grid.wf(),
                grid.elements.key_seq().len() == grid.elements.val_seq().len(),
                act == active@,
                y <= grid.height,
                out@.map_values(|i: usize| i as int) == grid_pick(*grid, y, act, bg_flag),
            decreases grid.height - y,
        {
            y = y + 1;
            let ghost row_start = out@.map_values(|i: usize| i as int);
            let mut x: u32 = 0;
            while x < grid.width
                invariant
                    grid.wf(),
                    grid.elements.key_seq().len() == grid.elements.val_seq().len(),
                    act == active@,
                    1 <= y <= grid.height,
                    x <= grid.width,
                    row_start == grid_pick(*grid, (y - 1) as u32, act, bg_flag),
                    out@.map_values(|i: usize| i as int) == row_start + row_pick(*grid, y, x, act, bg_flag),
                decreases grid.width - x,
            {
                x = x + 1;
                let here = grid.get_elements_at(x, y);
                let ghost all = here@.map_values(|i: usize| i as int);
                let ghost tile_start = out@.map_values(|i: usize| i as int);
                proof {
                    crate::grid::lemma_elements_at_bounds(grid.elements.val_seq(), x, y);
                }
                let ghost pred = |k: int| act.contains(grid.elements.key_seq()[k]) != bg_flag;
                let mut j: usize = 0;
                while j < here.len()
                    invariant
                        grid.wf(),
                        grid.elements.key_seq().len() == grid.elements.val_seq().len(),
                        act == active@,
                        all == here@.map_values(|i: usize| i as int),
                        all == elements_at_spec(grid.elements.val_seq(), x, y),
                        forall|t: int| 0 <= t < all.len() ==> 0 <= #[trigger] all[t] < grid.elements.val_seq().len(),
                        pred == (|k: int| act.contains(grid.elements.key_seq()[k]) != bg_flag),
                        j <= all.len(),
                        out@.map_values(|i: usize| i as int) == tile_start + all.subrange(0, j as int).filter(pred),
                    decreases all.len() - j,
                {
                    let k = here[j];
                    assert(all[j as int] == k as int);
                    let ghost before = out@.map_values(|i: usize| i as int);
                    proof {
                        assert(all.subrange(0, j + 1).drop_last() =~= all.subrange(0, j as int));
                        assert(all.subrange(0, j + 1).last() == k as int);
                        reveal(Seq::filter);
                    }
                    let key = grid.elements.key_at(k);
                    let lit = active.contains(key.as_str());
                    if lit != bg_flag {
                        out.push(k);
                        assert(out@.map_values(|i: usize| i as int) =~= before.push(k as int));
                        assert(tile_start + all.subrange(0, j + 1).filter(pred) =~= (tile_start + all.subrange(
                            0,
                            j as int,
                        ).filter(pred)).push(k as int));
                    } else {
                        assert(all.subrange(0, j + 1).filter(pred) == all.subrange(0, j as int).filter(pred));
                    }
                    j = j + 1;
                }
                proof {
                    assert(all.subrange(0, j as int) =~= all);
                    assert(tile_pick(*grid, x, y, act, bg_flag) == all.filter(pred));
                    assert(row_pick(*grid, y, x, act, bg_flag) == row_pick(*grid, y, (x - 1) as u32, act, bg_flag)
                        + tile_pick(*grid, x, y, act, bg_flag));
                    assert(out@.map_values(|i: usize| i as int) =~= row_start + row_pick(*grid, y, x, act, bg_flag));
                }
            }
            proof {
                assert(grid_pick(*grid, y, act, bg_flag) == grid_pick(*grid, (y - 1) as u32, act, bg_flag) + row_pick(
                    *grid,
                    y,
                    grid.width,
                    act,
                    bg_flag,
                ));
            }
        }
        out
    }
}

} // verus!
