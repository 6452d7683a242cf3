//! The project: the base tile, the grid size, the glyphs and the shows.  A
//! show orders glyphs; the glyph controller turns a position in a show into
//! the set of segments to light.

use vstd::prelude::*;
use crate::segment_set::SegmentSet;
use crate::name_map::NameMap;
use crate::segment::Glyph;
use crate::text::{decimal, decimal_string};

verus! {

/// One entry of a show's order.
pub struct ShowElement {
    pub name: String,
    pub element_type: String,
    pub position: u32,
}

/// A show: glyphs keyed by their place in the show, written in decimal.
pub struct Show {
    pub name: String,
    pub show_order: NameMap<ShowElement>,
}

/// A project as loaded from its JSON file.
pub struct Project {
    pub svg_base_tile: String,
    pub grid_x: u32,
    pub grid_y: u32,
    pub glyphs: NameMap<Glyph>,
    pub shows: NameMap<Show>,
}

impl Project {
    pub open spec fn wf(&self) -> bool {
        &&& self.glyphs.wf()
        &&& self.shows.wf()
        &&& forall|k: Seq<char>| #[trigger]
            self.shows.view().dom().contains(k) ==> self.shows.view()[k].show_order.wf()
    }

    /// The glyph called `name`.
    pub fn get_glyph(&self, name: &str) -> (r: Option<&Glyph>)
        requires
            self.wf(),
        ensures
            match r {
                Some(g) => self.glyphs.view().dom().contains(name@) && *g == self.glyphs.view()[name@],
                None => !self.glyphs.view().dom().contains(name@),
            },
    {
        self.glyphs.get(name)
    }

    /// The show called `name`.
    pub fn get_show(&self, name: &str) -> (r: Option<&Show>)
        requires
            self.wf(),
        ensures
            match r {
                Some(s) => self.shows.view().dom().contains(name@) && *s == self.shows.view()[name@],
                None => !self.shows.view().dom().contains(name@),
            },
    {
        self.shows.get(name)
    }
}

/// The names of a glyph's segments, as a set.
pub open spec fn segment_set(g: Glyph) -> Set<Seq<char>> {
    g.segments@.map_values(|s: String| s@).to_set()
}

/// The segments lit by entry `index` of show `show_name`: those of the glyph
/// the entry names; none when the show, the entry or the glyph is missing.
pub open spec fn glyph_segments_by_index_spec(project: Project, show_name: Seq<char>, index: usize) -> Set<
    Seq<char>,
> {
    let shows = project.shows.view();
    if !shows.dom().contains(show_name) {
        Set::empty()
    } else {
        let order = shows[show_name].show_order.view();
        let key = decimal(index as nat);
        if !order.dom().contains(key) {
            Set::empty()
        } else {
            let glyph_name = order[key].name@;
            if project.glyphs.view().dom().contains(glyph_name) {
                segment_set(project.glyphs.view()[glyph_name])
            } else {
                Set::empty()
            }
        }
    }
}

/// Turns positions in a show into the segments to light.
pub struct GlyphController {}

impl GlyphController {
    pub fn new() -> (r: Self) {
        GlyphController {  }
    }

    /// The empty set of segments: no glyph.
    pub fn no_glyph(&self) -> (r: SegmentSet)
        ensures
            r.wf(),
            r@ == Set::<Seq<char>>::empty(),
    {
        SegmentSet::new()
    }

    /// The show called `show_name`.
    pub fn get_show<'a>(&self, project: &'a Project, show_name: &str) -> (r: Option<&'a Show>)
        requires
            project.wf(),
        ensures
            match r {
                Some(s) => project.shows.view().dom().contains(show_name@) && *s
                    == project.shows.view()[show_name@],
                None => !project.shows.view().dom().contains(show_name@),
            },
    {
        project.get_show(show_name)
    }

    /// The glyph called `name`.
    pub fn get_glyph<'a>(&self, project: &'a Project, name: &str) -> (r: Option<&'a Glyph>)
        requires
            project.wf(),
        ensures
            match r {
                Some(g) => project.glyphs.view().dom().contains(name@) && *g
                    == project.glyphs.view()[name@],
                None => !project.glyphs.view().dom().contains(name@),
            },
    {
        project.get_glyph(name)
    }

    /// The segments of the glyph at place `index` of show `show_name`.
    pub fn get_glyph_segments_by_index(&self, project: &Project, show_name: &str, index: usize) -> (r:
        SegmentSet)
        requires
            project.wf(),
        ensures
            r.wf(),
            r@ == glyph_segments_by_index_spec(*project, show_name@, index),
    {
        match self.get_show(project, show_name) {
            Some(show) => {
                let key = decimal_string(index as u64);
                match show.show_order.get(key.as_str()) {
                    Some(show_element) => {
                        match self.get_glyph(project, show_element.name.as_str()) {
                            Some(glyph) => segments_of(glyph),
                            None => self.no_glyph(),
                        }
                    },
                    None => self.no_glyph(),
                }
            },
            None => self.no_glyph(),
        }
    }
}

/// The set of a glyph's segment names.
pub fn segments_of(glyph: &Glyph) -> (r: SegmentSet)
    ensures
        r.wf(),
        r@ == segment_set(*glyph),
{
    let ghost names = glyph.segments@.map_values(|s: String| s@);
    let mut set = SegmentSet::new();
    let mut i: usize = 0;
    while i < glyph.segments.len()
        invariant
            i <= glyph.segments@.len(),
            names == glyph.segments@.map_values(|s: String| s@),
            set.wf(),
            set@ == names.subrange(0, i as int).to_set(),
        decreases glyph.segments@.len() - i,
    {
        assert(names.subrange(0, i + 1) =~= names.subrange(0, i as int) + seq![names[i as int]]);
        proof {
            Seq::lemma_to_set_insert_commutes(names.subrange(0, i as int), names[i as int]);
        }
        set.insert(glyph.segments[i].clone());
        i = i + 1;
    }
    assert(names.subrange(0, i as int) =~= names);
    set
}

} // verus!
