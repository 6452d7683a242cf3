//! Segment identifiers: a grid segment is named `"col,row : type"`, where
//! `col` and `row` are the tile's grid coordinates and `type` names the
//! element of the base tile.  Glyphs list the segments they light up by
//! these names.

use vstd::prelude::*;
use crate::text::{
    decimal, decimal_string, is_digit, is_trimmed, lacks, lemma_decimal, lemma_parse_decimal,
    lemma_trim_of_trimmed, occurs_at, parse_u32, parse_u32_spec, split, split_from, split_str, trim,
    trim_str,
};

verus! {

/// The separator between the coordinates and the segment type.
pub open spec fn type_sep() -> Seq<char> {
    seq![' ', ':', ' ']
}

/// The separator between the column and the row.
pub open spec fn coord_sep() -> Seq<char> {
    seq![',']
}

/// What `Glyph::parse_segment` gives for a segment name.
pub open spec fn parse_segment_spec(s: Seq<char>) -> Option<(u32, u32, Seq<char>)> {
    let parts = split(s, type_sep());
    if parts.len() != 2 {
        None
    } else {
        let coords = split(parts[0], coord_sep());
        if coords.len() != 2 {
            None
        } else {
            match (parse_u32_spec(trim(coords[0])), parse_u32_spec(trim(coords[1]))) {
                (Some(col), Some(row)) => Some((col, row, trim(parts[1]))),
                _ => None,
            }
        }
    }
}

/// The name of the segment of type `id` on the tile at (`col`, `row`).
pub open spec fn segment_id_spec(col: u32, row: u32, id: Seq<char>) -> Seq<char> {
    decimal(col as nat) + coord_sep() + decimal(row as nat) + type_sep() + id
}

/// The view of an optional parsed segment.
pub open spec fn parsed_view(p: Option<(u32, u32, String)>) -> Option<(u32, u32, Seq<char>)> {
    match p {
        Some((c, r, t)) => Some((c, r, t@)),
        None => None,
    }
}

/// A glyph: a name and the names of the segments it lights up.
pub struct Glyph {
    pub name: String,
    pub segments: Vec<String>,
}

/// The parsed segments of a glyph: every segment name that parses, in order.
pub open spec fn parsed_segments_spec(names: Seq<Seq<char>>) -> Seq<(u32, u32, Seq<char>)>
    decreases names.len(),
{
    if names.len() == 0 {
        Seq::empty()
    } else {
        let rest = parsed_segments_spec(names.drop_last());
        match parse_segment_spec(names.last()) {
            Some(p) => rest.push(p),
            None => rest,
        }
    }
}

impl Glyph {
    /// Parses a segment name `"col, row : segment_type"` into its parts.
    /// Both separators must appear exactly once; the coordinates and the
    /// type are trimmed.
    pub fn parse_segment(segment: &str) -> (r: Option<(u32, u32, String)>)
        ensures
            parsed_view(r) == parse_segment_spec(segment@),
    {
        proof {
            reveal_strlit(" : ");
            reveal_strlit(",");
        }
        assert(" : "@ =~= type_sep());
        assert(","@ =~= coord_sep());
        let parts = split_str(segment, " : ");
        assert(parts@.map_values(|p: String| p@).len() == parts@.len());
        if parts.len() != 2 {
            return None;
        }
        assert(parts@.map_values(|p: String| p@)[0] == parts@[0]@);
        assert(parts@.map_values(|p: String| p@)[1] == parts@[1]@);
        let coords = split_str(parts[0].as_str(), ",");
        assert(coords@.map_values(|p: String| p@).len() == coords@.len());
        if coords.len() != 2 {
            return None;
        }
        assert(coords@.map_values(|p: String| p@)[0] == coords@[0]@);
        assert(coords@.map_values(|p: String| p@)[1] == coords@[1]@);
        let col_text = trim_str(coords[0].as_str());
        let col = parse_u32(col_text.as_str());
        let row_text = trim_str(coords[1].as_str());
        let row = parse_u32(row_text.as_str());
        match (col, row) {
            (Some(c), Some(r)) => Some((c, r, trim_str(parts[1].as_str()))),
            _ => None,
        }
    }

    /// The segments of this glyph that parse, in the order they are listed.
    pub fn get_parsed_segments(&self) -> (r: Vec<(u32, u32, String)>)
        ensures
            r@.map_values(|p: (u32, u32, String)| (p.0, p.1, p.2@)) == parsed_segments_spec(
                self.segments@.map_values(|s: String| s@),
            ),
    {
        let mut out: Vec<(u32, u32, String)> = Vec::new();
        let mut i: usize = 0;
        let ghost names = self.segments@.map_values(|s: String| s@);
        while i < self.segments.len()
            invariant
                i <= self.segments.len(),
                names == self.segments@.map_values(|s: String| s@),
                out@.map_values(|p: (u32, u32, String)| (p.0, p.1, p.2@)) == parsed_segments_spec(
                    names.subrange(0, i as int),
                ),
            decreases self.segments.len() - i,
        {
            assert(names.subrange(0, i + 1).drop_last() =~= names.subrange(0, i as int));
            assert(names[i as int] == self.segments@[i as int]@);
            let parsed = Glyph::parse_segment(self.segments[i].as_str());
            match parsed {
                Some(p) => {
                    let ghost before = out@;
                    out.push(p);
                    assert(out@.map_values(|p: (u32, u32, String)| (p.0, p.1, p.2@)) =~= before.map_values(
                        |p: (u32, u32, String)| (p.0, p.1, p.2@),
                    ).push((p.0, p.1, p.2@)));
                },
                None => {},
            }
            i = i + 1;
        }
        assert(names.subrange(0, i as int) =~= names);
        out
    }
}

/// Names the segment of type `id` on the tile at (`col`, `row`), as the grid
/// does when it lays the base tile out over every position.
pub fn segment_id(col: u32, row: u32, id: &str) -> (r: String)
    ensures
        r@ == segment_id_spec(col, row, id@),
{
    proof {
        reveal_strlit(" : ");
        reveal_strlit(",");
    }
    let mut s = decimal_string(col as u64);
    s.append(",");
    let row_text = decimal_string(row as u64);
    s.append(row_text.as_str());
    s.append(" : ");
    s.append(id);
    assert(s@ =~= segment_id_spec(col, row, id@));
    s
}

/// With no occurrence of `sep` at the scan positions `i..j`, scanning from
/// `i` or from `j` gives the same pieces.
proof fn lemma_split_skip(s: Seq<char>, sep: Seq<char>, start: int, i: int, j: int)
    requires
        sep.len() > 0,
        0 <= i <= j,
        forall|k: int| i <= k < j ==> !#[trigger] occurs_at(s, sep, k),
    ensures
        split_from(s, sep, start, i) == split_from(s, sep, start, j),
    decreases j - i,
{
    if i < j {
        if i + sep.len() > s.len() {
            assert(j + sep.len() > s.len());
        } else {
            assert(!occurs_at(s, sep, i));
            lemma_split_skip(s, sep, start, i + 1, j);
        }
    }
}

/// `a + sep + b` splits into `a` and `b` when no character of `a` can start
/// the separator and `b` holds no separator.
pub proof fn lemma_split_two(a: Seq<char>, sep: Seq<char>, b: Seq<char>)
    requires
        sep.len() > 0,
        forall|k: int| 0 <= k < a.len() ==> #[trigger] a[k] != sep[0],
        lacks(b, sep),
    ensures
        split(a + sep + b, sep) == seq![a, b],
{
    let s = a + sep + b;
    let off: int = (a.len() + sep.len()) as int;
    assert forall|k: int| 0 <= k < a.len() implies !#[trigger] occurs_at(s, sep, k) by {
        if occurs_at(s, sep, k) {
            assert(s.subrange(k, k + sep.len())[0] == s[k]);
            assert(s[k] == a[k]);
        }
    }
    lemma_split_skip(s, sep, 0, 0, a.len() as int);
    assert(s.subrange(a.len() as int, off) =~= sep);
    assert(occurs_at(s, sep, a.len() as int));
    assert forall|k: int| off <= k < s.len() implies !#[trigger] occurs_at(s, sep, k) by {
        if occurs_at(s, sep, k) {
            assert(s.subrange(k, k + sep.len()) =~= b.subrange(k - off, k - off + sep.len()));
            assert(occurs_at(b, sep, k - off));
        }
    }
    lemma_split_skip(s, sep, off, off, s.len() as int);
    assert(s.subrange(0, a.len() as int) =~= a);
    assert(s.subrange(off, s.len() as int) =~= b);
}

/// Reading a segment name back: parsing the name that `segment_id` builds
/// for (`col`, `row`, `id`) gives `col`, `row` and `id` again, whenever `id`
/// has no surrounding whitespace and holds no `" : "`.
pub proof fn lemma_parse_segment_id(col: u32, row: u32, id: Seq<char>)
    requires
        is_trimmed(id),
        lacks(id, type_sep()),
    ensures
        parse_segment_spec(segment_id_spec(col, row, id)) == Some((col, row, id)),
{
    let dc = decimal(col as nat);
    let dr = decimal(row as nat);
    lemma_decimal(col as nat);
    lemma_decimal(row as nat);
    let coords = dc + coord_sep() + dr;
    assert forall|k: int| 0 <= k < coords.len() implies #[trigger] coords[k] != type_sep()[0] by {
        if k < dc.len() {
            assert(coords[k] == dc[k]);
            assert(is_digit(dc[k]));
        } else if k == dc.len() {
        } else {
            assert(coords[k] == dr[k - dc.len() - 1]);
            assert(is_digit(dr[k - dc.len() - 1]));
        }
    }
    assert(segment_id_spec(col, row, id) =~= coords + type_sep() + id);
    lemma_split_two(coords, type_sep(), id);
    assert forall|k: int| 0 <= k < dc.len() implies #[trigger] dc[k] != coord_sep()[0] by {
        assert(is_digit(dc[k]));
    }
    assert forall|k: int| !#[trigger] occurs_at(dr, coord_sep(), k) by {
        if occurs_at(dr, coord_sep(), k) {
            assert(dr.subrange(k, k + 1)[0] == dr[k]);
            assert(is_digit(dr[k]));
        }
    }
    lemma_split_two(dc, coord_sep(), dr);
    assert(is_trimmed(dc));
    assert(is_trimmed(dr));
    lemma_trim_of_trimmed(dc);
    lemma_trim_of_trimmed(dr);
    lemma_trim_of_trimmed(id);
    lemma_parse_decimal(col);
    lemma_parse_decimal(row);
}

} // verus!
