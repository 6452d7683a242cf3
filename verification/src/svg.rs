//! Reading the base tile's SVG text: its lines, the `viewBox` attribute,
//! the id of each `<path>` and `<circle>` element, and the text of the
//! numbers in a path's `d` attribute or a circle's attributes.  Turning those
//! numbers into coordinates is the renderer's business.

use vstd::prelude::*;
use crate::text::{occurs_at, occurs_at_exec, split, split_str, trim, trim_str, str_eq};
use crate::grid::PathKind;

verus! {

/// The first position at or after `i` where `pat` occurs in `s`.
pub open spec fn find_from(s: Seq<char>, pat: Seq<char>, i: int) -> Option<int>
    decreases s.len() + 1 - i,
{
    if i < 0 || i + pat.len() > s.len() {
        None
    } else if occurs_at(s, pat, i) {
        Some(i)
    } else {
        find_from(s, pat, i + 1)
    }
}

/// The first position where `pat` occurs in `s`, as `str::find` reports it
/// (counted in characters).
pub open spec fn find_spec(s: Seq<char>, pat: Seq<char>) -> Option<int> {
    find_from(s, pat, 0)
}

/// Whether `pat` occurs in `s`, as `str::contains` says.
pub open spec fn contains_spec(s: Seq<char>, pat: Seq<char>) -> bool {
    find_spec(s, pat) is Some
}

proof fn lemma_find_from_bounds(s: Seq<char>, pat: Seq<char>, i: int)
    ensures
        match find_from(s, pat, i) {
            Some(k) => i <= k && occurs_at(s, pat, k),
            None => true,
        },
    decreases s.len() + 1 - i,
{
    if !(i < 0 || i + pat.len() > s.len()) && !occurs_at(s, pat, i) {
        lemma_find_from_bounds(s, pat, i + 1);
    }
}

/// The first position where `pat` occurs in `s`.
pub fn find_str(s: &str, pat: &str) -> (r: Option<usize>)
    ensures
        match r {
            Some(k) => find_spec(s@, pat@) == Some(k as int),
            None => find_spec(s@, pat@) is None,
        },
{
    let n = s.unicode_len();
    let m = pat.unicode_len();
    if m > n {
        return None;
    }
    if m == 0 {
        assert(s@.subrange(0, 0) =~= pat@);
        return Some(0);
    }
    let mut i: usize = 0;
    while i <= n - m
        invariant
            n == s@.len(),
            m == pat@.len(),
            1 <= m <= n,
            i <= n - m + 1,
            find_spec(s@, pat@) == find_from(s@, pat@, i as int),
        decreases n - m + 1 - i,
    {
        if occurs_at_exec(s, pat, i) {
            return Some(i);
        }
        i = i + 1;
    }
    None
}

/// Whether `pat` occurs in `s`.
pub fn contains_str(s: &str, pat: &str) -> (r: bool)
    ensures
        r == contains_spec(s@, pat@),
{
    find_str(s, pat).is_some()
}

/// The text between `prefix` (at its first occurrence) and the next double
/// quote: the value of an attribute when `prefix` is its name, `=` and the
/// opening quote.
pub open spec fn attr_spec(s: Seq<char>, prefix: Seq<char>) -> Option<Seq<char>> {
    match find_spec(s, prefix) {
        None => None,
        Some(i) => {
            let rest = s.subrange(i + prefix.len(), s.len() as int);
            match find_spec(rest, seq!['"']) {
                None => None,
                Some(j) => Some(rest.subrange(0, j)),
            }
        },
    }
}

fn attribute(s: &str, prefix: &str) -> (r: Option<String>)
    ensures
        match r {
            Some(v) => attr_spec(s@, prefix@) == Some(v@),
            None => attr_spec(s@, prefix@) is None,
        },
{
    match find_str(s, prefix) {
        None => None,
        Some(i) => {
            proof {
                lemma_find_from_bounds(s@, prefix@, 0);
            }
            let n = s.unicode_len();
            let start = i + prefix.unicode_len();
            let rest = s.substring_char(start, n);
            let quote = "\"";
            proof {
                reveal_strlit("\"");
            }
            assert(quote@ =~= seq!['"']);
            match find_str(rest, quote) {
                None => None,
                Some(j) => {
                    proof {
                        lemma_find_from_bounds(rest@, quote@, 0);
                    }
                    Some(String::from_str(rest.substring_char(0, j)))
                },
            }
        },
    }
}

/// The id of an SVG element: the value of its `id` attribute.
pub fn parse_id(element: &str) -> (r: Option<String>)
    ensures
        match r {
            Some(v) => attr_spec(element@, "id=\""@) == Some(v@),
            None => attr_spec(element@, "id=\""@) is None,
        },
{
    attribute(element, "id=\"")
}

/// A line with its trailing carriage return, if any, removed.
pub open spec fn strip_cr(p: Seq<char>) -> Seq<char> {
    if p.len() > 0 && p.last() == '\r' {
        p.drop_last()
    } else {
        p
    }
}

/// The lines of `s` as `str::lines` gives them: split at `\n`, each line
/// ended by one losing a `\r` before it, and no line after a final `\n`.
pub open spec fn lines_spec(s: Seq<char>) -> Seq<Seq<char>> {
    let parts = split(s, seq!['\n']);
    let n = parts.len() as int;
    let kept = if n > 0 && parts[n - 1].len() == 0 {
        n - 1
    } else {
        n
    };
    Seq::new(kept as nat, |i: int| if i < n - 1 { strip_cr(parts[i]) } else { parts[i] })
}

/// The lines of `s`, as `str::lines` splits them.
pub fn lines_of(s: &str) -> (r: Vec<String>)
    ensures
        r@.map_values(|l: String| l@) == lines_spec(s@),
{
    let newline = "\n";
    proof {
        reveal_strlit("\n");
    }
    assert(newline@ =~= seq!['\n']);
    let parts = split_str(s, newline);
    let ghost pv = parts@.map_values(|p: String| p@);
    let n = parts.len();
    let kept = if n > 0 && parts[n - 1].unicode_len() == 0 {
        n - 1
    } else {
        n
    };
    let mut r: Vec<String> = Vec::new();
    let mut i: usize = 0;
    while i < kept
        invariant
            pv == parts@.map_values(|p: String| p@),
            pv == split(s@, seq!['\n']),
            n == pv.len(),
            kept <= n,
            kept == (if n > 0 && pv[n - 1].len() == 0 {
                n - 1
            } else {
                n as int
            }),
            i <= kept,
            r@.map_values(|l: String| l@) == lines_spec(s@).subrange(0, i as int),
        decreases kept - i,
    {
        let p = &parts[i];
        assert(p@ == pv[i as int]);
        let len = p.unicode_len();
        let line = if i + 1 < n && len > 0 && p.get_char(len - 1) == '\r' {
            String::from_str(p.as_str().substring_char(0, len - 1))
        } else {
            String::from_str(p.as_str().substring_char(0, len))
        };
        proof {
            assert(p@.subrange(0, len as int) =~= p@);
            assert(line@ == lines_spec(s@)[i as int]);
        }
        let ghost before = r@.map_values(|l: String| l@);
        r.push(line);
        assert(r@.map_values(|l: String| l@) =~= before.push(lines_spec(s@)[i as int]));
        assert(lines_spec(s@).subrange(0, i + 1) =~= lines_spec(s@).subrange(0, i as int).push(
            lines_spec(s@)[i as int],
        ));
        i = i + 1;
    }
    assert(lines_spec(s@).subrange(0, i as int) =~= lines_spec(s@));
    r
}

/// The `viewBox` text of the first of `lines` that holds `<svg id` and a
/// `viewBox` attribute.
pub open spec fn first_viewbox(lines: Seq<Seq<char>>) -> Option<Seq<char>>
    decreases lines.len(),
{
    if lines.len() == 0 {
        None
    } else if contains_spec(lines[0], "<svg id"@) && attr_spec(lines[0], "viewBox=\""@) is Some {
        attr_spec(lines[0], "viewBox=\""@)
    } else {
        first_viewbox(lines.drop_first())
    }
}

/// The text of the `viewBox` attribute of the SVG element: taken from the
/// first line that holds `<svg id` and such an attribute.  `None` when no
/// line does; the application refuses the project then.
pub fn viewbox_text(svg_content: &str) -> (r: Option<String>)
    ensures
        match r {
            Some(v) => first_viewbox(lines_spec(svg_content@)) == Some(v@),
            None => first_viewbox(lines_spec(svg_content@)) is None,
        },
{
    let lines = lines_of(svg_content);
    let ghost lv = lines@.map_values(|l: String| l@);
    assert(lv.subrange(0, lv.len() as int) =~= lv);
    let mut i: usize = 0;
    while i < lines.len()
        invariant
            lv == lines@.map_values(|l: String| l@),
            lv == lines_spec(svg_content@),
            i <= lv.len(),
            first_viewbox(lv) == first_viewbox(lv.subrange(i as int, lv.len() as int)),
        decreases lv.len() - i,
    {
        let line = lines[i].as_str();
        let ghost rest = lv.subrange(i as int, lv.len() as int);
        assert(rest[0] == line@);
        assert(rest.drop_first() =~= lv.subrange(i + 1, lv.len() as int));
        if contains_str(line, "<svg id") {
            match attribute(line, "viewBox=\"") {
                Some(v) => {
                    return Some(v);
                },
                None => {},
            }
        }
        i = i + 1;
    }
    None
}

/// The numbers of a `viewBox` attribute, as the texts between its spaces.
pub fn viewbox_fields(viewbox: &str) -> (r: Vec<String>)
    ensures
        r@.map_values(|p: String| p@) == split(viewbox@, seq![' ']),
{
    let space = " ";
    proof {
        reveal_strlit(" ");
    }
    assert(space@ =~= seq![' ']);
    split_str(viewbox, space)
}

/// Whether a line of the base tile describes an element: a path or a
/// circle.
pub open spec fn is_element_line(line: Seq<char>) -> bool {
    contains_spec(line, "<path"@) || contains_spec(line, "<circle"@)
}

/// The element lines of `lines` that carry an id, with that id, in order.
pub open spec fn element_lines_spec(lines: Seq<Seq<char>>) -> Seq<(Seq<char>, Seq<char>)>
    decreases lines.len(),
{
    if lines.len() == 0 {
        Seq::empty()
    } else {
        let rest = element_lines_spec(lines.drop_last());
        let line = lines.last();
        if is_element_line(line) && attr_spec(line, "id=\""@) is Some {
            rest.push((attr_spec(line, "id=\""@)->0, line))
        } else {
            rest
        }
    }
}

/// The lines of the base tile that describe a path or a circle and carry
/// an id: each id with its line, in the order of the text.
pub fn element_lines(svg_content: &str) -> (r: Vec<(String, String)>)
    ensures
        r@.map_values(|e: (String, String)| (e.0@, e.1@)) == element_lines_spec(lines_spec(svg_content@)),
{
    let lines = lines_of(svg_content);
    let ghost lv = lines@.map_values(|l: String| l@);
    let mut r: Vec<(String, String)> = Vec::new();
    let mut i: usize = 0;
    while i < lines.len()
        invariant
            lv == lines@.map_values(|l: String| l@),
            lv == lines_spec(svg_content@),
            i <= lv.len(),
            r@.map_values(|e: (String, String)| (e.0@, e.1@)) == element_lines_spec(lv.subrange(0, i as int)),
        decreases lv.len() - i,
    {
        let line = lines[i].as_str();
        let ghost pre = lv.subrange(0, i as int);
        assert(lv.subrange(0, i + 1).drop_last() =~= pre);
        assert(lv.subrange(0, i + 1).last() == line@);
        let ghost before = r@.map_values(|e: (String, String)| (e.0@, e.1@));
        if contains_str(line, "<path") || contains_str(line, "<circle") {
            match parse_id(line) {
                Some(id) => {
                    r.push((id, String::from_str(line)));
                    assert(r@.map_values(|e: (String, String)| (e.0@, e.1@)) =~= before.push(
                        (attr_spec(line@, "id=\""@)->0, line@),
                    ));
                },
                None => {},
            }
        }
        i = i + 1;
    }
    assert(lv.subrange(0, i as int) =~= lv);
    r
}

/// The `d` attribute of a path element: after the first `id=`, the text
/// between the next `d="` and the following quote, trimmed.
pub open spec fn d_attr_spec(e: Seq<char>) -> Option<Seq<char>> {
    match find_spec(e, "id="@) {
        None => None,
        Some(i) => {
            let second = e.subrange(i + 3, e.len() as int);
            let parts = split(second, "d=\""@);
            if parts.len() < 2 {
                None
            } else {
                Some(trim(split(parts[1], seq!['"'])[0]))
            }
        },
    }
}

/// What an element line is parsed from: a circle from its whole text, a
/// path from its `d` attribute, an arc when that holds an `A`, a line
/// otherwise.
pub open spec fn element_source_spec(e: Seq<char>) -> Option<(PathKind, Seq<char>)> {
    if contains_spec(e, "<circle"@) {
        Some((PathKind::Circle, e))
    } else {
        match d_attr_spec(e) {
            None => None,
            Some(d) => if contains_spec(d, seq!['A']) {
                Some((PathKind::Arc, d))
            } else {
                Some((PathKind::Line, d))
            },
        }
    }
}

/// Which shape an element line describes, and the text its numbers are
/// read from.
pub fn element_source(element: &str) -> (r: Option<(PathKind, String)>)
    ensures
        match r {
            Some((k, t)) => element_source_spec(element@) == Some((k, t@)),
            None => element_source_spec(element@) is None,
        },
{
    if contains_str(element, "<circle") {
        return Some((PathKind::Circle, String::from_str(element)));
    }
    match find_str(element, "id=") {
        None => None,
        Some(i) => {
            proof {
                lemma_find_from_bounds(element@, "id="@, 0);
                reveal_strlit("id=");
            }
            let n = element.unicode_len();
            let second = element.substring_char(i + 3, n);
            let d_open = "d=\"";
            proof {
                reveal_strlit("d=\"");
            }
            let parts = split_str(second, d_open);
            if parts.len() < 2 {
                None
            } else {
                let quote = "\"";
                proof {
                    reveal_strlit("\"");
                }
                assert(quote@ =~= seq!['"']);
                let pieces = split_str(parts[1].as_str(), quote);
                proof {
                    assert(parts@[1]@ == split(second@, "d=\""@)[1]);
                    assert(pieces@.map_values(|p: String| p@).len() >= 1) by {
                        crate::text::lemma_split_nonempty(parts@[1]@, seq!['"']);
                    }
                }
                let d = trim_str(pieces[0].as_str());
                let a = "A";
                proof {
                    reveal_strlit("A");
                }
                assert(a@ =~= seq!['A']);
                if contains_str(d.as_str(), a) {
                    Some((PathKind::Arc, d))
                } else {
                    Some((PathKind::Line, d))
                }
            }
        },
    }
}

/// What `regex` finds when `pattern` is run on `text`: `None` when the
/// pattern does not compile or does not match; else the text of each
/// capture group of the first match, the whole match first, `None` for a
/// group that took no part.
pub uninterp spec fn regex_captures(pattern: Seq<char>, text: Seq<char>) -> Option<Seq<Option<Seq<char>>>>;

pub open spec fn captures_view(c: Option<Vec<Option<String>>>) -> Option<Seq<Option<Seq<char>>>> {
    match c {
        None => None,
        Some(v) => Some(
            v@.map_values(
                |g: Option<String>|
                    match g {
                        Some(t) => Some(t@),
                        None => None,
                    },
            ),
        ),
    }
}

/// Runs `regex::Regex::new(pattern)` and then `Regex::captures(text)`, and
/// hands back the text of every group (`Captures::iter`).  The contract
/// claims only that the result is a function of the pattern and the text,
/// named `regex_captures`; what the matcher finds is not stated.
#[verifier::external_body]
fn captures(pattern: &str, text: &str) -> (r: Option<Vec<Option<String>>>)
    ensures
        captures_view(r) == regex_captures(pattern@, text@),
{
    let re = regex::Regex::new(pattern).ok()?;
    let caps = re.captures(text)?;
    Some(caps.iter().map(|m| m.map(|m| m.as_str().to_string())).collect())
}

/// Groups 1 to `n` of a match, when it has them all.
pub open spec fn groups_spec(c: Option<Seq<Option<Seq<char>>>>, n: nat) -> Option<Seq<Seq<char>>> {
    match c {
        None => None,
        Some(g) => if g.len() > n && (forall|i: int| 1 <= i <= n ==> (#[trigger] g[i]) is Some) {
            Some(Seq::new(n, |i: int| g[i + 1]->0))
        } else {
            None
        },
    }
}

/// The texts of groups 1 to `n` of a match; `None` when there was no match
/// or a group is missing.
pub fn groups(c: Option<Vec<Option<String>>>, n: usize) -> (r: Option<Vec<String>>)
    ensures
        match r {
            Some(v) => groups_spec(captures_view(c), n as nat) == Some(v@.map_values(|t: String| t@)),
            None => groups_spec(captures_view(c), n as nat) is None,
        },
{
    match c {
        None => None,
        Some(g) => {
            let ghost gv = g@.map_values(
                |x: Option<String>|
                    match x {
                        Some(t) => Some(t@),
                        None => None,
                    },
            );
            assert(captures_view(Some(g)) == Some(gv));
            if g.len() <= n {
                return None;
            }
            assert(n < usize::MAX);
            let mut i: usize = 1;
            while i <= n
                invariant
                    captures_view(c) == Some(gv),
                    n < usize::MAX,
                    gv.len() == g@.len(),
                    forall|k: int| 0 <= k < g@.len() ==> (#[trigger] gv[k] is Some) == (g@[k] is Some),
                    g@.len() > n,
                    1 <= i <= n + 1,
                    forall|k: int| 1 <= k < i ==> (#[trigger] gv[k]) is Some,
                decreases n + 1 - i,
            {
                if g[i].is_none() {
                    assert(gv[i as int] is None);
                    return None;
                }
                i = i + 1;
            }
            let mut out: Vec<String> = Vec::new();
            let mut k: usize = 0;
            while k < n
                invariant
                    gv.len() == g@.len(),
                    forall|j: int| 0 <= j < g@.len() ==> (#[trigger] gv[j] is Some) == (g@[j] is Some),
                    forall|j: int| 0 <= j < g@.len() && g@[j] is Some ==> (#[trigger] gv[j])->0 == g@[j]->0@,
                    g@.len() > n,
                    k <= n,
                    forall|j: int| 1 <= j <= n ==> (#[trigger] gv[j]) is Some,
                    out@.len() == k,
                    forall|j: int| 0 <= j < k ==> #[trigger] out@[j]@ == gv[j + 1]->0,
                decreases n - k,
            {
                assert(gv[k + 1] is Some);
                match &g[k + 1] {
                    Some(t) => {
                        out.push(t.clone());
                    },
                    None => {
                        assert(false);
                    },
                }
                k = k + 1;
            }
            assert(out@.map_values(|t: String| t@) =~= Seq::new(n as nat, |j: int| gv[j + 1]->0));
            Some(out)
        },
    }
}

pub open spec fn line_pattern() -> Seq<char> {
    r"M\s*([\d.-]+)[\s,]+([\d.-]+)\s*L\s*([\d.-]+)[\s,]+([\d.-]+)"@
}

pub open spec fn arc_pattern() -> Seq<char> {
    r"^M\s*([\d.-]+),([\d.-]+)\s*A\s*([\d.-]+),([\d.-]+)\s*([\d.-]+)\s+(0|1),(0|1)\s*([\d.-]+),([\d.-]+)$"@
}

pub open spec fn circle_pattern() -> Seq<char> {
    r#"cx="([\d.-]+)".*cy="([\d.-]+)".*r="([\d.-]+)""#@
}

/// The four numbers of a line's `d` attribute (`M x1 y1 L x2 y2`), as text.
pub fn line_numbers(d: &str) -> (r: Option<Vec<String>>)
    ensures
        match r {
            Some(v) => groups_spec(regex_captures(line_pattern(), d@), 4) == Some(v@.map_values(|t: String| t@)),
            None => groups_spec(regex_captures(line_pattern(), d@), 4) is None,
        },
{
    groups(captures(r"M\s*([\d.-]+)[\s,]+([\d.-]+)\s*L\s*([\d.-]+)[\s,]+([\d.-]+)", d), 4)
}

/// The centre and radius of a circle element, as text.
pub fn circle_numbers(element: &str) -> (r: Option<Vec<String>>)
    ensures
        match r {
            Some(v) => groups_spec(regex_captures(circle_pattern(), element@), 3) == Some(
                v@.map_values(|t: String| t@),
            ),
            None => groups_spec(regex_captures(circle_pattern(), element@), 3) is None,
        },
{
    groups(captures(r#"cx="([\d.-]+)".*cy="([\d.-]+)".*r="([\d.-]+)""#, element), 3)
}

/// The fields of an arc's `d` attribute (`M x y A rx ry rotation large,sweep
/// x y`): its seven numbers as text, in that order, and its two flags.
pub struct ArcFields {
    pub numbers: Vec<String>,
    pub large_arc: bool,
    pub sweep: bool,
}

pub open spec fn arc_fields_spec(g: Seq<Seq<char>>) -> (Seq<Seq<char>>, bool, bool) {
    (seq![g[0], g[1], g[2], g[3], g[4], g[7], g[8]], g[5] == "1"@, g[6] == "1"@)
}

/// The fields of an arc's `d` attribute.
pub fn arc_fields(d: &str) -> (r: Option<ArcFields>)
    ensures
        match r {
            Some(f) => {
                &&& groups_spec(regex_captures(arc_pattern(), d@), 9) is Some
                &&& arc_fields_spec(groups_spec(regex_captures(arc_pattern(), d@), 9)->0) == (
                    f.numbers@.map_values(|t: String| t@),
                    f.large_arc,
                    f.sweep,
                )
            },
            None => groups_spec(regex_captures(arc_pattern(), d@), 9) is None,
        },
{
    let found = groups(
        captures(
            r"^M\s*([\d.-]+),([\d.-]+)\s*A\s*([\d.-]+),([\d.-]+)\s*([\d.-]+)\s+(0|1),(0|1)\s*([\d.-]+),([\d.-]+)$",
            d,
        ),
        9,
    );
    match found {
        None => None,
        Some(g) => {
            let ghost gv = g@.map_values(|t: String| t@);
            assert(gv.len() == 9);
            assert(g@.len() == 9);
            let mut numbers: Vec<String> = Vec::new();
            numbers.push(g[0].clone());
            numbers.push(g[1].clone());
            numbers.push(g[2].clone());
            numbers.push(g[3].clone());
            numbers.push(g[4].clone());
            numbers.push(g[7].clone());
            numbers.push(g[8].clone());
            let large_arc = str_eq(g[5].as_str(), "1");
            let sweep = str_eq(g[6].as_str(), "1");
            assert(numbers@.map_values(|t: String| t@) =~= seq![gv[0], gv[1], gv[2], gv[3], gv[4], gv[7], gv[8]]);
            Some(ArcFields { numbers, large_arc, sweep })
        },
    }
}

} // verus!
