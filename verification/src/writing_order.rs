//! The order in which a glyph's new segments are written: grouped into
//! strokes, each stroke walked along its connections, the strokes put in
//! reading order, chained and linked.  The choices made by position (where
//! a stroke starts, which neighbour a walk takes next, the reading order of
//! the strokes, which linked stroke comes next) compare floating-point
//! coordinates, so the caller makes them; every segment to write is written
//! once, whatever it chooses.

use vstd::prelude::*;
use crate::name_map::NameMap;
use crate::segment_graph::SegmentGraph;
use crate::segment_set::SegmentSet;
use crate::stroke::{
    SegmentType, Stroke, strings_of, flat, groups_view, distinct_starts, strokes_segments, is_permutation,
    group_segments_into_strokes, get_primary_segment_type, order_segments_in_stroke, identify_connections,
    chain_strokes, order_strokes_with_connections, clone_strings, holds, emission_order, links_view, type_count,
    type_index, walk_step, walk_candidates, picked_step, follow_candidates, picked_follow, written, positions,
    chain_order, collect_links, link_sources, neighbor_ids, compatible_spec, grows_from_first,
};
use crate::order::{dedup_spec, sorted_version};

verus! {

/// The segment ids of a stroke.
pub open spec fn segs(s: Stroke) -> Seq<Seq<char>> {
    strings_of(s.segments@)
}

/// The segments a writing transition writes: those of the target glyph that
/// are not lit and that the grid gives a type.
pub open spec fn to_write_spec(
    active: Set<Seq<char>>,
    target: Set<Seq<char>>,
    types: Map<Seq<char>, SegmentType>,
) -> Set<Seq<char>> {
    Set::new(|s: Seq<char>| target.contains(s) && !active.contains(s) && types.dom().contains(s))
}

/// The strokes hold the segments `w` between them: each holds its segments
/// once, starting with its start segment, no two share a segment, and
/// together they hold exactly `w`.
pub open spec fn covers(strokes: Seq<Stroke>, w: Set<Seq<char>>) -> bool {
    &&& forall|k: int| 0 <= k < strokes.len() ==> #[trigger] segs(strokes[k]).no_duplicates()
    &&& forall|k: int|
        0 <= k < strokes.len() ==> segs(#[trigger] strokes[k]).len() > 0 && segs(strokes[k])[0]
            == strokes[k].start_segment@
    &&& forall|k: int, l: int, x: Seq<char>|
        0 <= k < strokes.len() && 0 <= l < strokes.len() && k != l && #[trigger] segs(strokes[k]).contains(x)
            ==> !(#[trigger] segs(strokes[l]).contains(x))
    &&& forall|x: Seq<char>|
        w.contains(x) <==> exists|k: int| 0 <= k < strokes.len() && #[trigger] segs(strokes[k]).contains(x)
}

/// Two strokes with the same segments, start, end and type.
pub open spec fn same_stroke(a: Stroke, b: Stroke) -> bool {
    &&& segs(a) == segs(b)
    &&& a.start_segment@ == b.start_segment@
    &&& a.end_segment@ == b.end_segment@
    &&& a.primary_type == b.primary_type
}

/// `a` is `b` with its strokes in the order `p`.
pub open spec fn reordered(a: Seq<Stroke>, b: Seq<Stroke>, p: Seq<int>) -> bool {
    &&& a.len() == b.len()
    &&& is_permutation(p, b.len())
    &&& forall|i: int| 0 <= i < a.len() ==> same_stroke(#[trigger] a[i], b[p[i]])
}

/// The positions of `idx` as integers.
pub open spec fn positions_of(idx: Seq<usize>) -> Seq<int> {
    idx.map_values(|k: usize| k as int)
}

/// The order `idx` when it lists each position below `n` once; the order
/// as it stands otherwise.
pub open spec fn order_or_identity(idx: Seq<usize>, n: nat) -> Seq<int> {
    if is_permutation(positions_of(idx), n) {
        positions_of(idx)
    } else {
        Seq::new(n, |i: int| i)
    }
}

/// `gs` groups the segments `w` into strokes: every segment of `w` lands in
/// exactly one group, no group is empty, each member after the first is
/// reached compatibly from an earlier one, and a group leaves out no
/// compatible connected segment that an earlier group did not take.
pub open spec fn stroke_groups(
    gs: Seq<Seq<Seq<char>>>,
    w: Set<Seq<char>>,
    types: Map<Seq<char>, SegmentType>,
    adj: Map<Seq<char>, Seq<Seq<char>>>,
) -> bool {
    &&& flat(gs).no_duplicates()
    &&& flat(gs).to_set() == w
    &&& forall|k: int| 0 <= k < gs.len() ==> #[trigger] gs[k].len() > 0
    &&& forall|k: int, u: Seq<char>, v: Seq<char>|
        0 <= k < gs.len() && #[trigger] gs[k].contains(u) && w.contains(v) && #[trigger] neighbor_ids(adj, u).contains(v)
            && compatible_spec(types[u], types[v]) ==> flat(gs.subrange(0, k + 1)).contains(v)
    &&& forall|k: int| 0 <= k < gs.len() ==> #[trigger] grows_from_first(adj, types, gs[k])
}

/// `t` is the main type of the segments `g`: the most common of their types
/// (`Unknown` when none has one), the first in declaration order among
/// equally common ones.
pub open spec fn is_primary_type(g: Seq<Seq<char>>, types: Map<Seq<char>, SegmentType>, t: SegmentType) -> bool {
    &&& (forall|u: SegmentType| #[trigger] type_count(g, types, u) == 0) ==> t == SegmentType::Unknown
    &&& (exists|u: SegmentType| #[trigger] type_count(g, types, u) > 0) ==> {
        &&& type_count(g, types, t) > 0
        &&& forall|u: SegmentType| #[trigger] type_count(g, types, u) <= type_count(g, types, t)
        &&& forall|u: SegmentType| type_index(u) < type_index(t) ==> #[trigger] type_count(g, types, u) < type_count(g, types, t)
    }
}

/// Step `i` of the walk `ord` of a stroke of type `t`, when it had
/// candidates, went to the one that `walk_pick` answered for them (the
/// first, for an answer past the end).
pub open spec fn walk_picked<Wk: Fn(SegmentType, String, Vec<String>) -> usize>(
    walk_pick: Wk,
    t: SegmentType,
    adj: Map<Seq<char>, Seq<Seq<char>>>,
    segs: Seq<Seq<char>>,
    ord: Seq<Seq<char>>,
    i: int,
) -> bool {
    let cands = walk_candidates(adj, segs, ord.subrange(0, i), ord[i - 1]);
    cands.len() > 0 ==> exists|at: String, c: Vec<String>, p: usize|
        #[trigger] walk_pick.ensures((t, at, c), p) && at@ == ord[i - 1] && strings_of(c@) == cands && ord[i]
            == cands[if p < cands.len() {
            p as int
        } else {
            0
        }]
}

/// `s` is the stroke built from group `g`: its type is the group's main
/// type; it starts at the segment `stroke_start` named for the group (its
/// first segment, should that name none of the group's); its segments are
/// the group's, once each, in the order of the walk from the start that
/// `walk_pick` chose; it ends where the walk ends.
pub open spec fn built_stroke<St: Fn(&Vec<String>, SegmentType) -> String, Wk: Fn(SegmentType, String, Vec<String>) -> usize>(
    stroke_start: St,
    walk_pick: Wk,
    types: Map<Seq<char>, SegmentType>,
    adj: Map<Seq<char>, Seq<Seq<char>>>,
    g: Seq<Seq<char>>,
    s: Stroke,
) -> bool {
    &&& is_primary_type(g, types, s.primary_type)
    &&& exists|gv: Vec<String>, proposed: String|
        #[trigger] stroke_start.ensures((&gv, s.primary_type), proposed) && strings_of(gv@) == g
            && s.start_segment@ == (if g.contains(proposed@) {
            proposed@
        } else {
            g[0]
        })
    &&& segs(s).len() == g.len()
    &&& segs(s).to_set() == g.to_set()
    &&& segs(s).no_duplicates()
    &&& segs(s)[0] == s.start_segment@
    &&& forall|i: int| 1 <= i < segs(s).len() ==> #[trigger] walk_step(adj, g, segs(s), i)
    &&& forall|i: int| 1 <= i < segs(s).len() ==> #[trigger] walk_picked(walk_pick, s.primary_type, adj, g, segs(s), i)
    &&& s.end_segment@ == segs(s).last()
}

/// The links between the strokes: from each stroke's start to the starts of
/// the strokes its segments touch, sorted, each once.
pub open spec fn stroke_links(strokes: Seq<Stroke>, adj: Map<Seq<char>, Seq<Seq<char>>>) -> Map<Seq<char>, Seq<Seq<char>>> {
    collect_links(Map::empty(), strokes, adj, link_sources(strokes)).map_values(
        |v: Seq<Seq<char>>| dedup_spec(sorted_version(v)),
    )
}

/// `chain` chains the strokes along their links: positions of the strokes,
/// the first first, each stroke once when no two share a start, in the
/// order of a breadth-first walk along the links from stroke to stroke.
pub open spec fn chained_along(strokes: Seq<Stroke>, links: Map<Seq<char>, Seq<Seq<char>>>, chain: Seq<usize>) -> bool {
    &&& forall|t: int| 0 <= t < chain.len() ==> #[trigger] chain[t] < strokes.len()
    &&& strokes.len() > 0 ==> chain.len() > 0 && chain[0] == 0
    &&& distinct_starts(strokes) ==> is_permutation(positions(chain), strokes.len())
    &&& exists|heads: Seq<bool>| #[trigger] chain_order(strokes, links, positions(chain), heads)
}

/// Entry `m` of a writing order, when it follows the stroke before it, is
/// the candidate that `stroke_pick` answered for the strokes and the
/// candidates (the first, for an answer past the end).
pub open spec fn follow_picked<Pk: Fn(&Vec<Stroke>, Vec<usize>) -> usize>(
    stroke_pick: Pk,
    strokes: Seq<Stroke>,
    links: Map<Seq<char>, Seq<Seq<char>>>,
    order: Seq<int>,
    kinds: Seq<bool>,
    m: int,
) -> bool {
    let cands = follow_candidates(strokes, links, strokes[order[m - 1]].start_segment@, written(strokes, order, m));
    !kinds[m] ==> m >= 1 && exists|sv: Vec<Stroke>, c: Vec<usize>, p: usize|
        #[trigger] stroke_pick.ensures((&sv, c), p) && sv@ == strokes && positions(c@) == cands && order[m]
            == cands[if p < cands.len() {
            p as int
        } else {
            0
        }]
}

/// The stages of a writing order: the segments to write `w`, grouped as
/// `groups`; the strokes `built` from the groups; the answer `sorted` of
/// `reading_order` for them and the strokes `read` in that order; the chain
/// `chain` of those along their links and the strokes `chained` in chain
/// order; and the writing order `order` of those, following
/// `stroke_pick`'s answers, whose segments are `result`.
pub open spec fn writing_stages<
    St: Fn(&Vec<String>, SegmentType) -> String,
    Wk: Fn(SegmentType, String, Vec<String>) -> usize,
    Rd: Fn(&Vec<Stroke>) -> Vec<usize>,
    Pk: Fn(&Vec<Stroke>, Vec<usize>) -> usize,
>(
    stroke_start: St,
    walk_pick: Wk,
    reading_order: Rd,
    stroke_pick: Pk,
    w: Set<Seq<char>>,
    types: Map<Seq<char>, SegmentType>,
    adj: Map<Seq<char>, Seq<Seq<char>>>,
    groups: Seq<Seq<Seq<char>>>,
    built: Vec<Stroke>,
    sorted: Vec<usize>,
    read: Seq<Stroke>,
    chain: Seq<usize>,
    chained: Vec<Stroke>,
    order: Seq<int>,
    kinds: Seq<bool>,
    result: Seq<Seq<char>>,
) -> bool {
    &&& stroke_groups(groups, w, types, adj)
    &&& built@.len() == groups.len()
    &&& forall|k: int| 0 <= k < groups.len() ==> #[trigger] built_stroke(stroke_start, walk_pick, types, adj, groups[k], built@[k])
    &&& reading_order.ensures((&built,), sorted)
    &&& reordered(read, built@, order_or_identity(sorted@, built@.len()))
    &&& chained_along(read, stroke_links(built@, adj), chain)
    &&& reordered(chained@, read, order_or_identity(chain, read.len()))
    &&& emission_order(chained@, stroke_links(built@, adj), order, kinds)
    &&& forall|m: int| 0 <= m < order.len() ==> #[trigger] follow_picked(stroke_pick, chained@, stroke_links(built@, adj), order, kinds, m)
    &&& result == strokes_segments(chained@, order)
}

proof fn lemma_concat_contains<A>(a: Seq<A>, b: Seq<A>, x: A)
    ensures
        (a + b).contains(x) <==> (a.contains(x) || b.contains(x)),
{
    if (a + b).contains(x) {
        let i = choose|i: int| 0 <= i < (a + b).len() && (a + b)[i] == x;
        if i < a.len() {
            assert(a[i] == x);
        } else {
            assert(b[i - a.len()] == x);
        }
    }
    if a.contains(x) {
        let i = choose|i: int| 0 <= i < a.len() && a[i] == x;
        assert((a + b)[i] == x);
    }
    if b.contains(x) {
        let i = choose|i: int| 0 <= i < b.len() && b[i] == x;
        assert((a + b)[a.len() + i] == x);
    }
}

proof fn lemma_concat_no_duplicates<A>(a: Seq<A>, b: Seq<A>)
    ensures
        (a + b).no_duplicates() <==> (a.no_duplicates() && b.no_duplicates() && forall|x: A|
            a.contains(x) ==> !b.contains(x)),
{
    let c = a + b;
    if c.no_duplicates() {
        assert forall|i: int, j: int| 0 <= i < a.len() && 0 <= j < a.len() && i != j implies a[i] != a[j] by {
            assert(c[i] == a[i] && c[j] == a[j]);
        }
        assert forall|i: int, j: int| 0 <= i < b.len() && 0 <= j < b.len() && i != j implies b[i] != b[j] by {
            assert(c[a.len() + i] == b[i] && c[a.len() + j] == b[j]);
        }
        assert forall|x: A| a.contains(x) implies !b.contains(x) by {
            let i = choose|i: int| 0 <= i < a.len() && a[i] == x;
            if b.contains(x) {
                let j = choose|j: int| 0 <= j < b.len() && b[j] == x;
                assert(c[i] == c[a.len() + j]);
            }
        }
    }
    if a.no_duplicates() && b.no_duplicates() && forall|x: A| a.contains(x) ==> !b.contains(x) {
        assert forall|i: int, j: int| 0 <= i < c.len() && 0 <= j < c.len() && i != j implies c[i] != c[j] by {
            if i < a.len() && j >= a.len() {
                assert(a.contains(c[i]));
                assert(b[j - a.len()] == c[j]);
            } else if j < a.len() && i >= a.len() {
                assert(a.contains(c[j]));
                assert(b[i - a.len()] == c[i]);
            } else if i >= a.len() {
                assert(c[i] == b[i - a.len()] && c[j] == b[j - a.len()]);
            }
        }
    }
}

/// What a flattened list of groups holds, and what it takes for it to hold
/// nothing twice.
proof fn lemma_flat_groups(gs: Seq<Seq<Seq<char>>>)
    ensures
        forall|x: Seq<char>| #[trigger] flat(gs).contains(x) <==> exists|k: int| 0 <= k < gs.len() && #[trigger] gs[k].contains(x),
        flat(gs).no_duplicates() ==> forall|k: int| 0 <= k < gs.len() ==> #[trigger] gs[k].no_duplicates(),
        flat(gs).no_duplicates() ==> forall|k: int, l: int, x: Seq<char>|
            0 <= k < gs.len() && 0 <= l < gs.len() && k != l && #[trigger] gs[k].contains(x) ==> !(#[trigger] gs[l].contains(x)),
    decreases gs.len(),
{
    if gs.len() == 0 {
        assert(flat(gs) =~= Seq::<Seq<char>>::empty());
    } else {
        let pre = gs.drop_last();
        let last = gs.last();
        assert(gs =~= pre.push(last));
        pre.lemma_flatten_push(last);
        assert(flat(gs) == flat(pre) + last);
        lemma_flat_groups(pre);
        lemma_concat_no_duplicates(flat(pre), last);
        assert forall|x: Seq<char>| #[trigger] flat(gs).contains(x) <==> exists|k: int|
            0 <= k < gs.len() && #[trigger] gs[k].contains(x) by {
            lemma_concat_contains(flat(pre), last, x);
            if flat(pre).contains(x) {
                let k = choose|k: int| 0 <= k < pre.len() && #[trigger] pre[k].contains(x);
                assert(gs[k] == pre[k]);
            }
            if exists|k: int| 0 <= k < gs.len() && #[trigger] gs[k].contains(x) {
                let k = choose|k: int| 0 <= k < gs.len() && #[trigger] gs[k].contains(x);
                if k < pre.len() {
                    assert(pre[k] == gs[k]);
                }
            }
        }
        if flat(gs).no_duplicates() {
            assert forall|k: int| 0 <= k < gs.len() implies #[trigger] gs[k].no_duplicates() by {
                if k < pre.len() {
                    assert(pre[k] == gs[k]);
                }
            }
            assert forall|k: int, l: int, x: Seq<char>|
                0 <= k < gs.len() && 0 <= l < gs.len() && k != l && #[trigger] gs[k].contains(x) implies !(
            #[trigger] gs[l].contains(x)) by {
                if k < pre.len() && l < pre.len() {
                    assert(pre[k] == gs[k] && pre[l] == gs[l]);
                } else if k < pre.len() {
                    assert(pre[k] == gs[k]);
                    assert(flat(pre).contains(x));
                } else {
                    assert(pre[l] == gs[l]);
                    if gs[l].contains(x) {
                        assert(flat(pre).contains(x));
                    }
                }
            }
        }
    }
}

/// A list of `n` different positions below `n` takes every one of them.
proof fn lemma_permutation_onto(order: Seq<int>, n: nat)
    requires
        is_permutation(order, n),
    ensures
        forall|k: int| 0 <= k < n ==> #[trigger] order.contains(k),
{
    order.unique_seq_to_set();
    let s = order.to_set();
    let range = Set::new(|k: int| 0 <= k < n);
    assert(range =~= vstd::set_lib::set_int_range(0, n as int));
    vstd::set_lib::lemma_int_range(0, n as int);
    assert forall|k: int| 0 <= k < n implies #[trigger] order.contains(k) by {
        if !order.contains(k) {
            assert(s.subset_of(range.remove(k)));
            vstd::set_lib::lemma_len_subset(s, range.remove(k));
        }
    }
}

/// Strokes that hold their segments between them start at different
/// segments.
pub proof fn lemma_covers_distinct_starts(strokes: Seq<Stroke>, w: Set<Seq<char>>)
    requires
        covers(strokes, w),
    ensures
        distinct_starts(strokes),
{
    assert forall|a: int, b: int|
        0 <= a < strokes.len() && 0 <= b < strokes.len() && a != b implies #[trigger] strokes[a].start_segment@
        != #[trigger] strokes[b].start_segment@ by {
        assert(segs(strokes[a]).len() > 0 && segs(strokes[b]).len() > 0);
        assert(segs(strokes[a]).contains(segs(strokes[a])[0]));
        assert(segs(strokes[b]).contains(segs(strokes[b])[0]));
    }
}

/// Putting strokes in another order keeps what they hold between them.
pub proof fn lemma_covers_reordered(a: Seq<Stroke>, b: Seq<Stroke>, p: Seq<int>, w: Set<Seq<char>>)
    requires
        covers(b, w),
        reordered(a, b, p),
    ensures
        covers(a, w),
{
    lemma_permutation_onto(p, b.len());
    assert forall|k: int| 0 <= k < a.len() implies #[trigger] segs(a[k]).no_duplicates() by {
        assert(p.contains(p[k]));
        assert(0 <= p[k] < b.len());
    }
    assert forall|k: int| 0 <= k < a.len() implies segs(#[trigger] a[k]).len() > 0 && segs(a[k])[0]
        == a[k].start_segment@ by {
        assert(0 <= p[k] < b.len());
        assert(segs(b[p[k]]).len() > 0);
    }
    assert forall|k: int, l: int, x: Seq<char>|
        0 <= k < a.len() && 0 <= l < a.len() && k != l && #[trigger] segs(a[k]).contains(x) implies !(
    #[trigger] segs(a[l]).contains(x)) by {
        assert(0 <= p[k] < b.len() && 0 <= p[l] < b.len());
        assert(p[k] != p[l]);
        assert(segs(b[p[k]]).contains(x));
    }
    assert forall|x: Seq<char>| w.contains(x) <==> exists|k: int| 0 <= k < a.len() && #[trigger] segs(a[k]).contains(x) by {
        if w.contains(x) {
            let j = choose|j: int| 0 <= j < b.len() && #[trigger] segs(b[j]).contains(x);
            assert(p.contains(j));
            let k = choose|k: int| 0 <= k < p.len() && p[k] == j;
            assert(segs(a[k]).contains(x));
        }
        if exists|k: int| 0 <= k < a.len() && #[trigger] segs(a[k]).contains(x) {
            let k = choose|k: int| 0 <= k < a.len() && #[trigger] segs(a[k]).contains(x);
            assert(0 <= p[k] < b.len());
            assert(segs(b[p[k]]).contains(x));
        }
    }
}

/// The first `m` strokes of `order` give their segments without repeats,
/// and hold what those strokes hold.
proof fn lemma_prefix_segments(strokes: Seq<Stroke>, order: Seq<int>, w: Set<Seq<char>>, m: int)
    requires
        covers(strokes, w),
        is_permutation(order, strokes.len()),
        0 <= m <= order.len(),
    ensures
        strokes_segments(strokes, order.subrange(0, m)).no_duplicates(),
        forall|x: Seq<char>| #[trigger] strokes_segments(strokes, order.subrange(0, m)).contains(x)
            <==> exists|i: int| 0 <= i < m && #[trigger] segs(strokes[order[i]]).contains(x),
    decreases m,
{
    let f = |i: int| strings_of(strokes[i].segments@);
    if m == 0 {
        assert(order.subrange(0, 0).map_values(f) =~= Seq::<Seq<Seq<char>>>::empty());
        assert(strokes_segments(strokes, order.subrange(0, 0)) =~= Seq::<Seq<char>>::empty());
    } else {
        lemma_prefix_segments(strokes, order, w, m - 1);
        let pre = order.subrange(0, m - 1).map_values(f);
        let next = segs(strokes[order[m - 1]]);
        assert(order.subrange(0, m).map_values(f) =~= pre.push(next));
        pre.lemma_flatten_push(next);
        assert(strokes_segments(strokes, order.subrange(0, m - 1)) == pre.flatten());
        assert(strokes_segments(strokes, order.subrange(0, m)) == pre.flatten() + next);
        assert(0 <= order[m - 1] < strokes.len());
        assert forall|x: Seq<char>| pre.flatten().contains(x) implies !next.contains(x) by {
            let i = choose|i: int| 0 <= i < m - 1 && #[trigger] segs(strokes[order[i]]).contains(x);
            assert(0 <= order[i] < strokes.len());
            assert(order[i] != order[m - 1]);
        }
        lemma_concat_no_duplicates(pre.flatten(), next);
        assert forall|x: Seq<char>| #[trigger] strokes_segments(strokes, order.subrange(0, m)).contains(x)
            <==> exists|i: int| 0 <= i < m && #[trigger] segs(strokes[order[i]]).contains(x) by {
            lemma_concat_contains(pre.flatten(), next, x);
            if exists|i: int| 0 <= i < m && #[trigger] segs(strokes[order[i]]).contains(x) {
                let i = choose|i: int| 0 <= i < m && #[trigger] segs(strokes[order[i]]).contains(x);
                if i < m - 1 {
                    assert(pre.flatten().contains(x));
                }
            }
        }
    }
}

/// The segments of strokes that hold `w` between them, taken in the order of
/// a permutation of the strokes, are `w`, each once.
pub proof fn lemma_covers_segments(strokes: Seq<Stroke>, order: Seq<int>, w: Set<Seq<char>>)
    requires
        covers(strokes, w),
        is_permutation(order, strokes.len()),
    ensures
        strokes_segments(strokes, order).no_duplicates(),
        strokes_segments(strokes, order).to_set() == w,
{
    let f = |i: int| strings_of(strokes[i].segments@);
    lemma_prefix_segments(strokes, order, w, order.len() as int);
    assert(order.subrange(0, order.len() as int) =~= order);
    lemma_permutation_onto(order, strokes.len());
    let all = strokes_segments(strokes, order);
    assert(all == order.map_values(f).flatten());
    assert forall|x: Seq<char>| all.to_set().contains(x) <==> w.contains(x) by {
        if w.contains(x) {
            let k = choose|k: int| 0 <= k < strokes.len() && #[trigger] segs(strokes[k]).contains(x);
            assert(order.contains(k));
            let i = choose|i: int| 0 <= i < order.len() && order[i] == k;
            assert(segs(strokes[order[i]]).contains(x));
        }
        if all.contains(x) {
            let i = choose|i: int| 0 <= i < order.len() && #[trigger] segs(strokes[order[i]]).contains(x);
            assert(0 <= order[i] < strokes.len());
        }
    }
    assert(all.to_set() =~= w);
}

fn copy_stroke(s: &Stroke) -> (r: Stroke)
    ensures
        same_stroke(r, *s),
{
    Stroke {
        segments: clone_strings(&s.segments),
        start_segment: s.start_segment.clone(),
        end_segment: s.end_segment.clone(),
        primary_type: s.primary_type,
    }
}

/// Whether `idx` lists each position below `n` once.
fn is_order(idx: &Vec<usize>, n: usize) -> (r: bool)
    ensures
        r == is_permutation(positions_of(idx@), n as nat),
{
    let ghost p = positions_of(idx@);
    if idx.len() != n {
        return false;
    }
    let mut seen: Vec<bool> = Vec::new();
    let mut j: usize = 0;
    while j < n
        invariant
            j <= n,
            seen@.len() == j,
            forall|q: int| 0 <= q < j ==> !(#[trigger] seen@[q]),
        decreases n - j,
    {
        seen.push(false);
        j = j + 1;
    }
    let mut t: usize = 0;
    while t < idx.len()
        invariant
            idx@.len() == n,
            p == positions_of(idx@),
            seen@.len() == n,
            t <= n,
            forall|u: int| 0 <= u < t ==> 0 <= #[trigger] p[u] < n && seen@[p[u]],
            forall|q: int| 0 <= q < n && #[trigger] seen@[q] ==> exists|u: int| 0 <= u < t && p[u] == q,
            forall|u: int, v: int| 0 <= u < t && 0 <= v < t && u != v ==> #[trigger] p[u] != #[trigger] p[v],
        decreases n - t,
    {
        let k = idx[t];
        assert(p[t as int] == k as int);
        if k >= n {
            return false;
        }
        if seen[k] {
            proof {
                let u = choose|u: int| 0 <= u < t && p[u] == k as int;
                assert(p[u] == p[t as int]);
                assert(!p.no_duplicates());
            }
            return false;
        }
        seen.set(k, true);
        t = t + 1;
    }
    true
}

/// `strokes` in the order `idx` gives, when it lists each position of
/// `strokes` once; `strokes` as they stand otherwise.
pub fn reorder_strokes(strokes: &Vec<Stroke>, idx: &Vec<usize>) -> (r: Vec<Stroke>)
    ensures
        reordered(r@, strokes@, order_or_identity(idx@, strokes@.len())),
{
    let n = strokes.len();
    let valid = is_order(idx, n);
    let ghost p = order_or_identity(idx@, strokes@.len());
    let mut r: Vec<Stroke> = Vec::new();
    let mut i: usize = 0;
    while i < n
        invariant
            n == strokes@.len(),
            valid == is_permutation(positions_of(idx@), n as nat),
            p == order_or_identity(idx@, strokes@.len()),
            i <= n,
            r@.len() == i,
            forall|j: int| 0 <= j < i ==> same_stroke(#[trigger] r@[j], strokes@[p[j]]),
        decreases n - i,
    {
        let k = if valid {
            idx[i]
        } else {
            i
        };
        proof {
            if valid {
                assert(positions_of(idx@)[i as int] == k as int);
                assert(0 <= positions_of(idx@)[i as int] < n);
            }
            assert(p[i as int] == k as int);
        }
        r.push(copy_stroke(&strokes[k]));
        i = i + 1;
    }
    r
}

/// The segments of the target glyph to write: those not lit that the grid
/// gives a type.
fn segments_to_write(active: &SegmentSet, target: &SegmentSet, types: &NameMap<SegmentType>) -> (r: SegmentSet)
    requires
        target.wf(),
        types.wf(),
    ensures
        r.wf(),
        r@ == to_write_spec(active@, target@, types.view()),
{
    proof {
        target.lemma_view();
    }
    let ghost order = target.order();
    let mut r = SegmentSet::new();
    let n = target.len();
    let mut i: usize = 0;
    while i < n
        invariant
            target.wf(),
            types.wf(),
            order == target.order(),
            n == order.len(),
            i <= n,
            r.wf(),
            forall|s: Seq<char>| #[trigger] r@.contains(s) <==> (exists|t: int| 0 <= t < i && order[t] == s)
                && !active@.contains(s) && types.view().dom().contains(s),
        decreases n - i,
    {
        let id = target.get(i);
        if !active.contains(id.as_str()) && types.contains_key(id.as_str()) {
            r.insert(id.clone());
        }
        proof {
            assert forall|s: Seq<char>| #[trigger] r@.contains(s) <==> (exists|t: int| 0 <= t < i + 1 && order[t] == s)
                && !active@.contains(s) && types.view().dom().contains(s) by {
                if s == order[i as int] {
                    assert(order[i as int] == s);
                }
                if exists|t: int| 0 <= t < i + 1 && order[t] == s {
                    let t = choose|t: int| 0 <= t < i + 1 && order[t] == s;
                    if t < i {
                        assert(exists|t2: int| 0 <= t2 < i && order[t2] == s);
                    }
                }
            }
        }
        i = i + 1;
    }
    proof {
        assert forall|s: Seq<char>| r@.contains(s) <==> to_write_spec(active@, target@, types.view()).contains(s) by {
            if order.contains(s) {
                let t = choose|t: int| 0 <= t < order.len() && order[t] == s;
                assert(exists|t2: int| 0 <= t2 < n && order[t2] == s);
            }
        }
        assert(r@ =~= to_write_spec(active@, target@, types.view()));
    }
    r
}

/// The order in which the segments of `target` that `active` lacks, and that
/// the grid gives a type, are written.  They are grouped into strokes; each
/// stroke takes its group's main type, starts at the segment `stroke_start`
/// names for it (its first segment, should that name none of them) and is
/// walked along its connections, `walk_pick` choosing among the next
/// candidates; the strokes are put in the order `reading_order` gives (kept
/// as they are, should it not list each stroke once), then chained along
/// their links, and written stroke by stroke, `stroke_pick` choosing among
/// linked strokes.  Every segment to write is written exactly once,
/// whatever the choices.
pub fn generate_stroke_order<St, Wk, Rd, Pk>(
    active: &SegmentSet,
    target: &SegmentSet,
    types: &NameMap<SegmentType>,
    graph: &SegmentGraph,
    stroke_start: St,
    walk_pick: Wk,
    reading_order: Rd,
    stroke_pick: Pk,
) -> (r: Vec<String>) where
    St: Fn(&Vec<String>, SegmentType) -> String,
    Wk: Fn(SegmentType, String, Vec<String>) -> usize,
    Rd: Fn(&Vec<Stroke>) -> Vec<usize>,
    Pk: Fn(&Vec<Stroke>, Vec<usize>) -> usize,

    requires
        target.wf(),
        types.wf(),
        graph.wf(),
        forall|g: &Vec<String>, t: SegmentType| #[trigger] stroke_start.requires((g, t)),
        forall|t: SegmentType, at: String, c: Vec<String>| #[trigger] walk_pick.requires((t, at, c)),
        forall|s: &Vec<Stroke>| #[trigger] reading_order.requires((s,)),
        forall|s: &Vec<Stroke>, c: Vec<usize>| #[trigger] stroke_pick.requires((s, c)),
    ensures
        strings_of(r@).no_duplicates(),
        strings_of(r@).to_set() == to_write_spec(active@, target@, types.view()),
        exists|
            groups: Seq<Seq<Seq<char>>>,
            built: Vec<Stroke>,
            sorted: Vec<usize>,
            read: Seq<Stroke>,
            chain: Seq<usize>,
            chained: Vec<Stroke>,
            order: Seq<int>,
            kinds: Seq<bool>,
        |
            #[trigger] writing_stages(
                stroke_start,
                walk_pick,
                reading_order,
                stroke_pick,
                to_write_spec(active@, target@, types.view()),
                types.view(),
                graph.adjacency(),
                groups,
                built,
                sorted,
                read,
                chain,
                chained,
                order,
                kinds,
                strings_of(r@),
            ),
{
    let ghost adj = graph.adjacency();
    let ghost tv = types.view();
    let to_write = segments_to_write(active, target, types);
    let ghost w = to_write@;
    let groups = group_segments_into_strokes(&to_write, types, graph);
    let ghost gv = groups_view(groups@);
    proof {
        lemma_flat_groups(gv);
    }
    let mut strokes: Vec<Stroke> = Vec::new();
    let mut k: usize = 0;
    while k < groups.len()
        invariant
            types.wf(),
            graph.wf(),
            adj == graph.adjacency(),
            tv == types.view(),
            gv == groups_view(groups@),
            forall|j: int| 0 <= j < groups@.len() ==> #[trigger] gv[j].len() > 0,
            forall|j: int| 0 <= j < groups@.len() ==> #[trigger] gv[j].no_duplicates(),
            forall|g: &Vec<String>, t: SegmentType| #[trigger] stroke_start.requires((g, t)),
            forall|t: SegmentType, at: String, c: Vec<String>| #[trigger] walk_pick.requires((t, at, c)),
            k <= groups@.len(),
            strokes@.len() == k,
            forall|j: int| 0 <= j < k ==> #[trigger] built_stroke(stroke_start, walk_pick, tv, adj, gv[j], strokes@[j]),
        decreases groups@.len() - k,
    {
        let group = clone_strings(&groups[k]);
        let ghost g = gv[k as int];
        assert(strings_of(group@) == g);
        let primary = get_primary_segment_type(&group, types);
        let ghost g_group = group;
        let proposed = stroke_start(&group, primary);
        let ghost g_proposed = proposed@;
        let start = if holds(&group, proposed.as_str()) {
            proposed
        } else {
            assert(strings_of(group@)[0] == group@[0]@);
            group[0].clone()
        };
        assert(start@ == (if g.contains(g_proposed) { g_proposed } else { g[0] }));
        assert(strings_of(group@).contains(start@));
        let stroke = Stroke { segments: group, start_segment: start, end_segment: String::new(), primary_type: primary };
        let wp = &walk_pick;
        let walk = |at: String, c: Vec<String>| -> (i: usize)
            requires
                wp.requires((primary, at, c)),
            ensures
                wp.ensures((primary, at, c), i),
            { wp(primary, at, c) };
        let (ordered, end) = order_segments_in_stroke(&stroke, graph, walk);
        let ghost before = strokes@;
        let made = Stroke { segments: ordered, start_segment: stroke.start_segment, end_segment: end, primary_type: primary };
        proof {
            let ov = segs(made);
            assert forall|i: int| 1 <= i < ov.len() implies #[trigger] walk_picked(walk_pick, primary, adj, g, ov, i) by {
                assert(picked_step(walk, adj, g, ov, i));
                let cands = walk_candidates(adj, g, ov.subrange(0, i), ov[i - 1]);
                if cands.len() > 0 {
                    let (at, c, p) = choose|at: String, c: Vec<String>, p: usize|
                        #[trigger] walk.ensures((at, c), p) && at@ == ov[i - 1] && strings_of(c@) == cands && ov[i]
                            == cands[if p < cands.len() {
                            p as int
                        } else {
                            0
                        }];
                    assert(walk_pick.ensures((primary, at, c), p));
                }
            }
            assert(stroke_start.ensures((&g_group, primary), proposed));
            assert(built_stroke(stroke_start, walk_pick, tv, adj, g, made));
        }
        strokes.push(made);
        proof {
            assert forall|j: int| 0 <= j < k + 1 implies #[trigger] built_stroke(
                stroke_start,
                walk_pick,
                tv,
                adj,
                gv[j],
                strokes@[j],
            ) by {
                if j < k {
                    assert(strokes@[j] == before[j]);
                }
            }
        }
        k = k + 1;
    }
    proof {
        assert forall|a: int, b: int, x: Seq<char>|
            0 <= a < strokes@.len() && 0 <= b < strokes@.len() && a != b && #[trigger] segs(strokes@[a]).contains(x)
                implies !(#[trigger] segs(strokes@[b]).contains(x)) by {
            assert(built_stroke(stroke_start, walk_pick, tv, adj, gv[a], strokes@[a]));
            assert(built_stroke(stroke_start, walk_pick, tv, adj, gv[b], strokes@[b]));
            assert(segs(strokes@[a]).to_set().contains(x));
            assert(gv[a].contains(x));
            if segs(strokes@[b]).contains(x) {
                assert(segs(strokes@[b]).to_set().contains(x));
                assert(gv[b].contains(x));
            }
        }
        assert forall|j: int| 0 <= j < strokes@.len() implies #[trigger] segs(strokes@[j]).no_duplicates() by {
            assert(built_stroke(stroke_start, walk_pick, tv, adj, gv[j], strokes@[j]));
        }
        assert forall|j: int| 0 <= j < strokes@.len() implies segs(#[trigger] strokes@[j]).len() > 0 && segs(strokes@[j])[0]
            == strokes@[j].start_segment@ by {
            assert(built_stroke(stroke_start, walk_pick, tv, adj, gv[j], strokes@[j]));
        }
        assert forall|x: Seq<char>| w.contains(x) <==> exists|j: int|
            0 <= j < strokes@.len() && #[trigger] segs(strokes@[j]).contains(x) by {
            assert(flat(gv).to_set().contains(x) == flat(gv).contains(x));
            if w.contains(x) {
                assert(flat(gv).contains(x));
                let j = choose|j: int| 0 <= j < gv.len() && #[trigger] gv[j].contains(x);
                assert(built_stroke(stroke_start, walk_pick, tv, adj, gv[j], strokes@[j]));
                assert(gv[j].to_set().contains(x));
                assert(segs(strokes@[j]).to_set().contains(x));
            }
            if exists|j: int| 0 <= j < strokes@.len() && #[trigger] segs(strokes@[j]).contains(x) {
                let j = choose|j: int| 0 <= j < strokes@.len() && #[trigger] segs(strokes@[j]).contains(x);
                assert(built_stroke(stroke_start, walk_pick, tv, adj, gv[j], strokes@[j]));
                assert(segs(strokes@[j]).to_set().contains(x));
                assert(gv[j].contains(x));
                assert(flat(gv).contains(x));
            }
        }
        assert(covers(strokes@, w));
    }
    let connections = identify_connections(&strokes, graph);
    let ghost links = stroke_links(strokes@, adj);
    assert(links_view(connections) == links);
    let sorted = reading_order(&strokes);
    let in_reading_order = reorder_strokes(&strokes, &sorted);
    proof {
        lemma_covers_reordered(in_reading_order@, strokes@, order_or_identity(sorted@, strokes@.len()), w);
    }
    let chain = chain_strokes(&in_reading_order, &connections);
    let chained = reorder_strokes(&in_reading_order, &chain);
    proof {
        lemma_covers_reordered(chained@, in_reading_order@, order_or_identity(chain@, in_reading_order@.len()), w);
        lemma_covers_distinct_starts(chained@, w);
    }
    let sp = &stroke_pick;
    let strokes_ref = &chained;
    let pick = |c: Vec<usize>| -> (i: usize)
        requires
            sp.requires((strokes_ref, c)),
        ensures
            sp.ensures((strokes_ref, c), i),
        { sp(strokes_ref, c) };
    let r = order_strokes_with_connections(&chained, &connections, pick);
    proof {
        let (order, kinds) = choose|order: Seq<int>, kinds: Seq<bool>|
            #[trigger] emission_order(chained@, links_view(connections), order, kinds) && strings_of(r@)
                == strokes_segments(chained@, order) && (distinct_starts(chained@) ==> is_permutation(
                order,
                chained@.len(),
            )) && forall|m: int|
                0 <= m < order.len() ==> #[trigger] picked_follow(pick, chained@, links_view(connections), order, kinds, m);
        lemma_covers_segments(chained@, order, w);
        assert forall|m: int| 0 <= m < order.len() implies #[trigger] follow_picked(
            stroke_pick,
            chained@,
            links,
            order,
            kinds,
            m,
        ) by {
            assert(picked_follow(pick, chained@, links, order, kinds, m));
            if !kinds[m] {
                let cands = follow_candidates(chained@, links, chained@[order[m - 1]].start_segment@, written(chained@, order, m));
                let (c, p) = choose|c: Vec<usize>, p: usize|
                    #[trigger] pick.ensures((c,), p) && positions(c@) == cands && order[m] == cands[if p < cands.len() {
                        p as int
                    } else {
                        0
                    }];
                assert(stroke_pick.ensures((&chained, c), p));
            }
        }
        assert(writing_stages(
            stroke_start,
            walk_pick,
            reading_order,
            stroke_pick,
            w,
            tv,
            adj,
            gv,
            strokes,
            sorted,
            in_reading_order@,
            chain@,
            chained,
            order,
            kinds,
            strings_of(r@),
        ));
    }
    r
}

} // verus!
