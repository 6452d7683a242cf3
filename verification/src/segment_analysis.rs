//! Questions about a segment's neighbourhood in the segment graph.

use vstd::prelude::*;
use crate::name_map::NameMap;
use crate::segment_graph::SegmentGraph;
use crate::segment_set::SegmentSet;
use crate::order::{dedup_spec, lemma_dedup_sorted, lemma_sorted_version, sorted, sorted_version};
use crate::stroke::{
    append_strings, are_compatible_segments, clone_strings, compatible_spec, groups_view, holds, links_view,
    neighbor_ids, normalize_links, strings_of, SegmentType,
};
use crate::text::str_eq;

verus! {

/// The first element of `s` that satisfies `p`.
pub open spec fn first_match(s: Seq<Seq<char>>, p: spec_fn(Seq<char>) -> bool) -> Option<Seq<char>>
    decreases s.len(),
{
    if s.len() == 0 {
        None
    } else if p(s[0]) {
        Some(s[0])
    } else {
        first_match(s.drop_first(), p)
    }
}

proof fn lemma_first_match(s: Seq<Seq<char>>, p: spec_fn(Seq<char>) -> bool, i: int)
    requires
        0 <= i <= s.len(),
        forall|j: int| 0 <= j < i ==> !p(#[trigger] s[j]),
    ensures
        i < s.len() && p(s[i]) ==> first_match(s, p) == Some(s[i]),
        i == s.len() ==> first_match(s, p) is None,
    decreases s.len(),
{
    if s.len() > 0 && i > 0 {
        let t = s.drop_first();
        assert forall|j: int| 0 <= j < i - 1 implies !p(#[trigger] t[j]) by {
            assert(t[j] == s[j + 1]);
        }
        lemma_first_match(t, p, i - 1);
        if i < s.len() {
            assert(t[i - 1] == s[i]);
        }
    }
}

/// Membership in the lit segments.
pub open spec fn lit_in(active: Set<Seq<char>>) -> spec_fn(Seq<char>) -> bool {
    |n: Seq<char>| active.contains(n)
}

/// Having a type compatible with that of `segment`.
pub open spec fn fits_with(types: Map<Seq<char>, SegmentType>, segment: Seq<char>) -> spec_fn(Seq<char>) -> bool {
    |n: Seq<char>| types.dom().contains(n) && compatible_spec(types[segment], types[n])
}

/// The neighbour that a segment leaving the lit set shrinks toward: the
/// first neighbour that is lit; failing that, when the segment has a type,
/// the first neighbour of a compatible type; failing that, the first
/// neighbour.
pub open spec fn most_compatible_spec(
    neighbors: Seq<Seq<char>>,
    segment: Seq<char>,
    types: Map<Seq<char>, SegmentType>,
    active: Set<Seq<char>>,
) -> Option<Seq<char>> {
    match first_match(neighbors, lit_in(active)) {
        Some(n) => Some(n),
        None => {
            let compatible = if types.dom().contains(segment) {
                first_match(neighbors, fits_with(types, segment))
            } else {
                None
            };
            match compatible {
                Some(n) => Some(n),
                None => if neighbors.len() > 0 {
                    Some(neighbors[0])
                } else {
                    None
                },
            }
        },
    }
}

/// The neighbour of `segment_id` that it best joins: the first lit one,
/// else the first of a compatible type, else the first; `None` when it has
/// no neighbour.
pub fn find_most_compatible_segment(
    segment_id: &str,
    graph: &SegmentGraph,
    types: &NameMap<SegmentType>,
    active_segments: &SegmentSet,
) -> (r: Option<String>)
    requires
        graph.wf(),
        types.wf(),
    ensures
        match r {
            Some(n) => most_compatible_spec(
                neighbor_ids(graph.adjacency(), segment_id@),
                segment_id@,
                types.view(),
                active_segments@,
            ) == Some(n@),
            None => most_compatible_spec(
                neighbor_ids(graph.adjacency(), segment_id@),
                segment_id@,
                types.view(),
                active_segments@,
            ) is None,
        },
{
    let neighbors = graph.get_neighbors(segment_id);
    let ghost ns = neighbors@.map_values(|s: String| s@);
    assert(ns == neighbor_ids(graph.adjacency(), segment_id@));
    let ghost lit = lit_in(active_segments@);
    let mut i: usize = 0;
    while i < neighbors.len()
        invariant
            ns == neighbors@.map_values(|s: String| s@),
            ns == neighbor_ids(graph.adjacency(), segment_id@),
            lit == lit_in(active_segments@),
            i <= ns.len(),
            forall|j: int| 0 <= j < i ==> !lit(#[trigger] ns[j]),
        decreases ns.len() - i,
    {
        assert(ns[i as int] == neighbors@[i as int]@);
        if active_segments.contains(neighbors[i].as_str()) {
            proof {
                lemma_first_match(ns, lit, i as int);
            }
            return Some(neighbors[i].clone());
        }
        i = i + 1;
    }
    proof {
        lemma_first_match(ns, lit, i as int);
    }
    match types.get(segment_id) {
        Some(t) => {
            let ghost fits = fits_with(types.view(), segment_id@);
            let mut k: usize = 0;
            while k < neighbors.len()
                invariant
                    types.wf(),
                    ns == neighbors@.map_values(|s: String| s@),
                    ns == neighbor_ids(graph.adjacency(), segment_id@),
                    first_match(ns, lit_in(active_segments@)) is None,
                    types.view().dom().contains(segment_id@),
                    *t == types.view()[segment_id@],
                    fits == fits_with(types.view(), segment_id@),
                    k <= ns.len(),
                    forall|j: int| 0 <= j < k ==> !fits(#[trigger] ns[j]),
                decreases ns.len() - k,
            {
                assert(ns[k as int] == neighbors@[k as int]@);
                match types.get(neighbors[k].as_str()) {
                    Some(u) => {
                        if are_compatible_segments(*t, *u) {
                            proof {
                                lemma_first_match(ns, fits, k as int);
                            }
                            return Some(neighbors[k].clone());
                        }
                    },
                    None => {},
                }
                k = k + 1;
            }
            proof {
                lemma_first_match(ns, fits, k as int);
            }
        },
        None => {},
    }
    if neighbors.len() > 0 {
        assert(ns[0] == neighbors@[0]@);
        Some(neighbors[0].clone())
    } else {
        None
    }
}


/// Segment `n` belongs to a group other than group `i` (groups with the
/// same members count as the same group).
pub open spec fn in_other_group(gs: Seq<Seq<Seq<char>>>, i: int, n: Seq<char>) -> bool {
    exists|j: int| 0 <= j < gs.len() && gs[j] != gs[i] && #[trigger] gs[j].contains(n)
}

/// `n` is a link of segment `k` as a member of group `i`: a neighbour of
/// `k` outside group `i` that belongs to another group.
pub open spec fn link_cond(
    gs: Seq<Seq<Seq<char>>>,
    adj: Map<Seq<char>, Seq<Seq<char>>>,
    i: int,
    k: Seq<char>,
    n: Seq<char>,
) -> bool {
    &&& neighbor_ids(adj, k).contains(n)
    &&& !gs[i].contains(n)
    &&& in_other_group(gs, i, n)
}

/// The links of segment `k` as a member of group `i`.
pub open spec fn group_links(
    gs: Seq<Seq<Seq<char>>>,
    adj: Map<Seq<char>, Seq<Seq<char>>>,
    i: int,
    k: Seq<char>,
) -> Set<Seq<char>> {
    Set::new(|n: Seq<char>| link_cond(gs, adj, i, k, n))
}

/// The segments that segment `k` links to across groups, whichever of its
/// groups it is taken in.
pub open spec fn segment_links(gs: Seq<Seq<Seq<char>>>, adj: Map<Seq<char>, Seq<Seq<char>>>, k: Seq<char>) -> Set<
    Seq<char>,
> {
    Set::new(|n: Seq<char>| exists|i: int| 0 <= i < gs.len() && #[trigger] gs[i].contains(k) && link_cond(gs, adj, i, k, n))
}

/// Segment `k` was met as a member of group `i2` before position `a` of
/// group `i`.
spec fn visited(gs: Seq<Seq<Seq<char>>>, i: int, a: int, i2: int, k: Seq<char>) -> bool {
    ||| (0 <= i2 < i && gs[i2].contains(k))
    ||| (i2 == i && gs[i].subrange(0, a).contains(k))
}

/// The links of `k` found before position `a` of group `i`.
spec fn partial_links(
    gs: Seq<Seq<Seq<char>>>,
    adj: Map<Seq<char>, Seq<Seq<char>>>,
    i: int,
    a: int,
    k: Seq<char>,
) -> Set<Seq<char>> {
    Set::new(|n: Seq<char>| exists|i2: int| #[trigger] visited(gs, i, a, i2, k) && link_cond(gs, adj, i2, k, n))
}

proof fn lemma_partial_start(gs: Seq<Seq<Seq<char>>>, adj: Map<Seq<char>, Seq<Seq<char>>>, k: Seq<char>)
    ensures
        partial_links(gs, adj, 0, 0, k) == Set::<Seq<char>>::empty(),
{
    assert forall|n: Seq<char>| !partial_links(gs, adj, 0, 0, k).contains(n) by {
        assert forall|i2: int| !#[trigger] visited(gs, 0, 0, i2, k) by {
            if i2 == 0 {
                assert(gs[0].subrange(0, 0) =~= Seq::<Seq<char>>::empty());
            }
        }
    }
    assert(partial_links(gs, adj, 0, 0, k) =~= Set::<Seq<char>>::empty());
}

proof fn lemma_partial_step(gs: Seq<Seq<Seq<char>>>, adj: Map<Seq<char>, Seq<Seq<char>>>, i: int, a: int, k: Seq<char>)
    requires
        0 <= i < gs.len(),
        0 <= a < gs[i].len(),
    ensures
        k != gs[i][a] ==> partial_links(gs, adj, i, a + 1, k) == partial_links(gs, adj, i, a, k),
        k == gs[i][a] ==> partial_links(gs, adj, i, a + 1, k) == partial_links(gs, adj, i, a, k).union(
            group_links(gs, adj, i, k),
        ),
{
    let a1 = a + 1;
    let pre = gs[i].subrange(0, a);
    let post = gs[i].subrange(0, a1);
    assert(post =~= pre.push(gs[i][a]));
    assert forall|i2: int| #[trigger] visited(gs, i, a1, i2, k) <==> visited(gs, i, a, i2, k) || (i2 == i && k
        == gs[i][a]) by {
        if i2 == i {
            assert(post.contains(k) <==> pre.contains(k) || k == gs[i][a]) by {
                if post.contains(k) && k != gs[i][a] {
                    let t = choose|t: int| #![auto] 0 <= t < a1 && post[t] == k;
                    assert(pre[t] == k);
                }
                if k == gs[i][a] {
                    assert(post[a] == k);
                }
                if pre.contains(k) {
                    let t = choose|t: int| #![auto] 0 <= t < a && pre[t] == k;
                    assert(post[t] == k);
                }
            }
        }
    }
    if k == gs[i][a] {
        let p0 = partial_links(gs, adj, i, a, k);
        let p1 = partial_links(gs, adj, i, a1, k);
        let g = group_links(gs, adj, i, k);
        assert forall|n: Seq<char>| #[trigger] p1.contains(n) implies p0.contains(n) || g.contains(n) by {
            let i2 = choose|i2: int| #[trigger] visited(gs, i, a1, i2, k) && link_cond(gs, adj, i2, k, n);
            if visited(gs, i, a, i2, k) {
                assert(p0.contains(n));
            } else {
                assert(i2 == i);
                assert(g.contains(n));
            }
        }
        assert forall|n: Seq<char>| p0.contains(n) || g.contains(n) implies #[trigger] p1.contains(n) by {
            if p0.contains(n) {
                let i2 = choose|i2: int| #[trigger] visited(gs, i, a, i2, k) && link_cond(gs, adj, i2, k, n);
                assert(visited(gs, i, a1, i2, k));
            } else {
                assert(link_cond(gs, adj, i, k, n));
                assert(post[a] == k);
                assert(visited(gs, i, a1, i, k));
            }
        }
        assert(p1 =~= p0.union(g));
    } else {
        assert forall|n: Seq<char>| partial_links(gs, adj, i, a1, k).contains(n) <==> partial_links(
            gs,
            adj,
            i,
            a,
            k,
        ).contains(n) by {
            if partial_links(gs, adj, i, a, k).contains(n) {
                let i2 = choose|i2: int| #[trigger] visited(gs, i, a, i2, k) && link_cond(gs, adj, i2, k, n);
                assert(visited(gs, i, a1, i2, k));
            }
            if partial_links(gs, adj, i, a1, k).contains(n) {
                let i2 = choose|i2: int| #[trigger] visited(gs, i, a1, i2, k) && link_cond(gs, adj, i2, k, n);
                assert(visited(gs, i, a, i2, k));
            }
        }
        assert(partial_links(gs, adj, i, a1, k) =~= partial_links(gs, adj, i, a, k));
    }
}

proof fn lemma_partial_next_group(gs: Seq<Seq<Seq<char>>>, adj: Map<Seq<char>, Seq<Seq<char>>>, i: int, k: Seq<char>)
    requires
        0 <= i < gs.len(),
    ensures
        partial_links(gs, adj, i, gs[i].len() as int, k) == partial_links(gs, adj, i + 1, 0, k),
{
    assert(gs[i].subrange(0, gs[i].len() as int) =~= gs[i]);
    assert forall|i2: int| #[trigger] visited(gs, i, gs[i].len() as int, i2, k) <==> visited(gs, i + 1, 0, i2, k) by {
        if i2 == i + 1 {
            assert(gs[i + 1].subrange(0, 0) =~= Seq::<Seq<char>>::empty());
        }
    }
    assert forall|n: Seq<char>| partial_links(gs, adj, i, gs[i].len() as int, k).contains(n) <==> partial_links(
        gs,
        adj,
        i + 1,
        0,
        k,
    ).contains(n) by {
        if partial_links(gs, adj, i, gs[i].len() as int, k).contains(n) {
            let i2 = choose|i2: int| #[trigger] visited(gs, i, gs[i].len() as int, i2, k) && link_cond(gs, adj, i2, k, n);
            assert(visited(gs, i + 1, 0, i2, k));
        }
        if partial_links(gs, adj, i + 1, 0, k).contains(n) {
            let i2 = choose|i2: int| #[trigger] visited(gs, i + 1, 0, i2, k) && link_cond(gs, adj, i2, k, n);
            assert(visited(gs, i, gs[i].len() as int, i2, k));
        }
    }
    assert(partial_links(gs, adj, i, gs[i].len() as int, k) =~= partial_links(gs, adj, i + 1, 0, k));
}

proof fn lemma_partial_all(gs: Seq<Seq<Seq<char>>>, adj: Map<Seq<char>, Seq<Seq<char>>>, k: Seq<char>)
    ensures
        partial_links(gs, adj, gs.len() as int, 0, k) == segment_links(gs, adj, k),
{
    let m = gs.len() as int;
    assert forall|n: Seq<char>| partial_links(gs, adj, m, 0, k).contains(n) <==> segment_links(gs, adj, k).contains(
        n,
    ) by {
        if partial_links(gs, adj, m, 0, k).contains(n) {
            let i2 = choose|i2: int| #[trigger] visited(gs, m, 0, i2, k) && link_cond(gs, adj, i2, k, n);
            if i2 == m {
                assert(gs[m].subrange(0, 0) =~= Seq::<Seq<char>>::empty());
            }
            assert(gs[i2].contains(k));
        }
        if segment_links(gs, adj, k).contains(n) {
            let i = choose|i: int| 0 <= i < gs.len() && #[trigger] gs[i].contains(k) && link_cond(gs, adj, i, k, n);
            assert(visited(gs, m, 0, i, k));
        }
    }
    assert(partial_links(gs, adj, m, 0, k) =~= segment_links(gs, adj, k));
}

/// What the links gathered so far are, before and after taking in the
/// links `found` of the segment at position `a` of group `i`.
spec fn gathered(
    gs: Seq<Seq<Seq<char>>>,
    adj: Map<Seq<char>, Seq<Seq<char>>>,
    i: int,
    a: int,
    m: Map<Seq<char>, Seq<Seq<char>>>,
) -> bool {
    &&& forall|k: Seq<char>| #[trigger] m.dom().contains(k) <==> exists|n: Seq<char>| partial_links(gs, adj, i, a, k).contains(n)
    &&& forall|k: Seq<char>| #[trigger] m.dom().contains(k) ==> m[k].to_set() == partial_links(gs, adj, i, a, k)
}

proof fn lemma_links_step(
    gs: Seq<Seq<Seq<char>>>,
    adj: Map<Seq<char>, Seq<Seq<char>>>,
    i: int,
    a: int,
    before: Map<Seq<char>, Seq<Seq<char>>>,
    after: Map<Seq<char>, Seq<Seq<char>>>,
    found: Seq<Seq<char>>,
)
    requires
        0 <= i < gs.len(),
        0 <= a < gs[i].len(),
        found.to_set() == group_links(gs, adj, i, gs[i][a]),
        gathered(gs, adj, i, a, before),
        found.len() == 0 ==> after == before,
        found.len() > 0 ==> after == before.insert(
            gs[i][a],
            if before.dom().contains(gs[i][a]) {
                before[gs[i][a]] + found
            } else {
                found
            },
        ),
    ensures
        gathered(gs, adj, i, a + 1, after),
{
    let s = gs[i][a];
    let a1 = a + 1;
    assert forall|k: Seq<char>| #[trigger] after.dom().contains(k) <==> exists|n: Seq<char>| partial_links(gs, adj, i, a1, k).contains(n) by {
        lemma_partial_step(gs, adj, i, a, k);
        if k == s {
            if found.len() > 0 {
                assert(found.to_set().contains(found[0]));
                assert(partial_links(gs, adj, i, a1, k).contains(found[0]));
            } else {
                assert(group_links(gs, adj, i, s) =~= Set::<Seq<char>>::empty()) by {
                    assert(found =~= Seq::<Seq<char>>::empty());
                }
                assert(partial_links(gs, adj, i, a1, k) =~= partial_links(gs, adj, i, a, k));
            }
        }
    }
    assert forall|k: Seq<char>| #[trigger] after.dom().contains(k) implies after[k].to_set() == partial_links(gs, adj, i, a1, k) by {
        lemma_partial_step(gs, adj, i, a, k);
        if k == s {
            if found.len() > 0 {
                if before.dom().contains(k) {
                    vstd::seq_lib::seq_to_set_distributes_over_add(before[k], found);
                    assert(after[k].to_set() =~= before[k].to_set().union(found.to_set()));
                } else {
                    assert(partial_links(gs, adj, i, a, k) =~= Set::<Seq<char>>::empty());
                }
            } else {
                assert(group_links(gs, adj, i, s) =~= Set::<Seq<char>>::empty()) by {
                    assert(found =~= Seq::<Seq<char>>::empty());
                }
            }
        }
    }
}

proof fn lemma_links_next_group(
    gs: Seq<Seq<Seq<char>>>,
    adj: Map<Seq<char>, Seq<Seq<char>>>,
    i: int,
    m: Map<Seq<char>, Seq<Seq<char>>>,
)
    requires
        0 <= i < gs.len(),
        gathered(gs, adj, i, gs[i].len() as int, m),
    ensures
        gathered(gs, adj, i + 1, 0, m),
{
    let i1 = i + 1;
    assert forall|k: Seq<char>| #[trigger] m.dom().contains(k) <==> exists|n: Seq<char>| partial_links(gs, adj, i1, 0, k).contains(n) by {
        lemma_partial_next_group(gs, adj, i, k);
    }
    assert forall|k: Seq<char>| #[trigger] m.dom().contains(k) implies m[k].to_set() == partial_links(gs, adj, i1, 0, k) by {
        lemma_partial_next_group(gs, adj, i, k);
    }
}

/// Whether two lists hold the same strings in the same order.
fn same_strings(a: &Vec<String>, b: &Vec<String>) -> (r: bool)
    ensures
        r == (strings_of(a@) == strings_of(b@)),
{
    if a.len() != b.len() {
        assert(strings_of(a@).len() != strings_of(b@).len());
        return false;
    }
    let mut i: usize = 0;
    while i < a.len()
        invariant
            a@.len() == b@.len(),
            i <= a@.len(),
            forall|j: int| 0 <= j < i ==> #[trigger] strings_of(a@)[j] == strings_of(b@)[j],
        decreases a@.len() - i,
    {
        if !str_eq(a[i].as_str(), b[i].as_str()) {
            assert(strings_of(a@)[i as int] != strings_of(b@)[i as int]);
            return false;
        }
        assert(strings_of(a@)[i as int] == strings_of(b@)[i as int]);
        i = i + 1;
    }
    assert(strings_of(a@) =~= strings_of(b@));
    true
}

/// Whether `n` belongs to a group other than group `i`.
fn other_group_holds(groups: &Vec<Vec<String>>, i: usize, n: &str) -> (r: bool)
    requires
        i < groups@.len(),
    ensures
        r == in_other_group(groups_view(groups@), i as int, n@),
{
    let ghost gs = groups_view(groups@);
    let mut j: usize = 0;
    while j < groups.len()
        invariant
            gs == groups_view(groups@),
            i < gs.len(),
            j <= gs.len(),
            forall|t: int| 0 <= t < j ==> !(gs[t] != gs[i as int] && #[trigger] gs[t].contains(n@)),
        decreases gs.len() - j,
    {
        assert(gs[j as int] == strings_of(groups@[j as int]@));
        assert(gs[i as int] == strings_of(groups@[i as int]@));
        if !same_strings(&groups[j], &groups[i]) && holds(&groups[j], n) {
            return true;
        }
        j = j + 1;
    }
    false
}

/// The links of segment `s` as a member of group `i`, in the graph's order.
fn links_in_group(groups: &Vec<Vec<String>>, i: usize, s: &str, graph: &SegmentGraph) -> (r: Vec<String>)
    requires
        graph.wf(),
        i < groups@.len(),
    ensures
        strings_of(r@).to_set() == group_links(groups_view(groups@), graph.adjacency(), i as int, s@),
{
    let ghost gs = groups_view(groups@);
    let ghost adj = graph.adjacency();
    let neighbors = graph.get_neighbors(s);
    let ghost ns = strings_of(neighbors@);
    assert(ns == neighbor_ids(adj, s@));
    assert(gs[i as int] == strings_of(groups@[i as int]@));
    let mut r: Vec<String> = Vec::new();
    let mut b: usize = 0;
    assert(strings_of(r@).to_set() =~= Set::<Seq<char>>::empty());
    while b < neighbors.len()
        invariant
            gs == groups_view(groups@),
            i < gs.len(),
            gs[i as int] == strings_of(groups@[i as int]@),
            ns == strings_of(neighbors@),
            b <= ns.len(),
            strings_of(r@).to_set() == Set::new(
                |n: Seq<char>| ns.subrange(0, b as int).contains(n) && !gs[i as int].contains(n) && in_other_group(
                    gs,
                    i as int,
                    n,
                ),
            ),
        decreases ns.len() - b,
    {
        let n = neighbors[b].as_str();
        assert(ns[b as int] == n@);
        let ghost before = strings_of(r@);
        let keep = !holds(&groups[i], n) && other_group_holds(groups, i, n);
        if keep {
            r.push(neighbors[b].clone());
            proof {
                assert(strings_of(r@) =~= before.push(n@));
                before.lemma_push_to_set_commute(n@);
            }
        }
        proof {
            let pre = ns.subrange(0, b as int);
            let post = ns.subrange(0, b + 1);
            assert(post =~= pre.push(n@));
            assert forall|x: Seq<char>| post.contains(x) <==> pre.contains(x)
                || x == n@ by {
                if post.contains(x) && x != n@ {
                    let t = choose|t: int| #![auto] 0 <= t < b + 1 && post[t] == x;
                    assert(pre[t] == x);
                }
                if x == n@ {
                    assert(post[b as int] == x);
                }
                if pre.contains(x) {
                    let t = choose|t: int| #![auto] 0 <= t < b && pre[t] == x;
                    assert(post[t] == x);
                }
            }
            assert(strings_of(r@).to_set() =~= Set::new(
                |x: Seq<char>| post.contains(x) && !gs[i as int].contains(x) && in_other_group(
                    gs,
                    i as int,
                    x,
                ),
            ));
        }
        b = b + 1;
    }
    proof {
        assert(ns.subrange(0, b as int) =~= ns);
        assert(strings_of(r@).to_set() =~= group_links(gs, adj, i as int, s@));
    }
    r
}

/// The links between segments of different groups: for each segment that
/// touches a segment of another group, the segments it touches there, in
/// string order, each once.
pub fn identify_segment_connections(segment_groups: &Vec<Vec<String>>, graph: &SegmentGraph) -> (r: NameMap<
    Vec<String>,
>)
    requires
        graph.wf(),
    ensures
        r.wf(),
        forall|k: Seq<char>|
            #[trigger] links_view(r).dom().contains(k) <==> exists|n: Seq<char>| segment_links(
                groups_view(segment_groups@),
                graph.adjacency(),
                k,
            ).contains(n),
        forall|k: Seq<char>|
            #[trigger] links_view(r).dom().contains(k) ==> {
                &&& sorted(links_view(r)[k])
                &&& links_view(r)[k].no_duplicates()
                &&& links_view(r)[k].to_set() == segment_links(groups_view(segment_groups@), graph.adjacency(), k)
            },
{
    let ghost gs = groups_view(segment_groups@);
    let ghost adj = graph.adjacency();
    let mut raw: NameMap<Vec<String>> = NameMap::new();
    proof {
        assert(links_view(raw) =~= Map::<Seq<char>, Seq<Seq<char>>>::empty());
        assert forall|k: Seq<char>| partial_links(gs, adj, 0, 0, k) == Set::<Seq<char>>::empty() by {
            lemma_partial_start(gs, adj, k);
        }
    }
    let mut i: usize = 0;
    while i < segment_groups.len()
        invariant
            graph.wf(),
            adj == graph.adjacency(),
            gs == groups_view(segment_groups@),
            i <= gs.len(),
            raw.wf(),
            gathered(gs, adj, i as int, 0, links_view(raw)),
        decreases gs.len() - i,
    {
        let group = &segment_groups[i];
        assert(gs[i as int] == strings_of(group@));
        let mut a: usize = 0;
        while a < group.len()
            invariant
                graph.wf(),
                adj == graph.adjacency(),
                gs == groups_view(segment_groups@),
                i < gs.len(),
                gs[i as int] == strings_of(group@),
                a <= group@.len(),
                raw.wf(),
                gathered(gs, adj, i as int, a as int, links_view(raw)),
            decreases group@.len() - a,
        {
            let s = group[a].as_str();
            assert(gs[i as int][a as int] == s@);
            let found = links_in_group(segment_groups, i, s, graph);
            let ghost fv = strings_of(found@);
            let ghost before = links_view(raw);
            if found.len() > 0 {
                proof {
                    raw.lemma_wf_facts();
                }
                match raw.find(s) {
                    Some(p) => {
                        let mut list = clone_strings(raw.value_at(p));
                        proof {
                            assert(raw.key_seq().to_set().contains(s@));
                            assert(raw.view()[s@] == raw.val_seq()[p as int]);
                        }
                        let ghost old_list = strings_of(list@);
                        append_strings(&mut list, &found);
                        raw.set_value_at(p, list);
                        proof {
                            assert(links_view(raw) =~= before.insert(s@, old_list + fv));
                            lemma_links_step(gs, adj, i as int, a as int, before, links_view(raw), fv);
                        }
                    },
                    None => {
                        proof {
                            assert(!raw.view().dom().contains(s@));
                        }
                        raw.insert(String::from_str(s), found);
                        proof {
                            assert(links_view(raw) =~= before.insert(s@, fv));
                            lemma_links_step(gs, adj, i as int, a as int, before, links_view(raw), fv);
                        }
                    },
                }
            } else {
                proof {
                    lemma_links_step(gs, adj, i as int, a as int, before, links_view(raw), fv);
                }
            }
            a = a + 1;
        }
        proof {
            lemma_links_next_group(gs, adj, i as int, links_view(raw));
        }
        i = i + 1;
    }
    let ghost unsorted = links_view(raw);
    normalize_links(&mut raw);
    proof {
        assert forall|k: Seq<char>| #[trigger] links_view(raw).dom().contains(k) <==> exists|n: Seq<char>|
            segment_links(gs, adj, k).contains(n) by {
            lemma_partial_all(gs, adj, k);
        }
        assert forall|k: Seq<char>| #[trigger] links_view(raw).dom().contains(k) implies {
            &&& sorted(links_view(raw)[k])
            &&& links_view(raw)[k].no_duplicates()
            &&& links_view(raw)[k].to_set() == segment_links(gs, adj, k)
        } by {
            lemma_partial_all(gs, adj, k);
            let v = unsorted[k];
            lemma_sorted_version(v);
            lemma_dedup_sorted(sorted_version(v));
            assert(links_view(raw)[k] == dedup_spec(sorted_version(v)));
        }
    }
    raw
}
} // verus!
