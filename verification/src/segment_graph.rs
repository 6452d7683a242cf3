//! The segment graph: which segments of a grid touch which.  Transitions
//! travel along it, from the segments that are lit to the ones that are to
//! be lit.  Where two segments touch is measured on their geometry by the
//! renderer; the graph keeps the result and answers path questions.

use vstd::prelude::*;
use vstd::hash_set::StringHashSet;
use crate::name_map::NameMap;
use crate::segment_set::SegmentSet;

verus! {

/// A connection from a segment to the segment it touches.
pub struct SegmentConnection {
    pub segment_id: String,
}

/// A segment: its id, the tile it sits on, and the segments it touches, in
/// the order the connections were found.
pub struct SegmentNode {
    pub id: String,
    pub tile_pos: (u32, u32),
    pub connections: Vec<SegmentConnection>,
}

/// Segments by id.
pub struct SegmentGraph {
    nodes: NameMap<SegmentNode>,
}

/// The ids a node's connections lead to, in order.
pub open spec fn connection_ids(n: SegmentNode) -> Seq<Seq<char>> {
    n.connections@.map_values(|c: SegmentConnection| c.segment_id@)
}

/// `v` is among the connections of `u`.
pub open spec fn is_edge(adj: Map<Seq<char>, Seq<Seq<char>>>, u: Seq<char>, v: Seq<char>) -> bool {
    adj.dom().contains(u) && adj[u].contains(v)
}

/// `p` is a walk along connections.
pub open spec fn is_walk(adj: Map<Seq<char>, Seq<Seq<char>>>, p: Seq<Seq<char>>) -> bool {
    &&& p.len() >= 1
    &&& forall|i: int| 0 <= i < p.len() - 1 ==> is_edge(adj, #[trigger] p[i], p[i + 1])
}

/// Some walk along connections leads from `a` to `b` (every segment
/// reaches itself).
pub open spec fn reaches(adj: Map<Seq<char>, Seq<Seq<char>>>, a: Seq<char>, b: Seq<char>) -> bool {
    exists|p: Seq<Seq<char>>| #[trigger] is_walk(adj, p) && p[0] == a && p.last() == b
}

/// A set that holds every segment that its members connect to.
pub open spec fn closed_under(adj: Map<Seq<char>, Seq<Seq<char>>>, s: Set<Seq<char>>) -> bool {
    forall|u: Seq<char>, v: Seq<char>| #[trigger] s.contains(u) && is_edge(adj, u, v) ==> #[trigger] s.contains(v)
}

/// Whatever a member of a closed set reaches is in the set.
pub proof fn lemma_closed_contains_reached(
    adj: Map<Seq<char>, Seq<Seq<char>>>,
    s: Set<Seq<char>>,
    p: Seq<Seq<char>>,
)
    requires
        closed_under(adj, s),
        is_walk(adj, p),
        s.contains(p[0]),
    ensures
        s.contains(p.last()),
    decreases p.len(),
{
    if p.len() > 1 {
        let q = p.drop_last();
        assert forall|i: int| 0 <= i < q.len() - 1 implies is_edge(adj, #[trigger] q[i], q[i + 1]) by {
            assert(q[i] == p[i]);
            assert(q[i + 1] == p[i + 1]);
        }
        lemma_closed_contains_reached(adj, s, q);
        assert(is_edge(adj, p[p.len() - 2], p[p.len() - 1]));
        assert(s.contains(q.last()));
    }
}

impl SegmentGraph {
    pub closed spec fn wf(&self) -> bool {
        self.nodes.wf()
    }

    /// Each segment's connections, by segment id.
    pub closed spec fn adjacency(&self) -> Map<Seq<char>, Seq<Seq<char>>> {
        Map::new(
            |k: Seq<char>| self.nodes.view().dom().contains(k),
            |k: Seq<char>| connection_ids(self.nodes.view()[k]),
        )
    }

    /// The segments' tiles, by segment id.
    pub closed spec fn tiles(&self) -> Map<Seq<char>, (u32, u32)> {
        Map::new(
            |k: Seq<char>| self.nodes.view().dom().contains(k),
            |k: Seq<char>| self.nodes.view()[k].tile_pos,
        )
    }

    /// A graph without segments.
    pub fn new() -> (r: Self)
        ensures
            r.wf(),
            r.adjacency() == Map::<Seq<char>, Seq<Seq<char>>>::empty(),
    {
        let r = SegmentGraph { nodes: NameMap::new() };
        assert(r.adjacency() =~= Map::<Seq<char>, Seq<Seq<char>>>::empty());
        r
    }

    /// Adds segment `id` on tile `tile_pos`, touching nothing yet; a segment
    /// already under that id is replaced.
    pub fn add_segment(&mut self, id: String, tile_pos: (u32, u32))
        requires
            old(self).wf(),
        ensures
            final(self).wf(),
            final(self).adjacency() == old(self).adjacency().insert(id@, Seq::<Seq<char>>::empty()),
            final(self).tiles() == old(self).tiles().insert(id@, tile_pos),
    {
        let key = id.clone();
        let node = SegmentNode { id, tile_pos, connections: Vec::new() };
        assert(connection_ids(node) =~= Seq::<Seq<char>>::empty());
        self.nodes.insert(key, node);
        assert(self.adjacency() =~= old(self).adjacency().insert(key@, Seq::<Seq<char>>::empty()));
        assert(self.tiles() =~= old(self).tiles().insert(key@, tile_pos));
    }

    /// Records the segments that segment `id` touches, in order; nothing
    /// happens when there is no segment `id`.
    pub fn set_connections(&mut self, id: &str, connected: Vec<String>)
        requires
            old(self).wf(),
        ensures
            final(self).wf(),
            final(self).tiles() == old(self).tiles(),
            final(self).adjacency() == if old(self).adjacency().dom().contains(id@) {
                old(self).adjacency().insert(id@, connected@.map_values(|s: String| s@))
            } else {
                old(self).adjacency()
            },
    {
        proof {
            self.nodes.lemma_wf_facts();
        }
        match self.nodes.find(id) {
            Some(i) => {
                let old_node = self.nodes.value_at(i);
                let node_id = old_node.id.clone();
                let tile_pos = old_node.tile_pos;
                let mut connections: Vec<SegmentConnection> = Vec::new();
                let mut j: usize = 0;
                while j < connected.len()
                    invariant
                        j <= connected@.len(),
                        connections@.map_values(|c: SegmentConnection| c.segment_id@)
                            == connected@.subrange(0, j as int).map_values(|s: String| s@),
                    decreases connected@.len() - j,
                {
                    let ghost before = connections@;
                    let sid = connected[j].clone();
                    assert(sid@ == connected@[j as int]@);
                    connections.push(SegmentConnection { segment_id: sid });
                    assert(connections@.map_values(|c: SegmentConnection| c.segment_id@)
                        =~= before.map_values(|c: SegmentConnection| c.segment_id@).push(
                        connected@[j as int]@,
                    ));
                    assert(connected@.subrange(0, j + 1).map_values(|s: String| s@)
                        =~= connected@.subrange(0, j as int).map_values(|s: String| s@).push(
                        connected@[j as int]@,
                    ));
                    j = j + 1;
                }
                assert(connected@.subrange(0, j as int) =~= connected@);
                let node = SegmentNode { id: node_id, tile_pos, connections };
                let ghost k = self.nodes.key_seq()[i as int];
                self.nodes.set_value_at(i, node);
                assert(self.adjacency() =~= old(self).adjacency().insert(
                    id@,
                    connected@.map_values(|s: String| s@),
                ));
                assert(self.tiles() =~= old(self).tiles());
            },
            None => {
                assert(self.adjacency() =~= old(self).adjacency());
            },
        }
    }

    /// The segment `id`.
    pub fn get_node(&self, id: &str) -> (r: Option<&SegmentNode>)
        requires
            self.wf(),
        ensures
            match r {
                Some(n) => self.adjacency().dom().contains(id@) && connection_ids(*n)
                    == self.adjacency()[id@] && n.tile_pos == self.tiles()[id@],
                None => !self.adjacency().dom().contains(id@),
            },
    {
        self.nodes.get(id)
    }

    /// The ids of the segments that segment `id` touches, in order; none for
    /// an unknown id.
    pub fn get_neighbors(&self, id: &str) -> (r: Vec<String>)
        requires
            self.wf(),
        ensures
            r@.map_values(|s: String| s@) == if self.adjacency().dom().contains(id@) {
                self.adjacency()[id@]
            } else {
                Seq::<Seq<char>>::empty()
            },
    {
        match self.nodes.get(id) {
            Some(node) => {
                let mut out: Vec<String> = Vec::new();
                let mut j: usize = 0;
                while j < node.connections.len()
                    invariant
                        j <= node.connections@.len(),
                        out@.map_values(|s: String| s@) == connection_ids(*node).subrange(
                            0,
                            j as int,
                        ),
                    decreases node.connections@.len() - j,
                {
                    let ghost before = out@;
                    let sid = node.connections[j].segment_id.clone();
                    assert(sid@ == connection_ids(*node)[j as int]);
                    out.push(sid);
                    assert(out@.map_values(|s: String| s@) =~= before.map_values(|s: String| s@).push(
                        sid@,
                    ));
                    assert(connection_ids(*node).subrange(0, j + 1) =~= connection_ids(
                        *node,
                    ).subrange(0, j as int).push(sid@));
                    j = j + 1;
                }
                assert(connection_ids(*node).subrange(0, j as int) =~= connection_ids(*node));
                out
            },
            None => {
                let out: Vec<String> = Vec::new();
                assert(out@.map_values(|s: String| s@) =~= Seq::<Seq<char>>::empty());
                out
            },
        }
    }
}


/// The lists of a sequence of lists, one after another.
pub open spec fn concat_all(lists: Seq<Seq<Seq<char>>>) -> Seq<Seq<char>>
    decreases lists.len(),
{
    if lists.len() == 0 {
        Seq::empty()
    } else {
        concat_all(lists.drop_last()) + lists.last()
    }
}

proof fn lemma_concat_all_contains(lists: Seq<Seq<Seq<char>>>, j: int, v: Seq<char>)
    requires
        0 <= j < lists.len(),
        lists[j].contains(v),
    ensures
        concat_all(lists).contains(v),
    decreases lists.len(),
{
    let rest = concat_all(lists.drop_last());
    if j < lists.len() - 1 {
        lemma_concat_all_contains(lists.drop_last(), j, v);
        let k = choose|k: int| 0 <= k < rest.len() && rest[k] == v;
        assert((rest + lists.last())[k] == v);
    } else {
        let k = choose|k: int| 0 <= k < lists.last().len() && lists.last()[k] == v;
        assert((rest + lists.last())[rest.len() + k] == v);
    }
}

/// What a search is looking for.
pub enum Target<'a> {
    /// The segment with this id.
    Segment(&'a str),
    /// Any segment of this set other than the one the search starts from.
    OtherMember(&'a SegmentSet),
}

/// Whether `v` is what a search from `start` looks for.
pub open spec fn is_target(t: Target, start: Seq<char>, v: Seq<char>) -> bool {
    match t {
        Target::Segment(e) => v == e@,
        Target::OtherMember(set) => set@.contains(v) && v != start,
    }
}

fn check_target(t: &Target, start: &str, v: &str) -> (r: bool)
    ensures
        r == is_target(*t, start@, v@),
{
    match t {
        Target::Segment(e) => crate::text::str_eq(v, e),
        Target::OtherMember(set) => set.contains(v) && !crate::text::str_eq(v, start),
    }
}

/// The outcome of a breadth-first search: the segments in the order they
/// were discovered, the position of the segment each was discovered from,
/// and the position of the target, if one was reached.
struct Search {
    order: Vec<String>,
    parent: Vec<usize>,
    found: Option<usize>,
    /// How many connections away from the start each segment is.
    dist: Ghost<Seq<nat>>,
}

/// A walk from the start that stays shorter than the segment at position
/// `head` is far only passes segments discovered before `head`.
proof fn lemma_bfs_prefix(
    adj: Map<Seq<char>, Seq<Seq<char>>>,
    ov: Seq<Seq<char>>,
    dist: Seq<nat>,
    head: int,
    q: Seq<Seq<char>>,
    k: int,
)
    requires
        0 <= head < ov.len(),
        dist.len() == ov.len(),
        dist[0] == 0,
        ov[0] == q[0],
        forall|i: int, j: int| 0 <= i <= j < ov.len() ==> #[trigger] dist[i] <= #[trigger] dist[j],
        forall|i: int, v: Seq<char>|
            0 <= i < head && #[trigger] is_edge(adj, ov[i], v) ==> exists|t: int|
                0 <= t < ov.len() && #[trigger] ov[t] == v && dist[t] <= dist[i] + 1,
        is_walk(adj, q),
        q.len() <= dist[head],
        0 <= k < q.len(),
    ensures
        exists|t: int| 0 <= t < head && #[trigger] ov[t] == q[k] && dist[t] <= k,
    decreases k,
{
    if k == 0 {
        assert(dist[0] <= dist[head]);
        if head == 0 {
            assert(false);
        }
        assert(ov[0] == q[0]);
    } else {
        lemma_bfs_prefix(adj, ov, dist, head, q, k - 1);
        let t = choose|t: int| 0 <= t < head && #[trigger] ov[t] == q[k - 1] && dist[t] <= k - 1;
        assert(is_edge(adj, q[k - 1], q[k]));
        assert(is_edge(adj, ov[t], q[k]));
        let t2 = choose|t2: int| 0 <= t2 < ov.len() && #[trigger] ov[t2] == q[k] && dist[t2] <= dist[t] + 1;
        if t2 >= head {
            assert(dist[head] <= dist[t2]);
            assert(false);
        }
        assert(ov[t2] == q[k]);
    }
}

impl SegmentGraph {
    /// Every id that some connection leads to.
    pub closed spec fn all_connections(&self) -> Seq<Seq<char>> {
        concat_all(self.nodes.key_seq().map_values(|k: Seq<char>| self.adjacency()[k]))
    }

    proof fn lemma_edge_in_all_connections(&self, u: Seq<char>, v: Seq<char>)
        requires
            self.wf(),
            is_edge(self.adjacency(), u, v),
        ensures
            self.all_connections().contains(v),
    {
        self.nodes.lemma_wf_facts();
        assert(self.nodes.key_seq().to_set().contains(u));
        let j = choose|j: int| 0 <= j < self.nodes.key_seq().len() && self.nodes.key_seq()[j] == u;
        let lists = self.nodes.key_seq().map_values(|k: Seq<char>| self.adjacency()[k]);
        assert(lists[j] == self.adjacency()[u]);
        lemma_concat_all_contains(lists, j, v);
    }

    /// Breadth-first search from `start`, along connections in their order,
    /// until a target is discovered.
    fn search(&self, start: &str, target: &Target) -> (r: Search)
        requires
            self.wf(),
        ensures
            r.order@.len() >= 1,
            r.order@[0]@ == start@,
            r.parent@.len() == r.order@.len(),
            forall|i: int|
                1 <= i < r.order@.len() ==> #[trigger] r.parent@[i] < i && is_edge(
                    self.adjacency(),
                    r.order@[r.parent@[i] as int]@,
                    r.order@[i]@,
                ),
            r.dist@.len() == r.order@.len(),
            r.dist@[0] == 0,
            forall|i: int| 1 <= i < r.order@.len() ==> #[trigger] r.dist@[i] == r.dist@[r.parent@[i] as int] + 1,
            match r.found {
                Some(idx) => {
                    &&& idx < r.order@.len()
                    &&& is_target(*target, start@, r.order@[idx as int]@)
                    &&& forall|q: Seq<Seq<char>>|
                        #[trigger] is_walk(self.adjacency(), q) && q[0] == start@ && is_target(*target, start@, q.last())
                            ==> q.len() >= r.dist@[idx as int] + 1
                },
                None => forall|v: Seq<char>|
                    #[trigger] reaches(self.adjacency(), start@, v) ==> !is_target(*target, start@, v),
            },
    {
        let ghost adj = self.adjacency();
        let ghost mut dist: Seq<nat> = seq![0nat];
        let ghost universe = self.all_connections().push(start@).to_set();
        let mut order: Vec<String> = Vec::new();
        order.push(String::from_str(start));
        let mut parent: Vec<usize> = Vec::new();
        parent.push(0);
        let mut visited = StringHashSet::new();
        visited.insert(String::from_str(start));
        let ghost ov = order@.map_values(|s: String| s@);
        assert(ov =~= seq![start@]);
        assert(visited@ =~= ov.to_set()) by {
            assert(ov[0] == start@);
            assert forall|x: Seq<char>| #[trigger] ov.to_set().contains(x) <==> visited@.contains(x) by {
                if ov.contains(x) {
                    let i = choose|i: int| 0 <= i < ov.len() && ov[i] == x;
                    assert(i == 0);
                }
                if x == start@ {
                    assert(ov.contains(ov[0]));
                }
            }
        }
        let mut head: usize = 0;
        proof {
            assert(ov.to_set().subset_of(universe)) by {
                assert forall|x: Seq<char>| ov.to_set().contains(x) implies universe.contains(x) by {
                    assert(ov.contains(x));
                    assert(x == start@);
                    assert(self.all_connections().push(start@)[self.all_connections().len() as int]
                        == start@);
                }
            }
        }
        while head < order.len()
            invariant
                self.wf(),
                adj == self.adjacency(),
                universe == self.all_connections().push(start@).to_set(),
                ov == order@.map_values(|s: String| s@),
                ov.len() >= 1,
                ov[0] == start@,
                ov.no_duplicates(),
                parent@.len() == order@.len(),
                forall|i: int|
                    1 <= i < ov.len() ==> #[trigger] parent@[i] < i && is_edge(
                        adj,
                        ov[parent@[i] as int],
                        ov[i],
                    ),
                visited@ == ov.to_set(),
                head <= ov.len(),
                forall|i: int| 0 <= i < head ==> !is_target(*target, start@, #[trigger] ov[i]),
                forall|i: int, v: Seq<char>|
                    0 <= i < head && #[trigger] is_edge(adj, ov[i], v) ==> exists|t: int|
                        0 <= t < ov.len() && #[trigger] ov[t] == v && dist[t] <= dist[i] + 1,
                ov.to_set().subset_of(universe),
                dist.len() == ov.len(),
                dist[0] == 0,
                forall|i: int| 1 <= i < ov.len() ==> #[trigger] dist[i] == dist[parent@[i] as int] + 1,
                forall|i: int, j: int| 0 <= i <= j < ov.len() ==> #[trigger] dist[i] <= #[trigger] dist[j],
                head < ov.len() ==> forall|j: int| 0 <= j < ov.len() ==> #[trigger] dist[j] <= dist[head as int] + 1,
            decreases self.all_connections().len() + 1 - head,
        {
            proof {
                vstd::seq_lib::seq_to_set_is_finite(self.all_connections().push(start@));
                ov.unique_seq_to_set();
                vstd::set_lib::lemma_len_subset(ov.to_set(), universe);
                self.all_connections().push(start@).lemma_cardinality_of_set();
            }
            let current = order[head].clone();
            assert(current@ == ov[head as int]);
            if check_target(target, start, current.as_str()) {
                proof {
                    assert forall|q: Seq<Seq<char>>|
                        #[trigger] is_walk(adj, q) && q[0] == start@ && is_target(*target, start@, q.last()) implies q.len()
                        >= dist[head as int] + 1 by {
                        if q.len() <= dist[head as int] {
                            lemma_bfs_prefix(adj, ov, dist, head as int, q, q.len() - 1);
                            let t = choose|t: int| 0 <= t < head && #[trigger] ov[t] == q[q.len() - 1] && dist[t] <= q.len() - 1;
                            assert(!is_target(*target, start@, ov[t]));
                        }
                    }
                }
                return Search { order, parent, found: Some(head), dist: Ghost(dist) };
            }
            let neighbors = self.get_neighbors(current.as_str());
            let ghost nv = neighbors@.map_values(|s: String| s@);
            let mut j: usize = 0;
            while j < neighbors.len()
                invariant
                    self.wf(),
                    adj == self.adjacency(),
                    universe == self.all_connections().push(start@).to_set(),
                    ov == order@.map_values(|s: String| s@),
                    ov.len() >= 1,
                    ov[0] == start@,
                    ov.no_duplicates(),
                    parent@.len() == order@.len(),
                    forall|i: int|
                        1 <= i < ov.len() ==> #[trigger] parent@[i] < i && is_edge(
                            adj,
                            ov[parent@[i] as int],
                            ov[i],
                        ),
                    visited@ == ov.to_set(),
                    head < ov.len(),
                    current@ == ov[head as int],
                    nv == neighbors@.map_values(|s: String| s@),
                    nv == (if adj.dom().contains(current@) {
                        adj[current@]
                    } else {
                        Seq::<Seq<char>>::empty()
                    }),
                    j <= nv.len(),
                    forall|k: int| 0 <= k < j ==> exists|t: int|
                        0 <= t < ov.len() && #[trigger] ov[t] == #[trigger] nv[k] && dist[t] <= dist[head as int] + 1,
                    forall|i: int| 0 <= i < head ==> !is_target(*target, start@, #[trigger] ov[i]),
                    forall|i: int, v: Seq<char>|
                        0 <= i < head && #[trigger] is_edge(adj, ov[i], v) ==> exists|t: int|
                            0 <= t < ov.len() && #[trigger] ov[t] == v && dist[t] <= dist[i] + 1,
                    ov.to_set().subset_of(universe),
                    dist.len() == ov.len(),
                    dist[0] == 0,
                    forall|i: int| 1 <= i < ov.len() ==> #[trigger] dist[i] == dist[parent@[i] as int] + 1,
                    forall|i: int, j2: int| 0 <= i <= j2 < ov.len() ==> #[trigger] dist[i] <= #[trigger] dist[j2],
                    forall|j2: int| 0 <= j2 < ov.len() ==> #[trigger] dist[j2] <= dist[head as int] + 1,
                decreases nv.len() - j,
            {
                let nb = &neighbors[j];
                assert(nb@ == nv[j as int]);
                if !visited.contains(nb.as_str()) {
                    let ghost old_ov = ov;
                    visited.insert(nb.clone());
                    order.push(nb.clone());
                    parent.push(head);
                    proof {
                        let old_dist = dist;
                        dist = dist.push((dist[head as int] + 1) as nat);
                        ov = order@.map_values(|s: String| s@);
                        assert(ov =~= old_ov.push(nb@));
                        assert forall|i: int| 1 <= i < ov.len() implies #[trigger] dist[i] == dist[parent@[i] as int] + 1 by {
                            if i < old_ov.len() {
                                assert(dist[i] == old_dist[i]);
                                assert(dist[parent@[i] as int] == old_dist[parent@[i] as int]);
                            }
                        }
                        assert forall|i: int, j2: int| 0 <= i <= j2 < ov.len() implies #[trigger] dist[i] <= #[trigger] dist[j2] by {
                            if j2 < old_ov.len() {
                                assert(dist[i] == old_dist[i] && dist[j2] == old_dist[j2]);
                            } else if i < old_ov.len() {
                                assert(dist[i] == old_dist[i]);
                                assert(old_dist[i] <= old_dist[head as int] + 1);
                            }
                        }
                        assert forall|j2: int| 0 <= j2 < ov.len() implies #[trigger] dist[j2] <= dist[head as int] + 1 by {
                            if j2 < old_ov.len() {
                                assert(dist[j2] == old_dist[j2]);
                            }
                        }
                        assert(is_edge(adj, current@, nb@)) by {
                            assert(nv.contains(nb@)) by {
                                assert(nv[j as int] == nb@);
                            }
                        }
                        assert(ov[ov.len() - 1] == nb@);
                        assert(parent@[ov.len() - 1] == head);
                        assert forall|i: int|
                            1 <= i < ov.len() implies #[trigger] parent@[i] < i && is_edge(
                            adj,
                            ov[parent@[i] as int],
                            ov[i],
                        ) by {
                            if i < old_ov.len() {
                                assert(ov[i] == old_ov[i]);
                                assert(ov[parent@[i] as int] == old_ov[parent@[i] as int]);
                            }
                        }
                        assert(!old_ov.contains(nb@)) by {
                            assert(!old_ov.to_set().contains(nb@));
                        }
                        assert forall|a: int, b: int|
                            0 <= a < ov.len() && 0 <= b < ov.len() && a != b implies ov[a] != ov[b] by {
                            if a == old_ov.len() {
                                assert(ov[b] == old_ov[b]);
                            } else if b == old_ov.len() {
                                assert(ov[a] == old_ov[a]);
                            } else {
                                assert(ov[a] == old_ov[a]);
                                assert(ov[b] == old_ov[b]);
                            }
                        }
                        Seq::lemma_to_set_insert_commutes(old_ov, nb@);
                        assert(old_ov + seq![nb@] =~= ov);
                        assert(visited@ =~= ov.to_set());
                        self.lemma_edge_in_all_connections(current@, nb@);
                        assert(universe.contains(nb@)) by {
                            let c = self.all_connections();
                            let k = choose|k: int| 0 <= k < c.len() && c[k] == nb@;
                            assert(c.push(start@)[k] == nb@);
                        }
                        assert forall|x: Seq<char>| ov.to_set().contains(x) implies universe.contains(x) by {
                            if x != nb@ {
                                assert(old_ov.to_set().contains(x));
                            }
                        }
                        assert forall|k: int| 0 <= k < j + 1 implies exists|t: int|
                            0 <= t < ov.len() && #[trigger] ov[t] == #[trigger] nv[k] && dist[t] <= dist[head as int] + 1 by {
                            if k < j {
                                let t = choose|t: int|
                                    0 <= t < old_ov.len() && #[trigger] old_ov[t] == nv[k] && old_dist[t] <= old_dist[head as int] + 1;
                                assert(ov[t] == nv[k] && dist[t] == old_dist[t]);
                            } else {
                                assert(ov[ov.len() - 1] == nv[k]);
                            }
                        }
                        assert forall|i: int, v: Seq<char>|
                            0 <= i < head && #[trigger] is_edge(adj, ov[i], v) implies exists|t: int|
                            0 <= t < ov.len() && #[trigger] ov[t] == v && dist[t] <= dist[i] + 1 by {
                            assert(ov[i] == old_ov[i]);
                            assert(is_edge(adj, old_ov[i], v));
                            let t = choose|t: int| 0 <= t < old_ov.len() && #[trigger] old_ov[t] == v && old_dist[t] <= old_dist[i] + 1;
                            assert(ov[t] == v && dist[t] == old_dist[t] && dist[i] == old_dist[i]);
                        }
                        assert forall|i: int| 0 <= i < head implies !is_target(
                            *target,
                            start@,
                            #[trigger] ov[i],
                        ) by {
                            assert(ov[i] == old_ov[i]);
                        }
                    }
                } else {
                    proof {
                        assert(ov.to_set().contains(nb@));
                        let t = choose|t: int| 0 <= t < ov.len() && ov[t] == nb@;
                        assert(dist[t] <= dist[head as int] + 1);
                        assert forall|k: int| 0 <= k < j + 1 implies exists|t2: int|
                            0 <= t2 < ov.len() && #[trigger] ov[t2] == #[trigger] nv[k] && dist[t2] <= dist[head as int] + 1 by {
                            if k == j {
                                assert(ov[t] == nv[k]);
                            }
                        }
                    }
                }
                j = j + 1;
            }
            proof {
                assert forall|i: int, v: Seq<char>|
                    0 <= i < head + 1 && #[trigger] is_edge(adj, ov[i], v) implies exists|t: int|
                    0 <= t < ov.len() && #[trigger] ov[t] == v && dist[t] <= dist[i] + 1 by {
                    if i == head {
                        assert(adj.dom().contains(current@));
                        let t = choose|t: int| 0 <= t < adj[current@].len() && adj[current@][t] == v;
                        assert(nv[t] == v);
                        let t2 = choose|t2: int|
                            0 <= t2 < ov.len() && #[trigger] ov[t2] == #[trigger] nv[t] && dist[t2] <= dist[head as int] + 1;
                        assert(ov[t2] == v);
                    }
                }
                if head + 1 < ov.len() {
                    assert(dist[head as int] <= dist[head + 1]);
                }
            }
            head = head + 1;
        }
        proof {
            let vs = ov.to_set();
            assert(closed_under(adj, vs)) by {
                assert forall|u: Seq<char>, v: Seq<char>| #[trigger]
                    vs.contains(u) && is_edge(adj, u, v) implies #[trigger] vs.contains(v) by {
                    let i = choose|i: int| 0 <= i < ov.len() && ov[i] == u;
                    assert(is_edge(adj, ov[i], v));
                    let t = choose|t: int| 0 <= t < ov.len() && #[trigger] ov[t] == v && dist[t] <= dist[i] + 1;
                    assert(ov.contains(v));
                }
            }
            assert forall|v: Seq<char>| #[trigger]
                reaches(adj, start@, v) implies !is_target(*target, start@, v) by {
                let p = choose|p: Seq<Seq<char>>| #[trigger] is_walk(adj, p) && p[0] == start@ && p.last() == v;
                assert(vs.contains(ov[0]));
                lemma_closed_contains_reached(adj, vs, p);
                let i = choose|i: int| 0 <= i < ov.len() && ov[i] == v;
                assert(!is_target(*target, start@, ov[i]));
            }
        }
        Search { order, parent, found: None, dist: Ghost(dist) }
    }
}

impl SegmentGraph {
    /// A shortest walk along connections from `start` to `end`, found
    /// breadth-first, or `None` when `end` cannot be reached from `start`.
    pub fn find_path(&self, start: &str, end: &str) -> (r: Option<Vec<String>>)
        requires
            self.wf(),
        ensures
            r is Some <==> reaches(self.adjacency(), start@, end@),
            match r {
                Some(p) => {
                    let pv = p@.map_values(|s: String| s@);
                    &&& is_walk(self.adjacency(), pv)
                    &&& pv[0] == start@
                    &&& pv.last() == end@
                    &&& forall|q: Seq<Seq<char>>|
                        #[trigger] is_walk(self.adjacency(), q) && q[0] == start@ && q.last() == end@ ==> q.len() >= pv.len()
                },
                None => true,
            },
    {
        let target = Target::Segment(end);
        let found = self.search(start, &target);
        let ghost adj = self.adjacency();
        let ghost ov = found.order@.map_values(|s: String| s@);
        match found.found {
            None => {
                proof {
                    if reaches(adj, start@, end@) {
                        assert(!is_target(target, start@, end@));
                    }
                }
                None
            },
            Some(idx) => {
                let mut rev: Vec<String> = Vec::new();
                let mut k: usize = idx;
                rev.push(found.order[k].clone());
                while k != 0
                    invariant
                        k < found.order@.len(),
                        ov == found.order@.map_values(|s: String| s@),
                        found.parent@.len() == found.order@.len(),
                        forall|i: int|
                            1 <= i < found.order@.len() ==> #[trigger] found.parent@[i] < i && is_edge(
                                adj,
                                found.order@[found.parent@[i] as int]@,
                                found.order@[i]@,
                            ),
                        rev@.len() >= 1,
                        rev@[0]@ == end@,
                        rev@.last()@ == ov[k as int],
                        found.dist@.len() == found.order@.len(),
                        forall|i: int|
                            1 <= i < found.order@.len() ==> #[trigger] found.dist@[i] == found.dist@[found.parent@[i] as int]
                                + 1,
                        rev@.len() + found.dist@[k as int] == found.dist@[idx as int] + 1,
                        forall|m: int|
                            0 <= m < rev@.len() - 1 ==> is_edge(adj, #[trigger] rev@[m + 1]@, rev@[m]@),
                    decreases k,
                {
                    let p = found.parent[k];
                    assert(found.parent@[k as int] < k);
                    let ghost before = rev@;
                    rev.push(found.order[p].clone());
                    assert forall|m: int| 0 <= m < rev@.len() - 1 implies is_edge(
                        adj,
                        #[trigger] rev@[m + 1]@,
                        rev@[m]@,
                    ) by {
                        if m < before.len() - 1 {
                            assert(rev@[m + 1] == before[m + 1]);
                            assert(rev@[m] == before[m]);
                        } else {
                            assert(rev@[m] == before.last());
                        }
                    }
                    k = p;
                }
                let mut path: Vec<String> = Vec::new();
                let mut m: usize = rev.len();
                let ghost len = rev@.len() as int;
                while m > 0
                    invariant
                        len == rev@.len(),
                        m <= len,
                        path@.len() == len - m,
                        forall|t: int| 0 <= t < path@.len() ==> #[trigger] path@[t]@ == rev@[len - 1 - t]@,
                    decreases m,
                {
                    m = m - 1;
                    path.push(rev[m].clone());
                }
                proof {
                    let pv = path@.map_values(|s: String| s@);
                    assert forall|t: int| 0 <= t < pv.len() - 1 implies is_edge(adj, #[trigger] pv[t], pv[t + 1]) by {
                        assert(pv[t] == path@[t]@);
                        assert(pv[t + 1] == path@[t + 1]@);
                        assert(is_edge(adj, rev@[(len - 2 - t) + 1]@, rev@[len - 2 - t]@));
                    }
                    assert(pv[0] == path@[0]@);
                    assert(pv.last() == path@[len - 1]@);
                    assert(rev@[len - 1]@ == ov[0]);
                    assert(is_walk(adj, pv));
                    assert(reaches(adj, start@, end@));
                    assert forall|q: Seq<Seq<char>>|
                        #[trigger] is_walk(adj, q) && q[0] == start@ && q.last() == end@ implies q.len() >= pv.len() by {
                        assert(is_target(target, start@, q.last()));
                    }
                }
                Some(path)
            },
        }
    }

    /// The first segment of `members`, other than `start`, that a
    /// breadth-first walk along connections from `start` discovers: one of
    /// those that the fewest connections lead to.
    pub fn nearest_member(&self, start: &str, members: &SegmentSet) -> (r: Option<String>)
        requires
            self.wf(),
        ensures
            match r {
                Some(s) => {
                    &&& members@.contains(s@)
                    &&& s@ != start@
                    &&& exists|w: Seq<Seq<char>>|
                        #[trigger] is_walk(self.adjacency(), w) && w[0] == start@ && w.last() == s@ && forall|
                            q: Seq<Seq<char>>,
                        |
                            #[trigger] is_walk(self.adjacency(), q) && q[0] == start@ && members@.contains(q.last())
                                && q.last() != start@ ==> q.len() >= w.len()
                },
                None => forall|v: Seq<char>|
                    #[trigger] reaches(self.adjacency(), start@, v) ==> !(members@.contains(v) && v != start@),
            },
    {
        let target = Target::OtherMember(members);
        let found = self.search(start, &target);
        let ghost adj = self.adjacency();
        match found.found {
            None => None,
            Some(idx) => {
                let ghost ov = found.order@.map_values(|s: String| s@);
                let mut k: usize = idx;
                let ghost mut walk: Seq<Seq<char>> = seq![ov[idx as int]];
                while k != 0
                    invariant
                        k < found.order@.len(),
                        ov == found.order@.map_values(|s: String| s@),
                        found.parent@.len() == found.order@.len(),
                        forall|i: int|
                            1 <= i < found.order@.len() ==> #[trigger] found.parent@[i] < i && is_edge(
                                adj,
                                found.order@[found.parent@[i] as int]@,
                                found.order@[i]@,
                            ),
                        is_walk(adj, walk),
                        walk[0] == ov[k as int],
                        walk.last() == ov[idx as int],
                        found.dist@.len() == found.order@.len(),
                        forall|i: int|
                            1 <= i < found.order@.len() ==> #[trigger] found.dist@[i] == found.dist@[found.parent@[i] as int]
                                + 1,
                        walk.len() + found.dist@[k as int] == found.dist@[idx as int] + 1,
                    decreases k,
                {
                    let p = found.parent[k];
                    assert(found.parent@[k as int] < k);
                    proof {
                        let w2 = seq![ov[p as int]] + walk;
                        assert forall|t: int| 0 <= t < w2.len() - 1 implies is_edge(adj, #[trigger] w2[t], w2[t + 1]) by {
                            if t == 0 {
                                assert(w2[1] == walk[0]);
                            } else {
                                assert(w2[t] == walk[t - 1]);
                                assert(w2[t + 1] == walk[t]);
                            }
                        }
                        assert(w2.last() == walk.last());
                        walk = w2;
                    }
                    k = p;
                }
                let r = found.order[idx].clone();
                proof {
                    assert(walk[0] == start@);
                    assert forall|q: Seq<Seq<char>>|
                        #[trigger] is_walk(adj, q) && q[0] == start@ && members@.contains(q.last()) && q.last() != start@
                        implies q.len() >= walk.len() by {
                        assert(is_target(target, start@, q.last()));
                    }
                    assert(is_walk(adj, walk) && walk[0] == start@ && walk.last() == r@);
                }
                Some(r)
            },
        }
    }
}

/// `v + 1`, or `v` itself at the top of the range.
pub open spec fn up(v: u32) -> u32 {
    if v == u32::MAX { v } else { (v + 1) as u32 }
}

/// `v - 1`, or `v` itself at zero.
pub open spec fn down(v: u32) -> u32 {
    if v == 0 { v } else { (v - 1) as u32 }
}

/// The tiles whose segments may touch a segment on tile `(x, y)`: the tile
/// itself, then right, left, up and down.  At the edge of the range a
/// neighbour falls back onto the tile itself, which then occurs twice.
pub open spec fn neighbor_tiles(x: u32, y: u32) -> Seq<(u32, u32)> {
    seq![(x, y), (up(x), y), (down(x), y), (x, up(y)), (x, down(y))]
}

/// The segments of `order` that sit on tile `pos`, other than `except`.
pub open spec fn on_tile(
    order: Seq<Seq<char>>,
    tiles: Map<Seq<char>, (u32, u32)>,
    pos: (u32, u32),
    except: Seq<char>,
) -> Seq<Seq<char>> {
    order.filter(|k: Seq<char>| tiles[k] == pos && k != except)
}

/// The segments that segment `id` is tested against for a connection:
/// those on each of its neighbouring tiles in turn.
pub open spec fn candidates_spec(
    order: Seq<Seq<char>>,
    tiles: Map<Seq<char>, (u32, u32)>,
    id: Seq<char>,
) -> Seq<Seq<char>> {
    let n = neighbor_tiles(tiles[id].0, tiles[id].1);
    on_tile(order, tiles, n[0], id) + on_tile(order, tiles, n[1], id) + on_tile(order, tiles, n[2], id)
        + on_tile(order, tiles, n[3], id) + on_tile(order, tiles, n[4], id)
}

/// The tiles whose segments may touch a segment on tile `(x, y)`.
pub fn neighbor_positions(x: u32, y: u32) -> (r: Vec<(u32, u32)>)
    ensures
        r@ == neighbor_tiles(x, y),
{
    let right = if x == u32::MAX { x } else { x + 1 };
    let left = if x == 0 { x } else { x - 1 };
    let above = if y == u32::MAX { y } else { y + 1 };
    let below = if y == 0 { y } else { y - 1 };
    let mut r: Vec<(u32, u32)> = Vec::new();
    r.push((x, y));
    r.push((right, y));
    r.push((left, y));
    r.push((x, above));
    r.push((x, below));
    assert(r@ =~= neighbor_tiles(x, y));
    r
}

impl SegmentGraph {
    /// The segment ids in the order the segments were added.
    pub closed spec fn segment_order(&self) -> Seq<Seq<char>> {
        self.nodes.key_seq()
    }

    /// The segment order lists each segment of the graph once, and the
    /// segments with a tile are those with connections.
    pub proof fn lemma_order_matches(&self)
        requires
            self.wf(),
        ensures
            self.segment_order().no_duplicates(),
            self.segment_order().to_set() == self.tiles().dom(),
            self.tiles().dom() == self.adjacency().dom(),
    {
        self.nodes.lemma_wf_facts();
        assert(self.segment_order().to_set() =~= self.tiles().dom());
        assert(self.tiles().dom() =~= self.adjacency().dom());
    }

    /// The segments on tile `pos`, other than `except`, in the order the
    /// segments were added.
    pub fn segments_on_tile(&self, pos: (u32, u32), except: &str) -> (r: Vec<String>)
        requires
            self.wf(),
        ensures
            r@.map_values(|s: String| s@) == on_tile(self.segment_order(), self.tiles(), pos, except@),
    {
        proof {
            self.nodes.lemma_wf_facts();
        }
        let ghost order = self.segment_order();
        let ghost tiles = self.tiles();
        let mut r: Vec<String> = Vec::new();
        let mut i: usize = 0;
        let n = self.nodes.len();
        while i < n
            invariant
                self.wf(),
                n == order.len(),
                order == self.segment_order(),
                tiles == self.tiles(),
                order.len() == self.nodes.val_seq().len(),
                self.nodes.view().dom() == order.to_set(),
                forall|j: int| 0 <= j < order.len() ==> self.nodes.view()[#[trigger] order[j]] == self.nodes.val_seq()[j],
                i <= n,
                r@.map_values(|s: String| s@) == on_tile(order.subrange(0, i as int), tiles, pos, except@),
            decreases n - i,
        {
            let ghost before = r@.map_values(|s: String| s@);
            let key = self.nodes.key_at(i);
            let node = self.nodes.value_at(i);
            assert(order.contains(order[i as int]));
            assert(order.to_set().contains(key@));
            assert(tiles[key@] == node.tile_pos);
            let take = node.tile_pos.0 == pos.0 && node.tile_pos.1 == pos.1 && !crate::text::str_eq(key.as_str(), except);
            proof {
                let s0 = order.subrange(0, i as int);
                let s1 = order.subrange(0, i + 1);
                assert(s1.drop_last() =~= s0);
                assert(s1.last() == key@);
                reveal(Seq::filter);
                assert(on_tile(s1, tiles, pos, except@) == if tiles[key@] == pos && key@ != except@ {
                    on_tile(s0, tiles, pos, except@).push(key@)
                } else {
                    on_tile(s0, tiles, pos, except@)
                });
            }
            if take {
                r.push(key.clone());
                assert(r@.map_values(|s: String| s@) =~= before.push(key@));
            }
            i = i + 1;
        }
        assert(order.subrange(0, n as int) =~= order);
        r
    }

    /// The segments that segment `id` is tested against for a connection;
    /// none for an unknown id.  The renderer keeps, among them, those that
    /// share an endpoint with `id`, and records them with `set_connections`.
    pub fn connection_candidates(&self, id: &str) -> (r: Vec<String>)
        requires
            self.wf(),
        ensures
            r@.map_values(|s: String| s@) == if self.tiles().dom().contains(id@) {
                candidates_spec(self.segment_order(), self.tiles(), id@)
            } else {
                Seq::<Seq<char>>::empty()
            },
    {
        match self.nodes.get(id) {
            None => {
                let r: Vec<String> = Vec::new();
                assert(r@.map_values(|s: String| s@) =~= Seq::<Seq<char>>::empty());
                r
            },
            Some(node) => {
                let ghost order = self.segment_order();
                let ghost tiles = self.tiles();
                let positions = neighbor_positions(node.tile_pos.0, node.tile_pos.1);
                assert(tiles[id@] == node.tile_pos);
                let mut r: Vec<String> = Vec::new();
                let mut p: usize = 0;
                while p < positions.len()
                    invariant
                        self.wf(),
                        order == self.segment_order(),
                        tiles == self.tiles(),
                        positions@ == neighbor_tiles(tiles[id@].0, tiles[id@].1),
                        p <= 5,
                        r@.map_values(|s: String| s@) == (if p == 0 {
                            Seq::<Seq<char>>::empty()
                        } else if p == 1 {
                            on_tile(order, tiles, positions@[0], id@)
                        } else if p == 2 {
                            on_tile(order, tiles, positions@[0], id@) + on_tile(order, tiles, positions@[1], id@)
                        } else if p == 3 {
                            on_tile(order, tiles, positions@[0], id@) + on_tile(order, tiles, positions@[1], id@)
                                + on_tile(order, tiles, positions@[2], id@)
                        } else if p == 4 {
                            on_tile(order, tiles, positions@[0], id@) + on_tile(order, tiles, positions@[1], id@)
                                + on_tile(order, tiles, positions@[2], id@) + on_tile(order, tiles, positions@[3], id@)
                        } else {
                            candidates_spec(order, tiles, id@)
                        }),
                    decreases 5 - p,
                {
                    let ghost before = r@.map_values(|s: String| s@);
                    let part = self.segments_on_tile(positions[p], id);
                    let mut j: usize = 0;
                    while j < part.len()
                        invariant
                            j <= part@.len(),
                            r@.map_values(|s: String| s@) == before + part@.map_values(|s: String| s@).subrange(0, j as int),
                        decreases part@.len() - j,
                    {
                        let ghost mid = r@.map_values(|s: String| s@);
                        r.push(part[j].clone());
                        assert(r@.map_values(|s: String| s@) =~= mid.push(part@[j as int]@));
                        assert(part@.map_values(|s: String| s@).subrange(0, j + 1) =~= part@.map_values(
                            |s: String| s@,
                        ).subrange(0, j as int).push(part@[j as int]@));
                        j = j + 1;
                    }
                    assert(part@.map_values(|s: String| s@).subrange(0, j as int) =~= part@.map_values(|s: String| s@));
                    p = p + 1;
                }
                r
            },
        }
    }
}

} // verus!
