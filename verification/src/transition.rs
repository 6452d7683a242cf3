//! Transitions between glyphs.  A transition is a timeline of steps; each
//! step switches some segments on and some off, so that the grid goes from
//! the glyph it shows to the next one.  Segments that disappear shrink toward
//! the nearest lit segment they are connected to, segments that appear grow
//! out of one, and changes that share that segment tend to fall in the same
//! step.  How long a step lasts is the renderer's business.

use vstd::prelude::*;
use vstd::seq_lib::group_to_multiset_ensures;
use vstd::multiset::Multiset;
use rand::Rng;
use crate::segment_graph::{SegmentGraph, is_walk, reaches};
use crate::segment_set::SegmentSet;

verus! {

/// How the next glyph change is animated.
#[derive(Debug, Clone, Copy, PartialEq, Eq, Structural)]
pub enum TransitionAnimationType {
    Random,
    Immediate,
    Writing,
    Overwrite,
}

/// Whether a staged transition starts by itself or waits for a trigger.
#[derive(Debug, Clone, Copy, PartialEq, Eq, Structural)]
pub enum TransitionTriggerType {
    Auto,
    Manual,
}

/// The animation type that an OSC message's number selects.
pub open spec fn animation_type_spec(msg: i32) -> TransitionAnimationType {
    if msg == 0 {
        TransitionAnimationType::Random
    } else if msg == 2 {
        TransitionAnimationType::Writing
    } else if msg == 3 {
        TransitionAnimationType::Overwrite
    } else {
        TransitionAnimationType::Immediate
    }
}

/// Each animation type has its own number: 0 random, 1 immediate, 2
/// writing, 3 overwrite; every other number falls back to immediate.
pub proof fn lemma_animation_numbers(msg: i32)
    ensures
        animation_type_spec(msg) == TransitionAnimationType::Random <==> msg == 0,
        animation_type_spec(msg) == TransitionAnimationType::Writing <==> msg == 2,
        animation_type_spec(msg) == TransitionAnimationType::Overwrite <==> msg == 3,
        animation_type_spec(msg) == TransitionAnimationType::Immediate <==> (msg != 0 && msg != 2 && msg != 3),
{
}

/// The animation type for an OSC message's number: 0 random, 1 immediate,
/// 2 writing, 3 overwrite; any other number means immediate.
pub fn transition_next_animation_type(msg: i32) -> (r: TransitionAnimationType)
    ensures
        r == animation_type_spec(msg),
{
    match msg {
        0 => TransitionAnimationType::Random,
        1 => TransitionAnimationType::Immediate,
        2 => TransitionAnimationType::Writing,
        3 => TransitionAnimationType::Overwrite,
        _ => TransitionAnimationType::Immediate,
    }
}

/// One segment switching on or off.
pub struct SegmentChange {
    pub segment_id: String,
    pub turn_on: bool,
}

/// A change still to be placed in a step: the segment, the lit segment it
/// grows from or shrinks toward, and whether it switches on.
pub struct PendingChange {
    pub segment_id: String,
    pub nearest: String,
    pub turn_on: bool,
}

/// A change as a pair of segment id and direction.
pub type ChangeView = (Seq<char>, bool);

pub open spec fn change_view(c: SegmentChange) -> ChangeView {
    (c.segment_id@, c.turn_on)
}

pub open spec fn pending_view(p: PendingChange) -> ChangeView {
    (p.segment_id@, p.turn_on)
}

pub open spec fn step_view(step: Vec<SegmentChange>) -> Seq<ChangeView> {
    step@.map_values(|c: SegmentChange| change_view(c))
}

pub open spec fn steps_view(steps: Seq<Vec<SegmentChange>>) -> Seq<Seq<ChangeView>> {
    steps.map_values(|s: Vec<SegmentChange>| step_view(s))
}

pub open spec fn pendings_view(p: Seq<PendingChange>) -> Seq<ChangeView> {
    p.map_values(|c: PendingChange| pending_view(c))
}

/// Some segment of `members` other than `s` can be reached from `s`.
pub open spec fn has_other_reachable(
    adj: Map<Seq<char>, Seq<Seq<char>>>,
    s: Seq<char>,
    members: Set<Seq<char>>,
) -> bool {
    exists|v: Seq<char>| #[trigger] reaches(adj, s, v) && members.contains(v) && v != s
}

/// `n` is a lit segment of `members` that `s` is nearest to along
/// connections (no other lit segment takes fewer connections to reach), or,
/// where no other lit segment can be reached from `s`, `s` itself.
pub open spec fn nearest_choice(
    adj: Map<Seq<char>, Seq<Seq<char>>>,
    s: Seq<char>,
    n: Seq<char>,
    members: Set<Seq<char>>,
) -> bool {
    if has_other_reachable(adj, s, members) {
        &&& members.contains(n)
        &&& n != s
        &&& reaches(adj, s, n)
        &&& exists|w: Seq<Seq<char>>|
            #[trigger] is_walk(adj, w) && w[0] == s && w.last() == n && forall|q: Seq<Seq<char>>|
                #[trigger] is_walk(adj, q) && q[0] == s && members.contains(q.last()) && q.last() != s ==> q.len()
                    >= w.len()
    } else {
        n == s
    }
}

/// The segments that switch off: those of the start glyph that the target
/// lacks, where each can shrink toward another lit segment, or the target is
/// empty.
pub open spec fn offs_spec(
    adj: Map<Seq<char>, Seq<Seq<char>>>,
    start_order: Seq<Seq<char>>,
    start: Set<Seq<char>>,
    target: Set<Seq<char>>,
) -> Seq<Seq<char>> {
    start_order.filter(
        |s: Seq<char>| !target.contains(s) && (has_other_reachable(adj, s, start) || target.len() == 0),
    )
}

/// The segments that switch on: those of the target glyph whose style is not
/// already the target's (unless the change is immediate), where each can
/// grow out of a lit segment, or nothing is lit.
pub open spec fn ons_spec(
    adj: Map<Seq<char>, Seq<Seq<char>>>,
    start: Set<Seq<char>>,
    target_order: Seq<Seq<char>>,
    settled: Set<Seq<char>>,
    immediate: bool,
) -> Seq<Seq<char>> {
    target_order.filter(
        |s: Seq<char>|
            (immediate || !settled.contains(s)) && (has_other_reachable(adj, s, start) || start.len() == 0),
    )
}

/// The changes a transition makes, in the order they are planned: first
/// the segments that switch off, then those that switch on.
pub open spec fn pending_spec(
    adj: Map<Seq<char>, Seq<Seq<char>>>,
    start_order: Seq<Seq<char>>,
    target_order: Seq<Seq<char>>,
    settled: Set<Seq<char>>,
    immediate: bool,
) -> Seq<ChangeView> {
    offs_spec(adj, start_order, start_order.to_set(), target_order.to_set()).map_values(|s: Seq<char>| (s, false)) + ons_spec(
        adj,
        start_order.to_set(),
        target_order,
        settled,
        immediate,
    ).map_values(|s: Seq<char>| (s, true))
}

/// The lit segments after the changes `cs`, made one after another, on the
/// lit segments `lit`.
pub open spec fn apply_changes(lit: Set<Seq<char>>, cs: Seq<ChangeView>) -> Set<Seq<char>>
    decreases cs.len(),
{
    if cs.len() == 0 {
        lit
    } else {
        let before = apply_changes(lit, cs.drop_last());
        if cs.last().1 {
            before.insert(cs.last().0)
        } else {
            before.remove(cs.last().0)
        }
    }
}

/// A position below `len`, drawn uniformly with `rand`'s thread-local
/// generator: `rand::thread_rng().gen_range(0..len)`.  The contract claims
/// only the range; which position comes out is chance.  `gen_range` panics
/// on an empty range, hence the requirement.
#[verifier::external_body]
fn random_index(len: usize) -> (r: usize)
    requires
        len > 0,
    ensures
        r < len,
{
    rand::thread_rng().gen_range(0..len)
}

/// The segments that a step switches on.
pub open spec fn ons_of(step: Seq<ChangeView>) -> Set<Seq<char>> {
    Set::new(|id: Seq<char>| step.contains((id, true)))
}

/// The segments that a step switches off.
pub open spec fn offs_of(step: Seq<ChangeView>) -> Set<Seq<char>> {
    Set::new(|id: Seq<char>| step.contains((id, false)))
}

proof fn lemma_contains_push<A>(s: Seq<A>, x: A, y: A)
    ensures
        s.push(x).contains(y) <==> (s.contains(y) || y == x),
{
    if s.contains(y) {
        let i = choose|i: int| 0 <= i < s.len() && s[i] == y;
        assert(s.push(x)[i] == y);
    }
    if y == x {
        assert(s.push(x)[s.len() as int] == y);
    }
    if s.push(x).contains(y) {
        let i = choose|i: int| 0 <= i < s.push(x).len() && s.push(x)[i] == y;
        if i < s.len() {
            assert(s[i] == y);
        }
    }
}

/// The segments to switch on and off in one step.
pub struct TransitionUpdates {
    pub segments_on: SegmentSet,
    pub segments_off: SegmentSet,
}

/// A transition in progress: its steps and how many of them were played.
pub struct Transition {
    changes: Vec<Vec<SegmentChange>>,
    current_step: usize,
}

impl Transition {
    /// The steps, each a list of changes.
    pub closed spec fn steps(&self) -> Seq<Seq<ChangeView>> {
        steps_view(self.changes@)
    }

    /// How many steps were played.
    pub closed spec fn played(&self) -> nat {
        self.current_step as nat
    }

    pub closed spec fn wf(&self) -> bool {
        self.current_step <= self.changes@.len()
    }

    /// A transition through `changes`, none played yet.
    pub fn new(changes: Vec<Vec<SegmentChange>>) -> (r: Self)
        ensures
            r.wf(),
            r.steps() == steps_view(changes@),
            r.played() == 0,
    {
        Transition { changes, current_step: 0 }
    }

    /// Plays the next step: the segments it switches on and off, or `None`
    /// once every step was played.
    pub fn advance(&mut self) -> (r: Option<TransitionUpdates>)
        requires
            old(self).wf(),
        ensures
            final(self).wf(),
            final(self).steps() == old(self).steps(),
            match r {
                Some(u) => {
                    &&& old(self).played() < old(self).steps().len()
                    &&& final(self).played() == old(self).played() + 1
                    &&& u.segments_on.wf()
                    &&& u.segments_off.wf()
                    &&& u.segments_on@ == ons_of(old(self).steps()[old(self).played() as int])
                    &&& u.segments_off@ == offs_of(old(self).steps()[old(self).played() as int])
                },
                None => old(self).played() >= old(self).steps().len() && final(self).played()
                    == old(self).played(),
            },
    {
        if self.current_step < self.changes.len() {
            let current = &self.changes[self.current_step];
            let ghost sv = step_view(*current);
            let mut segments_on = SegmentSet::new();
            let mut segments_off = SegmentSet::new();
            let mut j: usize = 0;
            while j < current.len()
                invariant
                    j <= current@.len(),
                    sv == step_view(*current),
                    segments_on.wf(),
                    segments_off.wf(),
                    segments_on@ == ons_of(sv.subrange(0, j as int)),
                    segments_off@ == offs_of(sv.subrange(0, j as int)),
                decreases current@.len() - j,
            {
                let change = &current[j];
                let ghost pre = sv.subrange(0, j as int);
                assert(sv.subrange(0, j + 1) =~= pre.push(sv[j as int]));
                assert(sv[j as int] == (change.segment_id@, change.turn_on));
                if change.turn_on {
                    segments_on.insert(change.segment_id.clone());
                } else {
                    segments_off.insert(change.segment_id.clone());
                }
                proof {
                    assert forall|id: Seq<char>| #[trigger] ons_of(pre.push(sv[j as int])).contains(id) <==> (
                    ons_of(pre).contains(id) || (change.turn_on && id == change.segment_id@)) by {
                        lemma_contains_push(pre, sv[j as int], (id, true));
                    }
                    assert forall|id: Seq<char>| #[trigger] offs_of(pre.push(sv[j as int])).contains(id) <==> (
                    offs_of(pre).contains(id) || (!change.turn_on && id == change.segment_id@)) by {
                        lemma_contains_push(pre, sv[j as int], (id, false));
                    }
                    assert(segments_on@ =~= ons_of(sv.subrange(0, j + 1)));
                    assert(segments_off@ =~= offs_of(sv.subrange(0, j + 1)));
                }
                j = j + 1;
            }
            assert(sv.subrange(0, j as int) =~= sv);
            self.current_step = self.current_step + 1;
            Some(TransitionUpdates { segments_on, segments_off })
        } else {
            None
        }
    }

    /// Whether every step was played.
    pub fn is_complete(&self) -> (r: bool)
        requires
            self.wf(),
        ensures
            r == (self.played() >= self.steps().len()),
    {
        self.current_step >= self.changes.len()
    }
}

/// Plans transitions between glyphs.  Its settings (step count, timing,
/// density) are floating-point values that the renderer keeps and hands in.
pub struct TransitionEngine {}

impl TransitionEngine {
    pub fn new() -> (r: Self) {
        TransitionEngine {  }
    }

    /// The lit segment that `segment` is nearest to along connections: the
    /// first segment of `active_segments`, other than `segment` itself, that
    /// a breadth-first walk from `segment` discovers, which no other lit
    /// segment is fewer connections away from than.
    pub fn find_nearest_connected(
        &self,
        segment: &str,
        active_segments: &SegmentSet,
        graph: &SegmentGraph,
    ) -> (r: Option<String>)
        requires
            graph.wf(),
        ensures
            r is Some <==> has_other_reachable(graph.adjacency(), segment@, active_segments@),
            match r {
                Some(s) => {
                    &&& active_segments@.contains(s@)
                    &&& s@ != segment@
                    &&& reaches(graph.adjacency(), segment@, s@)
                    &&& exists|w: Seq<Seq<char>>|
                        #[trigger] is_walk(graph.adjacency(), w) && w[0] == segment@ && w.last() == s@ && forall|
                            q: Seq<Seq<char>>,
                        |
                            #[trigger] is_walk(graph.adjacency(), q) && q[0] == segment@ && active_segments@.contains(
                                q.last(),
                            ) && q.last() != segment@ ==> q.len() >= w.len()
                },
                None => true,
            },
    {
        let r = graph.nearest_member(segment, active_segments);
        proof {
            if r is Some {
                assert(reaches(graph.adjacency(), segment@, r->0@));
            }
        }
        r
    }

    /// The changes from the lit segments `start` to the target glyph's
    /// segments `target`, in the order they are planned: first the segments
    /// that switch off, then those that switch on, each with the lit segment
    /// it shrinks toward or grows from (itself when nothing is lit on the
    /// other side).  Unless `immediate`, segments of `settled` (whose style
    /// is already the target style) are left as they are.
    pub fn pending_changes(
        &self,
        graph: &SegmentGraph,
        start: &SegmentSet,
        target: &SegmentSet,
        settled: &SegmentSet,
        immediate: bool,
    ) -> (r: Vec<PendingChange>)
        requires
            graph.wf(),
            start.wf(),
            target.wf(),
        ensures
            pendings_view(r@) == pending_spec(
                graph.adjacency(),
                start.order(),
                target.order(),
                settled@,
                immediate,
            ),
            forall|i: int|
                0 <= i < r@.len() ==> nearest_choice(
                    graph.adjacency(),
                    #[trigger] r@[i].segment_id@,
                    r@[i].nearest@,
                    start@,
                ),
    {
        let ghost adj = graph.adjacency();
        let ghost so = start.order();
        let ghost to = target.order();
        proof {
            start.lemma_view();
            target.lemma_view();
        }
        let mut r: Vec<PendingChange> = Vec::new();
        let n = start.len();
        let target_empty = target.is_empty();
        let mut i: usize = 0;
        while i < n
            invariant
                start.wf(),
                target.wf(),
                so == start.order(),
                to == target.order(),
                start@ == so.to_set(),
                target@ == to.to_set(),
                n == so.len(),
                target_empty == (to.to_set().len() == 0),
                adj == graph.adjacency(),
                graph.wf(),
                i <= n,
                pendings_view(r@) == offs_spec(adj, so.subrange(0, i as int), so.to_set(), to.to_set()).map_values(
                    |s: Seq<char>| (s, false),
                ),
                forall|k: int|
                    0 <= k < r@.len() ==> nearest_choice(adj, #[trigger] r@[k].segment_id@, r@[k].nearest@, start@),
            decreases n - i,
        {
            let seg = start.get(i);
            let ghost pre = so.subrange(0, i as int);
            let ghost before = pendings_view(r@);
            proof {
                assert(so.subrange(0, i + 1) =~= pre.push(seg@));
                reveal(Seq::filter);
                assert(so.subrange(0, i + 1).drop_last() =~= pre);
            }
            if !target.contains(seg.as_str()) {
                match self.find_nearest_connected(seg.as_str(), start, graph) {
                    Some(nearest) => {
                        r.push(PendingChange { segment_id: seg.clone(), nearest, turn_on: false });
                        assert(pendings_view(r@) =~= before.push((seg@, false)));
                    },
                    None => {
                        if target_empty {
                            r.push(PendingChange { segment_id: seg.clone(), nearest: seg.clone(), turn_on: false });
                            assert(pendings_view(r@) =~= before.push((seg@, false)));
                        }
                    },
                }
            }
            i = i + 1;
        }
        assert(so.subrange(0, n as int) =~= so);
        let ghost off_part = pendings_view(r@);
        let m = target.len();
        let start_empty = start.is_empty();
        let mut i: usize = 0;
        while i < m
            invariant
                start.wf(),
                target.wf(),
                so == start.order(),
                to == target.order(),
                start@ == so.to_set(),
                target@ == to.to_set(),
                m == to.len(),
                start_empty == (so.to_set().len() == 0),
                adj == graph.adjacency(),
                graph.wf(),
                i <= m,
                pendings_view(r@) == off_part + ons_spec(adj, so.to_set(), to.subrange(0, i as int), settled@, immediate).map_values(
                    |s: Seq<char>| (s, true),
                ),
                forall|k: int|
                    0 <= k < r@.len() ==> nearest_choice(adj, #[trigger] r@[k].segment_id@, r@[k].nearest@, start@),
            decreases m - i,
        {
            let seg = target.get(i);
            let ghost pre = to.subrange(0, i as int);
            let ghost before = pendings_view(r@);
            proof {
                assert(to.subrange(0, i + 1) =~= pre.push(seg@));
                reveal(Seq::filter);
                assert(to.subrange(0, i + 1).drop_last() =~= pre);
            }
            if immediate || !settled.contains(seg.as_str()) {
                match self.find_nearest_connected(seg.as_str(), start, graph) {
                    Some(nearest) => {
                        r.push(PendingChange { segment_id: seg.clone(), nearest, turn_on: true });
                        assert(pendings_view(r@) =~= before.push((seg@, true)));
                    },
                    None => {
                        if start_empty {
                            r.push(PendingChange { segment_id: seg.clone(), nearest: seg.clone(), turn_on: true });
                            assert(pendings_view(r@) =~= before.push((seg@, true)));
                        }
                    },
                }
            }
            i = i + 1;
        }
        assert(to.subrange(0, m as int) =~= to);
        r
    }
}

fn pending_copy(p: &PendingChange) -> (r: PendingChange)
    ensures
        pending_view(r) == pending_view(*p),
        r.nearest@ == p.nearest@,
{
    PendingChange { segment_id: p.segment_id.clone(), nearest: p.nearest.clone(), turn_on: p.turn_on }
}

proof fn lemma_ms_front(s: Seq<ChangeView>, j: int)
    requires
        0 <= j < s.len(),
    ensures
        s.subrange(j, s.len() as int).to_multiset() == s.subrange(j + 1, s.len() as int).to_multiset().insert(s[j]),
{
    broadcast use group_to_multiset_ensures;
    broadcast use vstd::multiset::group_multiset_axioms;

    let a = s.subrange(j, s.len() as int);
    assert(a.remove(0) =~= s.subrange(j + 1, s.len() as int));
    assert(a[0] == s[j]);
    assert(a.contains(a[0]));
    assert(a.to_multiset().count(a[0]) > 0);
    assert(a.to_multiset() =~= a.remove(0).to_multiset().insert(a[0]));
}

proof fn lemma_steps_push(by_step: Seq<Vec<SegmentChange>>, step: Vec<SegmentChange>)
    ensures
        steps_view(by_step.push(step)).flatten() == steps_view(by_step).flatten() + step_view(step),
        steps_view(by_step.push(step)).flatten().to_multiset() == steps_view(by_step).flatten().to_multiset().add(
            step_view(step).to_multiset(),
        ),
{
    assert(steps_view(by_step.push(step)) =~= steps_view(by_step).push(step_view(step)));
    steps_view(by_step).lemma_flatten_push(step_view(step));
    vstd::seq_lib::lemma_multiset_commutative(steps_view(by_step).flatten(), step_view(step));
}

proof fn lemma_ms_empty(s: Seq<ChangeView>)
    requires
        s.len() == 0,
    ensures
        s.to_multiset() == Multiset::<ChangeView>::empty(),
{
    broadcast use group_to_multiset_ensures;
    broadcast use vstd::multiset::group_multiset_axioms;

    assert forall|x: ChangeView| s.to_multiset().count(x) == 0 by {
        assert(!s.contains(x));
    }
    assert(s.to_multiset() =~= Multiset::<ChangeView>::empty());
}

proof fn lemma_move_picked(placed: Multiset<ChangeView>, a: Seq<ChangeView>, b: Seq<ChangeView>, i: int)
    requires
        0 <= i < b.len(),
    ensures
        placed.add(a.push(b[i]).to_multiset()).add(b.remove(i).to_multiset()) == placed.add(a.to_multiset()).add(
            b.to_multiset(),
        ),
{
    broadcast use group_to_multiset_ensures;
    broadcast use vstd::multiset::group_multiset_axioms;

    assert(a.push(b[i]).to_multiset() =~= a.to_multiset().insert(b[i]));
    assert(b.remove(i).to_multiset() =~= b.to_multiset().remove(b[i]));
    assert(b.contains(b[i]));
    assert(b.to_multiset().count(b[i]) > 0);
    assert(placed.add(a.push(b[i]).to_multiset()).add(b.remove(i).to_multiset()) =~= placed.add(
        a.to_multiset(),
    ).add(b.to_multiset()));
}

proof fn lemma_move_front(
    placed: Multiset<ChangeView>,
    st: Seq<ChangeView>,
    kv: Seq<ChangeView>,
    rv: Seq<ChangeView>,
    j: int,
)
    requires
        0 <= j < rv.len(),
    ensures
        placed.add(st.push(rv[j]).to_multiset()).add(kv.to_multiset()).add(
            rv.subrange(j + 1, rv.len() as int).to_multiset(),
        ) == placed.add(st.to_multiset()).add(kv.to_multiset()).add(rv.subrange(j, rv.len() as int).to_multiset()),
        placed.add(st.to_multiset()).add(kv.push(rv[j]).to_multiset()).add(
            rv.subrange(j + 1, rv.len() as int).to_multiset(),
        ) == placed.add(st.to_multiset()).add(kv.to_multiset()).add(rv.subrange(j, rv.len() as int).to_multiset()),
{
    broadcast use group_to_multiset_ensures;
    broadcast use vstd::multiset::group_multiset_axioms;

    lemma_ms_front(rv, j);
    assert(st.push(rv[j]).to_multiset() =~= st.to_multiset().insert(rv[j]));
    assert(kv.push(rv[j]).to_multiset() =~= kv.to_multiset().insert(rv[j]));
    assert(placed.add(st.push(rv[j]).to_multiset()).add(kv.to_multiset()).add(
        rv.subrange(j + 1, rv.len() as int).to_multiset(),
    ) =~= placed.add(st.to_multiset()).add(kv.to_multiset()).add(rv.subrange(j, rv.len() as int).to_multiset()));
    assert(placed.add(st.to_multiset()).add(kv.push(rv[j]).to_multiset()).add(
        rv.subrange(j + 1, rv.len() as int).to_multiset(),
    ) =~= placed.add(st.to_multiset()).add(kv.to_multiset()).add(rv.subrange(j, rv.len() as int).to_multiset()));
}

/// How many changes each of `s` steps takes when `n` changes are spread
/// `c` to a step: as many as fit, the last step taking all that are left.
pub open spec fn fill_sizes(n: nat, c: nat, s: nat) -> Seq<nat>
    decreases s,
{
    if s == 0 {
        Seq::empty()
    } else if s == 1 {
        seq![n]
    } else {
        let t = if n < c { n } else { c };
        seq![t] + fill_sizes((n - t) as nat, c, (s - 1) as nat)
    }
}

/// `x` without its trailing zeros.
pub open spec fn trim_zeros(x: Seq<nat>) -> Seq<nat>
    decreases x.len(),
{
    if x.len() > 0 && x.last() == 0 {
        trim_zeros(x.drop_last())
    } else {
        x
    }
}

/// The number of changes in each step.
pub open spec fn step_sizes(v: Seq<Vec<SegmentChange>>) -> Seq<nat> {
    v.map_values(|st: Vec<SegmentChange>| st@.len())
}

/// A change with the lit segment it belongs with: segment, direction and
/// the lit segment it grows from or shrinks toward.
pub type TaggedChange = (Seq<char>, bool, Seq<char>);

pub open spec fn pending_tag(p: PendingChange) -> TaggedChange {
    (p.segment_id@, p.turn_on, p.nearest@)
}

pub open spec fn pendings_tagged(p: Seq<PendingChange>) -> Seq<TaggedChange> {
    p.map_values(|c: PendingChange| pending_tag(c))
}

pub open spec fn untag(t: TaggedChange) -> ChangeView {
    (t.0, t.1)
}

pub open spec fn untags(s: Seq<TaggedChange>) -> Seq<ChangeView> {
    s.map_values(|t: TaggedChange| untag(t))
}

/// `tagged` gives each change of each step of `r` its lit segment.
pub open spec fn tags_match(r: Seq<Vec<SegmentChange>>, tagged: Seq<Seq<TaggedChange>>) -> bool {
    &&& tagged.len() == r.len()
    &&& forall|i: int|
        0 <= i < r.len() ==> #[trigger] untags(tagged[i]) == step_view(r[i])
}

/// Changes that share a lit segment are kept in one step unless it is full:
/// a change whose lit segment comes up again in a later step is followed,
/// in its own step, only by changes of that same lit segment.
pub open spec fn groups_kept_together(tagged: Seq<Seq<TaggedChange>>) -> bool {
    forall|i1: int, i2: int, j: int, j2: int, k: int|
        #![trigger tagged[i1][j], tagged[i2][k], tagged[i1][j2]]
        0 <= i1 < i2 < tagged.len() && 0 <= j < j2 < tagged[i1].len() && 0 <= k < tagged[i2].len()
            && tagged[i1][j].2 == tagged[i2][k].2 ==> tagged[i1][j2].2 == tagged[i1][j].2
}

/// Every change of the steps `tagged` is one of `from`.
pub open spec fn tags_from(tagged: Seq<Seq<TaggedChange>>, from: Seq<TaggedChange>) -> bool {
    forall|i: int, j: int|
        0 <= i < tagged.len() && 0 <= j < tagged[i].len() ==> from.contains(#[trigger] tagged[i][j])
}

/// The lit segments of the changes `s`.
spec fn nears(s: Seq<TaggedChange>) -> Set<Seq<char>> {
    Set::new(|n: Seq<char>| exists|i: int| 0 <= i < s.len() && #[trigger] s[i].2 == n)
}

/// In `step`, every change whose lit segment is among `rest` is followed
/// only by changes of that lit segment.
spec fn closed_against(step: Seq<TaggedChange>, rest: Set<Seq<char>>) -> bool {
    forall|j: int, j2: int|
        #![trigger step[j], step[j2]]
        0 <= j < j2 < step.len() && rest.contains(step[j].2) ==> step[j2].2 == step[j].2
}

/// Every element of `a` is one of `b`.
spec fn within<A>(a: Seq<A>, b: Seq<A>) -> bool {
    forall|i: int| 0 <= i < a.len() ==> b.contains(#[trigger] a[i])
}

proof fn lemma_nears_index(s: Seq<TaggedChange>, i: int)
    requires
        0 <= i < s.len(),
    ensures
        nears(s).contains(s[i].2),
{
    assert(s[i].2 == s[i].2);
}

proof fn lemma_nears_within(a: Seq<TaggedChange>, b: Seq<TaggedChange>)
    requires
        within(a, b),
    ensures
        nears(a).subset_of(nears(b)),
{
    assert forall|n: Seq<char>| nears(a).contains(n) implies nears(b).contains(n) by {
        let i = choose|i: int| 0 <= i < a.len() && #[trigger] a[i].2 == n;
        assert(b.contains(a[i]));
        let k = choose|k: int| 0 <= k < b.len() && b[k] == a[i];
        lemma_nears_index(b, k);
    }
}

proof fn lemma_within_remove<A>(s: Seq<A>, i: int)
    requires
        0 <= i < s.len(),
    ensures
        within(s.remove(i), s),
{
    assert forall|k: int| 0 <= k < s.remove(i).len() implies s.contains(#[trigger] s.remove(i)[k]) by {
        if k < i {
            assert(s[k] == s.remove(i)[k]);
        } else {
            assert(s[k + 1] == s.remove(i)[k]);
        }
    }
}

proof fn lemma_within_trans<A>(a: Seq<A>, b: Seq<A>, c: Seq<A>)
    requires
        within(a, b),
        within(b, c),
    ensures
        within(a, c),
{
    assert forall|i: int| 0 <= i < a.len() implies c.contains(#[trigger] a[i]) by {
        assert(b.contains(a[i]));
        let k = choose|k: int| 0 <= k < b.len() && b[k] == a[i];
        assert(c.contains(b[k]));
    }
}

proof fn lemma_tagged_untag(p: Seq<PendingChange>)
    ensures
        untags(pendings_tagged(p)) == pendings_view(p),
{
    assert(untags(pendings_tagged(p)) =~= pendings_view(p));
}

/// Spreads the planned changes over `steps` steps.  Each step takes up to
/// `changes_per_step` changes: a change picked at random, then the other
/// changes that share its lit segment, in plan order, while there is room;
/// then another random pick, until the step is full.  Changes that found no
/// room go in the last step, and trailing empty steps are dropped.  With no
/// step at all, nothing is placed.
pub fn distribute_changes(pending: Vec<PendingChange>, steps: usize, changes_per_step: usize) -> (r: Vec<
    Vec<SegmentChange>,
>)
    ensures
        r@.len() <= steps,
        r@.len() > 0 ==> r@.last()@.len() > 0,
        forall|i: int| 0 <= i < r@.len() && i + 1 < steps ==> #[trigger] r@[i]@.len() <= changes_per_step,
        steps == 0 ==> r@.len() == 0,
        steps > 0 ==> steps_view(r@).flatten().to_multiset() == pendings_view(pending@).to_multiset(),
        step_sizes(r@) == trim_zeros(fill_sizes(pending@.len(), changes_per_step as nat, steps as nat)),
        exists|tagged: Seq<Seq<TaggedChange>>|
            tags_match(r@, tagged) && groups_kept_together(tagged) && tags_from(tagged, pendings_tagged(pending@)),
{
    broadcast use group_to_multiset_ensures;
    broadcast use vstd::multiset::group_multiset_axioms;

    let ghost total = pendings_view(pending@).to_multiset();
    let ghost origin = pendings_tagged(pending@);
    let ghost c = changes_per_step as nat;
    let ghost plan = fill_sizes(pending@.len(), c, steps as nat);
    let mut remaining = pending;
    let mut by_step: Vec<Vec<SegmentChange>> = Vec::new();
    let ghost mut tagged: Seq<Seq<TaggedChange>> = Seq::empty();
    proof {
        assert(steps_view(by_step@) =~= Seq::<Seq<ChangeView>>::empty());
        assert(steps_view(by_step@).flatten() =~= Seq::<ChangeView>::empty());
        assert(steps_view(by_step@).flatten().to_multiset().add(pendings_view(remaining@).to_multiset()) =~= total);
        assert forall|i: int| 0 <= i < pendings_tagged(remaining@).len() implies origin.contains(
            #[trigger] pendings_tagged(remaining@)[i],
        ) by {
            assert(origin[i] == pendings_tagged(remaining@)[i]);
        }
    }
    let mut k: usize = 0;
    while k < steps
        invariant
            k <= steps,
            by_step@.len() == k,
            forall|i: int| 0 <= i < by_step@.len() ==> #[trigger] by_step@[i]@.len() <= changes_per_step,
            steps_view(by_step@).flatten().to_multiset().add(pendings_view(remaining@).to_multiset()) == total,
            c == changes_per_step as nat,
            plan == fill_sizes(pending@.len(), c, steps as nat),
            k < steps ==> plan == step_sizes(by_step@) + fill_sizes(remaining@.len(), c, (steps - k) as nat),
            k == steps && steps > 0 ==> plan == step_sizes(by_step@).drop_last().push(
                step_sizes(by_step@).last() + remaining@.len(),
            ),
            steps == 0 ==> plan == step_sizes(by_step@),
            origin == pendings_tagged(pending@),
            tags_match(by_step@, tagged),
            groups_kept_together(tagged),
            tags_from(tagged, origin),
            within(pendings_tagged(remaining@), origin),
            forall|i: int| 0 <= i < tagged.len() ==> closed_against(#[trigger] tagged[i], nears(pendings_tagged(remaining@))),
        decreases steps - k,
    {
        let available = if remaining.len() < changes_per_step {
            remaining.len()
        } else {
            changes_per_step
        };
        let mut step: Vec<SegmentChange> = Vec::new();
        let ghost mut st_tag: Seq<TaggedChange> = Seq::empty();
        let ghost r0 = remaining@.len();
        let ghost placed = steps_view(by_step@).flatten().to_multiset();
        let ghost pool = nears(pendings_tagged(remaining@));
        proof {
            lemma_ms_empty(step_view(step));
            assert(placed.add(step_view(step).to_multiset()) =~= placed);
            assert(untags(st_tag) =~= step_view(step));
        }
        while step.len() < available && remaining.len() > 0
            invariant
                available <= changes_per_step,
                available <= r0,
                step@.len() <= available,
                step@.len() + remaining@.len() == r0,
                placed.add(step_view(step).to_multiset()).add(pendings_view(remaining@).to_multiset()) == total,
                untags(st_tag) == step_view(step),
                origin == pendings_tagged(pending@),
                within(st_tag, origin),
                within(pendings_tagged(remaining@), origin),
                nears(pendings_tagged(remaining@)).subset_of(pool),
                forall|q: int| 0 <= q < st_tag.len() ==> pool.contains(#[trigger] st_tag[q].2),
                closed_against(st_tag, nears(pendings_tagged(remaining@))),
                step@.len() < available ==> forall|q: int|
                    0 <= q < st_tag.len() ==> !nears(pendings_tagged(remaining@)).contains(#[trigger] st_tag[q].2),
            decreases remaining@.len(),
        {
            let idx = random_index(remaining.len());
            let ghost rv0 = pendings_view(remaining@);
            let ghost rt0 = pendings_tagged(remaining@);
            let ghost st0 = step_view(step);
            let ghost h = st_tag.len();
            let picked = remaining.remove(idx);
            let PendingChange { segment_id, nearest, turn_on } = picked;
            step.push(SegmentChange { segment_id, turn_on });
            let ghost g = nearest@;
            proof {
                assert(pendings_view(remaining@) =~= rv0.remove(idx as int));
                assert(pendings_tagged(remaining@) =~= rt0.remove(idx as int));
                assert(rv0[idx as int] == (segment_id@, turn_on));
                assert(rt0[idx as int] == (segment_id@, turn_on, g));
                assert(step_view(step) =~= st0.push((segment_id@, turn_on)));
                lemma_move_picked(placed, st0, rv0, idx as int);
                lemma_within_remove(rt0, idx as int);
                lemma_within_trans(pendings_tagged(remaining@), rt0, origin);
                lemma_nears_within(pendings_tagged(remaining@), rt0);
                lemma_nears_index(rt0, idx as int);
                assert(origin.contains(rt0[idx as int]));
                st_tag = st_tag.push(rt0[idx as int]);
                assert(untags(st_tag) =~= step_view(step));
            }
            let mut kept: Vec<PendingChange> = Vec::new();
            let ghost rv = pendings_view(remaining@);
            let ghost rt = pendings_tagged(remaining@);
            let ghost n = rv.len() as int;
            proof {
                assert(rv.subrange(0, n) =~= rv);
                lemma_ms_empty(pendings_view(kept@));
                assert(placed.add(step_view(step).to_multiset()).add(pendings_view(kept@).to_multiset()) =~= placed.add(
                    step_view(step).to_multiset(),
                ));
            }
            let mut j: usize = 0;
            while j < remaining.len()
                invariant
                    rv == pendings_view(remaining@),
                    rt == pendings_tagged(remaining@),
                    n == rv.len(),
                    j <= n,
                    kept@.len() <= j,
                    step@.len() <= available,
                    available <= changes_per_step,
                    step@.len() + kept@.len() + (n - j) == r0,
                    placed.add(step_view(step).to_multiset()).add(pendings_view(kept@).to_multiset()).add(
                        rv.subrange(j as int, n).to_multiset(),
                    ) == total,
                    g == nearest@,
                    0 <= h < st_tag.len(),
                    untags(st_tag) == step_view(step),
                    origin == pendings_tagged(pending@),
                    within(st_tag, origin),
                    within(rt, origin),
                    within(pendings_tagged(kept@), rt),
                    nears(rt).subset_of(pool),
                    forall|q: int| 0 <= q < st_tag.len() ==> pool.contains(#[trigger] st_tag[q].2),
                    forall|q: int| h <= q < st_tag.len() ==> #[trigger] st_tag[q].2 == g,
                    forall|q: int| 0 <= q < h ==> !nears(rt).contains(#[trigger] st_tag[q].2),
                    nears(pendings_tagged(kept@)).contains(g) ==> step@.len() == available,
                decreases n - j,
            {
                let p = &remaining[j];
                let ghost sv = step_view(step);
                let ghost kv = pendings_view(kept@);
                let ghost kt = pendings_tagged(kept@);
                proof {
                    lemma_move_front(placed, sv, kv, rv, j as int);
                    assert(rv[j as int] == pending_view(*p));
                    assert(rt[j as int] == pending_tag(*p));
                    lemma_nears_index(rt, j as int);
                }
                if crate::text::str_eq(p.nearest.as_str(), nearest.as_str()) && step.len() < available {
                    step.push(SegmentChange { segment_id: p.segment_id.clone(), turn_on: p.turn_on });
                    proof {
                        assert(step_view(step) =~= sv.push(rv[j as int]));
                        assert(rt.contains(rt[j as int]));
                        st_tag = st_tag.push(rt[j as int]);
                        assert(untags(st_tag) =~= step_view(step));
                    }
                } else {
                    kept.push(pending_copy(p));
                    proof {
                        assert(pendings_view(kept@) =~= kv.push(rv[j as int]));
                        assert(pendings_tagged(kept@) =~= kt.push(rt[j as int]));
                        assert(rt.contains(rt[j as int]));
                        assert forall|n2: Seq<char>| #[trigger] nears(pendings_tagged(kept@)).contains(n2) implies (
                        nears(kt).contains(n2) || n2 == rt[j as int].2) by {
                            let i = choose|i: int|
                                0 <= i < pendings_tagged(kept@).len() && #[trigger] pendings_tagged(kept@)[i].2 == n2;
                            if i < kt.len() {
                                lemma_nears_index(kt, i);
                            }
                        }
                    }
                }
                j = j + 1;
            }
            proof {
                lemma_ms_empty(rv.subrange(n, n));
                assert(placed.add(step_view(step).to_multiset()).add(pendings_view(kept@).to_multiset()).add(
                    rv.subrange(n, n).to_multiset(),
                ) =~= placed.add(step_view(step).to_multiset()).add(pendings_view(kept@).to_multiset()));
                lemma_within_trans(pendings_tagged(kept@), rt, origin);
                lemma_nears_within(pendings_tagged(kept@), rt);
                let kn = nears(pendings_tagged(kept@));
                assert forall|a: int, b: int|
                    #![trigger st_tag[a], st_tag[b]]
                    0 <= a < b < st_tag.len() && kn.contains(st_tag[a].2) implies st_tag[b].2 == st_tag[a].2 by {
                    if a < h {
                        assert(!nears(rt).contains(st_tag[a].2));
                    } else {
                        assert(st_tag[a].2 == g);
                        assert(st_tag[b].2 == g);
                    }
                }
                if step@.len() < available {
                    assert forall|q: int| 0 <= q < st_tag.len() implies !kn.contains(#[trigger] st_tag[q].2) by {
                        if q < h {
                            assert(!nears(rt).contains(st_tag[q].2));
                        } else {
                            assert(st_tag[q].2 == g);
                        }
                    }
                }
            }
            remaining = kept;
        }
        proof {
            lemma_steps_push(by_step@, step);
            assert(step@.len() == available);
            let rest = (steps - k) as nat;
            if rest >= 2 {
                assert(fill_sizes(r0, c, rest) == seq![available as nat] + fill_sizes(
                    remaining@.len(),
                    c,
                    (rest - 1) as nat,
                ));
            }
            assert(step_sizes(by_step@.push(step)) =~= step_sizes(by_step@).push(available as nat));
        }
        let ghost sizes_before = step_sizes(by_step@);
        let ghost old_tagged = tagged;
        by_step.push(step);
        proof {
            tagged = tagged.push(st_tag);
            assert(step_sizes(by_step@) == sizes_before.push(available as nat));
            if k + 1 < steps {
                assert(sizes_before + seq![available as nat] + fill_sizes(remaining@.len(), c, (steps - k - 1) as nat)
                    =~= sizes_before.push(available as nat) + fill_sizes(remaining@.len(), c, (steps - k - 1) as nat));
                assert(sizes_before + (seq![available as nat] + fill_sizes(remaining@.len(), c, (steps - k - 1) as nat))
                    =~= sizes_before + seq![available as nat] + fill_sizes(remaining@.len(), c, (steps - k - 1) as nat));
            } else {
                assert(step_sizes(by_step@).drop_last() =~= sizes_before);
                assert(sizes_before + seq![r0] =~= sizes_before.push(r0));
            }
            assert forall|i: int| 0 <= i < by_step@.len() implies #[trigger] untags(tagged[i]) == step_view(by_step@[i]) by {
                if i < old_tagged.len() {
                    assert(tagged[i] == old_tagged[i]);
                }
            }
            assert forall|i1: int, i2: int, j: int, j2: int, kk: int|
                #![trigger tagged[i1][j], tagged[i2][kk], tagged[i1][j2]]
                0 <= i1 < i2 < tagged.len() && 0 <= j < j2 < tagged[i1].len() && 0 <= kk < tagged[i2].len()
                    && tagged[i1][j].2 == tagged[i2][kk].2 implies tagged[i1][j2].2 == tagged[i1][j].2 by {
                assert(tagged[i1] == old_tagged[i1]);
                if i2 < old_tagged.len() {
                    assert(tagged[i2] == old_tagged[i2]);
                } else {
                    assert(tagged[i2] == st_tag);
                    assert(pool.contains(st_tag[kk].2));
                    assert(closed_against(old_tagged[i1], pool));
                    assert(old_tagged[i1][j] == tagged[i1][j]);
                    assert(old_tagged[i1][j2] == tagged[i1][j2]);
                }
            }
            assert forall|i: int, j: int| 0 <= i < tagged.len() && 0 <= j < tagged[i].len() implies origin.contains(
                #[trigger] tagged[i][j],
            ) by {
                if i < old_tagged.len() {
                    assert(tagged[i] == old_tagged[i]);
                } else {
                    assert(tagged[i] == st_tag);
                }
            }
            let rn = nears(pendings_tagged(remaining@));
            assert forall|i: int| 0 <= i < tagged.len() implies closed_against(#[trigger] tagged[i], rn) by {
                if i < old_tagged.len() {
                    assert(tagged[i] == old_tagged[i]);
                    assert(closed_against(old_tagged[i], pool));
                    assert forall|a: int, b: int|
                        #![trigger old_tagged[i][a], old_tagged[i][b]]
                        0 <= a < b < old_tagged[i].len() && rn.contains(old_tagged[i][a].2) implies old_tagged[i][b].2
                        == old_tagged[i][a].2 by {
                        assert(pool.contains(old_tagged[i][a].2));
                    }
                } else {
                    assert(tagged[i] == st_tag);
                }
            }
        }
        k = k + 1;
    }
    proof {
        if steps > 0 && remaining@.len() == 0 {
            assert(pendings_view(remaining@) =~= Seq::<ChangeView>::empty());
            assert(steps_view(by_step@).flatten().to_multiset() =~= total);
            assert(plan =~= step_sizes(by_step@));
        }
    }
    if remaining.len() > 0 && steps > 0 {
        let ghost whole = by_step@;
        let ghost head = by_step@.drop_last();
        let ghost whole_tags = tagged;
        let mut last = by_step.pop().unwrap();
        let ghost last0 = step_view(last);
        proof {
            assert(by_step@ =~= head);
            assert(whole =~= head.push(last));
            lemma_steps_push(head, last);
        }
        let mut j: usize = 0;
        while j < remaining.len()
            invariant
                j <= remaining@.len(),
                step_view(last) == last0 + pendings_view(remaining@).subrange(0, j as int),
            decreases remaining@.len() - j,
        {
            let p = &remaining[j];
            let ghost lv = step_view(last);
            last.push(SegmentChange { segment_id: p.segment_id.clone(), turn_on: p.turn_on });
            assert(step_view(last) =~= lv.push(pending_view(*p)));
            assert(pendings_view(remaining@).subrange(0, j + 1) =~= pendings_view(remaining@).subrange(
                0,
                j as int,
            ).push(pending_view(*p)));
            j = j + 1;
        }
        proof {
            assert(pendings_view(remaining@).subrange(0, j as int) =~= pendings_view(remaining@));
            lemma_steps_push(head, last);
            vstd::seq_lib::lemma_multiset_commutative(last0, pendings_view(remaining@));
            assert(steps_view(head.push(last)).flatten().to_multiset() =~= total);
        }
        let ghost last_len = last@.len();
        by_step.push(last);
        proof {
            assert forall|i: int| 0 <= i < by_step@.len() && i + 1 < steps implies #[trigger] by_step@[i]@.len()
                <= changes_per_step by {
                assert(by_step@[i] == whole[i]);
            }
            assert(last_len == last0.len() + remaining@.len());
            assert(step_sizes(whole).last() == last0.len());
            assert(step_sizes(by_step@) =~= step_sizes(whole).drop_last().push(last_len as nat));
            let li = whole_tags.len() - 1;
            let rt = pendings_tagged(remaining@);
            let new_last = whole_tags[li] + rt;
            tagged = whole_tags.update(li, new_last);
            lemma_tagged_untag(remaining@);
            assert(untags(whole_tags[li]) == step_view(whole[li]));
            assert(untags(new_last) =~= untags(whole_tags[li]) + untags(rt));
            assert forall|i: int| 0 <= i < by_step@.len() implies #[trigger] untags(tagged[i]) == step_view(by_step@[i]) by {
                if i < li {
                    assert(tagged[i] == whole_tags[i]);
                    assert(by_step@[i] == whole[i]);
                }
            }
            assert forall|i1: int, i2: int, a: int, a2: int, kk: int|
                #![trigger tagged[i1][a], tagged[i2][kk], tagged[i1][a2]]
                0 <= i1 < i2 < tagged.len() && 0 <= a < a2 < tagged[i1].len() && 0 <= kk < tagged[i2].len()
                    && tagged[i1][a].2 == tagged[i2][kk].2 implies tagged[i1][a2].2 == tagged[i1][a].2 by {
                assert(tagged[i1] == whole_tags[i1]);
                if i2 < li {
                    assert(tagged[i2] == whole_tags[i2]);
                } else if kk < whole_tags[li].len() {
                    assert(tagged[i2][kk] == whole_tags[i2][kk]);
                } else {
                    assert(tagged[i2][kk] == rt[kk - whole_tags[li].len()]);
                    lemma_nears_index(rt, kk - whole_tags[li].len());
                    assert(closed_against(whole_tags[i1], nears(rt)));
                }
            }
            assert forall|i: int, a: int| 0 <= i < tagged.len() && 0 <= a < tagged[i].len() implies origin.contains(
                #[trigger] tagged[i][a],
            ) by {
                if i < li {
                    assert(tagged[i] == whole_tags[i]);
                } else if a < whole_tags[li].len() {
                    assert(tagged[i][a] == whole_tags[li][a]);
                } else {
                    assert(tagged[i][a] == rt[a - whole_tags[li].len()]);
                }
            }
        }
    }
    assert(step_sizes(by_step@) == plan);
    while by_step.len() > 0 && by_step[by_step.len() - 1].len() == 0
        invariant
            by_step@.len() <= steps,
            forall|i: int| 0 <= i < by_step@.len() && i + 1 < steps ==> #[trigger] by_step@[i]@.len() <= changes_per_step,
            steps > 0 ==> steps_view(by_step@).flatten().to_multiset() == total,
            trim_zeros(step_sizes(by_step@)) == trim_zeros(plan),
            plan == fill_sizes(pending@.len(), c, steps as nat),
            c == changes_per_step as nat,
            origin == pendings_tagged(pending@),
            tags_match(by_step@, tagged),
            groups_kept_together(tagged),
            tags_from(tagged, origin),
        decreases by_step@.len(),
    {
        let ghost whole = by_step@;
        let ghost head = by_step@.drop_last();
        let ghost whole_tags = tagged;
        let gone = by_step.pop();
        proof {
            assert(by_step@ =~= head);
            assert(whole =~= head.push(whole.last()));
            lemma_steps_push(head, whole.last());
            assert(step_view(whole.last()) =~= Seq::<ChangeView>::empty());
            assert(steps_view(head).flatten() + step_view(whole.last()) =~= steps_view(head).flatten());
            assert forall|i: int| 0 <= i < by_step@.len() && i + 1 < steps implies #[trigger] by_step@[i]@.len()
                <= changes_per_step by {
                assert(by_step@[i] == whole[i]);
            }
            assert(step_sizes(by_step@) =~= step_sizes(whole).drop_last());
            assert(step_sizes(whole).last() == 0);
            tagged = whole_tags.drop_last();
            assert forall|i: int| 0 <= i < by_step@.len() implies #[trigger] untags(tagged[i]) == step_view(by_step@[i]) by {
                assert(tagged[i] == whole_tags[i]);
                assert(by_step@[i] == whole[i]);
            }
            assert forall|i1: int, i2: int, a: int, a2: int, kk: int|
                #![trigger tagged[i1][a], tagged[i2][kk], tagged[i1][a2]]
                0 <= i1 < i2 < tagged.len() && 0 <= a < a2 < tagged[i1].len() && 0 <= kk < tagged[i2].len()
                    && tagged[i1][a].2 == tagged[i2][kk].2 implies tagged[i1][a2].2 == tagged[i1][a].2 by {
                assert(tagged[i1] == whole_tags[i1]);
                assert(tagged[i2] == whole_tags[i2]);
            }
            assert forall|i: int, a: int| 0 <= i < tagged.len() && 0 <= a < tagged[i].len() implies origin.contains(
                #[trigger] tagged[i][a],
            ) by {
                assert(tagged[i] == whole_tags[i]);
            }
        }
    }
    proof {
        if by_step@.len() > 0 {
            assert(step_sizes(by_step@).last() != 0);
        }
    }
    by_step
}

/// No segment is both switched on and switched off.
pub open spec fn conflict_free(cs: Seq<ChangeView>) -> bool {
    forall|id: Seq<char>| !(#[trigger] cs.contains((id, true)) && cs.contains((id, false)))
}

/// Every segment that leaves can shrink toward another lit segment (or the
/// target is empty), and every segment that arrives is not left alone for
/// its style and can grow out of a lit segment (or nothing is lit).
pub open spec fn connected_enough(
    adj: Map<Seq<char>, Seq<Seq<char>>>,
    start: Set<Seq<char>>,
    target: Set<Seq<char>>,
    settled: Set<Seq<char>>,
    immediate: bool,
) -> bool {
    &&& forall|s: Seq<char>|
        #[trigger] start.contains(s) && !target.contains(s) ==> has_other_reachable(adj, s, start) || target.len()
            == 0
    &&& forall|t: Seq<char>|
        #[trigger] target.contains(t) && !start.contains(t) ==> (immediate || !settled.contains(t)) && (
        has_other_reachable(adj, t, start) || start.len() == 0)
}

proof fn lemma_filter_member(s: Seq<Seq<char>>, p: spec_fn(Seq<char>) -> bool, x: Seq<char>)
    ensures
        s.filter(p).contains(x) <==> (s.contains(x) && p(x)),
{
    if s.filter(p).contains(x) {
        s.lemma_filter_contains_rev(p, x);
        let i = choose|i: int| 0 <= i < s.filter(p).len() && s.filter(p)[i] == x;
        s.lemma_filter_pred(p, i);
    }
    if s.contains(x) && p(x) {
        let i = choose|i: int| 0 <= i < s.len() && s[i] == x;
        s.lemma_filter_contains(p, i);
    }
}

proof fn lemma_tagged_member(s: Seq<Seq<char>>, b: bool, id: Seq<char>, c: bool)
    ensures
        s.map_values(|x: Seq<char>| (x, b)).contains((id, c)) <==> (c == b && s.contains(id)),
{
    let m = s.map_values(|x: Seq<char>| (x, b));
    if m.contains((id, c)) {
        let i = choose|i: int| 0 <= i < m.len() && m[i] == (id, c);
        assert(s[i] == id);
    }
    if c == b && s.contains(id) {
        let i = choose|i: int| 0 <= i < s.len() && s[i] == id;
        assert(m[i] == (id, c));
    }
}

proof fn lemma_concat_member(a: Seq<ChangeView>, b: Seq<ChangeView>, x: ChangeView)
    ensures
        (a + b).contains(x) <==> (a.contains(x) || b.contains(x)),
{
    if (a + b).contains(x) {
        let i = choose|i: int| 0 <= i < (a + b).len() && (a + b)[i] == x;
        if i < a.len() {
            assert(a[i] == x);
        } else {
            assert(b[i - a.len()] == x);
        }
    }
    if a.contains(x) {
        let i = choose|i: int| 0 <= i < a.len() && a[i] == x;
        assert((a + b)[i] == x);
    }
    if b.contains(x) {
        let i = choose|i: int| 0 <= i < b.len() && b[i] == x;
        assert((a + b)[a.len() + i] == x);
    }
}

/// Changes without conflict, made one after another, act as one step:
/// the segments switched off leave, those switched on join.
pub proof fn lemma_apply_as_sets(lit: Set<Seq<char>>, cs: Seq<ChangeView>)
    requires
        conflict_free(cs),
    ensures
        apply_changes(lit, cs) == lit.difference(offs_of(cs)).union(ons_of(cs)),
    decreases cs.len(),
{
    if cs.len() == 0 {
        assert(lit.difference(offs_of(cs)).union(ons_of(cs)) =~= lit);
    } else {
        let pre = cs.drop_last();
        let x = cs.last();
        assert(cs =~= pre.push(x));
        assert forall|id: Seq<char>| !(#[trigger] pre.contains((id, true)) && pre.contains((id, false))) by {
            lemma_contains_push(pre, x, (id, true));
            lemma_contains_push(pre, x, (id, false));
        }
        lemma_apply_as_sets(lit, pre);
        assert forall|id: Seq<char>| #[trigger] apply_changes(lit, cs).contains(id) <==> lit.difference(
            offs_of(cs),
        ).union(ons_of(cs)).contains(id) by {
            lemma_contains_push(pre, x, (id, true));
            lemma_contains_push(pre, x, (id, false));
        }
        assert(apply_changes(lit, cs) =~= lit.difference(offs_of(cs)).union(ons_of(cs)));
    }
}

/// Two lists of the same changes, in whatever order, have the same effect.
pub proof fn lemma_apply_permutation(lit: Set<Seq<char>>, a: Seq<ChangeView>, b: Seq<ChangeView>)
    requires
        a.to_multiset() == b.to_multiset(),
        conflict_free(a),
    ensures
        conflict_free(b),
        apply_changes(lit, b) == apply_changes(lit, a),
{
    broadcast use group_to_multiset_ensures;

    assert forall|x: ChangeView| #[trigger] b.contains(x) <==> a.contains(x) by {
        assert(a.contains(x) <==> a.to_multiset().count(x) > 0);
        assert(b.contains(x) <==> b.to_multiset().count(x) > 0);
    }
    lemma_apply_as_sets(lit, a);
    lemma_apply_as_sets(lit, b);
    assert(ons_of(a) =~= ons_of(b));
    assert(offs_of(a) =~= offs_of(b));
}

/// The planned changes have no conflict, and when every segment can shrink
/// toward or grow out of a lit one, making them all turns the lit segments
/// into the target glyph.
pub proof fn lemma_pending_reaches_target(
    adj: Map<Seq<char>, Seq<Seq<char>>>,
    start_order: Seq<Seq<char>>,
    target_order: Seq<Seq<char>>,
    settled: Set<Seq<char>>,
    immediate: bool,
)
    ensures
        conflict_free(pending_spec(adj, start_order, target_order, settled, immediate)),
        connected_enough(adj, start_order.to_set(), target_order.to_set(), settled, immediate) ==> apply_changes(
            start_order.to_set(),
            pending_spec(adj, start_order, target_order, settled, immediate),
        ) == target_order.to_set(),
{
    let start = start_order.to_set();
    let target = target_order.to_set();
    let offs = offs_spec(adj, start_order, start, target);
    let ons = ons_spec(adj, start, target_order, settled, immediate);
    let poff = |s: Seq<char>| !target.contains(s) && (has_other_reachable(adj, s, start) || target.len() == 0);
    let pon = |s: Seq<char>| (immediate || !settled.contains(s)) && (has_other_reachable(adj, s, start) || start.len() == 0);
    let cs = pending_spec(adj, start_order, target_order, settled, immediate);
    assert(offs == start_order.filter(poff));
    assert(ons == target_order.filter(pon));
    assert(cs == offs.map_values(|x: Seq<char>| (x, false)) + ons.map_values(|x: Seq<char>| (x, true)));
    assert forall|id: Seq<char>| #[trigger] cs.contains((id, true)) <==> ons.contains(id) by {
        lemma_concat_member(offs.map_values(|x: Seq<char>| (x, false)), ons.map_values(|x: Seq<char>| (x, true)), (id, true));
        lemma_tagged_member(offs, false, id, true);
        lemma_tagged_member(ons, true, id, true);
    }
    assert forall|id: Seq<char>| #[trigger] cs.contains((id, false)) <==> offs.contains(id) by {
        lemma_concat_member(offs.map_values(|x: Seq<char>| (x, false)), ons.map_values(|x: Seq<char>| (x, true)), (id, false));
        lemma_tagged_member(offs, false, id, false);
        lemma_tagged_member(ons, true, id, false);
    }
    assert forall|id: Seq<char>| #[trigger] ons.contains(id) <==> (target_order.contains(id) && pon(id)) by {
        lemma_filter_member(target_order, pon, id);
    }
    assert forall|id: Seq<char>| #[trigger] offs.contains(id) <==> (start_order.contains(id) && poff(id)) by {
        lemma_filter_member(start_order, poff, id);
    }
    assert forall|id: Seq<char>| !(#[trigger] cs.contains((id, true)) && cs.contains((id, false))) by {
        if cs.contains((id, true)) && cs.contains((id, false)) {
            assert(ons.contains(id));
            assert(offs.contains(id));
            assert(target.contains(id));
        }
    }
    if connected_enough(adj, start, target, settled, immediate) {
        lemma_apply_as_sets(start, cs);
        assert forall|id: Seq<char>| #[trigger] start.difference(offs_of(cs)).union(ons_of(cs)).contains(id)
            <==> target.contains(id) by {
            assert(ons_of(cs).contains(id) <==> cs.contains((id, true)));
            assert(offs_of(cs).contains(id) <==> cs.contains((id, false)));
            if target.contains(id) && !start.contains(id) {
                assert(target_order.contains(id));
                assert(pon(id));
            }
            if start.contains(id) && !target.contains(id) {
                assert(start_order.contains(id));
                assert(poff(id));
            }
        }
        assert(start.difference(offs_of(cs)).union(ons_of(cs)) =~= target);
    }
}

impl TransitionEngine {
    /// The steps of a transition from the lit segments `start` to the
    /// target glyph's segments `target`.  When `immediate`, every planned
    /// change comes in one step.  Otherwise the changes are spread over
    /// `steps` steps: each step but the last takes `changes_per_step(n)` of
    /// them, for `n` planned changes, or all that are left when fewer are
    /// (the renderer derives that number from its density setting); the last
    /// step takes the rest, and trailing empty steps are dropped.  Each
    /// change belongs with the lit segment nearest to it, and changes that
    /// share one are kept in one step unless it is full; beyond that, which
    /// changes share a step is chance.  Played through, the steps turn
    /// `start` into `target` whenever every leaving and arriving segment is
    /// connected to a lit one.
    pub fn generate_changes<F: Fn(usize) -> usize>(
        &self,
        graph: &SegmentGraph,
        start: &SegmentSet,
        target: &SegmentSet,
        settled: &SegmentSet,
        immediate: bool,
        steps: usize,
        changes_per_step: F,
    ) -> (r: Vec<Vec<SegmentChange>>)
        requires
            graph.wf(),
            start.wf(),
            target.wf(),
            forall|n: usize| changes_per_step.requires((n,)),
        ensures
            immediate ==> r@.len() == 1 && step_view(r@[0]) == pending_spec(
                graph.adjacency(),
                start.order(),
                target.order(),
                settled@,
                immediate,
            ),
            !immediate ==> {
                &&& r@.len() <= steps
                &&& r@.len() > 0 ==> r@.last()@.len() > 0
                &&& steps == 0 ==> r@.len() == 0
                &&& steps > 0 ==> steps_view(r@).flatten().to_multiset() == pending_spec(
                    graph.adjacency(),
                    start.order(),
                    target.order(),
                    settled@,
                    immediate,
                ).to_multiset()
            },
            !immediate ==> exists|c: usize|
                call_ensures(
                    changes_per_step,
                    (pending_spec(graph.adjacency(), start.order(), target.order(), settled@, immediate).len() as usize,),
                    c,
                ) && step_sizes(r@) == trim_zeros(
                    fill_sizes(
                        pending_spec(graph.adjacency(), start.order(), target.order(), settled@, immediate).len(),
                        c as nat,
                        steps as nat,
                    ),
                ),
            (immediate || steps > 0) ==> conflict_free(steps_view(r@).flatten()),
            (immediate || steps > 0) && connected_enough(
                graph.adjacency(),
                start@,
                target@,
                settled@,
                immediate,
            ) ==> apply_changes(start@, steps_view(r@).flatten()) == target@,
            exists|tagged: Seq<Seq<TaggedChange>>|
                {
                    &&& tags_match(r@, tagged)
                    &&& groups_kept_together(tagged)
                    &&& forall|i: int, j: int|
                        0 <= i < tagged.len() && 0 <= j < tagged[i].len() ==> nearest_choice(
                            graph.adjacency(),
                            #[trigger] tagged[i][j].0,
                            tagged[i][j].2,
                            start@,
                        )
                },
    {
        let pending = self.pending_changes(graph, start, target, settled, immediate);
        let ghost origin = pendings_tagged(pending@);
        proof {
            assert forall|t: TaggedChange| origin.contains(t) implies nearest_choice(
                graph.adjacency(),
                t.0,
                t.2,
                start@,
            ) by {
                let k = choose|k: int| 0 <= k < origin.len() && origin[k] == t;
                assert(origin[k] == pending_tag(pending@[k]));
                assert(nearest_choice(graph.adjacency(), pending@[k].segment_id@, pending@[k].nearest@, start@));
            }
        }
        let ghost cs = pending_spec(graph.adjacency(), start.order(), target.order(), settled@, immediate);
        proof {
            start.lemma_view();
            target.lemma_view();
            lemma_pending_reaches_target(graph.adjacency(), start.order(), target.order(), settled@, immediate);
        }
        if immediate {
            let mut single_step: Vec<SegmentChange> = Vec::new();
            let mut j: usize = 0;
            while j < pending.len()
                invariant
                    j <= pending@.len(),
                    step_view(single_step) == pendings_view(pending@).subrange(0, j as int),
                decreases pending@.len() - j,
            {
                let p = &pending[j];
                let ghost before = step_view(single_step);
                single_step.push(SegmentChange { segment_id: p.segment_id.clone(), turn_on: p.turn_on });
                assert(step_view(single_step) =~= before.push(pending_view(*p)));
                assert(pendings_view(pending@).subrange(0, j + 1) =~= pendings_view(pending@).subrange(
                    0,
                    j as int,
                ).push(pending_view(*p)));
                j = j + 1;
            }
            assert(pendings_view(pending@).subrange(0, j as int) =~= pendings_view(pending@));
            let mut r: Vec<Vec<SegmentChange>> = Vec::new();
            r.push(single_step);
            proof {
                assert(steps_view(r@) =~= seq![cs]);
                seq![cs].lemma_flatten_singleton();
                let tagged = seq![origin];
                lemma_tagged_untag(pending@);
                assert(tags_match(r@, tagged));
                assert forall|i: int, j: int| 0 <= i < tagged.len() && 0 <= j < tagged[i].len() implies nearest_choice(
                    graph.adjacency(),
                    #[trigger] tagged[i][j].0,
                    tagged[i][j].2,
                    start@,
                ) by {
                    assert(origin.contains(origin[j]));
                }
                assert(groups_kept_together(tagged));
            }
            r
        } else {
            let per_step = changes_per_step(pending.len());
            assert(pending@.len() == cs.len());
            let r = distribute_changes(pending, steps, per_step);
            proof {
                if steps > 0 {
                    lemma_apply_permutation(start@, cs, steps_view(r@).flatten());
                }
                let tagged = choose|tagged: Seq<Seq<TaggedChange>>|
                    tags_match(r@, tagged) && groups_kept_together(tagged) && tags_from(tagged, origin);
                assert forall|i: int, j: int| 0 <= i < tagged.len() && 0 <= j < tagged[i].len() implies nearest_choice(
                    graph.adjacency(),
                    #[trigger] tagged[i][j].0,
                    tagged[i][j].2,
                    start@,
                ) by {
                    assert(origin.contains(tagged[i][j]));
                }
                assert(tags_match(r@, tagged) && groups_kept_together(tagged));
            }
            r
        }
    }
}

/// The lit segments after playing `steps` on `lit`, a step at a time, each
/// step as the renderer applies its updates: its segments switched off
/// leave, its segments switched on join.
pub open spec fn play(lit: Set<Seq<char>>, steps: Seq<Seq<ChangeView>>) -> Set<Seq<char>>
    decreases steps.len(),
{
    if steps.len() == 0 {
        lit
    } else {
        play(lit, steps.drop_last()).difference(offs_of(steps.last())).union(ons_of(steps.last()))
    }
}

proof fn lemma_apply_concat(lit: Set<Seq<char>>, a: Seq<ChangeView>, b: Seq<ChangeView>)
    ensures
        apply_changes(lit, a + b) == apply_changes(apply_changes(lit, a), b),
    decreases b.len(),
{
    if b.len() == 0 {
        assert(a + b =~= a);
    } else {
        assert((a + b).drop_last() =~= a + b.drop_last());
        assert((a + b).last() == b.last());
        lemma_apply_concat(lit, a, b.drop_last());
    }
}

proof fn lemma_conflict_free_parts(a: Seq<ChangeView>, b: Seq<ChangeView>)
    requires
        conflict_free(a + b),
    ensures
        conflict_free(a),
        conflict_free(b),
{
    assert forall|id: Seq<char>| !(#[trigger] a.contains((id, true)) && a.contains((id, false))) by {
        lemma_concat_member(a, b, (id, true));
        lemma_concat_member(a, b, (id, false));
    }
    assert forall|id: Seq<char>| !(#[trigger] b.contains((id, true)) && b.contains((id, false))) by {
        lemma_concat_member(a, b, (id, true));
        lemma_concat_member(a, b, (id, false));
    }
}

/// Playing the steps of a transition one by one, each step's updates
/// applied as sets, has the effect of making all its changes one after
/// another, as long as no segment is both switched on and off.
pub proof fn lemma_play_is_apply(lit: Set<Seq<char>>, steps: Seq<Seq<ChangeView>>)
    requires
        conflict_free(steps.flatten()),
    ensures
        play(lit, steps) == apply_changes(lit, steps.flatten()),
    decreases steps.len(),
{
    if steps.len() > 0 {
        let init = steps.drop_last();
        let last = steps.last();
        assert(steps =~= init.push(last));
        init.lemma_flatten_push(last);
        lemma_conflict_free_parts(init.flatten(), last);
        lemma_play_is_apply(lit, init);
        lemma_apply_concat(lit, init.flatten(), last);
        lemma_apply_as_sets(apply_changes(lit, init.flatten()), last);
    }
}

} // verus!
