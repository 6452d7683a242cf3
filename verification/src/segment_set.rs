//! A set of segment ids that remembers the order its members came in.  The
//! renderer walks it to switch segments on and off; the transition logic
//! asks it for membership.

use vstd::prelude::*;

verus! {

/// Segment ids, none twice, in the order they were inserted.
pub struct SegmentSet {
    items: Vec<String>,
}

impl View for SegmentSet {
    type V = Set<Seq<char>>;

    closed spec fn view(&self) -> Set<Seq<char>> {
        self.order().to_set()
    }
}

impl SegmentSet {
    /// The members, in the order they were inserted.
    pub closed spec fn order(&self) -> Seq<Seq<char>> {
        self.items@.map_values(|s: String| s@)
    }

    pub open spec fn wf(&self) -> bool {
        self.order().no_duplicates()
    }

    /// The set holds exactly the members of its order, and a well-formed set
    /// lists each member once.
    pub proof fn lemma_view(&self)
        ensures
            self@ == self.order().to_set(),
            self.wf() ==> self.order().len() == self@.len(),
            forall|x: Seq<char>| #[trigger] self@.contains(x) <==> self.order().contains(x),
    {
        if self.wf() {
            self.order().unique_seq_to_set();
        }
    }

    /// An empty set.
    pub fn new() -> (r: Self)
        ensures
            r.wf(),
            r@ == Set::<Seq<char>>::empty(),
            r.order() == Seq::<Seq<char>>::empty(),
    {
        let r = SegmentSet { items: Vec::new() };
        assert(r.order() =~= Seq::<Seq<char>>::empty());
        assert(r@ =~= Set::<Seq<char>>::empty());
        r
    }

    /// The number of members.
    pub fn len(&self) -> (r: usize)
        requires
            self.wf(),
        ensures
            r == self@.len(),
            r == self.order().len(),
    {
        proof {
            self.lemma_view();
        }
        self.items.len()
    }

    /// Whether the set has no member.
    pub fn is_empty(&self) -> (r: bool)
        requires
            self.wf(),
        ensures
            r == (self@.len() == 0),
            r == (self.order().len() == 0),
    {
        proof {
            self.lemma_view();
        }
        self.items.len() == 0
    }

    /// Position of `id` among the members, if it is one.
    fn position(&self, id: &str) -> (r: Option<usize>)
        ensures
            match r {
                Some(i) => i < self.order().len() && self.order()[i as int] == id@,
                None => !self.order().contains(id@),
            },
    {
        let mut i: usize = 0;
        while i < self.items.len()
            invariant
                i <= self.items@.len(),
                forall|j: int| 0 <= j < i ==> self.order()[j] != id@,
            decreases self.items@.len() - i,
        {
            if crate::text::str_eq(self.items[i].as_str(), id) {
                return Some(i);
            }
            i = i + 1;
        }
        None
    }

    /// Whether `id` is a member.
    pub fn contains(&self, id: &str) -> (r: bool)
        ensures
            r == self@.contains(id@),
    {
        proof {
            self.lemma_view();
        }
        self.position(id).is_some()
    }

    /// Adds `id`; returns whether it was new.  A new member goes last.
    pub fn insert(&mut self, id: String) -> (r: bool)
        requires
            old(self).wf(),
        ensures
            final(self).wf(),
            final(self)@ == old(self)@.insert(id@),
            r == !old(self)@.contains(id@),
            final(self).order() == if r { old(self).order().push(id@) } else { old(self).order() },
    {
        proof {
            self.lemma_view();
        }
        if self.position(id.as_str()).is_some() {
            assert(self@ =~= old(self)@.insert(id@));
            false
        } else {
            let ghost before = self.order();
            self.items.push(id);
            proof {
                assert(self.order() =~= before.push(id@));
                Seq::lemma_to_set_insert_commutes(before, id@);
                assert(before + seq![id@] =~= self.order());
                assert forall|a: int, b: int|
                    0 <= a < self.order().len() && 0 <= b < self.order().len() && a != b implies self.order()[a]
                    != self.order()[b] by {
                    if a == before.len() {
                        assert(self.order()[b] == before[b]);
                    } else if b == before.len() {
                        assert(self.order()[a] == before[a]);
                    } else {
                        assert(self.order()[a] == before[a]);
                        assert(self.order()[b] == before[b]);
                    }
                }
            }
            true
        }
    }

    /// Removes `id`; returns whether it was a member.  The others keep their
    /// order.
    pub fn remove(&mut self, id: &str) -> (r: bool)
        requires
            old(self).wf(),
        ensures
            final(self).wf(),
            final(self)@ == old(self)@.remove(id@),
            r == old(self)@.contains(id@),
    {
        proof {
            self.lemma_view();
        }
        match self.position(id) {
            None => {
                assert(self@ =~= old(self)@.remove(id@));
                false
            },
            Some(i) => {
                let ghost before = self.order();
                self.items.remove(i);
                proof {
                    assert(self.order() =~= before.remove(i as int));
                    assert forall|a: int, b: int|
                        0 <= a < self.order().len() && 0 <= b < self.order().len() && a != b implies self.order()[a]
                        != self.order()[b] by {
                        let a2 = if a < i { a } else { a + 1 };
                        let b2 = if b < i { b } else { b + 1 };
                        assert(self.order()[a] == before[a2]);
                        assert(self.order()[b] == before[b2]);
                    }
                    assert forall|x: Seq<char>| #[trigger] self@.contains(x) <==> old(self)@.remove(id@).contains(x) by {
                        if self.order().contains(x) {
                            let k = choose|k: int| 0 <= k < self.order().len() && self.order()[k] == x;
                            let k2 = if k < i { k } else { k + 1 };
                            assert(before[k2] == x);
                            assert(k2 != i);
                        }
                        if old(self)@.remove(id@).contains(x) {
                            let k = choose|k: int| 0 <= k < before.len() && before[k] == x;
                            assert(k != i);
                            let k2 = if k < i { k } else { k - 1 };
                            assert(self.order()[k2] == x);
                        }
                    }
                    assert(self@ =~= old(self)@.remove(id@));
                }
                true
            },
        }
    }

    /// The member at position `i`.
    pub fn get(&self, i: usize) -> (r: &String)
        requires
            i < self.order().len(),
        ensures
            r@ == self.order()[i as int],
    {
        &self.items[i]
    }

    /// The members, in order.
    pub fn to_vec(&self) -> (r: Vec<String>)
        ensures
            r@.map_values(|s: String| s@) == self.order(),
    {
        let mut r: Vec<String> = Vec::new();
        let mut i: usize = 0;
        while i < self.items.len()
            invariant
                i <= self.items@.len(),
                r@.map_values(|s: String| s@) == self.order().subrange(0, i as int),
            decreases self.items@.len() - i,
        {
            let ghost before = r@.map_values(|s: String| s@);
            r.push(self.items[i].clone());
            assert(r@.map_values(|s: String| s@) =~= before.push(self.order()[i as int]));
            assert(self.order().subrange(0, i + 1) =~= self.order().subrange(0, i as int).push(
                self.order()[i as int],
            ));
            i = i + 1;
        }
        assert(self.order().subrange(0, i as int) =~= self.order());
        r
    }
}

} // verus!
