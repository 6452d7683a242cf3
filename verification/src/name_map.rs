//! A map from names to values, kept as two parallel vectors in insertion
//! order.  It stands where the application keys things by `String`: glyphs
//! and shows of a project, effects, grid elements and graph nodes.

use vstd::prelude::*;

verus! {

/// Names and their values; no name occurs twice.
pub struct NameMap<V> {
    keys: Vec<String>,
    vals: Vec<V>,
}

impl<V> NameMap<V> {
    /// The names, in the order they were first inserted.
    pub closed spec fn key_seq(&self) -> Seq<Seq<char>> {
        self.keys@.map_values(|k: String| k@)
    }

    /// The values, in the order of `key_seq`.
    pub closed spec fn val_seq(&self) -> Seq<V> {
        self.vals@
    }

    pub closed spec fn wf(&self) -> bool {
        &&& self.keys@.len() == self.vals@.len()
        &&& self.key_seq().no_duplicates()
    }

    /// The map that the two vectors denote.
    pub closed spec fn view(&self) -> Map<Seq<char>, V> {
        Map::new(
            |k: Seq<char>| self.key_seq().contains(k),
            |k: Seq<char>| self.vals@[self.key_seq().index_of(k)],
        )
    }

    /// A well-formed map has one value per key, no key twice, and its keys
    /// are exactly the keys of its view.
    pub proof fn lemma_wf_facts(&self)
        requires
            self.wf(),
        ensures
            self.key_seq().len() == self.val_seq().len(),
            self.key_seq().no_duplicates(),
            self.view().dom() == self.key_seq().to_set(),
            forall|i: int|
                0 <= i < self.key_seq().len() ==> self.view()[#[trigger] self.key_seq()[i]]
                    == self.val_seq()[i],
    {
        assert(self.view().dom() =~= self.key_seq().to_set());
        assert forall|i: int| 0 <= i < self.key_seq().len() implies self.view()[
            #[trigger] self.key_seq()[i]] == self.val_seq()[i] by {
            let k = self.key_seq()[i];
            assert(self.key_seq().contains(k));
            let j = self.key_seq().index_of(k);
            assert(self.key_seq()[j] == k);
        }
    }

    /// An empty map.
    pub fn new() -> (r: Self)
        ensures
            r.wf(),
            r.view() == Map::<Seq<char>, V>::empty(),
            r.key_seq() == Seq::<Seq<char>>::empty(),
    {
        let r = NameMap { keys: Vec::new(), vals: Vec::new() };
        assert(r.key_seq() =~= Seq::<Seq<char>>::empty());
        assert(r.view() =~= Map::<Seq<char>, V>::empty());
        r
    }

    /// Number of names.
    pub fn len(&self) -> (r: usize)
        requires
            self.wf(),
        ensures
            r == self.key_seq().len(),
    {
        self.keys.len()
    }

    /// Position of `name`, if present.
    pub fn find(&self, name: &str) -> (r: Option<usize>)
        requires
            self.wf(),
        ensures
            match r {
                Some(i) => i < self.key_seq().len() && self.key_seq()[i as int] == name@,
                None => !self.key_seq().contains(name@),
            },
    {
        let mut i: usize = 0;
        while i < self.keys.len()
            invariant
                self.wf(),
                i <= self.keys@.len(),
                forall|j: int| 0 <= j < i ==> self.key_seq()[j] != name@,
            decreases self.keys@.len() - i,
        {
            if crate::text::str_eq(self.keys[i].as_str(), name) {
                return Some(i);
            }
            i = i + 1;
        }
        None
    }

    /// Whether `name` is present.
    pub fn contains_key(&self, name: &str) -> (r: bool)
        requires
            self.wf(),
        ensures
            r == self.view().dom().contains(name@),
    {
        let r = self.find(name);
        r.is_some()
    }

    /// The value for `name`, if present.
    pub fn get(&self, name: &str) -> (r: Option<&V>)
        requires
            self.wf(),
        ensures
            match r {
                Some(v) => self.view().dom().contains(name@) && *v == self.view()[name@],
                None => !self.view().dom().contains(name@),
            },
    {
        proof {
            self.lemma_wf_facts();
        }
        match self.find(name) {
            Some(i) => Some(&self.vals[i]),
            None => None,
        }
    }

    /// The name at position `i`.
    pub fn key_at(&self, i: usize) -> (r: &String)
        requires
            self.wf(),
            i < self.key_seq().len(),
        ensures
            r@ == self.key_seq()[i as int],
    {
        &self.keys[i]
    }

    /// The value at position `i`.
    pub fn value_at(&self, i: usize) -> (r: &V)
        requires
            self.wf(),
            i < self.key_seq().len(),
        ensures
            *r == self.val_seq()[i as int],
    {
        &self.vals[i]
    }

    /// Replaces the value at position `i`.
    pub fn set_value_at(&mut self, i: usize, v: V)
        requires
            old(self).wf(),
            i < old(self).key_seq().len(),
        ensures
            final(self).wf(),
            final(self).key_seq() == old(self).key_seq(),
            final(self).val_seq() == old(self).val_seq().update(i as int, v),
            final(self).view() == old(self).view().insert(old(self).key_seq()[i as int], v),
    {
        proof {
            self.lemma_wf_facts();
        }
        self.vals.set(i, v);
        proof {
            let k = self.key_seq()[i as int];
            assert forall|j: int| 0 <= j < self.key_seq().len() && self.key_seq()[j] == k implies j
                == i by {}
            assert(self.view() =~= old(self).view().insert(k, v));
        }
    }

    /// Inserts `name` with value `v`, replacing the value of a present name
    /// in place; a new name goes last.
    pub fn insert(&mut self, name: String, v: V)
        requires
            old(self).wf(),
        ensures
            final(self).wf(),
            final(self).view() == old(self).view().insert(name@, v),
            old(self).key_seq().contains(name@) ==> final(self).key_seq() == old(self).key_seq(),
            !old(self).key_seq().contains(name@) ==> final(self).key_seq() == old(
                self,
            ).key_seq().push(name@),
    {
        proof {
            self.lemma_wf_facts();
        }
        match self.find(name.as_str()) {
            Some(i) => {
                self.set_value_at(i, v);
            },
            None => {
                let ghost k = name@;
                let ghost old_keys = self.key_seq();
                self.keys.push(name);
                self.vals.push(v);
                proof {
                    assert(self.key_seq() =~= old_keys.push(k));
                    assert forall|a: int, b: int|
                        0 <= a < self.key_seq().len() && 0 <= b < self.key_seq().len() && a
                            != b implies self.key_seq()[a] != self.key_seq()[b] by {
                        if a < old_keys.len() && b < old_keys.len() {
                        } else if a == old_keys.len() {
                            assert(old_keys[b] == self.key_seq()[b]);
                        } else {
                            assert(old_keys[a] == self.key_seq()[a]);
                        }
                    }
                    self.lemma_wf_facts();
                    assert forall|key: Seq<char>| #[trigger]
                        self.view().dom().contains(key) == old(self).view().insert(
                            k,
                            v,
                        ).dom().contains(key) by {
                        if old_keys.contains(key) {
                            let j = old_keys.index_of(key);
                            assert(self.key_seq()[j] == key);
                        }
                        if key == k {
                            assert(self.key_seq()[old_keys.len() as int] == k);
                        }
                        if self.key_seq().contains(key) && key != k {
                            let j = self.key_seq().index_of(key);
                            assert(j < old_keys.len());
                            assert(old_keys[j] == key);
                        }
                    }
                    assert forall|key: Seq<char>| #[trigger]
                        self.view().dom().contains(key) implies self.view()[key] == old(
                            self,
                        ).view().insert(k, v)[key] by {
                        let j = self.key_seq().index_of(key);
                        assert(self.view()[self.key_seq()[j]] == self.val_seq()[j]);
                        if key != k {
                            assert(j < old_keys.len());
                            assert(old_keys[j] == key);
                            assert(old(self).view()[old_keys[j]] == old(self).val_seq()[j]);
                        }
                    }
                    assert(self.view() =~= old(self).view().insert(k, v));
                }
            },
        }
    }

    /// Removes `name` and its value, if present; the others keep their order.
    pub fn remove(&mut self, name: &str)
        requires
            old(self).wf(),
        ensures
            final(self).wf(),
            final(self).view() == old(self).view().remove(name@),
            old(self).key_seq().contains(name@) ==> final(self).key_seq() == old(
                self,
            ).key_seq().remove(old(self).key_seq().index_of(name@)),
            !old(self).key_seq().contains(name@) ==> final(self).key_seq() == old(self).key_seq(),
    {
        proof {
            self.lemma_wf_facts();
        }
        match self.find(name) {
            Some(i) => {
                let ghost old_keys = self.key_seq();
                let ghost old_vals = self.val_seq();
                self.keys.remove(i);
                self.vals.remove(i);
                proof {
                    assert(self.key_seq() =~= old_keys.remove(i as int));
                    assert(old_keys.contains(name@));
                    let found = old_keys.index_of(name@);
                    assert(old_keys[found] == name@);
                    assert(found == i);
                    assert forall|a: int, b: int|
                        0 <= a < self.key_seq().len() && 0 <= b < self.key_seq().len() && a
                            != b implies self.key_seq()[a] != self.key_seq()[b] by {
                        let oa = if a < i {
                            a
                        } else {
                            a + 1
                        };
                        let ob = if b < i {
                            b
                        } else {
                            b + 1
                        };
                        assert(self.key_seq()[a] == old_keys[oa]);
                        assert(self.key_seq()[b] == old_keys[ob]);
                    }
                    self.lemma_wf_facts();
                    let k = name@;
                    assert forall|key: Seq<char>| #[trigger]
                        self.view().dom().contains(key) == old(self).view().remove(
                            k,
                        ).dom().contains(key) by {
                        if old_keys.contains(key) && key != k {
                            let j = old_keys.index_of(key);
                            assert(j != i);
                            let nj = if j < i {
                                j
                            } else {
                                j - 1
                            };
                            assert(self.key_seq()[nj] == key);
                        }
                        if self.key_seq().contains(key) {
                            let j = self.key_seq().index_of(key);
                            let oj = if j < i {
                                j
                            } else {
                                j + 1
                            };
                            assert(old_keys[oj] == key);
                            assert(oj != i);
                        }
                    }
                    assert forall|key: Seq<char>| #[trigger]
                        self.view().dom().contains(key) implies self.view()[key] == old(
                            self,
                        ).view().remove(k)[key] by {
                        let j = self.key_seq().index_of(key);
                        let oj = if j < i {
                            j
                        } else {
                            j + 1
                        };
                        assert(old_keys[oj] == key);
                        assert(self.view()[self.key_seq()[j]] == self.val_seq()[j]);
                        assert(old(self).view()[old_keys[oj]] == old_vals[oj]);
                    }
                    assert(self.view() =~= old(self).view().remove(k));
                }
            },
            None => {
                assert(self.view() =~= old(self).view().remove(name@));
            },
        }
    }
}

} // verus!
