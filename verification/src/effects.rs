//! Named effects that can be switched on and off.  The effects themselves
//! (their colours, timing and styles) belong to the renderer; the manager
//! keeps them by name with an on/off flag each, and drops the finished ones.

use vstd::prelude::*;
use crate::name_map::NameMap;

verus! {

/// Effects by name, each with a flag that says whether it is active.
pub struct EffectsManager<E> {
    effects: NameMap<E>,
    active: NameMap<bool>,
}

impl<E> EffectsManager<E> {
    pub closed spec fn wf(&self) -> bool {
        &&& self.effects.wf()
        &&& self.active.wf()
        &&& self.effects.key_seq() == self.active.key_seq()
    }

    /// The effects, by name.
    pub closed spec fn effects_view(&self) -> Map<Seq<char>, E> {
        self.effects.view()
    }

    /// The names of the effects, in the order they were first added.
    pub closed spec fn names(&self) -> Seq<Seq<char>> {
        self.effects.key_seq()
    }

    /// The activity flags, by name; their names are those of the effects.
    pub closed spec fn active_view(&self) -> Map<Seq<char>, bool> {
        self.active.view()
    }

    /// A well-formed manager has an activity flag for exactly the names it
    /// holds an effect under.
    pub proof fn lemma_same_domain(&self)
        requires
            self.wf(),
        ensures
            self.effects_view().dom() == self.active_view().dom(),
    {
        self.effects.lemma_wf_facts();
        self.active.lemma_wf_facts();
    }

    /// A manager holding no effect.
    pub fn new() -> (r: Self)
        ensures
            r.wf(),
            r.effects_view() == Map::<Seq<char>, E>::empty(),
            r.active_view() == Map::<Seq<char>, bool>::empty(),
            r.active_view().dom() == r.effects_view().dom(),
    {
        let r = EffectsManager { effects: NameMap::new(), active: NameMap::new() };
        proof {
            r.lemma_same_domain();
        }
        r
    }

    /// Adds an effect under `name`, active; an effect already under that
    /// name is replaced.
    pub fn add(&mut self, name: String, effect: E)
        requires
            old(self).wf(),
        ensures
            final(self).wf(),
            final(self).effects_view() == old(self).effects_view().insert(name@, effect),
            final(self).active_view() == old(self).active_view().insert(name@, true),
            final(self).active_view().dom() == final(self).effects_view().dom(),
    {
        let key = name.clone();
        self.effects.insert(name, effect);
        self.active.insert(key, true);
        proof {
            self.lemma_same_domain();
        }
    }

    /// Removes the effect under `name`, if any.
    pub fn remove(&mut self, name: &str)
        requires
            old(self).wf(),
        ensures
            final(self).wf(),
            final(self).effects_view() == old(self).effects_view().remove(name@),
            final(self).active_view() == old(self).active_view().remove(name@),
            final(self).active_view().dom() == final(self).effects_view().dom(),
    {
        proof {
            self.effects.lemma_wf_facts();
            self.active.lemma_wf_facts();
        }
        self.effects.remove(name);
        self.active.remove(name);
        proof {
            self.effects.lemma_wf_facts();
            self.active.lemma_wf_facts();
            self.lemma_same_domain();
        }
    }

    /// Switches the effect under `name` on; nothing happens without one.
    pub fn activate(&mut self, name: &str)
        requires
            old(self).wf(),
        ensures
            final(self).wf(),
            final(self).effects_view() == old(self).effects_view(),
            final(self).active_view() == if old(self).active_view().dom().contains(name@) {
                old(self).active_view().insert(name@, true)
            } else {
                old(self).active_view()
            },
            final(self).active_view().dom() == final(self).effects_view().dom(),
    {
        self.set_flag(name, true);
        proof {
            self.lemma_same_domain();
        }
    }

    /// Switches the effect under `name` off; nothing happens without one.
    pub fn deactivate(&mut self, name: &str)
        requires
            old(self).wf(),
        ensures
            final(self).wf(),
            final(self).effects_view() == old(self).effects_view(),
            final(self).active_view() == if old(self).active_view().dom().contains(name@) {
                old(self).active_view().insert(name@, false)
            } else {
                old(self).active_view()
            },
            final(self).active_view().dom() == final(self).effects_view().dom(),
    {
        self.set_flag(name, false);
        proof {
            self.lemma_same_domain();
        }
    }

    fn set_flag(&mut self, name: &str, flag: bool)
        requires
            old(self).wf(),
        ensures
            final(self).wf(),
            final(self).effects_view() == old(self).effects_view(),
            final(self).active_view() == if old(self).active_view().dom().contains(name@) {
                old(self).active_view().insert(name@, flag)
            } else {
                old(self).active_view()
            },
    {
        proof {
            self.active.lemma_wf_facts();
        }
        match self.active.find(name) {
            Some(i) => {
                self.active.set_value_at(i, flag);
            },
            None => {},
        }
    }

    /// Whether there is an effect under `name` and it is active.
    pub fn is_active(&self, name: &str) -> (r: bool)
        requires
            self.wf(),
        ensures
            r == (self.active_view().dom().contains(name@) && self.active_view()[name@]),
            r ==> self.effects_view().dom().contains(name@),
    {
        proof {
            self.lemma_same_domain();
        }
        match self.active.get(name) {
            Some(flag) => *flag,
            None => false,
        }
    }

    /// Whether there is an effect under `name`.
    pub fn has_effect(&self, name: &str) -> (r: bool)
        requires
            self.wf(),
        ensures
            r == self.effects_view().dom().contains(name@),
    {
        self.effects.contains_key(name)
    }

    /// Drops every effect that `is_finished` reports finished; the others
    /// keep their values, their flags and their order.
    pub fn cleanup<F: Fn(&E) -> bool>(&mut self, is_finished: F)
        requires
            old(self).wf(),
            forall|e: &E| #[trigger] is_finished.requires((e,)),
        ensures
            final(self).wf(),
            forall|k: Seq<char>| #[trigger]
                final(self).effects_view().dom().contains(k) ==> {
                    &&& old(self).effects_view().dom().contains(k)
                    &&& final(self).effects_view()[k] == old(self).effects_view()[k]
                    &&& final(self).active_view()[k] == old(self).active_view()[k]
                    &&& is_finished.ensures((&old(self).effects_view()[k],), false)
                },
            forall|k: Seq<char>| #[trigger]
                old(self).effects_view().dom().contains(k) && !final(self).effects_view().dom().contains(k)
                    ==> is_finished.ensures(
                    (&old(self).effects_view()[k],),
                    true,
                ),
                final(self).active_view().dom() == final(self).effects_view().dom(),
    {
        proof {
            self.lemma_same_domain();
        }
        let mut i: usize = 0;
        while i < self.effects.len()
            invariant
                self.wf(),
                i <= self.effects.key_seq().len(),
                forall|e: &E| #[trigger] is_finished.requires((e,)),
                forall|k: Seq<char>| #[trigger]
                    self.effects_view().dom().contains(k) ==> {
                        &&& old(self).effects_view().dom().contains(k)
                        &&& self.effects_view()[k] == old(self).effects_view()[k]
                        &&& self.active_view()[k] == old(self).active_view()[k]
                    },
                forall|k: Seq<char>| #[trigger]
                    old(self).effects_view().dom().contains(k) && !self.effects_view().dom().contains(
                        k,
                    ) ==> is_finished.ensures((&old(self).effects_view()[k],), true),
                forall|j: int|
                    0 <= j < i ==> is_finished.ensures(
                        (&self.effects_view()[#[trigger] self.effects.key_seq()[j]],),
                        false,
                    ),
                old(self).effects_view().dom() == old(self).active_view().dom(),
            decreases self.effects.key_seq().len() - i,
        {
            proof {
                self.effects.lemma_wf_facts();
                self.active.lemma_wf_facts();
            }
            let finished = is_finished(self.effects.value_at(i));
            if finished {
                let name = self.effects.key_at(i).clone();
                let ghost k = name@;
                let ghost keys = self.effects.key_seq();
                let ghost before = self.effects_view();
                let ghost before_active = self.active_view();
                assert(keys.contains(k));
                self.effects.remove(name.as_str());
                self.active.remove(name.as_str());
                proof {
                    let found = keys.index_of(k);
                    assert(keys[found] == k);
                    assert(found == i);
                    self.effects.lemma_wf_facts();
                    self.active.lemma_wf_facts();
                    assert forall|j: int| 0 <= j < i implies is_finished.ensures(
                        (&self.effects_view()[#[trigger] self.effects.key_seq()[j]],),
                        false,
                    ) by {
                        assert(self.effects.key_seq()[j] == keys[j]);
                        assert(keys[j] != k);
                    }
                }
            } else {
                i = i + 1;
            }
        }
        proof {
            self.effects.lemma_wf_facts();
            assert forall|k: Seq<char>| #[trigger]
                self.effects_view().dom().contains(k) implies is_finished.ensures(
                (&old(self).effects_view()[k],),
                false,
            ) by {
                let j = self.effects.key_seq().index_of(k);
                assert(self.effects.key_seq()[j] == k);
            }
            self.lemma_same_domain();
        }
    }

    /// The active effects, in the order their names were first added.
    pub open spec fn active_in_order(&self) -> Seq<E> {
        self.names().filter(|k: Seq<char>| self.active_view()[k]).map_values(
            |k: Seq<char>| self.effects_view()[k],
        )
    }

    /// References to the active effects, in the order their names were
    /// first added, for the renderer to apply one after another.
    pub fn active_effects(&self) -> (r: Vec<&E>)
        requires
            self.wf(),
        ensures
            r@.map_values(|e: &E| *e) == self.active_in_order(),
    {
        proof {
            self.effects.lemma_wf_facts();
            self.active.lemma_wf_facts();
        }
        let ghost keys = self.effects.key_seq();
        let ghost pred = |k: Seq<char>| self.active_view()[k];
        let mut out: Vec<&E> = Vec::new();
        let mut i: usize = 0;
        while i < self.effects.len()
            invariant
                self.wf(),
                keys == self.effects.key_seq(),
                pred == (|k: Seq<char>| self.active_view()[k]),
                i <= keys.len(),
                forall|j: int| 0 <= j < keys.len() ==> self.effects_view()[#[trigger] keys[j]] == self.effects.val_seq()[j],
                forall|j: int| 0 <= j < keys.len() ==> self.active_view()[#[trigger] keys[j]] == self.active.val_seq()[j],
                out@.map_values(|e: &E| *e) == keys.subrange(0, i as int).filter(pred).map_values(
                    |k: Seq<char>| self.effects_view()[k],
                ),
            decreases keys.len() - i,
        {
            let ghost before = out@;
            assert(keys.subrange(0, i + 1).drop_last() =~= keys.subrange(0, i as int));
            reveal_with_fuel(Seq::<_>::filter, 1);
            let on = *self.active.value_at(i);
            assert(on == pred(keys[i as int]));
            if on {
                let v = self.effects.value_at(i);
                assert(*v == self.effects_view()[keys[i as int]]);
                out.push(v);
                proof {
                    let f = |k: Seq<char>| self.effects_view()[k];
                    let old_filtered = keys.subrange(0, i as int).filter(pred);
                    assert(keys.subrange(0, i + 1).filter(pred) == old_filtered.push(
                        keys[i as int],
                    ));
                    assert(before.map_values(|e: &E| *e) == old_filtered.map_values(f));
                    assert(old_filtered.push(keys[i as int]).map_values(f) =~= old_filtered.map_values(
                        f,
                    ).push(f(keys[i as int])));
                    assert(out@.map_values(|e: &E| *e) =~= before.map_values(|e: &E| *e).push(*v));
                }
            } else {
                assert(keys.subrange(0, i + 1).filter(pred) == keys.subrange(0, i as int).filter(
                    pred,
                ));
            }
            i = i + 1;
        }
        assert(keys.subrange(0, i as int) =~= keys);
        out
    }
}

/// The effects the application starts with: a pulse on the grid, active.
pub fn fx_initialize<E>(pulse: E) -> (r: EffectsManager<E>)
    ensures
        r.wf(),
        r.effects_view() == Map::<Seq<char>, E>::empty().insert("pulse"@, pulse),
        r.active_view() == Map::<Seq<char>, bool>::empty().insert("pulse"@, true),
{
    let mut effects_manager = EffectsManager::new();
    effects_manager.add(String::from_str("pulse"), pulse);
    effects_manager
}

} // verus!
