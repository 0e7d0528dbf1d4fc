//! A map from pairs of routers to values, kept as a list.
use vstd::prelude::*;

use crate::bgp::RouterId;
use crate::keyed::{as_map, lemma_entry, lemma_push, lemma_remove, lemma_same_keys_update};
use crate::keyed::unique_keys;

verus! {

/// A map whose keys are ordered pairs of routers. The pairs keep the order in which their keys were
/// first inserted.
#[derive(Debug)]
pub struct Pairs<V> {
    pub entries: Vec<((RouterId, RouterId), V)>,
}

impl<V> View for Pairs<V> {
    type V = Map<(RouterId, RouterId), V>;

    open spec fn view(&self) -> Map<(RouterId, RouterId), V> {
        as_map(self.entries@)
    }
}

impl<V> Pairs<V> {
    /// No key occurs twice.
    pub open spec fn wf(&self) -> bool {
        unique_keys(self.entries@)
    }

    /// The empty map.
    pub fn new() -> (r: Self)
        ensures
            r.wf(),
            r@ == Map::<(RouterId, RouterId), V>::empty(),
            r.entries@.len() == 0,
    {
        let r = Pairs { entries: Vec::new() };
        assert(r@ =~= Map::<(RouterId, RouterId), V>::empty());
        r
    }

    /// The position of a key.
    pub fn find(&self, k: (RouterId, RouterId)) -> (r: Option<usize>)
        requires
            self.wf(),
        ensures
            match r {
                Some(i) => i < self.entries@.len() && self.entries@[i as int].0 == k
                    && self@.contains_key(k) && self@[k] == self.entries@[i as int].1,
                None => !self@.contains_key(k),
            },
    {
        let mut i: usize = 0;
        while i < self.entries.len()
            invariant
                self.wf(),
                i <= self.entries@.len(),
                forall|j: int| 0 <= j < i ==> (#[trigger] self.entries@[j]).0 != k,
            decreases self.entries@.len() - i,
        {
            if self.entries[i].0.0 == k.0 && self.entries[i].0.1 == k.1 {
                proof {
                    lemma_entry(self.entries@, i as int);
                }
                return Some(i);
            }
            i += 1;
        }
        None
    }

    /// The value of a key.
    pub fn get(&self, k: (RouterId, RouterId)) -> (r: Option<&V>)
        requires
            self.wf(),
        ensures
            match r {
                Some(v) => self@.contains_key(k) && *v == self@[k],
                None => !self@.contains_key(k),
            },
    {
        match self.find(k) {
            Some(i) => Some(&self.entries[i].1),
            None => None,
        }
    }

    /// Whether the map has a key.
    pub fn contains(&self, k: (RouterId, RouterId)) -> (r: bool)
        requires
            self.wf(),
        ensures
            r == self@.contains_key(k),
    {
        self.find(k).is_some()
    }

    /// Give a key a value, in place of the one it had.
    pub fn insert(&mut self, k: (RouterId, RouterId), v: V)
        requires
            old(self).wf(),
        ensures
            final(self).wf(),
            final(self)@ == old(self)@.insert(k, v),
    {
        let ghost before = self.entries@;
        match self.find(k) {
            Some(i) => {
                self.entries.set(i, (k, v));
                proof {
                    let after = self.entries@;
                    assert(after =~= before.update(i as int, (k, v)));
                    assert(unique_keys(after)) by {
                        assert forall|a: int, b: int|
                            0 <= a < after.len() && 0 <= b < after.len() && (#[trigger] after[a]).0 == (
                            #[trigger] after[b]).0 implies a == b by {
                            assert(before[a].0 == before[b].0);
                        }
                    }
                    lemma_same_keys_update(before, i as int, v);
                }
            },
            None => {
                self.entries.push((k, v));
                proof {
                    lemma_push(before, k, v);
                }
            },
        }
    }

    /// Borrow the value of a key, to change it.
    pub fn get_mut(&mut self, k: (RouterId, RouterId)) -> (r: Option<&mut V>)
        requires
            old(self).wf(),
        ensures
            match r {
                Some(v) => old(self)@.contains_key(k) && *v == old(self)@[k] && final(self).wf()
                    && final(self)@ == old(self)@.insert(k, *final(v)),
                None => !old(self)@.contains_key(k) && *final(self) == *old(self),
            },
    {
        match self.find(k) {
            Some(i) => {
                proof {
                    assert forall|v: V| #[trigger]
                        self.entries@.update(i as int, (k, v)) == self.entries@.update(
                            i as int,
                            (self.entries@[i as int].0, v),
                        ) && unique_keys(self.entries@.update(i as int, (k, v))) && as_map(
                        self.entries@.update(i as int, (k, v)),
                    ) == self@.insert(k, v) by {
                        lemma_same_keys_update(self.entries@, i as int, v);
                    }
                }
                Some(&mut self.entries[i].1)
            },
            None => None,
        }
    }

    /// Drop a key.
    pub fn remove(&mut self, k: (RouterId, RouterId))
        requires
            old(self).wf(),
        ensures
            final(self).wf(),
            final(self)@ == old(self)@.remove(k),
    {
        let ghost before = self.entries@;
        match self.find(k) {
            Some(i) => {
                let _ = self.entries.remove(i);
                proof {
                    lemma_remove(before, i as int);
                }
            },
            None => {
                assert(old(self)@.remove(k) =~= old(self)@);
            },
        }
    }
}

} // verus!
