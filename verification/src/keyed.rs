//! A map from integers to values, kept as a list of pairs.
use vstd::prelude::*;

verus! {

/// A map with `u32` keys. The pairs keep the order in which their keys were first inserted.
#[derive(Debug)]
pub struct Keyed<V> {
    pub entries: Vec<(u32, V)>,
}

/// The position of key `k` in a list of pairs.
pub open spec fn position_of<K, V>(entries: Seq<(K, V)>, k: K) -> int {
    choose|i: int| 0 <= i < entries.len() && (#[trigger] entries[i]).0 == k
}

/// Key `k` occurs in a list of pairs.
pub open spec fn has_key<K, V>(entries: Seq<(K, V)>, k: K) -> bool {
    exists|i: int| 0 <= i < entries.len() && (#[trigger] entries[i]).0 == k
}

/// No key occurs twice in a list of pairs.
pub open spec fn unique_keys<K, V>(entries: Seq<(K, V)>) -> bool {
    forall|i: int, j: int|
        0 <= i < entries.len() && 0 <= j < entries.len() && (#[trigger] entries[i]).0 == (
        #[trigger] entries[j]).0 ==> i == j
}

/// The map that a list of pairs stands for.
pub open spec fn as_map<K, V>(entries: Seq<(K, V)>) -> Map<K, V> {
    Map::new(|k: K| has_key(entries, k), |k: K| entries[position_of(entries, k)].1)
}

impl<V> View for Keyed<V> {
    type V = Map<u32, V>;

    open spec fn view(&self) -> Map<u32, V> {
        as_map(self.entries@)
    }
}

/// The pair at position `i` is the map's value for its key.
pub proof fn lemma_entry<K, V>(entries: Seq<(K, V)>, i: int)
    requires
        unique_keys(entries),
        0 <= i < entries.len(),
    ensures
        as_map(entries).contains_key(entries[i].0),
        as_map(entries)[entries[i].0] == entries[i].1,
{
    assert(has_key(entries, entries[i].0));
    let p = position_of(entries, entries[i].0);
    assert(entries[p].0 == entries[i].0);
}

/// Every key of the map has a position.
pub proof fn lemma_key<K, V>(entries: Seq<(K, V)>, k: K) -> (i: int)
    requires
        unique_keys(entries),
        as_map(entries).contains_key(k),
    ensures
        0 <= i < entries.len(),
        entries[i].0 == k,
        entries[i].1 == as_map(entries)[k],
{
    position_of(entries, k)
}

impl<V> Keyed<V> {
    /// No key occurs twice.
    pub open spec fn wf(&self) -> bool {
        unique_keys(self.entries@)
    }

    /// The empty map.
    pub fn new() -> (r: Self)
        ensures
            r.wf(),
            r@ == Map::<u32, V>::empty(),
            r.entries@.len() == 0,
    {
        let r = Keyed { entries: Vec::new() };
        assert(r@ =~= Map::<u32, V>::empty());
        r
    }

    /// The position of a key.
    pub fn find(&self, k: u32) -> (r: Option<usize>)
        requires
            self.wf(),
        ensures
            match r {
                Some(i) => i < self.entries@.len() && self.entries@[i as int].0 == k
                    && self@.contains_key(k) && self@[k] == self.entries@[i as int].1,
                None => !self@.contains_key(k),
            },
    {
        let mut i: usize = 0;
        while i < self.entries.len()
            invariant
                self.wf(),
                i <= self.entries@.len(),
                forall|j: int| 0 <= j < i ==> (#[trigger] self.entries@[j]).0 != k,
            decreases self.entries@.len() - i,
        {
            if self.entries[i].0 == k {
                proof {
                    lemma_entry(self.entries@, i as int);
                }
                return Some(i);
            }
            i += 1;
        }
        None
    }

    /// The value of a key.
    pub fn get(&self, k: u32) -> (r: Option<&V>)
        requires
            self.wf(),
        ensures
            match r {
                Some(v) => self@.contains_key(k) && *v == self@[k],
                None => !self@.contains_key(k),
            },
    {
        match self.find(k) {
            Some(i) => Some(&self.entries[i].1),
            None => None,
        }
    }

    /// Whether the map has a key.
    pub fn contains(&self, k: u32) -> (r: bool)
        requires
            self.wf(),
        ensures
            r == self@.contains_key(k),
    {
        self.find(k).is_some()
    }

    /// Give a key a value, in place of the one it had.
    pub fn insert(&mut self, k: u32, v: V)
        requires
            old(self).wf(),
        ensures
            final(self).wf(),
            final(self)@ == old(self)@.insert(k, v),
    {
        let ghost before = self.entries@;
        match self.find(k) {
            Some(i) => {
                self.entries.set(i, (k, v));
                proof {
                    let after = self.entries@;
                    assert(after =~= before.update(i as int, (k, v)));
                    assert(unique_keys(after)) by {
                        assert forall|a: int, b: int|
                            0 <= a < after.len() && 0 <= b < after.len() && (#[trigger] after[a]).0 == (
                            #[trigger] after[b]).0 implies a == b by {
                            assert(before[a].0 == before[b].0);
                        }
                    }
                    lemma_same_keys_update(before, i as int, v);
                }
            },
            None => {
                self.entries.push((k, v));
                proof {
                    lemma_push(before, k, v);
                }
            },
        }
    }

    /// Borrow the value of a key, to change it.
    pub fn get_mut(&mut self, k: u32) -> (r: Option<&mut V>)
        requires
            old(self).wf(),
        ensures
            match r {
                Some(v) => old(self)@.contains_key(k) && *v == old(self)@[k] && final(self).wf()
                    && final(self)@ == old(self)@.insert(k, *final(v)),
                None => !old(self)@.contains_key(k) && *final(self) == *old(self),
            },
    {
        match self.find(k) {
            Some(i) => {
                proof {
                    assert forall|v: V| #[trigger]
                        self.entries@.update(i as int, (k, v)) == self.entries@.update(
                            i as int,
                            (self.entries@[i as int].0, v),
                        ) && unique_keys(self.entries@.update(i as int, (k, v))) && as_map(
                        self.entries@.update(i as int, (k, v)),
                    ) == self@.insert(k, v) by {
                        lemma_same_keys_update(self.entries@, i as int, v);
                    }
                }
                Some(&mut self.entries[i].1)
            },
            None => None,
        }
    }

    /// Drop a key.
    pub fn remove(&mut self, k: u32)
        requires
            old(self).wf(),
        ensures
            final(self).wf(),
            final(self)@ == old(self)@.remove(k),
    {
        let ghost before = self.entries@;
        match self.find(k) {
            Some(i) => {
                let _ = self.entries.remove(i);
                proof {
                    lemma_remove(before, i as int);
                }
            },
            None => {
                assert(old(self)@.remove(k) =~= old(self)@);
            },
        }
    }
}

/// Replacing a value in place is an insertion into the map.
pub proof fn lemma_same_keys_update<K, V>(entries: Seq<(K, V)>, i: int, v: V)
    requires
        unique_keys(entries),
        0 <= i < entries.len(),
    ensures
        unique_keys(entries.update(i, (entries[i].0, v))),
        as_map(entries.update(i, (entries[i].0, v))) == as_map(entries).insert(entries[i].0, v),
{
    let k = entries[i].0;
    let after = entries.update(i, (k, v));
    assert forall|a: int, b: int|
        0 <= a < after.len() && 0 <= b < after.len() && (#[trigger] after[a]).0 == (
        #[trigger] after[b]).0 implies a == b by {
        assert(entries[a].0 == entries[b].0);
    }
    assert forall|q: K| #[trigger] as_map(after).contains_key(q) == as_map(entries).insert(
        k,
        v,
    ).contains_key(q) by {
        if as_map(after).contains_key(q) {
            let p = lemma_key(after, q);
            assert(entries[p].0 == q);
        }
        if as_map(entries).contains_key(q) {
            let p = lemma_key(entries, q);
            assert(after[p].0 == q);
        }
        assert(after[i].0 == k);
    }
    assert forall|q: K| #[trigger] as_map(after).contains_key(q) implies as_map(after)[q]
        == as_map(entries).insert(k, v)[q] by {
        let p = lemma_key(after, q);
        if q != k {
            lemma_entry(entries, p);
        }
    }
    assert(as_map(after) =~= as_map(entries).insert(k, v));
}

/// Two lists with the same keys at the same positions stand for maps with the same keys, and the
/// values of a key are found at one position.
pub proof fn lemma_same_keys<K, V, W>(a: Seq<(K, V)>, b: Seq<(K, W)>)
    requires
        unique_keys(a),
        a.len() == b.len(),
        forall|i: int| 0 <= i < a.len() ==> (#[trigger] a[i]).0 == b[i].0,
    ensures
        unique_keys(b),
        forall|k: K| as_map(a).contains_key(k) == #[trigger] as_map(b).contains_key(k),
        forall|k: K| #[trigger]
            as_map(b).contains_key(k) ==> exists|i: int|
                0 <= i < a.len() && (#[trigger] a[i]).0 == k && as_map(a)[k] == a[i].1 && as_map(
                    b,
                )[k] == b[i].1,
{
    assert forall|i: int, j: int|
        0 <= i < b.len() && 0 <= j < b.len() && (#[trigger] b[i]).0 == (
        #[trigger] b[j]).0 implies i == j by {
        assert(a[i].0 == a[j].0);
    }
    assert forall|k: K| as_map(a).contains_key(k) == #[trigger] as_map(b).contains_key(k) && (
    as_map(b).contains_key(k) ==> exists|i: int|
        0 <= i < a.len() && (#[trigger] a[i]).0 == k && as_map(a)[k] == a[i].1 && as_map(b)[k]
            == b[i].1) by {
        if as_map(a).contains_key(k) {
            let i = lemma_key(a, k);
            lemma_entry(b, i);
        }
        if as_map(b).contains_key(k) {
            let i = lemma_key(b, k);
            lemma_entry(a, i);
            assert(a[i].0 == k);
        }
    }
}

/// Appending a pair with a new key is an insertion into the map.
pub proof fn lemma_push<K, V>(entries: Seq<(K, V)>, k: K, v: V)
    requires
        unique_keys(entries),
        !as_map(entries).contains_key(k),
    ensures
        unique_keys(entries.push((k, v))),
        as_map(entries.push((k, v))) == as_map(entries).insert(k, v),
{
    let after = entries.push((k, v));
    let n = entries.len() as int;
    assert forall|a: int| 0 <= a < n implies (#[trigger] entries[a]).0 != k by {
        lemma_entry(entries, a);
    }
    assert forall|a: int, b: int|
        0 <= a < after.len() && 0 <= b < after.len() && (#[trigger] after[a]).0 == (
        #[trigger] after[b]).0 implies a == b by {
        if a < n {
            assert(after[a] == entries[a]);
        }
        if b < n {
            assert(after[b] == entries[b]);
        }
    }
    assert forall|q: K| #[trigger] as_map(after).contains_key(q) == as_map(entries).insert(
        k,
        v,
    ).contains_key(q) by {
        if as_map(after).contains_key(q) {
            let p = lemma_key(after, q);
            if p < n {
                assert(entries[p].0 == q);
            }
        }
        if as_map(entries).contains_key(q) {
            let p = lemma_key(entries, q);
            assert(after[p].0 == q);
        }
        assert(after[n].0 == k);
    }
    assert forall|q: K| #[trigger] as_map(after).contains_key(q) implies as_map(after)[q]
        == as_map(entries).insert(k, v)[q] by {
        let p = lemma_key(after, q);
        if p < n {
            lemma_entry(entries, p);
            assert(after[p] == entries[p]);
        }
    }
    assert(as_map(after) =~= as_map(entries).insert(k, v));
}

/// Dropping a pair is a removal from the map.
pub proof fn lemma_remove<K, V>(entries: Seq<(K, V)>, i: int)
    requires
        unique_keys(entries),
        0 <= i < entries.len(),
    ensures
        unique_keys(entries.remove(i)),
        as_map(entries.remove(i)) == as_map(entries).remove(entries[i].0),
{
    let k = entries[i].0;
    let after = entries.remove(i);
    assert forall|a: int| 0 <= a < after.len() implies #[trigger] after[a] == entries[if a < i {
        a
    } else {
        a + 1
    }] by {}
    assert forall|a: int, b: int|
        0 <= a < after.len() && 0 <= b < after.len() && (#[trigger] after[a]).0 == (
        #[trigger] after[b]).0 implies a == b by {
        let a2 = if a < i {
            a
        } else {
            a + 1
        };
        let b2 = if b < i {
            b
        } else {
            b + 1
        };
        assert(entries[a2].0 == entries[b2].0);
    }
    assert forall|q: K| #[trigger] as_map(after).contains_key(q) == as_map(entries).remove(
        k,
    ).contains_key(q) by {
        if as_map(after).contains_key(q) {
            let p = lemma_key(after, q);
            let p2 = if p < i {
                p
            } else {
                p + 1
            };
            assert(entries[p2].0 == q);
            assert(q != k) by {
                if q == k {
                    assert(entries[p2].0 == entries[i].0);
                }
            }
        }
        if as_map(entries).contains_key(q) && q != k {
            let p = lemma_key(entries, q);
            let p2 = if p < i {
                p
            } else {
                p - 1
            };
            assert(after[p2].0 == q);
        }
    }
    assert forall|q: K| #[trigger] as_map(after).contains_key(q) implies as_map(after)[q]
        == as_map(entries).remove(k)[q] by {
        let p = lemma_key(after, q);
        let p2 = if p < i {
            p
        } else {
            p + 1
        };
        lemma_entry(entries, p2);
    }
    assert(as_map(after) =~= as_map(entries).remove(k));
}

/// One pair more adds its key.
pub proof fn lemma_has_key_take<K, V>(all: Seq<(K, V)>, i: int, k: K)
    requires
        0 <= i < all.len(),
    ensures
        has_key(all.take(i + 1), k) <==> (has_key(all.take(i), k) || k
            == all[i].0),
{
    let (a, b) = (all.take(i), all.take(i + 1));
    if has_key(b, k) {
        let j = choose|j: int| 0 <= j < b.len() && (#[trigger] b[j]).0 == k;
        if j < i {
            assert(a[j].0 == k);
        }
    }
    if has_key(a, k) {
        let j = choose|j: int| 0 <= j < a.len() && (#[trigger] a[j]).0 == k;
        assert(b[j].0 == k);
    }
    if k == all[i].0 {
        assert(b[i].0 == k);
    }
}

} // verus!
