//! Sorted sets of numbers.
use vstd::prelude::*;

verus! {

/// A set of numbers, in increasing order.
#[derive(Debug)]
pub struct NumberSet {
    pub items: Vec<u32>,
}

/// A list of numbers increases strictly.
pub open spec fn increasing(s: Seq<u32>) -> bool {
    forall|i: int, j: int| 0 <= i < j < s.len() ==> #[trigger] s[i] < #[trigger] s[j]
}

impl View for NumberSet {
    type V = Set<u32>;

    open spec fn view(&self) -> Set<u32> {
        self.items@.to_set()
    }
}

impl NumberSet {
    pub open spec fn wf(&self) -> bool {
        increasing(self.items@)
    }

    pub fn new() -> (r: Self)
        ensures
            r.wf(),
            r@ == Set::<u32>::empty(),
            r.items@.len() == 0,
    {
        let r = NumberSet { items: Vec::new() };
        assert(r@ =~= Set::<u32>::empty());
        r
    }

    /// The number of smaller elements.
    fn rank(&self, x: u32) -> (r: usize)
        requires
            self.wf(),
        ensures
            r <= self.items@.len(),
            forall|i: int| 0 <= i < r ==> #[trigger] self.items@[i] < x,
            forall|i: int| r <= i < self.items@.len() ==> #[trigger] self.items@[i] >= x,
    {
        let mut i: usize = 0;
        while i < self.items.len() && self.items[i] < x
            invariant
                self.wf(),
                i <= self.items@.len(),
                forall|j: int| 0 <= j < i ==> #[trigger] self.items@[j] < x,
            decreases self.items@.len() - i,
        {
            i += 1;
        }
        i
    }

    pub fn contains(&self, x: u32) -> (r: bool)
        requires
            self.wf(),
        ensures
            r == self@.contains(x),
    {
        let i: usize = self.rank(x);
        if i < self.items.len() && self.items[i] == x {
            assert(self.items@[i as int] == x);
            true
        } else {
            proof {
                if self.items@.contains(x) {
                    let j = choose|j: int| 0 <= j < self.items@.len() && self.items@[j] == x;
                    if j > i {
                        assert(self.items@[i as int] < self.items@[j]);
                    }
                }
            }
            false
        }
    }

    pub fn insert(&mut self, x: u32)
        requires
            old(self).wf(),
        ensures
            final(self).wf(),
            final(self)@ == old(self)@.insert(x),
            final(self).items@.len() == old(self).items@.len() + if old(self)@.contains(x) {
                0int
            } else {
                1int
            },
    {
        let ghost before = self.items@;
        let i: usize = self.rank(x);
        if i < self.items.len() && self.items[i] == x {
            assert(before[i as int] == x);
            assert(self@ =~= old(self)@.insert(x));
            return;
        }
        proof {
            if i < before.len() {
                assert(before[i as int] >= x);
            }
        }
        self.items.insert(i, x);
        proof {
            let after = self.items@;
            assert(after == before.insert(i as int, x));
            assert forall|a: int, b: int| 0 <= a < b < after.len() implies #[trigger] after[a]
                < #[trigger] after[b] by {
                if b < i {
                    assert(after[a] == before[a] && after[b] == before[b]);
                } else if b == i {
                    assert(after[a] == before[a]);
                } else {
                    assert(after[b] == before[b - 1]);
                    if a < i {
                        assert(after[a] == before[a]);
                    } else if a == i {
                        assert(before[b - 1] >= x);
                        if b - 1 > i {
                            assert(before[i as int] < before[b - 1]);
                        }
                    } else {
                        assert(after[a] == before[a - 1]);
                    }
                }
            }
            assert forall|y: u32| #[trigger] self@.contains(y) == old(self)@.insert(x).contains(
                y,
            ) by {
                if before.contains(y) {
                    let j = choose|j: int| 0 <= j < before.len() && before[j] == y;
                    if j < i {
                        assert(after[j] == y);
                    } else {
                        assert(after[j + 1] == y);
                    }
                }
                if after.contains(y) && y != x {
                    let j = choose|j: int| 0 <= j < after.len() && after[j] == y;
                    if j < i {
                        assert(before[j] == y);
                    } else {
                        assert(before[j - 1] == y);
                    }
                }
                assert(after[i as int] == x);
            }
            assert(self@ =~= old(self)@.insert(x));
        }
    }

    pub fn remove(&mut self, x: u32) -> (r: bool)
        requires
            old(self).wf(),
        ensures
            final(self).wf(),
            final(self)@ == old(self)@.remove(x),
            r == old(self)@.contains(x),
    {
        let ghost before = self.items@;
        let i: usize = self.rank(x);
        if i < self.items.len() && self.items[i] == x {
            let _ = self.items.remove(i);
            proof {
                let after = self.items@;
                assert(before[i as int] == x);
                assert forall|a: int| 0 <= a < after.len() implies #[trigger] after[a] == before[if a
                    < i {
                    a
                } else {
                    a + 1
                }] by {}
                assert forall|y: u32| #[trigger] self@.contains(y) == old(self)@.remove(
                    x,
                ).contains(y) by {
                    if before.contains(y) && y != x {
                        let j = choose|j: int| 0 <= j < before.len() && before[j] == y;
                        if j < i {
                            assert(after[j] == y);
                        } else {
                            assert(after[j - 1] == y);
                        }
                    }
                    if after.contains(y) {
                        let j = choose|j: int| 0 <= j < after.len() && after[j] == y;
                        if j < i {
                            assert(before[j] == y);
                            assert(before[j] < before[i as int]);
                        } else {
                            assert(before[j + 1] == y);
                            assert(before[i as int] < before[j + 1]);
                        }
                    }
                }
                assert(self@ =~= old(self)@.remove(x));
            }
            true
        } else {
            proof {
                if before.contains(x) {
                    let j = choose|j: int| 0 <= j < before.len() && before[j] == x;
                    if j > i {
                        assert(before[i as int] < before[j]);
                    }
                }
                assert(self@ =~= old(self)@.remove(x));
            }
            false
        }
    }
}

impl Clone for NumberSet {
    fn clone(&self) -> (r: Self)
        ensures
            r.items@ == self.items@,
    {
        NumberSet { items: crate::bgp::copy_list(&self.items) }
    }
}

/// There is only one increasing list of some numbers.
pub proof fn lemma_increasing_unique(a: Seq<u32>, b: Seq<u32>)
    requires
        increasing(a),
        increasing(b),
        forall|x: u32| a.contains(x) == b.contains(x),
    ensures
        a == b,
    decreases a.len(),
{
    if a.len() == 0 {
        if b.len() > 0 {
            assert(b.contains(b[0]));
            assert(a.contains(b[0]));
        }
        assert(a =~= b);
    } else {
        let (n, x) = (a.len() - 1, a[a.len() - 1]);
        assert(a.contains(x));
        assert(b.contains(x));
        let m = b.len() - 1;
        let y = b[m];
        assert(b.contains(y));
        assert(a.contains(y));
        let i = choose|i: int| 0 <= i < b.len() && b[i] == x;
        let j = choose|j: int| 0 <= j < a.len() && a[j] == y;
        assert(i < m ==> b[i] < b[m]);
        assert(j < n ==> a[j] < a[n]);
        assert(x == y);
        let (s, t) = (a.drop_last(), b.drop_last());
        assert forall|z: u32| s.contains(z) == t.contains(z) by {
            if s.contains(z) {
                let k = choose|k: int| 0 <= k < s.len() && s[k] == z;
                assert(a[k] == z && a[k] < a[n]);
                assert(a.contains(z) && b.contains(z));
                let l = choose|l: int| 0 <= l < b.len() && b[l] == z;
                assert(t[l] == z);
            }
            if t.contains(z) {
                let k = choose|k: int| 0 <= k < t.len() && t[k] == z;
                assert(b[k] == z && b[k] < b[m]);
                assert(b.contains(z) && a.contains(z));
                let l = choose|l: int| 0 <= l < a.len() && a[l] == z;
                assert(s[l] == z);
            }
        }
        lemma_increasing_unique(s, t);
        assert(a =~= s.push(x));
        assert(b =~= t.push(x));
    }
}

} // verus!
