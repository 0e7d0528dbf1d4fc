//! Sorting by time.
use vstd::prelude::*;

use crate::bgp::{Event, Time};

verus! {

/// Something that happens at a point in time.
pub trait Timed: Sized {
    spec fn time(&self) -> Time;

    fn get_time(&self) -> (r: Time)
        ensures
            r == self.time(),
    ;
}

impl Timed for Event<Time> {
    open spec fn time(&self) -> Time {
        self@.priority()
    }

    fn get_time(&self) -> (r: Time) {
        self.priority()
    }
}

/// List `r` holds the elements of `s`, in the order of their times. Those of the same time keep their
/// order. Element `i` of `r` is element `from[i]` of `s`.
pub open spec fn is_sorted_from<T: Timed>(s: Seq<T>, r: Seq<T>, from: Seq<int>) -> bool {
    &&& r.len() == s.len()
    &&& from.len() == s.len()
    &&& from.no_duplicates()
    &&& forall|i: int| 0 <= i < r.len() ==> 0 <= #[trigger] from[i] < s.len() && r[i] == s[from[i]]
    &&& forall|i: int, j: int|
        0 <= i < j < r.len() ==> #[trigger] r[i].time() < #[trigger] r[j].time() || (r[i].time()
            == r[j].time() && from[i] < from[j])
}

/// List `r` is list `s`, sorted by time. Elements of the same time keep their order.
pub open spec fn is_sorting_of<T: Timed>(s: Seq<T>, r: Seq<T>) -> bool {
    exists|from: Seq<int>| is_sorted_from(s, r, from)
}

/// Sort a list by time. Elements of the same time keep their order.
pub fn sort_by_time<T: Timed>(list: Vec<T>) -> (r: Vec<T>)
    ensures
        is_sorting_of(list@, r@),
{
    let ghost all = list@;
    let mut r: Vec<T> = Vec::new();
    let ghost mut from: Seq<int> = seq![];
    for e in it: list
        invariant
            it.seq() == all,
            r@.len() == it.index(),
            from.len() == it.index(),
            is_sorted_from(all.take(it.index() as int), r@, from),
    {
        let ghost n = it.index() as int;
        let ghost (r0, from0) = (r@, from);
        let mut i: usize = r.len();
        while i > 0 && r[i - 1].get_time() > e.get_time()
            invariant
                i <= r@.len(),
                r@ == r0,
                forall|j: int| i <= j < r@.len() ==> (#[trigger] r@[j]).time() > e.time(),
            decreases i,
        {
            i -= 1;
        }
        r.insert(i, e);
        proof {
            from = from.insert(i as int, n);
            let s = all.take(n + 1);
            let old_s = all.take(n);
            assert(s =~= old_s.push(e));
            lemma_insert(old_s, r0, from0, e, i as int);
        }
    }
    assert(all.take(all.len() as int) =~= all);
    r
}

proof fn lemma_insert<T: Timed>(s: Seq<T>, r: Seq<T>, from: Seq<int>, e: T, i: int)
    requires
        is_sorted_from(s, r, from),
        0 <= i <= r.len(),
        i > 0 ==> r[i - 1].time() <= e.time(),
        forall|j: int| i <= j < r.len() ==> (#[trigger] r[j]).time() > e.time(),
    ensures
        is_sorted_from(s.push(e), r.insert(i, e), from.insert(i, s.len() as int)),
{
    let n = s.len() as int;
    let (s2, r2, from2) = (s.push(e), r.insert(i, e), from.insert(i, n));
    assert forall|j: int| 0 <= j < i implies (#[trigger] r[j]).time() <= e.time() by {
        if j < i - 1 {
            assert(r[j].time() < r[i - 1].time() || r[j].time() == r[i - 1].time());
        }
    }
    assert forall|j: int| 0 <= j < r2.len() implies 0 <= #[trigger] from2[j] < s2.len() && r2[j]
        == s2[from2[j]] by {
        if j < i {
            assert(from2[j] == from[j] && r2[j] == r[j]);
        } else if j > i {
            assert(from2[j] == from[j - 1] && r2[j] == r[j - 1]);
        }
    }
    assert forall|a: int, b: int|
        0 <= a < b < r2.len() implies #[trigger] r2[a].time() < #[trigger] r2[b].time() || (
    r2[a].time() == r2[b].time() && from2[a] < from2[b]) by {
        let a2 = if a < i {
            a
        } else {
            a - 1
        };
        let b2 = if b < i {
            b
        } else {
            b - 1
        };
        if a != i && b != i {
            assert(r2[a] == r[a2] && r2[b] == r[b2]);
            assert(from2[a] == from[a2] && from2[b] == from[b2]);
            assert(r[a2].time() < r[b2].time() || (r[a2].time() == r[b2].time() && from[a2]
                < from[b2]));
        } else if a == i {
            assert(r2[b] == r[b2] && from2[b] == from[b2]);
        } else {
            assert(r2[a] == r[a2] && from2[a] == from[a2]);
        }
    }
    assert forall|a: int, b: int|
        0 <= a < from2.len() && 0 <= b < from2.len() && a != b implies from2[a] != from2[b] by {
        let a2 = if a < i {
            a
        } else {
            a - 1
        };
        let b2 = if b < i {
            b
        } else {
            b - 1
        };
        if a != i {
            assert(from2[a] == from[a2]);
        }
        if b != i {
            assert(from2[b] == from[b2]);
        }
        if a != i && b != i {
            assert(from[a2] != from[b2]);
        }
    }
}

/// A list that was sorted by time has the elements that it had.
pub proof fn law_sorting_keeps_elements<T: Timed>(s: Seq<T>, r: Seq<T>)
    requires
        is_sorting_of(s, r),
    ensures
        forall|x: T| #[trigger] r.contains(x) <==> s.contains(x),
        r.len() == s.len(),
        forall|i: int, j: int|
            0 <= i <= j < r.len() ==> #[trigger] r[i].time() <= #[trigger] r[j].time(),
{
    let from = choose|from: Seq<int>| is_sorted_from(s, r, from);
    assert forall|x: T| #[trigger] r.contains(x) <==> s.contains(x) by {
        if r.contains(x) {
            let i = r.index_of(x);
            assert(r[i] == s[from[i]]);
        }
        if s.contains(x) {
            let k = s.index_of(x);
            lemma_onto(from, k);
            let i = choose|i: int| 0 <= i < from.len() && from[i] == k;
            assert(r[i] == s[from[i]]);
        }
    }
}

/// Different numbers below their count are all the numbers below it.
proof fn lemma_onto(from: Seq<int>, k: int)
    requires
        from.no_duplicates(),
        forall|i: int| 0 <= i < from.len() ==> 0 <= #[trigger] from[i] < from.len(),
        0 <= k < from.len(),
    ensures
        from.contains(k),
{
    if !from.contains(k) {
        let n = from.len() as int;
        let range = vstd::set_lib::set_int_range(0, n);
        vstd::set_lib::lemma_int_range(0, n);
        from.unique_seq_to_set();
        let s = from.to_set();
        assert(s.subset_of(range.remove(k))) by {
            assert forall|x: int| s.contains(x) implies range.remove(k).contains(x) by {
                let i = choose|i: int| 0 <= i < from.len() && from[i] == x;
                assert(from[i] == x);
            }
        }
        vstd::set_lib::lemma_len_subset(s, range.remove(k));
    }
}

/// Sorting is stable: of two elements with the same time the one that stood first stands first.
pub proof fn law_sorting_is_stable<T: Timed>(s: Seq<T>, r: Seq<T>, a: int, b: int)
    requires
        is_sorting_of(s, r),
        0 <= a < b < s.len(),
        s[a].time() <= s[b].time(),
    ensures
        exists|i: int, j: int|
            0 <= i < j < r.len() && #[trigger] r[i] == s[a] && #[trigger] r[j] == s[b],
{
    let from = choose|from: Seq<int>| is_sorted_from(s, r, from);
    lemma_onto(from, a);
    lemma_onto(from, b);
    let i = choose|i: int| 0 <= i < from.len() && from[i] == a;
    let j = choose|j: int| 0 <= j < from.len() && from[j] == b;
    assert(r[i] == s[from[i]] && r[j] == s[from[j]]);
    if j < i {
        assert(r[j].time() < r[i].time() || (r[j].time() == r[i].time() && from[j] < from[i]));
    }
    assert(i != j);
}

} // verus!
