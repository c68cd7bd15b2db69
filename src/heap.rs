//! A binary min-heap of cells keyed by tentative distance.
use vstd::prelude::*;
use vstd::multiset::Multiset;

use crate::grid::Point;

verus! {

broadcast use vstd::seq_lib::group_to_multiset_ensures;

/// Index of the parent of a non-root slot.
pub open spec fn parent(i: int) -> int {
    (i - 1) / 2
}

/// Every entry's key is at least its parent's key.
pub open spec fn heap_ordered(s: Seq<(u64, Point)>) -> bool {
    forall|i: int| 0 < i < s.len() ==> (#[trigger] s[parent(i)]).0 <= s[i].0
}

/// A priority queue of `(key, cell)` entries that hands out an entry of least
/// key first.
pub struct MinHeap {
    data: Vec<(u64, Point)>,
}

impl MinHeap {
    /// The entries held, without order.
    pub closed spec fn contents(&self) -> Multiset<(u64, Point)> {
        self.data@.to_multiset()
    }

    pub closed spec fn wf(&self) -> bool {
        heap_ordered(self.data@)
    }

    proof fn lemma_root_is_min(s: Seq<(u64, Point)>, i: int)
        requires
            heap_ordered(s),
            0 <= i < s.len(),
        ensures
            s[0].0 <= s[i].0,
        decreases i,
    {
        if i > 0 {
            assert(s[parent(i)].0 <= s[i].0);
            Self::lemma_root_is_min(s, parent(i));
        }
    }

    proof fn lemma_swap_multiset(s: Seq<(u64, Point)>, i: int, j: int)
        requires
            0 <= i < s.len(),
            0 <= j < s.len(),
        ensures
            s.update(i, s[j]).update(j, s[i]).to_multiset() == s.to_multiset(),
    {
        broadcast use vstd::seq_lib::to_multiset_update;
        broadcast use vstd::multiset::group_multiset_properties;

        let s1 = s.update(i, s[j]);
        assert(s1[j] == s[j]);
        assert(s1.update(j, s[i]).to_multiset() =~= s.to_multiset());
    }

    pub fn new() -> (r: MinHeap)
        ensures
            r.wf(),
            r.contents() == Multiset::<(u64, Point)>::empty(),
    {
        let r = MinHeap { data: Vec::new() };
        assert(r.data@.to_multiset() =~= Multiset::<(u64, Point)>::empty());
        r
    }

    pub fn len(&self) -> (r: usize)
        ensures
            r == self.contents().len(),
    {
        self.data.len()
    }

    /// Adds an entry.
    pub fn push(&mut self, key: u64, p: Point)
        requires
            old(self).wf(),
            old(self).contents().len() < usize::MAX,
        ensures
            final(self).wf(),
            final(self).contents() == old(self).contents().insert((key, p)),
    {
        self.data.push((key, p));
        let mut k: usize = self.data.len() - 1;
        let mut settled = false;
        while k > 0 && !settled
            invariant
                settled && k > 0 ==> self.data@[parent(k as int)].0 <= self.data@[k as int].0,
                0 <= k < self.data@.len(),
                self.data@.to_multiset() == old(self).data@.to_multiset().insert((key, p)),
                forall|i: int|
                    0 < i < self.data@.len() && i != k ==> (#[trigger] self.data@[parent(i)]).0
                        <= self.data@[i].0,
                k > 0 ==> forall|i: int|
                    0 < i < self.data@.len() && parent(i) == k ==> self.data@[parent(k as int)].0
                        <= (#[trigger] self.data@[i]).0,
            decreases k + (if settled { 0int } else { 1int }),
        {
            let pk: usize = (k - 1) / 2;
            if self.data[pk].0 <= self.data[k].0 {
                settled = true;
                continue;
            }
            let a = self.data[k];
            let b = self.data[pk];
            proof {
                Self::lemma_swap_multiset(self.data@, k as int, pk as int);
            }
            self.data.set(k, b);
            self.data.set(pk, a);
            proof {
                assert(self.data@[pk as int] == a);
                assert forall|i: int|
                    0 < i < self.data@.len() && i != pk implies (#[trigger] self.data@[parent(
                    i,
                )]).0 <= self.data@[i].0 by {
                    if parent(i) == pk && i != k {
                    }
                }
            }
            k = pk;
        }
        proof {
            assert forall|i: int| 0 < i < self.data@.len() implies (#[trigger] self.data@[parent(
                i,
            )]).0 <= self.data@[i].0 by {
                if i == k {
                }
            }
        }
    }

    /// Removes and returns an entry of least key, or `None` when empty.
    pub fn pop(&mut self) -> (r: Option<(u64, Point)>)
        requires
            old(self).wf(),
        ensures
            final(self).wf(),
            old(self).contents().len() == 0 <==> r is None,
            r is None ==> final(self).contents() == old(self).contents(),
            r matches Some(e) ==> {
                &&& old(self).contents().contains(e)
                &&& final(self).contents() == old(self).contents().remove(e)
                &&& forall|f: (u64, Point)| #[trigger]
                    old(self).contents().contains(f) ==> e.0 <= f.0
            },
    {
        if self.data.len() == 0 {
            return None;
        }
        let ghost s0 = self.data@;
        proof {
            assert forall|f: (u64, Point)| #[trigger] s0.to_multiset().contains(f) implies s0[0].0
                <= f.0 by {
                assert(s0.contains(f));
                let i = choose|i: int| 0 <= i < s0.len() && s0[i] == f;
                Self::lemma_root_is_min(s0, i);
            }
        }
        let last = self.data.len() - 1;
        let top = self.data[0];
        let tail = self.data[last];
        proof {
            Self::lemma_swap_multiset(s0, 0, last as int);
        }
        self.data.set(0, tail);
        self.data.set(last, top);
        let ghost s1 = self.data@;
        let _ = self.data.pop();
        proof {
            assert(s1.drop_last() =~= s1.remove(last as int));
            assert(self.data@ =~= s1.remove(last as int));
        }
        let n = self.data.len();
        let mut k: usize = 0;
        let mut settled = false;
        while k < n / 2 && !settled
            invariant
                settled ==> forall|i: int|
                    0 < i < self.data@.len() && parent(i) == k ==> self.data@[k as int].0 <= (
                    #[trigger] self.data@[i]).0,
                n == self.data@.len(),
                k < n || n == 0,
                self.data@.to_multiset() == s0.to_multiset().remove(top),
                forall|i: int|
                    0 < i < self.data@.len() && parent(i) != k ==> (#[trigger] self.data@[parent(
                        i,
                    )]).0 <= self.data@[i].0,
                k > 0 ==> forall|i: int|
                    0 < i < self.data@.len() && parent(i) == k ==> self.data@[parent(k as int)].0
                        <= (#[trigger] self.data@[i]).0,
            decreases n - k + (if settled { 0int } else { 1int }),
        {
            let l = 2 * k + 1;
            let mut m = l;
            if l + 1 < n && self.data[l + 1].0 < self.data[l].0 {
                m = l + 1;
            }
            if self.data[k].0 <= self.data[m].0 {
                proof {
                    assert forall|i: int|
                        0 < i < self.data@.len() && parent(i) == k implies self.data@[k as int].0
                        <= (#[trigger] self.data@[i]).0 by {
                        assert(i == l || i == l + 1);
                    }
                }
                settled = true;
                continue;
            }
            let a = self.data[k];
            let b = self.data[m];
            proof {
                Self::lemma_swap_multiset(self.data@, k as int, m as int);
                assert(parent(l as int) == k);
                assert(parent(l as int + 1) == k);
            }
            self.data.set(k, b);
            self.data.set(m, a);
            proof {
                assert forall|i: int|
                    0 < i < self.data@.len() && parent(i) != m implies (#[trigger] self.data@[parent(
                    i,
                )]).0 <= self.data@[i].0 by {
                    if i == m {
                    } else if parent(i) == k {
                    } else if i == k {
                    }
                }
            }
            k = m;
        }
        proof {
            assert forall|i: int| 0 < i < self.data@.len() implies (#[trigger] self.data@[parent(
                i,
            )]).0 <= self.data@[i].0 by {
                if parent(i) == k && !settled {
                    assert(i >= 2 * k + 1);
                }
            }
        }
        Some(top)
    }
}

} // verus!
