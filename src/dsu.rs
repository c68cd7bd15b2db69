//! Disjoint-set union with union by size and path compression.
use vstd::prelude::*;
use vstd::set_lib::{lemma_int_range, lemma_len_subset, set_int_range};

verus! {

/// A partition of `0..n` into classes, each named by its leader.
pub struct Dsu {
    /// For a leader, minus the size of its class; otherwise a parent index.
    parent_or_size: Vec<i32>,
    leader_of: Ghost<Seq<int>>,
    rank: Ghost<Seq<nat>>,
}

impl Dsu {
    /// The leader of the class of each element.
    pub closed spec fn leaders(&self) -> Seq<int> {
        self.leader_of@
    }

    /// The parent link of element `a`: for a leader, minus the size of its class.
    pub closed spec fn link(&self, a: int) -> int {
        self.parent_or_size@[a] as int
    }

    /// Number of elements whose leader is `l`.
    pub closed spec fn class_size(&self, l: int) -> nat {
        self.class(l).len()
    }

    spec fn class(&self, r: int) -> Set<int> {
        Set::new(|a: int| 0 <= a < self.parent_or_size@.len() && self.leader_of@[a] == r)
    }

    pub closed spec fn wf(&self) -> bool {
        let n = self.parent_or_size@.len();
        let pos = self.parent_or_size@;
        let lead = self.leader_of@;
        let rank = self.rank@;
        &&& n <= i32::MAX
        &&& lead.len() == n
        &&& rank.len() == n
        &&& forall|a: int| 0 <= a < n ==> 0 <= #[trigger] lead[a] < n && pos[lead[a]] < 0
        &&& forall|a: int| 0 <= a < n ==> #[trigger] rank[a] < n
        &&& forall|a: int|
            0 <= a < n && #[trigger] pos[a] < 0 ==> lead[a] == a && -pos[a] == self.class(a).len()
                && rank[a] < self.class(a).len()
        &&& forall|a: int|
            0 <= a < n && #[trigger] pos[a] >= 0 ==> pos[a] < n && lead[pos[a] as int] == lead[a]
                && rank[a] < rank[pos[a] as int] && rank[a] < rank[lead[a]]
    }

    proof fn lemma_class_finite(&self, r: int)
        requires
            self.wf(),
        ensures
            self.class(r).finite(),
            self.class(r).len() <= self.parent_or_size@.len(),
    {
        let n = self.parent_or_size@.len() as int;
        lemma_int_range(0, n);
        lemma_len_subset(self.class(r), set_int_range(0, n));
    }

    /// `size` singleton classes.
    pub fn new(size: usize) -> (r: Dsu)
        requires
            size <= i32::MAX,
        ensures
            r.wf(),
            r.leaders() == Seq::new(size as nat, |i: int| i),
    {
        let mut v: Vec<i32> = Vec::new();
        let mut i: usize = 0;
        while i < size
            invariant
                i <= size,
                v@.len() == i,
                forall|j: int| 0 <= j < i ==> v@[j] == -1,
            decreases size - i,
        {
            v.push(-1);
            i = i + 1;
        }
        let r = Dsu {
            parent_or_size: v,
            leader_of: Ghost(Seq::new(size as nat, |i: int| i)),
            rank: Ghost(Seq::new(size as nat, |i: int| 0nat)),
        };
        proof {
            assert forall|a: int| 0 <= a < size implies r.class(a).len() == 1 by {
                assert(r.class(a) =~= set![a]);
            }
        }
        r
    }

    /// The leader of the class of `a`; compresses the path to it.
    pub fn leader(&mut self, a: usize) -> (r: usize)
        requires
            old(self).wf(),
            a < old(self).leaders().len(),
        ensures
            final(self).wf(),
            final(self).leaders() == old(self).leaders(),
            r == old(self).leaders()[a as int],
            final(self).leaders()[r as int] == r,
            r != a ==> final(self).link(a as int) == r,
    {
        let ghost n = self.parent_or_size@.len() as int;
        let mut r = a;
        while self.parent_or_size[r] >= 0
            invariant
                self.wf(),
                n == self.parent_or_size@.len(),
                r < n,
                self.leader_of@[r as int] == self.leader_of@[a as int],
            decreases n - self.rank@[r as int],
        {
            r = self.parent_or_size[r] as usize;
        }
        let mut x = a;
        while self.parent_or_size[x] >= 0
            invariant
                self.wf(),
                n == self.parent_or_size@.len(),
                x < n,
                r < n,
                self.parent_or_size@[r as int] < 0,
                self.leader_of@ == old(self).leader_of@,
                self.rank@ == old(self).rank@,
                self.leader_of@[x as int] == r,
                self.leader_of@[r as int] == r,
                self.parent_or_size@.len() == old(self).parent_or_size@.len(),
                a < n,
                x == a || self.parent_or_size@[a as int] == r,
                x == a || self.rank@[a as int] < self.rank@[x as int],
                x == a ==> self.parent_or_size@ == old(self).parent_or_size@,
                forall|c: int| #![auto] 0 <= c < n ==> self.class(c) == old(self).class(c),
            decreases n - self.rank@[x as int],
        {
            let next = self.parent_or_size[x] as usize;
            proof {
                assert(self.rank@[x as int] < self.rank@[next as int]);
            }
            let ghost before = *self;
            self.parent_or_size.set(x, r as i32);
            proof {
                assert forall|c: int| #![auto] 0 <= c < n implies self.class(c) == before.class(c) by {
                    assert(self.class(c) =~= before.class(c));
                }
            }
            x = next;
        }
        r
    }

    /// Whether `a` and `b` are in one class.
    pub fn same(&mut self, a: usize, b: usize) -> (r: bool)
        requires
            old(self).wf(),
            a < old(self).leaders().len(),
            b < old(self).leaders().len(),
        ensures
            final(self).wf(),
            final(self).leaders() == old(self).leaders(),
            r == (old(self).leaders()[a as int] == old(self).leaders()[b as int]),
    {
        self.leader(a) == self.leader(b)
    }

    /// Joins the classes of `a` and `b`; returns whether they were apart. The
    /// leader of the larger class (of `a`'s, on a tie) leads the union.
    #[verifier::spinoff_prover]
    #[verifier::rlimit(60)]
    pub fn merge(&mut self, a: usize, b: usize) -> (r: bool)
        requires
            old(self).wf(),
            a < old(self).leaders().len(),
            b < old(self).leaders().len(),
        ensures
            final(self).wf(),
            final(self).leaders().len() == old(self).leaders().len(),
            r == (old(self).leaders()[a as int] != old(self).leaders()[b as int]),
            !r ==> final(self).leaders() == old(self).leaders(),
            r ==> {
                let la = old(self).leaders()[a as int];
                let lb = old(self).leaders()[b as int];
                let nl = final(self).leaders()[a as int];
                &&& nl == if old(self).class_size(la) < old(self).class_size(lb) {
                    lb
                } else {
                    la
                }
                &&& forall|c: int|
                    0 <= c < old(self).leaders().len() ==> #[trigger] final(self).leaders()[c] == if old(
                        self,
                    ).leaders()[c] == la || old(self).leaders()[c] == lb {
                        nl
                    } else {
                        old(self).leaders()[c]
                    }
            },
    {
        let x = self.leader(a);
        let y = self.leader(b);
        if x == y {
            return false;
        }
        let ghost n = self.parent_or_size@.len() as int;
        proof {
            assert(self.class(x as int) =~= old(self).class(x as int));
            assert(self.class(y as int) =~= old(self).class(y as int));
            self.lemma_class_finite(x as int);
            self.lemma_class_finite(y as int);
            assert(self.class(x as int).disjoint(self.class(y as int)));
            vstd::set_lib::lemma_set_disjoint_lens(self.class(x as int), self.class(y as int));
            assert(self.class(x as int) + self.class(y as int) =~= Set::new(
                |c: int| 0 <= c < n && (self.leader_of@[c] == x || self.leader_of@[c] == y),
            ));
            lemma_int_range(0, n);
            lemma_len_subset(self.class(x as int) + self.class(y as int), set_int_range(0, n));
            assert(self.class(x as int).contains(x as int));
            assert(self.class(y as int).contains(y as int));
            assert(-self.parent_or_size@[x as int] == old(self).class_size(x as int));
            assert(-self.parent_or_size@[y as int] == old(self).class_size(y as int));
        }
        let (big, small) = if -self.parent_or_size[x] < -self.parent_or_size[y] {
            (y, x)
        } else {
            (x, y)
        };
        let ghost old_self = *self;
        let ghost lead0 = self.leader_of@;
        let ghost rank0 = self.rank@;
        let sum = self.parent_or_size[big] + self.parent_or_size[small];
        self.parent_or_size.set(big, sum);
        self.parent_or_size.set(small, big as i32);
        let ghost nl = big as int;
        let ghost so = small as int;
        self.leader_of = Ghost(lead0.map_values(|l: int| if l == x || l == y { nl } else { l }));
        self.rank = Ghost(
            rank0.update(
                nl,
                if rank0[nl] > rank0[so] + 1 {
                    rank0[nl]
                } else {
                    (rank0[so] + 1) as nat
                },
            ),
        );
        proof {
            let merged = old_self.class(x as int) + old_self.class(y as int);
            assert(self.class(nl) =~= merged);
            assert forall|c: int| 0 <= c < n && c != nl && c != so implies #[trigger] self.class(c)
                =~= old_self.class(c) by {}
            let pos = self.parent_or_size@;
            assert forall|c: int| 0 <= c < n && #[trigger] pos[c] < 0 implies self.leader_of@[c]
                == c && -pos[c] == self.class(c).len() && self.rank@[c] < self.class(c).len() by {
                if c != nl {
                    assert(self.class(c) =~= old_self.class(c));
                }
            }
            assert forall|c: int| 0 <= c < n implies #[trigger] self.rank@[c] < n by {
                if c == nl {
                    assert(self.class(nl).len() <= n);
                    assert(pos[nl] < 0);
                }
            }
            assert(self.leader_of@[a as int] == nl);
        }
        true
    }
}

} // verus!
