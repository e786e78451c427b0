//! Disjoint-set forest with union by weight and path compression.
use vstd::prelude::*;
use vstd::set_lib::{lemma_int_range, lemma_len_subset, set_int_range};

verus! {

/// Disjoint sets over the elements `0..n`.
pub struct UnionFind {
    disj: Vec<usize>,
    rank: Vec<usize>,
    /// The root that each element leads to.
    rep: Ghost<Seq<int>>,
    /// A measure that falls along every parent link.
    depth: Ghost<Seq<nat>>,
}

/// The elements whose root is `r`.
pub open spec fn class_of(rep: Seq<int>, r: int) -> Set<int> {
    Set::new(|v: int| 0 <= v < rep.len() && rep[v] == r)
}

/// The roots of a parent array.
pub open spec fn roots_of(disj: Seq<usize>) -> Set<int> {
    Set::new(|r: int| 0 <= r < disj.len() && disj[r] == r)
}

impl UnionFind {
    /// Number of elements.
    pub closed spec fn size_spec(&self) -> nat {
        self.disj@.len()
    }

    /// The representative of the set holding `v`.
    pub closed spec fn find(&self, v: int) -> int {
        self.rep@[v]
    }

    /// Number of disjoint sets.
    pub closed spec fn num_sets(&self) -> nat {
        roots_of(self.disj@).len()
    }

    /// Number of elements in the set holding `v`.
    pub open spec fn set_size(&self, v: int) -> nat {
        Set::new(|u: int| 0 <= u < self.size_spec() && self.find(u) == self.find(v)).len()
    }

    proof fn lemma_set_size(&self, v: int)
        requires
            self.wf(),
        ensures
            self.set_size(v) == class_of(self.rep@, self.rep@[v]).len(),
    {
        assert(Set::new(|u: int| 0 <= u < self.size_spec() && self.find(u) == self.find(v))
            =~= class_of(self.rep@, self.rep@[v]));
    }

    pub closed spec fn wf(&self) -> bool {
        let n = self.disj@.len();
        let disj = self.disj@;
        let rep = self.rep@;
        let depth = self.depth@;
        &&& self.rank@.len() == n
        &&& rep.len() == n
        &&& depth.len() == n
        &&& forall|v: int| 0 <= v < n ==> #[trigger] disj[v] < n
        &&& forall|v: int| 0 <= v < n ==> 0 <= #[trigger] rep[v] < n && disj[rep[v]] == rep[v]
        &&& forall|v: int| 0 <= v < n ==> rep[#[trigger] disj[v] as int] == rep[v]
        &&& forall|v: int|
            0 <= v < n && disj[v] != v ==> depth[#[trigger] disj[v] as int] < depth[v]
        &&& forall|v: int| 0 <= v < n && rep[v] != v ==> depth[#[trigger] rep[v]] < depth[v]
        &&& forall|r: int| 0 <= r < n && #[trigger] disj[r] == r ==> rep[r] == r
        &&& forall|r: int|
            0 <= r < n && disj[r] == r ==> #[trigger] self.rank@[r] == class_of(rep, r).len()
    }

    proof fn lemma_class_bound(&self, r: int)
        requires
            self.wf(),
        ensures
            class_of(self.rep@, r).finite(),
            class_of(self.rep@, r).len() <= self.disj@.len(),
    {
        let n = self.disj@.len() as int;
        lemma_int_range(0, n);
        lemma_len_subset(class_of(self.rep@, r), set_int_range(0, n));
    }

    proof fn lemma_roots_finite(&self)
        requires
            self.wf(),
        ensures
            roots_of(self.disj@).finite(),
    {
        let n = self.disj@.len() as int;
        lemma_int_range(0, n);
        lemma_len_subset(roots_of(self.disj@), set_int_range(0, n));
    }

    /// `n` singleton sets.
    pub fn new(n: usize) -> (r: UnionFind)
        ensures
            r.wf(),
            r.size_spec() == n,
            forall|v: int| 0 <= v < n ==> #[trigger] r.find(v) == v,
            forall|v: int| 0 <= v < n ==> #[trigger] r.set_size(v) == 1,
            r.num_sets() == n,
    {
        let mut disj: Vec<usize> = Vec::new();
        let mut rank: Vec<usize> = Vec::new();
        let mut i: usize = 0;
        while i < n
            invariant
                i <= n,
                disj@.len() == i,
                rank@.len() == i,
                forall|v: int| 0 <= v < i ==> #[trigger] disj@[v] == v,
                forall|v: int| 0 <= v < i ==> #[trigger] rank@[v] == 1,
            decreases n - i,
        {
            disj.push(i);
            rank.push(1);
            i = i + 1;
        }
        let ghost rep = Seq::new(n as nat, |v: int| v);
        let uf = UnionFind { disj, rank, rep: Ghost(rep), depth: Ghost(Seq::new(n as nat, |v: int| 0nat)) };
        proof {
            assert forall|r: int| 0 <= r < n && uf.disj@[r] == r implies #[trigger] uf.rank@[r]
                == class_of(rep, r).len() by {
                assert(class_of(rep, r) =~= set![r]);
            }
            assert(roots_of(uf.disj@) =~= set_int_range(0, n as int));
            lemma_int_range(0, n as int);
            assert forall|v: int| 0 <= v < n implies #[trigger] uf.set_size(v) == 1 by {
                uf.lemma_set_size(v);
                assert(class_of(rep, v) =~= set![v]);
            }
        }
        uf
    }

    /// The representative of the set holding `x`; shortens the paths walked.
    pub fn root(&mut self, x: usize) -> (r: usize)
        requires
            old(self).wf(),
            x < old(self).size_spec(),
        ensures
            final(self).wf(),
            final(self).size_spec() == old(self).size_spec(),
            forall|v: int| 0 <= v < old(self).size_spec() ==> #[trigger] final(self).find(v) == old(self).find(v),
            final(self).num_sets() == old(self).num_sets(),
            forall|v: int| 0 <= v < old(self).size_spec() ==> #[trigger] final(self).set_size(v) == old(self).set_size(v),
            r == old(self).find(x as int),
    {
        let ghost n = self.disj@.len();
        let ghost s_start = *self;
        let mut r = x;
        while self.disj[r] != r
            invariant
                self.wf(),
                n == self.disj@.len(),
                r < n,
                self.rep@[r as int] == self.rep@[x as int],
            decreases self.depth@[r as int],
        {
            r = self.disj[r];
        }
        let ghost s0 = *self;
        let mut c = x;
        while c != r
            invariant
                self.wf(),
                n == self.disj@.len(),
                self.rep@ == s0.rep@,
                self.rank@ == s0.rank@,
                roots_of(self.disj@) == roots_of(s0.disj@),
                self.disj@[r as int] == r,
                c < n,
                r < n,
                self.rep@[c as int] == r,
            decreases self.depth@[c as int],
        {
            let next = self.disj[c];
            self.disj.set(c, r);
            assert(roots_of(self.disj@) =~= roots_of(s0.disj@));
            c = next;
        }
        proof {
            assert forall|v: int| 0 <= v < n implies #[trigger] self.set_size(v) == s_start.set_size(v) by {
                self.lemma_set_size(v);
                s_start.lemma_set_size(v);
            }
        }
        r
    }

    /// Merges the sets holding `x` and `y`; the lighter root goes under the
    /// heavier one.
    pub fn unite(&mut self, x: usize, y: usize)
        requires
            old(self).wf(),
            x < old(self).size_spec(),
            y < old(self).size_spec(),
        ensures
            final(self).wf(),
            final(self).size_spec() == old(self).size_spec(),
            forall|v: int|
                0 <= v < old(self).size_spec() ==> #[trigger] final(self).find(v) == if old(self).find(
                    v,
                ) == old(self).find(x as int) || old(self).find(v) == old(self).find(y as int) {
                    final(self).find(y as int)
                } else {
                    old(self).find(v)
                },
            final(self).find(y as int) == old(self).find(x as int) || final(self).find(y as int)
                == old(self).find(y as int),
            old(self).find(x as int) == old(self).find(y as int) ==> final(self).num_sets()
                == old(self).num_sets(),
            old(self).find(x as int) != old(self).find(y as int) ==> final(self).num_sets()
                == old(self).num_sets() - 1,
            old(self).find(x as int) != old(self).find(y as int) ==> final(self).find(y as int) == if old(
                self,
            ).set_size(x as int) > old(self).set_size(y as int) {
                old(self).find(x as int)
            } else {
                old(self).find(y as int)
            },
            old(self).find(x as int) != old(self).find(y as int) ==> final(self).set_size(y as int)
                == old(self).set_size(x as int) + old(self).set_size(y as int),
            forall|v: int|
                0 <= v < old(self).size_spec() && ((old(self).find(v) != old(self).find(x as int)
                    && old(self).find(v) != old(self).find(y as int)) || old(self).find(x as int)
                    == old(self).find(y as int)) ==> #[trigger] final(self).set_size(v) == old(
                    self,
                ).set_size(v),
    {
        let ghost n = self.disj@.len();
        let ghost s_in = *self;
        let x0 = x;
        let y0 = y;
        let mut x = self.root(x0);
        let ghost s_mid = *self;
        let mut y = self.root(y0);
        assert(s_mid.find(x0 as int) == x);
        assert(self.find(x0 as int) == s_mid.find(x0 as int));
        assert(self.find(x0 as int) == self.rep@[x0 as int]);
        assert(self.rep@[x0 as int] == x);
        assert(self.find(y0 as int) == s_mid.find(y0 as int));
        assert(self.rep@[y0 as int] == y);
        proof {
            assert forall|v: int| 0 <= v < n implies #[trigger] self.set_size(v) == s_in.set_size(v) by {
                assert(self.set_size(v) == s_mid.set_size(v));
            }
            s_in.lemma_set_size(x0 as int);
            s_in.lemma_set_size(y0 as int);
            self.lemma_set_size(x0 as int);
            self.lemma_set_size(y0 as int);
            assert(self.disj@[x as int] == x && self.disj@[y as int] == y);
            assert(self.rank@[x as int] == s_in.set_size(x0 as int));
            assert(self.rank@[y as int] == s_in.set_size(y0 as int));
        }
        if x == y {
            proof {
                assert forall|v: int| 0 <= v < n implies #[trigger] self.find(v) == s_in.find(v) by {
                }
            }
            return;
        }
        if self.rank[x] > self.rank[y] {
            let t = x;
            x = y;
            y = t;
        }
        let ghost s0 = *self;
        let len = self.disj.len();
        proof {
            assert(s0.disj@[x as int] == x && s0.disj@[y as int] == y);
            assert(class_of(s0.rep@, x as int).disjoint(class_of(s0.rep@, y as int)));
            s0.lemma_class_bound(x as int);
            s0.lemma_class_bound(y as int);
            s0.lemma_roots_finite();
            vstd::set_lib::lemma_set_disjoint_lens(class_of(s0.rep@, x as int), class_of(s0.rep@, y as int));
            lemma_int_range(0, n as int);
            lemma_len_subset(
                class_of(s0.rep@, x as int) + class_of(s0.rep@, y as int),
                set_int_range(0, n as int),
            );
        }
        assert(s0.rank@[x as int] + s0.rank@[y as int] <= n);
        self.disj.set(x, y);
        let w = self.rank[x] + self.rank[y];
        self.rank.set(y, w);
        let ghost xr = x as int;
        let ghost yr = y as int;
        self.rep = Ghost(Seq::new(n, |v: int| if s0.rep@[v] == xr { yr } else { s0.rep@[v] }));
        self.depth = Ghost(
            Seq::new(
                n,
                |v: int|
                    if s0.rep@[v] == xr {
                        s0.depth@[v] + s0.depth@[yr] + 1
                    } else {
                        s0.depth@[v]
                    },
            ),
        );
        proof {
            assert(class_of(self.rep@, yr) =~= class_of(s0.rep@, xr) + class_of(s0.rep@, yr));
            assert(self.rank@[yr] == class_of(self.rep@, yr).len());
            assert forall|r: int| 0 <= r < n && self.disj@[r] == r implies #[trigger] self.rank@[r]
                == class_of(self.rep@, r).len() by {
                if r != yr {
                    assert(class_of(self.rep@, r) =~= class_of(s0.rep@, r));
                }
            }
            assert(roots_of(self.disj@) =~= roots_of(s0.disj@).remove(xr));
            assert forall|v: int| 0 <= v < n implies #[trigger] s0.rep@[v] == s_in.find(v) by {
                assert(s0.find(v) == s_in.find(v));
            }
            self.lemma_set_size(y0 as int);
            assert(self.rep@[y0 as int] == yr);
            assert(self.set_size(y0 as int) == self.rank@[yr]);
            assert forall|v: int|
                0 <= v < n && s_in.find(v) != s_in.find(x0 as int) && s_in.find(v) != s_in.find(
                    y0 as int,
                ) implies #[trigger] self.set_size(v) == s_in.set_size(v) by {
                self.lemma_set_size(v);
                s_in.lemma_set_size(v);
                assert(class_of(self.rep@, self.rep@[v]) =~= class_of(s_in.rep@, s_in.rep@[v]));
            }
        }
    }

    /// Whether `x` and `y` are in one set.
    pub fn is_same_set(&mut self, x: usize, y: usize) -> (r: bool)
        requires
            old(self).wf(),
            x < old(self).size_spec(),
            y < old(self).size_spec(),
        ensures
            final(self).wf(),
            final(self).size_spec() == old(self).size_spec(),
            forall|v: int| 0 <= v < old(self).size_spec() ==> #[trigger] final(self).find(v) == old(self).find(v),
            final(self).num_sets() == old(self).num_sets(),
            forall|v: int| 0 <= v < old(self).size_spec() ==> #[trigger] final(self).set_size(v) == old(self).set_size(v),
            r == (old(self).find(x as int) == old(self).find(y as int)),
    {
        let ghost s_in = *self;
        let a = self.root(x);
        let ghost s_mid = *self;
        let b = self.root(y);
        assert forall|v: int| 0 <= v < s_in.size_spec() implies #[trigger] self.set_size(v) == s_in.set_size(v) by {
            assert(self.set_size(v) == s_mid.set_size(v));
        }
        a == b
    }

    /// When every element is in the set of element 0, there is one set.
    pub proof fn lemma_one_set(&self)
        requires
            self.wf(),
            self.size_spec() >= 1,
            forall|v: int| 0 <= v < self.size_spec() ==> #[trigger] self.find(v) == self.find(0),
        ensures
            self.num_sets() == 1,
    {
        let r0 = self.rep@[0];
        assert forall|r: int| roots_of(self.disj@).contains(r) implies r == r0 by {
            assert(self.find(r) == self.find(0));
        }
        assert(roots_of(self.disj@) =~= set![r0]);
    }

    /// Number of elements in the set holding `x`.
    pub fn size(&mut self, x: usize) -> (r: usize)
        requires
            old(self).wf(),
            x < old(self).size_spec(),
        ensures
            final(self).wf(),
            final(self).size_spec() == old(self).size_spec(),
            forall|v: int| 0 <= v < old(self).size_spec() ==> #[trigger] final(self).find(v) == old(self).find(v),
            final(self).num_sets() == old(self).num_sets(),
            r == old(self).set_size(x as int),
    {
        let ghost s0 = *self;
        let r = self.root(x);
        proof {
            assert forall|v: int| 0 <= v < self.rep@.len() implies #[trigger] self.rep@[v]
                == s0.rep@[v] by {
                assert(self.find(v) == s0.find(v));
            }
            assert(self.rep@ =~= s0.rep@);
            assert(self.disj@[r as int] == r);
            s0.lemma_set_size(x as int);
        }
        self.rank[r]
    }
}

} // verus!
