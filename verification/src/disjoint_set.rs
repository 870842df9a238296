//! A disjoint-set (union-find) structure over elements `0..n`, with path
//! compression and union by size.
//!
//! The structure maintains, as a ghost view, the representative of every
//! element (`rep_of`). `find` returns exactly that representative and
//! `union` merges two classes, so connectivity facts proved over the view
//! carry to the executable code.

use vstd::prelude::*;
use vstd::set_lib::{lemma_int_range, lemma_len_subset, set_int_range};

use crate::errors::EngineError;

verus! {

/// The elements whose representative is `r`.
pub open spec fn class(rep: Seq<usize>, r: int) -> Set<int> {
    Set::new(|k: int| 0 <= k < rep.len() && rep[k] == r)
}

/// The representative sequence after the classes of `ra` and `rb` are merged
/// into the class rooted at `m`.
pub open spec fn merged_rep(rep: Seq<usize>, ra: usize, rb: usize, m: usize) -> Seq<usize> {
    Seq::new(rep.len(), |k: int| if rep[k] == ra || rep[k] == rb { m } else { rep[k] })
}

/// How one `union(i, j)` call may change the representative sequence: either
/// nothing (same class already), or the two classes merge into one of the two
/// old roots.
pub open spec fn is_merge_step(rep: Seq<usize>, rep2: Seq<usize>, i: int, j: int) -> bool {
    let ra = rep[i];
    let rb = rep[j];
    if ra == rb {
        rep2 == rep
    } else {
        rep2 == merged_rep(rep, ra, rb, ra) || rep2 == merged_rep(rep, ra, rb, rb)
    }
}

/// The root that keeps the merged class: the one with the larger recorded
/// size, ties going to `i`'s root.
pub open spec fn survivor(rep: Seq<usize>, size: Seq<usize>, i: int, j: int) -> usize {
    let ra = rep[i];
    let rb = rep[j];
    if size[ra as int] < size[rb as int] {
        rb
    } else {
        ra
    }
}

/// Whether `i` and `j` are joined by the transitive-reflexive-symmetric
/// closure of the given `union` argument pairs.
pub open spec fn connected(pairs: Seq<(int, int)>, i: int, j: int) -> bool
    decreases pairs.len(),
{
    if pairs.len() == 0 {
        i == j
    } else {
        let rest = pairs.drop_last();
        let a = pairs.last().0;
        let b = pairs.last().1;
        ||| connected(rest, i, j)
        ||| (connected(rest, i, a) && connected(rest, b, j))
        ||| (connected(rest, i, b) && connected(rest, a, j))
    }
}

/// The sum of `size[r]` over the roots `r` (elements with `rep[r] == r`)
/// below `m`.
pub open spec fn root_size_sum(rep: Seq<usize>, size: Seq<usize>, m: int) -> int
    decreases m,
{
    if m <= 0 {
        0
    } else {
        root_size_sum(rep, size, m - 1) + if rep[m - 1] == m - 1 {
            size[m - 1] as int
        } else {
            0
        }
    }
}

/// A partition of `0..n` into disjoint sets, one per root.
pub struct DisjointSet {
    parent: Vec<usize>,
    size: Vec<usize>,
    rep: Ghost<Seq<usize>>,
    depth: Ghost<Seq<nat>>,
}

impl DisjointSet {
    /// Number of elements.
    pub closed spec fn len(self) -> nat {
        self.parent@.len()
    }

    /// The representative of each element.
    pub closed spec fn rep_of(self) -> Seq<usize> {
        self.rep@
    }

    /// The recorded size of each root's class (meaningful at roots only).
    pub closed spec fn sizes(self) -> Seq<usize> {
        self.size@
    }

    /// Termination measure for `find`: distance from `i` to its root.
    pub closed spec fn depth_at(self, i: int) -> nat {
        self.depth@[i]
    }

    pub closed spec fn wf(self) -> bool {
        let n = self.parent@.len() as int;
        &&& self.size@.len() == n
        &&& self.rep@.len() == n
        &&& self.depth@.len() == n
        &&& forall|i: int| 0 <= i < n ==> #[trigger] self.parent@[i] < n
        &&& forall|i: int| 0 <= i < n ==> #[trigger] self.rep@[i] < n
        &&& forall|i: int|
            0 <= i < n ==> ((#[trigger] self.parent@[i] as int == i) <==> (self.rep@[i] as int
                == i))
        &&& forall|i: int|
            0 <= i < n ==> #[trigger] self.rep@[self.parent@[i] as int] == self.rep@[i]
        &&& forall|i: int|
            0 <= i < n ==> #[trigger] self.rep@[self.rep@[i] as int] == self.rep@[i]
        &&& forall|i: int|
            0 <= i < n && self.parent@[i] as int != i ==> self.depth@[self.parent@[i] as int]
                < #[trigger] self.depth@[i]
        &&& forall|i: int|
            0 <= i < n && self.parent@[i] as int == i ==> #[trigger] self.depth@[i] == 0
        &&& forall|r: int|
            0 <= r < n && self.rep@[r] as int == r ==> #[trigger] self.size@[r] == class(
                self.rep@,
                r,
            ).len()
    }

    /// Whether two elements are currently in the same set.
    pub open spec fn same_set(self, i: int, j: int) -> bool {
        self.rep_of()[i] == self.rep_of()[j]
    }

    /// `n` singleton sets, one per element of `0..n`.
    pub fn new(n: usize) -> (r: DisjointSet)
        ensures
            r.wf(),
            r.len() == n,
            forall|i: int| 0 <= i < n ==> #[trigger] r.rep_of()[i] as int == i,
            forall|i: int| 0 <= i < n ==> #[trigger] r.sizes()[i] == 1,
    {
        let mut parent: Vec<usize> = Vec::new();
        let mut size: Vec<usize> = Vec::new();
        let mut i: usize = 0;
        while i < n
            invariant
                i <= n,
                parent@.len() == i,
                size@.len() == i,
                forall|k: int| 0 <= k < i ==> #[trigger] parent@[k] as int == k,
                forall|k: int| 0 <= k < i ==> #[trigger] size@[k] == 1,
            decreases n - i,
        {
            parent.push(i);
            size.push(1);
            i = i + 1;
        }
        let ghost rep = parent@;
        let ghost depth = Seq::new(n as nat, |k: int| 0nat);
        let r = DisjointSet { parent, size, rep: Ghost(rep), depth: Ghost(depth) };
        proof {
            assert forall|q: int| 0 <= q < n && r.rep@[q] as int == q implies #[trigger] r.size@[q]
                == class(r.rep@, q).len() by {
                assert(class(r.rep@, q) =~= Set::empty().insert(q));
            }
        }
        r
    }

    /// The representative of the set holding `i`; flattens the path walked.
    pub fn find(&mut self, i: usize) -> (r: usize)
        requires
            old(self).wf(),
            i < old(self).len(),
        ensures
            final(self).wf(),
            final(self).len() == old(self).len(),
            final(self).rep_of() == old(self).rep_of(),
            final(self).sizes() == old(self).sizes(),
            r == final(self).rep_of()[i as int],
        decreases old(self).depth_at(i as int),
    {
        let p = self.parent[i];
        if p == i {
            return i;
        }
        let r = self.find(p);
        self.parent.set(i, r);
        r
    }

    /// `find`, with an out-of-range index reported instead of assumed away.
    pub fn try_find(&mut self, i: usize) -> (r: Result<usize, EngineError>)
        requires
            old(self).wf(),
        ensures
            final(self).wf(),
            final(self).len() == old(self).len(),
            final(self).rep_of() == old(self).rep_of(),
            final(self).sizes() == old(self).sizes(),
            r is Ok <==> i < old(self).len(),
            r is Ok ==> r->Ok_0 == final(self).rep_of()[i as int],
            r is Err ==> r->Err_0 == EngineError::IndexOutOfRange,
    {
        if i < self.parent.len() {
            Ok(self.find(i))
        } else {
            Err(EngineError::IndexOutOfRange)
        }
    }

    /// Merges the sets holding `i` and `j`; a no-op when they are one set
    /// already, otherwise the smaller class's root is attached below the
    /// larger class's root, which records the summed size. Every other
    /// recorded size is untouched.
    pub fn union(&mut self, i: usize, j: usize)
        requires
            old(self).wf(),
            i < old(self).len(),
            j < old(self).len(),
        ensures
            final(self).wf(),
            final(self).len() == old(self).len(),
            is_merge_step(old(self).rep_of(), final(self).rep_of(), i as int, j as int),
            old(self).rep_of()[i as int] == old(self).rep_of()[j as int] ==> final(self).rep_of()
                == old(self).rep_of() && final(self).sizes() == old(self).sizes(),
            old(self).rep_of()[i as int] != old(self).rep_of()[j as int] ==> ({
                let ra = old(self).rep_of()[i as int];
                let rb = old(self).rep_of()[j as int];
                let m = survivor(old(self).rep_of(), old(self).sizes(), i as int, j as int);
                &&& final(self).rep_of() == merged_rep(old(self).rep_of(), ra, rb, m)
                &&& final(self).sizes() == old(self).sizes().update(
                    m as int,
                    (old(self).sizes()[ra as int] + old(self).sizes()[rb as int]) as usize,
                )
            }),
    {
        let ghost rep0 = self.rep@;
        let ghost size0 = self.size@;
        let ri = self.find(i);
        let rj = self.find(j);
        if ri == rj {
            return;
        }
        let (p1, p2) = if self.size[ri] < self.size[rj] {
            (ri, rj)
        } else {
            (rj, ri)
        };
        let n_elems = self.parent.len();
        proof {
            let n = self.parent@.len() as int;
            assert(self.rep@[self.rep@[i as int] as int] == self.rep@[i as int]);
            assert(self.rep@[self.rep@[j as int] as int] == self.rep@[j as int]);
            assert(self.rep@[p1 as int] == p1);
            assert(self.rep@[p2 as int] == p2);
            lemma_int_range(0, n);
            lemma_class_finite(self.rep@, p1 as int);
            lemma_class_finite(self.rep@, p2 as int);
            lemma_disjoint_union_len(class(self.rep@, p1 as int), class(self.rep@, p2 as int));
            lemma_len_subset(
                class(self.rep@, p1 as int).union(class(self.rep@, p2 as int)),
                set_int_range(0, n),
            );
            assert(self.size@[p1 as int] + self.size@[p2 as int] <= n_elems);
        }
        let s1 = self.size[p1];
        let s2 = self.size[p2];
        self.parent.set(p1, p2);
        self.size.set(p2, s1 + s2);
        let ghost oldrep = self.rep@;
        let ghost olddepth = self.depth@;
        let ghost n = self.parent@.len() as int;
        proof {
            self.rep@ = merged_rep(oldrep, p1, p2, p2);
            self.depth@ = Seq::new(
                olddepth.len(),
                |k: int| if oldrep[k] == p1 { (olddepth[k] + 1) as nat } else { olddepth[k] },
            );
            let newrep = self.rep@;
            assert forall|r: int| 0 <= r < n && newrep[r] as int == r implies #[trigger] self.size@[r]
                == class(newrep, r).len() by {
                if r == p2 as int {
                    assert(class(newrep, r) =~= class(oldrep, p1 as int).union(
                        class(oldrep, p2 as int),
                    ));
                    lemma_disjoint_union_len(class(oldrep, p1 as int), class(oldrep, p2 as int));
                } else {
                    assert(class(newrep, r) =~= class(oldrep, r));
                }
            }
            assert(merged_rep(oldrep, p1, p2, p2) =~= merged_rep(rep0, ri, rj, p2));
            assert(is_merge_step(rep0, self.rep@, i as int, j as int));
            assert(p2 == survivor(rep0, size0, i as int, j as int));
            assert(merged_rep(rep0, ri, rj, p2) =~= merged_rep(
                rep0,
                rep0[i as int],
                rep0[j as int],
                survivor(rep0, size0, i as int, j as int),
            ));
            assert(self.size@ =~= size0.update(
                p2 as int,
                (size0[ri as int] + size0[rj as int]) as usize,
            ));
            assert(self.size@ =~= size0.update(
                survivor(rep0, size0, i as int, j as int) as int,
                (size0[rep0[i as int] as int] + size0[rep0[j as int] as int]) as usize,
            ));
        }
    }

    /// The number of elements in the set holding `i`: the recorded size at
    /// `i`'s root, which equals the cardinality of `i`'s class.
    pub fn size_of(&mut self, i: usize) -> (r: usize)
        requires
            old(self).wf(),
            i < old(self).len(),
        ensures
            final(self).wf(),
            final(self).len() == old(self).len(),
            final(self).rep_of() == old(self).rep_of(),
            final(self).sizes() == old(self).sizes(),
            r == old(self).sizes()[old(self).rep_of()[i as int] as int],
            r == class(old(self).rep_of(), old(self).rep_of()[i as int] as int).len(),
    {
        let root = self.find(i);
        proof {
            assert(self.rep@[self.rep@[i as int] as int] == self.rep@[i as int]);
        }
        self.size[root]
    }

    /// `union`, with out-of-range indices reported instead of assumed away.
    pub fn try_union(&mut self, i: usize, j: usize) -> (r: Result<(), EngineError>)
        requires
            old(self).wf(),
        ensures
            final(self).wf(),
            final(self).len() == old(self).len(),
            r is Ok <==> (i < old(self).len() && j < old(self).len()),
            r is Ok ==> is_merge_step(old(self).rep_of(), final(self).rep_of(), i as int, j as int),
            r is Err ==> final(self).rep_of() == old(self).rep_of() && r->Err_0
                == EngineError::IndexOutOfRange,
    {
        if i < self.parent.len() && j < self.parent.len() {
            self.union(i, j);
            Ok(())
        } else {
            Err(EngineError::IndexOutOfRange)
        }
    }
}

proof fn lemma_disjoint_union_len<A>(s1: Set<A>, s2: Set<A>)
    requires
        s1.finite(),
        s2.finite(),
        s1.disjoint(s2),
    ensures
        s1.union(s2).len() == s1.len() + s2.len(),
    decreases s1.len(),
{
    if s1.is_empty() {
        assert(s1.union(s2) =~= s2);
    } else {
        let a = s1.choose();
        assert(s1.union(s2).remove(a) =~= s1.remove(a).union(s2));
        lemma_disjoint_union_len(s1.remove(a), s2);
        assert(s1.union(s2).contains(a));
    }
}

/// After any sequence of merge steps starting from the identity assignment,
/// two elements share a representative exactly when the argument pairs
/// connect them transitively. This is the correctness statement for any run
/// of `union` calls: each call's effect satisfies `is_merge_step`.
pub proof fn law_union_connectivity(n: int, pairs: Seq<(int, int)>, reps: Seq<Seq<usize>>)
    requires
        n >= 0,
        reps.len() == pairs.len() + 1,
        reps[0].len() == n,
        forall|k: int| 0 <= k < n ==> #[trigger] reps[0][k] as int == k,
        forall|t: int| 0 <= t < pairs.len() ==> 0 <= #[trigger] pairs[t].0 < n && 0 <= pairs[t].1 < n,
        forall|t: int|
            0 <= t < pairs.len() ==> #[trigger] is_merge_step(
                reps[t],
                reps[t + 1],
                pairs[t].0,
                pairs[t].1,
            ),
        forall|t: int| 0 <= t < reps.len() ==> #[trigger] reps[t].len() == n,
    ensures
        forall|i: int, j: int|
            0 <= i < n && 0 <= j < n ==> (reps.last()[i] == reps.last()[j] <==> #[trigger] connected(
                pairs,
                i,
                j,
            )),
    decreases pairs.len(),
{
    if pairs.len() == 0 {
        assert(reps.last() == reps[0]);
    } else {
        let rest = pairs.drop_last();
        let prevreps = reps.drop_last();
        let prev = prevreps.last();
        let cur = reps.last();
        let a = pairs.last().0;
        let b = pairs.last().1;
        law_union_connectivity(n, rest, prevreps);
        assert(prevreps.len() == rest.len() + 1);
        assert(prev == reps[pairs.len() - 1 + 1 - 1]);
        assert(is_merge_step(prev, cur, a, b)) by {
            assert(pairs[pairs.len() - 1] == pairs.last());
            assert(reps[pairs.len() - 1] == prev);
            assert(reps[pairs.len() as int] == cur);
        }
        assert forall|i: int, j: int| 0 <= i < n && 0 <= j < n implies (cur[i] == cur[j]
            <==> #[trigger] connected(pairs, i, j)) by {
            assert(connected(rest, i, a) <==> prev[i] == prev[a]);
            assert(connected(rest, i, b) <==> prev[i] == prev[b]);
            assert(connected(rest, b, j) <==> prev[b] == prev[j]);
            assert(connected(rest, a, j) <==> prev[a] == prev[j]);
            assert(connected(rest, i, j) <==> prev[i] == prev[j]);
            let ra = prev[a];
            let rb = prev[b];
            if ra == rb {
                assert(cur == prev);
            } else {
                assert(cur[i] == if prev[i] == ra || prev[i] == rb {
                    if cur == merged_rep(prev, ra, rb, ra) {
                        ra
                    } else {
                        rb
                    }
                } else {
                    prev[i]
                });
            }
        }
    }
}

/// What well-formedness guarantees of the published views: representatives
/// are in-range fixpoints (so every element resolves, through `find`, to one
/// self-parented root), and each root's recorded size is exactly the number
/// of elements whose representative it is.
pub proof fn law_sizes_are_class_counts(ds: DisjointSet)
    requires
        ds.wf(),
    ensures
        ds.rep_of().len() == ds.len(),
        ds.sizes().len() == ds.len(),
        forall|i: int| 0 <= i < ds.len() ==> (#[trigger] ds.rep_of()[i]) < ds.len(),
        forall|i: int|
            0 <= i < ds.len() ==> #[trigger] ds.rep_of()[ds.rep_of()[i] as int] == ds.rep_of()[i],
        forall|r: int|
            0 <= r < ds.len() && ds.rep_of()[r] as int == r ==> #[trigger] ds.sizes()[r] == class(
                ds.rep_of(),
                r,
            ).len(),
{
}

/// In a well-formed structure the recorded sizes of the distinct roots sum to
/// the number of elements: the classes partition `0..n`.
pub proof fn law_sizes_sum_to_len(ds: DisjointSet)
    requires
        ds.wf(),
    ensures
        root_size_sum(ds.rep_of(), ds.sizes(), ds.len() as int) == ds.len() as int,
{
    let n = ds.len() as int;
    lemma_root_size_sum_counts(ds, n);
    assert(Set::new(|k: int| 0 <= k < n && ds.rep_of()[k] < n) =~= set_int_range(0, n));
    lemma_int_range(0, n);
}

proof fn lemma_root_size_sum_counts(ds: DisjointSet, m: int)
    requires
        ds.wf(),
        0 <= m <= ds.len() as int,
    ensures
        root_size_sum(ds.rep_of(), ds.sizes(), m) == Set::new(
            |k: int| 0 <= k < ds.len() as int && ds.rep_of()[k] < m,
        ).len(),
        Set::new(|k: int| 0 <= k < ds.len() as int && ds.rep_of()[k] < m).finite(),
    decreases m,
{
    let n = ds.len() as int;
    let rep = ds.rep_of();
    let below = |m: int| Set::new(|k: int| 0 <= k < n && rep[k] < m);
    if m == 0 {
        assert(below(0) =~= Set::empty());
    } else {
        lemma_root_size_sum_counts(ds, m - 1);
        if rep[m - 1] as int == m - 1 {
            assert(below(m) =~= below(m - 1).union(class(rep, m - 1)));
            assert(below(m - 1).disjoint(class(rep, m - 1)));
            lemma_class_finite(rep, m - 1);
            lemma_disjoint_union_len(below(m - 1), class(rep, m - 1));
        } else {
            assert forall|k: int| 0 <= k < n && rep[k] < m implies rep[k] < m - 1 by {
                if rep[k] as int == m - 1 {
                    assert(rep[rep[k] as int] == rep[k]);
                }
            }
            assert(below(m) =~= below(m - 1));
        }
    }
}

proof fn lemma_class_finite(rep: Seq<usize>, r: int)
    ensures
        class(rep, r).finite(),
        class(rep, r).len() <= rep.len(),
{
    lemma_int_range(0, rep.len() as int);
    lemma_len_subset(class(rep, r), set_int_range(0, rep.len() as int));
}

} // verus!
