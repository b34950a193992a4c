//! Disjoint sets over `0 .. n` with path compression and union by rank.
//!
//! The abstract content is the representative map carried as a ghost
//! field: two elements are in the same set exactly when their
//! representatives coincide.  `union` reports whether a merge happened,
//! which is precisely the acceptance test for an edge of a spanning
//! tree.

use vstd::prelude::*;
use vstd::set_lib::lemma_int_range;
use vstd::set_lib::lemma_len_subset;
use vstd::set_lib::set_int_range;

verus! {

/// The set of representative roots of `rep`.
pub open spec fn roots_of(rep: Seq<int>, n: int) -> Set<int> {
    Set::new(|j: int| 0 <= j < n && rep[j] == j)
}


/// The forest invariant over the raw parent, rank and representative
/// maps.
spec fn forest_ok(parent: Seq<usize>, rank: Seq<usize>, rep: Seq<int>) -> bool {
    let n = parent.len() as int;
    &&& rank.len() == n
    &&& rep.len() == n
    &&& forall|i: int| 0 <= i < n ==> 0 <= ((#[trigger] parent[i]) as int) < n
    &&& forall|i: int| 0 <= i < n ==> 0 <= #[trigger] rep[i] < n
    &&& forall|i: int| 0 <= i < n ==> rep[parent[i] as int] == #[trigger] rep[i]
    &&& forall|i: int| 0 <= i < n && (#[trigger] parent[i]) as int == i ==> rep[i] == i
    &&& forall|i: int| 0 <= i < n ==> (#[trigger] parent[rep[i]]) as int == rep[i]
    &&& forall|i: int|
        0 <= i < n && ((#[trigger] parent[i]) as int) != i ==> (rank[i] as int) < (rank[parent[i] as int] as int)
    &&& forall|i: int|
        0 <= i < n ==> ((#[trigger] rank[i]) as int) + roots_of(rep, n).len() <= n
}

/// Two distinct roots put at least two elements into the root set.
proof fn lemma_two_roots(rep: Seq<int>, n: int, winner: int, loser: int)
    requires
        rep.len() == n,
        0 <= winner < n,
        0 <= loser < n,
        winner != loser,
        rep[winner] == winner,
        rep[loser] == loser,
    ensures
        roots_of(rep, n).finite(),
        roots_of(rep, n).len() >= 2,
{
    let rts = roots_of(rep, n);
    assert(rts.subset_of(set_int_range(0, n)));
    lemma_int_range(0, n);
    lemma_len_subset(rts, set_int_range(0, n));
    assert(rts.contains(winner) && rts.contains(loser));
    assert(rts.len() == rts.remove(loser).len() + 1);
    assert(rts.remove(loser).contains(winner));
    assert(rts.remove(loser).len() == rts.remove(loser).remove(winner).len() + 1);
}

/// Re-pointing the losing root at the winning root (raising the winner
/// on ties) preserves the forest invariant, and merges exactly the two
/// classes.
#[verifier::rlimit(100)]
proof fn lemma_union_preserves(
    parent0: Seq<usize>,
    rank0: Seq<usize>,
    rep0: Seq<int>,
    parent1: Seq<usize>,
    rank1: Seq<usize>,
    rep1: Seq<int>,
    winner: int,
    loser: int,
    tie: bool,
)
    requires
        forest_ok(parent0, rank0, rep0),
        parent0.len() <= usize::MAX,
        0 <= winner < parent0.len(),
        0 <= loser < parent0.len(),
        winner != loser,
        rep0[winner] == winner,
        rep0[loser] == loser,
        if tie {
            rank0[loser] == rank0[winner]
        } else {
            (rank0[loser] as int) < (rank0[winner] as int)
        },
        parent1 == parent0.update(loser, winner as usize),
        rank1 == if tie {
            rank0.update(winner, ((rank0[winner] + 1) as usize))
        } else {
            rank0
        },
        rep1 == Seq::new(parent0.len() as nat, |i: int| if rep0[i] == loser {
            winner
        } else {
            rep0[i]
        }),
    ensures
        forest_ok(parent1, rank1, rep1),
        forall|i: int, j: int|
            #![trigger rep1[i], rep1[j]]
            0 <= i < parent0.len() && 0 <= j < parent0.len() ==> (rep1[i] == rep1[j] <==> (rep0[i]
                == rep0[j] || (rep0[i] == winner && rep0[j] == loser) || (rep0[i] == loser
                && rep0[j] == winner))),
{
    let n = parent0.len() as int;
    lemma_two_roots(rep0, n, winner, loser);
    assert(roots_of(rep1, n) =~= roots_of(rep0, n).remove(loser));
    assert(roots_of(rep0, n).len() == roots_of(rep1, n).len() + 1);
    assert((rank0[winner] as int) + 2 <= n);
    assert(((rank0[winner] + 1) as usize) as int == (rank0[winner] as int) + 1);
    assert forall|i: int|
        0 <= i < n implies rep1[parent1[i] as int] == #[trigger] rep1[i] by {
        assert(0 <= rep0[i] < n);
        if i == loser {
        } else {
            assert(parent1[i] == parent0[i]);
            assert(rep0[parent0[i] as int] == rep0[i]);
        }
    };
    assert forall|i: int|
        0 <= i < n implies (#[trigger] parent1[rep1[i]]) as int == rep1[i] by {
        assert(0 <= rep0[i] < n);
        if rep0[i] == loser {
            assert(rep1[i] == winner);
            assert(parent0[winner] as int == winner);
        } else {
            assert(rep1[i] == rep0[i]);
            assert(parent0[rep0[i]] as int == rep0[i]);
        }
    };
    assert forall|i: int|
        0 <= i < n && ((#[trigger] parent1[i]) as int) != i implies (rank1[i] as int) < (
    rank1[parent1[i] as int] as int) by {
        if i == loser {
            assert(parent1[i] as int == winner);
            assert(rank1[loser] == rank0[loser]);
            if tie {
                assert((rank1[winner] as int) == (rank0[winner] as int) + 1);
            } else {
                assert(rank1[winner] == rank0[winner]);
            }
        } else {
            assert(parent1[i] == parent0[i]);
            assert((rank0[i] as int) < (rank0[parent0[i] as int] as int));
            if tie && i == winner {
                assert(parent0[winner] as int == winner);
            }
        }
    };
    assert forall|i: int|
        0 <= i < n implies ((#[trigger] rank1[i]) as int) + roots_of(rep1, n).len() <= n by {
        assert((rank0[i] as int) + roots_of(rep0, n).len() <= n);
    };
    assert forall|i: int, j: int|
        #![trigger rep1[i], rep1[j]]
        0 <= i < n && 0 <= j < n implies (rep1[i] == rep1[j] <==> (rep0[i] == rep0[j] || (rep0[i]
            == winner && rep0[j] == loser) || (rep0[i] == loser && rep0[j] == winner))) by {
        assert(0 <= rep0[i] < n && 0 <= rep0[j] < n);
    };
}

/// A disjoint-set forest over `0 .. n`.
pub struct UnionFind {
    parent: Vec<usize>,
    rank: Vec<usize>,
    rep: Ghost<Seq<int>>,
}

impl UnionFind {
    /// The number of elements.
    pub closed spec fn spec_len(self) -> int {
        self.parent@.len() as int
    }

    /// The representative of element `i`.
    pub closed spec fn rep_of(self, i: int) -> int {
        self.rep@[i]
    }

    /// The number of disjoint sets currently held.
    pub closed spec fn class_count(self) -> nat {
        roots_of(self.rep@, self.spec_len()).len()
    }

    /// Whether two elements currently belong to the same set.
    pub open spec fn same_set_spec(self, a: int, b: int) -> bool {
        self.rep_of(a) == self.rep_of(b)
    }

    /// The forest invariant: parents and representatives agree, parent
    /// chains strictly climb in rank, every representative is a root,
    /// and ranks leave room for the remaining roots.
    pub closed spec fn wf(self) -> bool {
        forest_ok(self.parent@, self.rank@, self.rep@)
    }

    /// A fresh structure of `n` singleton sets.
    pub fn new(n: usize) -> (r: UnionFind)
        ensures
            r.wf(),
            r.spec_len() == n,
            r.class_count() == n,
            forall|i: int| 0 <= i < n ==> r.rep_of(i) == i,
    {
        let mut parent: Vec<usize> = Vec::new();
        let mut rank: Vec<usize> = Vec::new();
        let mut i: usize = 0;
        while i < n
            invariant
                i <= n,
                parent@.len() == i,
                rank@.len() == i,
                forall|j: int| 0 <= j < i ==> (#[trigger] parent@[j]) as int == j,
                forall|j: int| 0 <= j < i ==> (#[trigger] rank@[j]) as int == 0,
            decreases n - i,
        {
            parent.push(i);
            rank.push(0);
            i = i + 1;
        }
        let rep = Ghost(Seq::new(n as nat, |j: int| j));
        let r = UnionFind { parent, rank, rep };
        proof {
            let rn = n as int;
            assert(roots_of(r.rep@, rn) =~= set_int_range(0, rn));
            if n > 0 {
                lemma_int_range(0, rn);
            } else {
                assert(roots_of(r.rep@, rn) =~= Set::<int>::empty());
            }
        }
        r
    }

    /// In a well-formed forest a non-root element ranks strictly below
    /// its representative.
    proof fn lemma_rank_below_root(self, c: int)
        requires
            self.wf(),
            0 <= c < self.spec_len(),
            self.rep@[c] != c,
        ensures
            (self.rank@[c] as int) < (self.rank@[self.rep@[c]] as int),
        decreases self.spec_len() - self.rank@[c],
    {
        let p = self.parent@[c] as int;
        assert(p != c);
        if p == self.rep@[c] {
        } else {
            assert(self.rep@[p] == self.rep@[c]);
            self.lemma_rank_below_root(p);
        }
    }

    /// The representative of `i`, with full path compression: every
    /// element on the walk is re-pointed at the root.
    #[verifier::rlimit(100)]
    pub fn find(&mut self, i: usize) -> (r: usize)
        requires
            old(self).wf(),
            (i as int) < old(self).spec_len(),
        ensures
            final(self).wf(),
            final(self).spec_len() == old(self).spec_len(),
            final(self).class_count() == old(self).class_count(),
            forall|j: int|
                0 <= j < old(self).spec_len() ==> final(self).rep_of(j) == old(self).rep_of(j),
            r as int == old(self).rep_of(i as int),
    {
        let ghost n = self.spec_len();
        let mut cur = i;
        while self.parent[cur] != cur
            invariant
                self.wf(),
                (cur as int) < n,
                n == self.spec_len(),
                self.rep@[cur as int] == self.rep@[i as int],
            decreases self.spec_len() - self.rank@[cur as int],
        {
            cur = self.parent[cur];
        }
        let root = cur;
        proof {
            assert(self.rep@[root as int] == root as int);
        }
        let mut c = i;
        while self.parent[c] != c
            invariant
                self.wf(),
                (c as int) < n,
                n == self.spec_len(),
                self.rep@ == old(self).rep@,
                self.rank@ == old(self).rank@,
                self.rep@[c as int] == self.rep@[i as int],
                root as int == self.rep@[i as int],
                self.parent@[root as int] as int == root as int,
            decreases self.spec_len() - self.rank@[c as int],
        {
            let next = self.parent[c];
            let ghost before = *self;
            self.parent.set(c, root);
            proof {
                assert(self.rep@[c as int] != c as int) by {
                    if self.rep@[c as int] == c as int {
                        assert(before.parent@[self.rep@[c as int]] as int == self.rep@[c as int]);
                    }
                };
                before.lemma_rank_below_root(c as int);
                assert forall|j: int|
                    0 <= j < n && ((#[trigger] self.parent@[j]) as int) != j implies (
                self.rank@[j] as int) < (self.rank@[self.parent@[j] as int] as int) by {
                    if j != c as int {
                        assert(before.parent@[j] == self.parent@[j]);
                    }
                };
            }
            c = next;
        }
        root
    }

    /// Whether two elements are in the same set; compresses both walks.
    pub fn same_set(&mut self, a: usize, b: usize) -> (r: bool)
        requires
            old(self).wf(),
            (a as int) < old(self).spec_len(),
            (b as int) < old(self).spec_len(),
        ensures
            final(self).wf(),
            final(self).spec_len() == old(self).spec_len(),
            final(self).class_count() == old(self).class_count(),
            forall|j: int|
                0 <= j < old(self).spec_len() ==> final(self).rep_of(j) == old(self).rep_of(j),
            r == old(self).same_set_spec(a as int, b as int),
    {
        let ra = self.find(a);
        let rb = self.find(b);
        ra == rb
    }

    /// Re-points the losing of two distinct roots at the winning one,
    /// by rank, raising the winner on ties.
    #[verifier::rlimit(100)]
    fn merge_roots(&mut self, ra: usize, rb: usize)
        requires
            old(self).wf(),
            (ra as int) < old(self).spec_len(),
            (rb as int) < old(self).spec_len(),
            ra != rb,
            old(self).rep_of(ra as int) == ra as int,
            old(self).rep_of(rb as int) == rb as int,
        ensures
            final(self).wf(),
            final(self).spec_len() == old(self).spec_len(),
            final(self).class_count() + 1 == old(self).class_count(),
            forall|i: int, j: int|
                0 <= i < old(self).spec_len() && 0 <= j < old(self).spec_len()
                    ==> (#[trigger] final(self).same_set_spec(i, j) <==> (old(self).same_set_spec(
                    i,
                    j,
                ) || (old(self).same_set_spec(i, ra as int) && old(self).same_set_spec(
                    j,
                    rb as int,
                )) || (old(self).same_set_spec(i, rb as int) && old(self).same_set_spec(
                    j,
                    ra as int,
                )))),
    {
        let ghost n = self.spec_len();
        let ghost rep0 = self.rep@;
        let n_exec = self.parent.len();
        let tie = self.rank[ra] == self.rank[rb];
        let winner: usize;
        let loser: usize;
        if self.rank[ra] < self.rank[rb] {
            winner = rb;
            loser = ra;
        } else {
            winner = ra;
            loser = rb;
        }
        let ghost before = *self;
        proof {
            assert(n == n_exec as int);
            lemma_two_roots(rep0, n, winner as int, loser as int);
            assert((self.rank@[winner as int] as int) + 2 <= n);
        }
        self.parent.set(loser, winner);
        if tie {
            let new_rank = self.rank[winner] + 1;
            self.rank.set(winner, new_rank);
        }
        proof {
            let rep1 = Seq::new(n as nat, |i: int| if rep0[i] == loser as int {
                winner as int
            } else {
                rep0[i]
            });
            self.rep = Ghost(rep1);
            lemma_union_preserves(
                before.parent@,
                before.rank@,
                rep0,
                self.parent@,
                self.rank@,
                rep1,
                winner as int,
                loser as int,
                tie,
            );
            lemma_two_roots(rep0, n, winner as int, loser as int);
            assert(roots_of(rep1, n) =~= roots_of(rep0, n).remove(loser as int));
        }
    }

    /// Merges the sets of `a` and `b` by rank, breaking ties by raising
    /// the surviving root.  Returns whether a merge occurred, that is,
    /// whether the two elements were in different sets before the call.
    /// Afterward two elements share a set exactly when they did before
    /// or they straddled the two merged sets.
    #[verifier::rlimit(100)]
    pub fn union(&mut self, a: usize, b: usize) -> (r: bool)
        requires
            old(self).wf(),
            (a as int) < old(self).spec_len(),
            (b as int) < old(self).spec_len(),
        ensures
            final(self).wf(),
            final(self).spec_len() == old(self).spec_len(),
            r == !old(self).same_set_spec(a as int, b as int),
            r ==> final(self).class_count() + 1 == old(self).class_count(),
            !r ==> final(self).class_count() == old(self).class_count(),
            forall|i: int, j: int|
                0 <= i < old(self).spec_len() && 0 <= j < old(self).spec_len()
                    ==> (#[trigger] final(self).same_set_spec(i, j) <==> (old(self).same_set_spec(
                    i,
                    j,
                ) || (old(self).same_set_spec(i, a as int) && old(self).same_set_spec(
                    j,
                    b as int,
                )) || (old(self).same_set_spec(i, b as int) && old(self).same_set_spec(
                    j,
                    a as int,
                )))),
    {
        let ghost n = self.spec_len();
        let ra = self.find(a);
        let rb = self.find(b);
        if ra == rb {
            return false;
        }
        proof {
            assert(self.rep_of(ra as int) == ra as int);
            assert(self.rep_of(rb as int) == rb as int);
        }
        let ghost mid = *self;
        self.merge_roots(ra, rb);
        proof {
            assert forall|i: int, j: int|
                0 <= i < n && 0 <= j < n implies (#[trigger] self.same_set_spec(i, j) <==> (old(
                self,
            ).same_set_spec(i, j) || (old(self).same_set_spec(i, a as int) && old(
                self,
            ).same_set_spec(j, b as int)) || (old(self).same_set_spec(i, b as int) && old(
                self,
            ).same_set_spec(j, a as int)))) by {
                assert(self.same_set_spec(i, j) <==> (mid.same_set_spec(i, j) || (
                mid.same_set_spec(i, ra as int) && mid.same_set_spec(j, rb as int)) || (
                mid.same_set_spec(i, rb as int) && mid.same_set_spec(j, ra as int))));
                assert(mid.rep_of(i) == old(self).rep_of(i));
                assert(mid.rep_of(j) == old(self).rep_of(j));
                assert(mid.rep_of(ra as int) == ra as int && mid.rep_of(rb as int) == rb as int);
                assert(old(self).rep_of(a as int) == ra as int);
                assert(old(self).rep_of(b as int) == rb as int);
            };
        }
        true
    }
}

/// When every element shares a set with element zero, exactly one set
/// remains.
pub proof fn lemma_single_class(uf: UnionFind)
    requires
        uf.wf(),
        uf.spec_len() >= 1,
        forall|i: int| 0 <= i < uf.spec_len() ==> #[trigger] uf.same_set_spec(i, 0),
    ensures
        uf.class_count() == 1,
{
    let n = uf.spec_len();
    let rep = uf.rep@;
    let r0 = rep[0];
    assert(uf.same_set_spec(r0, 0));
    assert(roots_of(rep, n) =~= Set::<int>::empty().insert(r0)) by {
        assert(0 <= r0 < n);
        assert(rep[r0] == r0) by {
            assert(uf.same_set_spec(0, 0));
        };
        assert forall|j: int| roots_of(rep, n).contains(j) implies j == r0 by {
            assert(uf.same_set_spec(j, 0));
        };
    };
    assert(Set::<int>::empty().insert(r0).len() == 1);
}

} // verus!
