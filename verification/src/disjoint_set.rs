//! Disjoint-set forest with path compression and union by rank.

use vstd::prelude::*;

verus! {

/// The mathematical content of a disjoint-set forest: one parent pointer and
/// one rank per element.
pub struct Forest {
    pub parent: Seq<usize>,
    pub rank: Seq<usize>,
}

impl Forest {
    /// The forest of `n` singletons.
    pub open spec fn fresh(n: nat) -> Forest {
        Forest { parent: Seq::new(n, |i: int| i as usize), rank: Seq::new(n, |i: int| 0usize) }
    }

    /// The number of elements.
    pub open spec fn len(self) -> nat {
        self.parent.len()
    }

    /// `i` is an element of the forest.
    pub open spec fn has(self, i: int) -> bool {
        0 <= i < self.parent.len()
    }

    /// The elements that are their own parent.
    pub open spec fn roots(self) -> Set<int> {
        Set::new(|i: int| 0 <= i < self.parent.len() && self.parent[i] as int == i)
    }

    /// Parent pointers stay in range and lead to strictly higher ranks, so
    /// every chain of parents ends; ranks are bounded by the number of
    /// elements that are no longer roots.
    pub open spec fn wf(self) -> bool {
        &&& self.rank.len() == self.parent.len()
        &&& self.parent.len() <= usize::MAX
        &&& forall|i: int| 0 <= i < self.parent.len() ==> (#[trigger] self.parent[i]) < self.parent.len()
        &&& forall|i: int|
            0 <= i < self.parent.len() && self.parent[i] as int != i ==> (#[trigger] self.rank[i])
                < self.rank[self.parent[i] as int]
        &&& forall|i: int|
            0 <= i < self.parent.len() ==> (#[trigger] self.rank[i]) + self.roots().len()
                <= self.parent.len()
    }

    /// The representative of the set that holds `x`.
    pub open spec fn root(self, x: int) -> int
        decreases usize::MAX - self.rank[x],
        when self.wf() && self.has(x)
    {
        if self.parent[x] as int == x {
            x
        } else {
            self.root(self.parent[x] as int)
        }
    }

    /// Whether `y` lies on the chain of parents that starts at `x`.
    pub open spec fn on_path(self, x: int, y: int) -> bool
        decreases usize::MAX - self.rank[x],
        when self.wf() && self.has(x)
    {
        y == x || (self.parent[x] as int != x && self.on_path(self.parent[x] as int, y))
    }

    /// `a` and `b` have the same representative.
    pub open spec fn same_set(self, a: int, b: int) -> bool {
        self.root(a) == self.root(b)
    }

    /// The forest after a lookup of `x`: every element on the chain from `x`
    /// points straight at the representative.
    pub open spec fn compress(self, x: int) -> Forest {
        Forest {
            parent: Seq::new(
                self.parent.len(),
                |i: int|
                    if self.on_path(x, i) {
                        self.root(x) as usize
                    } else {
                        self.parent[i]
                    },
            ),
            rank: self.rank,
        }
    }

    /// The representative that survives when the sets of roots `a` and `b`
    /// are merged: the one of higher rank, and `a` on a tie.
    pub open spec fn winner(self, a: int, b: int) -> int {
        if self.rank[a] < self.rank[b] {
            b
        } else {
            a
        }
    }

    /// The representative that goes under the other one when the sets of
    /// the roots `a` and `b` are merged.
    pub open spec fn loser(self, a: int, b: int) -> int {
        if self.rank[a] < self.rank[b] {
            a
        } else {
            b
        }
    }

    /// Hangs the root of lower rank under the other one; on a tie `b` goes
    /// under `a`, whose rank grows by one.
    pub open spec fn link(self, a: int, b: int) -> Forest {
        if a == b {
            self
        } else if self.rank[a] < self.rank[b] {
            Forest { parent: self.parent.update(a, b as usize), rank: self.rank }
        } else if self.rank[a] > self.rank[b] {
            Forest { parent: self.parent.update(b, a as usize), rank: self.rank }
        } else {
            Forest {
                parent: self.parent.update(b, a as usize),
                rank: self.rank.update(a, (self.rank[a] + 1) as usize),
            }
        }
    }

    /// The forest after the sets of `x` and `y` are merged.
    pub open spec fn union(self, x: int, y: int) -> Forest {
        self.compress(x).compress(y).link(self.root(x), self.root(y))
    }

    /// Only elements are roots, so there are no more roots than elements.
    pub proof fn lemma_roots_finite(self)
        ensures
            self.roots().finite(),
            self.roots().len() <= self.parent.len(),
    {
        let r = Set::new(|i: int| 0 <= i < self.parent.len());
        vstd::set_lib::lemma_int_range(0, self.parent.len() as int);
        assert(r =~= vstd::set_lib::set_int_range(0, self.parent.len() as int));
        assert(self.roots().subset_of(r));
        vstd::set_lib::lemma_len_subset(self.roots(), r);
    }

    /// In the forest of singletons every element represents itself.
    pub proof fn lemma_fresh(n: nat)
        requires
            n <= usize::MAX,
        ensures
            Forest::fresh(n).wf(),
            Forest::fresh(n).len() == n,
            forall|a: int| 0 <= a < n ==> #[trigger] Forest::fresh(n).root(a) == a,
    {
        Forest::fresh(n).lemma_roots_finite();
    }

    /// The representative is an element, is its own parent, and ranks at
    /// least as high as the element it was found from.
    pub proof fn lemma_root(self, x: int)
        requires
            self.wf(),
            self.has(x),
        ensures
            self.has(self.root(x)),
            self.parent[self.root(x)] as int == self.root(x),
            self.rank[x] <= self.rank[self.root(x)],
            self.root(x) != x ==> self.rank[x] < self.rank[self.root(x)],
            self.root(self.root(x)) == self.root(x),
            self.on_path(x, self.root(x)),
        decreases usize::MAX - self.rank[x],
    {
        if self.parent[x] as int != x {
            self.lemma_root(self.parent[x] as int);
        }
    }

    /// Whatever lies on the chain from `x` is an element of the same set and
    /// of rank no lower than `x`.
    pub proof fn lemma_on_path(self, x: int, y: int)
        requires
            self.wf(),
            self.has(x),
            self.on_path(x, y),
        ensures
            self.has(y),
            self.root(y) == self.root(x),
            self.rank[x] <= self.rank[y],
            y != x ==> self.rank[x] < self.rank[y],
        decreases usize::MAX - self.rank[x],
    {
        if y != x {
            self.lemma_on_path(self.parent[x] as int, y);
        }
    }

    /// The chain from `x` goes on from each of its elements to the parent.
    pub proof fn lemma_path_step(self, x: int, y: int)
        requires
            self.wf(),
            self.has(x),
            self.on_path(x, y),
        ensures
            self.has(y),
            self.on_path(x, self.parent[y] as int),
        decreases usize::MAX - self.rank[x],
    {
        self.lemma_on_path(x, y);
        if y != x {
            self.lemma_path_step(self.parent[x] as int, y);
        } else if self.parent[x] as int != x {
            assert(self.on_path(self.parent[x] as int, self.parent[x] as int));
        }
    }

    /// An element that represents its own set is its own parent.
    pub proof fn lemma_self_root(self, x: int)
        requires
            self.wf(),
            self.has(x),
            self.root(x) == x,
        ensures
            self.parent[x] as int == x,
    {
        if self.parent[x] as int != x {
            self.lemma_root(self.parent[x] as int);
        }
    }

    /// A lookup keeps the forest well formed and moves no element to another
    /// set.
    pub proof fn lemma_compress(self, x: int)
        requires
            self.wf(),
            self.has(x),
        ensures
            self.compress(x).wf(),
            self.compress(x).len() == self.len(),
            forall|y: int| self.has(y) ==> #[trigger] self.compress(x).root(y) == self.root(y),
    {
        let c = self.compress(x);
        let r = self.root(x);
        self.lemma_root(x);
        assert forall|i: int| 0 <= i < c.parent.len() implies (#[trigger] c.parent[i])
            < c.parent.len() by {}
        assert forall|i: int| 0 <= i < c.parent.len() && c.parent[i] as int != i implies (
        #[trigger] c.rank[i]) < c.rank[c.parent[i] as int] by {
            if self.on_path(x, i) {
                self.lemma_on_path(x, i);
                self.lemma_root(i);
            }
        }
        assert(c.roots() =~= self.roots()) by {
            assert forall|i: int| c.roots().contains(i) <==> self.roots().contains(i) by {
                if 0 <= i < self.parent.len() && self.on_path(x, i) {
                    self.lemma_on_path(x, i);
                    self.lemma_root(i);
                }
            }
        }
        assert(c.wf());
        assert forall|y: int| self.has(y) implies #[trigger] c.root(y) == self.root(y) by {
            self.lemma_compress_root(x, y);
        }
    }

    proof fn lemma_compress_root(self, x: int, y: int)
        requires
            self.wf(),
            self.has(x),
            self.has(y),
            self.compress(x).wf(),
        ensures
            self.compress(x).root(y) == self.root(y),
        decreases usize::MAX - self.rank[y],
    {
        let c = self.compress(x);
        self.lemma_root(x);
        self.lemma_root(y);
        if self.on_path(x, y) {
            self.lemma_on_path(x, y);
            let r = self.root(x);
            assert(self.on_path(x, r));
            assert(c.parent[r] as int == r);
            assert(c.root(r) == r);
            if y != r {
                assert(c.parent[y] as int == r);
                assert(c.root(y) == c.root(r));
            }
        } else {
            if self.parent[y] as int != y {
                self.lemma_compress_root(x, self.parent[y] as int);
            }
        }
    }

    /// Linking two representatives keeps the forest well formed and moves
    /// exactly the loser's set under the winner.
    pub proof fn lemma_link(self, a: int, b: int)
        requires
            self.wf(),
            self.has(a),
            self.has(b),
            self.parent[a] as int == a,
            self.parent[b] as int == b,
        ensures
            self.link(a, b).wf(),
            self.link(a, b).len() == self.len(),
            forall|z: int|
                self.has(z) ==> #[trigger] self.link(a, b).root(z) == if self.root(z)
                    == self.loser(a, b) {
                    self.winner(a, b)
                } else {
                    self.root(z)
                },
    {
        let l = self.link(a, b);
        let w = self.winner(a, b);
        let lo = self.loser(a, b);
        self.lemma_roots_finite();
        if a != b {
            assert(l.roots() =~= self.roots().remove(lo));
            assert(self.roots().contains(lo));
            assert(self.roots().remove(lo).contains(w));
            assert(self.roots().len() >= 2);
            assert(l.roots().len() == self.roots().len() - 1);
            assert(self.rank[a] + self.roots().len() <= self.parent.len());
            assert(self.rank[a] + 1 < usize::MAX);
            assert(l.parent[lo] as int == w);
            assert(l.rank[lo] < l.rank[w]);
            assert forall|i: int| 0 <= i < l.parent.len() implies (#[trigger] l.parent[i])
                < l.parent.len() by {
                if i != lo {
                    assert(l.parent[i] == self.parent[i]);
                }
            }
            assert forall|i: int| 0 <= i < l.parent.len() && l.parent[i] as int != i implies (
            #[trigger] l.rank[i]) < l.rank[l.parent[i] as int] by {
                if i != lo {
                    let p = self.parent[i] as int;
                    assert(l.parent[i] == self.parent[i]);
                    assert(i != a && i != b);
                    assert(l.rank[i] == self.rank[i]);
                    assert(self.rank[i] < self.rank[p]);
                    assert(l.rank[p] >= self.rank[p]);
                }
            }
            assert forall|i: int| 0 <= i < l.parent.len() implies (#[trigger] l.rank[i])
                + l.roots().len() <= l.parent.len() by {
                assert(self.rank[i] + self.roots().len() <= self.parent.len());
                assert(l.rank[i] <= self.rank[i] + 1);
            }
            assert(l.wf());
        }
        assert forall|z: int| self.has(z) implies #[trigger] l.root(z) == if self.root(z) == lo {
            w
        } else {
            self.root(z)
        } by {
            self.lemma_link_root(a, b, z);
        }
    }

    proof fn lemma_link_root(self, a: int, b: int, z: int)
        requires
            self.wf(),
            self.has(a),
            self.has(b),
            self.has(z),
            self.parent[a] as int == a,
            self.parent[b] as int == b,
            self.link(a, b).wf(),
        ensures
            self.link(a, b).root(z) == if self.root(z) == self.loser(a, b) {
                self.winner(a, b)
            } else {
                self.root(z)
            },
        decreases usize::MAX - self.rank[z],
    {
        let l = self.link(a, b);
        let w = self.winner(a, b);
        let lo = self.loser(a, b);
        if a == b {
        } else if self.parent[z] as int != z {
            assert(l.parent[z] == self.parent[z]);
            self.lemma_link_root(a, b, self.parent[z] as int);
        } else if z == lo {
            assert(l.parent[z] as int == w);
            assert(l.parent[w] as int == w);
            assert(l.root(w) == w);
        } else {
            assert(l.parent[z] as int == z);
        }
    }

    /// Merging keeps the forest well formed; afterwards two elements share a
    /// set exactly if they did before or the merge joined their sets.
    pub proof fn lemma_union(self, x: int, y: int)
        requires
            self.wf(),
            self.has(x),
            self.has(y),
        ensures
            self.union(x, y).wf(),
            self.union(x, y).len() == self.len(),
            forall|a: int, b: int|
                self.has(a) && self.has(b) ==> (#[trigger] self.union(x, y).same_set(a, b) <==> {
                    ||| self.same_set(a, b)
                    ||| (self.same_set(a, x) && self.same_set(y, b))
                    ||| (self.same_set(a, y) && self.same_set(x, b))
                }),
    {
        let c1 = self.compress(x);
        self.lemma_compress(x);
        let c2 = c1.compress(y);
        c1.lemma_compress(y);
        let rx = self.root(x);
        let ry = self.root(y);
        self.lemma_root(x);
        self.lemma_root(y);
        assert(c2.root(rx) == rx && c2.root(ry) == ry) by {
            assert(c1.root(rx) == self.root(rx));
            assert(c2.root(rx) == c1.root(rx));
            assert(c1.root(ry) == self.root(ry));
            assert(c2.root(ry) == c1.root(ry));
        }
        c2.lemma_root(rx);
        c2.lemma_root(ry);
        c2.lemma_self_root(rx);
        c2.lemma_self_root(ry);
        c2.lemma_link(rx, ry);
        let u = self.union(x, y);
        assert forall|a: int, b: int| self.has(a) && self.has(b) implies (#[trigger] u.same_set(
            a,
            b,
        ) <==> {
            ||| self.same_set(a, b)
            ||| (self.same_set(a, x) && self.same_set(y, b))
            ||| (self.same_set(a, y) && self.same_set(x, b))
        }) by {
            assert(c1.root(a) == self.root(a));
            assert(c2.root(a) == c1.root(a));
            assert(c1.root(b) == self.root(b));
            assert(c2.root(b) == c1.root(b));
            assert(u.root(a) == c2.link(rx, ry).root(a));
            assert(u.root(b) == c2.link(rx, ry).root(b));
        }
    }
}

/// Disjoint-set forest over the elements `0..n`.
///
/// `parent[i]` is the parent of `i`; an element that is its own parent
/// represents its set. `rank[i]` bounds the height of the tree below `i`.
pub struct DisjointSet {
    pub parent: Vec<usize>,
    pub rank: Vec<usize>,
}

impl View for DisjointSet {
    type V = Forest;

    open spec fn view(&self) -> Forest {
        Forest { parent: self.parent@, rank: self.rank@ }
    }
}

impl DisjointSet {
    /// Creates the forest in which each of `n` elements is alone in its set.
    pub fn new(n: usize) -> (ds: Self)
        ensures
            ds@ == Forest::fresh(n as nat),
            ds@.wf(),
    {
        let mut parent: Vec<usize> = Vec::new();
        let mut rank: Vec<usize> = Vec::new();
        let mut i: usize = 0;
        while i < n
            invariant
                i <= n,
                parent@.len() == i,
                rank@.len() == i,
                forall|j: int| 0 <= j < i ==> parent@[j] == j as usize,
                forall|j: int| 0 <= j < i ==> rank@[j] == 0usize,
            decreases n - i,
        {
            parent.push(i);
            rank.push(0);
            i += 1;
        }
        let ds = DisjointSet { parent, rank };
        proof {
            assert(ds@.parent =~= Forest::fresh(n as nat).parent);
            assert(ds@.rank =~= Forest::fresh(n as nat).rank);
            Forest::lemma_fresh(n as nat);
        }
        ds
    }

    /// Returns the representative of the set of `x`, and points every
    /// element met on the way straight at it.
    pub fn find(&mut self, x: usize) -> (r: usize)
        requires
            old(self)@.wf(),
            x < old(self)@.len(),
        ensures
            r == old(self)@.root(x as int),
            final(self)@ == old(self)@.compress(x as int),
            final(self)@.wf(),
            final(self)@.len() == old(self)@.len(),
            forall|y: int| old(self)@.has(y) ==> #[trigger] final(self)@.root(y) == old(self)@.root(y),
    {
        let ghost f = self@;
        let mut r: usize = x;
        proof {
            f.lemma_root(x as int);
        }
        while self.parent[r] != r
            invariant
                self@ == f,
                f.wf(),
                r < f.len(),
                f.root(r as int) == f.root(x as int),
            decreases usize::MAX - f.rank[r as int],
        {
            r = self.parent[r];
        }
        let mut cur: usize = x;
        while cur != r
            invariant
                f.wf(),
                x < f.len(),
                r < f.len(),
                cur < f.len(),
                r as int == f.root(x as int),
                f.on_path(x as int, cur as int),
                self.rank@ == f.rank,
                self.parent@.len() == f.parent.len(),
                forall|i: int|
                    0 <= i < f.parent.len() ==> #[trigger] self.parent@[i] == if f.on_path(
                        x as int,
                        i,
                    ) && !f.on_path(cur as int, i) {
                        r
                    } else {
                        f.parent[i]
                    },
            decreases usize::MAX - f.rank[cur as int],
        {
            let next = self.parent[cur];
            proof {
                f.lemma_on_path(x as int, cur as int);
                f.lemma_root(cur as int);
                assert(f.parent[cur as int] == next);
                assert(next != cur);
                assert(f.on_path(x as int, next as int)) by {
                    f.lemma_path_step(x as int, cur as int);
                }
                assert forall|i: int| f.on_path(next as int, i) implies i != cur by {
                    f.lemma_on_path(next as int, i);
                }
            }
            self.parent[cur] = r;
            cur = next;
        }
        proof {
            let c = f.compress(x as int);
            assert forall|i: int| 0 <= i < f.parent.len() implies self.parent@[i] == c.parent[i] by {
                if f.on_path(r as int, i) {
                    f.lemma_root(x as int);
                    assert(i == r);
                }
            }
            assert(self.parent@ =~= c.parent);
            f.lemma_compress(x as int);
        }
        r
    }

    /// Hangs one of the representatives `a` and `b` under the other.
    fn link(&mut self, a: usize, b: usize)
        requires
            old(self)@.wf(),
            a < old(self)@.len(),
            b < old(self)@.len(),
            old(self)@.parent[a as int] == a,
            old(self)@.parent[b as int] == b,
        ensures
            final(self)@ == old(self)@.link(a as int, b as int),
    {
        let ghost f = self@;
        if a != b {
            proof {
                f.lemma_roots_finite();
                assert(f.roots().contains(a as int));
                assert(f.roots().remove(a as int).contains(b as int));
                assert(f.roots().len() >= 2);
                assert(f.rank[a as int] + f.roots().len() <= f.parent.len());
            }
            if self.rank[a] < self.rank[b] {
                self.parent[a] = b;
            } else if self.rank[a] > self.rank[b] {
                self.parent[b] = a;
            } else {
                self.parent[b] = a;
                self.rank[a] += 1;
            }
        }
        proof {
            let l = f.link(a as int, b as int);
            assert(self@.parent =~= l.parent);
            assert(self@.rank =~= l.rank);
        }
    }

    /// Merges the sets of `x` and `y`.
    ///
    /// The representative of lower rank goes under the other one. On a tie
    /// the representative of `y` goes under that of `x`, whose rank grows by
    /// one.
    pub fn union(&mut self, x: usize, y: usize)
        requires
            old(self)@.wf(),
            x < old(self)@.len(),
            y < old(self)@.len(),
        ensures
            final(self)@ == old(self)@.union(x as int, y as int),
            final(self)@.wf(),
            final(self)@.len() == old(self)@.len(),
            forall|a: int, b: int|
                old(self)@.has(a) && old(self)@.has(b) ==> (#[trigger] final(self)@.same_set(a, b) <==> {
                    ||| old(self)@.same_set(a, b)
                    ||| (old(self)@.same_set(a, x as int) && old(self)@.same_set(y as int, b))
                    ||| (old(self)@.same_set(a, y as int) && old(self)@.same_set(x as int, b))
                }),
    {
        let ghost f = self@;
        let x_root = self.find(x);
        let ghost c1 = self@;
        let y_root = self.find(y);
        let ghost c2 = self@;
        proof {
            f.lemma_union(x as int, y as int);
            f.lemma_root(x as int);
            f.lemma_root(y as int);
            assert(c1.root(y as int) == f.root(y as int));
            assert(c1.root(x_root as int) == f.root(x_root as int));
            assert(c2.root(x_root as int) == c1.root(x_root as int));
            assert(c1.root(y_root as int) == f.root(y_root as int));
            assert(c2.root(y_root as int) == c1.root(y_root as int));
            c2.lemma_self_root(x_root as int);
            c2.lemma_self_root(y_root as int);
        }
        self.link(x_root, y_root);
    }
}

} // verus!
