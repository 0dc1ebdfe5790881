//! Union-find over conductor indices.

use vstd::prelude::*;

verus! {

/// A forest of parent links. Two indices are in the same class when they lead to the same root.
///
/// `root` and `depth` describe the forest for the proofs: where each index ends up, and a number
/// that drops along every parent link, so that following links comes to an end.
pub struct UnionFind {
    parent: Vec<usize>,
    root: Ghost<Seq<usize>>,
    depth: Ghost<Seq<nat>>,
}

impl UnionFind {
    pub closed spec fn len(&self) -> nat {
        self.parent@.len()
    }

    /// The representative of the class of `i`.
    pub closed spec fn root_of(&self, i: int) -> usize {
        self.root@[i]
    }

    /// Whether `i` and `j` are in one class.
    pub open spec fn same(&self, i: int, j: int) -> bool {
        self.root_of(i) == self.root_of(j)
    }

    pub closed spec fn wf(&self) -> bool {
        let n = self.parent@.len();
        &&& self.root@.len() == n
        &&& self.depth@.len() == n
        &&& forall|i: int| #![trigger self.parent@[i]] #![trigger self.root@[i]] 0 <= i < n ==> {
            &&& self.parent@[i] < n
            &&& self.root@[i] < n
            &&& self.root@[self.parent@[i] as int] == self.root@[i]
            &&& self.root@[self.root@[i] as int] == self.root@[i]
            &&& self.parent@[self.root@[i] as int] == self.root@[i]
            &&& self.parent@[i] == i <==> self.root@[i] == i
            &&& self.parent@[i] != i ==> self.depth@[self.parent@[i] as int] < self.depth@[i]
        }
    }

    /// Every index alone in its class.
    pub fn new(n: usize) -> (uf: UnionFind)
        ensures
            uf.wf(),
            uf.len() == n,
            forall|i: int, j: int| 0 <= i < n && 0 <= j < n ==> (uf.same(i, j) <==> i == j),
    {
        let mut parent: Vec<usize> = Vec::new();
        let mut i: usize = 0;
        while i < n
            invariant
                i <= n,
                parent@.len() == i,
                forall|k: int| 0 <= k < i ==> parent@[k] == k,
            decreases n - i,
        {
            parent.push(i);
            i += 1;
        }
        let ghost root = Seq::new(n as nat, |k: int| k as usize);
        let ghost depth = Seq::new(n as nat, |k: int| 0nat);
        UnionFind { parent, root: Ghost(root), depth: Ghost(depth) }
    }

    /// The representative of `i`'s class, halving the path to it on the way.
    pub fn find(&mut self, start: usize) -> (r: usize)
        requires
            old(self).wf(),
            start < old(self).len(),
        ensures
            final(self).wf(),
            final(self).len() == old(self).len(),
            forall|k: int| 0 <= k < old(self).len() ==> final(self).root_of(k) == old(
                self,
            ).root_of(k),
            r == final(self).root_of(start as int),
            r < final(self).len(),
            final(self).root_of(r as int) == r,
    {
        let mut i: usize = start;
        while self.parent[i] != i
            invariant
                self.wf(),
                self.root@ == old(self).root@,
                self.parent@.len() == old(self).parent@.len(),
                start < self.parent@.len(),
                i < self.parent@.len(),
                self.root@[i as int] == self.root@[start as int],
            decreases self.depth@[i as int],
        {
            let up = self.parent[i];
            let upper = self.parent[up];
            let ghost before = *self;
            self.parent.set(i, upper);
            proof {
                assert(self.root@ == before.root@ && self.depth@ == before.depth@);
                assert(before.root@[up as int] == before.root@[i as int]);
                assert(before.root@[upper as int] == before.root@[i as int]);
                assert(before.depth@[upper as int] < before.depth@[i as int]);
                assert(self.wf()) by {
                    assert forall|k: int| #![trigger self.parent@[k]] #![trigger self.root@[k]] 0
                        <= k < self.parent@.len() implies {
                        &&& self.parent@[k] < self.parent@.len()
                        &&& self.root@[k] < self.parent@.len()
                        &&& self.root@[self.parent@[k] as int] == self.root@[k]
                        &&& self.root@[self.root@[k] as int] == self.root@[k]
                        &&& self.parent@[self.root@[k] as int] == self.root@[k]
                        &&& self.parent@[k] == k <==> self.root@[k] == k
                        &&& self.parent@[k] != k ==> self.depth@[self.parent@[k] as int]
                            < self.depth@[k]
                    } by {
                        assert(before.parent@[k] < before.parent@.len());
                        assert(before.root@[before.root@[k] as int] == before.root@[k]);
                        assert(before.root@[k] != i);
                    }
                }
            }
            i = upper;
        }
        i
    }

    /// Merge the classes of `a` and `b`.
    pub fn union(&mut self, a: usize, b: usize)
        requires
            old(self).wf(),
            a < old(self).len(),
            b < old(self).len(),
        ensures
            final(self).wf(),
            final(self).len() == old(self).len(),
            forall|i: int, j: int|
                #![trigger final(self).same(i, j)]
                0 <= i < old(self).len() && 0 <= j < old(self).len() ==> (final(self).same(i, j)
                    <==> {
                    ||| old(self).same(i, j)
                    ||| old(self).same(i, a as int) && old(self).same(b as int, j)
                    ||| old(self).same(i, b as int) && old(self).same(a as int, j)
                }),
    {
        let ra = self.find(a);
        let rb = self.find(b);
        if ra != rb {
            let ghost before = *self;
            self.parent.set(ra, rb);
            proof {
                let n = self.parent@.len();
                let lift = before.depth@[rb as int] + 1;
                let root = Seq::new(
                    n,
                    |k: int|
                        if before.root@[k] == ra {
                            rb
                        } else {
                            before.root@[k]
                        },
                );
                let depth = Seq::new(
                    n,
                    |k: int|
                        if before.root@[k] == ra {
                            before.depth@[k] + lift
                        } else {
                            before.depth@[k]
                        },
                );
                self.root@ = root;
                self.depth@ = depth;
                assert(before.root@[rb as int] == rb);
                assert(before.root@[ra as int] == ra);
                assert(self.wf()) by {
                    assert forall|k: int| #![trigger self.parent@[k]] #![trigger self.root@[k]] 0
                        <= k < n implies {
                        &&& self.parent@[k] < n
                        &&& self.root@[k] < n
                        &&& self.root@[self.parent@[k] as int] == self.root@[k]
                        &&& self.root@[self.root@[k] as int] == self.root@[k]
                        &&& self.parent@[self.root@[k] as int] == self.root@[k]
                        &&& self.parent@[k] == k <==> self.root@[k] == k
                        &&& self.parent@[k] != k ==> self.depth@[self.parent@[k] as int]
                            < self.depth@[k]
                    } by {
                        assert(before.parent@[k] < n);
                        assert(before.root@[before.parent@[k] as int] == before.root@[k]);
                        assert(before.root@[before.root@[k] as int] == before.root@[k]);
                        assert(before.parent@[before.root@[k] as int] == before.root@[k]);
                    }
                }
            }
        }
    }
}

} // verus!
