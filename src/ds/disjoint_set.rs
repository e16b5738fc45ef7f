use vstd::prelude::*;

verus! {

/// Number of entries among the first `k` links that point to themselves.
pub open spec fn count_roots(parent: Seq<usize>, k: int) -> nat
    decreases k,
{
    if k <= 0 {
        0
    } else {
        count_roots(parent, k - 1) + if parent[k - 1] as int == k - 1 {
            1nat
        } else {
            0nat
        }
    }
}

/// The mathematical picture of a disjoint-set forest: one parent link and one
/// rank per element of the universe `0 .. len`.
pub struct Forest {
    pub parent: Seq<usize>,
    pub rank: Seq<usize>,
}

impl Forest {
    pub open spec fn len(self) -> nat {
        self.parent.len()
    }

    pub open spec fn contains(self, i: int) -> bool {
        0 <= i < self.parent.len()
    }

    /// An element is the representative of its group when its link points to itself.
    pub open spec fn is_root(self, i: int) -> bool {
        self.contains(i) && self.parent[i] as int == i
    }

    /// The number of groups.
    pub open spec fn num_roots(self) -> nat {
        count_roots(self.parent, self.parent.len() as int)
    }

    /// Following the link out of `i` climbs strictly in rank, to a rank no
    /// larger than the size of the universe.
    pub open spec fn climbs(self, i: int) -> bool {
        &&& self.contains(i)
        &&& !self.is_root(i)
        &&& self.contains(self.parent[i] as int)
        &&& self.rank[i] < self.rank[self.parent[i] as int]
        &&& self.rank[self.parent[i] as int] <= self.len()
    }

    /// The representative reached from `i` by following parent links.
    pub open spec fn root(self, i: int) -> int
        decreases self.len() + 1 - self.rank[i],
    {
        if self.climbs(i) {
            self.root(self.parent[i] as int)
        } else {
            i
        }
    }

    pub open spec fn same(self, i: int, j: int) -> bool {
        self.root(i) == self.root(j)
    }

    /// Whether `i` and `j` share a group once the groups of `u` and `v` are joined.
    pub open spec fn same_after_join(self, u: int, v: int, i: int, j: int) -> bool {
        ||| self.same(i, j)
        ||| (self.same(i, u) && self.same(j, v))
        ||| (self.same(i, v) && self.same(j, u))
    }

    /// Well-formed: every link stays in the universe, ranks climb strictly along
    /// links, and no rank exceeds one plus the number of merges made so far.
    pub open spec fn wf(self) -> bool {
        &&& self.parent.len() == self.rank.len()
        &&& 1 <= self.len() <= usize::MAX
        &&& self.num_roots() >= 1
        &&& forall|i: int| self.contains(i) ==> (self.parent[i] as int) < self.len()
        &&& forall|i: int|
            self.contains(i) && !self.is_root(i) ==> self.rank[i] < self.rank[self.parent[i] as int]
        &&& forall|i: int| self.contains(i) ==> self.rank[i] + self.num_roots() <= self.len() + 1
    }

    /// The root of the merged group when the roots `ru` and `rv` differ: the one
    /// of larger rank, `rv` on a tie.
    pub open spec fn survivor(self, ru: int, rv: int) -> int {
        if self.rank[ru] > self.rank[rv] {
            ru
        } else {
            rv
        }
    }

    /// The forest after merging the groups of `u` and `v` by rank.
    pub open spec fn merged(self, u: int, v: int) -> Forest {
        let ru = self.root(u);
        let rv = self.root(v);
        if ru == rv {
            self
        } else {
            let p = self.survivor(ru, rv);
            let c = if p == ru {
                rv
            } else {
                ru
            };
            Forest {
                parent: self.parent.update(c, p as usize),
                rank: if self.rank[c] == self.rank[p] {
                    self.rank.update(p, (self.rank[p] + 1) as usize)
                } else {
                    self.rank
                },
            }
        }
    }
}

proof fn lemma_count_update(parent: Seq<usize>, c: int, p: usize, k: int)
    requires
        0 <= c < parent.len(),
        parent[c] as int == c,
        p as int != c,
        0 <= k <= parent.len(),
    ensures
        count_roots(parent.update(c, p), k) == count_roots(parent, k) - (if c < k {
            1int
        } else {
            0int
        }),
    decreases k,
{
    if k > 0 {
        lemma_count_update(parent, c, p, k - 1);
    }
}

proof fn lemma_count_positive(parent: Seq<usize>, j: int, k: int)
    requires
        0 <= j < k <= parent.len(),
        parent[j] as int == j,
    ensures
        count_roots(parent, k) >= 1,
    decreases k,
{
    if j < k - 1 {
        lemma_count_positive(parent, j, k - 1);
    }
}

proof fn lemma_count_identity(parent: Seq<usize>, k: int)
    requires
        0 <= k <= parent.len(),
        forall|i: int| 0 <= i < k ==> parent[i] as int == i,
    ensures
        count_roots(parent, k) == k,
    decreases k,
{
    if k > 0 {
        lemma_count_identity(parent, k - 1);
    }
}

/// In a well-formed forest the walk from `i` ends at a root, and each link
/// leads to the same root.
pub proof fn lemma_root(f: Forest, i: int)
    requires
        f.wf(),
        f.contains(i),
    ensures
        f.is_root(f.root(i)),
        f.root(f.root(i)) == f.root(i),
        f.is_root(i) ==> f.root(i) == i,
        !f.is_root(i) ==> f.climbs(i) && f.root(i) == f.root(f.parent[i] as int),
    decreases f.len() + 1 - f.rank[i],
{
    if !f.is_root(i) {
        let q = f.parent[i] as int;
        assert(f.contains(q));
        assert(f.rank[q] + f.num_roots() <= f.len() + 1);
        lemma_root(f, q);
    }
}

proof fn lemma_relink(f: Forest, g: Forest, c: int, p: int, i: int)
    requires
        f.wf(),
        g.wf(),
        g.len() == f.len(),
        f.is_root(c),
        f.is_root(p),
        c != p,
        g.parent == f.parent.update(c, p as usize),
        forall|k: int| f.contains(k) && k != p ==> g.rank[k] == f.rank[k],
        f.contains(i),
    ensures
        g.root(i) == if f.root(i) == c {
            p
        } else {
            f.root(i)
        },
    decreases g.len() + 1 - g.rank[i],
{
    lemma_root(f, i);
    lemma_root(g, i);
    lemma_root(g, p);
    if i != c && !f.is_root(i) {
        lemma_relink(f, g, c, p, f.parent[i] as int);
    }
}

/// Merging by rank keeps the forest well formed, joins exactly the two groups
/// of `u` and `v`, and removes one root when they were apart.
pub proof fn lemma_merge(f: Forest, u: int, v: int)
    requires
        f.wf(),
        f.contains(u),
        f.contains(v),
    ensures
        f.merged(u, v).wf(),
        f.merged(u, v).len() == f.len(),
        f.merged(u, v).same(u, v),
        forall|i: int, j: int|
            f.contains(i) && f.contains(j) ==> (#[trigger] f.merged(u, v).same(i, j) <==> f.same_after_join(
                u,
                v,
                i,
                j,
            )),
        f.merged(u, v).num_roots() == if f.same(u, v) {
            f.num_roots() as int
        } else {
            f.num_roots() - 1
        },
        !f.same(u, v) ==> f.num_roots() >= 2,
{
    lemma_root(f, u);
    lemma_root(f, v);
    let ru = f.root(u);
    let rv = f.root(v);
    if ru != rv {
        let p = f.survivor(ru, rv);
        let c = if p == ru {
            rv
        } else {
            ru
        };
        let g = f.merged(u, v);
        assert(g.parent == f.parent.update(c, p as usize));
        assert(g.len() == f.len());
        lemma_count_update(f.parent, c, p as usize, f.len() as int);
        lemma_count_positive(g.parent, p, g.len() as int);
        assert(g.num_roots() == f.num_roots() - 1);
        assert forall|i: int| g.contains(i) && !g.is_root(i) implies g.rank[i] < g.rank[g.parent[i] as int] by {
            if i == c {
                assert(g.parent[i] as int == p);
                assert(f.rank[c] <= f.rank[p]);
                assert(g.rank[c] == f.rank[c]);
                assert(g.rank[p] >= f.rank[p]);
                if f.rank[c] == f.rank[p] {
                    assert(g.rank[p] == f.rank[p] + 1);
                }
            } else {
                assert(f.contains(i));
                assert(!f.is_root(i));
                assert((f.parent[i] as int) < f.len());
                assert(f.contains(f.parent[i] as int));
                assert(g.parent[i] == f.parent[i]);
                assert(f.rank[i] < f.rank[f.parent[i] as int]);
            }
        }
        assert(f.rank[p] + f.num_roots() <= f.len() + 1);
        assert forall|i: int| g.contains(i) implies g.rank[i] + g.num_roots() <= g.len() + 1 by {
            assert(f.contains(i));
            assert(f.rank[i] + f.num_roots() <= f.len() + 1);
            if i == p && f.rank[c] == f.rank[p] {
                assert(g.rank[i] == f.rank[p] + 1);
            } else {
                assert(g.rank[i] == f.rank[i]);
            }
        }
        assert forall|i: int| g.contains(i) implies (g.parent[i] as int) < g.len() by {
            assert(f.contains(i));
            assert((f.parent[i] as int) < f.len());
        }
        assert(g.wf());
        assert forall|i: int| f.contains(i) implies g.root(i) == if f.root(i) == c {
            p
        } else {
            f.root(i)
        } by {
            lemma_relink(f, g, c, p, i);
        }
    }
}

/// Merging the same two elements a second time leaves the forest as the first
/// merge left it.
pub proof fn lemma_merge_idempotent(f: Forest, u: int, v: int)
    requires
        f.wf(),
        f.contains(u),
        f.contains(v),
    ensures
        f.merged(u, v).merged(u, v) == f.merged(u, v),
{
    lemma_merge(f, u, v);
}

/// `merge(u, v)` and `merge(v, u)` produce the same partition.
pub proof fn lemma_merge_commutative(f: Forest, u: int, v: int)
    requires
        f.wf(),
        f.contains(u),
        f.contains(v),
    ensures
        forall|i: int, j: int|
            f.contains(i) && f.contains(j) ==> (f.merged(u, v).same(i, j) <==> f.merged(
                v,
                u,
            ).same(i, j)),
{
    lemma_merge(f, u, v);
    lemma_merge(f, v, u);
}

/// After merging `a` with `b` and `b` with `c`, in either order, all three
/// elements share one group.
pub proof fn lemma_merge_transitive(f: Forest, a: int, b: int, c: int)
    requires
        f.wf(),
        f.contains(a),
        f.contains(b),
        f.contains(c),
    ensures
        f.merged(a, b).merged(b, c).same(a, b),
        f.merged(a, b).merged(b, c).same(b, c),
        f.merged(b, c).merged(a, b).same(a, b),
        f.merged(b, c).merged(a, b).same(b, c),
{
    lemma_merge(f, a, b);
    lemma_merge(f.merged(a, b), b, c);
    lemma_merge(f, b, c);
    lemma_merge(f.merged(b, c), a, b);
}

/// The forest after merging each pair of `pairs` in turn.
pub open spec fn merged_all(f: Forest, pairs: Seq<(int, int)>) -> Forest
    decreases pairs.len(),
{
    if pairs.len() == 0 {
        f
    } else {
        merged_all(f, pairs.drop_last()).merged(pairs.last().0, pairs.last().1)
    }
}

/// No sequence of merges raises the number of groups.
pub proof fn lemma_root_count_monotone(f: Forest, pairs: Seq<(int, int)>)
    requires
        f.wf(),
        forall|k: int| 0 <= k < pairs.len() ==> f.contains(#[trigger] pairs[k].0) && f.contains(pairs[k].1),
    ensures
        merged_all(f, pairs).wf(),
        merged_all(f, pairs).len() == f.len(),
        merged_all(f, pairs).num_roots() <= f.num_roots(),
    decreases pairs.len(),
{
    if pairs.len() > 0 {
        let front = pairs.drop_last();
        assert forall|k: int| 0 <= k < front.len() implies f.contains(#[trigger] front[k].0) && f.contains(front[k].1) by {
            assert(front[k] == pairs[k]);
        }
        lemma_root_count_monotone(f, front);
        let k = pairs.len() - 1;
        assert(f.contains(pairs[k].0));
        lemma_merge(merged_all(f, front), pairs.last().0, pairs.last().1);
    }
}

/// Disjoint-set forest over the universe `0 ..= n`, merging by rank.
#[derive(Debug, Clone)]
pub struct DisjointSet {
    pub set: Vec<usize>,
    pub rank: Vec<usize>,
}

impl View for DisjointSet {
    type V = Forest;

    open spec fn view(&self) -> Forest {
        Forest { parent: self.set@, rank: self.rank@ }
    }
}

impl DisjointSet {
    /// Creates a disjoint set over `0 ..= n` where every element is its own group.
    pub fn new(n: usize) -> (r: Self)
        requires
            n < usize::MAX,
        ensures
            r@.wf(),
            r@.len() == n + 1,
            r@.num_roots() == n + 1,
            forall|i: int|
                0 <= i <= n ==> r.set@[i] == i && r.rank@[i] == 1 && r@.root(i) == i,
    {
        let mut set: Vec<usize> = Vec::new();
        let mut rank: Vec<usize> = Vec::new();
        let mut i: usize = 0;
        while i <= n
            invariant
                n < usize::MAX,
                i <= n + 1,
                set@.len() == i,
                rank@.len() == i,
                forall|k: int| 0 <= k < i ==> set@[k] == k && rank@[k] == 1,
            decreases n + 1 - i,
        {
            set.push(i);
            rank.push(1);
            i = i + 1;
        }
        let r = DisjointSet { set, rank };
        proof {
            lemma_count_identity(r.set@, r.set@.len() as int);
        }
        r
    }

    /// Returns the representative of the group of `u`, leaving the links as they are.
    pub fn find(&mut self, u: usize) -> (r: usize)
        requires
            old(self)@.wf(),
            old(self)@.contains(u as int),
        ensures
            *final(self) == *old(self),
            r as int == old(self)@.root(u as int),
    {
        let mut x = u;
        while x != self.set[x]
            invariant
                self@.wf(),
                self@.contains(x as int),
                self@.root(x as int) == self@.root(u as int),
            decreases self@.len() + 1 - self.rank@[x as int],
        {
            proof {
                lemma_root(self@, x as int);
            }
            x = self.set[x];
        }
        proof {
            lemma_root(self@, x as int);
        }
        x
    }

    /// Joins the groups of `u` and `v`: the root of smaller rank is linked under
    /// the other, and on equal ranks the root of `v` survives with its rank raised
    /// by one.
    pub fn merge(&mut self, u: usize, v: usize)
        requires
            old(self)@.wf(),
            old(self)@.contains(u as int),
            old(self)@.contains(v as int),
        ensures
            final(self)@ == old(self)@.merged(u as int, v as int),
            final(self)@.wf(),
            final(self)@.same(u as int, v as int),
            forall|i: int, j: int|
                old(self)@.contains(i) && old(self)@.contains(j) ==> (final(self)@.same(i, j)
                    <==> old(self)@.same_after_join(u as int, v as int, i, j)),
            final(self)@.num_roots() == if old(self)@.same(u as int, v as int) {
                old(self)@.num_roots() as int
            } else {
                old(self)@.num_roots() - 1
            },
    {
        proof {
            lemma_merge(self@, u as int, v as int);
            lemma_root(self@, u as int);
            lemma_root(self@, v as int);
        }
        let ghost f = self@;
        let mut u = self.find(u);
        let mut v = self.find(v);
        if u == v {
            return;
        }
        if self.rank[u] > self.rank[v] {
            let t = u;
            u = v;
            v = t;
        }
        self.set.set(u, v);
        if self.rank[u] == self.rank[v] {
            let r = self.rank[v];
            self.rank.set(v, r + 1);
        }
        proof {
            assert(self@.parent =~= f.merged(u as int, v as int).parent);
        }
    }
}

} // verus!
