//! Union-find with path compression and union by rank.
//!
//! The structure records, as ghost state, the sequence of unions performed.
//! `linked` is the mathematical meaning of that sequence: two elements are
//! linked exactly when a chain of recorded unions joins them.  The standing
//! invariant is that `connected` answers precisely `linked`, and a public
//! lemma shows `linked` does not care in which order two unions were applied.

use vstd::prelude::*;

verus! {

/// `a` and `b` are joined by the recorded unions: the equivalence closure of
/// the pairs, built one union at a time.
pub open spec fn linked(unions: Seq<(int, int)>, a: int, b: int) -> bool
    decreases unions.len(),
{
    if unions.len() == 0 {
        a == b
    } else {
        let us = unions.drop_last();
        let u = unions.last();
        linked(us, a, b) || (linked(us, a, u.0) && linked(us, u.1, b)) || (linked(us, a, u.1)
            && linked(us, u.0, b))
    }
}

/// `linked` is an equivalence relation.
pub proof fn lemma_linked_equivalence(us: Seq<(int, int)>)
    ensures
        forall|a: int| #[trigger] linked(us, a, a),
        forall|a: int, b: int| #[trigger] linked(us, a, b) ==> linked(us, b, a),
        forall|a: int, b: int, c: int|
            #[trigger] linked(us, a, b) && #[trigger] linked(us, b, c) ==> linked(us, a, c),
    decreases us.len(),
{
    if us.len() > 0 {
        let dl = us.drop_last();
        let u = us.last();
        lemma_linked_equivalence(dl);
        assert forall|a: int| #[trigger] linked(us, a, a) by {
            assert(linked(dl, a, a));
        }
        assert forall|a: int, b: int| #[trigger] linked(us, a, b) implies linked(us, b, a) by {
            if linked(dl, a, b) {
                assert(linked(dl, b, a));
            } else if linked(dl, a, u.0) && linked(dl, u.1, b) {
                assert(linked(dl, b, u.1) && linked(dl, u.0, a));
            } else {
                assert(linked(dl, a, u.1) && linked(dl, u.0, b));
                assert(linked(dl, b, u.0) && linked(dl, u.1, a));
            }
        }
        assert(dl.push(u) =~= us);
        assert forall|a: int, b: int, c: int|
            #[trigger] linked(us, a, b) && #[trigger] linked(us, b, c) implies linked(
            us,
            a,
            c,
        ) by {
            lemma_linked_push_trans(dl, u, a, b, c);
        }
    }
}

/// One transitivity step across a recorded union.
proof fn lemma_linked_push_trans(dl: Seq<(int, int)>, u: (int, int), a: int, b: int, c: int)
    requires
        forall|x: int| #[trigger] linked(dl, x, x),
        forall|x: int, y: int| #[trigger] linked(dl, x, y) ==> linked(dl, y, x),
        forall|x: int, y: int, z: int|
            #[trigger] linked(dl, x, y) && #[trigger] linked(dl, y, z) ==> linked(dl, x, z),
        linked(dl.push(u), a, b),
        linked(dl.push(u), b, c),
    ensures
        linked(dl.push(u), a, c),
{
    let us = dl.push(u);
    assert(us.drop_last() =~= dl);
    assert(us.last() == u);
    if linked(dl, a, b) {
        if linked(dl, b, c) {
            assert(linked(dl, a, c));
        } else if linked(dl, b, u.0) && linked(dl, u.1, c) {
            assert(linked(dl, a, u.0));
        } else {
            assert(linked(dl, b, u.1) && linked(dl, u.0, c));
            assert(linked(dl, a, u.1) && linked(dl, u.0, c));
        }
    } else if linked(dl, a, u.0) && linked(dl, u.1, b) {
        if linked(dl, b, c) {
            assert(linked(dl, u.1, c));
        } else if linked(dl, b, u.0) && linked(dl, u.1, c) {
            assert(linked(dl, u.1, u.0));
            assert(linked(dl, a, u.0) && linked(dl, u.0, u.1) && linked(dl, u.1, c));
            assert(linked(dl, a, c));
        } else {
            assert(linked(dl, b, u.1) && linked(dl, u.0, c));
            assert(linked(dl, a, u.0) && linked(dl, u.0, c));
        }
    } else {
        assert(linked(dl, a, u.1) && linked(dl, u.0, b));
        if linked(dl, b, c) {
            assert(linked(dl, u.0, c));
        } else if linked(dl, b, u.0) && linked(dl, u.1, c) {
            assert(linked(dl, a, u.1) && linked(dl, u.1, c));
            assert(linked(dl, a, c));
        } else {
            assert(linked(dl, b, u.1) && linked(dl, u.0, c));
            assert(linked(dl, u.0, b) && linked(dl, b, u.1));
            assert(linked(dl, u.0, u.1));
            assert(linked(dl, a, u.1) && linked(dl, u.1, u.0) && linked(dl, u.0, c));
            assert(linked(dl, a, u.0));
            assert(linked(dl, a, c));
        }
    }
}

/// Unfolds `linked` across one recorded union.
pub proof fn lemma_linked_push(us: Seq<(int, int)>, w: (int, int), a: int, b: int)
    ensures
        linked(us.push(w), a, b) == (linked(us, a, b) || (linked(us, a, w.0) && linked(us, w.1, b))
            || (linked(us, a, w.1) && linked(us, w.0, b))),
{
    assert(us.push(w).drop_last() =~= us);
    assert(us.push(w).last() == w);
}

/// Two successive unions may be recorded in either order: every pair of
/// elements is linked after the one history exactly when it is linked after
/// the other.
#[verifier::rlimit(100)]
pub proof fn lemma_union_order_irrelevant(
    us: Seq<(int, int)>,
    u: (int, int),
    v: (int, int),
    a: int,
    b: int,
)
    ensures
        linked(us.push(u).push(v), a, b) == linked(us.push(v).push(u), a, b),
{
    lemma_linked_equivalence(us);
    lemma_linked_push(us.push(u), v, a, b);
    lemma_linked_push(us, u, a, b);
    lemma_linked_push(us, u, a, v.0);
    lemma_linked_push(us, u, v.1, b);
    lemma_linked_push(us, u, a, v.1);
    lemma_linked_push(us, u, v.0, b);
    lemma_linked_push(us.push(v), u, a, b);
    lemma_linked_push(us, v, a, b);
    lemma_linked_push(us, v, a, u.0);
    lemma_linked_push(us, v, u.1, b);
    lemma_linked_push(us, v, a, u.1);
    lemma_linked_push(us, v, u.0, b);
}

/// A recorded union never unlinks anything: linkage is monotone in the
/// history.
pub proof fn lemma_linked_extend(us: Seq<(int, int)>, u: (int, int), a: int, b: int)
    requires
        linked(us, a, b),
    ensures
        linked(us.push(u), a, b),
{
    assert(us.push(u).drop_last() =~= us);
    assert(us.push(u).last() == u);
}

/// The parent forest is well formed: indices in range, and a strictly
/// increasing ghost rank toward the root, bounded by `gbound`.
pub open spec fn pwf(parent: Seq<usize>, grank: Seq<nat>, gbound: nat) -> bool {
    &&& parent.len() == grank.len()
    &&& forall|i: int| 0 <= i < parent.len() ==> #[trigger] parent[i] < parent.len()
    &&& forall|i: int|
        0 <= i < parent.len() && #[trigger] parent[i] != i ==> grank[parent[i] as int] > grank[i]
    &&& forall|i: int| 0 <= i < grank.len() ==> #[trigger] grank[i] < gbound
}

/// The representative of `i`: follow parents to the root.
pub open spec fn rootf(parent: Seq<usize>, grank: Seq<nat>, gbound: nat, i: int) -> int
    decreases gbound - grank[i],
        when pwf(parent, grank, gbound) && 0 <= i < parent.len()
{
    if parent[i] == i {
        i
    } else {
        rootf(parent, grank, gbound, parent[i] as int)
    }
}

/// The representative is a root in range, with rank at least the element's.
pub proof fn lemma_rootf_props(parent: Seq<usize>, grank: Seq<nat>, gbound: nat, i: int)
    requires
        pwf(parent, grank, gbound),
        0 <= i < parent.len(),
    ensures
        0 <= rootf(parent, grank, gbound, i) < parent.len(),
        parent[rootf(parent, grank, gbound, i)] as int == rootf(parent, grank, gbound, i),
        grank[rootf(parent, grank, gbound, i)] >= grank[i],
        parent[i] != i ==> grank[rootf(parent, grank, gbound, i)] > grank[i],
    decreases gbound - grank[i],
{
    if parent[i] != i {
        lemma_rootf_props(parent, grank, gbound, parent[i] as int);
    }
}

/// Pointing a non-root element straight at its representative changes no
/// representative.
pub proof fn lemma_compress_preserves(
    parent: Seq<usize>,
    grank: Seq<nat>,
    gbound: nat,
    c: int,
    j: int,
)
    requires
        pwf(parent, grank, gbound),
        0 <= c < parent.len(),
        parent[c] != c,
        0 <= j < parent.len(),
        pwf(parent.update(c, rootf(parent, grank, gbound, c) as usize), grank, gbound),
    ensures
        rootf(
            parent.update(c, rootf(parent, grank, gbound, c) as usize),
            grank,
            gbound,
            j,
        ) == rootf(parent, grank, gbound, j),
    decreases gbound - grank[j],
{
    let r = rootf(parent, grank, gbound, c);
    lemma_rootf_props(parent, grank, gbound, c);
    let parent2 = parent.update(c, r as usize);
    if j == c {
        assert(parent2[j] as int == r);
        assert(r != c);
        assert(parent2[r] as int == r);
        assert(rootf(parent2, grank, gbound, r) == r);
        assert(rootf(parent2, grank, gbound, c) == rootf(parent2, grank, gbound, r));
    } else {
        if parent[j] == j {
        } else {
            lemma_compress_preserves(parent, grank, gbound, c, parent[j] as int);
        }
    }
}

/// Linking root `ra` under root `rb` redirects exactly the elements of `ra`'s
/// class.
pub proof fn lemma_link_remaps(
    parent: Seq<usize>,
    grank: Seq<nat>,
    gbound: nat,
    g2: Seq<nat>,
    b2: nat,
    ra: int,
    rb: int,
    j: int,
)
    requires
        pwf(parent, grank, gbound),
        0 <= ra < parent.len(),
        0 <= rb < parent.len(),
        ra != rb,
        parent[ra] == ra,
        parent[rb] == rb,
        pwf(parent.update(ra, rb as usize), g2, b2),
        0 <= j < parent.len(),
    ensures
        rootf(parent.update(ra, rb as usize), g2, b2, j) == (if rootf(parent, grank, gbound, j)
            == ra {
            rb
        } else {
            rootf(parent, grank, gbound, j)
        }),
    decreases gbound - grank[j],
{
    let parent2 = parent.update(ra, rb as usize);
    if j == ra {
        assert(parent2[j] as int == rb);
        assert(parent2[rb] as int == rb);
        assert(rootf(parent2, g2, b2, rb) == rb);
        assert(rootf(parent2, g2, b2, ra) == rootf(parent2, g2, b2, rb));
    } else if parent[j] == j {
        assert(parent2[j] as int == j);
    } else {
        lemma_link_remaps(parent, grank, gbound, g2, b2, ra, rb, parent[j] as int);
    }
}

pub struct UnionFind {
    pub parent: Vec<usize>,
    pub rank: Vec<usize>,
    pub grank: Ghost<Seq<nat>>,
    pub gbound: Ghost<nat>,
    pub hist: Ghost<Seq<(int, int)>>,
}

impl UnionFind {
    /// Number of elements.
    pub open spec fn n(self) -> int {
        self.parent@.len() as int
    }

    /// The representative of `i`.
    pub open spec fn root_of(self, i: int) -> int {
        rootf(self.parent@, self.grank@, self.gbound@, i)
    }

    /// `a` and `b` are in the same class.
    pub open spec fn same(self, a: int, b: int) -> bool {
        self.root_of(a) == self.root_of(b)
    }

    /// Well-formedness: a sound parent forest whose classes are exactly the
    /// closure of the recorded unions.
    pub open spec fn wf(self) -> bool {
        &&& pwf(self.parent@, self.grank@, self.gbound@)
        &&& self.rank@.len() == self.parent@.len()
        &&& forall|k: int|
            0 <= k < self.hist@.len() ==> 0 <= (#[trigger] self.hist@[k]).0 < self.n() && 0
                <= self.hist@[k].1 < self.n()
        &&& forall|a: int, b: int|
            0 <= a < self.n() && 0 <= b < self.n() ==> #[trigger] self.same(a, b) == linked(
                self.hist@,
                a,
                b,
            )
    }

    /// A fresh structure: every element is its own class, no union recorded.
    pub fn new(size: usize) -> (uf: UnionFind)
        ensures
            uf.wf(),
            uf.n() == size,
            uf.hist@ == Seq::<(int, int)>::empty(),
    {
        let mut parent: Vec<usize> = Vec::new();
        let mut i: usize = 0;
        while i < size
            invariant
                i <= size,
                parent@.len() == i,
                forall|j: int| 0 <= j < i ==> #[trigger] parent@[j] == j,
            decreases size - i,
        {
            parent.push(i);
            i = i + 1;
        }
        let mut rank: Vec<usize> = Vec::new();
        let mut k: usize = 0;
        while k < size
            invariant
                k <= size,
                rank@.len() == k,
            decreases size - k,
        {
            rank.push(0);
            k = k + 1;
        }
        let uf = UnionFind {
            parent,
            rank,
            grank: Ghost(Seq::new(size as nat, |j: int| 0nat)),
            gbound: Ghost(1nat),
            hist: Ghost(Seq::empty()),
        };
        proof {
            assert forall|a: int, b: int|
                0 <= a < uf.n() && 0 <= b < uf.n() implies #[trigger] uf.same(a, b) == linked(
                uf.hist@,
                a,
                b,
            ) by {
                assert(uf.root_of(a) == a);
                assert(uf.root_of(b) == b);
            }
        }
        uf
    }

    /// The representative of `i`, compressing the path behind it.
    ///
    /// Classes, history and size are untouched: only the parent links move,
    /// and every element keeps its representative.
    pub fn find(&mut self, i: usize) -> (r: usize)
        requires
            old(self).wf(),
            i < old(self).n(),
        ensures
            final(self).wf(),
            final(self).n() == old(self).n(),
            final(self).hist@ == old(self).hist@,
            r as int == old(self).root_of(i as int),
            r < old(self).n(),
            forall|j: int| 0 <= j < old(self).n() ==> #[trigger] final(self).root_of(j) == old(
                self,
            ).root_of(j),
    {
        let ghost orig = *self;
        let mut root = i;
        while self.parent[root] != root
            invariant
                *self == orig,
                orig.wf(),
                root < orig.n(),
                orig.root_of(root as int) == orig.root_of(i as int),
            decreases orig.gbound@ - orig.grank@[root as int],
        {
            root = self.parent[root];
        }
        proof {
            assert(orig.root_of(i as int) == root as int);
        }
        let mut curr = i;
        while curr != root
            invariant
                pwf(self.parent@, self.grank@, self.gbound@),
                self.grank == orig.grank,
                self.gbound == orig.gbound,
                self.hist == orig.hist,
                self.rank == orig.rank,
                self.parent@.len() == orig.parent@.len(),
                orig.wf(),
                curr < self.n(),
                root < self.n(),
                self.parent@[root as int] == root,
                rootf(self.parent@, self.grank@, self.gbound@, curr as int) == root as int,
                forall|j: int| 0 <= j < self.n() ==> #[trigger] rootf(
                    self.parent@,
                    self.grank@,
                    self.gbound@,
                    j,
                ) == orig.root_of(j),
            decreases self.gbound@ - self.grank@[curr as int],
        {
            let next = self.parent[curr];
            proof {
                assert(next != curr);
                lemma_rootf_props(self.parent@, self.grank@, self.gbound@, curr as int);
                let ghost p_old = self.parent@;
                assert(pwf(p_old.update(curr as int, root), self.grank@, self.gbound@)) by {
                    assert(self.grank@[root as int] > self.grank@[curr as int]);
                }
                assert forall|j: int| 0 <= j < self.n() implies #[trigger] rootf(
                    p_old.update(curr as int, root),
                    self.grank@,
                    self.gbound@,
                    j,
                ) == rootf(p_old, self.grank@, self.gbound@, j) by {
                    lemma_compress_preserves(p_old, self.grank@, self.gbound@, curr as int, j);
                }
            }
            self.parent[curr] = root;
            curr = next;
        }
        proof {
            assert forall|a: int, b: int|
                0 <= a < self.n() && 0 <= b < self.n() implies #[trigger] self.same(a, b)
                == linked(self.hist@, a, b) by {
                assert(orig.same(a, b) == linked(orig.hist@, a, b));
            }
        }
        root
    }

    /// Merges the classes of `i` and `j` and records the union.
    ///
    /// Afterwards two elements are in one class exactly when they already
    /// were, or one sided with `i` and the other with `j`.
    pub fn union(&mut self, i: usize, j: usize)
        requires
            old(self).wf(),
            i < old(self).n(),
            j < old(self).n(),
        ensures
            final(self).wf(),
            final(self).n() == old(self).n(),
            final(self).hist@ == old(self).hist@.push((i as int, j as int)),
            forall|a: int, b: int|
                0 <= a < old(self).n() && 0 <= b < old(self).n() ==> #[trigger] final(self).same(
                    a,
                    b,
                ) == (old(self).same(a, b) || (old(self).same(a, i as int) && old(self).same(
                    j as int,
                    b,
                )) || (old(self).same(a, j as int) && old(self).same(i as int, b))),
    {
        let ghost before = *self;
        let root_i = self.find(i);
        let root_j = self.find(j);
        let ghost mid = *self;
        proof {
            assert(mid.root_of(i as int) == root_i as int);
            assert(mid.root_of(j as int) == root_j as int);
            lemma_rootf_props(mid.parent@, mid.grank@, mid.gbound@, i as int);
            lemma_rootf_props(mid.parent@, mid.grank@, mid.gbound@, j as int);
            assert(mid.parent@[root_i as int] == root_i);
            assert(mid.parent@[root_j as int] == root_j);
        }
        if root_i != root_j {
            let child: usize;
            let par: usize;
            if self.rank[root_i] < self.rank[root_j] {
                child = root_i;
                par = root_j;
            } else {
                child = root_j;
                par = root_i;
                if self.rank[root_i] == self.rank[root_j] && self.rank[root_i] < usize::MAX {
                    let new_rank = self.rank[root_i] + 1;
                    self.rank[root_i] = new_rank;
                }
            }
            self.parent[child] = par;
            let ghost ra: int = child as int;
            let ghost rb: int = par as int;
            proof {
                let g2 = mid.grank@.update(
                    rb,
                    if mid.grank@[rb] > mid.grank@[ra] + 1 {
                        mid.grank@[rb]
                    } else {
                        (mid.grank@[ra] + 1) as nat
                    },
                );
                let b2 = if mid.gbound@ > g2[rb] + 1 {
                    mid.gbound@
                } else {
                    (g2[rb] + 1) as nat
                };
                self.grank = Ghost(g2);
                self.gbound = Ghost(b2);
                assert(mid.parent@[ra] == ra && mid.parent@[rb] == rb);
                assert(pwf(self.parent@, g2, b2)) by {
                    assert(self.parent@ == mid.parent@.update(ra, rb as usize));
                    assert forall|x: int|
                        0 <= x < self.parent@.len() && #[trigger] self.parent@[x] != x implies g2[
                        self.parent@[x] as int] > g2[x] by {
                        if x == ra {
                            assert(self.parent@[x] as int == rb);
                            assert(g2[rb] >= mid.grank@[ra] + 1);
                            assert(g2[ra] == mid.grank@[ra]);
                        } else {
                            assert(self.parent@[x] == mid.parent@[x]);
                            assert(mid.parent@[x] != x);
                            assert(mid.grank@[mid.parent@[x] as int] > mid.grank@[x]);
                            assert(x != rb ==> g2[x] == mid.grank@[x]);
                            assert(x == rb ==> g2[x] == mid.grank@[x] || mid.parent@[x] == x);
                            if mid.parent@[x] as int == rb {
                                assert(g2[rb] >= mid.grank@[rb]);
                            } else {
                                assert(g2[mid.parent@[x] as int] == mid.grank@[mid.parent@[x] as int]);
                            }
                        }
                    }
                    assert forall|x: int| 0 <= x < g2.len() implies #[trigger] g2[x] < b2 by {
                        if x == rb {
                        } else {
                            assert(g2[x] == mid.grank@[x]);
                        }
                    }
                }
                assert forall|x: int| 0 <= x < self.n() implies #[trigger] rootf(
                    self.parent@,
                    g2,
                    b2,
                    x,
                ) == (if mid.root_of(x) == ra {
                    rb
                } else {
                    mid.root_of(x)
                }) by {
                    lemma_link_remaps(mid.parent@, mid.grank@, mid.gbound@, g2, b2, ra, rb, x);
                }
            }
        }
        proof {
            self.hist = Ghost(mid.hist@.push((i as int, j as int)));
            assert(mid.hist@ == old(self).hist@);
            assert(self.hist@.drop_last() =~= mid.hist@);
            assert(self.hist@.last() == (i as int, j as int));
            assert forall|a: int, b: int|
                0 <= a < self.n() && 0 <= b < self.n() implies #[trigger] self.same(a, b) == (
            mid.same(a, b) || (mid.same(a, i as int) && mid.same(j as int, b)) || (mid.same(
                a,
                j as int,
            ) && mid.same(i as int, b))) by {
                if root_i != root_j {
                    assert(mid.root_of(i as int) == root_i as int);
                    assert(mid.root_of(j as int) == root_j as int);
                } else {
                    assert(self.same(a, b) == mid.same(a, b));
                }
            }
            assert forall|a: int, b: int|
                0 <= a < self.n() && 0 <= b < self.n() implies #[trigger] self.same(a, b)
                == linked(self.hist@, a, b) by {
                assert(mid.same(a, b) == linked(mid.hist@, a, b));
                assert(mid.same(a, i as int) == linked(mid.hist@, a, i as int));
                assert(mid.same(j as int, b) == linked(mid.hist@, j as int, b));
                assert(mid.same(a, j as int) == linked(mid.hist@, a, j as int));
                assert(mid.same(i as int, b) == linked(mid.hist@, i as int, b));
            }
            assert forall|a: int, b: int|
                0 <= a < old(self).n() && 0 <= b < old(self).n() implies #[trigger] self.same(
                a,
                b,
            ) == (old(self).same(a, b) || (old(self).same(a, i as int) && old(self).same(
                j as int,
                b,
            )) || (old(self).same(a, j as int) && old(self).same(i as int, b))) by {
                assert(mid.same(a, b) == old(self).same(a, b));
                assert(mid.same(a, i as int) == old(self).same(a, i as int));
                assert(mid.same(j as int, b) == old(self).same(j as int, b));
                assert(mid.same(a, j as int) == old(self).same(a, j as int));
                assert(mid.same(i as int, b) == old(self).same(i as int, b));
            }
        }
    }

    /// A value-equal copy.
    pub fn duplicate(&self) -> (r: UnionFind)
        ensures
            r.parent@ == self.parent@,
            r.rank@ == self.rank@,
            r.grank == self.grank,
            r.gbound == self.gbound,
            r.hist == self.hist,
            r.n() == self.n(),
            self.wf() ==> r.wf(),
            forall|a: int, b: int| #[trigger] r.same(a, b) == self.same(a, b),
    {
        let parent = crate::mcts::clone_usize_vec(&self.parent);
        let rank = crate::mcts::clone_usize_vec(&self.rank);
        let r = UnionFind {
            parent,
            rank,
            grank: Ghost(self.grank@),
            gbound: Ghost(self.gbound@),
            hist: Ghost(self.hist@),
        };
        proof {
            assert(r.parent@ =~= self.parent@);
            assert(r.rank@ =~= self.rank@);
            assert forall|a: int, b: int| #[trigger] r.same(a, b) == self.same(a, b) by {
                assert(r.root_of(a) == self.root_of(a));
                assert(r.root_of(b) == self.root_of(b));
            }
            if self.wf() {
                assert forall|a: int, b: int|
                    0 <= a < r.n() && 0 <= b < r.n() implies #[trigger] r.same(a, b) == linked(
                    r.hist@,
                    a,
                    b,
                ) by {
                    assert(self.same(a, b) == linked(self.hist@, a, b));
                }
            }
        }
        r
    }

    /// Whether `i` and `j` are in one class: exactly whether the recorded
    /// unions link them.
    pub fn connected(&mut self, i: usize, j: usize) -> (r: bool)
        requires
            old(self).wf(),
            i < old(self).n(),
            j < old(self).n(),
        ensures
            final(self).wf(),
            final(self).n() == old(self).n(),
            final(self).hist@ == old(self).hist@,
            r == linked(old(self).hist@, i as int, j as int),
            forall|j2: int| 0 <= j2 < old(self).n() ==> #[trigger] final(self).root_of(j2) == old(
                self,
            ).root_of(j2),
    {
        let ghost orig = *self;
        let ri = self.find(i);
        let rj = self.find(j);
        proof {
            assert(ri as int == orig.root_of(i as int));
            assert(rj as int == orig.root_of(j as int));
            assert(orig.same(i as int, j as int) == linked(orig.hist@, i as int, j as int));
        }
        ri == rj
    }
}

} // verus!
