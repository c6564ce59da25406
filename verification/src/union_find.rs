//! Disjoint-set forest with union by rank and path compression, used to
//! group BSP leaves into rooms.

use vstd::prelude::*;

verus! {

/// Representative reached from `i` by following parent links while the rank
/// strictly increases (which, on a well-formed forest, is every link but a
/// root's self-loop).
#[verifier::opaque]
pub open spec fn root_of(parent: Seq<usize>, rank: Seq<usize>, i: int) -> int
    decreases usize::MAX - (if 0 <= i < rank.len() { rank[i] as int } else { 0 }),
{
    if 0 <= i < parent.len() && parent.len() == rank.len() && parent[i] as int != i
        && (parent[i] as int) < parent.len() && rank[i] < rank[parent[i] as int] {
        root_of(parent, rank, parent[i] as int)
    } else {
        i
    }
}

/// Parent links stay in range and ranks strictly increase towards the root.
#[verifier::opaque]
pub open spec fn links_ok(parent: Seq<usize>, rank: Seq<usize>) -> bool {
    &&& parent.len() == rank.len()
    &&& forall|i: int| 0 <= i < parent.len() ==> (#[trigger] parent[i] as int) < parent.len()
        && (parent[i] as int != i ==> rank[i] < rank[parent[i] as int])
}

/// Members of the class whose representative is `r`.
pub open spec fn class_of(parent: Seq<usize>, rank: Seq<usize>, r: int) -> Set<int> {
    Set::new(|i: int| 0 <= i < parent.len() && root_of(parent, rank, i) == r)
}

/// Each root's rank is below the size of its class.
#[verifier::opaque]
pub open spec fn sizes_ok(parent: Seq<usize>, rank: Seq<usize>) -> bool {
    forall|r: int| 0 <= r < parent.len() && parent[r] as int == r ==>
        #[trigger] rank[r] < class_of(parent, rank, r).len()
}

/// Indices whose flag is set.
pub open spec fn marked(flags: Seq<bool>) -> Set<int> {
    Set::new(|r: int| 0 <= r < flags.len() && flags[r])
}

/// Representatives of all classes.
pub open spec fn roots_of(parent: Seq<usize>) -> Set<int> {
    Set::new(|r: int| 0 <= r < parent.len() && parent[r] as int == r)
}

pub struct UnionFind {
    pub parent: Vec<usize>,
    pub rank: Vec<usize>,
}

impl UnionFind {
    /// Number of elements.
    pub open spec fn size(&self) -> nat {
        self.parent@.len()
    }

    /// Representative of `i`'s class.
    #[verifier::inline]
    pub open spec fn root(&self, i: int) -> int {
        root_of(self.parent@, self.rank@, i)
    }

    /// `i` and `j` are in the same class.
    pub open spec fn same(&self, i: int, j: int) -> bool {
        self.root(i) == self.root(j)
    }

    /// Number of classes.
    pub open spec fn num_classes(&self) -> nat {
        roots_of(self.parent@).len()
    }

    /// Well-formed forest: links in range, ranks increasing towards roots,
    /// and each root's rank below the size of its class.
    pub open spec fn wf(&self) -> bool {
        &&& links_ok(self.parent@, self.rank@)
        &&& sizes_ok(self.parent@, self.rank@)
    }

    /// `n` singleton classes.
    pub fn new(n: usize) -> (uf: UnionFind)
        ensures
            uf.wf(),
            uf.size() == n,
            forall|i: int| 0 <= i < n ==> #[trigger] uf.root(i) == i,
    {
        let mut parent: Vec<usize> = Vec::new();
        let mut rank: Vec<usize> = Vec::new();
        let mut i: usize = 0;
        while i < n
            invariant
                i <= n,
                parent@.len() == i,
                rank@.len() == i,
                forall|j: int| 0 <= j < i ==> #[trigger] parent@[j] as int == j && rank@[j] == 0,
            decreases n - i,
        {
            parent.push(i);
            rank.push(0);
            i = i + 1;
        }
        let uf = UnionFind { parent, rank };
        proof {
            reveal(links_ok);
            reveal(sizes_ok);
        }
        assert(links_ok(uf.parent@, uf.rank@));
        assert forall|r: int| 0 <= r < n implies #[trigger] uf.root(r) == r by {
            assert(uf.parent@[r] as int == r);
            lemma_root_basic(uf.parent@, uf.rank@, r);
        }
        assert forall|r: int| 0 <= r < uf.parent@.len() && uf.parent@[r] as int == r implies
            #[trigger] uf.rank@[r] < class_of(uf.parent@, uf.rank@, r).len() by {
            assert(class_of(uf.parent@, uf.rank@, r) =~= set![r]) by {
                assert forall|j: int| #[trigger] class_of(uf.parent@, uf.rank@, r).contains(j) <==> j == r by {
                    if 0 <= j < n {
                        assert(uf.root(j) == j);
                    }
                    if j == r {
                        assert(uf.root(r) == r);
                    }
                }
            }
        }
        uf
    }

    /// Representative of `x`'s class. Compresses the path it walks: every
    /// element keeps its representative.
    pub fn find(&mut self, x: usize) -> (r: usize)
        requires
            old(self).wf(),
            x < old(self).size(),
        ensures
            final(self).wf(),
            final(self).size() == old(self).size(),
            final(self).rank@ == old(self).rank@,
            r as int == old(self).root(x as int),
            forall|i: int| 0 <= i < old(self).size() ==> #[trigger] final(self).root(i) == old(self).root(i),
            roots_of(final(self).parent@) == roots_of(old(self).parent@),
        decreases usize::MAX - old(self).rank@[x as int],
    {
        proof {
            lemma_root_basic(self.parent@, self.rank@, x as int);
        }
        let p = self.parent[x];
        if p != x {
            proof {
                assert(self.rank@[x as int] < self.rank@[p as int]);
            }
            let r = self.find(p);
            let ghost p1 = self.parent@;
            proof {
                lemma_compress_step(old(self).parent@, self.rank@, p1, x as int, r as int);
            }
            self.parent.set(x, r);
            r
        } else {
            p
        }
    }

    /// Merge the classes of `a` and `b`.
    pub fn union(&mut self, a: usize, b: usize)
        requires
            old(self).wf(),
            a < old(self).size(),
            b < old(self).size(),
        ensures
            final(self).wf(),
            final(self).size() == old(self).size(),
            final(self).root(a as int) == old(self).root(a as int)
                || final(self).root(a as int) == old(self).root(b as int),
            forall|i: int| 0 <= i < old(self).size() ==> #[trigger] final(self).root(i) == (
                if old(self).same(i, a as int) || old(self).same(i, b as int) {
                    final(self).root(a as int)
                } else {
                    old(self).root(i)
                }),
            final(self).same(a as int, b as int),
            forall|i: int, j: int| 0 <= i < old(self).size() && 0 <= j < old(self).size() ==>
                (#[trigger] final(self).same(i, j) <==> old(self).same(i, j)
                    || (old(self).same(i, a as int) && old(self).same(j, b as int))
                    || (old(self).same(i, b as int) && old(self).same(j, a as int))),
            !old(self).same(a as int, b as int) ==> (final(self).root(a as int) == old(self).root(b as int)
                <==> old(self).rank@[old(self).root(a as int)] < old(self).rank@[old(self).root(b as int)]),
            old(self).same(a as int, b as int) ==> roots_of(final(self).parent@) == roots_of(old(self).parent@),
            !old(self).same(a as int, b as int) ==> roots_of(final(self).parent@) == roots_of(old(self).parent@).remove(
                if final(self).root(a as int) == old(self).root(a as int) { old(self).root(b as int) } else { old(self).root(a as int) }),
            old(self).same(a as int, b as int) ==> final(self).num_classes() == old(self).num_classes(),
            !old(self).same(a as int, b as int) ==> final(self).num_classes() + 1 == old(self).num_classes(),
    {
        let ghost p0 = self.parent@;
        let ghost k0 = self.rank@;
        let ra = self.find(a);
        let rb = self.find(b);
        proof {
            reveal(sizes_ok);
            lemma_root_basic(self.parent@, self.rank@, a as int);
            lemma_root_basic(self.parent@, self.rank@, b as int);
            lemma_roots_finite(self.parent@);
        }
        if ra == rb {
            return;
        }
        proof {
            assert(p0.len() == self.parent@.len());
        }
        let ghost p1 = self.parent@;
        let ghost k1 = self.rank@;
        if self.rank[ra] < self.rank[rb] {
            self.parent.set(ra, rb);
            proof {
                lemma_link(p1, k1, ra as int, rb as int);
                lemma_link_classes(p1, k1, ra as int, rb as int);
                lemma_link_wf(p1, k1, self.parent@, self.rank@, ra as int, rb as int);
                lemma_root_basic(p1, k1, rb as int);
                assert(roots_of(self.parent@) =~= roots_of(p1).remove(ra as int));
            }
        } else {
            let rra = self.rank[ra];
            let n = self.parent.len();
            proof {
                lemma_class_bounded(p1, k1, ra as int);
                assert(self.parent@.len() == n);
                assert(rra < usize::MAX);
            }
            self.parent.set(rb, ra);
            if self.rank[ra] == self.rank[rb] {
                self.rank.set(ra, rra + 1);
                proof {
                    lemma_rank_bump(p1, k1, ra as int);
                    let k2 = k1.update(ra as int, (rra + 1) as usize);
                    assert(self.rank@ == k2);
                    lemma_classes_same(p1, k1, p1, k2);
                    lemma_link(p1, k2, rb as int, ra as int);
                    lemma_link_classes(p1, k2, rb as int, ra as int);
                    lemma_class_bounded(p1, k1, rb as int);
                    lemma_link_wf(p1, k2, self.parent@, self.rank@, rb as int, ra as int);
                }
            } else {
                proof {
                    lemma_link(p1, k1, rb as int, ra as int);
                    lemma_link_classes(p1, k1, rb as int, ra as int);
                    lemma_link_wf(p1, k1, self.parent@, self.rank@, rb as int, ra as int);
                }
            }
            proof {
                lemma_root_basic(p1, k1, ra as int);
                assert(roots_of(self.parent@) =~= roots_of(p1).remove(rb as int));
            }
        }
    }

    /// Number of classes (compresses every path on the way).
    pub fn group_count(&mut self) -> (c: usize)
        requires
            old(self).wf(),
        ensures
            final(self).wf(),
            final(self).size() == old(self).size(),
            forall|i: int| 0 <= i < old(self).size() ==> #[trigger] final(self).root(i) == old(self).root(i),
            c == old(self).num_classes(),
    {
        let n = self.parent.len();
        let mut seen: Vec<bool> = vec![false; n];
        let mut c: usize = 0;
        proof {
            assert(marked(seen@) =~= Set::empty());
        }
        let mut i: usize = 0;
        let ghost p0 = self.parent@;
        let ghost k0 = self.rank@;
        while i < n
            invariant
                self.wf(),
                n == self.parent@.len(),
                n == p0.len(),
                i <= n,
                seen@.len() == n,
                self.rank@ == k0,
                links_ok(p0, k0),
                forall|j: int| 0 <= j < n ==> #[trigger] self.root(j) == root_of(p0, k0, j),
                roots_of(self.parent@) == roots_of(p0),
                forall|r: int| 0 <= r < n ==> (#[trigger] seen@[r] <==> exists|j: int| 0 <= j < i && root_of(p0, k0, j) == r),
                c == marked(seen@).len(),
                marked(seen@).finite(),
            decreases n - i,
        {
            let r = self.find(i);
            proof {
                lemma_root_basic(p0, k0, i as int);
            }
            let ghost s0 = marked(seen@);
            if !seen[r] {
                seen.set(r, true);
                proof {
                    assert(marked(seen@) =~= s0.insert(r as int));
                    vstd::set_lib::lemma_int_range(0, n as int);
                    assert(marked(seen@).subset_of(vstd::set_lib::set_int_range(0, n as int)));
                    vstd::set_lib::lemma_len_subset(marked(seen@), vstd::set_lib::set_int_range(0, n as int));
                }
                c = c + 1;
            }
            proof {
                assert forall|q: int| 0 <= q < n implies (#[trigger] seen@[q] <==> exists|j: int| 0 <= j < i + 1 && root_of(p0, k0, j) == q) by {
                    if seen@[q] && q != r as int {
                        let j = choose|j: int| 0 <= j < i && root_of(p0, k0, j) == q;
                        assert(0 <= j < i + 1 && root_of(p0, k0, j) == q);
                    }
                    if q == r as int {
                        assert(root_of(p0, k0, i as int) == q);
                    }
                    if exists|j: int| 0 <= j < i + 1 && root_of(p0, k0, j) == q {
                        let j = choose|j: int| 0 <= j < i + 1 && root_of(p0, k0, j) == q;
                        if j < i {
                            assert(exists|jj: int| 0 <= jj < i && root_of(p0, k0, jj) == q);
                        }
                    }
                }
            }
            i = i + 1;
        }
        proof {
            assert(marked(seen@) =~= roots_of(p0)) by {
                assert forall|q: int| #[trigger] marked(seen@).contains(q) <==> roots_of(p0).contains(q) by {
                    if 0 <= q < n && seen@[q] {
                        let j = choose|j: int| 0 <= j < n && root_of(p0, k0, j) == q;
                        lemma_root_basic(p0, k0, j);
                    }
                    if roots_of(p0).contains(q) {
                        lemma_root_basic(p0, k0, q);
                        assert(root_of(p0, k0, q) == q);
                        assert(seen@[q]);
                    }
                }
            }
        }
        c
    }
}

/// Basic facts about representatives on a well-linked forest.
pub proof fn lemma_root_basic(parent: Seq<usize>, rank: Seq<usize>, i: int)
    requires
        links_ok(parent, rank),
        0 <= i < parent.len(),
    ensures
        parent.len() == rank.len(),
        0 <= root_of(parent, rank, i) < parent.len(),
        parent[root_of(parent, rank, i)] as int == root_of(parent, rank, i),
        rank[i] <= rank[root_of(parent, rank, i)],
        parent[i] as int == i ==> root_of(parent, rank, i) == i,
        parent[i] as int != i ==> root_of(parent, rank, i) == root_of(parent, rank, parent[i] as int)
            && rank[i] < rank[root_of(parent, rank, i)] && rank[i] < rank[parent[i] as int],
        (parent[i] as int) < parent.len(),
        root_of(parent, rank, root_of(parent, rank, i)) == root_of(parent, rank, i),
    decreases usize::MAX - rank[i],
{
    reveal(links_ok);
    reveal(sizes_ok);
    reveal(root_of);
    if parent[i] as int != i {
        assert(rank[i] < rank[parent[i] as int]);
        lemma_root_basic(parent, rank, parent[i] as int);
    }
}

/// One path-compression step on a forest whose representatives match the
/// well-formed forest `p0` keeps it well formed with the same classes.
proof fn lemma_compress_step(p0: Seq<usize>, k: Seq<usize>, p1: Seq<usize>, x: int, r: int)
    requires
        links_ok(p0, k),
        sizes_ok(p0, k),
        links_ok(p1, k),
        sizes_ok(p1, k),
        p1.len() == p0.len(),
        0 <= x < p0.len(),
        p0[x] as int != x,
        r == root_of(p0, k, p0[x] as int),
        forall|i: int| 0 <= i < p0.len() ==> #[trigger] root_of(p1, k, i) == root_of(p0, k, i),
        roots_of(p1) == roots_of(p0),
    ensures
        links_ok(p1.update(x, r as usize), k),
        sizes_ok(p1.update(x, r as usize), k),
        forall|i: int| 0 <= i < p0.len() ==> #[trigger] root_of(p1.update(x, r as usize), k, i) == root_of(p0, k, i),
        roots_of(p1.update(x, r as usize)) == roots_of(p0),
{
    reveal(links_ok);
    reveal(sizes_ok);
    lemma_root_basic(p0, k, x);
    assert(root_of(p1, k, x) == r);
    lemma_compress(p1, k, x, r);
    let p2 = p1.update(x, r as usize);
    lemma_classes_same(p1, k, p2, k);
    lemma_roots_same(p1, k, p2, k);
    assert forall|q: int| 0 <= q < p2.len() && p2[q] as int == q implies #[trigger] k[q] < class_of(p2, k, q).len() by {
        assert(roots_of(p2).contains(q));
        assert(roots_of(p1).contains(q));
        assert(class_of(p2, k, q) == class_of(p1, k, q));
    }
}

/// Redirecting `x` straight to its representative keeps every representative.
proof fn lemma_compress(parent: Seq<usize>, rank: Seq<usize>, x: int, r: int)
    requires
        links_ok(parent, rank),
        0 <= x < parent.len(),
        r == root_of(parent, rank, x),
    ensures
        links_ok(parent.update(x, r as usize), rank),
        forall|i: int| 0 <= i < parent.len() ==>
            #[trigger] root_of(parent.update(x, r as usize), rank, i) == root_of(parent, rank, i),
{
    reveal(links_ok);
    reveal(sizes_ok);
    lemma_root_basic(parent, rank, x);
    let p2 = parent.update(x, r as usize);
    assert forall|i: int| 0 <= i < p2.len() && p2[i] as int != i implies #[trigger] rank[i] < rank[p2[i] as int] by {
        if i == x {
            assert(rank[x] < rank[r]);
        }
    }
    assert forall|i: int| 0 <= i < parent.len() implies
        #[trigger] root_of(p2, rank, i) == root_of(parent, rank, i) by {
        lemma_compress_at(parent, rank, x, r, i);
    }
}

proof fn lemma_compress_at(parent: Seq<usize>, rank: Seq<usize>, x: int, r: int, i: int)
    requires
        links_ok(parent, rank),
        links_ok(parent.update(x, r as usize), rank),
        0 <= x < parent.len(),
        r == root_of(parent, rank, x),
        0 <= i < parent.len(),
    ensures
        root_of(parent.update(x, r as usize), rank, i) == root_of(parent, rank, i),
    decreases usize::MAX - rank[i],
{
    reveal(links_ok);
    reveal(sizes_ok);
    let p2 = parent.update(x, r as usize);
    lemma_root_basic(parent, rank, x);
    lemma_root_basic(parent, rank, i);
    lemma_root_basic(p2, rank, i);
    if i == x {
        if r != x {
            assert(p2[r] == parent[r]);
            lemma_root_basic(p2, rank, r);
        }
    } else if parent[i] as int != i {
        assert(p2[i] == parent[i]);
        lemma_compress_at(parent, rank, x, r, parent[i] as int);
    }
}

/// Pointing root `ra` at root `rb` (of higher rank) moves `ra`'s class under `rb`.
proof fn lemma_link(parent: Seq<usize>, rank: Seq<usize>, ra: int, rb: int)
    requires
        links_ok(parent, rank),
        0 <= ra < parent.len(),
        0 <= rb < parent.len(),
        parent[ra] as int == ra,
        parent[rb] as int == rb,
        ra != rb,
        rank[ra] < rank[rb],
    ensures
        links_ok(parent.update(ra, rb as usize), rank),
        forall|i: int| 0 <= i < parent.len() ==>
            #[trigger] root_of(parent.update(ra, rb as usize), rank, i) ==
                (if root_of(parent, rank, i) == ra { rb } else { root_of(parent, rank, i) }),
{
    reveal(links_ok);
    reveal(sizes_ok);
    let p2 = parent.update(ra, rb as usize);
    assert(links_ok(p2, rank));
    assert forall|i: int| 0 <= i < parent.len() implies
        #[trigger] root_of(p2, rank, i) == (if root_of(parent, rank, i) == ra { rb } else { root_of(parent, rank, i) }) by {
        lemma_link_at(parent, rank, ra, rb, i);
    }
}

proof fn lemma_link_at(parent: Seq<usize>, rank: Seq<usize>, ra: int, rb: int, i: int)
    requires
        links_ok(parent, rank),
        links_ok(parent.update(ra, rb as usize), rank),
        0 <= ra < parent.len(),
        0 <= rb < parent.len(),
        parent[ra] as int == ra,
        parent[rb] as int == rb,
        ra != rb,
        rank[ra] < rank[rb],
        0 <= i < parent.len(),
    ensures
        root_of(parent.update(ra, rb as usize), rank, i) ==
            (if root_of(parent, rank, i) == ra { rb } else { root_of(parent, rank, i) }),
    decreases usize::MAX - rank[i],
{
    reveal(links_ok);
    reveal(sizes_ok);
    let p2 = parent.update(ra, rb as usize);
    lemma_root_basic(parent, rank, i);
    lemma_root_basic(p2, rank, i);
    if i == ra {
        assert(p2[rb] == parent[rb]);
        lemma_root_basic(p2, rank, rb);
    } else if parent[i] as int != i {
        assert(p2[i] == parent[i]);
        lemma_link_at(parent, rank, ra, rb, parent[i] as int);
    }
}

/// Raising a root's rank keeps the links ordered and every representative.
proof fn lemma_rank_bump(parent: Seq<usize>, rank: Seq<usize>, r: int)
    requires
        links_ok(parent, rank),
        0 <= r < parent.len(),
        parent[r] as int == r,
        rank[r] < usize::MAX,
    ensures
        links_ok(parent, rank.update(r, (rank[r] + 1) as usize)),
        forall|i: int| 0 <= i < parent.len() ==>
            #[trigger] root_of(parent, rank.update(r, (rank[r] + 1) as usize), i) == root_of(parent, rank, i),
{
    reveal(links_ok);
    reveal(sizes_ok);
    let k2 = rank.update(r, (rank[r] + 1) as usize);
    assert forall|i: int| 0 <= i < parent.len() && parent[i] as int != i implies #[trigger] k2[i] < k2[parent[i] as int] by {
        assert(i != r);
        assert(rank[i] < rank[parent[i] as int]);
    }
    assert forall|i: int| 0 <= i < parent.len() implies
        #[trigger] root_of(parent, k2, i) == root_of(parent, rank, i) by {
        lemma_rank_bump_at(parent, rank, r, i);
    }
}

proof fn lemma_rank_bump_at(parent: Seq<usize>, rank: Seq<usize>, r: int, i: int)
    requires
        links_ok(parent, rank),
        links_ok(parent, rank.update(r, (rank[r] + 1) as usize)),
        0 <= r < parent.len(),
        parent[r] as int == r,
        rank[r] < usize::MAX,
        0 <= i < parent.len(),
    ensures
        root_of(parent, rank.update(r, (rank[r] + 1) as usize), i) == root_of(parent, rank, i),
    decreases usize::MAX - rank[i],
{
    reveal(links_ok);
    reveal(sizes_ok);
    lemma_root_basic(parent, rank, i);
    lemma_root_basic(parent, rank.update(r, (rank[r] + 1) as usize), i);
    if parent[i] as int != i {
        lemma_rank_bump_at(parent, rank, r, parent[i] as int);
    }
}

/// Classes are finite and no larger than the element count.
proof fn lemma_class_bounded(parent: Seq<usize>, rank: Seq<usize>, r: int)
    ensures
        class_of(parent, rank, r).finite(),
        class_of(parent, rank, r).len() <= parent.len(),
{
    reveal(links_ok);
    reveal(sizes_ok);
    vstd::set_lib::lemma_int_range(0, parent.len() as int);
    assert(class_of(parent, rank, r).subset_of(vstd::set_lib::set_int_range(0, parent.len() as int)));
    vstd::set_lib::lemma_len_subset(class_of(parent, rank, r), vstd::set_lib::set_int_range(0, parent.len() as int));
}

proof fn lemma_roots_finite(parent: Seq<usize>)
    ensures
        roots_of(parent).finite(),
{
    reveal(links_ok);
    reveal(sizes_ok);
    vstd::set_lib::lemma_int_range(0, parent.len() as int);
    assert(roots_of(parent).subset_of(vstd::set_lib::set_int_range(0, parent.len() as int)));
    vstd::set_lib::lemma_len_subset(roots_of(parent), vstd::set_lib::set_int_range(0, parent.len() as int));
}

/// Two forests with the same representatives have the same classes.
proof fn lemma_classes_same(p1: Seq<usize>, k1: Seq<usize>, p2: Seq<usize>, k2: Seq<usize>)
    requires
        p1.len() == p2.len(),
        forall|i: int| 0 <= i < p1.len() ==> #[trigger] root_of(p2, k2, i) == root_of(p1, k1, i),
    ensures
        forall|r: int| #[trigger] class_of(p2, k2, r) == class_of(p1, k1, r),
{
    reveal(links_ok);
    reveal(sizes_ok);
    assert forall|r: int| #[trigger] class_of(p2, k2, r) == class_of(p1, k1, r) by {
        assert(class_of(p2, k2, r) =~= class_of(p1, k1, r));
    }
}

/// Two well-linked forests with the same representatives have the same roots.
proof fn lemma_roots_same(p1: Seq<usize>, k1: Seq<usize>, p2: Seq<usize>, k2: Seq<usize>)
    requires
        links_ok(p1, k1),
        links_ok(p2, k2),
        p1.len() == p2.len(),
        forall|i: int| 0 <= i < p1.len() ==> #[trigger] root_of(p2, k2, i) == root_of(p1, k1, i),
    ensures
        roots_of(p2) == roots_of(p1),
{
    reveal(links_ok);
    reveal(sizes_ok);
    assert forall|r: int| #[trigger] roots_of(p2).contains(r) <==> roots_of(p1).contains(r) by {
        if 0 <= r < p1.len() {
            lemma_root_basic(p1, k1, r);
            lemma_root_basic(p2, k2, r);
            assert(root_of(p2, k2, r) == root_of(p1, k1, r));
        }
    }
    assert(roots_of(p2) =~= roots_of(p1));
}

/// After linking `ra` under `rb`, `rb`'s class is the union of both classes
/// and every other root keeps its class.
proof fn lemma_link_classes(parent: Seq<usize>, rank: Seq<usize>, ra: int, rb: int)
    requires
        links_ok(parent, rank),
        0 <= ra < parent.len(),
        0 <= rb < parent.len(),
        parent[ra] as int == ra,
        parent[rb] as int == rb,
        ra != rb,
        rank[ra] < rank[rb],
    ensures
        class_of(parent.update(ra, rb as usize), rank, rb)
            == class_of(parent, rank, ra) + class_of(parent, rank, rb),
        class_of(parent.update(ra, rb as usize), rank, rb).len()
            == class_of(parent, rank, ra).len() + class_of(parent, rank, rb).len(),
        forall|r: int| r != ra && r != rb ==>
            #[trigger] class_of(parent.update(ra, rb as usize), rank, r) == class_of(parent, rank, r),
{
    reveal(links_ok);
    reveal(sizes_ok);
    let p2 = parent.update(ra, rb as usize);
    lemma_link(parent, rank, ra, rb);
    let ca = class_of(parent, rank, ra);
    let cb = class_of(parent, rank, rb);
    assert(class_of(p2, rank, rb) =~= ca + cb);
    assert forall|r: int| r != ra && r != rb implies #[trigger] class_of(p2, rank, r) == class_of(parent, rank, r) by {
        assert(class_of(p2, rank, r) =~= class_of(parent, rank, r));
    }
    lemma_class_bounded(parent, rank, ra);
    lemma_class_bounded(parent, rank, rb);
    assert(ca.disjoint(cb));
    vstd::set_lib::lemma_set_disjoint_lens(ca, cb);
}

/// The size invariant survives a link of `ra` under `rb` (with `rank2` the
/// ranks after an optional bump of `rb`).
proof fn lemma_link_wf(p1: Seq<usize>, k1: Seq<usize>, p2: Seq<usize>, k2: Seq<usize>, ra: int, rb: int)
    requires
        links_ok(p1, k1),
        0 <= ra < p1.len(),
        0 <= rb < p1.len(),
        p1[ra] as int == ra,
        p1[rb] as int == rb,
        ra != rb,
        k1[ra] < k1[rb],
        p2 == p1.update(ra, rb as usize),
        k2 == k1,
        forall|r: int| 0 <= r < p1.len() && p1[r] as int == r && r != rb ==>
            #[trigger] k1[r] < class_of(p1, k1, r).len(),
        k1[rb] <= class_of(p1, k1, rb).len(),
        root_of(p1, k1, ra) == ra,
    ensures
        links_ok(p2, k2),
        forall|r: int| 0 <= r < p2.len() && p2[r] as int == r ==>
            #[trigger] k2[r] < class_of(p2, k2, r).len(),
{
    reveal(links_ok);
    reveal(sizes_ok);
    lemma_link(p1, k1, ra, rb);
    lemma_link_classes(p1, k1, ra, rb);
    lemma_class_bounded(p1, k1, ra);
    assert(class_of(p1, k1, ra).contains(ra));
    assert(class_of(p1, k1, ra).len() >= 1);
    assert forall|r: int| 0 <= r < p2.len() && p2[r] as int == r implies
        #[trigger] k2[r] < class_of(p2, k2, r).len() by {
        assert(r != ra);
        assert(p1[r] as int == r);
        if r != rb {
            assert(class_of(p2, k2, r) == class_of(p1, k1, r));
        }
    }
}

} // verus!
