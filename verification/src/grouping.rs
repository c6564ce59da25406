//! Grouping of BSP leaves into rooms: leaf adjacency, kind allocation and
//! the smallest-first merge of Normal leaves.

use vstd::prelude::*;
use crate::map_gen::{BspRect, WallLine, rect_in, map_ok, rows, lemma_map_ok, STUB_RETAIN_PERCENT, MIN_MERGE_GAP};
use crate::cell::{Cell, Terrain, grid_ok, lemma_flat_in_range};
use crate::union_find::{UnionFind, roots_of, root_of, links_ok, lemma_root_basic};

verus! {

/// Two leaves facing each other across a BSP wall.
#[derive(Clone, Copy, Debug)]
pub struct LeafEdge {
    pub a: usize,
    pub b: usize,
    pub wall_idx: usize,
}

/// Coordinates of the rectangle fit in `usize` arithmetic.
pub open spec fn rect_fits(r: BspRect) -> bool {
    r.x + r.w < usize::MAX && r.y + r.h < usize::MAX
}

/// Coordinates of the wall fit in `usize` arithmetic.
pub open spec fn wall_fits(w: WallLine) -> bool {
    match w {
        WallLine::Horizontal { y, x0, x1 } => y < usize::MAX,
        WallLine::Vertical { x, y0, y1 } => x < usize::MAX,
    }
}

/// Leaf `a` ends just before wall `w` and leaf `b` starts just after it, and
/// their extents along the wall overlap.
pub open spec fn faces(a: BspRect, b: BspRect, w: WallLine) -> bool {
    match w {
        WallLine::Horizontal { y, x0, x1 } =>
            a.y + a.h == y && b.y == y + 1
                && vstd::math::max(a.x as int, b.x as int) < vstd::math::min(a.x + a.w, b.x + b.w),
        WallLine::Vertical { x, y0, y1 } =>
            a.x + a.w == x && b.x == x + 1
                && vstd::math::max(a.y as int, b.y as int) < vstd::math::min(a.y + a.h, b.y + b.h),
    }
}

/// Leaf `a` ends just before wall `w`.
pub open spec fn before_wall(a: BspRect, w: WallLine) -> bool {
    match w {
        WallLine::Horizontal { y, x0, x1 } => a.y + a.h == y,
        WallLine::Vertical { x, y0, y1 } => a.x + a.w == x,
    }
}

/// Lexicographic order on (wall, leaf a, leaf b).
pub open spec fn edge_lt(w1: int, a1: int, b1: int, w2: int, a2: int, b2: int) -> bool {
    w1 < w2 || (w1 == w2 && (a1 < a2 || (a1 == a2 && b1 < b2)))
}

/// `edges` holds the triple `(w, a, b)`.
pub open spec fn has_edge(edges: Seq<LeafEdge>, w: int, a: int, b: int) -> bool {
    exists|t: int| 0 <= t < edges.len() && edges[t].wall_idx == w && edges[t].a == a && edges[t].b == b
}

proof fn lemma_has_edge_push(edges: Seq<LeafEdge>, e: LeafEdge, w: int, a: int, b: int)
    requires
        has_edge(edges, w, a, b),
    ensures
        has_edge(edges.push(e), w, a, b),
{
    let t = choose|t: int| 0 <= t < edges.len() && edges[t].wall_idx == w && edges[t].a == a && edges[t].b == b;
    assert(edges.push(e)[t] == edges[t]);
}

/// Every pair of leaves facing each other across a wall, ordered by wall,
/// then first leaf, then second leaf.
pub fn find_leaf_edges(leaves: &[BspRect], walls: &[WallLine]) -> (edges: Vec<LeafEdge>)
    requires
        forall|i: int| 0 <= i < leaves@.len() ==> rect_fits(#[trigger] leaves@[i]),
        forall|i: int| 0 <= i < walls@.len() ==> wall_fits(#[trigger] walls@[i]),
    ensures
        forall|t: int| 0 <= t < edges@.len() ==> {
            let e = #[trigger] edges@[t];
            &&& e.wall_idx < walls@.len()
            &&& e.a < leaves@.len()
            &&& e.b < leaves@.len()
            &&& faces(leaves@[e.a as int], leaves@[e.b as int], walls@[e.wall_idx as int])
        },
        forall|t1: int, t2: int| 0 <= t1 < t2 < edges@.len() ==>
            edge_lt(#[trigger] edges@[t1].wall_idx as int, edges@[t1].a as int, edges@[t1].b as int,
                #[trigger] edges@[t2].wall_idx as int, edges@[t2].a as int, edges@[t2].b as int),
        forall|w: int, a: int, b: int| 0 <= w < walls@.len() && 0 <= a < leaves@.len() && 0 <= b < leaves@.len()
            && #[trigger] faces(leaves@[a], leaves@[b], walls@[w]) ==> has_edge(edges@, w, a, b),
{
    let mut edges: Vec<LeafEdge> = Vec::new();
    let nl = leaves.len();
    let mut wi: usize = 0;
    while wi < walls.len()
        invariant
            nl == leaves@.len(),
            wi <= walls@.len(),
            forall|i: int| 0 <= i < leaves@.len() ==> rect_fits(#[trigger] leaves@[i]),
            forall|i: int| 0 <= i < walls@.len() ==> wall_fits(#[trigger] walls@[i]),
            forall|t: int| 0 <= t < edges@.len() ==> {
                let e = #[trigger] edges@[t];
                &&& e.wall_idx < wi
                &&& e.a < leaves@.len()
                &&& e.b < leaves@.len()
                &&& faces(leaves@[e.a as int], leaves@[e.b as int], walls@[e.wall_idx as int])
            },
            forall|t1: int, t2: int| 0 <= t1 < t2 < edges@.len() ==>
                edge_lt(#[trigger] edges@[t1].wall_idx as int, edges@[t1].a as int, edges@[t1].b as int,
                    #[trigger] edges@[t2].wall_idx as int, edges@[t2].a as int, edges@[t2].b as int),
            forall|w: int, a: int, b: int| 0 <= w < wi && 0 <= a < leaves@.len() && 0 <= b < leaves@.len()
                && #[trigger] faces(leaves@[a], leaves@[b], walls@[w]) ==> has_edge(edges@, w, a, b),
        decreases walls@.len() - wi,
    {
        let wall = walls[wi];
        let ghost e_w = edges@;
        let mut ai: usize = 0;
        while ai < nl
            invariant
                nl == leaves@.len(),
                wi < walls@.len(),
                wall == walls@[wi as int],
                ai <= nl,
                e_w.len() <= edges@.len(),
                forall|t: int| 0 <= t < e_w.len() ==> #[trigger] edges@[t] == e_w[t],
                forall|i: int| 0 <= i < leaves@.len() ==> rect_fits(#[trigger] leaves@[i]),
                forall|i: int| 0 <= i < walls@.len() ==> wall_fits(#[trigger] walls@[i]),
                forall|t: int| 0 <= t < e_w.len() ==> (#[trigger] e_w[t]).wall_idx < wi,
                forall|t: int| 0 <= t < edges@.len() ==> {
                    let e = #[trigger] edges@[t];
                    &&& e.wall_idx <= wi
                    &&& e.a < leaves@.len()
                    &&& e.b < leaves@.len()
                    &&& faces(leaves@[e.a as int], leaves@[e.b as int], walls@[e.wall_idx as int])
                    &&& (t >= e_w.len() ==> e.wall_idx == wi && e.a < ai)
                },
                forall|t1: int, t2: int| 0 <= t1 < t2 < edges@.len() ==>
                    edge_lt(#[trigger] edges@[t1].wall_idx as int, edges@[t1].a as int, edges@[t1].b as int,
                        #[trigger] edges@[t2].wall_idx as int, edges@[t2].a as int, edges@[t2].b as int),
                forall|w: int, a: int, b: int| 0 <= w < wi && 0 <= a < leaves@.len() && 0 <= b < leaves@.len()
                    && #[trigger] faces(leaves@[a], leaves@[b], walls@[w]) ==> has_edge(edges@, w, a, b),
                forall|a: int, b: int| 0 <= a < ai && 0 <= b < leaves@.len()
                    && #[trigger] faces(leaves@[a], leaves@[b], walls@[wi as int]) ==> has_edge(edges@, wi as int, a, b),
            decreases nl - ai,
        {
            let la = leaves[ai];
            let a_ok = match wall {
                WallLine::Horizontal { y, x0, x1 } => la.y + la.h == y,
                WallLine::Vertical { x, y0, y1 } => la.x + la.w == x,
            };
            if a_ok {
                let ghost e_a = edges@;
                let mut bi: usize = 0;
                while bi < nl
                    invariant
                        nl == leaves@.len(),
                        wi < walls@.len(),
                        wall == walls@[wi as int],
                        ai < nl,
                        la == leaves@[ai as int],
                        before_wall(la, wall),
                        bi <= nl,
                        e_w.len() <= e_a.len() <= edges@.len(),
                        forall|t: int| 0 <= t < e_a.len() ==> #[trigger] edges@[t] == e_a[t],
                        forall|t: int| 0 <= t < e_w.len() ==> #[trigger] e_a[t] == e_w[t],
                        forall|i: int| 0 <= i < leaves@.len() ==> rect_fits(#[trigger] leaves@[i]),
                        forall|i: int| 0 <= i < walls@.len() ==> wall_fits(#[trigger] walls@[i]),
                        forall|t: int| 0 <= t < e_w.len() ==> (#[trigger] e_w[t]).wall_idx < wi,
                        forall|t: int| 0 <= t < e_a.len() ==> {
                            let e = #[trigger] e_a[t];
                            t >= e_w.len() ==> e.wall_idx == wi && e.a < ai
                        },
                        forall|t: int| 0 <= t < edges@.len() ==> {
                            let e = #[trigger] edges@[t];
                            &&& e.wall_idx <= wi
                            &&& e.a < leaves@.len()
                            &&& e.b < leaves@.len()
                            &&& faces(leaves@[e.a as int], leaves@[e.b as int], walls@[e.wall_idx as int])
                            &&& (t >= e_a.len() ==> e.wall_idx == wi && e.a == ai && e.b < bi)
                        },
                        forall|t1: int, t2: int| 0 <= t1 < t2 < edges@.len() ==>
                            edge_lt(#[trigger] edges@[t1].wall_idx as int, edges@[t1].a as int, edges@[t1].b as int,
                                #[trigger] edges@[t2].wall_idx as int, edges@[t2].a as int, edges@[t2].b as int),
                        forall|w: int, a: int, b: int| 0 <= w < wi && 0 <= a < leaves@.len() && 0 <= b < leaves@.len()
                            && #[trigger] faces(leaves@[a], leaves@[b], walls@[w]) ==> has_edge(edges@, w, a, b),
                        forall|a: int, b: int| 0 <= a < ai && 0 <= b < leaves@.len()
                            && #[trigger] faces(leaves@[a], leaves@[b], walls@[wi as int]) ==> has_edge(edges@, wi as int, a, b),
                        forall|b: int| 0 <= b < bi
                            && #[trigger] faces(leaves@[ai as int], leaves@[b], walls@[wi as int]) ==> has_edge(edges@, wi as int, ai as int, b),
                    decreases nl - bi,
                {
                    let lb = leaves[bi];
                    let hit = match wall {
                        WallLine::Horizontal { y, x0, x1 } => {
                            let lo = if la.x > lb.x { la.x } else { lb.x };
                            let hi = if la.x + la.w < lb.x + lb.w { la.x + la.w } else { lb.x + lb.w };
                            lb.y == y + 1 && lo < hi
                        },
                        WallLine::Vertical { x, y0, y1 } => {
                            let lo = if la.y > lb.y { la.y } else { lb.y };
                            let hi = if la.y + la.h < lb.y + lb.h { la.y + la.h } else { lb.y + lb.h };
                            lb.x == x + 1 && lo < hi
                        },
                    };
                    proof {
                        assert(hit == faces(la, lb, wall));
                    }
                    let ghost before = edges@;
                    if hit {
                        let e = LeafEdge { a: ai, b: bi, wall_idx: wi };
                        edges.push(e);
                        proof {
                            assert(edges@[before.len() as int] == e);
                            assert(has_edge(edges@, wi as int, ai as int, bi as int));
                            assert forall|w: int, a: int, b: int| 0 <= w < wi && 0 <= a < leaves@.len() && 0 <= b < leaves@.len()
                                && #[trigger] faces(leaves@[a], leaves@[b], walls@[w]) implies has_edge(edges@, w, a, b) by {
                                lemma_has_edge_push(before, e, w, a, b);
                            }
                            assert forall|a: int, b: int| 0 <= a < ai && 0 <= b < leaves@.len()
                                && #[trigger] faces(leaves@[a], leaves@[b], walls@[wi as int]) implies has_edge(edges@, wi as int, a, b) by {
                                lemma_has_edge_push(before, e, wi as int, a, b);
                            }
                            assert forall|b: int| 0 <= b < bi + 1
                                && #[trigger] faces(leaves@[ai as int], leaves@[b], walls@[wi as int]) implies has_edge(edges@, wi as int, ai as int, b) by {
                                if b < bi {
                                    lemma_has_edge_push(before, e, wi as int, ai as int, b);
                                }
                            }
                            assert forall|t1: int, t2: int| 0 <= t1 < t2 < edges@.len() implies
                                edge_lt(#[trigger] edges@[t1].wall_idx as int, edges@[t1].a as int, edges@[t1].b as int,
                                    #[trigger] edges@[t2].wall_idx as int, edges@[t2].a as int, edges@[t2].b as int) by {
                                if t2 == before.len() {
                                    assert(edges@[t1] == before[t1]);
                                    if t1 < e_w.len() {
                                        assert(e_a[t1] == e_w[t1]);
                                    } else if t1 < e_a.len() {
                                        assert(edges@[t1] == e_a[t1]);
                                    }
                                } else {
                                    assert(edges@[t1] == before[t1]);
                                    assert(edges@[t2] == before[t2]);
                                }
                            }
                        }
                    }
                    bi = bi + 1;
                }
            } else {
                proof {
                    assert forall|b: int| 0 <= b < leaves@.len() implies !faces(leaves@[ai as int], #[trigger] leaves@[b], walls@[wi as int]) by {}
                }
            }
            ai = ai + 1;
        }
        wi = wi + 1;
    }
    edges
}

/// Room counts `(toilet, trash, normal)` actually allocated from `n_leaves`
/// leaves, by priority: a single leaf is a Toilet; two leaves with both
/// specials requested give one of each; then Normal is cut first, then
/// Trash, and otherwise every leaf becomes a Toilet.
pub open spec fn spec_cascade(n: int, t: int, r: int, m: int) -> (int, int, int) {
    if n == 1 {
        (1, 0, 0)
    } else if n == 2 && t >= 1 && r >= 1 {
        (1, 1, 0)
    } else if n >= t + r + m {
        (t, r, m)
    } else if n >= t + r {
        (t, r, n - t - r)
    } else if n >= t {
        (t, n - t, 0)
    } else {
        (n, 0, 0)
    }
}

pub fn cascade_kind_counts(n_leaves: usize, toilet_req: usize, trash_req: usize, normal_req: usize)
    -> (c: (usize, usize, usize))
    requires
        toilet_req + trash_req + normal_req <= usize::MAX,
    ensures
        (c.0 as int, c.1 as int, c.2 as int) == spec_cascade(n_leaves as int, toilet_req as int,
            trash_req as int, normal_req as int),
{
    if n_leaves == 1 {
        return (1, 0, 0);
    }
    if n_leaves == 2 && toilet_req >= 1 && trash_req >= 1 {
        return (1, 1, 0);
    }
    if n_leaves >= toilet_req + trash_req + normal_req {
        return (toilet_req, trash_req, normal_req);
    }
    if n_leaves >= toilet_req + trash_req {
        return (toilet_req, trash_req, n_leaves - toilet_req - trash_req);
    }
    if n_leaves >= toilet_req {
        return (toilet_req, n_leaves - toilet_req, 0);
    }
    (n_leaves, 0, 0)
}

/// The counts never exceed the leaves available (for two or more leaves)
/// and use every leaf unless all requests are met.
pub proof fn lemma_cascade_fits(n: int, t: int, r: int, m: int)
    requires
        n >= 1,
        t >= 0,
        r >= 0,
        m >= 0,
    ensures
        ({
            let c = spec_cascade(n, t, r, m);
            &&& c.0 >= 0 && c.1 >= 0 && c.2 >= 0
            &&& c.0 + c.1 + c.2 <= n
            &&& (c.0 + c.1 + c.2 < n ==> c == (t, r, m))
        }),
{
}

/// Class representatives of `parent` below `x`.
pub open spec fn roots_below(parent: Seq<usize>, x: int) -> Set<int> {
    Set::new(|r: int| 0 <= r < x && 0 <= r < parent.len() && parent[r] as int == r)
}

proof fn lemma_roots_below_finite(parent: Seq<usize>, x: int)
    ensures
        roots_below(parent, x).finite(),
        roots_below(parent, x).len() <= parent.len(),
{
    vstd::set_lib::lemma_int_range(0, parent.len() as int);
    assert(roots_below(parent, x).subset_of(vstd::set_lib::set_int_range(0, parent.len() as int)));
    vstd::set_lib::lemma_len_subset(roots_below(parent, x), vstd::set_lib::set_int_range(0, parent.len() as int));
}

/// Number the classes `0..num` in the order of their representatives:
/// element `i` gets the count of representatives below its own.
pub fn build_group_map(uf: &mut UnionFind) -> (res: (Vec<usize>, usize))
    requires
        old(uf).wf(),
    ensures
        final(uf).wf(),
        final(uf).size() == old(uf).size(),
        forall|i: int| 0 <= i < old(uf).size() ==> #[trigger] final(uf).root(i) == old(uf).root(i),
        res.0@.len() == old(uf).size(),
        res.1 == old(uf).num_classes(),
        forall|i: int| 0 <= i < old(uf).size() ==>
            #[trigger] res.0@[i] == roots_below(old(uf).parent@, old(uf).root(i)).len(),
{
    let n = uf.parent.len();
    let ghost p0 = uf.parent@;
    let ghost k0 = uf.rank@;
    let mut roots: Vec<usize> = Vec::new();
    let mut i: usize = 0;
    while i < n
        invariant
            uf.wf(),
            n == uf.parent@.len(),
            n == p0.len(),
            uf.rank@ == k0,
            links_ok(p0, k0),
            i <= n,
            roots@.len() == i,
            forall|j: int| 0 <= j < n ==> #[trigger] uf.root(j) == root_of(p0, k0, j),
            roots_of(uf.parent@) == roots_of(p0),
            forall|j: int| 0 <= j < i ==> #[trigger] roots@[j] as int == root_of(p0, k0, j),
        decreases n - i,
    {
        let r = uf.find(i);
        roots.push(r);
        i = i + 1;
    }
    // ids[r] = number of representatives below r.
    let mut ids: Vec<usize> = Vec::new();
    let mut c: usize = 0;
    let mut r: usize = 0;
    proof {
        assert(roots_below(p0, 0) =~= Set::empty());
    }
    while r < n
        invariant
            n == p0.len(),
            n == roots@.len(),
            links_ok(p0, k0),
            r <= n,
            ids@.len() == r,
            forall|j: int| 0 <= j < n ==> #[trigger] roots@[j] as int == root_of(p0, k0, j),
            c as int == roots_below(p0, r as int).len(),
            forall|q: int| 0 <= q < r ==> #[trigger] ids@[q] as int == roots_below(p0, q).len(),
        decreases n - r,
    {
        ids.push(c);
        proof {
            lemma_root_basic(p0, k0, r as int);
            lemma_roots_below_finite(p0, r as int);
            lemma_roots_below_finite(p0, r as int + 1);
        }
        if roots[r] == r {
            proof {
                assert(roots_below(p0, r as int + 1) =~= roots_below(p0, r as int).insert(r as int));
                assert(!roots_below(p0, r as int).contains(r as int));
                assert(roots_below(p0, r as int + 1).len() <= n);
            }
            c = c + 1;
        } else {
            proof {
                assert(roots_below(p0, r as int + 1) =~= roots_below(p0, r as int));
            }
        }
        r = r + 1;
    }
    let mut out: Vec<usize> = Vec::new();
    let mut i: usize = 0;
    while i < n
        invariant
            n == p0.len(),
            n == roots@.len(),
            n == ids@.len(),
            links_ok(p0, k0),
            i <= n,
            out@.len() == i,
            forall|j: int| 0 <= j < n ==> #[trigger] roots@[j] as int == root_of(p0, k0, j),
            forall|q: int| 0 <= q < n ==> #[trigger] ids@[q] as int == roots_below(p0, q).len(),
            forall|j: int| 0 <= j < i ==> #[trigger] out@[j] as int == roots_below(p0, root_of(p0, k0, j)).len(),
        decreases n - i,
    {
        proof {
            lemma_root_basic(p0, k0, i as int);
        }
        let g = ids[roots[i]];
        out.push(g);
        i = i + 1;
    }
    proof {
        assert(roots_below(p0, n as int) =~= roots_of(p0));
    }
    (out, c)
}

/// Total area of the first `k` leaves.
pub open spec fn area_sum(leaves: Seq<BspRect>, k: int) -> int
    decreases k,
{
    if k <= 0 || k > leaves.len() {
        0
    } else {
        area_sum(leaves, k - 1) + leaves[k - 1].w * leaves[k - 1].h
    }
}

/// Sum of `area[r]` over the class representatives `r < k`.
pub open spec fn root_sum(parent: Seq<usize>, area: Seq<usize>, k: int) -> int
    decreases k,
{
    if k <= 0 {
        0
    } else {
        root_sum(parent, area, k - 1) + if parent[k - 1] as int == k - 1 { area[k - 1] as int } else { 0 }
    }
}

/// Representatives of classes made of non-frozen leaves.
pub open spec fn open_roots(parent: Seq<usize>, frozen: Seq<bool>) -> Set<int> {
    Set::new(|r: int| 0 <= r < parent.len() && parent[r] as int == r && !frozen[r])
}

/// Leaves that are not frozen.
pub open spec fn open_leaves(frozen: Seq<bool>) -> Set<int> {
    Set::new(|i: int| 0 <= i < frozen.len() && !frozen[i])
}

/// Frozen leaves stay alone in their class.
pub open spec fn frozen_alone(uf: UnionFind, frozen: Seq<bool>) -> bool {
    &&& forall|j: int| 0 <= j < uf.size() && frozen[j] ==> #[trigger] uf.root(j) == j
    &&& forall|j: int| 0 <= j < uf.size() && #[trigger] frozen[uf.root(j)] ==> frozen[j]
}

/// No edge between two non-frozen leaves joins the class of `s` to another class.
pub open spec fn isolated(uf: UnionFind, edges: Seq<LeafEdge>, frozen: Seq<bool>, s: int) -> bool {
    forall|t: int| 0 <= t < edges.len() && !frozen[edges[t].a as int] && !frozen[edges[t].b as int]
        && (uf.root(edges[t].a as int) == s || uf.root(edges[t].b as int) == s) ==>
        #[trigger] uf.same(edges[t].a as int, edges[t].b as int)
}

proof fn lemma_open_roots_same(p1: Seq<usize>, p2: Seq<usize>, frozen: Seq<bool>)
    requires
        p1.len() == p2.len(),
        roots_of(p1) == roots_of(p2),
    ensures
        open_roots(p1, frozen) == open_roots(p2, frozen),
{
    assert forall|r: int| #[trigger] open_roots(p1, frozen).contains(r) <==> open_roots(p2, frozen).contains(r) by {
        assert(roots_of(p1).contains(r) == roots_of(p2).contains(r));
        assert(roots_of(p1).contains(r) <==> (0 <= r < p1.len() && p1[r] as int == r));
        assert(roots_of(p2).contains(r) <==> (0 <= r < p2.len() && p2[r] as int == r));
    }
    assert(open_roots(p1, frozen) =~= open_roots(p2, frozen));
}

proof fn lemma_area_sum_mono(leaves: Seq<BspRect>, i: int, j: int)
    requires
        0 <= i <= j <= leaves.len(),
    ensures
        0 <= area_sum(leaves, i) <= area_sum(leaves, j),
        i < j ==> leaves[i].w * leaves[i].h <= area_sum(leaves, j),
    decreases j - i,
{
    if i < j {
        lemma_area_sum_mono(leaves, i, j - 1);
        assert(leaves[j - 1].w * leaves[j - 1].h >= 0) by (nonlinear_arith);
        if i == j - 1 {
            lemma_area_sum_mono(leaves, i, i);
        }
    } else {
        lemma_area_sum_nonneg(leaves, i);
    }
}

proof fn lemma_area_sum_nonneg(leaves: Seq<BspRect>, k: int)
    ensures
        area_sum(leaves, k) >= 0,
    decreases k,
{
    if 0 < k <= leaves.len() {
        lemma_area_sum_nonneg(leaves, k - 1);
        assert(leaves[k - 1].w * leaves[k - 1].h >= 0) by (nonlinear_arith);
    }
}

proof fn lemma_root_sum_nonneg(parent: Seq<usize>, area: Seq<usize>, k: int)
    ensures
        root_sum(parent, area, k) >= 0,
    decreases k,
{
    if k > 0 {
        lemma_root_sum_nonneg(parent, area, k - 1);
    }
}

/// The representative sum depends only on which indices are representatives.
proof fn lemma_root_sum_same_roots(p1: Seq<usize>, p2: Seq<usize>, area: Seq<usize>, k: int)
    requires
        p1.len() == p2.len(),
        roots_of(p1) == roots_of(p2),
        k <= p1.len(),
    ensures
        root_sum(p1, area, k) == root_sum(p2, area, k),
    decreases k,
{
    if k > 0 {
        assert(roots_of(p1).contains(k - 1) == roots_of(p2).contains(k - 1));
        assert(roots_of(p1).contains(k - 1) <==> p1[k - 1] as int == k - 1);
        assert(roots_of(p2).contains(k - 1) <==> p2[k - 1] as int == k - 1);
        lemma_root_sum_same_roots(p1, p2, area, k - 1);
    }
}

/// Any one or two distinct representatives below `k` weigh no more than the sum.
proof fn lemma_root_sum_bound(parent: Seq<usize>, area: Seq<usize>, i: int, j: int, k: int)
    requires
        0 <= i < k <= parent.len(),
        parent[i] as int == i,
        k <= area.len(),
    ensures
        area[i] <= root_sum(parent, area, k),
        0 <= j < k && j != i && parent[j] as int == j ==> area[i] + area[j] <= root_sum(parent, area, k),
    decreases k,
{
    lemma_root_sum_nonneg(parent, area, k - 1);
    if i < k - 1 {
        lemma_root_sum_bound(parent, area, i, j, k - 1);
    }
    if 0 <= j < k - 1 && j != i && parent[j] as int == j {
        lemma_root_sum_bound(parent, area, j, i, k - 1);
    }
}

/// Merging class `l` into class `g` (moving `l`'s weight onto `g`) keeps the sum.
proof fn lemma_root_sum_merge(p1: Seq<usize>, p2: Seq<usize>, area: Seq<usize>, g: int, l: int, k: int)
    requires
        p1.len() == p2.len(),
        area.len() == p1.len(),
        0 <= g < p1.len(),
        0 <= l < p1.len(),
        g != l,
        p1[g] as int == g,
        p1[l] as int == l,
        roots_of(p2) == roots_of(p1).remove(l),
        area[g] + area[l] <= usize::MAX,
        0 <= k <= p1.len(),
    ensures
        root_sum(p2, area.update(g, (area[g] + area[l]) as usize), k)
            == root_sum(p1, area, k) - (if l < k { area[l] as int } else { 0 })
                + (if g < k { area[l] as int } else { 0 }),
    decreases k,
{
    if k > 0 {
        lemma_root_sum_merge(p1, p2, area, g, l, k - 1);
        assert(roots_of(p2).contains(k - 1) == (roots_of(p1).contains(k - 1) && k - 1 != l));
    }
}

/// On the initial forest (every element its own representative) the sum is
/// the total leaf area.
proof fn lemma_root_sum_init(parent: Seq<usize>, area: Seq<usize>, leaves: Seq<BspRect>, k: int)
    requires
        parent.len() == area.len(),
        area.len() == leaves.len(),
        0 <= k <= parent.len(),
        forall|i: int| 0 <= i < parent.len() ==> #[trigger] parent[i] as int == i,
        forall|i: int| 0 <= i < area.len() ==> #[trigger] area[i] as int == leaves[i].w * leaves[i].h,
    ensures
        root_sum(parent, area, k) == area_sum(leaves, k),
    decreases k,
{
    if k > 0 {
        lemma_root_sum_init(parent, area, leaves, k - 1);
    }
}

/// Merge non-frozen leaves into `target` Normal groups, smallest first: each
/// round the smallest non-frozen group (by combined area) is merged, across a
/// leaf edge, with the neighbouring non-frozen group whose combined area is
/// closest to the average `total non-frozen area / target`. Stops at
/// `target` groups, or when the smallest group has no neighbour to merge with.
pub fn merge_normal_target_avg(
    leaves: &[BspRect],
    edges: &[LeafEdge],
    frozen: &[bool],
    target: usize,
) -> (uf: UnionFind)
    requires
        frozen@.len() == leaves@.len(),
        area_sum(leaves@, leaves@.len() as int) < usize::MAX,
        forall|t: int| 0 <= t < edges@.len() ==>
            (#[trigger] edges@[t]).a < leaves@.len() && edges@[t].b < leaves@.len(),
    ensures
        uf.wf(),
        uf.size() == leaves@.len(),
        frozen_alone(uf, frozen@),
        open_leaves(frozen@).len() <= target ==> forall|i: int| 0 <= i < leaves@.len() ==> #[trigger] uf.root(i) == i,
        open_leaves(frozen@).len() > target ==> open_roots(uf.parent@, frozen@).len() >= target,
        open_roots(uf.parent@, frozen@).len() > target && target > 0 ==>
            exists|s: int| #[trigger] open_roots(uf.parent@, frozen@).contains(s) && isolated(uf, edges@, frozen@, s),
        forall|i: int, j: int| 0 <= i < leaves@.len() && 0 <= j < leaves@.len() && i != j && #[trigger] uf.same(i, j)
            ==> !frozen@[i] && !frozen@[j],
{
    let n = leaves.len();
    let mut uf = UnionFind::new(n);
    proof {
        assert(open_roots(uf.parent@, frozen@) =~= open_leaves(frozen@)) by {
            assert forall|r: int| 0 <= r < n implies #[trigger] uf.parent@[r] as int == r by {
                lemma_root_basic(uf.parent@, uf.rank@, r);
            }
        }
        assert forall|r: int| 0 <= r < n implies #[trigger] uf.parent@[r] as int == r by {
            lemma_root_basic(uf.parent@, uf.rank@, r);
        }
    }
    if target == 0 {
        return uf;
    }
    let ghost leaves_s = leaves@;
    let mut area: Vec<usize> = Vec::new();
    let mut i: usize = 0;
    while i < n
        invariant
            n == leaves@.len(),
            i <= n,
            area@.len() == i,
            area_sum(leaves@, n as int) < usize::MAX,
            forall|j: int| 0 <= j < i ==> #[trigger] area@[j] as int == leaves@[j].w * leaves@[j].h,
        decreases n - i,
    {
        proof {
            lemma_area_sum_mono(leaves@, i as int, n as int);
        }
        area.push(leaves[i].w * leaves[i].h);
        i = i + 1;
    }
    proof {
        lemma_root_sum_init(uf.parent@, area@, leaves@, n as int);
    }
    // Total non-frozen area and the count of non-frozen leaves.
    let mut total_unfrozen: usize = 0;
    let mut unfrozen_groups: usize = 0;
    let mut i: usize = 0;
    proof {
        assert(Set::new(|q: int| 0 <= q < 0 && !frozen@[q]) =~= Set::empty());
    }
    while i < n
        invariant
            n == leaves@.len(),
            n == frozen@.len(),
            n == area@.len(),
            i <= n,
            total_unfrozen <= area_sum(leaves@, i as int),
            area_sum(leaves@, n as int) < usize::MAX,
            forall|j: int| 0 <= j < n ==> #[trigger] area@[j] as int == leaves@[j].w * leaves@[j].h,
            unfrozen_groups == Set::new(|q: int| 0 <= q < i && !frozen@[q]).len(),
            unfrozen_groups <= i,
        decreases n - i,
    {
        proof {
            lemma_area_sum_mono(leaves@, i as int + 1, n as int);
            vstd::set_lib::lemma_int_range(0, i as int);
            assert(Set::new(|q: int| 0 <= q < i && !frozen@[q]).subset_of(vstd::set_lib::set_int_range(0, i as int)));
            vstd::set_lib::lemma_len_subset(Set::new(|q: int| 0 <= q < i && !frozen@[q]), vstd::set_lib::set_int_range(0, i as int));
        }
        if !frozen[i] {
            total_unfrozen = total_unfrozen + area[i];
            proof {
                assert(Set::new(|q: int| 0 <= q < i + 1 && !frozen@[q]) =~= Set::new(|q: int| 0 <= q < i && !frozen@[q]).insert(i as int));
            }
            unfrozen_groups = unfrozen_groups + 1;
        } else {
            proof {
                assert(Set::new(|q: int| 0 <= q < i + 1 && !frozen@[q]) =~= Set::new(|q: int| 0 <= q < i && !frozen@[q]));
            }
        }
        i = i + 1;
    }
    proof {
        assert(Set::new(|q: int| 0 <= q < n && !frozen@[q]) =~= open_leaves(frozen@));
        vstd::set_lib::lemma_int_range(0, n as int);
        assert(open_roots(uf.parent@, frozen@).subset_of(vstd::set_lib::set_int_range(0, n as int)));
        vstd::set_lib::lemma_len_subset(open_roots(uf.parent@, frozen@), vstd::set_lib::set_int_range(0, n as int));
        assert forall|j: int| 0 <= j < n implies #[trigger] uf.root(j) == j by {}
    }
    let ghost c0 = unfrozen_groups as int;
    while unfrozen_groups > target
        invariant
            n == leaves@.len(),
            n == frozen@.len(),
            n == area@.len(),
            target > 0,
            uf.wf(),
            uf.size() == n,
            frozen_alone(uf, frozen@),
            forall|t: int| 0 <= t < edges@.len() ==>
                (#[trigger] edges@[t]).a < leaves@.len() && edges@[t].b < leaves@.len(),
            root_sum(uf.parent@, area@, n as int) == area_sum(leaves@, n as int),
            area_sum(leaves@, n as int) < usize::MAX,
            open_roots(uf.parent@, frozen@).finite(),
            unfrozen_groups == open_roots(uf.parent@, frozen@).len(),
            c0 == open_leaves(frozen@).len(),
            unfrozen_groups <= c0,
            c0 > target ==> unfrozen_groups >= target,
            c0 <= target ==> forall|j: int| 0 <= j < n ==> #[trigger] uf.root(j) == j,
        ensures
            uf.wf(),
            uf.size() == n,
            frozen_alone(uf, frozen@),
            unfrozen_groups == open_roots(uf.parent@, frozen@).len(),
            unfrozen_groups <= c0,
            c0 > target ==> unfrozen_groups >= target,
            c0 <= target ==> forall|j: int| 0 <= j < n ==> #[trigger] uf.root(j) == j,
            unfrozen_groups > target ==>
                exists|s: int| #[trigger] open_roots(uf.parent@, frozen@).contains(s) && isolated(uf, edges@, frozen@, s),
        decreases unfrozen_groups,
    {
        let ghost p_s = uf.parent@;
        let ghost k_s = uf.rank@;
        proof {
            lemma_root_sum_nonneg(p_s, area@, n as int);
            vstd::set::axiom_set_choose_len(open_roots(p_s, frozen@));
        }
        // Step 1: the smallest non-frozen group by combined area.
        let mut smallest_root: Option<usize> = None;
        let mut smallest_size: usize = usize::MAX;
        let mut i: usize = 0;
        while i < n
            invariant
                n == leaves@.len(),
                n == frozen@.len(),
                n == area@.len(),
                i <= n,
                uf.wf(),
                uf.size() == n,
                uf.rank@ == k_s,
                p_s.len() == n,
                links_ok(p_s, k_s),
                forall|j: int| 0 <= j < n ==> #[trigger] uf.root(j) == root_of(p_s, k_s, j),
                roots_of(uf.parent@) == roots_of(p_s),
                frozen_alone(uf, frozen@),
                root_sum(p_s, area@, n as int) == area_sum(leaves@, n as int),
                area_sum(leaves@, n as int) < usize::MAX,
                smallest_root is None ==> forall|j: int| 0 <= j < i ==> #[trigger] frozen@[j],
                smallest_root is None ==> smallest_size == usize::MAX,
                smallest_root is Some ==> open_roots(p_s, frozen@).contains(smallest_root->0 as int),
            decreases n - i,
        {
            if !frozen[i] {
                let r = uf.find(i);
                proof {
                    lemma_root_basic(p_s, k_s, i as int);
                    lemma_root_sum_bound(p_s, area@, r as int, 0, n as int);
                    assert(!frozen@[r as int]);
                }
                if area[r] < smallest_size {
                    smallest_size = area[r];
                    smallest_root = Some(r);
                }
            }
            i = i + 1;
        }
        let s = match smallest_root {
            Some(r) => r,
            None => {
                proof {
                    let q = open_roots(p_s, frozen@).choose();
                    assert(open_roots(p_s, frozen@).contains(q));
                    assert(frozen@[q]);
                }
                break;
            },
        };
        // Step 2: the edge from it whose combined area is closest to the average.
        let mut best: Option<(usize, usize, u128)> = None;
        let mut ei: usize = 0;
        while ei < edges.len()
            invariant
                n == leaves@.len(),
                n == frozen@.len(),
                n == area@.len(),
                ei <= edges@.len(),
                uf.wf(),
                uf.size() == n,
                uf.rank@ == k_s,
                p_s.len() == n,
                links_ok(p_s, k_s),
                forall|j: int| 0 <= j < n ==> #[trigger] uf.root(j) == root_of(p_s, k_s, j),
                roots_of(uf.parent@) == roots_of(p_s),
                frozen_alone(uf, frozen@),
                forall|t: int| 0 <= t < edges@.len() ==>
                    (#[trigger] edges@[t]).a < leaves@.len() && edges@[t].b < leaves@.len(),
                root_sum(p_s, area@, n as int) == area_sum(leaves@, n as int),
                area_sum(leaves@, n as int) < usize::MAX,
                open_roots(p_s, frozen@).contains(s as int),
                best is None ==> forall|t: int| 0 <= t < ei && !frozen@[edges@[t].a as int] && !frozen@[edges@[t].b as int]
                    && (root_of(p_s, k_s, edges@[t].a as int) == s || root_of(p_s, k_s, edges@[t].b as int) == s) ==>
                    #[trigger] root_of(p_s, k_s, edges@[t].a as int) == root_of(p_s, k_s, edges@[t].b as int),
                best is Some ==> ({
                    let (a, b, d) = best->0;
                    &&& a < n && b < n
                    &&& !frozen@[a as int] && !frozen@[b as int]
                    &&& root_of(p_s, k_s, a as int) != root_of(p_s, k_s, b as int)
                }),
            decreases edges@.len() - ei,
        {
            let e = edges[ei];
            ei = ei + 1;
            if frozen[e.a] || frozen[e.b] {
                continue;
            }
            let ga = uf.find(e.a);
            let gb = uf.find(e.b);
            if ga == gb {
                continue;
            }
            if ga != s && gb != s {
                continue;
            }
            proof {
                lemma_root_basic(p_s, k_s, e.a as int);
                lemma_root_basic(p_s, k_s, e.b as int);
                lemma_root_sum_bound(p_s, area@, ga as int, gb as int, n as int);
            }
            let combined = area[ga] + area[gb];
            proof {
                assert((combined as u128) * (target as u128) <= u128::MAX) by (nonlinear_arith)
                    requires
                        (combined as int) <= 0xffff_ffff_ffff_ffff,
                        (target as int) <= 0xffff_ffff_ffff_ffff;
            }
            let scaled = (combined as u128) * (target as u128);
            let tu = total_unfrozen as u128;
            let dist = if scaled >= tu { scaled - tu } else { tu - scaled };
            let better = match best {
                None => true,
                Some((_, _, d)) => dist < d,
            };
            if better {
                best = Some((e.a, e.b, dist));
            }
        }
        match best {
            Some((a, b, _)) => {
                let ga = uf.find(a);
                let gb = uf.find(b);
                proof {
                    lemma_root_basic(p_s, k_s, a as int);
                    lemma_root_basic(p_s, k_s, b as int);
                    lemma_root_sum_bound(p_s, area@, ga as int, gb as int, n as int);
                    assert(open_roots(p_s, frozen@).contains(ga as int));
                    assert(open_roots(p_s, frozen@).contains(gb as int));
                }
                let combined = area[ga] + area[gb];
                let ghost u0 = uf;
                uf.union(ga, gb);
                let ghost u1 = uf;
                let g = uf.find(ga);
                proof {
                    lemma_root_basic(u0.parent@, u0.rank@, ga as int);
                    lemma_root_basic(u0.parent@, u0.rank@, gb as int);
                    let l = if g == ga { gb as int } else { ga as int };
                    assert(u0.root(ga as int) == ga as int);
                    assert(u0.root(gb as int) == gb as int);
                    assert(roots_of(u1.parent@) == roots_of(u0.parent@).remove(l));
                    lemma_root_sum_same_roots(u0.parent@, p_s, area@, n as int);
                    lemma_root_sum_same_roots(uf.parent@, u1.parent@, area@, n as int);
                    lemma_root_sum_merge(u0.parent@, uf.parent@, area@, g as int, l, n as int);
                    assert(roots_of(uf.parent@) == roots_of(u0.parent@).remove(l));
                    assert forall|r: int| #[trigger] open_roots(uf.parent@, frozen@).contains(r)
                        <==> open_roots(u0.parent@, frozen@).remove(l).contains(r) by {
                        assert(roots_of(uf.parent@).contains(r) <==> roots_of(u0.parent@).remove(l).contains(r));
                    }
                    assert(open_roots(uf.parent@, frozen@) =~= open_roots(u0.parent@, frozen@).remove(l));
                    lemma_open_roots_same(u0.parent@, p_s, frozen@);
                    // frozen leaves are untouched by the merge
                    assert forall|j: int| 0 <= j < n && frozen@[j] implies #[trigger] uf.root(j) == j by {
                        assert(u0.root(j) == j);
                        assert(!u0.same(j, ga as int));
                        assert(!u0.same(j, gb as int));
                    }
                    assert forall|j: int| 0 <= j < n && #[trigger] frozen@[uf.root(j)] implies frozen@[j] by {
                        if u0.same(j, ga as int) || u0.same(j, gb as int) {
                            assert(uf.root(j) == u1.root(ga as int));
                        } else {
                            assert(uf.root(j) == u0.root(j));
                        }
                    }
                }
                area.set(g, combined);
                unfrozen_groups = unfrozen_groups - 1;
            },
            None => {
                proof {
                    assert(isolated(uf, edges@, frozen@, s as int)) by {
                        assert forall|t: int| 0 <= t < edges@.len() && !frozen@[edges@[t].a as int] && !frozen@[edges@[t].b as int]
                            && (uf.root(edges@[t].a as int) == s || uf.root(edges@[t].b as int) == s) implies
                            #[trigger] uf.same(edges@[t].a as int, edges@[t].b as int) by {
                            assert(root_of(p_s, k_s, edges@[t].a as int) == root_of(p_s, k_s, edges@[t].b as int));
                        }
                    }
                    lemma_open_roots_same(uf.parent@, p_s, frozen@);
                    lemma_root_sum_same_roots(uf.parent@, p_s, area@, n as int);
                }
                break;
            },
        }
    }
    proof {
        assert forall|i: int, j: int| 0 <= i < n && 0 <= j < n && i != j && #[trigger] uf.same(i, j)
            implies !frozen@[i] && !frozen@[j] by {
            if frozen@[i] {
                assert(uf.root(i) == i);
                assert(frozen@[uf.root(j)]);
            }
            if frozen@[j] {
                assert(uf.root(j) == j);
                assert(frozen@[uf.root(i)]);
            }
        }
    }
    uf
}

// ---------------------------------------------------------------------------
// Merge wall removal
// ---------------------------------------------------------------------------

/// The wall lies inside the `w` by `h` grid.
pub open spec fn wall_in(wl: WallLine, w: int, h: int) -> bool {
    match wl {
        WallLine::Horizontal { y, x0, x1 } => y < h && x0 <= x1 <= w,
        WallLine::Vertical { x, y0, y1 } => x < w && y0 <= y1 <= h,
    }
}

/// Leaf edge `e` refers to existing leaves and wall, all inside the grid.
pub open spec fn edge_in(e: LeafEdge, leaves: Seq<BspRect>, walls: Seq<WallLine>, w: int, h: int) -> bool {
    &&& e.a < leaves.len()
    &&& e.b < leaves.len()
    &&& e.wall_idx < walls.len()
    &&& rect_in(leaves[e.a as int], w, h)
    &&& rect_in(leaves[e.b as int], w, h)
    &&& wall_in(walls[e.wall_idx as int], w, h)
}

/// Part of the shared segment `[o0, o1)` that is opened: everything but a
/// stub of `STUB_RETAIN_PERCENT` percent (at least one cell) at each end,
/// or the whole segment when that would leave a gap under `MIN_MERGE_GAP`.
pub open spec fn removal_span(o0: int, o1: int) -> (int, int) {
    let seg = if o1 > o0 { o1 - o0 } else { 0 };
    let stub = if seg * STUB_RETAIN_PERCENT / 100 >= 1 { seg * STUB_RETAIN_PERCENT / 100 } else { 1 };
    let gap = if seg > 2 * stub { seg - 2 * stub } else { 0 };
    if gap >= MIN_MERGE_GAP { (o0 + stub, o1 - stub) } else { (o0, o1) }
}

/// Cell `c` (flat index on a `w`-column grid) lies in the opened span of the
/// wall segment shared by the two leaves of edge `e`.
pub open spec fn edge_cell(w: int, walls: Seq<WallLine>, leaves: Seq<BspRect>, e: LeafEdge, c: int) -> bool {
    let la = leaves[e.a as int];
    let lb = leaves[e.b as int];
    match walls[e.wall_idx as int] {
        WallLine::Horizontal { y, x0, x1 } => {
            let span = removal_span(vstd::math::max(la.x as int, lb.x as int), vstd::math::min(la.x + la.w, lb.x + lb.w));
            c / w == y && span.0 <= c % w < span.1
        },
        WallLine::Vertical { x, y0, y1 } => {
            let span = removal_span(vstd::math::max(la.y as int, lb.y as int), vstd::math::min(la.y + la.h, lb.y + lb.h));
            c % w == x && span.0 <= c / w < span.1
        },
    }
}

/// Some edge among the first `k`, joining two leaves of one group, opens cell `c`.
pub open spec fn opened_by(w: int, walls: Seq<WallLine>, leaves: Seq<BspRect>, uf: UnionFind,
    edges: Seq<LeafEdge>, k: int, c: int) -> bool {
    exists|t: int| 0 <= t < k && uf.same(edges[t].a as int, edges[t].b as int)
        && #[trigger] edge_cell(w, walls, leaves, edges[t], c)
}

/// A wall cell turned to floor (furniture kept) when `open` holds.
pub open spec fn opened(cell: Cell, open: bool) -> Cell {
    if open && cell.terrain == Terrain::Wall {
        Cell { terrain: Terrain::Floor, furniture: cell.furniture }
    } else {
        cell
    }
}

/// Overlap of two extents `[a0, a0 + al)` and `[b0, b0 + bl)` and the span to open.
fn span_of(a0: usize, al: usize, b0: usize, bl: usize) -> (r: (usize, usize))
    requires
        a0 + al <= usize::MAX,
        b0 + bl <= usize::MAX,
    ensures
        (r.0 as int, r.1 as int) == removal_span(vstd::math::max(a0 as int, b0 as int), vstd::math::min(a0 + al, b0 + bl)),
{
    let o0 = if a0 > b0 { a0 } else { b0 };
    let o1 = if a0 + al < b0 + bl { a0 + al } else { b0 + bl };
    let seg = o1.saturating_sub(o0);
    proof {
        assert(seg * 35 <= usize::MAX * 35) by (nonlinear_arith) requires seg <= usize::MAX;
    }
    let stub0 = ((seg as u128) * (STUB_RETAIN_PERCENT as u128) / 100) as usize;
    let stub = if stub0 >= 1 { stub0 } else { 1 };
    let gap = seg.saturating_sub(2 * stub);
    if gap >= MIN_MERGE_GAP {
        (o0 + stub, o1 - stub)
    } else {
        (o0, o1)
    }
}

/// Open the middle of every wall segment shared by two leaves of one group,
/// keeping short stubs at both ends: a wall cell is turned to floor exactly
/// when some same-group leaf edge opens it.
pub fn execute_merge_wall_removal(
    map: &mut Vec<Cell>,
    map_w: usize,
    walls: &[WallLine],
    leaves: &[BspRect],
    uf: &mut UnionFind,
    edges: &[LeafEdge],
)
    requires
        map_ok(old(map)@, map_w as int),
        old(uf).wf(),
        forall|t: int| 0 <= t < edges@.len() ==> #[trigger] edge_in(edges@[t], leaves@, walls@,
            map_w as int, rows(old(map)@, map_w as int)),
        forall|t: int| 0 <= t < edges@.len() ==> (#[trigger] edges@[t]).a < old(uf).size() && edges@[t].b < old(uf).size(),
    ensures
        final(map)@.len() == old(map)@.len(),
        forall|c: int| 0 <= c < old(map)@.len() ==> #[trigger] final(map)@[c] == opened(old(map)@[c],
            opened_by(map_w as int, walls@, leaves@, *old(uf), edges@, edges@.len() as int, c)),
        final(uf).wf(),
        final(uf).size() == old(uf).size(),
        forall|i: int| 0 <= i < old(uf).size() ==> #[trigger] final(uf).root(i) == old(uf).root(i),
{
    let ghost w = map_w as int;
    let ghost h = rows(map@, w);
    let ghost m0 = map@;
    let ghost u0 = *uf;
    proof {
        lemma_map_ok(map@, w);
    }
    let mut ti: usize = 0;
    while ti < edges.len()
        invariant
            w == map_w as int,
            grid_ok(map@, w, h),
            h == rows(m0, w),
            map@.len() == m0.len(),
            0 < w,
            ti <= edges@.len(),
            uf.wf(),
            uf.size() == u0.size(),
            forall|i: int| 0 <= i < u0.size() ==> #[trigger] uf.root(i) == u0.root(i),
            forall|t: int| 0 <= t < edges@.len() ==> #[trigger] edge_in(edges@[t], leaves@, walls@, w, h),
            forall|t: int| 0 <= t < edges@.len() ==> (#[trigger] edges@[t]).a < u0.size() && edges@[t].b < u0.size(),
            forall|c: int| 0 <= c < m0.len() ==> #[trigger] map@[c] == opened(m0[c],
                opened_by(w, walls@, leaves@, u0, edges@, ti as int, c)),
        decreases edges@.len() - ti,
    {
        let e = edges[ti];
        let ghost tg = ti as int;
        ti = ti + 1;
        let ra = uf.find(e.a);
        let rb = uf.find(e.b);
        if ra != rb {
            proof {
                assert forall|c: int| 0 <= c < m0.len() implies #[trigger] map@[c] == opened(m0[c],
                    opened_by(w, walls@, leaves@, u0, edges@, ti as int, c)) by {
                    if opened_by(w, walls@, leaves@, u0, edges@, ti as int, c) {
                        let t = choose|t: int| 0 <= t < ti && u0.same(edges@[t].a as int, edges@[t].b as int)
                            && #[trigger] edge_cell(w, walls@, leaves@, edges@[t], c);
                        assert(t != tg);
                        assert(opened_by(w, walls@, leaves@, u0, edges@, tg, c));
                    }
                }
            }
            continue;
        }
        proof {
            assert(edge_in(edges@[tg], leaves@, walls@, w, h));
        }
        let la = leaves[e.a];
        let lb = leaves[e.b];
        let wall = walls[e.wall_idx];
        let (fixed, rs, re, horizontal) = match wall {
            WallLine::Horizontal { y, x0, x1 } => {
                let sp = span_of(la.x, la.w, lb.x, lb.w);
                (y, sp.0, sp.1, true)
            },
            WallLine::Vertical { x, y0, y1 } => {
                let sp = span_of(la.y, la.h, lb.y, lb.h);
                (x, sp.0, sp.1, false)
            },
        };
        let ghost m1 = map@;
        let mut k = rs;
        while k < re
            invariant
                w == map_w as int,
                grid_ok(map@, w, h),
                map@.len() == m0.len(),
                0 < w,
                rs <= k,
                e == edges@[tg],
                0 <= tg < edges@.len(),
                ti == tg + 1,
                u0.same(e.a as int, e.b as int),
                edge_in(e, leaves@, walls@, w, h),
                la == leaves@[e.a as int],
                lb == leaves@[e.b as int],
                wall == walls@[e.wall_idx as int],
                horizontal ==> (wall matches WallLine::Horizontal { y, .. } && y == fixed),
                !horizontal ==> (wall matches WallLine::Vertical { x, .. } && x == fixed),
                horizontal ==> (rs as int, re as int) == removal_span(vstd::math::max(la.x as int, lb.x as int), vstd::math::min(la.x + la.w, lb.x + lb.w)),
                !horizontal ==> (rs as int, re as int) == removal_span(vstd::math::max(la.y as int, lb.y as int), vstd::math::min(la.y + la.h, lb.y + lb.h)),
                forall|c: int| 0 <= c < m0.len() ==> #[trigger] m1[c] == opened(m0[c],
                    opened_by(w, walls@, leaves@, u0, edges@, tg, c)),
                forall|c: int| 0 <= c < m0.len() ==> #[trigger] map@[c] == opened(m1[c],
                    edge_cell(w, walls@, leaves@, e, c) && (if horizontal { c % w } else { c / w }) < k),
            decreases re - k,
        {
            proof {
                // the span lies inside the shared segment, hence inside the grid
                if horizontal {
                    assert(k < la.x + la.w);
                    lemma_flat_in_range(k as int, fixed as int, w, h);
                } else {
                    assert(k < la.y + la.h);
                    lemma_flat_in_range(fixed as int, k as int, w, h);
                }
            }
            let ci = if horizontal { fixed * map_w + k } else { k * map_w + fixed };
            let ghost m2 = map@;
            let cell = map[ci];
            if cell.terrain == Terrain::Wall {
                map.set(ci, Cell { terrain: Terrain::Floor, furniture: cell.furniture });
            }
            proof {
                assert(edge_cell(w, walls@, leaves@, e, ci as int));
                assert forall|c: int| 0 <= c < m0.len() implies #[trigger] map@[c] == opened(m1[c],
                    edge_cell(w, walls@, leaves@, e, c) && (if horizontal { c % w } else { c / w }) < k + 1) by {
                    crate::cell::lemma_unflat(c, w, h);
                    if c != ci as int {
                        assert(map@[c] == m2[c]);
                    }
                }
            }
            k = k + 1;
        }
        proof {
            assert forall|c: int| 0 <= c < m0.len() implies #[trigger] map@[c] == opened(m0[c],
                opened_by(w, walls@, leaves@, u0, edges@, ti as int, c)) by {
                if edge_cell(w, walls@, leaves@, e, c) {
                    assert(edge_cell(w, walls@, leaves@, edges@[tg], c));
                }
                if opened_by(w, walls@, leaves@, u0, edges@, ti as int, c) {
                    let t = choose|t: int| 0 <= t < ti && u0.same(edges@[t].a as int, edges@[t].b as int)
                        && #[trigger] edge_cell(w, walls@, leaves@, edges@[t], c);
                    if t != tg {
                        assert(opened_by(w, walls@, leaves@, u0, edges@, tg, c));
                    }
                }
                if opened_by(w, walls@, leaves@, u0, edges@, tg, c) {
                    let t = choose|t: int| 0 <= t < tg && u0.same(edges@[t].a as int, edges@[t].b as int)
                        && #[trigger] edge_cell(w, walls@, leaves@, edges@[t], c);
                    assert(opened_by(w, walls@, leaves@, u0, edges@, ti as int, c));
                }
            }
        }
    }
}

} // verus!
