//! NPC alert and activity states, the xorshift32 generator and tile-grid
//! A* pathfinding.

use vstd::prelude::*;
use crate::cell::{Cell, grid_ok, in_grid, flat, open_at, adjacent, ipos, is_walk, reachable, lemma_flat_in_range, lemma_unflat, lemma_flat_injective, grid_index, cpos};

verus! {

/// Three-state alert ladder of one NPC.
#[derive(Clone, Copy, Debug, PartialEq, Eq, Structural)]
pub enum AlertState {
    /// Default. Walks its routine and ignores the player.
    Patrol,
    /// Has witnessed a crime or been told. Chases on any line of sight.
    Alerted,
    /// Actively pursuing the player.
    Chasing,
}

/// Phase of the NPC's current routine activity.
#[derive(Clone, Copy, Debug, PartialEq, Eq, Structural)]
pub enum ActivityPhase {
    Traveling,
    Performing,
    /// Chasing the player (managed by the chase module).
    Chasing,
}

/// One xorshift32 step: `x ^= x << 13; x ^= x >> 17; x ^= x << 5`.
pub open spec fn xorshift32_next(x: u32) -> u32 {
    let a = x ^ ((x << 13u32) as u32);
    let b = a ^ (a >> 17u32);
    b ^ ((b << 5u32) as u32)
}

/// Advance the xorshift32 state and return the new value.
pub fn xorshift(state: &mut u32) -> (r: u32)
    ensures
        r == xorshift32_next(*old(state)),
        *final(state) == r,
{
    let mut x = *state;
    x = x ^ (x << 13u32);
    x = x ^ (x >> 17u32);
    x = x ^ (x << 5u32);
    *state = x;
    x
}

// ---------------------------------------------------------------------------
// A* pathfinding
// ---------------------------------------------------------------------------

/// Widen a sequence of `i32` positions.
pub open spec fn iseq(p: Seq<(i32, i32)>) -> Seq<(int, int)> {
    p.map_values(|q: (i32, i32)| ipos(q))
}

/// `p` is a cardinal walk from `from` to `to` over walkable cells.
pub open spec fn walk_between(map: Seq<Cell>, w: int, h: int, p: Seq<(i32, i32)>, from: (i32, i32), to: (i32, i32)) -> bool {
    &&& is_walk(map, w, h, iseq(p))
    &&& p.len() >= 1
    &&& p[0] == from
    &&& p.last() == to
}

#[derive(Clone, Copy)]
struct OpenNode {
    cost: u64,
    g: u32,
    pos: (i32, i32),
}

fn manhattan(a: (i32, i32), b: (i32, i32)) -> (r: u64)
    ensures
        r as int == (if a.0 >= b.0 { a.0 - b.0 } else { b.0 - a.0 }) + (if a.1 >= b.1 { a.1 - b.1 } else { b.1 - a.1 }),
{
    let dx: i64 = if a.0 >= b.0 { a.0 as i64 - b.0 as i64 } else { b.0 as i64 - a.0 as i64 };
    let dy: i64 = if a.1 >= b.1 { a.1 as i64 - b.1 as i64 } else { b.1 as i64 - a.1 as i64 };
    (dx + dy) as u64
}

/// Index of an open entry with the smallest estimated cost.
fn min_cost_index(open: &Vec<OpenNode>) -> (k: usize)
    requires
        open.len() > 0,
    ensures
        k < open.len(),
        forall|j: int| 0 <= j < open.len() ==> open@[k as int].cost <= #[trigger] open@[j].cost,
{
    let mut best: usize = 0;
    let mut i: usize = 1;
    while i < open.len()
        invariant
            0 < open.len(),
            best < open.len(),
            1 <= i <= open.len(),
            forall|j: int| 0 <= j < i ==> open@[best as int].cost <= #[trigger] open@[j].cost,
        decreases open.len() - i,
    {
        if open[i].cost < open[best].cost {
            best = i;
        }
        i = i + 1;
    }
    best
}

/// Position of on-grid flat index `i`.
fn pos_of(i: usize, w: i32, h: i32) -> (p: (i32, i32))
    requires
        0 < w,
        0 <= h,
        w * h <= i32::MAX,
        i < w * h,
    ensures
        in_grid(p.0 as int, p.1 as int, w as int, h as int),
        flat(p.0 as int, p.1 as int, w as int) == i,
{
    proof {
        lemma_unflat(i as int, w as int, h as int);
    }
    let wu = w as usize;
    ((i % wu) as i32, (i / wu) as i32)
}

/// Open entries point at reached on-grid cells and carry a cost no smaller
/// than the cell's best known cost.
spec fn open_ok(w: int, h: int, g: Seq<u32>, open: Seq<OpenNode>, nclosed: int) -> bool {
    forall|k: int| 0 <= k < open.len() ==> {
        let e = #[trigger] open[k];
        &&& in_grid(e.pos.0 as int, e.pos.1 as int, w, h)
        &&& g[flat(e.pos.0 as int, e.pos.1 as int, w)] != u32::MAX
        &&& g[flat(e.pos.0 as int, e.pos.1 as int, w)] <= e.g
        &&& e.g <= nclosed
    }
}

/// Every reached cell but the start has a closed, adjacent parent of
/// smaller cost and is walkable.
spec fn parents_ok(map: Seq<Cell>, w: int, total: int, start: int, g: Seq<u32>, came: Seq<usize>, closed: Seq<bool>) -> bool {
    forall|c: int| 0 <= c < total && c != start && #[trigger] g[c] != u32::MAX ==> {
        let p = came[c] as int;
        &&& 0 <= p < total
        &&& closed[p]
        &&& g[p] < g[c]
        &&& map[c].terrain.spec_walkable()
        &&& adjacent((p % w, p / w), (c % w, c / w))
    }
}

/// Closed cells other than `skip` have reached all their walkable neighbours.
spec fn relaxed_except(map: Seq<Cell>, w: int, total: int, g: Seq<u32>, closed: Seq<bool>, skip: int) -> bool {
    forall|c: int, n: int| 0 <= c < total && 0 <= n < total && #[trigger] closed[c] && c != skip
        && adjacent((c % w, c / w), (n % w, n / w)) && map[n].terrain.spec_walkable()
        ==> #[trigger] g[n] != u32::MAX
}

/// Reached cells that are not closed yet still have an open entry.
spec fn pending_ok(w: int, total: int, g: Seq<u32>, closed: Seq<bool>, open: Seq<OpenNode>) -> bool {
    forall|c: int| 0 <= c < total && #[trigger] g[c] != u32::MAX && !closed[c] ==>
        exists|k: int| 0 <= k < open.len() && flat(open[k].pos.0 as int, open[k].pos.1 as int, w) == c
}

/// Search state invariants of `astar` (cells are flat indices), except the
/// neighbour relaxation of closed cells.
spec fn astar_core(
    map: Seq<Cell>, w: int, h: int, start: int, to: (i32, i32),
    g: Seq<u32>, came: Seq<usize>, closed: Seq<bool>, open: Seq<OpenNode>, nclosed: int,
) -> bool {
    let total = w * h;
    &&& g.len() == total
    &&& came.len() == total
    &&& closed.len() == total
    &&& 0 <= start < total
    &&& g[start] == 0
    &&& 0 <= nclosed <= total
    &&& forall|c: int| 0 <= c < total && #[trigger] g[c] != u32::MAX ==> g[c] <= nclosed
    &&& open_ok(w, h, g, open, nclosed)
    &&& parents_ok(map, w, total, start, g, came, closed)
    &&& forall|c: int| 0 <= c < total && #[trigger] closed[c] ==> g[c] != u32::MAX
    &&& pending_ok(w, total, g, closed, open)
    &&& (in_grid(to.0 as int, to.1 as int, w, h) ==> !closed[flat(to.0 as int, to.1 as int, w)])
}

/// A walk that starts at a reached cell, in a state where every reached cell
/// is closed, only visits reached cells.
proof fn lemma_walk_reached(
    map: Seq<Cell>, w: int, h: int, g: Seq<u32>, closed: Seq<bool>, p: Seq<(int, int)>, i: int,
)
    requires
        0 < w,
        0 <= h,
        g.len() == w * h,
        closed.len() == w * h,
        map.len() == w * h,
        is_walk(map, w, h, p),
        0 <= i < p.len(),
        in_grid(p[0].0, p[0].1, w, h),
        g[flat(p[0].0, p[0].1, w)] != u32::MAX,
        forall|c: int| 0 <= c < w * h && #[trigger] g[c] != u32::MAX ==> closed[c],
        forall|c: int, n: int| 0 <= c < w * h && 0 <= n < w * h && #[trigger] closed[c]
            && adjacent((c % w, c / w), (n % w, n / w)) && map[n].terrain.spec_walkable()
            ==> #[trigger] g[n] != u32::MAX,
    ensures
        in_grid(p[i].0, p[i].1, w, h),
        g[flat(p[i].0, p[i].1, w)] != u32::MAX,
    decreases i,
{
    if i > 0 {
        lemma_walk_reached(map, w, h, g, closed, p, i - 1);
        let c = flat(p[i - 1].0, p[i - 1].1, w);
        let n = flat(p[i].0, p[i].1, w);
        assert(open_at(map, w, h, p[i].0, p[i].1));
        assert(adjacent(p[i - 1], p[i]));
        lemma_flat_in_range(p[i - 1].0, p[i - 1].1, w, h);
        lemma_flat_in_range(p[i].0, p[i].1, w, h);
        assert(closed[c]);
        assert(g[n] != u32::MAX);
    }
}

/// Manhattan distance between two positions.
pub open spec fn grid_dist(a: (int, int), b: (int, int)) -> int {
    (if a.0 >= b.0 { a.0 - b.0 } else { b.0 - a.0 }) + (if a.1 >= b.1 { a.1 - b.1 } else { b.1 - a.1 })
}

/// Every cardinal walk from `a` to `b` takes at least `n` steps.
pub open spec fn steps_at_least(map: Seq<Cell>, w: int, h: int, a: (int, int), b: (int, int), n: int) -> bool {
    forall|p: Seq<(int, int)>| #[trigger] is_walk(map, w, h, p) && p[0] == a && p.last() == b ==> p.len() - 1 >= n
}

/// Some cardinal walk from `a` to `b` takes exactly `n` steps.
pub open spec fn walk_with_steps(map: Seq<Cell>, w: int, h: int, a: (int, int), b: (int, int), n: int) -> bool {
    exists|p: Seq<(int, int)>| #[trigger] is_walk(map, w, h, p) && p[0] == a && p.last() == b && p.len() - 1 == n
}

/// The number of steps of a shortest cardinal walk from `a` to `b`.
pub open spec fn shortest_steps(map: Seq<Cell>, w: int, h: int, a: (int, int), b: (int, int)) -> int {
    choose|n: int| walk_with_steps(map, w, h, a, b, n) && steps_at_least(map, w, h, a, b, n)
}

/// A walk that no other walk beats has the shortest number of steps.
pub proof fn lemma_shortest_steps(map: Seq<Cell>, w: int, h: int, a: (int, int), b: (int, int), p: Seq<(int, int)>)
    requires
        is_walk(map, w, h, p),
        p[0] == a,
        p.last() == b,
        steps_at_least(map, w, h, a, b, p.len() - 1),
    ensures
        shortest_steps(map, w, h, a, b) == p.len() - 1,
{
    assert(walk_with_steps(map, w, h, a, b, p.len() - 1));
    let n = shortest_steps(map, w, h, a, b);
    assert(walk_with_steps(map, w, h, a, b, n) && steps_at_least(map, w, h, a, b, n));
    let q = choose|q: Seq<(int, int)>| #[trigger] is_walk(map, w, h, q) && q[0] == a && q.last() == b && q.len() - 1 == n;
    assert(p.len() - 1 >= n);
    assert(q.len() - 1 >= p.len() - 1);
}

/// Open entries are ranked by cost so far plus the Manhattan distance left.
spec fn entry_costs_ok(open: Seq<OpenNode>, to: (i32, i32)) -> bool {
    forall|k: int| 0 <= k < open.len() ==>
        (#[trigger] open[k]).cost == open[k].g + grid_dist(ipos(open[k].pos), ipos(to))
}

/// Every reached cell that is not closed has an open entry carrying its
/// current cost.
spec fn pending_exact(w: int, total: int, g: Seq<u32>, closed: Seq<bool>, open: Seq<OpenNode>) -> bool {
    forall|c: int| 0 <= c < total && #[trigger] g[c] != u32::MAX && !closed[c] ==>
        exists|k: int| 0 <= k < open.len() && flat(open[k].pos.0 as int, open[k].pos.1 as int, w) == c
            && open[k].g == g[c]
}

/// Closed cells carry their walking distance from the start.
spec fn closed_optimal(map: Seq<Cell>, w: int, h: int, from: (int, int), g: Seq<u32>, closed: Seq<bool>) -> bool {
    forall|c: int| 0 <= c < w * h && #[trigger] closed[c] ==> steps_at_least(map, w, h, from, cpos(c, w), g[c] as int)
}

/// Closed cells other than `skip` have given every walkable neighbour that
/// is still open a cost at most one more than their own.
spec fn bound_except(map: Seq<Cell>, w: int, total: int, g: Seq<u32>, closed: Seq<bool>, skip: int) -> bool {
    forall|c: int, n: int| 0 <= c < total && 0 <= n < total && #[trigger] closed[c] && c != skip
        && adjacent((c % w, c / w), (n % w, n / w)) && map[n].terrain.spec_walkable() && !closed[n]
        ==> #[trigger] g[n] != u32::MAX && g[n] <= g[c] + 1
}

/// A walk's end points are at most as far apart as its steps.
proof fn lemma_walk_dist(map: Seq<Cell>, w: int, h: int, p: Seq<(int, int)>, i: int, j: int)
    requires
        is_walk(map, w, h, p),
        0 <= i <= j < p.len(),
    ensures
        grid_dist(p[i], p[j]) <= j - i,
    decreases j - i,
{
    if i < j {
        lemma_walk_dist(map, w, h, p, i, j - 1);
        assert(adjacent(p[j - 1], p[j]));
    }
}

/// A walk's first `j + 1` positions form a walk.
proof fn lemma_walk_prefix(map: Seq<Cell>, w: int, h: int, p: Seq<(int, int)>, j: int)
    requires
        is_walk(map, w, h, p),
        0 <= j < p.len(),
    ensures
        is_walk(map, w, h, p.take(j + 1)),
{
    let q = p.take(j + 1);
    assert forall|i: int| 1 <= i < q.len() implies #[trigger] open_at(map, w, h, q[i].0, q[i].1) by {
        assert(q[i] == p[i]);
    }
    assert forall|i: int| 1 <= i < q.len() implies adjacent(q[i - 1], #[trigger] q[i]) by {
        assert(q[i] == p[i] && q[i - 1] == p[i - 1]);
    }
}

/// Along a walk from the start whose first `j` cells are closed, cell `j`
/// is reached at a cost of at most `j`.
proof fn lemma_prefix_bound(map: Seq<Cell>, w: int, h: int, from: (int, int), g: Seq<u32>, closed: Seq<bool>,
    p: Seq<(int, int)>, j: int)
    requires
        0 < w,
        0 <= h,
        map.len() == w * h,
        g.len() == w * h,
        closed.len() == w * h,
        is_walk(map, w, h, p),
        p[0] == from,
        in_grid(from.0, from.1, w, h),
        g[flat(from.0, from.1, w)] == 0,
        0 <= j < p.len(),
        forall|t: int| 0 <= t < j ==> #[trigger] closed[flat(p[t].0, p[t].1, w)],
        closed_optimal(map, w, h, from, g, closed),
        bound_except(map, w, w * h, g, closed, -1),
        forall|c: int| 0 <= c < w * h && #[trigger] closed[c] ==> g[c] != u32::MAX,
    ensures
        in_grid(p[j].0, p[j].1, w, h),
        g[flat(p[j].0, p[j].1, w)] != u32::MAX,
        g[flat(p[j].0, p[j].1, w)] <= j,
    decreases j,
{
    if j > 0 {
        lemma_prefix_bound(map, w, h, from, g, closed, p, j - 1);
        assert(open_at(map, w, h, p[j].0, p[j].1));
        let c = flat(p[j - 1].0, p[j - 1].1, w);
        let n = flat(p[j].0, p[j].1, w);
        lemma_flat_in_range(p[j - 1].0, p[j - 1].1, w, h);
        lemma_flat_in_range(p[j].0, p[j].1, w, h);
        assert(closed[c]);
        if closed[n] {
            let q = p.take(j + 1);
            lemma_walk_prefix(map, w, h, p, j);
            assert(cpos(n, w) == p[j]);
            assert(steps_at_least(map, w, h, from, cpos(n, w), g[n] as int));
            assert(q[0] == from && q.last() == p[j]);
            assert(is_walk(map, w, h, q) && q[0] == from && q.last() == cpos(n, w));
        } else {
            assert(adjacent(p[j - 1], p[j]));
            assert(adjacent((c % w, c / w), (n % w, n / w)));
            assert(g[n] != u32::MAX && g[n] <= g[c] + 1);
        }
    }
}

/// The first cell at or after `s` along the walk that is not closed.
proof fn lemma_first_unclosed(w: int, h: int, closed: Seq<bool>, p: Seq<(int, int)>, s: int, j: int) -> (i: int)
    requires
        0 <= s <= j < p.len(),
        forall|t: int| 0 <= t < s ==> #[trigger] closed[flat(p[t].0, p[t].1, w)],
        !closed[flat(p[j].0, p[j].1, w)],
    ensures
        s <= i <= j,
        !closed[flat(p[i].0, p[i].1, w)],
        forall|t: int| 0 <= t < i ==> #[trigger] closed[flat(p[t].0, p[t].1, w)],
    decreases j - s,
{
    if !closed[flat(p[s].0, p[s].1, w)] {
        s
    } else {
        lemma_first_unclosed(w, h, closed, p, s + 1, j)
    }
}

/// The open entry of least cost, for a cell not yet closed, carries a cost
/// no walk from the start to that cell can beat.
proof fn lemma_pop_optimal(map: Seq<Cell>, w: int, h: int, from: (int, int), to: (i32, i32), g: Seq<u32>,
    closed: Seq<bool>, open: Seq<OpenNode>, k: int)
    requires
        0 < w,
        0 <= h,
        map.len() == w * h,
        g.len() == w * h,
        closed.len() == w * h,
        in_grid(from.0, from.1, w, h),
        g[flat(from.0, from.1, w)] == 0,
        closed_optimal(map, w, h, from, g, closed),
        bound_except(map, w, w * h, g, closed, -1),
        forall|c: int| 0 <= c < w * h && #[trigger] closed[c] ==> g[c] != u32::MAX,
        pending_exact(w, w * h, g, closed, open),
        entry_costs_ok(open, to),
        0 <= k < open.len(),
        forall|j: int| 0 <= j < open.len() ==> open[k].cost <= #[trigger] open[j].cost,
        forall|j: int| 0 <= j < open.len() ==> in_grid((#[trigger] open[j]).pos.0 as int, open[j].pos.1 as int, w, h),
        in_grid(open[k].pos.0 as int, open[k].pos.1 as int, w, h),
        !closed[flat(open[k].pos.0 as int, open[k].pos.1 as int, w)],
    ensures
        steps_at_least(map, w, h, from, ipos(open[k].pos), open[k].g as int),
{
    let e = open[k];
    let u = ipos(e.pos);
    assert forall|p: Seq<(int, int)>| #[trigger] is_walk(map, w, h, p) && p[0] == from && p.last() == u
        implies p.len() - 1 >= e.g by {
        let n = p.len() - 1;
        let i = lemma_first_unclosed(w, h, closed, p, 0, n);
        lemma_prefix_bound(map, w, h, from, g, closed, p, i);
        let v = flat(p[i].0, p[i].1, w);
        lemma_flat_in_range(p[i].0, p[i].1, w, h);
        let kv = choose|kk: int| 0 <= kk < open.len() && flat(open[kk].pos.0 as int, open[kk].pos.1 as int, w) == v
            && open[kk].g == g[v];
        lemma_flat_in_range(open[kv].pos.0 as int, open[kv].pos.1 as int, w, h);
        assert(open_at(map, w, h, p[i].0, p[i].1) || i == 0);
        lemma_flat_injective(open[kv].pos.0 as int, open[kv].pos.1 as int, p[i].0, p[i].1, w, h);
        assert(ipos(open[kv].pos) == p[i]);
        lemma_walk_dist(map, w, h, p, i, n);
        assert(open[k].cost <= open[kv].cost);
    }
}

/// Relaxing an open neighbour `nn` of the closed cell `ci` to cost `ng`
/// (at most one more than `ci`'s) and pushing its entry keeps the cost
/// bookkeeping of the search.
proof fn lemma_relax_exact(map: Seq<Cell>, w: int, h: int, from: (int, int), to: (i32, i32),
    g0: Seq<u32>, g1: Seq<u32>, closed: Seq<bool>, open0: Seq<OpenNode>, open1: Seq<OpenNode>,
    nn: int, ng: u32, ci: int, pos: (i32, i32))
    requires
        0 < w,
        0 <= h,
        g0.len() == w * h,
        closed.len() == w * h,
        0 <= nn < w * h,
        0 <= ci < w * h,
        !closed[nn],
        closed[ci],
        ng < g0[nn],
        ng <= g0[ci] + 1,
        g1 == g0.update(nn, ng),
        in_grid(pos.0 as int, pos.1 as int, w, h),
        flat(pos.0 as int, pos.1 as int, w) == nn,
        open1.len() == open0.len() + 1,
        forall|k: int| 0 <= k < open0.len() ==> #[trigger] open1[k] == open0[k],
        open1[open0.len() as int] == (OpenNode { cost: (ng + grid_dist(ipos(pos), ipos(to))) as u64, g: ng, pos: pos }),
        entry_costs_ok(open0, to),
        pending_exact(w, w * h, g0, closed, open0),
        closed_optimal(map, w, h, from, g0, closed),
        bound_except(map, w, w * h, g0, closed, ci),
    ensures
        entry_costs_ok(open1, to),
        pending_exact(w, w * h, g1, closed, open1),
        closed_optimal(map, w, h, from, g1, closed),
        bound_except(map, w, w * h, g1, closed, ci),
{
    assert forall|k: int| 0 <= k < open1.len() implies (#[trigger] open1[k]).cost
        == open1[k].g + grid_dist(ipos(open1[k].pos), ipos(to)) by {
        if k < open0.len() {
            assert(open1[k] == open0[k]);
        }
    }
    assert forall|c: int| 0 <= c < w * h && #[trigger] g1[c] != u32::MAX && !closed[c] implies
        exists|k: int| 0 <= k < open1.len() && flat(open1[k].pos.0 as int, open1[k].pos.1 as int, w) == c
            && open1[k].g == g1[c] by {
        if c == nn {
            assert(flat(open1[open0.len() as int].pos.0 as int, open1[open0.len() as int].pos.1 as int, w) == c);
        } else {
            assert(g0[c] != u32::MAX);
            let k0 = choose|k: int| 0 <= k < open0.len() && flat(open0[k].pos.0 as int, open0[k].pos.1 as int, w) == c
                && open0[k].g == g0[c];
            assert(open1[k0] == open0[k0]);
        }
    }
    assert forall|c: int| 0 <= c < w * h && #[trigger] closed[c] implies
        steps_at_least(map, w, h, from, cpos(c, w), g1[c] as int) by {
        assert(c != nn);
        assert(g1[c] == g0[c]);
    }
    assert forall|c: int, n: int| 0 <= c < w * h && 0 <= n < w * h && #[trigger] closed[c] && c != ci
        && adjacent((c % w, c / w), (n % w, n / w)) && map[n].terrain.spec_walkable() && !closed[n]
        implies #[trigger] g1[n] != u32::MAX && g1[n] <= g1[c] + 1 by {
        assert(g1[c] == g0[c]);
        assert(g0[n] != u32::MAX && g0[n] <= g0[c] + 1);
    }
}

/// Popping entry `k` and closing its cell `ci`, whose cost no walk beats,
/// keeps the cost bookkeeping; every closed cell but `ci` stays bounded.
proof fn lemma_close_costs(map: Seq<Cell>, w: int, h: int, from: (int, int), to: (i32, i32), g: Seq<u32>,
    closed: Seq<bool>, open: Seq<OpenNode>, k: int, ci: int)
    requires
        0 < w,
        0 <= h,
        g.len() == w * h,
        closed.len() == w * h,
        0 <= ci < w * h,
        !closed[ci],
        0 <= k < open.len(),
        flat(open[k].pos.0 as int, open[k].pos.1 as int, w) == ci,
        steps_at_least(map, w, h, from, cpos(ci, w), g[ci] as int),
        entry_costs_ok(open, to),
        pending_exact(w, w * h, g, closed, open),
        closed_optimal(map, w, h, from, g, closed),
        bound_except(map, w, w * h, g, closed, -1),
    ensures
        entry_costs_ok(open.remove(k), to),
        pending_exact(w, w * h, g, closed.update(ci, true), open.remove(k)),
        closed_optimal(map, w, h, from, g, closed.update(ci, true)),
        bound_except(map, w, w * h, g, closed.update(ci, true), ci),
{
    let o2 = open.remove(k);
    let c2 = closed.update(ci, true);
    assert forall|kk: int| 0 <= kk < o2.len() implies #[trigger] o2[kk] == open[if kk < k { kk } else { kk + 1 }] by {}
    assert forall|c: int| 0 <= c < w * h && #[trigger] g[c] != u32::MAX && !c2[c] implies
        exists|kk: int| 0 <= kk < o2.len() && flat(o2[kk].pos.0 as int, o2[kk].pos.1 as int, w) == c
            && o2[kk].g == g[c] by {
        let kk0 = choose|kk: int| 0 <= kk < open.len() && flat(open[kk].pos.0 as int, open[kk].pos.1 as int, w) == c
            && open[kk].g == g[c];
        assert(kk0 != k);
        let kk1 = if kk0 < k { kk0 } else { kk0 - 1 };
        assert(o2[kk1] == open[kk0]);
    }
    assert forall|kk: int| 0 <= kk < o2.len() implies (#[trigger] o2[kk]).cost
        == o2[kk].g + grid_dist(ipos(o2[kk].pos), ipos(to)) by {
        assert(o2[kk] == open[if kk < k { kk } else { kk + 1 }]);
    }
    assert forall|c: int| 0 <= c < w * h && #[trigger] c2[c] implies
        steps_at_least(map, w, h, from, cpos(c, w), g[c] as int) by {
        if c != ci {
            assert(closed[c]);
        }
    }
    assert forall|c: int, n: int| 0 <= c < w * h && 0 <= n < w * h && #[trigger] c2[c] && c != ci
        && adjacent((c % w, c / w), (n % w, n / w)) && map[n].terrain.spec_walkable() && !c2[n]
        implies #[trigger] g[n] != u32::MAX && g[n] <= g[c] + 1 by {
        assert(closed[c] && !closed[n]);
    }
}

/// A* pathfinding on the tile grid (4-directional, Manhattan heuristic).
/// Returns a shortest path from `from` to `to` inclusive, or `None` if `to`
/// cannot be reached by a cardinal walk over walkable cells.
#[verifier::rlimit(100)]
#[verifier::spinoff_prover]
pub fn astar(
    map: &[Cell],
    map_w: i32,
    map_h: i32,
    from: (i32, i32),
    to: (i32, i32),
) -> (r: Option<Vec<(i32, i32)>>)
    requires
        grid_ok(map@, map_w as int, map_h as int),
        from != to ==> in_grid(from.0 as int, from.1 as int, map_w as int, map_h as int),
    ensures
        from == to ==> (r matches Some(p) && p@ == seq![to]),
        r is Some <==> reachable(map@, map_w as int, map_h as int, ipos(from), ipos(to)),
        r matches Some(p) ==> walk_between(map@, map_w as int, map_h as int, p@, from, to),
        r matches Some(p) ==> steps_at_least(map@, map_w as int, map_h as int, ipos(from), ipos(to), p@.len() - 1),
{
    let ghost w = map_w as int;
    let ghost h = map_h as int;
    if from.0 == to.0 && from.1 == to.1 {
        let v = vec![to];
        proof {
            assert(iseq(v@) =~= seq![ipos(to)]);
            assert(is_walk(map@, w, h, iseq(v@)));
            assert(reachable(map@, w, h, ipos(from), ipos(to)));
            assert(steps_at_least(map@, w, h, ipos(from), ipos(to), v@.len() - 1));
        }
        return Some(v);
    }
    let start_idx = grid_index(map, map_w, map_h, from.0, from.1);
    let total = map.len();
    proof {
        assert(0 < w) by (nonlinear_arith)
            requires 0 <= from.0 < w, map@.len() == w * h, 0 <= h;
    }
    let to_in = 0 <= to.0 && to.0 < map_w && 0 <= to.1 && to.1 < map_h;

    let mut g_cost: Vec<u32> = vec![u32::MAX; total];
    let mut came_from: Vec<usize> = vec![usize::MAX; total];
    let mut closed: Vec<bool> = vec![false; total];
    g_cost.set(start_idx, 0);

    let mut open: Vec<OpenNode> = Vec::new();
    open.push(OpenNode { cost: manhattan(from, to), g: 0, pos: from });
    let ghost mut nclosed: int = 0;
    let ghost mut closed_set: Set<int> = Set::empty();
    let ghost all_cells: Set<int> = Set::new(|c: int| 0 <= c < total);

    proof {
        assert forall|c: int| 0 <= c < total && c != start_idx implies #[trigger] g_cost@[c] == u32::MAX by {
            assert(cloned(u32::MAX, g_cost@[c]));
        }
        assert forall|c: int| 0 <= c < total implies !#[trigger] closed@[c] by {
            assert(cloned(false, closed@[c]));
        }
        assert(open@[0].pos == from);
        assert(pending_ok(w, total as int, g_cost@, closed@, open@)) by {
            assert forall|c: int| 0 <= c < total && #[trigger] g_cost@[c] != u32::MAX && !closed@[c] implies
                exists|k: int| 0 <= k < open@.len() && flat(open@[k].pos.0 as int, open@[k].pos.1 as int, w) == c by {
                assert(c == start_idx);
                assert(flat(open@[0].pos.0 as int, open@[0].pos.1 as int, w) == c);
            }
        }
    }

    proof {
        assert(open_ok(w, h, g_cost@, open@, nclosed));
        assert(parents_ok(map@, w, total as int, start_idx as int, g_cost@, came_from@, closed@));
        assert(forall|c: int| 0 <= c < total && #[trigger] g_cost@[c] != u32::MAX ==> g_cost@[c] <= nclosed);
        assert(forall|c: int| 0 <= c < total && #[trigger] closed@[c] ==> g_cost@[c] != u32::MAX);
        assert(in_grid(to.0 as int, to.1 as int, w, h) ==> !closed@[flat(to.0 as int, to.1 as int, w)]) by {
            if in_grid(to.0 as int, to.1 as int, w, h) {
                lemma_flat_in_range(to.0 as int, to.1 as int, w, h);
            }
        }
        assert(closed_set =~= Set::<int>::empty());
        assert(entry_costs_ok(open@, to));
        assert(pending_exact(w, total as int, g_cost@, closed@, open@)) by {
            assert forall|c: int| 0 <= c < total && #[trigger] g_cost@[c] != u32::MAX && !closed@[c] implies
                exists|k: int| 0 <= k < open@.len() && flat(open@[k].pos.0 as int, open@[k].pos.1 as int, w) == c
                    && open@[k].g == g_cost@[c] by {
                assert(c == start_idx);
                assert(flat(open@[0].pos.0 as int, open@[0].pos.1 as int, w) == c);
            }
        }
        assert(closed_optimal(map@, w, h, ipos(from), g_cost@, closed@));
        assert(bound_except(map@, w, total as int, g_cost@, closed@, -1));
    }
    let dirs: [(i32, i32); 4] = [(1, 0), (-1, 0), (0, 1), (0, -1)];

    while open.len() > 0
        invariant
            grid_ok(map@, w, h),
            0 < w,
            w == map_w as int,
            h == map_h as int,
            total == w * h,
            start_idx == flat(from.0 as int, from.1 as int, w),
            in_grid(from.0 as int, from.1 as int, w, h),
            from != to,
            to_in == in_grid(to.0 as int, to.1 as int, w, h),
            dirs@ == seq![(1i32, 0i32), (-1i32, 0i32), (0i32, 1i32), (0i32, -1i32)],
            astar_core(map@, w, h, start_idx as int, to, g_cost@, came_from@, closed@, open@, nclosed),
            relaxed_except(map@, w, total as int, g_cost@, closed@, -1),
            entry_costs_ok(open@, to),
            pending_exact(w, total as int, g_cost@, closed@, open@),
            closed_optimal(map@, w, h, ipos(from), g_cost@, closed@),
            bound_except(map@, w, total as int, g_cost@, closed@, -1),
            forall|c: int| 0 <= c < total ==> (#[trigger] closed@[c] <==> closed_set.contains(c)),
            closed_set.finite(),
            closed_set.len() == nclosed,
            closed_set.subset_of(all_cells),
            all_cells == Set::new(|c: int| 0 <= c < total),
        decreases (total - nclosed) * 5 + open.len(),
    {
        let k = min_cost_index(&open);
        let ghost pre_open = open@;
        let current = open.remove(k);
        proof {
            assert(pre_open[k as int] == current);
            assert(open_ok(w, h, g_cost@, pre_open, nclosed));
        }
        let ci = grid_index(map, map_w, map_h, current.pos.0, current.pos.1);
        proof {
            assert forall|j: int| 0 <= j < pre_open.len() implies in_grid((#[trigger] pre_open[j]).pos.0 as int, pre_open[j].pos.1 as int, w, h) by {}
            assert forall|c: int| 0 <= c < w * h && #[trigger] closed@[c] implies g_cost@[c] != u32::MAX by {}
        }
        if current.pos.0 == to.0 && current.pos.1 == to.1 {
            proof {
                assert(g_cost@[ci as int] != u32::MAX);
                lemma_flat_in_range(to.0 as int, to.1 as int, w, h);
                lemma_flat_in_range(from.0 as int, from.1 as int, w, h);
                lemma_pop_optimal(map@, w, h, ipos(from), to, g_cost@, closed@, pre_open, k as int);
            }
            let path = reconstruct(map, map_w, map_h, from, to, start_idx, ci, &g_cost, &came_from, &closed);
            proof {
                assert(reachable(map@, w, h, ipos(from), ipos(to))) by {
                    assert(is_walk(map@, w, h, iseq(path@)));
                    assert(iseq(path@)[0] == ipos(from));
                    assert(iseq(path@).last() == ipos(to));
                }
                assert(ipos(current.pos) == ipos(to));
                assert(g_cost@[ci as int] <= current.g);
            }
            return Some(path);
        }

        if closed[ci] {
            proof {
                assert forall|c: int| 0 <= c < total && #[trigger] g_cost@[c] != u32::MAX && !closed@[c] implies
                    exists|kk: int| 0 <= kk < open@.len() && flat(open@[kk].pos.0 as int, open@[kk].pos.1 as int, w) == c by {
                    let kk0 = choose|kk: int| 0 <= kk < pre_open.len() && flat(pre_open[kk].pos.0 as int, pre_open[kk].pos.1 as int, w) == c;
                    assert(kk0 != k);
                    let kk1 = if kk0 < k { kk0 } else { kk0 - 1 };
                    assert(open@[kk1] == pre_open[kk0]);
                }
                assert forall|kk: int| 0 <= kk < open@.len() implies #[trigger] open@[kk] == pre_open[if kk < k { kk } else { kk + 1 }] by {}
                assert forall|c: int| 0 <= c < total && #[trigger] g_cost@[c] != u32::MAX && !closed@[c] implies
                    exists|kk: int| 0 <= kk < open@.len() && flat(open@[kk].pos.0 as int, open@[kk].pos.1 as int, w) == c
                        && open@[kk].g == g_cost@[c] by {
                    let kk0 = choose|kk: int| 0 <= kk < pre_open.len() && flat(pre_open[kk].pos.0 as int, pre_open[kk].pos.1 as int, w) == c
                        && pre_open[kk].g == g_cost@[c];
                    assert(kk0 != k);
                    let kk1 = if kk0 < k { kk0 } else { kk0 - 1 };
                    assert(open@[kk1] == pre_open[kk0]);
                }
                assert(entry_costs_ok(open@, to)) by {
                    assert forall|kk: int| 0 <= kk < open@.len() implies (#[trigger] open@[kk]).cost
                        == open@[kk].g + grid_dist(ipos(open@[kk].pos), ipos(to)) by {
                        assert(open@[kk] == pre_open[if kk < k { kk } else { kk + 1 }]);
                    }
                }
            }
            continue;
        }
        proof {
            lemma_flat_in_range(from.0 as int, from.1 as int, w, h);
            lemma_pop_optimal(map@, w, h, ipos(from), to, g_cost@, closed@, pre_open, k as int);
            let kx = choose|kk: int| 0 <= kk < pre_open.len()
                && flat(pre_open[kk].pos.0 as int, pre_open[kk].pos.1 as int, w) == ci as int && pre_open[kk].g == g_cost@[ci as int];
            lemma_flat_in_range(pre_open[kx].pos.0 as int, pre_open[kx].pos.1 as int, w, h);
            lemma_flat_in_range(current.pos.0 as int, current.pos.1 as int, w, h);
            lemma_flat_injective(pre_open[kx].pos.0 as int, pre_open[kx].pos.1 as int, current.pos.0 as int, current.pos.1 as int, w, h);
            assert(pre_open[k as int].cost <= pre_open[kx].cost);
            assert(current.g == g_cost@[ci as int]);
        }
        let ghost closed_before = closed@;
        proof {
            assert(!closed_set.contains(ci as int));
            vstd::set_lib::lemma_int_range(0, total as int);
            assert(all_cells =~= vstd::set_lib::set_int_range(0, total as int));
            vstd::set_lib::lemma_len_subset(closed_set.insert(ci as int), all_cells);
        }
        closed.set(ci, true);
        proof {
            closed_set = closed_set.insert(ci as int);
            nclosed = nclosed + 1;
            lemma_flat_in_range(current.pos.0 as int, current.pos.1 as int, w, h);
            assert forall|kk: int| 0 <= kk < open@.len() implies #[trigger] open@[kk] == pre_open[if kk < k { kk } else { kk + 1 }] by {}
            // the closed entry's cell no longer needs a pending entry; other cells keep theirs
            assert forall|c: int| 0 <= c < total && #[trigger] g_cost@[c] != u32::MAX && !closed@[c] implies
                exists|kk: int| 0 <= kk < open@.len() && flat(open@[kk].pos.0 as int, open@[kk].pos.1 as int, w) == c by {
                let kk0 = choose|kk: int| 0 <= kk < pre_open.len() && flat(pre_open[kk].pos.0 as int, pre_open[kk].pos.1 as int, w) == c;
                assert(kk0 != k);
                let kk1 = if kk0 < k { kk0 } else { kk0 - 1 };
                assert(open@[kk1] == pre_open[kk0]);
            }
            if to_in {
                lemma_flat_in_range(to.0 as int, to.1 as int, w, h);
                if flat(to.0 as int, to.1 as int, w) == ci as int {
                    lemma_flat_injective(to.0 as int, to.1 as int, current.pos.0 as int, current.pos.1 as int, w, h);
                }
            }
            assert(closed@ == closed_before.update(ci as int, true));
            assert(open@ == pre_open.remove(k as int));
            assert(cpos(ci as int, w) == ipos(current.pos));
            lemma_close_costs(map@, w, h, ipos(from), to, g_cost@, closed_before, pre_open, k as int, ci as int);
        }
        let ghost open_at_close = open@;
        let cx = current.pos.0;
        let cy = current.pos.1;

        let mut d: usize = 0;
        while d < 4
            invariant
                grid_ok(map@, w, h),
                0 < w,
                w == map_w as int,
                h == map_h as int,
                total == w * h,
                start_idx == flat(from.0 as int, from.1 as int, w),
                in_grid(from.0 as int, from.1 as int, w, h),
                from != to,
                to_in == in_grid(to.0 as int, to.1 as int, w, h),
                dirs@ == seq![(1i32, 0i32), (-1i32, 0i32), (0i32, 1i32), (0i32, -1i32)],
                d <= 4,
                ci < total,
                ci == flat(cx as int, cy as int, w),
                (ci as int) % w == cx as int,
                (ci as int) / w == cy as int,
                in_grid(cx as int, cy as int, w, h),
                closed@[ci as int],
                g_cost@[ci as int] != u32::MAX,
                g_cost@[ci as int] <= current.g,
                current.g < nclosed,
                open@.len() <= open_at_close.len() + d,
                astar_core(map@, w, h, start_idx as int, to, g_cost@, came_from@, closed@, open@, nclosed),
                relaxed_except(map@, w, total as int, g_cost@, closed@, ci as int),
                entry_costs_ok(open@, to),
                pending_exact(w, total as int, g_cost@, closed@, open@),
                closed_optimal(map@, w, h, ipos(from), g_cost@, closed@),
                bound_except(map@, w, total as int, g_cost@, closed@, ci as int),
                g_cost@[ci as int] == current.g,
                forall|dd: int| 0 <= dd < d ==> {
                    let nx = cx + (#[trigger] dirs@[dd]).0;
                    let ny = cy + dirs@[dd].1;
                    in_grid(nx, ny, w, h) && map@[flat(nx, ny, w)].terrain.spec_walkable()
                        ==> g_cost@[flat(nx, ny, w)] != u32::MAX
                        && (closed@[flat(nx, ny, w)] || g_cost@[flat(nx, ny, w)] <= current.g + 1)
                },
                forall|c: int| 0 <= c < total ==> (#[trigger] closed@[c] <==> closed_set.contains(c)),
                closed_set.finite(),
                closed_set.len() == nclosed,
                closed_set.subset_of(all_cells),
                all_cells == Set::new(|c: int| 0 <= c < total),
                nclosed <= total,
            decreases 4 - d,
        {
            let (dx, dy) = dirs[d];
            let nx = cx + dx;
            let ny = cy + dy;
            let ghost g_before = g_cost@;
            let ghost came_before = came_from@;
            let ghost open_before = open@;
            proof {
                assert(dirs@[d as int] == (dx, dy));
            }
            if 0 <= nx && nx < map_w && 0 <= ny && ny < map_h {
                let ni = grid_index(map, map_w, map_h, nx, ny);
                if !closed[ni] && map[ni].is_walkable() {
                    let ng = current.g + 1;
                    proof {
                        assert(ng as int <= nclosed);
                        assert(nclosed <= total);
                        assert(total <= i32::MAX);
                    }
                    if ng < g_cost[ni] {
                        g_cost.set(ni, ng);
                        came_from.set(ni, ci);
                        open.push(OpenNode { cost: ng as u64 + manhattan((nx, ny), to), g: ng, pos: (nx, ny) });
                        proof {
                            lemma_flat_in_range(nx as int, ny as int, w, h);
                            let nn = ni as int;
                            assert(adjacent((cx as int, cy as int), (nx as int, ny as int)));
                            assert(open@[open@.len() - 1].pos == (nx, ny));
                            assert forall|kk: int| 0 <= kk < open_before.len() implies #[trigger] open@[kk] == open_before[kk] by {}
                            assert(open_ok(w, h, g_cost@, open@, nclosed)) by {
                                assert forall|kk: int| 0 <= kk < open@.len() implies {
                                    let e = #[trigger] open@[kk];
                                    &&& in_grid(e.pos.0 as int, e.pos.1 as int, w, h)
                                    &&& g_cost@[flat(e.pos.0 as int, e.pos.1 as int, w)] != u32::MAX
                                    &&& g_cost@[flat(e.pos.0 as int, e.pos.1 as int, w)] <= e.g
                                    &&& e.g <= nclosed
                                } by {
                                    if kk < open_before.len() {
                                        assert(open@[kk] == open_before[kk]);
                                        let f = flat(open@[kk].pos.0 as int, open@[kk].pos.1 as int, w);
                                        assert(g_before[f] <= open@[kk].g);
                                        assert(g_cost@ == g_before.update(nn, ng));
                                        lemma_flat_in_range(open@[kk].pos.0 as int, open@[kk].pos.1 as int, w, h);
                                        if f != nn {
                                            assert(g_cost@[f] == g_before[f]);
                                        }
                                    } else {
                                        assert(kk == open_before.len());
                                        assert(open@[kk].g == ng);
                                        assert(open@[kk].pos == (nx, ny));
                                        assert(g_cost@[nn] == ng);
                                    }
                                }
                            }
                            assert(parents_ok(map@, w, total as int, start_idx as int, g_cost@, came_from@, closed@)) by {
                                assert forall|c: int| 0 <= c < total && c != start_idx && #[trigger] g_cost@[c] != u32::MAX implies {
                                    let p = came_from@[c] as int;
                                    &&& 0 <= p < total
                                    &&& closed@[p]
                                    &&& g_cost@[p] < g_cost@[c]
                                    &&& map@[c].terrain.spec_walkable()
                                    &&& adjacent((p % w, p / w), (c % w, c / w))
                                } by {
                                    if c != nn {
                                        assert(g_before[c] != u32::MAX);
                                        let p = came_before[c] as int;
                                        if p == nn {
                                            assert(closed@[p]);
                                        }
                                    }
                                }
                            }
                            assert(pending_ok(w, total as int, g_cost@, closed@, open@)) by {
                                assert forall|c: int| 0 <= c < total && #[trigger] g_cost@[c] != u32::MAX && !closed@[c] implies
                                    exists|kk: int| 0 <= kk < open@.len() && flat(open@[kk].pos.0 as int, open@[kk].pos.1 as int, w) == c by {
                                    if c == nn {
                                        assert(flat(open@[open@.len() - 1].pos.0 as int, open@[open@.len() - 1].pos.1 as int, w) == c);
                                    } else {
                                        assert(g_before[c] != u32::MAX);
                                        let kk0 = choose|kk: int| 0 <= kk < open_before.len() && flat(open_before[kk].pos.0 as int, open_before[kk].pos.1 as int, w) == c;
                                        assert(open@[kk0] == open_before[kk0]);
                                    }
                                }
                            }
                            assert(forall|c: int| 0 <= c < total && #[trigger] g_cost@[c] != u32::MAX ==> g_cost@[c] <= nclosed);
                            assert(forall|c: int| 0 <= c < total && #[trigger] closed@[c] ==> g_cost@[c] != u32::MAX);
                            assert(g_cost@[start_idx as int] == 0);
                            assert(relaxed_except(map@, w, total as int, g_cost@, closed@, ci as int)) by {
                                assert forall|c: int, n: int| 0 <= c < total && 0 <= n < total && #[trigger] closed@[c] && c != ci
                                    && adjacent((c % w, c / w), (n % w, n / w)) && map@[n].terrain.spec_walkable()
                                    implies #[trigger] g_cost@[n] != u32::MAX by {
                                    if n != nn {
                                        assert(g_before[n] != u32::MAX);
                                    }
                                }
                            }
                            lemma_relax_exact(map@, w, h, ipos(from), to, g_before, g_cost@, closed@, open_before, open@,
                                nn, ng, ci as int, (nx, ny));
                        }
                    }
                    proof {
                        assert(g_cost@[ni as int] <= current.g + 1);
                    }
                }
            }
            proof {
                assert forall|c: int| 0 <= c < total && #[trigger] g_before[c] != u32::MAX implies g_cost@[c] != u32::MAX by {}
                assert forall|c: int| 0 <= c < total implies #[trigger] g_cost@[c] <= g_before[c] by {}
                assert forall|dd: int| 0 <= dd < d + 1 implies {
                    let nx2 = cx + (#[trigger] dirs@[dd]).0;
                    let ny2 = cy + dirs@[dd].1;
                    in_grid(nx2, ny2, w, h) && map@[flat(nx2, ny2, w)].terrain.spec_walkable()
                        ==> g_cost@[flat(nx2, ny2, w)] != u32::MAX
                        && (closed@[flat(nx2, ny2, w)] || g_cost@[flat(nx2, ny2, w)] <= current.g + 1)
                } by {
                    let nx2 = cx + dirs@[dd].0;
                    let ny2 = cy + dirs@[dd].1;
                    if in_grid(nx2, ny2, w, h) && map@[flat(nx2, ny2, w)].terrain.spec_walkable() {
                        lemma_flat_in_range(nx2, ny2, w, h);
                        if dd < d {
                            assert(g_before[flat(nx2, ny2, w)] != u32::MAX);
                            assert(closed@[flat(nx2, ny2, w)] || g_before[flat(nx2, ny2, w)] <= current.g + 1);
                        } else {
                            assert(nx2 == nx && ny2 == ny);
                            let ni2 = flat(nx2, ny2, w);
                            if closed@[ni2] {
                                assert(g_cost@[ni2] != u32::MAX);
                            }
                        }
                        assert(g_cost@[flat(nx2, ny2, w)] <= g_before[flat(nx2, ny2, w)]);
                    }
                }
            }
            d = d + 1;
        }
        proof {
            assert(bound_except(map@, w, total as int, g_cost@, closed@, -1)) by {
                assert forall|c: int, n: int| 0 <= c < total && 0 <= n < total && #[trigger] closed@[c] && c != -1
                    && adjacent((c % w, c / w), (n % w, n / w)) && map@[n].terrain.spec_walkable() && !closed@[n]
                    implies #[trigger] g_cost@[n] != u32::MAX && g_cost@[n] <= g_cost@[c] + 1 by {
                    if c == ci as int {
                        lemma_unflat(n, w, h);
                        let nx = n % w;
                        let ny = n / w;
                        let dd = if nx == cx + 1 { 0int } else if nx == cx - 1 { 1int } else if ny == cy + 1 { 2int } else { 3int };
                        assert(dirs@[dd].0 == nx - cx && dirs@[dd].1 == ny - cy);
                        assert(flat(nx, ny, w) == n);
                    }
                }
            }
            assert(relaxed_except(map@, w, total as int, g_cost@, closed@, -1)) by {
                assert forall|c: int, n: int| 0 <= c < total && 0 <= n < total && #[trigger] closed@[c] && c != -1
                    && adjacent((c % w, c / w), (n % w, n / w)) && map@[n].terrain.spec_walkable()
                    implies #[trigger] g_cost@[n] != u32::MAX by {
                    if c == ci as int {
                        lemma_unflat(n, w, h);
                        let nx = n % w;
                        let ny = n / w;
                        let dd = if nx == cx + 1 { 0int } else if nx == cx - 1 { 1int } else if ny == cy + 1 { 2int } else { 3int };
                        assert(dirs@[dd].0 == nx - cx && dirs@[dd].1 == ny - cy);
                        assert(flat(nx, ny, w) == n);
                    }
                }
            }
        }
    }
    proof {
        assert forall|c: int| 0 <= c < total && #[trigger] g_cost@[c] != u32::MAX implies closed@[c] by {
            if !closed@[c] {
                let kk = choose|kk: int| 0 <= kk < open@.len() && flat(open@[kk].pos.0 as int, open@[kk].pos.1 as int, w) == c;
                assert(open@.len() == 0);
            }
        }
        if reachable(map@, w, h, ipos(from), ipos(to)) {
            let p = choose|p: Seq<(int, int)>| #[trigger] is_walk(map@, w, h, p) && p[0] == ipos(from) && p.last() == ipos(to);
            lemma_flat_in_range(from.0 as int, from.1 as int, w, h);
            lemma_walk_reached(map@, w, h, g_cost@, closed@, p, p.len() - 1);
            lemma_flat_in_range(to.0 as int, to.1 as int, w, h);
            assert(closed@[flat(to.0 as int, to.1 as int, w)]);
        }
    }
    None
}

/// Follow parent links from the reached target back to the start and
/// return the walk from `from` to `to`.
fn reconstruct(
    map: &[Cell], map_w: i32, map_h: i32, from: (i32, i32), to: (i32, i32),
    start_idx: usize, ci: usize, g_cost: &Vec<u32>, came_from: &Vec<usize>, closed: &Vec<bool>,
) -> (path: Vec<(i32, i32)>)
    requires
        grid_ok(map@, map_w as int, map_h as int),
        0 < map_w,
        in_grid(from.0 as int, from.1 as int, map_w as int, map_h as int),
        in_grid(to.0 as int, to.1 as int, map_w as int, map_h as int),
        from != to,
        start_idx == flat(from.0 as int, from.1 as int, map_w as int),
        ci == flat(to.0 as int, to.1 as int, map_w as int),
        g_cost@.len() == map@.len(),
        came_from@.len() == map@.len(),
        closed@.len() == map@.len(),
        g_cost@[ci as int] != u32::MAX,
        parents_ok(map@, map_w as int, map@.len() as int, start_idx as int, g_cost@, came_from@, closed@),
    ensures
        walk_between(map@, map_w as int, map_h as int, path@, from, to),
        path@.len() <= g_cost@[ci as int] + 1,
{
    let ghost w = map_w as int;
    let ghost h = map_h as int;
    let total = map.len();
    proof {
        lemma_flat_in_range(to.0 as int, to.1 as int, w, h);
        lemma_flat_in_range(from.0 as int, from.1 as int, w, h);
        if ci == start_idx {
            lemma_flat_injective(to.0 as int, to.1 as int, from.0 as int, from.1 as int, w, h);
        }
    }
    let mut back: Vec<(i32, i32)> = Vec::new();
    let mut cur = ci;
    loop
        invariant
            grid_ok(map@, w, h),
            0 < w,
            w == map_w as int,
            h == map_h as int,
            total == w * h,
            start_idx == flat(from.0 as int, from.1 as int, w),
            in_grid(from.0 as int, from.1 as int, w, h),
            (start_idx as int) % w == from.0 as int,
            (start_idx as int) / w == from.1 as int,
            ci == flat(to.0 as int, to.1 as int, w),
            ci != start_idx,
            g_cost@.len() == total,
            came_from@.len() == total,
            closed@.len() == total,
            parents_ok(map@, w, total as int, start_idx as int, g_cost@, came_from@, closed@),
            cur < total,
            g_cost@[cur as int] != u32::MAX,
            back@.len() == 0 ==> cur == ci,
            back@.len() > 0 ==> back@[0] == to,
            back@.len() > 0 ==> adjacent(ipos(back@.last()), ((cur as int) % w, (cur as int) / w)),
            (ci as int) % w == to.0 as int,
            (ci as int) / w == to.1 as int,
            forall|j: int| 0 <= j < back@.len() ==> #[trigger] open_at(map@, w, h, back@[j].0 as int, back@[j].1 as int),
            forall|j: int| 1 <= j < back@.len() ==> adjacent(ipos(back@[j - 1]), #[trigger] ipos(back@[j])),
            back@.len() + g_cost@[cur as int] <= g_cost@[ci as int],
        ensures
            cur == start_idx,
            back@.len() > 0,
            back@[0] == to,
            adjacent(ipos(back@.last()), ipos(from)),
            forall|j: int| 0 <= j < back@.len() ==> #[trigger] open_at(map@, w, h, back@[j].0 as int, back@[j].1 as int),
            forall|j: int| 1 <= j < back@.len() ==> adjacent(ipos(back@[j - 1]), #[trigger] ipos(back@[j])),
            back@.len() <= g_cost@[ci as int],
        decreases g_cost@[cur as int],
    {
        if cur == start_idx {
            break;
        }
        let p = pos_of(cur, map_w, map_h);
        let parent = came_from[cur];
        proof {
            lemma_unflat(cur as int, w, h);
            lemma_flat_injective(p.0 as int, p.1 as int, (cur as int) % w, (cur as int) / w, w, h);
        }
        back.push(p);
        proof {
            let q = parent as int;
            lemma_unflat(q, w, h);
            assert(g_cost@[q] < g_cost@[cur as int]);
            assert(g_cost@[q] != u32::MAX);
            let jj = back@.len() - 1;
            assert(back@[jj] == p);
            if jj > 0 {
                assert(adjacent(ipos(back@[jj - 1]), ipos(back@[jj])));
            }
            assert(open_at(map@, w, h, p.0 as int, p.1 as int));
            assert(adjacent((q % w, q / w), ((cur as int) % w, (cur as int) / w)));
            if cur == ci {
                assert(p == to);
            }
        }
        cur = parent;
    }
    let n = back.len();
    let mut path: Vec<(i32, i32)> = Vec::new();
    path.push(from);
    let mut j: usize = n;
    while j > 0
        invariant
            n == back@.len(),
            j <= n,
            path@.len() == n - j + 1,
            path@[0] == from,
            forall|t: int| 1 <= t < path@.len() ==> path@[t] == #[trigger] back@[n - t],
        decreases j,
    {
        j = j - 1;
        path.push(back[j]);
    }
    proof {
        let ip = iseq(path@);
        assert(n > 0);
        assert forall|t: int| 1 <= t < ip.len() implies #[trigger] open_at(map@, w, h, ip[t].0, ip[t].1) by {
            assert(path@[t] == back@[n - t]);
            assert(open_at(map@, w, h, back@[n - t].0 as int, back@[n - t].1 as int));
        }
        assert forall|t: int| 1 <= t < ip.len() implies adjacent(ip[t - 1], #[trigger] ip[t]) by {
            if t == 1 {
                assert(path@[1] == back@[n - 1]);
            } else {
                assert(path@[t] == back@[n - t]);
                assert(path@[t - 1] == back@[n - (t - 1)]);
                assert(adjacent(ipos(back@[n - t]), ipos(back@[n - t + 1])));
            }
        }
        assert(path@[n as int] == back@[n - (n as int)]);
        assert(path@.last() == back@[0]);
    }
    path
}

} // verus!
