//! Subgoal graph for fast cross-room pathfinding on the 4-connected grid:
//! subgoals are walkable tiles at convex obstacle corners, linked when they
//! see each other along a row or column.

use vstd::prelude::*;
use crate::cell::{Cell, grid_ok, in_grid, flat, open_at, lemma_flat_in_range, lemma_unflat, idx, walkable_at};

verus! {

/// Direction `k` of the four cardinal scans: east, west, south, north.
pub open spec fn ray_dir(k: int) -> (int, int) {
    if k == 0 { (1, 0) } else if k == 1 { (-1, 0) } else if k == 2 { (0, 1) } else { (0, -1) }
}

/// `j` steps from `(x0, y0)` in direction `k`.
pub open spec fn ray_pos(x0: int, y0: int, k: int, j: int) -> (int, int) {
    if k == 0 { (x0 + j, y0) } else if k == 1 { (x0 - j, y0) } else if k == 2 { (x0, y0 + j) } else { (x0, y0 - j) }
}

/// Cells left on the grid from `(x, y)` in direction `k`.
pub open spec fn ray_room(x: int, y: int, k: int, w: int, h: int) -> int {
    if k == 0 { w - x } else if k == 1 { x + 1 } else if k == 2 { h - y } else { y + 1 }
}

/// First subgoal met walking from `(x, y)` (inclusive) in direction `k`
/// over walkable tiles, with its distance counted from `dist`.
pub open spec fn ray_hit(map: Seq<Cell>, w: int, h: int, t2s: Seq<usize>, x: int, y: int, k: int, dist: int)
    -> Option<(usize, u32)>
    decreases ray_room(x, y, k, w, h),
{
    if !open_at(map, w, h, x, y) || !(0 <= k < 4) {
        None
    } else if t2s[flat(x, y, w)] != usize::MAX {
        Some((t2s[flat(x, y, w)], dist as u32))
    } else {
        ray_hit(map, w, h, t2s, x + ray_dir(k).0, y + ray_dir(k).1, k, dist + 1)
    }
}

/// The subgoals seen from `(x, y)` along the first `k` directions, nearest
/// per direction, in direction order.
pub open spec fn ray_hits(map: Seq<Cell>, w: int, h: int, t2s: Seq<usize>, x: int, y: int, k: int)
    -> Seq<(usize, u32)>
    decreases k,
{
    if k <= 0 || k > 4 {
        Seq::empty()
    } else {
        let prev = ray_hits(map, w, h, t2s, x, y, k - 1);
        match ray_hit(map, w, h, t2s, x + ray_dir(k - 1).0, y + ray_dir(k - 1).1, k - 1, 1) {
            Some(p) => prev.push(p),
            None => prev,
        }
    }
}

/// A tile outside the grid or not walkable.
pub open spec fn blocked(map: Seq<Cell>, w: int, h: int, x: int, y: int) -> bool {
    !open_at(map, w, h, x, y)
}

/// Convex corner at diagonal `(dx, dy)`: the diagonal tile is blocked while
/// both tiles beside it are walkable.
pub open spec fn corner(map: Seq<Cell>, w: int, h: int, x: int, y: int, dx: int, dy: int) -> bool {
    blocked(map, w, h, x + dx, y + dy) && open_at(map, w, h, x + dx, y) && open_at(map, w, h, x, y + dy)
}

/// A walkable tile at a convex obstacle corner.
pub open spec fn is_subgoal(map: Seq<Cell>, w: int, h: int, x: int, y: int) -> bool {
    &&& open_at(map, w, h, x, y)
    &&& corner(map, w, h, x, y, -1, -1) || corner(map, w, h, x, y, -1, 1)
        || corner(map, w, h, x, y, 1, -1) || corner(map, w, h, x, y, 1, 1)
}

/// `a` and `b` share a row or column and every tile strictly between them
/// is walkable.
pub open spec fn aligned_clear(map: Seq<Cell>, w: int, h: int, a: (int, int), b: (int, int)) -> bool {
    ||| a.0 == b.0 && forall|y: int| vstd::math::min(a.1, b.1) < y < vstd::math::max(a.1, b.1)
        ==> #[trigger] open_at(map, w, h, a.0, y)
    ||| a.1 == b.1 && forall|x: int| vstd::math::min(a.0, b.0) < x < vstd::math::max(a.0, b.0)
        ==> #[trigger] open_at(map, w, h, x, a.1)
}

/// Cardinal line of sight: same column (or else same row) and every tile
/// from `a` to `b` inclusive on the grid and walkable.
pub open spec fn los(map: Seq<Cell>, w: int, h: int, a: (int, int), b: (int, int)) -> bool {
    if a.0 == b.0 {
        forall|y: int| vstd::math::min(a.1, b.1) <= y <= vstd::math::max(a.1, b.1) ==> #[trigger] open_at(map, w, h, a.0, y)
    } else if a.1 == b.1 {
        forall|x: int| vstd::math::min(a.0, b.0) <= x <= vstd::math::max(a.0, b.0) ==> #[trigger] open_at(map, w, h, x, a.1)
    } else {
        false
    }
}

/// Manhattan distance.
pub open spec fn manhattan(a: (int, int), b: (int, int)) -> int {
    (vstd::math::abs(a.0 - b.0) + vstd::math::abs(a.1 - b.1)) as int
}

/// Widen an `i32` position.
pub open spec fn ip(p: (i32, i32)) -> (int, int) {
    (p.0 as int, p.1 as int)
}

/// Precomputed subgoal graph.
pub struct SubgoalGraph {
    /// Subgoal tile positions, in row-major order.
    pub subgoals: Vec<(i32, i32)>,
    /// For each subgoal, its nearest subgoal in each cardinal direction (if
    /// any) with the distance.
    pub edges: Vec<Vec<(usize, u32)>>,
    /// Per tile: its index in `subgoals`, or `usize::MAX`.
    pub tile_to_sg: Vec<usize>,
}

impl SubgoalGraph {
    /// The graph is consistent with the map: tile indices and subgoal
    /// positions agree, subgoals are walkable, and every edge joins two
    /// subgoals in line of sight at their distance, at most four per subgoal.
    pub open spec fn wf(&self, map: Seq<Cell>, w: int, h: int) -> bool {
        &&& tiles_ok(self.subgoals@, self.tile_to_sg@, map, w, h)
        &&& self.subgoals@.len() <= w * h
        &&& self.edges@.len() == self.subgoals@.len()
        &&& forall|s: int| 0 <= s < self.edges@.len() ==> (#[trigger] self.edges@[s])@.len() <= 4
        &&& forall|s: int, e: int| 0 <= s < self.edges@.len() && 0 <= e < self.edges@[s]@.len() ==> {
            let (t, d) = #[trigger] self.edges@[s]@[e];
            &&& (t as int) < self.subgoals@.len()
            &&& aligned_clear(map, w, h, ip(self.subgoals@[s]), ip(self.subgoals@[t as int]))
            &&& d as int == manhattan(ip(self.subgoals@[s]), ip(self.subgoals@[t as int]))
        }
    }
}

/// Tile indices and subgoal positions agree and subgoals are walkable.
pub open spec fn tiles_ok(subgoals: Seq<(i32, i32)>, t2s: Seq<usize>, map: Seq<Cell>, w: int, h: int) -> bool {
    &&& grid_ok(map, w, h)
    &&& t2s.len() == w * h
    &&& forall|s: int| 0 <= s < subgoals.len() ==>
        open_at(map, w, h, (#[trigger] subgoals[s]).0 as int, subgoals[s].1 as int)
        && t2s[flat(subgoals[s].0 as int, subgoals[s].1 as int, w)] == s
    &&& forall|i: int| 0 <= i < w * h && #[trigger] t2s[i] != usize::MAX ==>
        t2s[i] < subgoals.len()
        && flat(subgoals[t2s[i] as int].0 as int, subgoals[t2s[i] as int].1 as int, w) == i
}

/// Walking a ray: the hit is a subgoal in line with clear tiles between.
proof fn lemma_ray_hit(map: Seq<Cell>, w: int, h: int, sgs: Seq<(i32, i32)>, t2s: Seq<usize>,
    x0: int, y0: int, x: int, y: int, k: int, dist: int)
    requires
        tiles_ok(sgs, t2s, map, w, h),
        in_grid(x0, y0, w, h),
        0 <= k < 4,
        dist >= 1,
        (x, y) == ray_pos(x0, y0, k, dist),
        forall|j: int| 1 <= j < dist ==> #[trigger] open_at(map, w, h, ray_pos(x0, y0, k, j).0, ray_pos(x0, y0, k, j).1),
        dist <= w + h,
    ensures
        ray_hit(map, w, h, t2s, x, y, k, dist) matches Some((t, d)) ==> {
            &&& (t as int) < sgs.len()
            &&& aligned_clear(map, w, h, (x0, y0), ip(sgs[t as int]))
            &&& d as int == manhattan((x0, y0), ip(sgs[t as int]))
        },
    decreases ray_room(x, y, k, w, h),
{
    if open_at(map, w, h, x, y) {
        lemma_flat_in_range(x, y, w, h);
        let f = flat(x, y, w);
        if t2s[f] != usize::MAX {
            let t = t2s[f] as int;
            let p = ip(sgs[t]);
            lemma_flat_in_range(p.0, p.1, w, h);
            crate::cell::lemma_flat_injective(p.0, p.1, x, y, w, h);
            assert(p == (x, y));
            assert(dist <= 0xffff_ffff) by {
                assert(w <= w * h && h <= w * h) by (nonlinear_arith) requires 1 <= w, 1 <= h;
            }
            if k == 0 {
                assert forall|xx: int| vstd::math::min(x0, x) < xx < vstd::math::max(x0, x) implies
                    #[trigger] open_at(map, w, h, xx, y0) by {
                    let j = xx - x0;
                                        assert(open_at(map, w, h, ray_pos(x0, y0, k, j).0, ray_pos(x0, y0, k, j).1));
                }
            } else if k == 1 {
                assert forall|xx: int| vstd::math::min(x0, x) < xx < vstd::math::max(x0, x) implies
                    #[trigger] open_at(map, w, h, xx, y0) by {
                    let j = x0 - xx;
                                        assert(open_at(map, w, h, ray_pos(x0, y0, k, j).0, ray_pos(x0, y0, k, j).1));
                }
            } else if k == 2 {
                assert forall|yy: int| vstd::math::min(y0, y) < yy < vstd::math::max(y0, y) implies
                    #[trigger] open_at(map, w, h, x0, yy) by {
                    let j = yy - y0;
                                        assert(open_at(map, w, h, ray_pos(x0, y0, k, j).0, ray_pos(x0, y0, k, j).1));
                }
            } else {
                assert forall|yy: int| vstd::math::min(y0, y) < yy < vstd::math::max(y0, y) implies
                    #[trigger] open_at(map, w, h, x0, yy) by {
                    let j = y0 - yy;
                                        assert(open_at(map, w, h, ray_pos(x0, y0, k, j).0, ray_pos(x0, y0, k, j).1));
                }
            }
        } else {
            assert forall|j: int| 1 <= j < dist + 1 implies #[trigger] open_at(map, w, h, ray_pos(x0, y0, k, j).0, ray_pos(x0, y0, k, j).1) by {
                if j == dist {
                }
            }
            if dist + 1 <= w + h {
                lemma_ray_hit(map, w, h, sgs, t2s, x0, y0, x + ray_dir(k).0, y + ray_dir(k).1, k, dist + 1);
            } else {
                assert(!in_grid(x + ray_dir(k).0, y + ray_dir(k).1, w, h));
            }
        }
    }
}

/// Cardinal line of sight: `a` and `b` share a column (or else a row) and
/// every tile from one to the other, both included, is on the grid and
/// walkable.
pub fn cardinal_los(a: (i32, i32), b: (i32, i32), map: &[Cell], w: i32, h: i32) -> (r: bool)
    requires
        grid_ok(map@, w as int, h as int),
    ensures
        r == los(map@, w as int, h as int, ip(a), ip(b)),
{
    if a.0 == b.0 {
        let x = a.0;
        let (y0, y1) = if a.1 < b.1 { (a.1, b.1) } else { (b.1, a.1) };
        let mut y: i64 = y0 as i64;
        while y <= y1 as i64
            invariant
                grid_ok(map@, w as int, h as int),
                a.0 == b.0,
                x == a.0,
                y0 as int == vstd::math::min(a.1 as int, b.1 as int),
                y1 as int == vstd::math::max(a.1 as int, b.1 as int),
                y0 <= y <= y1 + 1,
                forall|yy: int| y0 <= yy < y ==> #[trigger] open_at(map@, w as int, h as int, x as int, yy),
            decreases y1 + 1 - y,
        {
            let yi = y as i32;
            if !walkable_at(map, w, h, x, yi) {
                return false;
            }
            y = y + 1;
        }
        true
    } else if a.1 == b.1 {
        let y = a.1;
        let (x0, x1) = if a.0 < b.0 { (a.0, b.0) } else { (b.0, a.0) };
        let mut x: i64 = x0 as i64;
        while x <= x1 as i64
            invariant
                grid_ok(map@, w as int, h as int),
                a.0 != b.0,
                a.1 == b.1,
                y == a.1,
                x0 as int == vstd::math::min(a.0 as int, b.0 as int),
                x1 as int == vstd::math::max(a.0 as int, b.0 as int),
                x0 <= x <= x1 + 1,
                forall|xx: int| x0 <= xx < x ==> #[trigger] open_at(map@, w as int, h as int, xx, y as int),
            decreases x1 + 1 - x,
        {
            let xi = x as i32;
            if !walkable_at(map, w, h, xi, y) {
                return false;
            }
            x = x + 1;
        }
        true
    } else {
        false
    }
}

/// The first subgoal seen from `(x, y)` in direction `k`, with its distance.
fn scan_ray(map: &[Cell], w: i32, h: i32, t2s: &Vec<usize>, x: i32, y: i32, k: usize) -> (r: Option<(usize, u32)>)
    requires
        grid_ok(map@, w as int, h as int),
        t2s@.len() == w * h,
        in_grid(x as int, y as int, w as int, h as int),
        k < 4,
    ensures
        r == ray_hit(map@, w as int, h as int, t2s@, x + ray_dir(k as int).0, y + ray_dir(k as int).1, k as int, 1),
{
    let ghost wi = w as int;
    let ghost hi = h as int;
    proof {
        assert(w <= w * h && h <= w * h) by (nonlinear_arith) requires 1 <= w, 1 <= h;
    }
    let (dx, dy): (i32, i32) = if k == 0 { (1, 0) } else if k == 1 { (-1, 0) } else if k == 2 { (0, 1) } else { (0, -1) };
    let mut cx: i32 = x + dx;
    let mut cy: i32 = y + dy;
    let mut dist: u32 = 1;
    while walkable_at(map, w, h, cx, cy)
        invariant
            grid_ok(map@, wi, hi),
            wi == w,
            hi == h,
            w <= i32::MAX,
            h <= i32::MAX,
            t2s@.len() == w * h,
            in_grid(x as int, y as int, wi, hi),
            k < 4,
            (dx as int, dy as int) == ray_dir(k as int),
            (cx as int, cy as int) == ray_pos(x as int, y as int, k as int, dist as int),
            1 <= dist,
            ray_hit(map@, wi, hi, t2s@, x + ray_dir(k as int).0, y + ray_dir(k as int).1, k as int, 1)
                == ray_hit(map@, wi, hi, t2s@, cx as int, cy as int, k as int, dist as int),
        decreases ray_room(cx as int, cy as int, k as int, wi, hi),
    {
        proof {
            lemma_flat_in_range(cx as int, cy as int, wi, hi);
        }
        let ci = idx(cx, cy, w);
        if t2s[ci] != usize::MAX {
            return Some((t2s[ci], dist));
        }
        proof {
            assert(dist <= wi + hi);
        }
        cx = cx + dx;
        cy = cy + dy;
        dist = dist + 1;
    }
    None
}

/// The nearest subgoal in each direction from `(x, y)`, in direction order.
fn scan_rays(map: &[Cell], w: i32, h: i32, t2s: &Vec<usize>, x: i32, y: i32) -> (r: Vec<(usize, u32)>)
    requires
        grid_ok(map@, w as int, h as int),
        t2s@.len() == w * h,
        in_grid(x as int, y as int, w as int, h as int),
    ensures
        r@ == ray_hits(map@, w as int, h as int, t2s@, x as int, y as int, 4),
{
    let mut r: Vec<(usize, u32)> = Vec::new();
    let mut k: usize = 0;
    while k < 4
        invariant
            grid_ok(map@, w as int, h as int),
            t2s@.len() == w * h,
            in_grid(x as int, y as int, w as int, h as int),
            k <= 4,
            r@ == ray_hits(map@, w as int, h as int, t2s@, x as int, y as int, k as int),
        decreases 4 - k,
    {
        match scan_ray(map, w, h, t2s, x, y, k) {
            Some(p) => r.push(p),
            None => {},
        }
        k = k + 1;
    }
    r
}

/// What a ray scan from a tile yields: at most four subgoals, each in line
/// with clear tiles between, at its distance.
proof fn lemma_ray_hits(map: Seq<Cell>, w: int, h: int, sgs: Seq<(i32, i32)>, t2s: Seq<usize>, x: int, y: int, k: int)
    requires
        tiles_ok(sgs, t2s, map, w, h),
        in_grid(x, y, w, h),
        0 <= k <= 4,
    ensures
        ray_hits(map, w, h, t2s, x, y, k).len() <= k,
        forall|e: int| 0 <= e < ray_hits(map, w, h, t2s, x, y, k).len() ==> {
            let (t, d) = #[trigger] ray_hits(map, w, h, t2s, x, y, k)[e];
            &&& (t as int) < sgs.len()
            &&& aligned_clear(map, w, h, (x, y), ip(sgs[t as int]))
            &&& d as int == manhattan((x, y), ip(sgs[t as int]))
        },
    decreases k,
{
    if k > 0 {
        lemma_ray_hits(map, w, h, sgs, t2s, x, y, k - 1);
        let kk = k - 1;
        assert(forall|j: int| 1 <= j < 1 ==> #[trigger] open_at(map, w, h, ray_pos(x, y, kk, j).0, ray_pos(x, y, kk, j).1));
        lemma_ray_hit(map, w, h, sgs, t2s, x, y, x + ray_dir(kk).0, y + ray_dir(kk).1, kk, 1);
    }
}

/// Whether `(x, y)` is a convex obstacle corner tile.
fn subgoal_at(map: &[Cell], w: i32, h: i32, x: i32, y: i32) -> (b: bool)
    requires
        grid_ok(map@, w as int, h as int),
        in_grid(x as int, y as int, w as int, h as int),
    ensures
        b == is_subgoal(map@, w as int, h as int, x as int, y as int),
{
    proof {
        assert(w <= w * h && h <= w * h) by (nonlinear_arith) requires 1 <= w, 1 <= h;
    }
    if !walkable_at(map, w, h, x, y) {
        return false;
    }
    let mut d: usize = 0;
    while d < 4
        invariant
            grid_ok(map@, w as int, h as int),
            in_grid(x as int, y as int, w as int, h as int),
            w <= i32::MAX,
            h <= i32::MAX,
            d <= 4,
            open_at(map@, w as int, h as int, x as int, y as int),
            d > 0 ==> !corner(map@, w as int, h as int, x as int, y as int, -1, -1),
            d > 1 ==> !corner(map@, w as int, h as int, x as int, y as int, -1, 1),
            d > 2 ==> !corner(map@, w as int, h as int, x as int, y as int, 1, -1),
            d > 3 ==> !corner(map@, w as int, h as int, x as int, y as int, 1, 1),
        decreases 4 - d,
    {
        let (dx, dy): (i32, i32) = if d == 0 { (-1, -1) } else if d == 1 { (-1, 1) } else if d == 2 { (1, -1) } else { (1, 1) };
        if !walkable_at(map, w, h, x + dx, y + dy) && walkable_at(map, w, h, x + dx, y) && walkable_at(map, w, h, x, y + dy) {
            proof {
                assert(corner(map@, w as int, h as int, x as int, y as int, dx as int, dy as int));
            }
            return true;
        }
        d = d + 1;
    }
    false
}

/// Detect the subgoals (walkable convex obstacle corners, row-major) and
/// link each to its nearest subgoal in every cardinal direction along
/// walkable tiles.
pub fn build_subgoal_graph(map: &[Cell], w: i32, h: i32) -> (g: SubgoalGraph)
    requires
        grid_ok(map@, w as int, h as int),
    ensures
        g.wf(map@, w as int, h as int),
        forall|x: int, y: int| in_grid(x, y, w as int, h as int) ==>
            (#[trigger] g.tile_to_sg@[flat(x, y, w as int)] != usize::MAX <==> is_subgoal(map@, w as int, h as int, x, y)),
        forall|s1: int, s2: int| 0 <= s1 < s2 < g.subgoals@.len() ==>
            flat(ip(#[trigger] g.subgoals@[s1]).0, ip(g.subgoals@[s1]).1, w as int)
                < flat(ip(#[trigger] g.subgoals@[s2]).0, ip(g.subgoals@[s2]).1, w as int),
        forall|s: int| 0 <= s < g.subgoals@.len() ==>
            (#[trigger] g.edges@[s])@ == ray_hits(map@, w as int, h as int, g.tile_to_sg@,
                g.subgoals@[s].0 as int, g.subgoals@[s].1 as int, 4),
{
    let ghost wi = w as int;
    let ghost hi = h as int;
    let n = map.len();
    let mut t2s: Vec<usize> = vec![usize::MAX; n];
    let mut subgoals: Vec<(i32, i32)> = Vec::new();
    let mut y: i32 = 0;
    proof {
        assert forall|xx: int, yy: int| in_grid(xx, yy, wi, hi) && yy >= 0 implies
            #[trigger] t2s@[flat(xx, yy, wi)] == usize::MAX by {
            lemma_flat_in_range(xx, yy, wi, hi);
        }
    }
    while y < h
        invariant
            grid_ok(map@, wi, hi),
            wi == w,
            hi == h,
            n == map@.len(),
            0 <= y <= h,
            t2s@.len() == n,
            subgoals@.len() <= flat(0, y as int, wi),
            forall|s: int| 0 <= s < subgoals@.len() ==>
                open_at(map@, wi, hi, (#[trigger] subgoals@[s]).0 as int, subgoals@[s].1 as int)
                && t2s@[flat(subgoals@[s].0 as int, subgoals@[s].1 as int, wi)] == s
                && flat(subgoals@[s].0 as int, subgoals@[s].1 as int, wi) < flat(0, y as int, wi),
            forall|i: int| 0 <= i < wi * hi && #[trigger] t2s@[i] != usize::MAX ==>
                t2s@[i] < subgoals@.len()
                && flat(subgoals@[t2s@[i] as int].0 as int, subgoals@[t2s@[i] as int].1 as int, wi) == i,
            forall|s1: int, s2: int| 0 <= s1 < s2 < subgoals@.len() ==>
                flat(ip(#[trigger] subgoals@[s1]).0, ip(subgoals@[s1]).1, wi)
                    < flat(ip(#[trigger] subgoals@[s2]).0, ip(subgoals@[s2]).1, wi),
            forall|xx: int, yy: int| in_grid(xx, yy, wi, hi) && yy < y ==>
                (#[trigger] t2s@[flat(xx, yy, wi)] != usize::MAX <==> is_subgoal(map@, wi, hi, xx, yy)),
            forall|xx: int, yy: int| in_grid(xx, yy, wi, hi) && yy >= y ==>
                #[trigger] t2s@[flat(xx, yy, wi)] == usize::MAX,
        decreases h - y,
    {
        let mut x: i32 = 0;
        while x < w
            invariant
                grid_ok(map@, wi, hi),
                wi == w,
                hi == h,
                n == map@.len(),
                0 <= y < h,
                0 <= x <= w,
                t2s@.len() == n,
                subgoals@.len() <= flat(x as int, y as int, wi),
                forall|s: int| 0 <= s < subgoals@.len() ==>
                    open_at(map@, wi, hi, (#[trigger] subgoals@[s]).0 as int, subgoals@[s].1 as int)
                    && t2s@[flat(subgoals@[s].0 as int, subgoals@[s].1 as int, wi)] == s
                    && flat(subgoals@[s].0 as int, subgoals@[s].1 as int, wi) < flat(x as int, y as int, wi),
                forall|i: int| 0 <= i < wi * hi && #[trigger] t2s@[i] != usize::MAX ==>
                    t2s@[i] < subgoals@.len()
                    && flat(subgoals@[t2s@[i] as int].0 as int, subgoals@[t2s@[i] as int].1 as int, wi) == i,
                forall|s1: int, s2: int| 0 <= s1 < s2 < subgoals@.len() ==>
                    flat(ip(#[trigger] subgoals@[s1]).0, ip(subgoals@[s1]).1, wi)
                        < flat(ip(#[trigger] subgoals@[s2]).0, ip(subgoals@[s2]).1, wi),
                forall|xx: int, yy: int| in_grid(xx, yy, wi, hi) && (yy < y || (yy == y && xx < x)) ==>
                    (#[trigger] t2s@[flat(xx, yy, wi)] != usize::MAX <==> is_subgoal(map@, wi, hi, xx, yy)),
                forall|xx: int, yy: int| in_grid(xx, yy, wi, hi) && (yy > y || (yy == y && xx >= x)) ==>
                    #[trigger] t2s@[flat(xx, yy, wi)] == usize::MAX,
            decreases w - x,
        {
            proof {
                lemma_flat_in_range(x as int, y as int, wi, hi);
            }
            let i = idx(x, y, w);
            let ghost t0 = t2s@;
            let ghost s0 = subgoals@;
            let here = subgoal_at(map, w, h, x, y);
            proof {
                assert forall|xx: int, yy: int| in_grid(xx, yy, wi, hi) implies
                    (flat(xx, yy, wi) == i as int <==> (xx == x && yy == y)) by {
                    lemma_flat_in_range(xx, yy, wi, hi);
                    if flat(xx, yy, wi) == i as int {
                        crate::cell::lemma_flat_injective(xx, yy, x as int, y as int, wi, hi);
                    }
                }
            }
            if here {
                t2s.set(i, subgoals.len());
                subgoals.push((x, y));
                proof {
                    assert forall|ii: int| 0 <= ii < wi * hi && #[trigger] t2s@[ii] != usize::MAX implies
                        t2s@[ii] < subgoals@.len()
                        && flat(subgoals@[t2s@[ii] as int].0 as int, subgoals@[t2s@[ii] as int].1 as int, wi) == ii by {
                        if ii != i as int {
                            assert(t2s@[ii] == t0[ii]);
                            assert(subgoals@[t0[ii] as int] == s0[t0[ii] as int]);
                        }
                    }
                    assert forall|s: int| 0 <= s < subgoals@.len() implies
                        open_at(map@, wi, hi, (#[trigger] subgoals@[s]).0 as int, subgoals@[s].1 as int)
                        && t2s@[flat(subgoals@[s].0 as int, subgoals@[s].1 as int, wi)] == s
                        && flat(subgoals@[s].0 as int, subgoals@[s].1 as int, wi) < flat(x + 1, y as int, wi) by {
                        if s < s0.len() {
                            assert(subgoals@[s] == s0[s]);
                        }
                    }
                }
            }
            proof {
                assert forall|xx: int, yy: int| in_grid(xx, yy, wi, hi) && (yy < y || (yy == y && xx < x + 1)) implies
                    (#[trigger] t2s@[flat(xx, yy, wi)] != usize::MAX <==> is_subgoal(map@, wi, hi, xx, yy)) by {
                    lemma_flat_in_range(xx, yy, wi, hi);
                    if !(xx == x && yy == y) {
                        assert(t2s@[flat(xx, yy, wi)] == t0[flat(xx, yy, wi)]);
                    }
                }
                assert forall|xx: int, yy: int| in_grid(xx, yy, wi, hi) && (yy > y || (yy == y && xx >= x + 1)) implies
                    #[trigger] t2s@[flat(xx, yy, wi)] == usize::MAX by {
                    lemma_flat_in_range(xx, yy, wi, hi);
                    assert(t2s@[flat(xx, yy, wi)] == t0[flat(xx, yy, wi)]);
                }
            }
            x = x + 1;
        }
        proof {
            assert(flat(wi, y as int, wi) == flat(0, y as int + 1, wi)) by (nonlinear_arith);
        }
        y = y + 1;
    }
    proof {
        assert forall|xx: int, yy: int| in_grid(xx, yy, wi, hi) implies
            (#[trigger] t2s@[flat(xx, yy, wi)] != usize::MAX <==> is_subgoal(map@, wi, hi, xx, yy)) by {}
        assert(tiles_ok(subgoals@, t2s@, map@, wi, hi));
        assert(flat(0, hi, wi) == wi * hi) by (nonlinear_arith);
    }
    // Edges: nearest subgoal in each cardinal direction.
    let sg_count = subgoals.len();
    let mut edges: Vec<Vec<(usize, u32)>> = Vec::new();
    let mut si: usize = 0;
    while si < sg_count
        invariant
            tiles_ok(subgoals@, t2s@, map@, wi, hi),
            subgoals@.len() <= wi * hi,
            grid_ok(map@, wi, hi),
            wi == w,
            hi == h,
            sg_count == subgoals@.len(),
            si <= sg_count,
            edges@.len() == si,
            forall|s: int| 0 <= s < si ==> (#[trigger] edges@[s])@ == ray_hits(map@, wi, hi, t2s@,
                subgoals@[s].0 as int, subgoals@[s].1 as int, 4),
        decreases sg_count - si,
    {
        let (sx, sy) = subgoals[si];
        let hits = scan_rays(map, w, h, &t2s, sx, sy);
        edges.push(hits);
        si = si + 1;
    }
    let g = SubgoalGraph { subgoals, edges, tile_to_sg: t2s };
    proof {
        assert forall|s: int| 0 <= s < g.edges@.len() implies (#[trigger] g.edges@[s])@.len() <= 4 by {
            lemma_ray_hits(map@, wi, hi, g.subgoals@, g.tile_to_sg@, g.subgoals@[s].0 as int, g.subgoals@[s].1 as int, 4);
        }
        assert forall|s: int, e: int| 0 <= s < g.edges@.len() && 0 <= e < g.edges@[s]@.len() implies {
            let (t, d) = #[trigger] g.edges@[s]@[e];
            &&& (t as int) < g.subgoals@.len()
            &&& aligned_clear(map@, wi, hi, ip(g.subgoals@[s]), ip(g.subgoals@[t as int]))
            &&& d as int == manhattan(ip(g.subgoals@[s]), ip(g.subgoals@[t as int]))
        } by {
            lemma_ray_hits(map@, wi, hi, g.subgoals@, g.tile_to_sg@, g.subgoals@[s].0 as int, g.subgoals@[s].1 as int, 4);
            assert(g.edges@[s]@[e] == ray_hits(map@, wi, hi, g.tile_to_sg@, g.subgoals@[s].0 as int, g.subgoals@[s].1 as int, 4)[e]);
        }
    }
    g
}

impl SubgoalGraph {
    /// Subgoals linked to tile `p` by a straight walk, with their distances:
    /// the tile itself at cost 0 when it is a subgoal, else the nearest
    /// subgoal in each cardinal direction.
    pub open spec fn conns(&self, map: Seq<Cell>, w: int, h: int, p: (i32, i32)) -> Seq<(usize, u32)> {
        let t = self.tile_to_sg@[flat(p.0 as int, p.1 as int, w)];
        if t != usize::MAX {
            seq![(t, 0u32)]
        } else {
            ray_hits(map, w, h, self.tile_to_sg@, p.0 as int, p.1 as int, 4)
        }
    }

    /// Search node of the start tile (numbered after the subgoals).
    pub open spec fn start_node(&self) -> int {
        self.subgoals@.len() as int
    }

    /// Search node of the goal tile.
    pub open spec fn goal_node(&self) -> int {
        self.subgoals@.len() as int + 1
    }

    /// Tile position of search node `u`.
    pub open spec fn node_pos(&self, from: (i32, i32), to: (i32, i32), u: int) -> (int, int) {
        if u == self.start_node() {
            ip(from)
        } else if u == self.goal_node() {
            ip(to)
        } else {
            ip(self.subgoals@[u])
        }
    }

    /// Out-edges `(node, cost)` of search node `u`: the start links to the
    /// subgoals its tile sees (and to the goal when they see each other); a
    /// subgoal links to its graph neighbours, then to the goal when the
    /// goal tile sees it.
    #[verifier::opaque]
    pub open spec fn search_nbrs(&self, map: Seq<Cell>, w: int, h: int, from: (i32, i32), to: (i32, i32), u: int)
        -> Seq<(usize, u32)>
    {
        let sg = self.subgoals@.len() as int;
        if u == sg {
            let sc = self.conns(map, w, h, from);
            if los(map, w, h, ip(from), ip(to)) {
                sc.push(((sg + 1) as usize, manhattan(ip(from), ip(to)) as u32))
            } else {
                sc
            }
        } else if 0 <= u < sg {
            self.edges@[u]@ + goal_links(self.conns(map, w, h, to), u, (sg + 1) as usize)
        } else {
            Seq::empty()
        }
    }

    /// Search node `u` has an out-edge to `v`.
    pub open spec fn search_edge(&self, map: Seq<Cell>, w: int, h: int, from: (i32, i32), to: (i32, i32), u: int, v: int) -> bool {
        exists|e: int| 0 <= e < self.search_nbrs(map, w, h, from, to, u).len()
            && (#[trigger] self.search_nbrs(map, w, h, from, to, u)[e]).0 as int == v
    }

    /// `p` is a non-empty walk along search edges.
    pub open spec fn search_walk(&self, map: Seq<Cell>, w: int, h: int, from: (i32, i32), to: (i32, i32), p: Seq<int>) -> bool {
        &&& p.len() >= 1
        &&& forall|i: int, j: int| 0 <= i && j == i + 1 && j < p.len() ==>
            self.search_edge(map, w, h, from, to, #[trigger] p[i], #[trigger] p[j])
    }

    /// Some walk along search edges leads from the start node to the goal node.
    pub open spec fn graph_reaches(&self, map: Seq<Cell>, w: int, h: int, from: (i32, i32), to: (i32, i32)) -> bool {
        exists|p: Seq<int>| #[trigger] self.search_walk(map, w, h, from, to, p)
            && p[0] == self.start_node() && p.last() == self.goal_node()
    }

    /// What `conns` holds: at most four subgoals, each in line with clear
    /// tiles between, at its distance.
    pub proof fn lemma_conns(&self, map: Seq<Cell>, w: int, h: int, p: (i32, i32))
        requires
            self.wf(map, w, h),
            in_grid(p.0 as int, p.1 as int, w, h),
        ensures
            self.conns(map, w, h, p).len() <= 4,
            forall|e: int| 0 <= e < self.conns(map, w, h, p).len() ==> {
                let (t, d) = #[trigger] self.conns(map, w, h, p)[e];
                &&& (t as int) < self.subgoals@.len()
                &&& aligned_clear(map, w, h, ip(p), ip(self.subgoals@[t as int]))
                &&& d as int == manhattan(ip(p), ip(self.subgoals@[t as int]))
            },
    {
        lemma_flat_in_range(p.0 as int, p.1 as int, w, h);
        let t = self.tile_to_sg@[flat(p.0 as int, p.1 as int, w)];
        if t != usize::MAX {
            let q = ip(self.subgoals@[t as int]);
            lemma_flat_in_range(q.0, q.1, w, h);
            crate::cell::lemma_flat_injective(q.0, q.1, p.0 as int, p.1 as int, w, h);
        } else {
            lemma_ray_hits(map, w, h, self.subgoals@, self.tile_to_sg@, p.0 as int, p.1 as int, 4);
        }
    }

    /// Subgoals reachable from `(x, y)` by a straight walk: the tile itself
    /// at cost 0 when it is a subgoal, else the nearest subgoal in each
    /// cardinal direction with its distance.
    pub fn connect_tile(&self, x: i32, y: i32, map: &[Cell], w: i32, h: i32) -> (r: Vec<(usize, u32)>)
        requires
            self.wf(map@, w as int, h as int),
            in_grid(x as int, y as int, w as int, h as int),
        ensures
            r@ == self.conns(map@, w as int, h as int, (x, y)),
            r@.len() <= 4,
            forall|e: int| 0 <= e < r@.len() ==> {
                let (t, d) = #[trigger] r@[e];
                &&& (t as int) < self.subgoals@.len()
                &&& aligned_clear(map@, w as int, h as int, ip((x, y)), ip(self.subgoals@[t as int]))
                &&& d as int == manhattan(ip((x, y)), ip(self.subgoals@[t as int]))
            },
    {
        proof {
            lemma_flat_in_range(x as int, y as int, w as int, h as int);
            self.lemma_conns(map@, w as int, h as int, (x, y));
        }
        let ti = idx(x, y, w);
        if self.tile_to_sg[ti] != usize::MAX {
            let mut r: Vec<(usize, u32)> = Vec::new();
            r.push((self.tile_to_sg[ti], 0));
            proof {
                assert(r@ =~= seq![(self.tile_to_sg@[ti as int], 0u32)]);
            }
            return r;
        }
        scan_rays(map, w, h, &self.tile_to_sg, x, y)
    }
}

/// The goal links `(goal, cost)` that the goal tile's connections give to
/// subgoal `u`, in connection order.
pub open spec fn goal_links(gc: Seq<(usize, u32)>, u: int, goal: usize) -> Seq<(usize, u32)>
    decreases gc.len(),
{
    if gc.len() == 0 {
        Seq::empty()
    } else {
        let rest = goal_links(gc.drop_last(), u, goal);
        if gc.last().0 as int == u {
            rest.push((goal, gc.last().1))
        } else {
            rest
        }
    }
}

/// Each goal link comes from a connection of the goal tile to `u`.
proof fn lemma_goal_links(gc: Seq<(usize, u32)>, u: int, goal: usize)
    ensures
        goal_links(gc, u, goal).len() <= gc.len(),
        forall|e: int| 0 <= e < goal_links(gc, u, goal).len() ==>
            exists|j: int| 0 <= j < gc.len() && (#[trigger] goal_links(gc, u, goal)[e]) == (goal, gc[j].1) && gc[j].0 as int == u,
    decreases gc.len(),
{
    if gc.len() > 0 {
        lemma_goal_links(gc.drop_last(), u, goal);
        let rest = goal_links(gc.drop_last(), u, goal);
        assert forall|e: int| 0 <= e < goal_links(gc, u, goal).len() implies
            exists|j: int| 0 <= j < gc.len() && (#[trigger] goal_links(gc, u, goal)[e]) == (goal, gc[j].1) && gc[j].0 as int == u by {
            if e < rest.len() {
                assert(goal_links(gc, u, goal)[e] == rest[e]);
                let j = choose|j: int| 0 <= j < gc.drop_last().len() && (#[trigger] rest[e]) == (goal, gc.drop_last()[j].1) && gc.drop_last()[j].0 as int == u;
                assert(gc.drop_last()[j] == gc[j]);
            } else {
                assert(goal_links(gc, u, goal)[e] == (goal, gc[gc.len() - 1].1));
            }
        }
    }
}

/// `aligned_clear` does not depend on the order of its ends.
proof fn lemma_aligned_sym(map: Seq<Cell>, w: int, h: int, a: (int, int), b: (int, int))
    requires
        aligned_clear(map, w, h, a, b),
    ensures
        aligned_clear(map, w, h, b, a),
{
    if a.0 == b.0 && forall|y: int| vstd::math::min(a.1, b.1) < y < vstd::math::max(a.1, b.1)
        ==> #[trigger] open_at(map, w, h, a.0, y) {
        assert forall|y: int| vstd::math::min(b.1, a.1) < y < vstd::math::max(b.1, a.1)
            implies #[trigger] open_at(map, w, h, b.0, y) by {}
    } else {
        assert forall|x: int| vstd::math::min(b.0, a.0) < x < vstd::math::max(b.0, a.0)
            implies #[trigger] open_at(map, w, h, x, b.1) by {}
    }
}

/// Two grid positions are at most `w + h` apart.
proof fn lemma_manhattan_bound(a: (int, int), b: (int, int), w: int, h: int)
    requires
        in_grid(a.0, a.1, w, h),
        in_grid(b.0, b.1, w, h),
    ensures
        0 <= manhattan(a, b) <= w + h,
{
}

/// `los` implies `aligned_clear`.
proof fn lemma_los_aligned(map: Seq<Cell>, w: int, h: int, a: (int, int), b: (int, int))
    requires
        los(map, w, h, a, b),
    ensures
        aligned_clear(map, w, h, a, b),
{
    if a.0 == b.0 {
        assert forall|y: int| vstd::math::min(a.1, b.1) < y < vstd::math::max(a.1, b.1)
            implies #[trigger] open_at(map, w, h, a.0, y) by {}
    } else {
        assert forall|x: int| vstd::math::min(a.0, b.0) < x < vstd::math::max(a.0, b.0)
            implies #[trigger] open_at(map, w, h, x, a.1) by {}
    }
}

impl SubgoalGraph {
    /// Every out-edge of a start or subgoal node leads to a subgoal or the
    /// goal, costs at most `w + h`, joins positions in line with clear tiles
    /// between, and a free edge between subgoals is a loop.
    proof fn lemma_nbrs(&self, map: Seq<Cell>, w: int, h: int, from: (i32, i32), to: (i32, i32), u: int)
        requires
            self.wf(map, w, h),
            in_grid(from.0 as int, from.1 as int, w, h),
            in_grid(to.0 as int, to.1 as int, w, h),
            0 <= u <= self.subgoals@.len(),
        ensures
            self.search_nbrs(map, w, h, from, to, u).len() <= 8,
            forall|e: int| 0 <= e < self.search_nbrs(map, w, h, from, to, u).len() ==> {
                let (v, c) = #[trigger] self.search_nbrs(map, w, h, from, to, u)[e];
                &&& 0 <= v < self.subgoals@.len() + 2
                &&& v as int != self.start_node()
                &&& c as int <= w + h
                &&& aligned_clear(map, w, h, self.node_pos(from, to, u), self.node_pos(from, to, v as int))
                &&& (u < self.subgoals@.len() && (v as int) < self.subgoals@.len() && c == 0 ==> u == v as int)
                &&& c as int == manhattan(self.node_pos(from, to, u), self.node_pos(from, to, v as int))
            },
    {
        reveal(SubgoalGraph::search_nbrs);
        let sg = self.subgoals@.len() as int;
        let nb = self.search_nbrs(map, w, h, from, to, u);
        if u == sg {
            self.lemma_conns(map, w, h, from);
            let sc = self.conns(map, w, h, from);
            assert forall|e: int| 0 <= e < nb.len() implies {
                let (v, c) = #[trigger] nb[e];
                &&& 0 <= v < sg + 2
                &&& v as int != sg
                &&& c as int <= w + h
                &&& aligned_clear(map, w, h, self.node_pos(from, to, u), self.node_pos(from, to, v as int))
                &&& (u < sg && (v as int) < sg && c == 0 ==> u == v as int)
                &&& c as int == manhattan(self.node_pos(from, to, u), self.node_pos(from, to, v as int))
            } by {
                if e < sc.len() {
                    assert(nb[e] == sc[e]);
                    let t = sc[e].0 as int;
                    let q = self.subgoals@[t];
                    assert(open_at(map, w, h, q.0 as int, q.1 as int));
                    lemma_manhattan_bound(ip(from), ip(q), w, h);
                } else {
                    lemma_manhattan_bound(ip(from), ip(to), w, h);
                    lemma_los_aligned(map, w, h, ip(from), ip(to));
                }
            }
        } else {
            let ed = self.edges@[u]@;
            let gc = self.conns(map, w, h, to);
            let gl = goal_links(gc, u, (sg + 1) as usize);
            self.lemma_conns(map, w, h, to);
            lemma_goal_links(gc, u, (sg + 1) as usize);
            assert(ed.len() <= 4);
            assert forall|e: int| 0 <= e < nb.len() implies {
                let (v, c) = #[trigger] nb[e];
                &&& 0 <= v < sg + 2
                &&& v as int != sg
                &&& c as int <= w + h
                &&& aligned_clear(map, w, h, self.node_pos(from, to, u), self.node_pos(from, to, v as int))
                &&& (u < sg && (v as int) < sg && c == 0 ==> u == v as int)
                &&& c as int == manhattan(self.node_pos(from, to, u), self.node_pos(from, to, v as int))
            } by {
                let pu = self.subgoals@[u];
                assert(open_at(map, w, h, pu.0 as int, pu.1 as int));
                if e < ed.len() {
                    assert(nb[e] == ed[e]);
                    let (t, d) = ed[e];
                    let pt = self.subgoals@[t as int];
                    assert(open_at(map, w, h, pt.0 as int, pt.1 as int));
                    lemma_manhattan_bound(ip(pu), ip(pt), w, h);
                    if d == 0 {
                        lemma_flat_in_range(pu.0 as int, pu.1 as int, w, h);
                        assert(self.tile_to_sg@[flat(pu.0 as int, pu.1 as int, w)] == u);
                        assert(self.tile_to_sg@[flat(pt.0 as int, pt.1 as int, w)] == t as int);
                    }
                } else {
                    assert(nb[e] == gl[e - ed.len()]);
                    let j = choose|j: int| 0 <= j < gc.len() && (#[trigger] gl[e - ed.len()]) == ((sg + 1) as usize, gc[j].1) && gc[j].0 as int == u;
                    let (t, d) = gc[j];
                    assert(aligned_clear(map, w, h, ip(to), ip(pu)));
                    lemma_aligned_sym(map, w, h, ip(to), ip(pu));
                    lemma_manhattan_bound(ip(to), ip(pu), w, h);
                }
            }
        }
    }
}

/// Manhattan distance of two tiles.
fn dist(a: (i32, i32), b: (i32, i32)) -> (r: u64)
    ensures
        r as int == manhattan(ip(a), ip(b)),
{
    let dx: i64 = if a.0 >= b.0 { a.0 as i64 - b.0 as i64 } else { b.0 as i64 - a.0 as i64 };
    let dy: i64 = if a.1 >= b.1 { a.1 as i64 - b.1 as i64 } else { b.1 as i64 - a.1 as i64 };
    (dx + dy) as u64
}

/// `(f, node)` orders before `(f2, node2)`: smaller estimate first, ties by
/// smaller node.
pub open spec fn entry_le(a: (u64, usize), b: (u64, usize)) -> bool {
    a.0 < b.0 || (a.0 == b.0 && a.1 <= b.1)
}

/// Index of the least open entry in `(estimate, node)` order.
fn min_entry(open: &Vec<(u64, usize)>) -> (k: usize)
    requires
        open.len() > 0,
    ensures
        k < open.len(),
        forall|j: int| 0 <= j < open.len() ==> entry_le(open@[k as int], #[trigger] open@[j]),
{
    let mut best: usize = 0;
    let mut i: usize = 1;
    while i < open.len()
        invariant
            0 < open.len(),
            best < open.len(),
            1 <= i <= open.len(),
            forall|j: int| 0 <= j < i ==> entry_le(open@[best as int], #[trigger] open@[j]),
        decreases open.len() - i,
    {
        let (f, v) = open[i];
        let (bf, bv) = open[best];
        if f < bf || (f == bf && v < bv) {
            best = i;
        }
        i = i + 1;
    }
    best
}

/// A copy of a link list.
fn copy_links(v: &Vec<(usize, u32)>) -> (r: Vec<(usize, u32)>)
    ensures
        r@ == v@,
{
    let mut r: Vec<(usize, u32)> = Vec::new();
    let mut j: usize = 0;
    while j < v.len()
        invariant
            j <= v.len(),
            r@ == v@.subrange(0, j as int),
        decreases v.len() - j,
    {
        r.push(v[j]);
        proof {
            assert(v@.subrange(0, j + 1) =~= v@.subrange(0, j as int).push(v@[j as int]));
        }
        j = j + 1;
    }
    proof {
        assert(v@.subrange(0, v@.len() as int) =~= v@);
    }
    r
}

impl SubgoalGraph {
    /// The out-edges of search node `u` (see `search_nbrs`).
    fn search_neighbors(&self, u: usize, start_conns: &Vec<(usize, u32)>, goal_conns: &Vec<(usize, u32)>,
        from: (i32, i32), to: (i32, i32), map: &[Cell], w: i32, h: i32) -> (n: Vec<(usize, u32)>)
        requires
            self.wf(map@, w as int, h as int),
            start_conns@ == self.conns(map@, w as int, h as int, from),
            goal_conns@ == self.conns(map@, w as int, h as int, to),
        ensures
            n@ == self.search_nbrs(map@, w as int, h as int, from, to, u as int),
    {
        reveal(SubgoalGraph::search_nbrs);
        let sg_count = self.subgoals.len();
        let goal_vi = sg_count + 1;
        if u == sg_count {
            let mut n = copy_links(start_conns);
            if cardinal_los(from, to, map, w, h) {
                let c = dist(from, to);
                proof {
                    lemma_los_aligned(map@, w as int, h as int, ip(from), ip(to));
                    assert(open_at(map@, w as int, h as int, from.0 as int, from.1 as int));
                    assert(open_at(map@, w as int, h as int, to.0 as int, to.1 as int));
                    lemma_manhattan_bound(ip(from), ip(to), w as int, h as int);
                }
                n.push((goal_vi, c as u32));
            }
            n
        } else if u < sg_count {
            let mut n = copy_links(&self.edges[u]);
            let mut j: usize = 0;
            while j < goal_conns.len()
                invariant
                    j <= goal_conns.len(),
                    u < sg_count,
                    sg_count == self.subgoals@.len(),
                    goal_vi == sg_count + 1,
                    n@ == self.edges@[u as int]@ + goal_links(goal_conns@.subrange(0, j as int), u as int, goal_vi),
                decreases goal_conns.len() - j,
            {
                let (gi, gc) = goal_conns[j];
                proof {
                    assert(goal_conns@.subrange(0, j + 1).drop_last() =~= goal_conns@.subrange(0, j as int));
                }
                if gi == u {
                    n.push((goal_vi, gc));
                    proof {
                        assert(n@ =~= self.edges@[u as int]@ + goal_links(goal_conns@.subrange(0, j + 1), u as int, goal_vi));
                    }
                }
                j = j + 1;
            }
            proof {
                assert(goal_conns@.subrange(0, goal_conns@.len() as int) =~= goal_conns@);
            }
            n
        } else {
            Vec::new()
        }
    }
}

/// `p` runs from `from` to `to`, each step along a row or column over
/// walkable tiles.
pub open spec fn path_ok(map: Seq<Cell>, w: int, h: int, p: Seq<(i32, i32)>, from: (i32, i32), to: (i32, i32)) -> bool {
    &&& p.len() >= 1
    &&& p[0] == from
    &&& p.last() == to
    &&& forall|i: int, j: int| 0 <= i && j == i + 1 && j < p.len() ==>
        aligned_clear(map, w, h, ip(#[trigger] p[i]), ip(#[trigger] p[j]))
}

/// Path point `q` is on the grid and is an endpoint or a walkable tile.
pub open spec fn pt_ok(map: Seq<Cell>, w: int, h: int, q: (i32, i32), from: (i32, i32), to: (i32, i32)) -> bool {
    &&& in_grid(q.0 as int, q.1 as int, w, h)
    &&& (q == from || q == to || open_at(map, w, h, q.0 as int, q.1 as int))
}

impl SubgoalGraph {
    /// Every reached node but the start has a closed parent, not the goal,
    /// with an edge to it; between subgoals the parent costs strictly less.
    #[verifier::opaque]
    spec fn parents_ok(&self, map: Seq<Cell>, w: int, h: int, from: (i32, i32), to: (i32, i32),
        g: Seq<u64>, came: Seq<usize>, closed: Seq<bool>) -> bool
    {
        let sg = self.subgoals@.len() as int;
        forall|v: int| 0 <= v < sg + 2 && v != sg && #[trigger] g[v] != u64::MAX ==> {
            let p = came[v] as int;
            &&& 0 <= p < sg + 2
            &&& p != sg + 1
            &&& closed[p]
            &&& exists|e: int| 0 <= e < self.search_nbrs(map, w, h, from, to, p).len()
                && (#[trigger] self.search_nbrs(map, w, h, from, to, p)[e]).0 == v
            &&& (p < sg && v < sg ==> g[p] < g[v])
        }
    }

    /// Closed nodes other than `skip` have reached all their out-edges.
    #[verifier::opaque]
    spec fn relaxed_except(&self, map: Seq<Cell>, w: int, h: int, from: (i32, i32), to: (i32, i32),
        g: Seq<u64>, closed: Seq<bool>, skip: int) -> bool
    {
        forall|u: int, e: int| 0 <= u <= self.subgoals@.len() && #[trigger] closed[u] && u != skip
            && 0 <= e < self.search_nbrs(map, w, h, from, to, u).len()
            ==> g[(#[trigger] self.search_nbrs(map, w, h, from, to, u)[e]).0 as int] != u64::MAX
    }

    /// Search state: costs bounded by the closed count times `w + h`, open
    /// entries point at reached nodes, closed nodes are reached and never
    /// the goal, reached open nodes keep an entry, and parents are sound.
    #[verifier::opaque]
    spec fn search_core(&self, map: Seq<Cell>, w: int, h: int, from: (i32, i32), to: (i32, i32),
        g: Seq<u64>, came: Seq<usize>, closed: Seq<bool>, open: Seq<(u64, usize)>, nclosed: int) -> bool
    {
        let sg = self.subgoals@.len() as int;
        &&& g.len() == sg + 2
        &&& came.len() == sg + 2
        &&& closed.len() == sg + 2
        &&& g[sg] == 0
        &&& 0 <= nclosed <= sg + 2
        &&& forall|v: int| 0 <= v < sg + 2 && #[trigger] g[v] != u64::MAX ==> g[v] <= nclosed * (w + h)
        &&& forall|j: int| 0 <= j < open.len() ==> (#[trigger] open[j]).1 < sg + 2 && g[open[j].1 as int] != u64::MAX
        &&& forall|v: int| 0 <= v < sg + 2 && #[trigger] closed[v] ==> g[v] != u64::MAX && v != sg + 1
        &&& forall|v: int| 0 <= v < sg + 2 && #[trigger] g[v] != u64::MAX && !closed[v] ==>
            exists|j: int| 0 <= j < open.len() && open[j].1 == v
        &&& self.parents_ok(map, w, h, from, to, g, came, closed)
    }

    /// With every reached node closed and relaxed, a walk from a reached
    /// node only visits reached nodes.
    proof fn lemma_walk_reached(&self, map: Seq<Cell>, w: int, h: int, from: (i32, i32), to: (i32, i32),
        g: Seq<u64>, closed: Seq<bool>, p: Seq<int>, i: int)
        requires
            self.wf(map, w, h),
            in_grid(from.0 as int, from.1 as int, w, h),
            in_grid(to.0 as int, to.1 as int, w, h),
            g.len() == self.subgoals@.len() + 2,
            closed.len() == self.subgoals@.len() + 2,
            forall|v: int| 0 <= v < self.subgoals@.len() + 2 && #[trigger] g[v] != u64::MAX ==> closed[v],
            forall|v: int| 0 <= v < self.subgoals@.len() + 2 && #[trigger] closed[v] ==> v != self.goal_node(),
            self.relaxed_except(map, w, h, from, to, g, closed, -1),
            self.search_walk(map, w, h, from, to, p),
            0 <= p[0] < self.subgoals@.len() + 2,
            g[p[0]] != u64::MAX,
            0 <= i < p.len(),
        ensures
            0 <= p[i] < self.subgoals@.len() + 2,
            g[p[i]] != u64::MAX,
        decreases i,
    {
        reveal(SubgoalGraph::relaxed_except);
        if i > 0 {
            self.lemma_walk_reached(map, w, h, from, to, g, closed, p, i - 1);
            let u = p[i - 1];
            assert(self.search_edge(map, w, h, from, to, p[i - 1], p[i]));
            let e = choose|e: int| 0 <= e < self.search_nbrs(map, w, h, from, to, u).len()
                && (#[trigger] self.search_nbrs(map, w, h, from, to, u)[e]).0 as int == p[i];
            assert(closed[u]);
            self.lemma_nbrs(map, w, h, from, to, u);
            assert(g[self.search_nbrs(map, w, h, from, to, u)[e].0 as int] != u64::MAX);
        }
    }

    /// Follow parent links back from the reached goal and return the tile
    /// path from `from` to `to`.
    #[verifier::rlimit(80)]
    fn trace_back(&self, from: (i32, i32), to: (i32, i32), map: &[Cell], w: i32, h: i32,
        g_cost: &Vec<u64>, came_from: &Vec<usize>, closed: &Vec<bool>) -> (r: Option<Vec<(i32, i32)>>)
        requires
            self.wf(map@, w as int, h as int),
            in_grid(from.0 as int, from.1 as int, w as int, h as int),
            in_grid(to.0 as int, to.1 as int, w as int, h as int),
            g_cost@.len() == self.subgoals@.len() + 2,
            came_from@.len() == self.subgoals@.len() + 2,
            closed@.len() == self.subgoals@.len() + 2,
            g_cost@[self.goal_node()] != u64::MAX,
            forall|v: int| 0 <= v < self.subgoals@.len() + 2 && #[trigger] closed@[v] ==> g_cost@[v] != u64::MAX,
            self.parents_ok(map@, w as int, h as int, from, to, g_cost@, came_from@, closed@),
            forall|v: int| 0 <= v < self.subgoals@.len() + 2 && v != self.start_node() && #[trigger] g_cost@[v] != u64::MAX
                ==> g_cost@[v] >= g_cost@[came_from@[v] as int]
                    + manhattan(self.node_pos(from, to, came_from@[v] as int), self.node_pos(from, to, v)),
        ensures
            r matches Some(p) && path_ok(map@, w as int, h as int, p@, from, to)
                && path_cost(p@) <= g_cost@[self.goal_node()]
                && forall|k: int| 0 <= k < p@.len() ==> pt_ok(map@, w as int, h as int, #[trigger] p@[k], from, to),
            self.graph_reaches(map@, w as int, h as int, from, to),
    {
        reveal(SubgoalGraph::parents_ok);
        let ghost wi = w as int;
        let ghost hi = h as int;
        let sg_count = self.subgoals.len();
        let start_vi = sg_count;
        let goal_vi = sg_count + 1;
        let mut back: Vec<(i32, i32)> = Vec::new();
        let mut ci: usize = goal_vi;
        let ghost mut nodes: Seq<int> = seq![goal_vi as int];
        loop
            invariant
                self.wf(map@, wi, hi),
                wi == w,
                hi == h,
                in_grid(from.0 as int, from.1 as int, wi, hi),
                in_grid(to.0 as int, to.1 as int, wi, hi),
                sg_count == self.subgoals@.len(),
                start_vi == sg_count,
                goal_vi == sg_count + 1,
                g_cost@.len() == sg_count + 2,
                came_from@.len() == sg_count + 2,
                closed@.len() == sg_count + 2,
                forall|v: int| 0 <= v < sg_count + 2 && #[trigger] closed@[v] ==> g_cost@[v] != u64::MAX,
                self.parents_ok(map@, wi, hi, from, to, g_cost@, came_from@, closed@),
                ci < sg_count + 2,
                g_cost@[ci as int] != u64::MAX,
                self.search_walk(map@, wi, hi, from, to, nodes),
                nodes[0] == ci as int,
                nodes.last() == self.goal_node(),
                back@.len() == 0 <==> ci == goal_vi,
                back@.len() > 0 ==> back@[0] == to,
                back@.len() > 0 ==> aligned_clear(map@, wi, hi, self.node_pos(from, to, ci as int), ip(back@.last())),
                forall|i: int, j: int| 0 <= i && j == i + 1 && j < back@.len() ==>
                    aligned_clear(map@, wi, hi, ip(#[trigger] back@[j]), ip(#[trigger] back@[i])),
                forall|v: int| 0 <= v < sg_count + 2 && v != sg_count && #[trigger] g_cost@[v] != u64::MAX
                    ==> g_cost@[v] >= g_cost@[came_from@[v] as int]
                        + manhattan(self.node_pos(from, to, came_from@[v] as int), self.node_pos(from, to, v)),
                back@.len() > 0 ==> path_cost(back@) + manhattan(ip(back@.last()), self.node_pos(from, to, ci as int))
                    + g_cost@[ci as int] <= g_cost@[goal_vi as int],
                forall|t: int| 0 <= t < back@.len() ==> pt_ok(map@, wi, hi, #[trigger] back@[t], from, to),
            ensures
                forall|t: int| 0 <= t < back@.len() ==> pt_ok(map@, wi, hi, #[trigger] back@[t], from, to),
                back@.len() > 0,
                back@[0] == to,
                back@.last() == from,
                forall|i: int, j: int| 0 <= i && j == i + 1 && j < back@.len() ==>
                    aligned_clear(map@, wi, hi, ip(#[trigger] back@[j]), ip(#[trigger] back@[i])),
                self.search_walk(map@, wi, hi, from, to, nodes),
                nodes[0] == self.start_node(),
                nodes.last() == self.goal_node(),
                path_cost(back@) <= g_cost@[goal_vi as int],
            decreases (if ci == goal_vi { u64::MAX as int + 1 } else if ci == start_vi { 0 } else { g_cost@[ci as int] + 1 }),
        {
            let pos = if ci == start_vi { from } else if ci == goal_vi { to } else { self.subgoals[ci] };
            let ghost pre_back = back@;
            back.push(pos);
            proof {
                if ci != start_vi && ci != goal_vi {
                    assert(open_at(map@, wi, hi, self.subgoals@[ci as int].0 as int, self.subgoals@[ci as int].1 as int));
                }
                assert(pt_ok(map@, wi, hi, pos, from, to));
                assert forall|t: int| 0 <= t < back@.len() implies pt_ok(map@, wi, hi, #[trigger] back@[t], from, to) by {
                    if t < pre_back.len() {
                        assert(back@[t] == pre_back[t]);
                    }
                }
                assert(ip(pos) == self.node_pos(from, to, ci as int));
                assert(back@.drop_last() =~= pre_back);
                if pre_back.len() > 0 {
                    assert(path_cost(back@) == path_cost(pre_back) + manhattan(ip(pre_back.last()), ip(pos)));
                } else {
                    assert(path_cost(back@) == 0);
                }
                assert(path_cost(back@) + g_cost@[ci as int] <= g_cost@[goal_vi as int]);
                assert forall|i: int, j: int| 0 <= i && j == i + 1 && j < back@.len() implies
                    aligned_clear(map@, wi, hi, ip(#[trigger] back@[j]), ip(#[trigger] back@[i])) by {
                    if j < pre_back.len() {
                        assert(back@[j] == pre_back[j] && back@[i] == pre_back[i]);
                    } else {
                        assert(back@[i] == pre_back.last());
                    }
                }
            }
            if ci == start_vi {
                break;
            }
            let ghost child = ci as int;
            proof {
                reveal(SubgoalGraph::parents_ok);
            }
            ci = came_from[ci];
            proof {
                let p = ci as int;
                assert(g_cost@[child] != u64::MAX);
                assert(back@.last() == pos);
                assert(manhattan(ip(pos), self.node_pos(from, to, p)) == manhattan(self.node_pos(from, to, p), self.node_pos(from, to, child)));
                let e = choose|e: int| 0 <= e < self.search_nbrs(map@, wi, hi, from, to, p).len()
                    && (#[trigger] self.search_nbrs(map@, wi, hi, from, to, p)[e]).0 == child;
                self.lemma_nbrs(map@, wi, hi, from, to, p);
                assert(aligned_clear(map@, wi, hi, self.node_pos(from, to, p), self.node_pos(from, to, child)));
                assert(self.search_edge(map@, wi, hi, from, to, p, child));
                let old_nodes = nodes;
                nodes = seq![p].add(old_nodes);
                assert forall|i: int, j: int| 0 <= i && j == i + 1 && j < nodes.len() implies
                    self.search_edge(map@, wi, hi, from, to, #[trigger] nodes[i], #[trigger] nodes[j]) by {
                    if i > 0 {
                        assert(nodes[i] == old_nodes[i - 1] && nodes[j] == old_nodes[j - 1]);
                    }
                }
            }
            if ci == usize::MAX {
                return None;
            }
        }
        let n = back.len();
        let mut path: Vec<(i32, i32)> = Vec::new();
        let mut j: usize = n;
        while j > 0
            invariant
                n == back@.len(),
                n > 0,
                j <= n,
                path@.len() == n - j,
                forall|t: int| 0 <= t < path@.len() ==> #[trigger] path@[t] == back@[n - 1 - t],
            decreases j,
        {
            j = j - 1;
            path.push(back[j]);
        }
        proof {
            assert(path@[0] == back@[n - 1]);
            assert(path@.last() == back@[0]);
            assert forall|i: int| 0 <= i < path@.len() implies #[trigger] path@[i] == back@[back@.len() - 1 - i] by {}
            lemma_cost_reverse(back@, path@, n - 1);
            lemma_path_cost_upto(back@);
            lemma_path_cost_upto(path@);
            assert(path_cost(path@) == path_cost(back@));
            assert forall|i: int, k: int| 0 <= i && k == i + 1 && k < path@.len() implies
                aligned_clear(map@, wi, hi, ip(#[trigger] path@[i]), ip(#[trigger] path@[k])) by {
                assert(path@[i] == back@[n - 1 - i]);
                assert(path@[k] == back@[n - 1 - k]);
                let jj = n - 1 - i;
                let ii = n - 1 - k;
                assert(aligned_clear(map@, wi, hi, ip(back@[jj]), ip(back@[ii])));
            }
            assert(self.search_walk(map@, wi, hi, from, to, nodes));
            assert forall|k: int| 0 <= k < path@.len() implies pt_ok(map@, wi, hi, #[trigger] path@[k], from, to) by {
                assert(path@[k] == back@[n - 1 - k]);
            }
        }
        Some(path)
    }
}

impl SubgoalGraph {
    /// Dropping entry `k` of an open node that is already closed keeps the
    /// search state.
    proof fn lemma_skip(&self, map: Seq<Cell>, w: int, h: int, from: (i32, i32), to: (i32, i32),
        g: Seq<u64>, came: Seq<usize>, closed: Seq<bool>, open: Seq<(u64, usize)>, nclosed: int, k: int)
        requires
            self.search_core(map, w, h, from, to, g, came, closed, open, nclosed),
            0 <= k < open.len(),
            closed[open[k].1 as int],
        ensures
            self.search_core(map, w, h, from, to, g, came, closed, open.remove(k), nclosed),
    {
        reveal(SubgoalGraph::search_core);
        let o2 = open.remove(k);
        assert forall|kk: int| 0 <= kk < o2.len() implies #[trigger] o2[kk] == open[if kk < k { kk } else { kk + 1 }] by {}
        assert forall|v: int| 0 <= v < self.subgoals@.len() + 2 && #[trigger] g[v] != u64::MAX && !closed[v] implies
            exists|j: int| 0 <= j < o2.len() && o2[j].1 == v by {
            let j0 = choose|j: int| 0 <= j < open.len() && open[j].1 == v;
            assert(j0 != k);
            let j1 = if j0 < k { j0 } else { j0 - 1 };
            assert(o2[j1] == open[j0]);
        }
    }

    /// An open entry names a reached node.
    proof fn lemma_entry(&self, map: Seq<Cell>, w: int, h: int, from: (i32, i32), to: (i32, i32),
        g: Seq<u64>, came: Seq<usize>, closed: Seq<bool>, open: Seq<(u64, usize)>, nclosed: int, k: int)
        requires
            self.search_core(map, w, h, from, to, g, came, closed, open, nclosed),
            0 <= k < open.len(),
        ensures
            open[k].1 < self.subgoals@.len() + 2,
            g[open[k].1 as int] != u64::MAX,
    {
        reveal(SubgoalGraph::search_core);
    }

    /// Popping entry `k` and closing its node `u` keeps the search state,
    /// with every closed node but `u` still relaxed.
    proof fn lemma_close(&self, map: Seq<Cell>, w: int, h: int, from: (i32, i32), to: (i32, i32),
        g: Seq<u64>, came: Seq<usize>, closed: Seq<bool>, open: Seq<(u64, usize)>, nclosed: int, k: int)
        requires
            self.search_core(map, w, h, from, to, g, came, closed, open, nclosed),
            self.relaxed_except(map, w, h, from, to, g, closed, -1),
            0 <= k < open.len(),
            !closed[open[k].1 as int],
            open[k].1 as int != self.goal_node(),
            nclosed + 1 <= self.subgoals@.len() + 2,
            0 <= w + h,
        ensures
            self.search_core(map, w, h, from, to, g, came, closed.update(open[k].1 as int, true), open.remove(k), nclosed + 1),
            self.relaxed_except(map, w, h, from, to, g, closed.update(open[k].1 as int, true), open[k].1 as int),
            g[open[k].1 as int] + (w + h) <= (nclosed + 1) * (w + h),
    {
        reveal(SubgoalGraph::search_core);
        reveal(SubgoalGraph::parents_ok);
        reveal(SubgoalGraph::relaxed_except);
        let u = open[k].1 as int;
        let c2 = closed.update(u, true);
        let o2 = open.remove(k);
        let sg = self.subgoals@.len() as int;
        assert((nclosed + 1) * (w + h) == nclosed * (w + h) + (w + h)) by (nonlinear_arith);
        assert forall|kk: int| 0 <= kk < o2.len() implies #[trigger] o2[kk] == open[if kk < k { kk } else { kk + 1 }] by {}
        assert forall|v: int| 0 <= v < sg + 2 && #[trigger] g[v] != u64::MAX && !c2[v] implies
            exists|j: int| 0 <= j < o2.len() && o2[j].1 == v by {
            let j0 = choose|j: int| 0 <= j < open.len() && open[j].1 == v;
            assert(j0 != k);
            let j1 = if j0 < k { j0 } else { j0 - 1 };
            assert(o2[j1] == open[j0]);
        }
        assert forall|v: int| 0 <= v < sg + 2 && #[trigger] g[v] != u64::MAX implies g[v] <= (nclosed + 1) * (w + h) by {}
        assert forall|v: int| 0 <= v < sg + 2 && #[trigger] c2[v] implies g[v] != u64::MAX && v != sg + 1 by {
            if v != u {
                assert(closed[v]);
            }
        }
        assert(self.parents_ok(map, w, h, from, to, g, came, c2)) by {
            assert forall|v: int| 0 <= v < sg + 2 && v != sg && #[trigger] g[v] != u64::MAX implies c2[came[v] as int] by {
                assert(closed[came[v] as int]);
            }
        }
        assert(self.relaxed_except(map, w, h, from, to, g, c2, u)) by {
            assert forall|uu: int, e: int| 0 <= uu <= sg && #[trigger] c2[uu] && uu != u
                && 0 <= e < self.search_nbrs(map, w, h, from, to, uu).len()
                implies g[(#[trigger] self.search_nbrs(map, w, h, from, to, uu)[e]).0 as int] != u64::MAX by {
                assert(closed[uu]);
            }
        }
    }

    /// Lowering the cost of `v`, the `j`-th out-node of the closed node `u`,
    /// to `ng` with parent `u` keeps the parent links sound.
    proof fn lemma_relax_parents(&self, map: Seq<Cell>, w: int, h: int, from: (i32, i32), to: (i32, i32),
        g: Seq<u64>, came: Seq<usize>, closed: Seq<bool>, u: int, j: int, ng: u64)
        requires
            u < usize::MAX,
            self.parents_ok(map, w, h, from, to, g, came, closed),
            g.len() == self.subgoals@.len() + 2,
            came.len() == self.subgoals@.len() + 2,
            0 <= u < self.subgoals@.len() + 2,
            u != self.goal_node(),
            closed[u],
            0 <= j < self.search_nbrs(map, w, h, from, to, u).len(),
            ({
                let (v, c) = self.search_nbrs(map, w, h, from, to, u)[j];
                &&& 0 <= v < self.subgoals@.len() + 2
                &&& (u < self.subgoals@.len() && (v as int) < self.subgoals@.len() && c == 0 ==> u == v as int)
                &&& ng == g[u] + c
                &&& ng < g[v as int]
            }),
        ensures
            ({
                let v = self.search_nbrs(map, w, h, from, to, u)[j].0;
                self.parents_ok(map, w, h, from, to, g.update(v as int, ng), came.update(v as int, u as usize), closed)
            }),
    {
        reveal(SubgoalGraph::parents_ok);
        let sg = self.subgoals@.len() as int;
        let (v, c) = self.search_nbrs(map, w, h, from, to, u)[j];
        let vv = v as int;
        let g2 = g.update(vv, ng);
        let came2 = came.update(vv, u as usize);
        assert(u != vv);
        assert forall|x: int| 0 <= x < sg + 2 && x != sg && #[trigger] g2[x] != u64::MAX implies {
            let p = came2[x] as int;
            &&& 0 <= p < sg + 2
            &&& p != sg + 1
            &&& closed[p]
            &&& exists|e: int| 0 <= e < self.search_nbrs(map, w, h, from, to, p).len()
                && (#[trigger] self.search_nbrs(map, w, h, from, to, p)[e]).0 == x
            &&& (p < sg && x < sg ==> g2[p] < g2[x])
        } by {
            if x == vv {
                assert(self.search_nbrs(map, w, h, from, to, u)[j].0 == x);
            } else {
                assert(g[x] != u64::MAX);
                assert(came2[x] == came[x]);
            }
        }
    }

    /// Lowering the cost of `v`, the `j`-th out-node of the closed node `u`,
    /// to `ng` with parent `u` and a new open entry keeps the search state.
    proof fn lemma_relax(&self, map: Seq<Cell>, w: int, h: int, from: (i32, i32), to: (i32, i32),
        g: Seq<u64>, came: Seq<usize>, closed: Seq<bool>, open: Seq<(u64, usize)>, nclosed: int,
        u: int, j: int, ng: u64, f: u64)
        requires
            u < usize::MAX,
            self.wf(map, w, h),
            in_grid(from.0 as int, from.1 as int, w, h),
            in_grid(to.0 as int, to.1 as int, w, h),
            self.search_core(map, w, h, from, to, g, came, closed, open, nclosed),
            self.relaxed_except(map, w, h, from, to, g, closed, u),
            0 <= u < self.subgoals@.len() + 2,
            u != self.goal_node(),
            closed[u],
            0 <= j < self.search_nbrs(map, w, h, from, to, u).len(),
            ({
                let (v, c) = self.search_nbrs(map, w, h, from, to, u)[j];
                &&& 0 <= v < self.subgoals@.len() + 2
                &&& v as int != self.start_node()
                &&& (u < self.subgoals@.len() && (v as int) < self.subgoals@.len() && c == 0 ==> u == v as int)
                &&& ng == g[u] + c
                &&& ng < g[v as int]
            }),
            ng <= nclosed * (w + h),
        ensures
            ({
                let v = self.search_nbrs(map, w, h, from, to, u)[j].0;
                &&& self.search_core(map, w, h, from, to, g.update(v as int, ng), came.update(v as int, u as usize),
                    closed, open.push((f, v)), nclosed)
                &&& self.relaxed_except(map, w, h, from, to, g.update(v as int, ng), closed, u)
            }),
    {
        reveal(SubgoalGraph::search_core);
        let sg = self.subgoals@.len() as int;
        let (v, c) = self.search_nbrs(map, w, h, from, to, u)[j];
        let vv = v as int;
        let g2 = g.update(vv, ng);
        let o2 = open.push((f, v));
        self.lemma_relax_parents(map, w, h, from, to, g, came, closed, u, j, ng);
        assert forall|kk: int| 0 <= kk < open.len() implies #[trigger] o2[kk] == open[kk] by {}
        assert forall|x: int| 0 <= x < sg + 2 && #[trigger] g2[x] != u64::MAX implies g2[x] <= nclosed * (w + h) by {
            if x != vv {
                assert(g[x] != u64::MAX);
            }
        }
        assert forall|jj: int| 0 <= jj < o2.len() implies (#[trigger] o2[jj]).1 < sg + 2 && g2[o2[jj].1 as int] != u64::MAX by {
            if jj < open.len() {
                assert(o2[jj] == open[jj]);
                assert(g[o2[jj].1 as int] != u64::MAX);
            }
        }
        assert forall|x: int| 0 <= x < sg + 2 && #[trigger] closed[x] implies g2[x] != u64::MAX && x != sg + 1 by {
            assert(g[x] != u64::MAX);
        }
        assert forall|x: int| 0 <= x < sg + 2 && #[trigger] g2[x] != u64::MAX && !closed[x] implies
            exists|jj: int| 0 <= jj < o2.len() && o2[jj].1 == x by {
            if x == vv {
                assert(o2[o2.len() - 1].1 == x);
            } else {
                assert(g[x] != u64::MAX);
                let j0 = choose|jj: int| 0 <= jj < open.len() && open[jj].1 == x;
                assert(o2[j0] == open[j0]);
            }
        }
        self.lemma_relax_relaxed(map, w, h, from, to, g, closed, u as int, vv, ng);
    }

    /// Lowering one cost keeps every relaxed node relaxed.
    proof fn lemma_relax_relaxed(&self, map: Seq<Cell>, w: int, h: int, from: (i32, i32), to: (i32, i32),
        g: Seq<u64>, closed: Seq<bool>, u: int, v: int, ng: u64)
        requires
            self.wf(map, w, h),
            in_grid(from.0 as int, from.1 as int, w, h),
            in_grid(to.0 as int, to.1 as int, w, h),
            g.len() == self.subgoals@.len() + 2,
            self.relaxed_except(map, w, h, from, to, g, closed, u),
            0 <= v < g.len(),
            ng != u64::MAX,
        ensures
            self.relaxed_except(map, w, h, from, to, g.update(v, ng), closed, u),
    {
        reveal(SubgoalGraph::relaxed_except);
        let g2 = g.update(v, ng);
        assert forall|uu: int, e: int| 0 <= uu <= self.subgoals@.len() && #[trigger] closed[uu] && uu != u
            && 0 <= e < self.search_nbrs(map, w, h, from, to, uu).len()
            implies g2[(#[trigger] self.search_nbrs(map, w, h, from, to, uu)[e]).0 as int] != u64::MAX by {
            self.lemma_nbrs(map, w, h, from, to, uu);
            assert(g[self.search_nbrs(map, w, h, from, to, uu)[e].0 as int] != u64::MAX);
        }
    }

    /// Once every out-node of `u` is reached, `u` is relaxed too.
    proof fn lemma_relaxed_all(&self, map: Seq<Cell>, w: int, h: int, from: (i32, i32), to: (i32, i32),
        g: Seq<u64>, closed: Seq<bool>, u: int)
        requires
            self.relaxed_except(map, w, h, from, to, g, closed, u),
            forall|e: int| 0 <= e < self.search_nbrs(map, w, h, from, to, u).len() ==>
                g[(#[trigger] self.search_nbrs(map, w, h, from, to, u)[e]).0 as int] != u64::MAX,
        ensures
            self.relaxed_except(map, w, h, from, to, g, closed, -1),
    {
        reveal(SubgoalGraph::relaxed_except);
    }
}

/// Length of a tile path: the Manhattan distances between consecutive
/// points, summed.
pub open spec fn path_cost(p: Seq<(i32, i32)>) -> int
    decreases p.len(),
{
    if p.len() <= 1 {
        0
    } else {
        path_cost(p.drop_last()) + manhattan(ip(p[p.len() - 2]), ip(p.last()))
    }
}

/// Length of the first `k` steps of a tile path.
pub open spec fn cost_upto(p: Seq<(i32, i32)>, k: int) -> int
    decreases k,
{
    if k <= 0 { 0 } else { cost_upto(p, k - 1) + manhattan(ip(p[k - 1]), ip(p[k])) }
}

/// `path_cost` sums the steps in order.
proof fn lemma_path_cost_upto(p: Seq<(i32, i32)>)
    requires
        p.len() >= 1,
    ensures
        path_cost(p) == cost_upto(p, p.len() - 1),
    decreases p.len(),
{
    if p.len() > 1 {
        lemma_path_cost_upto(p.drop_last());
        lemma_cost_upto_prefix(p, p.drop_last(), p.len() - 2);
    }
}

/// Paths that agree on their first `k + 1` points agree on the cost of
/// their first `k` steps.
proof fn lemma_cost_upto_prefix(p: Seq<(i32, i32)>, q: Seq<(i32, i32)>, k: int)
    requires
        0 <= k < p.len(),
        k < q.len(),
        forall|i: int| 0 <= i <= k ==> p[i] == q[i],
    ensures
        cost_upto(p, k) == cost_upto(q, k),
    decreases k,
{
    if k > 0 {
        lemma_cost_upto_prefix(p, q, k - 1);
    }
}

/// A path and its reversal are equally long.
proof fn lemma_cost_reverse(p: Seq<(i32, i32)>, t: Seq<(i32, i32)>, k: int)
    requires
        t.len() == p.len(),
        p.len() >= 1,
        forall|i: int| 0 <= i < t.len() ==> #[trigger] t[i] == p[p.len() - 1 - i],
        0 <= k <= p.len() - 1,
    ensures
        cost_upto(t, k) == cost_upto(p, p.len() - 1) - cost_upto(p, p.len() - 1 - k),
    decreases k,
{
    if k > 0 {
        lemma_cost_reverse(p, t, k - 1);
        let n = p.len();
        assert(t[k - 1] == p[n - 1 - (k - 1)] && t[k] == p[n - 1 - k]);
    }
}

impl SubgoalGraph {
    /// Length of the search walk `p` from position `i` to position `j`:
    /// the Manhattan distances between consecutive node positions, summed.
    pub open spec fn seg_cost(&self, from: (i32, i32), to: (i32, i32), p: Seq<int>, i: int, j: int) -> int
        decreases j - i,
    {
        if j <= i {
            0
        } else {
            self.seg_cost(from, to, p, i, j - 1)
                + manhattan(self.node_pos(from, to, p[j - 1]), self.node_pos(from, to, p[j]))
        }
    }

    /// Length of the whole search walk `p`.
    pub open spec fn walk_cost(&self, from: (i32, i32), to: (i32, i32), p: Seq<int>) -> int {
        self.seg_cost(from, to, p, 0, p.len() - 1)
    }

    /// Every search walk from the start node to node `v` has length at
    /// least `c`.
    pub open spec fn cost_at_least(&self, map: Seq<Cell>, w: int, h: int, from: (i32, i32), to: (i32, i32),
        v: int, c: int) -> bool
    {
        forall|p: Seq<int>| #[trigger] self.search_walk(map, w, h, from, to, p) && p[0] == self.start_node()
            && p.last() == v ==> self.walk_cost(from, to, p) >= c
    }

    /// Estimated distance left from node `v`: Manhattan to the goal tile.
    pub open spec fn est(&self, from: (i32, i32), to: (i32, i32), v: int) -> int {
        manhattan(self.node_pos(from, to, v), ip(to))
    }

    /// Cost bookkeeping of the search: entries never undercut their node's
    /// cost plus its estimate, each reached open node has an entry with
    /// exactly that value, closed nodes carry their least walk length, and
    /// a node's cost covers its parent's plus the step.
    #[verifier::opaque]
    spec fn opt_state(&self, map: Seq<Cell>, w: int, h: int, from: (i32, i32), to: (i32, i32),
        g: Seq<u64>, came: Seq<usize>, closed: Seq<bool>, open: Seq<(u64, usize)>) -> bool
    {
        let sg = self.subgoals@.len() as int;
        &&& forall|j: int| 0 <= j < open.len() ==>
            (#[trigger] open[j]).0 >= g[open[j].1 as int] + self.est(from, to, open[j].1 as int)
        &&& forall|v: int| 0 <= v < sg + 2 && #[trigger] g[v] != u64::MAX && !closed[v] ==>
            exists|j: int| 0 <= j < open.len() && open[j].1 == v && open[j].0 == g[v] + self.est(from, to, v)
        &&& forall|v: int| 0 <= v < sg + 2 && #[trigger] closed[v] ==>
            self.cost_at_least(map, w, h, from, to, v, g[v] as int)
        &&& forall|v: int| 0 <= v < sg + 2 && v != sg && #[trigger] g[v] != u64::MAX ==>
            g[v] >= g[came[v] as int] + manhattan(self.node_pos(from, to, came[v] as int), self.node_pos(from, to, v))
    }

    /// Closed nodes other than `skip` have given each out-node that is not
    /// closed a cost at most their own plus the step.
    #[verifier::opaque]
    spec fn bound_except(&self, map: Seq<Cell>, w: int, h: int, from: (i32, i32), to: (i32, i32),
        g: Seq<u64>, closed: Seq<bool>, skip: int) -> bool
    {
        forall|u: int, e: int| 0 <= u <= self.subgoals@.len() && #[trigger] closed[u] && u != skip
            && 0 <= e < self.search_nbrs(map, w, h, from, to, u).len()
            && !closed[self.search_nbrs(map, w, h, from, to, u)[e].0 as int]
            ==> g[(#[trigger] self.search_nbrs(map, w, h, from, to, u)[e]).0 as int]
                <= g[u] + self.search_nbrs(map, w, h, from, to, u)[e].1
    }

    /// Costs of adjacent segments add up.
    proof fn lemma_seg_split(&self, from: (i32, i32), to: (i32, i32), p: Seq<int>, i: int, k: int, j: int)
        requires
            i <= k <= j,
        ensures
            self.seg_cost(from, to, p, i, j) == self.seg_cost(from, to, p, i, k) + self.seg_cost(from, to, p, k, j),
        decreases j - k,
    {
        if k < j {
            self.lemma_seg_split(from, to, p, i, k, j - 1);
        }
    }

    /// A segment is at least as long as the Manhattan distance between its
    /// ends.
    proof fn lemma_seg_triangle(&self, from: (i32, i32), to: (i32, i32), p: Seq<int>, i: int, j: int)
        requires
            i <= j,
        ensures
            manhattan(self.node_pos(from, to, p[i]), self.node_pos(from, to, p[j])) <= self.seg_cost(from, to, p, i, j),
        decreases j - i,
    {
        if i < j {
            self.lemma_seg_triangle(from, to, p, i, j - 1);
        }
    }

    /// A prefix of a walk costs what the walk's first segment costs.
    proof fn lemma_seg_take(&self, from: (i32, i32), to: (i32, i32), p: Seq<int>, j: int, t: int)
        requires
            0 <= t <= j < p.len(),
        ensures
            self.seg_cost(from, to, p.take(j + 1), 0, t) == self.seg_cost(from, to, p, 0, t),
        decreases t,
    {
        if t > 0 {
            self.lemma_seg_take(from, to, p, j, t - 1);
            assert(p.take(j + 1)[t - 1] == p[t - 1] && p.take(j + 1)[t] == p[t]);
        }
    }

    /// Along a search walk from the start whose first `j` nodes are closed,
    /// node `j` costs at most the walk's first `j` steps.
    proof fn lemma_prefix_cost(&self, map: Seq<Cell>, w: int, h: int, from: (i32, i32), to: (i32, i32),
        g: Seq<u64>, came: Seq<usize>, closed: Seq<bool>, open: Seq<(u64, usize)>, nclosed: int, p: Seq<int>, j: int)
        requires
            self.wf(map, w, h),
            in_grid(from.0 as int, from.1 as int, w, h),
            in_grid(to.0 as int, to.1 as int, w, h),
            self.search_core(map, w, h, from, to, g, came, closed, open, nclosed),
            self.relaxed_except(map, w, h, from, to, g, closed, -1),
            self.opt_state(map, w, h, from, to, g, came, closed, open),
            self.bound_except(map, w, h, from, to, g, closed, -1),
            self.search_walk(map, w, h, from, to, p),
            p[0] == self.start_node(),
            0 <= j < p.len(),
            forall|t: int| 0 <= t < j ==> #[trigger] closed[p[t]],
        ensures
            0 <= p[j] < self.subgoals@.len() + 2,
            g[p[j]] != u64::MAX,
            g[p[j]] <= self.seg_cost(from, to, p, 0, j),
        decreases j,
    {
        reveal(SubgoalGraph::search_core);
        reveal(SubgoalGraph::opt_state);
        reveal(SubgoalGraph::bound_except);
        reveal(SubgoalGraph::relaxed_except);
        if j > 0 {
            self.lemma_prefix_cost(map, w, h, from, to, g, came, closed, open, nclosed, p, j - 1);
            let u = p[j - 1];
            assert(closed[u]);
            assert(self.search_edge(map, w, h, from, to, p[j - 1], p[j]));
            let e = choose|e: int| 0 <= e < self.search_nbrs(map, w, h, from, to, u).len()
                && (#[trigger] self.search_nbrs(map, w, h, from, to, u)[e]).0 as int == p[j];
            self.lemma_nbrs(map, w, h, from, to, u);
            assert(u != self.goal_node());
            assert(g[p[j]] != u64::MAX);
            if closed[p[j]] {
                let q = p.take(j + 1);
                assert(self.search_walk(map, w, h, from, to, q)) by {
                    assert forall|i: int, k: int| 0 <= i && k == i + 1 && k < q.len() implies
                        self.search_edge(map, w, h, from, to, #[trigger] q[i], #[trigger] q[k]) by {
                        assert(q[i] == p[i] && q[k] == p[k]);
                        assert(self.search_edge(map, w, h, from, to, p[i], p[k]));
                    }
                }
                assert(q[0] == self.start_node() && q.last() == p[j]);
                self.lemma_seg_take(from, to, p, j, j);
                assert(self.cost_at_least(map, w, h, from, to, p[j], g[p[j]] as int));
            } else {
                assert(g[p[j]] <= g[u] + self.search_nbrs(map, w, h, from, to, u)[e].1);
            }
        }
    }

    /// The first node at or after `s` along the walk that is not closed.
    proof fn lemma_first_open(&self, closed: Seq<bool>, p: Seq<int>, s: int, j: int) -> (i: int)
        requires
            0 <= s <= j < p.len(),
            forall|t: int| 0 <= t < s ==> #[trigger] closed[p[t]],
            !closed[p[j]],
        ensures
            s <= i <= j,
            !closed[p[i]],
            forall|t: int| 0 <= t < i ==> #[trigger] closed[p[t]],
        decreases j - s,
    {
        if !closed[p[s]] {
            s
        } else {
            self.lemma_first_open(closed, p, s + 1, j)
        }
    }

    /// Walks that agree on their first `t + 1` nodes agree on the length of
    /// their first `t` steps.
    proof fn lemma_seg_prefix(&self, from: (i32, i32), to: (i32, i32), p: Seq<int>, q: Seq<int>, t: int)
        requires
            0 <= t,
            forall|i: int| 0 <= i <= t ==> p[i] == q[i],
        ensures
            self.seg_cost(from, to, p, 0, t) == self.seg_cost(from, to, q, 0, t),
        decreases t,
    {
        if t > 0 {
            self.lemma_seg_prefix(from, to, p, q, t - 1);
        }
    }

    /// Following parent links from a reached node gives a search walk
    /// from the start to it no longer than its cost.
    proof fn lemma_reach_walk(&self, map: Seq<Cell>, w: int, h: int, from: (i32, i32), to: (i32, i32),
        g: Seq<u64>, came: Seq<usize>, closed: Seq<bool>, open: Seq<(u64, usize)>, nclosed: int, v: int)
        -> (p: Seq<int>)
        requires
            self.search_core(map, w, h, from, to, g, came, closed, open, nclosed),
            self.opt_state(map, w, h, from, to, g, came, closed, open),
            0 <= v < self.subgoals@.len() + 2,
            g[v] != u64::MAX,
        ensures
            self.search_walk(map, w, h, from, to, p),
            p[0] == self.start_node(),
            p.last() == v,
            self.walk_cost(from, to, p) <= g[v],
        decreases (if v == self.goal_node() { u64::MAX as int + 1 } else if v == self.start_node() { 0 } else { g[v] + 1 }),
    {
        reveal(SubgoalGraph::search_core);
        reveal(SubgoalGraph::parents_ok);
        reveal(SubgoalGraph::opt_state);
        let sg = self.subgoals@.len() as int;
        if v == sg {
            let p = seq![v];
            assert(self.walk_cost(from, to, p) == 0);
            p
        } else {
            let q = came[v] as int;
            assert(g[q] != u64::MAX);
            let pq = self.lemma_reach_walk(map, w, h, from, to, g, came, closed, open, nclosed, q);
            let p = pq.push(v);
            assert(self.search_edge(map, w, h, from, to, q, v));
            assert forall|i: int, j: int| 0 <= i && j == i + 1 && j < p.len() implies
                self.search_edge(map, w, h, from, to, #[trigger] p[i], #[trigger] p[j]) by {
                if j < pq.len() {
                    assert(p[i] == pq[i] && p[j] == pq[j]);
                    assert(self.search_edge(map, w, h, from, to, pq[i], pq[j]));
                } else {
                    assert(p[i] == q && p[j] == v);
                }
            }
            self.lemma_seg_prefix(from, to, p, pq, pq.len() - 1);
            assert(p[pq.len() - 1] == q);
            p
        }
    }

    /// The initial search state keeps the cost bookkeeping.
    proof fn lemma_opt_init(&self, map: Seq<Cell>, w: int, h: int, from: (i32, i32), to: (i32, i32),
        g: Seq<u64>, came: Seq<usize>, closed: Seq<bool>, open: Seq<(u64, usize)>)
        requires
            g.len() == self.subgoals@.len() + 2,
            closed.len() == self.subgoals@.len() + 2,
            forall|v: int| 0 <= v < g.len() && v != self.start_node() ==> #[trigger] g[v] == u64::MAX,
            g[self.start_node()] == 0,
            forall|v: int| 0 <= v < closed.len() ==> !#[trigger] closed[v],
            open.len() == 1,
            open[0].1 as int == self.start_node(),
            open[0].0 as int == manhattan(ip(from), ip(to)),
        ensures
            self.opt_state(map, w, h, from, to, g, came, closed, open),
            self.bound_except(map, w, h, from, to, g, closed, -1),
    {
        reveal(SubgoalGraph::opt_state);
        reveal(SubgoalGraph::bound_except);
        let sg = self.subgoals@.len() as int;
        assert forall|v: int| 0 <= v < sg + 2 && #[trigger] g[v] != u64::MAX && !closed[v] implies
            exists|j: int| 0 <= j < open.len() && open[j].1 == v && open[j].0 == g[v] + self.est(from, to, v) by {
            assert(v == sg);
            assert(open[0].1 == v);
        }
    }

    /// Dropping an entry of a closed node keeps the cost bookkeeping.
    proof fn lemma_opt_skip(&self, map: Seq<Cell>, w: int, h: int, from: (i32, i32), to: (i32, i32),
        g: Seq<u64>, came: Seq<usize>, closed: Seq<bool>, open: Seq<(u64, usize)>, k: int)
        requires
            self.opt_state(map, w, h, from, to, g, came, closed, open),
            0 <= k < open.len(),
            closed[open[k].1 as int],
        ensures
            self.opt_state(map, w, h, from, to, g, came, closed, open.remove(k)),
    {
        reveal(SubgoalGraph::opt_state);
        let o2 = open.remove(k);
        let sg = self.subgoals@.len() as int;
        assert forall|kk: int| 0 <= kk < o2.len() implies #[trigger] o2[kk] == open[if kk < k { kk } else { kk + 1 }] by {}
        assert forall|v: int| 0 <= v < sg + 2 && #[trigger] g[v] != u64::MAX && !closed[v] implies
            exists|j: int| 0 <= j < o2.len() && o2[j].1 == v && o2[j].0 == g[v] + self.est(from, to, v) by {
            let j0 = choose|j: int| 0 <= j < open.len() && open[j].1 == v && open[j].0 == g[v] + self.est(from, to, v);
            assert(j0 != k);
            let j1 = if j0 < k { j0 } else { j0 - 1 };
            assert(o2[j1] == open[j0]);
        }
    }

    /// Popping entry `k` and closing its node, whose cost no walk beats,
    /// keeps the cost bookkeeping; every closed node but it stays bounded.
    proof fn lemma_opt_close(&self, map: Seq<Cell>, w: int, h: int, from: (i32, i32), to: (i32, i32),
        g: Seq<u64>, came: Seq<usize>, closed: Seq<bool>, open: Seq<(u64, usize)>, k: int)
        requires
            self.wf(map, w, h),
            in_grid(from.0 as int, from.1 as int, w, h),
            in_grid(to.0 as int, to.1 as int, w, h),
            self.opt_state(map, w, h, from, to, g, came, closed, open),
            self.bound_except(map, w, h, from, to, g, closed, -1),
            0 <= k < open.len(),
            !closed[open[k].1 as int],
            0 <= open[k].1 < self.subgoals@.len() + 2,
            closed.len() == self.subgoals@.len() + 2,
            self.cost_at_least(map, w, h, from, to, open[k].1 as int, g[open[k].1 as int] as int),
        ensures
            self.opt_state(map, w, h, from, to, g, came, closed.update(open[k].1 as int, true), open.remove(k)),
            self.bound_except(map, w, h, from, to, g, closed.update(open[k].1 as int, true), open[k].1 as int),
    {
        reveal(SubgoalGraph::opt_state);
        reveal(SubgoalGraph::bound_except);
        let u = open[k].1 as int;
        let c2 = closed.update(u, true);
        let o2 = open.remove(k);
        let sg = self.subgoals@.len() as int;
        assert forall|kk: int| 0 <= kk < o2.len() implies #[trigger] o2[kk] == open[if kk < k { kk } else { kk + 1 }] by {}
        assert forall|v: int| 0 <= v < sg + 2 && #[trigger] g[v] != u64::MAX && !c2[v] implies
            exists|j: int| 0 <= j < o2.len() && o2[j].1 == v && o2[j].0 == g[v] + self.est(from, to, v) by {
            let j0 = choose|j: int| 0 <= j < open.len() && open[j].1 == v && open[j].0 == g[v] + self.est(from, to, v);
            assert(j0 != k);
            let j1 = if j0 < k { j0 } else { j0 - 1 };
            assert(o2[j1] == open[j0]);
        }
        assert forall|v: int| 0 <= v < sg + 2 && #[trigger] c2[v] implies
            self.cost_at_least(map, w, h, from, to, v, g[v] as int) by {
            if v != u {
                assert(closed[v]);
            }
        }
        assert forall|uu: int, e: int| 0 <= uu <= sg && #[trigger] c2[uu] && uu != u
            && 0 <= e < self.search_nbrs(map, w, h, from, to, uu).len()
            && !c2[self.search_nbrs(map, w, h, from, to, uu)[e].0 as int]
            implies g[(#[trigger] self.search_nbrs(map, w, h, from, to, uu)[e]).0 as int]
                <= g[uu] + self.search_nbrs(map, w, h, from, to, uu)[e].1 by {
            assert(closed[uu]);
            self.lemma_nbrs(map, w, h, from, to, uu);
        }
    }

    /// Lowering the cost of the open node `v`, the `j`-th out-node of the
    /// closed node `u`, to `u`'s cost plus the step, with a new entry,
    /// keeps the cost bookkeeping and the bounds of the other closed nodes.
    #[verifier::rlimit(80)]
    proof fn lemma_opt_relax(&self, map: Seq<Cell>, w: int, h: int, from: (i32, i32), to: (i32, i32),
        g: Seq<u64>, came: Seq<usize>, closed: Seq<bool>, open: Seq<(u64, usize)>,
        u: int, j: int, ng: u64, f: u64)
        requires
            self.wf(map, w, h),
            in_grid(from.0 as int, from.1 as int, w, h),
            in_grid(to.0 as int, to.1 as int, w, h),
            self.opt_state(map, w, h, from, to, g, came, closed, open),
            self.bound_except(map, w, h, from, to, g, closed, u),
            g.len() == self.subgoals@.len() + 2,
            came.len() == self.subgoals@.len() + 2,
            0 <= u <= self.subgoals@.len(),
            u < usize::MAX,
            closed[u],
            forall|jj: int| 0 <= jj < open.len() ==> (#[trigger] open[jj]).1 < self.subgoals@.len() + 2,
            forall|x: int| 0 <= x < self.subgoals@.len() + 2 && x != self.start_node() && #[trigger] g[x] != u64::MAX
                ==> came[x] < self.subgoals@.len() + 2,
            0 <= j < self.search_nbrs(map, w, h, from, to, u).len(),
            ({
                let (v, c) = self.search_nbrs(map, w, h, from, to, u)[j];
                &&& 0 <= v < self.subgoals@.len() + 2
                &&& v as int != self.start_node()
                &&& !closed[v as int]
                &&& ng == g[u] + c
                &&& ng < g[v as int]
                &&& f == ng + self.est(from, to, v as int)
            }),
        ensures
            ({
                let v = self.search_nbrs(map, w, h, from, to, u)[j].0;
                &&& self.opt_state(map, w, h, from, to, g.update(v as int, ng), came.update(v as int, u as usize),
                    closed, open.push((f, v)))
                &&& self.bound_except(map, w, h, from, to, g.update(v as int, ng), closed, u)
            }),
    {
        reveal(SubgoalGraph::opt_state);
        reveal(SubgoalGraph::bound_except);
        let sg = self.subgoals@.len() as int;
        let (v, c) = self.search_nbrs(map, w, h, from, to, u)[j];
        let vv = v as int;
        let g2 = g.update(vv, ng);
        let came2 = came.update(vv, u as usize);
        let o2 = open.push((f, v));
        self.lemma_nbrs(map, w, h, from, to, u);
        assert(c as int == manhattan(self.node_pos(from, to, u), self.node_pos(from, to, vv)));
        assert forall|kk: int| 0 <= kk < open.len() implies #[trigger] o2[kk] == open[kk] by {}
        assert forall|y: int| 0 <= y < sg + 2 implies #[trigger] g2[y] <= g[y] by {}
        assert forall|jj: int| 0 <= jj < o2.len() implies
            (#[trigger] o2[jj]).0 >= g2[o2[jj].1 as int] + self.est(from, to, o2[jj].1 as int) by {
            if jj < open.len() {
                assert(o2[jj] == open[jj]);
            }
        }
        assert forall|x: int| 0 <= x < sg + 2 && #[trigger] g2[x] != u64::MAX && !closed[x] implies
            exists|jj: int| 0 <= jj < o2.len() && o2[jj].1 == x && o2[jj].0 == g2[x] + self.est(from, to, x) by {
            if x == vv {
                assert(o2[o2.len() - 1].1 == x);
            } else {
                let j0 = choose|jj: int| 0 <= jj < open.len() && open[jj].1 == x && open[jj].0 == g[x] + self.est(from, to, x);
                assert(o2[j0] == open[j0]);
            }
        }
        assert forall|x: int| 0 <= x < sg + 2 && #[trigger] closed[x] implies
            self.cost_at_least(map, w, h, from, to, x, g2[x] as int) by {
            assert(x != vv);
        }
        assert forall|x: int| 0 <= x < sg + 2 && x != sg && #[trigger] g2[x] != u64::MAX implies
            g2[x] >= g2[came2[x] as int] + manhattan(self.node_pos(from, to, came2[x] as int), self.node_pos(from, to, x)) by {
            if x == vv {
                assert(came2[x] as int == u);
                assert(u != vv);
            } else {
                assert(g[x] != u64::MAX);
                assert(came2[x] == came[x]);
            }
        }
        assert forall|uu: int, e: int| 0 <= uu <= sg && #[trigger] closed[uu] && uu != u
            && 0 <= e < self.search_nbrs(map, w, h, from, to, uu).len()
            && !closed[self.search_nbrs(map, w, h, from, to, uu)[e].0 as int]
            implies g2[(#[trigger] self.search_nbrs(map, w, h, from, to, uu)[e]).0 as int]
                <= g2[uu] + self.search_nbrs(map, w, h, from, to, uu)[e].1 by {
            assert(uu != vv);
            self.lemma_nbrs(map, w, h, from, to, uu);
        }
    }

    /// Once every open out-node of `u` costs at most `u`'s cost plus the
    /// step, `u` is bounded too.
    proof fn lemma_bound_all(&self, map: Seq<Cell>, w: int, h: int, from: (i32, i32), to: (i32, i32),
        g: Seq<u64>, closed: Seq<bool>, u: int)
        requires
            self.bound_except(map, w, h, from, to, g, closed, u),
            forall|e: int| 0 <= e < self.search_nbrs(map, w, h, from, to, u).len() ==>
                closed[(#[trigger] self.search_nbrs(map, w, h, from, to, u)[e]).0 as int]
                || g[self.search_nbrs(map, w, h, from, to, u)[e].0 as int] <= g[u] + self.search_nbrs(map, w, h, from, to, u)[e].1,
        ensures
            self.bound_except(map, w, h, from, to, g, closed, -1),
    {
        reveal(SubgoalGraph::bound_except);
    }

    /// The least open entry, for a node not yet closed, has a cost no
    /// search walk from the start to that node can beat.
    proof fn lemma_pop_cost(&self, map: Seq<Cell>, w: int, h: int, from: (i32, i32), to: (i32, i32),
        g: Seq<u64>, came: Seq<usize>, closed: Seq<bool>, open: Seq<(u64, usize)>, nclosed: int, k: int)
        requires
            self.wf(map, w, h),
            in_grid(from.0 as int, from.1 as int, w, h),
            in_grid(to.0 as int, to.1 as int, w, h),
            self.search_core(map, w, h, from, to, g, came, closed, open, nclosed),
            self.relaxed_except(map, w, h, from, to, g, closed, -1),
            self.opt_state(map, w, h, from, to, g, came, closed, open),
            self.bound_except(map, w, h, from, to, g, closed, -1),
            0 <= k < open.len(),
            forall|j: int| 0 <= j < open.len() ==> entry_le(open[k], #[trigger] open[j]),
            !closed[open[k].1 as int],
        ensures
            self.cost_at_least(map, w, h, from, to, open[k].1 as int, g[open[k].1 as int] as int),
    {
        reveal(SubgoalGraph::search_core);
        let u = open[k].1 as int;
        assert forall|p: Seq<int>| #[trigger] self.search_walk(map, w, h, from, to, p) && p[0] == self.start_node()
            && p.last() == u implies self.walk_cost(from, to, p) >= g[u] by {
            let n = p.len() - 1;
            let i = self.lemma_first_open(closed, p, 0, n);
            self.lemma_prefix_cost(map, w, h, from, to, g, came, closed, open, nclosed, p, i);
            let v = p[i];
            reveal(SubgoalGraph::opt_state);
            let kv = choose|j: int| 0 <= j < open.len() && open[j].1 == v && open[j].0 == g[v] + self.est(from, to, v);
            assert(entry_le(open[k], open[kv]));
            assert(open[k].0 >= g[u] + self.est(from, to, u));
            self.lemma_seg_split(from, to, p, 0, i, n);
            self.lemma_seg_triangle(from, to, p, i, n);
        }
    }
}

impl SubgoalGraph {
    /// A* over the subgoal graph, with `from` and `to` joined to it as extra
    /// nodes. Returns the turning points of a path from `from` to `to`, each
    /// step along a row or column over walkable tiles: `[to]` when the two
    /// coincide, `[from, to]` when they see each other, otherwise a path
    /// exactly when the goal node is reachable in the search graph. The
    /// path is no longer than any walk of the search graph from `from` to
    /// `to`.
    #[verifier::rlimit(100)]
    pub fn find_path(&self, from: (i32, i32), to: (i32, i32), map: &[Cell], w: i32, h: i32) -> (r: Option<Vec<(i32, i32)>>)
        requires
            self.wf(map@, w as int, h as int),
            in_grid(from.0 as int, from.1 as int, w as int, h as int),
            in_grid(to.0 as int, to.1 as int, w as int, h as int),
        ensures
            from == to ==> (r matches Some(p) && p@ == seq![to]),
            from != to && los(map@, w as int, h as int, ip(from), ip(to)) ==> (r matches Some(p) && p@ == seq![from, to]),
            from != to && !los(map@, w as int, h as int, ip(from), ip(to)) ==>
                (r is Some <==> self.graph_reaches(map@, w as int, h as int, from, to)),
            r matches Some(p) ==> path_ok(map@, w as int, h as int, p@, from, to),
            r matches Some(p) ==> forall|k: int| 0 <= k < p@.len() ==> pt_ok(map@, w as int, h as int, #[trigger] p@[k], from, to),
            r matches Some(p) ==> forall|q: Seq<int>| #[trigger] self.search_walk(map@, w as int, h as int, from, to, q)
                && q[0] == self.start_node() && q.last() == self.goal_node()
                ==> path_cost(p@) <= self.walk_cost(from, to, q),
    {
        let ghost wi = w as int;
        let ghost hi = h as int;
        if from.0 == to.0 && from.1 == to.1 {
            let v = vec![to];
            proof {
                assert(v@ =~= seq![to]);
                assert(path_cost(v@) == 0);
                assert forall|q: Seq<int>| #[trigger] self.search_walk(map@, wi, hi, from, to, q)
                    && q[0] == self.start_node() && q.last() == self.goal_node()
                    implies path_cost(v@) <= self.walk_cost(from, to, q) by {
                    self.lemma_seg_triangle(from, to, q, 0, q.len() - 1);
                }
            }
            return Some(v);
        }
        if from.0 == to.0 || from.1 == to.1 {
            if cardinal_los(from, to, map, w, h) {
                let v = vec![from, to];
                proof {
                    lemma_los_aligned(map@, wi, hi, ip(from), ip(to));
                    assert(v@ =~= seq![from, to]);
                    assert forall|i: int, j: int| 0 <= i && j == i + 1 && j < v@.len() implies
                        aligned_clear(map@, wi, hi, ip(#[trigger] v@[i]), ip(#[trigger] v@[j])) by {
                        assert(i == 0 && j == 1);
                    }
                    assert(v@.drop_last() =~= seq![from]);
                    assert(path_cost(v@.drop_last()) == 0);
                    assert(v@[0] == from && v@[1] == to);
                    assert(path_cost(v@) == manhattan(ip(from), ip(to)));
                    assert forall|q: Seq<int>| #[trigger] self.search_walk(map@, wi, hi, from, to, q)
                        && q[0] == self.start_node() && q.last() == self.goal_node()
                        implies path_cost(v@) <= self.walk_cost(from, to, q) by {
                        self.lemma_seg_triangle(from, to, q, 0, q.len() - 1);
                    }
                }
                return Some(v);
            }
        }
        proof {
            assert(!los(map@, wi, hi, ip(from), ip(to)));
        }
        let start_conns = self.connect_tile(from.0, from.1, map, w, h);
        let goal_conns = self.connect_tile(to.0, to.1, map, w, h);
        let sg_count = self.subgoals.len();
        if start_conns.len() == 0 || goal_conns.len() == 0 {
            proof {
                reveal(SubgoalGraph::search_nbrs);
                if self.graph_reaches(map@, wi, hi, from, to) {
                    let p = choose|p: Seq<int>| #[trigger] self.search_walk(map@, wi, hi, from, to, p)
                        && p[0] == self.start_node() && p.last() == self.goal_node();
                    assert(p.len() >= 2);
                    if start_conns.len() == 0 {
                        assert(self.search_edge(map@, wi, hi, from, to, p[0], p[1]));
                    } else {
                        let k = p.len() - 2;
                        let u = p[k];
                        assert(self.search_edge(map@, wi, hi, from, to, p[k], p[k + 1]));
                        let e = choose|e: int| 0 <= e < self.search_nbrs(map@, wi, hi, from, to, u).len()
                            && (#[trigger] self.search_nbrs(map@, wi, hi, from, to, u)[e]).0 as int == p[k + 1];
                        self.lemma_conns(map@, wi, hi, from);
                        if 0 <= u < sg_count {
                            assert(goal_links(goal_conns@, u, (sg_count + 1) as usize) =~= Seq::<(usize, u32)>::empty());
                            assert(self.search_nbrs(map@, wi, hi, from, to, u)[e] == self.edges@[u]@[e]);
                        }
                    }
                }
            }
            return None;
        }
        let start_vi = sg_count;
        let goal_vi = sg_count + 1;
        let total = sg_count + 2;
        proof {
            assert(sg_count as int <= wi * hi);
            assert((total as int) * (wi + hi) + (wi + hi) < u64::MAX) by (nonlinear_arith)
                requires total as int <= 0x7fff_ffff + 2, 0 <= wi + hi <= 0x1_0000_0000;
        }
        let mut g_cost: Vec<u64> = vec![u64::MAX; total];
        let mut came_from: Vec<usize> = vec![usize::MAX; total];
        let mut closed: Vec<bool> = vec![false; total];
        g_cost.set(start_vi, 0);
        let mut open: Vec<(u64, usize)> = Vec::new();
        open.push((dist(from, to), start_vi));
        let ghost mut nclosed: int = 0;
        let ghost mut closed_set: Set<int> = Set::empty();
        let ghost all_nodes: Set<int> = Set::new(|v: int| 0 <= v < total);
        proof {
            assert forall|v: int| 0 <= v < total && v != start_vi implies #[trigger] g_cost@[v] == u64::MAX by {
                assert(cloned(u64::MAX, g_cost@[v]));
            }
            assert forall|v: int| 0 <= v < total implies !#[trigger] closed@[v] by {
                assert(cloned(false, closed@[v]));
            }
            assert(open@[0].1 == start_vi);
            assert(closed_set =~= Set::<int>::empty());
            reveal(SubgoalGraph::search_core);
            reveal(SubgoalGraph::parents_ok);
            reveal(SubgoalGraph::relaxed_except);
            assert(self.parents_ok(map@, wi, hi, from, to, g_cost@, came_from@, closed@));
            assert(self.search_core(map@, wi, hi, from, to, g_cost@, came_from@, closed@, open@, nclosed));
            self.lemma_opt_init(map@, wi, hi, from, to, g_cost@, came_from@, closed@, open@);
        }
        while open.len() > 0
            invariant
                self.wf(map@, wi, hi),
                wi == w,
                hi == h,
                in_grid(from.0 as int, from.1 as int, wi, hi),
                in_grid(to.0 as int, to.1 as int, wi, hi),
                from != to,
                !los(map@, wi, hi, ip(from), ip(to)),
                start_conns@ == self.conns(map@, wi, hi, from),
                goal_conns@ == self.conns(map@, wi, hi, to),
                sg_count == self.subgoals@.len(),
                start_vi == sg_count,
                goal_vi == sg_count + 1,
                total == sg_count + 2,
                g_cost@.len() == total,
                came_from@.len() == total,
                closed@.len() == total,
                (total as int) * (wi + hi) + (wi + hi) < u64::MAX,
                0 <= nclosed <= total,
                self.search_core(map@, wi, hi, from, to, g_cost@, came_from@, closed@, open@, nclosed),
                self.relaxed_except(map@, wi, hi, from, to, g_cost@, closed@, -1),
                self.opt_state(map@, wi, hi, from, to, g_cost@, came_from@, closed@, open@),
                self.bound_except(map@, wi, hi, from, to, g_cost@, closed@, -1),
                forall|v: int| 0 <= v < total ==> (#[trigger] closed@[v] <==> closed_set.contains(v)),
                closed_set.finite(),
                closed_set.len() == nclosed,
                closed_set.subset_of(all_nodes),
                all_nodes == Set::new(|v: int| 0 <= v < total),
            decreases (total - nclosed) * 9 + open.len(),
        {
            let k = min_entry(&open);
            let ghost pre_open = open@;
            let (_, u) = open.remove(k);
            proof {
                self.lemma_entry(map@, wi, hi, from, to, g_cost@, came_from@, closed@, pre_open, nclosed, k as int);
            }
            if u == goal_vi {
                proof {
                    reveal(SubgoalGraph::search_core);
                    self.lemma_pop_cost(map@, wi, hi, from, to, g_cost@, came_from@, closed@, pre_open, nclosed, k as int);
                    reveal(SubgoalGraph::opt_state);
                }
                let path = self.trace_back(from, to, map, w, h, &g_cost, &came_from, &closed);
                return path;
            }
            if closed[u] {
                proof {
                    self.lemma_skip(map@, wi, hi, from, to, g_cost@, came_from@, closed@, pre_open, nclosed, k as int);
                    self.lemma_opt_skip(map@, wi, hi, from, to, g_cost@, came_from@, closed@, pre_open, k as int);
                }
                continue;
            }
            proof {
                assert(!closed_set.contains(u as int));
                vstd::set_lib::lemma_int_range(0, total as int);
                assert(all_nodes =~= vstd::set_lib::set_int_range(0, total as int));
                vstd::set_lib::lemma_len_subset(closed_set.insert(u as int), all_nodes);
                self.lemma_close(map@, wi, hi, from, to, g_cost@, came_from@, closed@, pre_open, nclosed, k as int);
                self.lemma_pop_cost(map@, wi, hi, from, to, g_cost@, came_from@, closed@, pre_open, nclosed, k as int);
                self.lemma_opt_close(map@, wi, hi, from, to, g_cost@, came_from@, closed@, pre_open, k as int);
            }
            closed.set(u, true);
            proof {
                closed_set = closed_set.insert(u as int);
                nclosed = nclosed + 1;
                assert(nclosed * (wi + hi) <= (total as int) * (wi + hi)) by (nonlinear_arith)
                    requires nclosed <= total as int, 0 <= wi + hi;
            }
            let neighbors = self.search_neighbors(u, &start_conns, &goal_conns, from, to, map, w, h);
            proof {
                self.lemma_nbrs(map@, wi, hi, from, to, u as int);
            }
            let gu = g_cost[u];
            let ghost open_at_close = open@;
            let mut j: usize = 0;
            while j < neighbors.len()
                invariant
                    self.wf(map@, wi, hi),
                    wi == w,
                    hi == h,
                    in_grid(from.0 as int, from.1 as int, wi, hi),
                    in_grid(to.0 as int, to.1 as int, wi, hi),
                    sg_count == self.subgoals@.len(),
                    start_vi == sg_count,
                    goal_vi == sg_count + 1,
                    total == sg_count + 2,
                    g_cost@.len() == total,
                    came_from@.len() == total,
                    closed@.len() == total,
                    (total as int) * (wi + hi) + (wi + hi) < u64::MAX,
                    0 <= nclosed <= total,
                    u < total,
                    u != goal_vi,
                    closed@[u as int],
                    g_cost@[u as int] == gu,
                    gu != u64::MAX,
                    gu + (wi + hi) <= nclosed * (wi + hi),
                    nclosed * (wi + hi) <= (total as int) * (wi + hi),
                    neighbors@ == self.search_nbrs(map@, wi, hi, from, to, u as int),
                    neighbors@.len() <= 8,
                    forall|e: int| 0 <= e < neighbors@.len() ==> {
                        let (v, c) = #[trigger] neighbors@[e];
                        &&& 0 <= v < total
                        &&& v as int != start_vi
                        &&& c as int <= wi + hi
                        &&& (u < sg_count && (v as int) < sg_count && c == 0 ==> u == v)
                    },
                    j <= neighbors@.len(),
                    forall|e: int| 0 <= e < j ==> g_cost@[(#[trigger] neighbors@[e]).0 as int] != u64::MAX,
                    open@.len() <= open_at_close.len() + j,
                    self.search_core(map@, wi, hi, from, to, g_cost@, came_from@, closed@, open@, nclosed),
                    self.relaxed_except(map@, wi, hi, from, to, g_cost@, closed@, u as int),
                    self.opt_state(map@, wi, hi, from, to, g_cost@, came_from@, closed@, open@),
                    self.bound_except(map@, wi, hi, from, to, g_cost@, closed@, u as int),
                    forall|e: int| 0 <= e < j ==> closed@[(#[trigger] neighbors@[e]).0 as int]
                        || g_cost@[neighbors@[e].0 as int] <= gu + neighbors@[e].1,
                decreases neighbors.len() - j,
            {
                let (v, cost) = neighbors[j];
                let ng = gu + cost as u64;
                let ghost g_before = g_cost@;
                if ng < g_cost[v] {
                    let ghost came_before = came_from@;
                    let ghost open_before = open@;
                    let v_pos = if v == goal_vi { to } else if v == start_vi { from } else { self.subgoals[v] };
                    proof {
                        // A closed node already carries its least walk length, so it is never lowered.
                        if closed@[v as int] {
                            reveal(SubgoalGraph::search_core);
                            let pu = self.lemma_reach_walk(map@, wi, hi, from, to, g_cost@, came_from@, closed@, open@,
                                nclosed, u as int);
                            let pv = pu.push(v as int);
                            self.lemma_nbrs(map@, wi, hi, from, to, u as int);
                            assert(neighbors@[j as int] == self.search_nbrs(map@, wi, hi, from, to, u as int)[j as int]);
                            assert(self.search_edge(map@, wi, hi, from, to, u as int, v as int));
                            assert forall|i: int, k: int| 0 <= i && k == i + 1 && k < pv.len() implies
                                self.search_edge(map@, wi, hi, from, to, #[trigger] pv[i], #[trigger] pv[k]) by {
                                if k < pu.len() {
                                    assert(pv[i] == pu[i] && pv[k] == pu[k]);
                                    assert(self.search_edge(map@, wi, hi, from, to, pu[i], pu[k]));
                                }
                            }
                            self.lemma_seg_prefix(from, to, pv, pu, pu.len() - 1);
                            assert(pv[pu.len() - 1] == u as int);
                            assert(cost as int == manhattan(self.node_pos(from, to, u as int), self.node_pos(from, to, v as int)));
                            assert(self.walk_cost(from, to, pv) == self.walk_cost(from, to, pu)
                                + manhattan(self.node_pos(from, to, u as int), self.node_pos(from, to, v as int)));
                            assert(self.search_walk(map@, wi, hi, from, to, pv));
                            reveal(SubgoalGraph::opt_state);
                            assert(self.cost_at_least(map@, wi, hi, from, to, v as int, g_cost@[v as int] as int));
                            assert(pv[0] == self.start_node() && pv.last() == v as int);
                            assert(false);
                        }
                        if v < sg_count {
                            assert(open_at(map@, wi, hi, v_pos.0 as int, v_pos.1 as int));
                        }
                        lemma_manhattan_bound(ip(v_pos), ip(to), wi, hi);
                    }
                    let f = ng + dist(v_pos, to);
                    proof {
                        self.lemma_relax(map@, wi, hi, from, to, g_before, came_before, closed@, open_before, nclosed,
                            u as int, j as int, ng, f);
                        reveal(SubgoalGraph::search_core);
                        reveal(SubgoalGraph::parents_ok);
                        assert(ip(v_pos) == self.node_pos(from, to, v as int));
                        self.lemma_opt_relax(map@, wi, hi, from, to, g_before, came_before, closed@, open_before,
                            u as int, j as int, ng, f);
                    }
                    g_cost.set(v, ng);
                    came_from.set(v, u);
                    open.push((f, v));
                }
                proof {
                    reveal(SubgoalGraph::search_core);
                    assert forall|e: int| 0 <= e < j + 1 implies g_cost@[(#[trigger] neighbors@[e]).0 as int] != u64::MAX by {
                        if e < j {
                            assert(g_before[neighbors@[e].0 as int] != u64::MAX);
                        }
                    }
                    assert forall|x: int| 0 <= x < total implies #[trigger] g_cost@[x] <= g_before[x] by {}
                    assert forall|e: int| 0 <= e < j + 1 implies closed@[(#[trigger] neighbors@[e]).0 as int]
                        || g_cost@[neighbors@[e].0 as int] <= gu + neighbors@[e].1 by {
                        if e < j {
                            assert(g_cost@[neighbors@[e].0 as int] <= g_before[neighbors@[e].0 as int]);
                        }
                    }
                }
                j = j + 1;
            }
            proof {
                assert forall|e: int| 0 <= e < self.search_nbrs(map@, wi, hi, from, to, u as int).len() implies
                    g_cost@[(#[trigger] self.search_nbrs(map@, wi, hi, from, to, u as int)[e]).0 as int] != u64::MAX by {
                    assert(neighbors@[e] == self.search_nbrs(map@, wi, hi, from, to, u as int)[e]);
                }
                self.lemma_relaxed_all(map@, wi, hi, from, to, g_cost@, closed@, u as int);
                assert forall|e: int| 0 <= e < self.search_nbrs(map@, wi, hi, from, to, u as int).len() implies
                    closed@[(#[trigger] self.search_nbrs(map@, wi, hi, from, to, u as int)[e]).0 as int]
                    || g_cost@[self.search_nbrs(map@, wi, hi, from, to, u as int)[e].0 as int]
                        <= g_cost@[u as int] + self.search_nbrs(map@, wi, hi, from, to, u as int)[e].1 by {
                    assert(neighbors@[e] == self.search_nbrs(map@, wi, hi, from, to, u as int)[e]);
                }
                self.lemma_bound_all(map@, wi, hi, from, to, g_cost@, closed@, u as int);
            }
        }
        proof {
            reveal(SubgoalGraph::search_core);
            assert forall|v: int| 0 <= v < total && #[trigger] g_cost@[v] != u64::MAX implies closed@[v] by {
                if !closed@[v] {
                    let jj = choose|jj: int| 0 <= jj < open@.len() && open@[jj].1 == v;
                    assert(open@.len() == 0);
                }
            }
            if self.graph_reaches(map@, wi, hi, from, to) {
                let p = choose|p: Seq<int>| #[trigger] self.search_walk(map@, wi, hi, from, to, p)
                    && p[0] == self.start_node() && p.last() == self.goal_node();
                self.lemma_walk_reached(map@, wi, hi, from, to, g_cost@, closed@, p, p.len() - 1);
                assert(closed@[goal_vi as int]);
            }
        }
        None
    }
}

} // verus!
