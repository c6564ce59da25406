//! Lines of sight on the tile grid, traced with Bresenham's algorithm.

use vstd::prelude::*;
use crate::cell::{Cell, Terrain, grid_ok, in_grid, flat, open_at, lemma_flat_in_range, idx};

verus! {

/// `|v|`.
pub open spec fn iabs(v: int) -> int {
    if v < 0 { -v } else { v }
}

/// Step sign toward the target along one axis (`-1` when equal).
pub open spec fn step_sign(from: int, to: int) -> int {
    if from < to { 1 } else { -1 }
}

/// One Bresenham step of the line from `a` to `b` at `(x, y)` with error
/// term `e`; both moves are decided on the error before the step.
pub open spec fn bres_step(a: (int, int), b: (int, int), x: int, y: int, e: int) -> (int, int, int) {
    let dx = iabs(b.0 - a.0);
    let dy = iabs(b.1 - a.1);
    let e2 = 2 * e;
    let (x1, e1) = if e2 > -dy { (x + step_sign(a.0, b.0), e - dy) } else { (x, e) };
    let (y1, e3) = if e2 < dx { (y + step_sign(a.1, b.1), e1 + dx) } else { (y, e1) };
    (x1, y1, e3)
}

/// State `(x, y, e)` of the Bresenham line from `a` to `b` after `k` steps.
pub open spec fn bres_state(a: (int, int), b: (int, int), k: nat) -> (int, int, int)
    decreases k,
{
    if k == 0 {
        (a.0, a.1, iabs(b.0 - a.0) - iabs(b.1 - a.1))
    } else {
        let (x, y, e) = bres_state(a, b, (k - 1) as nat);
        bres_step(a, b, x, y, e)
    }
}

/// The `k`-th cell of the Bresenham line from `a` to `b`.
pub open spec fn bres_pos(a: (int, int), b: (int, int), k: nat) -> (int, int) {
    (bres_state(a, b, k).0, bres_state(a, b, k).1)
}

/// The line reaches `b` at step `k` or earlier.
pub open spec fn bres_done(a: (int, int), b: (int, int), k: nat) -> bool {
    exists|j: nat| j < k && #[trigger] bres_pos(a, b, j) == b
}

/// Invariant of the traced line: moved `X` and `Y` cells toward `b` with
/// `0 <= X <= dx`, `0 <= Y <= dy`, and the error term the closed form of
/// those moves, within `[-2 dy, 2 dx]`.
pub open spec fn bres_inv(a: (int, int), b: (int, int), x: int, y: int, e: int) -> bool {
    let dx = iabs(b.0 - a.0);
    let dy = iabs(b.1 - a.1);
    let xs = iabs(x - a.0);
    let ys = iabs(y - a.1);
    &&& xs <= dx
    &&& ys <= dy
    &&& x == a.0 + step_sign(a.0, b.0) * xs
    &&& y == a.1 + step_sign(a.1, b.1) * ys
    &&& e == dx - dy - xs * dy + ys * dx
    &&& -2 * dy <= e <= 2 * dx
}

/// Distance left to walk on the traced line.
pub open spec fn bres_left(a: (int, int), b: (int, int), x: int, y: int) -> int {
    (iabs(b.0 - a.0) - iabs(x - a.0)) + (iabs(b.1 - a.1) - iabs(y - a.1))
}

/// Bresenham steps never overshoot `b` and always move while short of it.
pub proof fn lemma_bres_step(a: (int, int), b: (int, int), x: int, y: int, e: int)
    requires
        bres_inv(a, b, x, y, e),
        (x, y) != b,
    ensures
        ({
            let (x1, y1, e1) = bres_step(a, b, x, y, e);
            &&& bres_inv(a, b, x1, y1, e1)
            &&& 0 <= bres_left(a, b, x1, y1) < bres_left(a, b, x, y)
            &&& vstd::math::min(a.0, b.0) <= x1 <= vstd::math::max(a.0, b.0)
            &&& vstd::math::min(a.1, b.1) <= y1 <= vstd::math::max(a.1, b.1)
        }),
{
    let dx = iabs(b.0 - a.0);
    let dy = iabs(b.1 - a.1);
    let xs = iabs(x - a.0);
    let ys = iabs(y - a.1);
    let e2 = 2 * e;
    if xs == dx && ys < dy {
        assert(e <= -dy) by (nonlinear_arith)
            requires e == dx - dy - xs * dy + ys * dx, xs == dx, ys + 1 <= dy, 0 <= dx, 0 <= dy;
    }
    if ys == dy && xs < dx {
        assert(e >= dx) by (nonlinear_arith)
            requires e == dx - dy - xs * dy + ys * dx, ys == dy, xs + 1 <= dx, 0 <= dx, 0 <= dy;
    }
    let sx = step_sign(a.0, b.0);
    let sy = step_sign(a.1, b.1);
    if a.0 < b.0 {
        assert(x == a.0 + xs);
    } else {
        assert(x == a.0 - xs);
    }
    if a.1 < b.1 {
        assert(y == a.1 + ys);
    } else {
        assert(y == a.1 - ys);
    }
    if xs == dx && ys == dy {
        assert(x == b.0 && y == b.1);
    }
    let xm = e2 > -dy;
    let ym = e2 < dx;
    assert(xm || ym);
    let xs1 = if xm { xs + 1 } else { xs };
    let ys1 = if ym { ys + 1 } else { ys };
    let (x1, y1, e1) = bres_step(a, b, x, y, e);
    assert(iabs(x1 - a.0) == xs1 && x1 == a.0 + sx * xs1) by {
        if a.0 < b.0 {
            assert(x1 == a.0 + xs1);
        } else {
            assert(x1 == a.0 - xs1);
        }
    }
    assert(iabs(y1 - a.1) == ys1 && y1 == a.1 + sy * ys1) by {
        if a.1 < b.1 {
            assert(y1 == a.1 + ys1);
        } else {
            assert(y1 == a.1 - ys1);
        }
    }
    assert(e1 == dx - dy - xs1 * dy + ys1 * dx) by (nonlinear_arith)
        requires
            e == dx - dy - xs * dy + ys * dx,
            e1 == e - (if xm { dy } else { 0 }) + (if ym { dx } else { 0 }),
            xs1 == (if xm { xs + 1 } else { xs }),
            ys1 == (if ym { ys + 1 } else { ys });
}

/// Vision passes `(x, y)`: on the grid, and not blocking sight (an open
/// door blocks only when `door_blocks` holds).
pub open spec fn sees_through(map: Seq<Cell>, w: int, h: int, door_blocks: bool, x: int, y: int) -> bool {
    &&& in_grid(x, y, w, h)
    &&& !map[flat(x, y, w)].terrain.spec_blocks_vision()
    &&& !(map[flat(x, y, w)].terrain == Terrain::DoorOpen && door_blocks)
}

/// Every cell of the line from `a` up to where it reaches `b` sees through.
pub open spec fn vision_clear(map: Seq<Cell>, w: int, h: int, door_blocks: bool, a: (int, int), b: (int, int)) -> bool {
    forall|k: nat| !bres_done(a, b, k) ==> #[trigger] sees_through(map, w, h, door_blocks, bres_pos(a, b, k).0, bres_pos(a, b, k).1)
}

/// Every cell of the line from `a` up to where it reaches `b` is walkable.
pub open spec fn walk_clear(map: Seq<Cell>, w: int, h: int, a: (int, int), b: (int, int)) -> bool {
    forall|k: nat| !bres_done(a, b, k) ==> #[trigger] open_at(map, w, h, bres_pos(a, b, k).0, bres_pos(a, b, k).1)
}

/// A line cell and the neighbours across the line are walkable: left and
/// right when the line moves vertically at all, above and below when it
/// moves horizontally at all.
pub open spec fn thick_at(map: Seq<Cell>, w: int, h: int, a: (int, int), b: (int, int), x: int, y: int) -> bool {
    &&& open_at(map, w, h, x, y)
    &&& (iabs(b.1 - a.1) > 0 ==> open_at(map, w, h, x - 1, y) && open_at(map, w, h, x + 1, y))
    &&& (iabs(b.0 - a.0) > 0 ==> open_at(map, w, h, x, y - 1) && open_at(map, w, h, x, y + 1))
}

/// Every cell of the line from `a` up to where it reaches `b` is walkable
/// together with its cross neighbours.
pub open spec fn thick_clear(map: Seq<Cell>, w: int, h: int, a: (int, int), b: (int, int)) -> bool {
    forall|k: nat| !bres_done(a, b, k) ==> #[trigger] thick_at(map, w, h, a, b, bres_pos(a, b, k).0, bres_pos(a, b, k).1)
}

/// Widen an `i32` position.
pub open spec fn wpos(p: (i32, i32)) -> (int, int) {
    (p.0 as int, p.1 as int)
}

proof fn lemma_bres_start(a: (int, int), b: (int, int))
    ensures
        bres_inv(a, b, a.0, a.1, iabs(b.0 - a.0) - iabs(b.1 - a.1)),
        !bres_done(a, b, 0),
{
}

/// After the step at `k` (with `pos(k) != b`), the line is not done at
/// `k + 1` either.
proof fn lemma_not_done_next(a: (int, int), b: (int, int), k: nat)
    requires
        !bres_done(a, b, k),
        bres_pos(a, b, k) != b,
    ensures
        !bres_done(a, b, k + 1),
{
    assert forall|j: nat| j < k + 1 implies #[trigger] bres_pos(a, b, j) != b by {
        if j < k {
            assert(!(j < k && bres_pos(a, b, j) == b));
        }
    }
}

/// Once the line reaches `b` at step `k`, it is done for every later step.
proof fn lemma_done_after(a: (int, int), b: (int, int), k: nat, k2: nat)
    requires
        bres_pos(a, b, k) == b,
        k < k2,
    ensures
        bres_done(a, b, k2),
{
}

/// Until it reaches `b`, the traced line keeps its invariant and shortens
/// the distance left by at least one per step.
proof fn lemma_line_walk(a: (int, int), b: (int, int), k: nat)
    requires
        forall|j: nat| j < k ==> #[trigger] bres_pos(a, b, j) != b,
    ensures
        ({
            let (x, y, e) = bres_state(a, b, k);
            &&& bres_inv(a, b, x, y, e)
            &&& bres_left(a, b, x, y) <= iabs(b.0 - a.0) + iabs(b.1 - a.1) - k
        }),
    decreases k,
{
    if k == 0 {
        lemma_bres_start(a, b);
    } else {
        let k0 = (k - 1) as nat;
        assert forall|j: nat| j < k0 implies #[trigger] bres_pos(a, b, j) != b by {
            assert(bres_pos(a, b, j) != b);
        }
        lemma_line_walk(a, b, k0);
        let (x, y, e) = bres_state(a, b, k0);
        assert(bres_pos(a, b, k0) != b);
        lemma_bres_step(a, b, x, y, e);
    }
}

/// The Bresenham line from `a` reaches `b` within `|dx| + |dy|` steps, and
/// each step moves each coordinate by at most one cell.
pub proof fn lemma_line_reaches(a: (int, int), b: (int, int))
    ensures
        exists|k: nat| k <= iabs(b.0 - a.0) + iabs(b.1 - a.1) && #[trigger] bres_pos(a, b, k) == b,
        bres_pos(a, b, 0) == a,
        forall|k: nat| iabs((#[trigger] bres_pos(a, b, k + 1)).0 - bres_pos(a, b, k).0) <= 1
            && iabs(bres_pos(a, b, k + 1).1 - bres_pos(a, b, k).1) <= 1,
{
    let l = iabs(b.0 - a.0) + iabs(b.1 - a.1);
    if !(exists|k: nat| k <= l && #[trigger] bres_pos(a, b, k) == b) {
        let ln = l as nat;
        assert forall|j: nat| j < ln implies #[trigger] bres_pos(a, b, j) != b by {
            assert(!(j <= l && bres_pos(a, b, j) == b));
        }
        lemma_line_walk(a, b, ln);
        let (x, y, e) = bres_state(a, b, ln);
        let xs = iabs(x - a.0);
        let ys = iabs(y - a.1);
        if a.0 < b.0 {
            assert(x == a.0 + xs);
        } else {
            assert(x == a.0 - xs) by (nonlinear_arith)
                requires x == a.0 + step_sign(a.0, b.0) * xs, step_sign(a.0, b.0) == -1;
        }
        if a.1 < b.1 {
            assert(y == a.1 + ys);
        } else {
            assert(y == a.1 - ys) by (nonlinear_arith)
                requires y == a.1 + step_sign(a.1, b.1) * ys, step_sign(a.1, b.1) == -1;
        }
        assert(bres_pos(a, b, ln) == b);
    }
    assert forall|k: nat| iabs((#[trigger] bres_pos(a, b, k + 1)).0 - bres_pos(a, b, k).0) <= 1
        && iabs(bres_pos(a, b, k + 1).1 - bres_pos(a, b, k).1) <= 1 by {
        assert(bres_state(a, b, k + 1) == ({
            let (x, y, e) = bres_state(a, b, k);
            bres_step(a, b, x, y, e)
        }));
    }
}

/// Whether `(x, y)` is on the grid and walkable (coordinates widened).
fn open_at_wide(map: &[Cell], w: i32, h: i32, x: i64, y: i64) -> (b: bool)
    requires
        grid_ok(map@, w as int, h as int),
    ensures
        b == open_at(map@, w as int, h as int, x as int, y as int),
{
    if x < 0 || x >= w as i64 || y < 0 || y >= h as i64 {
        return false;
    }
    proof {
        lemma_flat_in_range(x as int, y as int, w as int, h as int);
    }
    map[idx(x as i32, y as i32, w)].terrain.is_walkable()
}

/// Bresenham line of sight for vision: every cell from `a` to `b` is on
/// the grid and does not block sight (open doors pass unless
/// `door_blocks_vision`).
pub fn line_of_sight_vision(map: &[Cell], map_w: i32, map_h: i32, a: (i32, i32), b: (i32, i32), door_blocks_vision: bool) -> (r: bool)
    requires
        grid_ok(map@, map_w as int, map_h as int),
    ensures
        r == vision_clear(map@, map_w as int, map_h as int, door_blocks_vision, wpos(a), wpos(b)),
{
    let ghost ai = wpos(a);
    let ghost bi = wpos(b);
    let ghost wi = map_w as int;
    let ghost hi = map_h as int;
    let mut x: i32 = a.0;
    let mut y: i32 = a.1;
    let dx: i64 = if b.0 >= a.0 { b.0 as i64 - a.0 as i64 } else { a.0 as i64 - b.0 as i64 };
    let dy: i64 = if b.1 >= a.1 { b.1 as i64 - a.1 as i64 } else { a.1 as i64 - b.1 as i64 };
    let sx: i32 = if a.0 < b.0 { 1 } else { -1 };
    let sy: i32 = if a.1 < b.1 { 1 } else { -1 };
    let mut err: i64 = dx - dy;
    let ghost mut k: nat = 0;
    proof {
        lemma_bres_start(ai, bi);
    }
    loop
        invariant
            grid_ok(map@, wi, hi),
            wi == map_w,
            hi == map_h,
            ai == wpos(a),
            bi == wpos(b),
            dx == iabs(bi.0 - ai.0),
            dy == iabs(bi.1 - ai.1),
            sx == step_sign(ai.0, bi.0),
            sy == step_sign(ai.1, bi.1),
            (x as int, y as int, err as int) == bres_state(ai, bi, k),
            bres_inv(ai, bi, x as int, y as int, err as int),
            !bres_done(ai, bi, k),
            forall|j: nat| j < k ==> #[trigger] sees_through(map@, wi, hi, door_blocks_vision, bres_pos(ai, bi, j).0, bres_pos(ai, bi, j).1),
        decreases bres_left(ai, bi, x as int, y as int),
    {
        if x < 0 || x >= map_w || y < 0 || y >= map_h {
            proof {
                assert(!sees_through(map@, wi, hi, door_blocks_vision, bres_pos(ai, bi, k).0, bres_pos(ai, bi, k).1));
            }
            return false;
        }
        proof {
            lemma_flat_in_range(x as int, y as int, wi, hi);
        }
        let terrain = map[idx(x, y, map_w)].terrain;
        let door_shut = door_blocks_vision && match terrain {
            Terrain::DoorOpen => true,
            _ => false,
        };
        if terrain.blocks_vision() || door_shut {
            proof {
                assert(!sees_through(map@, wi, hi, door_blocks_vision, bres_pos(ai, bi, k).0, bres_pos(ai, bi, k).1));
            }
            return false;
        }
        if x == b.0 && y == b.1 {
            proof {
                assert forall|kk: nat| !bres_done(ai, bi, kk) implies
                    #[trigger] sees_through(map@, wi, hi, door_blocks_vision, bres_pos(ai, bi, kk).0, bres_pos(ai, bi, kk).1) by {
                    if kk > k {
                        lemma_done_after(ai, bi, k, kk);
                    }
                }
            }
            return true;
        }
        proof {
            lemma_bres_step(ai, bi, x as int, y as int, err as int);
            lemma_not_done_next(ai, bi, k);
        }
        let e2 = 2 * err;
        if e2 > -dy {
            err = err - dy;
            x = x + sx;
        }
        if e2 < dx {
            err = err + dx;
            y = y + sy;
        }
        proof {
            k = k + 1;
        }
    }
}

/// Bresenham line of sight for walking: every cell from `a` to `b` is on
/// the grid and walkable.
pub fn line_of_sight(map: &[Cell], map_w: i32, map_h: i32, a: (i32, i32), b: (i32, i32)) -> (r: bool)
    requires
        grid_ok(map@, map_w as int, map_h as int),
    ensures
        r == walk_clear(map@, map_w as int, map_h as int, wpos(a), wpos(b)),
{
    let ghost ai = wpos(a);
    let ghost bi = wpos(b);
    let ghost wi = map_w as int;
    let ghost hi = map_h as int;
    let mut x: i32 = a.0;
    let mut y: i32 = a.1;
    let dx: i64 = if b.0 >= a.0 { b.0 as i64 - a.0 as i64 } else { a.0 as i64 - b.0 as i64 };
    let dy: i64 = if b.1 >= a.1 { b.1 as i64 - a.1 as i64 } else { a.1 as i64 - b.1 as i64 };
    let sx: i32 = if a.0 < b.0 { 1 } else { -1 };
    let sy: i32 = if a.1 < b.1 { 1 } else { -1 };
    let mut err: i64 = dx - dy;
    let ghost mut k: nat = 0;
    proof {
        lemma_bres_start(ai, bi);
    }
    loop
        invariant
            grid_ok(map@, wi, hi),
            wi == map_w,
            hi == map_h,
            ai == wpos(a),
            bi == wpos(b),
            dx == iabs(bi.0 - ai.0),
            dy == iabs(bi.1 - ai.1),
            sx == step_sign(ai.0, bi.0),
            sy == step_sign(ai.1, bi.1),
            (x as int, y as int, err as int) == bres_state(ai, bi, k),
            bres_inv(ai, bi, x as int, y as int, err as int),
            !bres_done(ai, bi, k),
            forall|j: nat| j < k ==> #[trigger] open_at(map@, wi, hi, bres_pos(ai, bi, j).0, bres_pos(ai, bi, j).1),
        decreases bres_left(ai, bi, x as int, y as int),
    {
        if x < 0 || x >= map_w || y < 0 || y >= map_h {
            proof {
                assert(!open_at(map@, wi, hi, bres_pos(ai, bi, k).0, bres_pos(ai, bi, k).1));
            }
            return false;
        }
        proof {
            lemma_flat_in_range(x as int, y as int, wi, hi);
        }
        if !map[idx(x, y, map_w)].is_walkable() {
            proof {
                assert(!open_at(map@, wi, hi, bres_pos(ai, bi, k).0, bres_pos(ai, bi, k).1));
            }
            return false;
        }
        if x == b.0 && y == b.1 {
            proof {
                assert forall|kk: nat| !bres_done(ai, bi, kk) implies
                    #[trigger] open_at(map@, wi, hi, bres_pos(ai, bi, kk).0, bres_pos(ai, bi, kk).1) by {
                    if kk > k {
                        lemma_done_after(ai, bi, k, kk);
                    }
                }
            }
            return true;
        }
        proof {
            lemma_bres_step(ai, bi, x as int, y as int, err as int);
            lemma_not_done_next(ai, bi, k);
        }
        let e2 = 2 * err;
        if e2 > -dy {
            err = err - dy;
            x = x + sx;
        }
        if e2 < dx {
            err = err + dx;
            y = y + sy;
        }
        proof {
            k = k + 1;
        }
    }
}

/// Thick line of sight: every cell of the Bresenham line from `a` to `b`
/// is walkable together with its neighbours across the line, so a body
/// with a collision radius can follow it without clipping wall corners.
pub fn line_of_sight_thick(map: &[Cell], map_w: i32, map_h: i32, a: (i32, i32), b: (i32, i32)) -> (r: bool)
    requires
        grid_ok(map@, map_w as int, map_h as int),
    ensures
        r == thick_clear(map@, map_w as int, map_h as int, wpos(a), wpos(b)),
{
    let ghost ai = wpos(a);
    let ghost bi = wpos(b);
    let ghost wi = map_w as int;
    let ghost hi = map_h as int;
    let mut x: i32 = a.0;
    let mut y: i32 = a.1;
    let adx: i64 = if b.0 >= a.0 { b.0 as i64 - a.0 as i64 } else { a.0 as i64 - b.0 as i64 };
    let ady: i64 = if b.1 >= a.1 { b.1 as i64 - a.1 as i64 } else { a.1 as i64 - b.1 as i64 };
    let sx: i32 = if a.0 < b.0 { 1 } else { -1 };
    let sy: i32 = if a.1 < b.1 { 1 } else { -1 };
    let mut err: i64 = adx - ady;
    let expand_x = ady > 0;
    let expand_y = adx > 0;
    let ghost mut k: nat = 0;
    proof {
        lemma_bres_start(ai, bi);
    }
    loop
        invariant
            grid_ok(map@, wi, hi),
            wi == map_w,
            hi == map_h,
            ai == wpos(a),
            bi == wpos(b),
            adx == iabs(bi.0 - ai.0),
            ady == iabs(bi.1 - ai.1),
            expand_x == (ady > 0),
            expand_y == (adx > 0),
            sx == step_sign(ai.0, bi.0),
            sy == step_sign(ai.1, bi.1),
            (x as int, y as int, err as int) == bres_state(ai, bi, k),
            bres_inv(ai, bi, x as int, y as int, err as int),
            !bres_done(ai, bi, k),
            forall|j: nat| j < k ==> #[trigger] thick_at(map@, wi, hi, ai, bi, bres_pos(ai, bi, j).0, bres_pos(ai, bi, j).1),
        decreases bres_left(ai, bi, x as int, y as int),
    {
        let xw = x as i64;
        let yw = y as i64;
        if !open_at_wide(map, map_w, map_h, xw, yw) {
            proof {
                assert(!thick_at(map@, wi, hi, ai, bi, bres_pos(ai, bi, k).0, bres_pos(ai, bi, k).1));
            }
            return false;
        }
        if expand_x {
            if !open_at_wide(map, map_w, map_h, xw - 1, yw) || !open_at_wide(map, map_w, map_h, xw + 1, yw) {
                proof {
                    assert(!thick_at(map@, wi, hi, ai, bi, bres_pos(ai, bi, k).0, bres_pos(ai, bi, k).1));
                }
                return false;
            }
        }
        if expand_y {
            if !open_at_wide(map, map_w, map_h, xw, yw - 1) || !open_at_wide(map, map_w, map_h, xw, yw + 1) {
                proof {
                    assert(!thick_at(map@, wi, hi, ai, bi, bres_pos(ai, bi, k).0, bres_pos(ai, bi, k).1));
                }
                return false;
            }
        }
        proof {
            assert(thick_at(map@, wi, hi, ai, bi, bres_pos(ai, bi, k).0, bres_pos(ai, bi, k).1));
        }
        if x == b.0 && y == b.1 {
            proof {
                assert forall|kk: nat| !bres_done(ai, bi, kk) implies
                    #[trigger] thick_at(map@, wi, hi, ai, bi, bres_pos(ai, bi, kk).0, bres_pos(ai, bi, kk).1) by {
                    if kk > k {
                        lemma_done_after(ai, bi, k, kk);
                    }
                }
            }
            return true;
        }
        proof {
            lemma_bres_step(ai, bi, x as int, y as int, err as int);
            lemma_not_done_next(ai, bi, k);
        }
        let e2 = 2 * err;
        if e2 > -ady {
            err = err - ady;
            x = x + sx;
        }
        if e2 < adx {
            err = err + adx;
            y = y + sy;
        }
        proof {
            k = k + 1;
        }
    }
}

/// The farthest waypoint among `anchor + 2 .. end` that `p[anchor]` sees by
/// thick line of sight, else the next waypoint.
pub open spec fn far_from(map: Seq<Cell>, w: int, h: int, p: Seq<(i32, i32)>, anchor: int, end: int) -> int
    decreases end - anchor,
{
    if end <= anchor + 2 {
        anchor + 1
    } else if thick_clear(map, w, h, wpos(p[anchor]), wpos(p[end - 1])) {
        end - 1
    } else {
        far_from(map, w, h, p, anchor, end - 1)
    }
}

proof fn lemma_far_range(map: Seq<Cell>, w: int, h: int, p: Seq<(i32, i32)>, anchor: int, end: int)
    requires
        anchor + 1 < end,
    ensures
        anchor < far_from(map, w, h, p, anchor, end) < end,
    decreases end - anchor,
{
    if end > anchor + 2 {
        lemma_far_range(map, w, h, p, anchor, end - 1);
    }
}

/// The waypoints kept after `anchor`: each step jumps to the farthest
/// waypoint in thick line of sight.
pub open spec fn smooth_tail(map: Seq<Cell>, w: int, h: int, p: Seq<(i32, i32)>, anchor: int) -> Seq<(i32, i32)>
    decreases p.len() - anchor,
{
    if anchor < 0 || anchor >= p.len() - 1 {
        Seq::empty()
    } else {
        let f = far_from(map, w, h, p, anchor, p.len() as int);
        if anchor < f < p.len() {
            seq![p[f]] + smooth_tail(map, w, h, p, f)
        } else {
            Seq::empty()
        }
    }
}

/// Path of at most two waypoints unchanged; else the first waypoint and
/// then the greedy farthest-visible waypoints to the end.
pub open spec fn smoothed(map: Seq<Cell>, w: int, h: int, p: Seq<(i32, i32)>) -> Seq<(i32, i32)> {
    if p.len() <= 2 { p } else { seq![p[0]] + smooth_tail(map, w, h, p, 0) }
}

/// The waypoint chosen after `anchor` is the next one or one in thick line
/// of sight of it.
proof fn lemma_far_clear(map: Seq<Cell>, w: int, h: int, p: Seq<(i32, i32)>, anchor: int, end: int)
    ensures
        far_from(map, w, h, p, anchor, end) == anchor + 1
            || thick_clear(map, w, h, wpos(p[anchor]), wpos(p[far_from(map, w, h, p, anchor, end)])),
    decreases end - anchor,
{
    if end > anchor + 2 && !thick_clear(map, w, h, wpos(p[anchor]), wpos(p[end - 1])) {
        lemma_far_clear(map, w, h, p, anchor, end - 1);
    }
}

/// Every step of `p[anchor]` followed by its smoothed tail is thick-clear
/// or joins two waypoints adjacent in `p`.
proof fn lemma_tail_steps(map: Seq<Cell>, w: int, h: int, p: Seq<(i32, i32)>, anchor: int)
    requires
        0 <= anchor < p.len(),
    ensures
        ({
            let s = seq![p[anchor]] + smooth_tail(map, w, h, p, anchor);
            forall|i: int| 0 <= i < s.len() - 1 ==>
                thick_clear(map, w, h, wpos(#[trigger] s[i]), wpos(s[i + 1]))
                || exists|j: int| 0 <= j < p.len() - 1 && #[trigger] p[j] == s[i] && p[j + 1] == s[i + 1]
        }),
    decreases p.len() - anchor,
{
    let s = seq![p[anchor]] + smooth_tail(map, w, h, p, anchor);
    if anchor < p.len() - 1 {
        let f = far_from(map, w, h, p, anchor, p.len() as int);
        lemma_far_range(map, w, h, p, anchor, p.len() as int);
        lemma_far_clear(map, w, h, p, anchor, p.len() as int);
        lemma_tail_steps(map, w, h, p, f);
        let s2 = seq![p[f]] + smooth_tail(map, w, h, p, f);
        assert(s =~= seq![p[anchor]] + s2);
        assert forall|i: int| 0 <= i < s.len() - 1 implies
            thick_clear(map, w, h, wpos(#[trigger] s[i]), wpos(s[i + 1]))
            || exists|j: int| 0 <= j < p.len() - 1 && #[trigger] p[j] == s[i] && p[j + 1] == s[i + 1] by {
            if i == 0 {
                if f == anchor + 1 {
                    assert(p[anchor] == s[0] && p[anchor + 1] == s[1]);
                }
            } else {
                assert(s[i] == s2[i - 1] && s[i + 1] == s2[i]);
            }
        }
    }
}

/// Positions in `p` of the waypoints kept after `anchor` by smoothing.
pub open spec fn tail_idx(map: Seq<Cell>, w: int, h: int, p: Seq<(i32, i32)>, anchor: int) -> Seq<int>
    decreases p.len() - anchor,
{
    if anchor < 0 || anchor >= p.len() - 1 {
        Seq::empty()
    } else {
        let f = far_from(map, w, h, p, anchor, p.len() as int);
        if anchor < f < p.len() {
            seq![f] + tail_idx(map, w, h, p, f)
        } else {
            Seq::empty()
        }
    }
}

/// `q` is `p` taken at the increasing positions `idx`, ending at the last
/// waypoint; each step goes to the next waypoint or to one in thick line of
/// sight, and no waypoint after the one chosen is in thick line of sight.
pub open spec fn greedy_walk(map: Seq<Cell>, w: int, h: int, p: Seq<(i32, i32)>, q: Seq<(i32, i32)>, idx: Seq<int>) -> bool {
    &&& idx.len() == q.len()
    &&& q.len() >= 1
    &&& idx.last() == p.len() - 1
    &&& forall|i: int| 0 <= i < q.len() ==> 0 <= #[trigger] idx[i] < p.len() && q[i] == p[idx[i]]
    &&& forall|i: int| 0 <= i < q.len() - 1 ==> {
        &&& #[trigger] idx[i] < idx[i + 1]
        &&& (idx[i + 1] == idx[i] + 1 || thick_clear(map, w, h, wpos(p[idx[i]]), wpos(p[idx[i + 1]])))
        &&& forall|j: int| idx[i + 1] < j < p.len() ==> !thick_clear(map, w, h, wpos(p[idx[i]]), wpos(#[trigger] p[j]))
    }
}

/// No waypoint after the chosen one is in thick line of sight of the anchor.
proof fn lemma_far_max(map: Seq<Cell>, w: int, h: int, p: Seq<(i32, i32)>, anchor: int, end: int)
    ensures
        forall|j: int| far_from(map, w, h, p, anchor, end) < j < end ==>
            !thick_clear(map, w, h, wpos(p[anchor]), wpos(#[trigger] p[j])),
    decreases end - anchor,
{
    if end > anchor + 2 && !thick_clear(map, w, h, wpos(p[anchor]), wpos(p[end - 1])) {
        lemma_far_max(map, w, h, p, anchor, end - 1);
    }
}

proof fn lemma_tail_greedy(map: Seq<Cell>, w: int, h: int, p: Seq<(i32, i32)>, anchor: int)
    requires
        0 <= anchor < p.len(),
    ensures
        greedy_walk(map, w, h, p, seq![p[anchor]] + smooth_tail(map, w, h, p, anchor),
            seq![anchor] + tail_idx(map, w, h, p, anchor)),
    decreases p.len() - anchor,
{
    let s = seq![p[anchor]] + smooth_tail(map, w, h, p, anchor);
    let idx = seq![anchor] + tail_idx(map, w, h, p, anchor);
    if anchor >= p.len() - 1 {
        assert(s =~= seq![p[anchor]]);
        assert(idx =~= seq![anchor]);
    } else {
        let f = far_from(map, w, h, p, anchor, p.len() as int);
        lemma_far_range(map, w, h, p, anchor, p.len() as int);
        lemma_far_clear(map, w, h, p, anchor, p.len() as int);
        lemma_far_max(map, w, h, p, anchor, p.len() as int);
        lemma_tail_greedy(map, w, h, p, f);
        let s2 = seq![p[f]] + smooth_tail(map, w, h, p, f);
        let idx2 = seq![f] + tail_idx(map, w, h, p, f);
        assert(s =~= seq![p[anchor]] + s2);
        assert(idx =~= seq![anchor] + idx2);
        assert forall|i: int| 0 <= i < s.len() implies 0 <= #[trigger] idx[i] < p.len() && s[i] == p[idx[i]] by {
            if i > 0 {
                assert(idx[i] == idx2[i - 1] && s[i] == s2[i - 1]);
            }
        }
        assert forall|i: int| 0 <= i < s.len() - 1 implies {
            &&& #[trigger] idx[i] < idx[i + 1]
            &&& (idx[i + 1] == idx[i] + 1 || thick_clear(map, w, h, wpos(p[idx[i]]), wpos(p[idx[i + 1]])))
            &&& forall|j: int| idx[i + 1] < j < p.len() ==> !thick_clear(map, w, h, wpos(p[idx[i]]), wpos(#[trigger] p[j]))
        } by {
            if i > 0 {
                assert(idx[i] == idx2[i - 1] && idx[i + 1] == idx2[i]);
            } else {
                assert(idx[0] == anchor && idx[1] == f);
            }
        }
    }
}

/// Smoothing is greedy: the smoothed path keeps the first and last waypoints
/// and a subsequence in between, each kept waypoint followed by the next one
/// or by one in thick line of sight, and never by an earlier one than the
/// farthest waypoint in thick line of sight.
pub proof fn lemma_smoothed_greedy(map: Seq<Cell>, w: int, h: int, p: Seq<(i32, i32)>)
    requires
        p.len() >= 1,
    ensures
        exists|idx: Seq<int>| #[trigger] greedy_walk(map, w, h, p, smoothed(map, w, h, p), idx) && idx[0] == 0,
{
    let q = smoothed(map, w, h, p);
    if p.len() <= 2 {
        let idx: Seq<int> = if p.len() == 1 { seq![0int] } else { seq![0int, 1int] };
        assert(greedy_walk(map, w, h, p, q, idx));
    } else {
        lemma_tail_greedy(map, w, h, p, 0);
        let idx = seq![0int] + tail_idx(map, w, h, p, 0);
        assert(greedy_walk(map, w, h, p, q, idx));
    }
}

/// Smoothing keeps clearance: every step of a smoothed path is clear by
/// thick line of sight (each line cell and its side neighbours walkable),
/// except a step between two waypoints that were already adjacent in the
/// input path.
pub proof fn lemma_smoothed_clear(map: Seq<Cell>, w: int, h: int, p: Seq<(i32, i32)>)
    ensures
        ({
            let q = smoothed(map, w, h, p);
            forall|i: int| 0 <= i < q.len() - 1 ==>
                thick_clear(map, w, h, wpos(#[trigger] q[i]), wpos(q[i + 1]))
                || exists|j: int| 0 <= j < p.len() - 1 && #[trigger] p[j] == q[i] && p[j + 1] == q[i + 1]
        }),
{
    let q = smoothed(map, w, h, p);
    if p.len() <= 2 {
        assert forall|i: int| 0 <= i < q.len() - 1 implies
            thick_clear(map, w, h, wpos(#[trigger] q[i]), wpos(q[i + 1]))
            || exists|j: int| 0 <= j < p.len() - 1 && #[trigger] p[j] == q[i] && p[j + 1] == q[i + 1] by {
            assert(p[i] == q[i] && p[i + 1] == q[i + 1]);
        }
    } else {
        lemma_tail_steps(map, w, h, p, 0);
    }
}

/// The smoothed tail from `anchor` ends at the last waypoint.
proof fn lemma_tail_end(map: Seq<Cell>, w: int, h: int, p: Seq<(i32, i32)>, anchor: int)
    requires
        0 <= anchor < p.len() - 1,
    ensures
        smooth_tail(map, w, h, p, anchor).len() >= 1,
        smooth_tail(map, w, h, p, anchor).last() == p.last(),
    decreases p.len() - anchor,
{
    let f = far_from(map, w, h, p, anchor, p.len() as int);
    lemma_far_range(map, w, h, p, anchor, p.len() as int);
    if f < p.len() - 1 {
        lemma_tail_end(map, w, h, p, f);
    } else {
        assert(smooth_tail(map, w, h, p, f) =~= Seq::<(i32, i32)>::empty());
    }
}

/// Smoothing keeps the first and the last waypoint.
pub proof fn lemma_smoothed_ends(map: Seq<Cell>, w: int, h: int, p: Seq<(i32, i32)>)
    requires
        p.len() >= 1,
    ensures
        smoothed(map, w, h, p).len() >= 1,
        smoothed(map, w, h, p)[0] == p[0],
        smoothed(map, w, h, p).last() == p.last(),
{
    if p.len() > 2 {
        lemma_tail_end(map, w, h, p, 0);
    }
}

/// Remove redundant waypoints: from each kept waypoint jump to the farthest
/// later one in thick line of sight (or the next one).
pub fn smooth_path(path: &mut Vec<(i32, i32)>, map: &[Cell], map_w: i32, map_h: i32)
    requires
        grid_ok(map@, map_w as int, map_h as int),
    ensures
        final(path)@ == smoothed(map@, map_w as int, map_h as int, old(path)@),
        forall|i: int| 0 <= i < final(path)@.len() - 1 ==>
            thick_clear(map@, map_w as int, map_h as int, wpos(#[trigger] final(path)@[i]), wpos(final(path)@[i + 1]))
            || exists|j: int| 0 <= j < old(path)@.len() - 1 && #[trigger] old(path)@[j] == final(path)@[i]
                && old(path)@[j + 1] == final(path)@[i + 1],
        old(path)@.len() >= 1 ==> exists|idx: Seq<int>|
            #[trigger] greedy_walk(map@, map_w as int, map_h as int, old(path)@, final(path)@, idx) && idx[0] == 0,
{
    proof {
        lemma_smoothed_clear(map@, map_w as int, map_h as int, path@);
    }
    if path.len() <= 2 {
        proof {
            if path@.len() >= 1 {
                lemma_smoothed_greedy(map@, map_w as int, map_h as int, path@);
            }
        }
        return;
    }
    let ghost wi = map_w as int;
    let ghost hi = map_h as int;
    let ghost p0 = path@;
    let mut smoothed_v: Vec<(i32, i32)> = Vec::new();
    smoothed_v.push(path[0]);
    let mut anchor: usize = 0;
    while anchor < path.len() - 1
        invariant
            grid_ok(map@, wi, hi),
            wi == map_w,
            hi == map_h,
            path@ == p0,
            p0.len() > 2,
            anchor < p0.len(),
            smoothed_v@ + smooth_tail(map@, wi, hi, p0, anchor as int) == seq![p0[0]] + smooth_tail(map@, wi, hi, p0, 0),
        decreases p0.len() - anchor,
    {
        let mut farthest = anchor + 1;
        let mut probe = anchor + 2;
        while probe < path.len()
            invariant
                grid_ok(map@, wi, hi),
                wi == map_w,
                hi == map_h,
                path@ == p0,
                anchor + 2 <= probe <= p0.len(),
                anchor < p0.len() - 1,
                farthest == far_from(map@, wi, hi, p0, anchor as int, probe as int),
            decreases p0.len() - probe,
        {
            if line_of_sight_thick(map, map_w, map_h, path[anchor], path[probe]) {
                farthest = probe;
            }
            probe = probe + 1;
        }
        proof {
            lemma_far_range(map@, wi, hi, p0, anchor as int, p0.len() as int);
            let t = smooth_tail(map@, wi, hi, p0, anchor as int);
            assert(t == seq![p0[farthest as int]] + smooth_tail(map@, wi, hi, p0, farthest as int));
            assert(smoothed_v@.push(p0[farthest as int]) + smooth_tail(map@, wi, hi, p0, farthest as int)
                =~= smoothed_v@ + t);
        }
        smoothed_v.push(path[farthest]);
        anchor = farthest;
    }
    proof {
        assert(smooth_tail(map@, wi, hi, p0, anchor as int) =~= Seq::<(i32, i32)>::empty());
        assert(smoothed_v@ =~= smoothed_v@ + Seq::<(i32, i32)>::empty());
    }
    *path = smoothed_v;
    proof {
        lemma_smoothed_clear(map@, wi, hi, p0);
        lemma_smoothed_greedy(map@, wi, hi, p0);
        assert(path@ == smoothed(map@, wi, hi, p0));
    }
}

} // verus!
