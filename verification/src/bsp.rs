//! Binary space partition of the map interior into small leaf rectangles
//! separated by one-cell walls.

use vstd::prelude::*;
use crate::map_gen::{BspRect, WallLine, MapRng, MIN_ROOM_SIZE, MAX_ROOM_SIZE, rand_range};
use crate::grouping::area_sum;

verus! {

/// `r` lies inside `outer`.
pub open spec fn rect_within(r: BspRect, outer: BspRect) -> bool {
    outer.x <= r.x && r.x + r.w <= outer.x + outer.w && outer.y <= r.y && r.y + r.h <= outer.y + outer.h
}

/// `a` and `b` share no cell.
pub open spec fn rects_disjoint(a: BspRect, b: BspRect) -> bool {
    a.x + a.w <= b.x || b.x + b.w <= a.x || a.y + a.h <= b.y || b.y + b.h <= a.y
}

/// The wall lies inside `outer`.
pub open spec fn wall_within(wl: WallLine, outer: BspRect) -> bool {
    match wl {
        WallLine::Horizontal { y, x0, x1 } =>
            outer.y <= y < outer.y + outer.h && outer.x <= x0 && x0 <= x1 && x1 <= outer.x + outer.w,
        WallLine::Vertical { x, y0, y1 } =>
            outer.x <= x < outer.x + outer.w && outer.y <= y0 && y0 <= y1 && y1 <= outer.y + outer.h,
    }
}

/// `(x, y)` lies inside `r`.
pub open spec fn rect_has(r: BspRect, x: int, y: int) -> bool {
    r.x <= x < r.x + r.w && r.y <= y < r.y + r.h
}

/// `(x, y)` is a cell of wall line `wl`.
pub open spec fn on_wall(wl: WallLine, x: int, y: int) -> bool {
    match wl {
        WallLine::Horizontal { y: wy, x0, x1 } => y == wy && x0 <= x < x1,
        WallLine::Vertical { x: wx, y0, y1 } => x == wx && y0 <= y < y1,
    }
}

/// `(x, y)` lies in one of the leaves or on one of the walls from index `from` on.
pub open spec fn bsp_covers(leaves: Seq<BspRect>, walls: Seq<WallLine>, from: int, x: int, y: int) -> bool {
    ||| exists|i: int| 0 <= i < leaves.len() && #[trigger] rect_has(leaves[i], x, y)
    ||| exists|j: int| from <= j < walls.len() && #[trigger] on_wall(walls[j], x, y)
}

/// Whether `bsp_subdivide` splits `rect` with leaf budget `target`: it can
/// (one side fits two minimum rooms and a wall) and it should (budget left,
/// or a side above the maximum room size that can be split).
pub open spec fn splits(rect: BspRect, target: int) -> bool {
    let need = 2 * MIN_ROOM_SIZE + 1;
    let can_h = rect.h >= need;
    let can_v = rect.w >= need;
    (can_h || can_v) && (target > 1 || (rect.h > MAX_ROOM_SIZE && can_h) || (rect.w > MAX_ROOM_SIZE && can_v))
}

/// Coverage by the leaves and walls of a part carries over to the whole:
/// the part's leaves are a prefix or suffix of the whole's, and its walls
/// stay in place.
proof fn lemma_covers_lift(part: Seq<BspRect>, all: Seq<BspRect>, off: int, wp: Seq<WallLine>, wa: Seq<WallLine>,
    from_p: int, from_a: int, x: int, y: int)
    requires
        bsp_covers(part, wp, from_p, x, y),
        0 <= off,
        off + part.len() <= all.len(),
        forall|i: int| 0 <= i < part.len() ==> #[trigger] all[off + i] == part[i],
        0 <= from_a <= from_p,
        wp.len() <= wa.len(),
        forall|j: int| 0 <= j < wp.len() ==> #[trigger] wa[j] == wp[j],
    ensures
        bsp_covers(all, wa, from_a, x, y),
{
    if exists|i: int| 0 <= i < part.len() && #[trigger] rect_has(part[i], x, y) {
        let i = choose|i: int| 0 <= i < part.len() && #[trigger] rect_has(part[i], x, y);
        assert(all[off + i] == part[i]);
        assert(rect_has(all[off + i], x, y));
    } else {
        let j = choose|j: int| from_p <= j < wp.len() && #[trigger] on_wall(wp[j], x, y);
        assert(wa[j] == wp[j]);
        assert(on_wall(wa[j], x, y));
    }
}

/// The leaves of two parts, concatenated, avoid the split wall between the
/// parts and the walls of both parts.
proof fn lemma_leaves_off_walls(all: Seq<BspRect>, la: Seq<BspRect>, lb: Seq<BspRect>, a: BspRect, b: BspRect,
    ws: Seq<WallLine>, w0: int, w1: int, w2: int)
    requires
        all == la + lb,
        forall|i: int| 0 <= i < la.len() ==> rect_within(#[trigger] la[i], a),
        forall|i: int| 0 <= i < lb.len() ==> rect_within(#[trigger] lb[i], b),
        rects_disjoint(a, b),
        0 <= w0,
        w0 + 1 == w1,
        w1 <= w2 <= ws.len(),
        forall|x: int, y: int| #[trigger] on_wall(ws[w0], x, y) ==> !rect_has(a, x, y) && !rect_has(b, x, y),
        forall|j: int| w1 <= j < w2 ==> wall_within(#[trigger] ws[j], a),
        forall|j: int| w2 <= j < ws.len() ==> wall_within(#[trigger] ws[j], b),
        forall|i: int, j: int, x: int, y: int| 0 <= i < la.len() && w1 <= j < w2 ==>
            !(#[trigger] rect_has(la[i], x, y) && #[trigger] on_wall(ws[j], x, y)),
        forall|i: int, j: int, x: int, y: int| 0 <= i < lb.len() && w2 <= j < ws.len() ==>
            !(#[trigger] rect_has(lb[i], x, y) && #[trigger] on_wall(ws[j], x, y)),
    ensures
        forall|i: int, j: int, x: int, y: int| 0 <= i < all.len() && w0 <= j < ws.len() ==>
            !(#[trigger] rect_has(all[i], x, y) && #[trigger] on_wall(ws[j], x, y)),
{
    assert forall|i: int, j: int, x: int, y: int| 0 <= i < all.len() && w0 <= j < ws.len() implies
        !(#[trigger] rect_has(all[i], x, y) && #[trigger] on_wall(ws[j], x, y)) by {
        if rect_has(all[i], x, y) && on_wall(ws[j], x, y) {
            if i < la.len() {
                assert(all[i] == la[i]);
                assert(rect_within(la[i], a));
                assert(rect_has(a, x, y));
                if j == w0 {
                } else if j < w2 {
                    assert(!(rect_has(la[i], x, y) && on_wall(ws[j], x, y)));
                } else {
                    assert(wall_within(ws[j], b));
                    assert(rect_has(b, x, y));
                }
            } else {
                let k = i - la.len();
                assert(all[i] == lb[k]);
                assert(rect_within(lb[k], b));
                assert(rect_has(b, x, y));
                if j == w0 {
                } else if j < w2 {
                    assert(wall_within(ws[j], a));
                    assert(rect_has(a, x, y));
                } else {
                    assert(!(rect_has(lb[k], x, y) && on_wall(ws[j], x, y)));
                }
            }
        }
    }
}

/// Coordinates stay below 65536, so areas fit 32-bit arithmetic.
pub open spec fn rect_small(r: BspRect) -> bool {
    r.x + r.w <= 0xffff && r.y + r.h <= 0xffff
}

/// Share of `target` leaves for a part of area `part` out of `total`, rounded
/// to nearest, at least one (one when the total area is empty).
pub open spec fn share(target: int, part: int, total: int) -> int {
    if total <= 0 {
        1
    } else {
        let t = (2 * (target * part) + total) / (2 * total);
        if t >= 1 { t } else { 1 }
    }
}

fn split_share(target: usize, part: usize, total: usize) -> (r: usize)
    requires
        part <= total,
        part <= 0x4000_0000_0000_0000,
        total <= 0x8000_0000_0000_0000,
    ensures
        r as int == share(target as int, part as int, total as int),
{
    if total == 0 {
        return 1;
    }
    proof {
        assert((target as int) * (part as int) <= 0x1_0000_0000_0000_0000 * 0x4000_0000_0000_0000) by (nonlinear_arith)
            requires
                target as int <= 0xffff_ffff_ffff_ffff,
                part as int <= 0x4000_0000_0000_0000;
    }
    let a: u128 = (target as u128) * (part as u128);
    let num: u128 = 2 * a + (total as u128);
    let d: u128 = 2 * (total as u128);
    let t = num / d;
    proof {
        let ni = num as int;
        let di = d as int;
        vstd::arithmetic::div_mod::lemma_fundamental_div_mod(ni, di);
        vstd::arithmetic::div_mod::lemma_mod_pos_bound(ni, di);
        assert(a as int == (target as int) * (part as int));
        assert(ni == 2 * ((target as int) * (part as int)) + total);
        assert((target as int) * (part as int) <= (target as int) * (total as int)) by (nonlinear_arith)
            requires part <= total;
        assert(t as int <= target as int) by (nonlinear_arith)
            requires
                di * (t as int) <= ni,
                ni <= 2 * ((target as int) * (total as int)) + total,
                di == 2 * total,
                total > 0;
    }
    if t >= 1 {
        t as usize
    } else {
        1
    }
}

/// Recursively split `rect` by one-cell walls until every leaf is below
/// twice the minimum room size in both dimensions and the leaf budget
/// `target` is spent (a leaf above `MAX_ROOM_SIZE` that can be split always
/// is). Walls are appended to `walls`; the leaves are returned.
pub fn bsp_subdivide(rect: BspRect, walls: &mut Vec<WallLine>, rng: &mut MapRng, target: usize) -> (leaves: Vec<BspRect>)
    requires
        rect_small(rect),
    ensures
        leaves@.len() >= 1,
        forall|i: int| 0 <= i < leaves@.len() ==> rect_within(#[trigger] leaves@[i], rect),
        forall|i: int, j: int| 0 <= i < j < leaves@.len() ==> rects_disjoint(#[trigger] leaves@[i], #[trigger] leaves@[j]),
        forall|i: int| 0 <= i < leaves@.len() ==> (#[trigger] leaves@[i]).w < 2 * MIN_ROOM_SIZE + 1
            && leaves@[i].h < 2 * MIN_ROOM_SIZE + 1,
        forall|i: int| 0 <= i < leaves@.len() ==>
            (#[trigger] leaves@[i]).w >= vstd::math::min(rect.w as int, MIN_ROOM_SIZE as int)
            && leaves@[i].h >= vstd::math::min(rect.h as int, MIN_ROOM_SIZE as int),
        area_sum(leaves@, leaves@.len() as int) <= rect.w * rect.h,
        old(walls)@.len() <= final(walls)@.len(),
        forall|i: int| 0 <= i < old(walls)@.len() ==> #[trigger] final(walls)@[i] == old(walls)@[i],
        forall|i: int| old(walls)@.len() <= i < final(walls)@.len() ==> wall_within(#[trigger] final(walls)@[i], rect),
        forall|x: int, y: int| #[trigger] rect_has(rect, x, y) ==>
            bsp_covers(leaves@, final(walls)@, old(walls)@.len() as int, x, y),
        final(walls)@.len() - old(walls)@.len() == leaves@.len() - 1,
        forall|i: int, j: int, x: int, y: int| 0 <= i < leaves@.len() && old(walls)@.len() <= j < final(walls)@.len() ==>
            !(#[trigger] rect_has(leaves@[i], x, y) && #[trigger] on_wall(final(walls)@[j], x, y)),
        !splits(rect, target as int) ==> leaves@ == seq![rect],
        splits(rect, target as int) ==> leaves@.len() >= 2,
    decreases rect.w + rect.h,
{
    let need = 2 * MIN_ROOM_SIZE + 1;
    let can_h = rect.h >= need;
    let can_v = rect.w >= need;
    let must_h = rect.h > MAX_ROOM_SIZE && can_h;
    let must_v = rect.w > MAX_ROOM_SIZE && can_v;
    let do_split = (can_h || can_v) && (target > 1 || must_h || must_v);
    if !do_split {
        let mut v: Vec<BspRect> = Vec::new();
        v.push(rect);
        proof {
            assert(area_sum(v@, 0) == 0);
            assert(v@ =~= seq![rect]);
            assert forall|x: int, y: int| #[trigger] rect_has(rect, x, y) implies
                bsp_covers(v@, walls@, walls@.len() as int, x, y) by {
                assert(rect_has(v@[0], x, y));
            }
        }
        return v;
    }
    let split_h = if must_h && !must_v {
        true
    } else if must_v && !must_h {
        false
    } else if can_h && can_v {
        if rect.h > rect.w + 2 {
            true
        } else if rect.w > rect.h + 2 {
            false
        } else {
            rng.below(2) == 0
        }
    } else {
        can_h
    };
    let ghost w0 = walls@;
    if split_h {
        let lo = MIN_ROOM_SIZE;
        let hi = rect.h - MIN_ROOM_SIZE - 1;
        let s = rand_range(rng, lo, hi);
        walls.push(WallLine::Horizontal { y: rect.y + s, x0: rect.x, x1: rect.x + rect.w });
        let top = BspRect { x: rect.x, y: rect.y, w: rect.w, h: s };
        let bot = BspRect { x: rect.x, y: rect.y + s + 1, w: rect.w, h: rect.h - s - 1 };
        proof {
            assert(top.w * top.h <= 0xffff_ffffu64) by (nonlinear_arith)
                requires top.w <= 0xffffu64, top.h <= 0xffffu64;
            assert(bot.w * bot.h + top.w * top.h <= 0xffff_ffffu64) by (nonlinear_arith)
                requires bot.w <= 0xffffu64, bot.w == top.w, bot.h + top.h <= 0xffffu64;
        }
        let ta = top.w * top.h;
        let ba = bot.w * bot.h;
        let t_target = split_share(target, ta, ta + ba);
        let b0 = target.saturating_sub(t_target);
        let b_target = if b0 >= 1 { b0 } else { 1 };
        let ghost w1 = walls@;
        let mut r = bsp_subdivide(top, walls, rng, t_target);
        let ghost w2 = walls@;
        let r2 = bsp_subdivide(bot, walls, rng, b_target);
        let ghost r1 = r@;
        r.append(&mut r2.clone());
        proof {
            lemma_split_parts(rect, top, bot, r1, r2@, r@,
                vstd::math::min(rect.w as int, MIN_ROOM_SIZE as int), vstd::math::min(rect.h as int, MIN_ROOM_SIZE as int));
            lemma_walls_grow(w0, w1, w2, walls@, rect, top, bot);
            lemma_area_sum_concat(r1, r2@, r2@.len() as int);
            assert(r@ == r1 + r2@);
            assert forall|i: int, j: int, x: int, y: int| 0 <= i < r1.len() && w1.len() <= j < w2.len() implies
                !(#[trigger] rect_has(r1[i], x, y) && #[trigger] on_wall(walls@[j], x, y)) by {
                assert(walls@[j] == w2[j]);
            }
            assert forall|j: int| w1.len() <= j < w2.len() implies wall_within(#[trigger] walls@[j], top) by {
                assert(walls@[j] == w2[j]);
            }
            assert forall|x: int, y: int| #[trigger] on_wall(walls@[w0.len() as int], x, y) implies
                !rect_has(top, x, y) && !rect_has(bot, x, y) by {
                assert(walls@[w0.len() as int] == w1[w0.len() as int]);
            }
            lemma_leaves_off_walls(r@, r1, r2@, top, bot, walls@, w0.len() as int, w1.len() as int, w2.len() as int);
            assert forall|x: int, y: int| #[trigger] rect_has(rect, x, y) implies
                bsp_covers(r@, walls@, w0.len() as int, x, y) by {
                if rect_has(top, x, y) {
                    lemma_covers_lift(r1, r@, 0, w2, walls@, w1.len() as int, w0.len() as int, x, y);
                } else if rect_has(bot, x, y) {
                    assert forall|i: int| 0 <= i < r2@.len() implies #[trigger] r@[r1.len() + i] == r2@[i] by {}
                    lemma_covers_lift(r2@, r@, r1.len() as int, walls@, walls@, w2.len() as int, w0.len() as int, x, y);
                } else {
                    assert(on_wall(w1[w0.len() as int], x, y));
                    assert(walls@[w0.len() as int] == w1[w0.len() as int]);
                }
            }
            assert(top.w * top.h + bot.w * bot.h <= rect.w * rect.h) by (nonlinear_arith)
                requires top.w == rect.w, bot.w == rect.w, top.h + bot.h <= rect.h;
        }
        r
    } else {
        let lo = MIN_ROOM_SIZE;
        let hi = rect.w - MIN_ROOM_SIZE - 1;
        let s = rand_range(rng, lo, hi);
        walls.push(WallLine::Vertical { x: rect.x + s, y0: rect.y, y1: rect.y + rect.h });
        let left = BspRect { x: rect.x, y: rect.y, w: s, h: rect.h };
        let right = BspRect { x: rect.x + s + 1, y: rect.y, w: rect.w - s - 1, h: rect.h };
        proof {
            assert(left.w * left.h <= 0xffff_ffffu64) by (nonlinear_arith)
                requires left.w <= 0xffffu64, left.h <= 0xffffu64;
            assert(right.w * right.h + left.w * left.h <= 0xffff_ffffu64) by (nonlinear_arith)
                requires right.h <= 0xffffu64, right.h == left.h, right.w + left.w <= 0xffffu64;
        }
        let la = left.w * left.h;
        let ra = right.w * right.h;
        let l_target = split_share(target, la, la + ra);
        let r0 = target.saturating_sub(l_target);
        let r_target = if r0 >= 1 { r0 } else { 1 };
        let ghost w1 = walls@;
        let mut res = bsp_subdivide(left, walls, rng, l_target);
        let ghost w2 = walls@;
        let r2 = bsp_subdivide(right, walls, rng, r_target);
        let ghost r1 = res@;
        res.append(&mut r2.clone());
        proof {
            lemma_split_parts(rect, left, right, r1, r2@, res@,
                vstd::math::min(rect.w as int, MIN_ROOM_SIZE as int), vstd::math::min(rect.h as int, MIN_ROOM_SIZE as int));
            lemma_walls_grow(w0, w1, w2, walls@, rect, left, right);
            lemma_area_sum_concat(r1, r2@, r2@.len() as int);
            assert(res@ == r1 + r2@);
            assert forall|i: int, j: int, x: int, y: int| 0 <= i < r1.len() && w1.len() <= j < w2.len() implies
                !(#[trigger] rect_has(r1[i], x, y) && #[trigger] on_wall(walls@[j], x, y)) by {
                assert(walls@[j] == w2[j]);
            }
            assert forall|j: int| w1.len() <= j < w2.len() implies wall_within(#[trigger] walls@[j], left) by {
                assert(walls@[j] == w2[j]);
            }
            assert forall|x: int, y: int| #[trigger] on_wall(walls@[w0.len() as int], x, y) implies
                !rect_has(left, x, y) && !rect_has(right, x, y) by {
                assert(walls@[w0.len() as int] == w1[w0.len() as int]);
            }
            lemma_leaves_off_walls(res@, r1, r2@, left, right, walls@, w0.len() as int, w1.len() as int, w2.len() as int);
            assert forall|x: int, y: int| #[trigger] rect_has(rect, x, y) implies
                bsp_covers(res@, walls@, w0.len() as int, x, y) by {
                if rect_has(left, x, y) {
                    lemma_covers_lift(r1, res@, 0, w2, walls@, w1.len() as int, w0.len() as int, x, y);
                } else if rect_has(right, x, y) {
                    assert forall|i: int| 0 <= i < r2@.len() implies #[trigger] res@[r1.len() + i] == r2@[i] by {}
                    lemma_covers_lift(r2@, res@, r1.len() as int, walls@, walls@, w2.len() as int, w0.len() as int, x, y);
                } else {
                    assert(on_wall(w1[w0.len() as int], x, y));
                    assert(walls@[w0.len() as int] == w1[w0.len() as int]);
                }
            }
            assert(left.w * left.h + right.w * right.h <= rect.w * rect.h) by (nonlinear_arith)
                requires left.h == rect.h, right.h == rect.h, left.w + right.w <= rect.w;
        }
        res
    }
}

/// Total area of a concatenation.
proof fn lemma_area_sum_concat(a: Seq<BspRect>, b: Seq<BspRect>, j: int)
    requires
        0 <= j <= b.len(),
    ensures
        area_sum(a + b, a.len() + j) == area_sum(a, a.len() as int) + area_sum(b, j),
    decreases j,
{
    if j == 0 {
        lemma_area_sum_prefix(a + b, a, a.len() as int);
    } else {
        lemma_area_sum_concat(a, b, j - 1);
        assert((a + b)[a.len() + j - 1] == b[j - 1]);
    }
}

/// The total area of a prefix depends only on that prefix.
proof fn lemma_area_sum_prefix(s: Seq<BspRect>, t: Seq<BspRect>, k: int)
    requires
        0 <= k <= s.len(),
        k <= t.len(),
        forall|i: int| 0 <= i < k ==> #[trigger] s[i] == t[i],
    ensures
        area_sum(s, k) == area_sum(t, k),
    decreases k,
{
    if k > 0 {
        lemma_area_sum_prefix(s, t, k - 1);
    }
}

/// The leaves of two disjoint parts of `rect`, concatenated, are disjoint
/// leaves of `rect`.
proof fn lemma_split_parts(rect: BspRect, a: BspRect, b: BspRect, la: Seq<BspRect>, lb: Seq<BspRect>,
    all: Seq<BspRect>, mw: int, mh: int)
    requires
        rect_within(a, rect),
        rect_within(b, rect),
        rects_disjoint(a, b),
        all == la + lb,
        la.len() >= 1,
        forall|i: int| 0 <= i < la.len() ==> rect_within(#[trigger] la[i], a),
        forall|i: int| 0 <= i < lb.len() ==> rect_within(#[trigger] lb[i], b),
        forall|i: int, j: int| 0 <= i < j < la.len() ==> rects_disjoint(#[trigger] la[i], #[trigger] la[j]),
        forall|i: int, j: int| 0 <= i < j < lb.len() ==> rects_disjoint(#[trigger] lb[i], #[trigger] lb[j]),
        forall|i: int| 0 <= i < la.len() ==> (#[trigger] la[i]).w >= mw && la[i].h >= mh,
        forall|i: int| 0 <= i < lb.len() ==> (#[trigger] lb[i]).w >= mw && lb[i].h >= mh,
        forall|i: int| 0 <= i < la.len() ==> (#[trigger] la[i]).w < 13 && la[i].h < 13,
        forall|i: int| 0 <= i < lb.len() ==> (#[trigger] lb[i]).w < 13 && lb[i].h < 13,
    ensures
        all.len() >= 1,
        forall|i: int| 0 <= i < all.len() ==> (#[trigger] all[i]).w >= mw && all[i].h >= mh,
        forall|i: int| 0 <= i < all.len() ==> (#[trigger] all[i]).w < 13 && all[i].h < 13,
        forall|i: int| 0 <= i < all.len() ==> rect_within(#[trigger] all[i], rect),
        forall|i: int, j: int| 0 <= i < j < all.len() ==> rects_disjoint(#[trigger] all[i], #[trigger] all[j]),
{
    assert forall|i: int| 0 <= i < all.len() implies rect_within(#[trigger] all[i], rect)
        && all[i].w >= mw && all[i].h >= mh && all[i].w < 13 && all[i].h < 13 by {
        if i < la.len() {
            assert(all[i] == la[i]);
        } else {
            assert(all[i] == lb[i - la.len()]);
        }
    }
    assert forall|i: int, j: int| 0 <= i < j < all.len() implies rects_disjoint(#[trigger] all[i], #[trigger] all[j]) by {
        if j < la.len() {
            assert(all[i] == la[i] && all[j] == la[j]);
        } else if i >= la.len() {
            assert(all[i] == lb[i - la.len()] && all[j] == lb[j - la.len()]);
        } else {
            assert(all[i] == la[i] && all[j] == lb[j - la.len()]);
            assert(rect_within(la[i], a));
            assert(rect_within(lb[j - la.len()], b));
        }
    }
}

/// Walls appended by the two recursive calls lie inside `rect`.
proof fn lemma_walls_grow(w0: Seq<WallLine>, w1: Seq<WallLine>, w2: Seq<WallLine>, w3: Seq<WallLine>,
    rect: BspRect, a: BspRect, b: BspRect)
    requires
        w1.len() == w0.len() + 1,
        forall|i: int| 0 <= i < w0.len() ==> #[trigger] w1[i] == w0[i],
        wall_within(w1[w0.len() as int], rect),
        rect_within(a, rect),
        rect_within(b, rect),
        w1.len() <= w2.len(),
        forall|i: int| 0 <= i < w1.len() ==> #[trigger] w2[i] == w1[i],
        forall|i: int| w1.len() <= i < w2.len() ==> wall_within(#[trigger] w2[i], a),
        w2.len() <= w3.len(),
        forall|i: int| 0 <= i < w2.len() ==> #[trigger] w3[i] == w2[i],
        forall|i: int| w2.len() <= i < w3.len() ==> wall_within(#[trigger] w3[i], b),
    ensures
        w0.len() <= w3.len(),
        forall|i: int| 0 <= i < w0.len() ==> #[trigger] w3[i] == w0[i],
        forall|i: int| w0.len() <= i < w3.len() ==> wall_within(#[trigger] w3[i], rect),
{
    assert forall|i: int| 0 <= i < w0.len() implies #[trigger] w3[i] == w0[i] by {
        assert(w2[i] == w1[i]);
    }
    assert forall|i: int| w0.len() <= i < w3.len() implies wall_within(#[trigger] w3[i], rect) by {
        if i < w1.len() {
            assert(w3[i] == w2[i] && w2[i] == w1[i]);
        } else if i < w2.len() {
            assert(w3[i] == w2[i]);
            assert(wall_within(w2[i], a));
        } else {
            assert(wall_within(w3[i], b));
        }
    }
}

} // verus!
