//! Per-tile passage width: how wide the corridor through a tile is.

use vstd::prelude::*;
use crate::cell::{Cell, grid_ok, in_grid, flat, open_at, lemma_flat_in_range, idx};

verus! {

/// Consecutive walkable tiles directly above `(x, y)` (up to a blocked tile
/// or the edge).
pub open spec fn run_up(map: Seq<Cell>, w: int, h: int, x: int, y: int) -> int
    decreases y,
{
    if y <= 0 || !open_at(map, w, h, x, y - 1) { 0 } else { run_up(map, w, h, x, y - 1) + 1 }
}

/// Consecutive walkable tiles directly below `(x, y)`.
pub open spec fn run_down(map: Seq<Cell>, w: int, h: int, x: int, y: int) -> int
    decreases h - y,
{
    if y >= h - 1 || !open_at(map, w, h, x, y + 1) { 0 } else { run_down(map, w, h, x, y + 1) + 1 }
}

/// Consecutive walkable tiles directly left of `(x, y)`.
pub open spec fn run_left(map: Seq<Cell>, w: int, h: int, x: int, y: int) -> int
    decreases x,
{
    if x <= 0 || !open_at(map, w, h, x - 1, y) { 0 } else { run_left(map, w, h, x - 1, y) + 1 }
}

/// Consecutive walkable tiles directly right of `(x, y)`.
pub open spec fn run_right(map: Seq<Cell>, w: int, h: int, x: int, y: int) -> int
    decreases w - x,
{
    if x >= w - 1 || !open_at(map, w, h, x + 1, y) { 0 } else { run_right(map, w, h, x + 1, y) + 1 }
}

/// Passage width of a tile: `min(up + down + 1, left + right + 1)` capped at
/// 255 for walkable tiles, 0 for the others.
pub open spec fn passage_width(map: Seq<Cell>, w: int, h: int, x: int, y: int) -> int {
    if !open_at(map, w, h, x, y) {
        0
    } else {
        let vert = run_up(map, w, h, x, y) + run_down(map, w, h, x, y) + 1;
        let horiz = run_left(map, w, h, x, y) + run_right(map, w, h, x, y) + 1;
        vstd::math::min(vstd::math::min(vert, horiz), 255)
    }
}

proof fn lemma_runs_bounded(map: Seq<Cell>, w: int, h: int, x: int, y: int)
    requires
        in_grid(x, y, w, h),
    ensures
        0 <= run_up(map, w, h, x, y) <= y,
        0 <= run_down(map, w, h, x, y) <= h - 1 - y,
        0 <= run_left(map, w, h, x, y) <= x,
        0 <= run_right(map, w, h, x, y) <= w - 1 - x,
{
    lemma_run_up(map, w, h, x, y);
    lemma_run_down(map, w, h, x, y);
    lemma_run_left(map, w, h, x, y);
    lemma_run_right(map, w, h, x, y);
}

proof fn lemma_run_up(map: Seq<Cell>, w: int, h: int, x: int, y: int)
    requires
        0 <= y,
    ensures
        0 <= run_up(map, w, h, x, y) <= y,
    decreases y,
{
    if y > 0 && open_at(map, w, h, x, y - 1) {
        lemma_run_up(map, w, h, x, y - 1);
    }
}

proof fn lemma_run_down(map: Seq<Cell>, w: int, h: int, x: int, y: int)
    requires
        y <= h - 1,
    ensures
        0 <= run_down(map, w, h, x, y) <= h - 1 - y,
    decreases h - y,
{
    if y < h - 1 && open_at(map, w, h, x, y + 1) {
        lemma_run_down(map, w, h, x, y + 1);
    }
}

proof fn lemma_run_left(map: Seq<Cell>, w: int, h: int, x: int, y: int)
    requires
        0 <= x,
    ensures
        0 <= run_left(map, w, h, x, y) <= x,
    decreases x,
{
    if x > 0 && open_at(map, w, h, x - 1, y) {
        lemma_run_left(map, w, h, x - 1, y);
    }
}

proof fn lemma_run_right(map: Seq<Cell>, w: int, h: int, x: int, y: int)
    requires
        x <= w - 1,
    ensures
        0 <= run_right(map, w, h, x, y) <= w - 1 - x,
    decreases w - x,
{
    if x < w - 1 && open_at(map, w, h, x + 1, y) {
        lemma_run_right(map, w, h, x + 1, y);
    }
}

/// Per-tile passage width, row-major: `min(up + down + 1, left + right + 1)`
/// (capped at 255) where each term counts the consecutive walkable tiles in
/// that direction; 0 on non-walkable tiles.
pub fn compute_passage_width(map: &[Cell], w: i32, h: i32) -> (pw: Vec<u8>)
    requires
        grid_ok(map@, w as int, h as int),
    ensures
        pw@.len() == map@.len(),
        forall|x: int, y: int| in_grid(x, y, w as int, h as int) ==>
            #[trigger] pw@[flat(x, y, w as int)] as int == passage_width(map@, w as int, h as int, x, y),
{
    let ghost wi = w as int;
    let ghost hi = h as int;
    let n = map.len();
    let mut dn: Vec<i32> = vec![0i32; n];
    let mut ds: Vec<i32> = vec![0i32; n];
    let mut de: Vec<i32> = vec![0i32; n];
    let mut dw: Vec<i32> = vec![0i32; n];
    // Up runs, top to bottom in each column.
    let mut x: i32 = 0;
    while x < w
        invariant
            grid_ok(map@, wi, hi),
            wi == w,
            hi == h,
            0 <= x <= w,
            dn@.len() == n,
            n == map@.len(),
            forall|xx: int, yy: int| 0 <= xx < x && 0 <= yy < h && open_at(map@, wi, hi, xx, yy) ==>
                #[trigger] dn@[flat(xx, yy, wi)] as int == run_up(map@, wi, hi, xx, yy),
        decreases w - x,
    {
        let mut y: i32 = 0;
        while y < h
            invariant
                grid_ok(map@, wi, hi),
                wi == w,
                hi == h,
                0 <= x < w,
                0 <= y <= h,
                dn@.len() == n,
                n == map@.len(),
                forall|xx: int, yy: int| ((0 <= xx < x && 0 <= yy < h) || (xx == x && 0 <= yy < y))
                    && open_at(map@, wi, hi, xx, yy) ==>
                    #[trigger] dn@[flat(xx, yy, wi)] as int == run_up(map@, wi, hi, xx, yy),
            decreases h - y,
        {
            proof {
                lemma_flat_in_range(x as int, y as int, wi, hi);
                lemma_runs_bounded(map@, wi, hi, x as int, y as int);
            }
            let i = idx(x, y, w);
            if map[i].terrain.is_walkable() {
                let v = if y == 0 {
                    0
                } else {
                    proof {
                        lemma_flat_in_range(x as int, y - 1, wi, hi);
                    }
                    let above = idx(x, y - 1, w);
                    if map[above].terrain.is_walkable() { dn[above] + 1 } else { 0 }
                };
                let ghost d0 = dn@;
                dn.set(i, v);
                proof {
                    assert forall|xx: int, yy: int| ((0 <= xx < x && 0 <= yy < h) || (xx == x && 0 <= yy < y + 1))
                        && open_at(map@, wi, hi, xx, yy) implies
                        #[trigger] dn@[flat(xx, yy, wi)] as int == run_up(map@, wi, hi, xx, yy) by {
                        lemma_flat_in_range(xx, yy, wi, hi);
                        if flat(xx, yy, wi) != i as int {
                            assert(dn@[flat(xx, yy, wi)] == d0[flat(xx, yy, wi)]);
                        } else {
                            crate::cell::lemma_flat_injective(xx, yy, x as int, y as int, wi, hi);
                        }
                    }
                }
            }
            y = y + 1;
        }
        x = x + 1;
    }
    // Down runs, bottom to top.
    let mut x: i32 = 0;
    while x < w
        invariant
            grid_ok(map@, wi, hi),
            wi == w,
            hi == h,
            0 <= x <= w,
            ds@.len() == n,
            n == map@.len(),
            forall|xx: int, yy: int| 0 <= xx < x && 0 <= yy < h && open_at(map@, wi, hi, xx, yy) ==>
                #[trigger] ds@[flat(xx, yy, wi)] as int == run_down(map@, wi, hi, xx, yy),
        decreases w - x,
    {
        let mut y: i32 = h;
        while y > 0
            invariant
                grid_ok(map@, wi, hi),
                wi == w,
                hi == h,
                0 <= x < w,
                0 <= y <= h,
                ds@.len() == n,
                n == map@.len(),
                forall|xx: int, yy: int| ((0 <= xx < x && 0 <= yy < h) || (xx == x && y <= yy < h))
                    && open_at(map@, wi, hi, xx, yy) ==>
                    #[trigger] ds@[flat(xx, yy, wi)] as int == run_down(map@, wi, hi, xx, yy),
            decreases y,
        {
            y = y - 1;
            proof {
                lemma_flat_in_range(x as int, y as int, wi, hi);
                lemma_runs_bounded(map@, wi, hi, x as int, y as int);
            }
            let i = idx(x, y, w);
            if map[i].terrain.is_walkable() {
                let v = if y == h - 1 {
                    0
                } else {
                    proof {
                        lemma_flat_in_range(x as int, y + 1, wi, hi);
                    }
                    let below = idx(x, y + 1, w);
                    if map[below].terrain.is_walkable() { ds[below] + 1 } else { 0 }
                };
                let ghost d0 = ds@;
                ds.set(i, v);
                proof {
                    assert forall|xx: int, yy: int| ((0 <= xx < x && 0 <= yy < h) || (xx == x && y <= yy < h))
                        && open_at(map@, wi, hi, xx, yy) implies
                        #[trigger] ds@[flat(xx, yy, wi)] as int == run_down(map@, wi, hi, xx, yy) by {
                        lemma_flat_in_range(xx, yy, wi, hi);
                        if flat(xx, yy, wi) != i as int {
                            assert(ds@[flat(xx, yy, wi)] == d0[flat(xx, yy, wi)]);
                        } else {
                            crate::cell::lemma_flat_injective(xx, yy, x as int, y as int, wi, hi);
                        }
                    }
                }
            }
        }
        x = x + 1;
    }
    // Left runs, left to right in each row.
    let mut y: i32 = 0;
    while y < h
        invariant
            grid_ok(map@, wi, hi),
            wi == w,
            hi == h,
            0 <= y <= h,
            dw@.len() == n,
            n == map@.len(),
            forall|xx: int, yy: int| 0 <= xx < w && 0 <= yy < y && open_at(map@, wi, hi, xx, yy) ==>
                #[trigger] dw@[flat(xx, yy, wi)] as int == run_left(map@, wi, hi, xx, yy),
        decreases h - y,
    {
        let mut x: i32 = 0;
        while x < w
            invariant
                grid_ok(map@, wi, hi),
                wi == w,
                hi == h,
                0 <= y < h,
                0 <= x <= w,
                dw@.len() == n,
                n == map@.len(),
                forall|xx: int, yy: int| ((0 <= xx < w && 0 <= yy < y) || (yy == y && 0 <= xx < x))
                    && open_at(map@, wi, hi, xx, yy) ==>
                    #[trigger] dw@[flat(xx, yy, wi)] as int == run_left(map@, wi, hi, xx, yy),
            decreases w - x,
        {
            proof {
                lemma_flat_in_range(x as int, y as int, wi, hi);
                lemma_runs_bounded(map@, wi, hi, x as int, y as int);
            }
            let i = idx(x, y, w);
            if map[i].terrain.is_walkable() {
                let v = if x == 0 {
                    0
                } else {
                    proof {
                        lemma_flat_in_range(x - 1, y as int, wi, hi);
                    }
                    let left = idx(x - 1, y, w);
                    if map[left].terrain.is_walkable() { dw[left] + 1 } else { 0 }
                };
                let ghost d0 = dw@;
                dw.set(i, v);
                proof {
                    assert forall|xx: int, yy: int| ((0 <= xx < w && 0 <= yy < y) || (yy == y && 0 <= xx < x + 1))
                        && open_at(map@, wi, hi, xx, yy) implies
                        #[trigger] dw@[flat(xx, yy, wi)] as int == run_left(map@, wi, hi, xx, yy) by {
                        lemma_flat_in_range(xx, yy, wi, hi);
                        if flat(xx, yy, wi) != i as int {
                            assert(dw@[flat(xx, yy, wi)] == d0[flat(xx, yy, wi)]);
                        } else {
                            crate::cell::lemma_flat_injective(xx, yy, x as int, y as int, wi, hi);
                        }
                    }
                }
            }
            x = x + 1;
        }
        y = y + 1;
    }
    // Right runs, right to left.
    let mut y: i32 = 0;
    while y < h
        invariant
            grid_ok(map@, wi, hi),
            wi == w,
            hi == h,
            0 <= y <= h,
            de@.len() == n,
            n == map@.len(),
            forall|xx: int, yy: int| 0 <= xx < w && 0 <= yy < y && open_at(map@, wi, hi, xx, yy) ==>
                #[trigger] de@[flat(xx, yy, wi)] as int == run_right(map@, wi, hi, xx, yy),
        decreases h - y,
    {
        let mut x: i32 = w;
        while x > 0
            invariant
                grid_ok(map@, wi, hi),
                wi == w,
                hi == h,
                0 <= y < h,
                0 <= x <= w,
                de@.len() == n,
                n == map@.len(),
                forall|xx: int, yy: int| ((0 <= xx < w && 0 <= yy < y) || (yy == y && x <= xx < w))
                    && open_at(map@, wi, hi, xx, yy) ==>
                    #[trigger] de@[flat(xx, yy, wi)] as int == run_right(map@, wi, hi, xx, yy),
            decreases x,
        {
            x = x - 1;
            proof {
                lemma_flat_in_range(x as int, y as int, wi, hi);
                lemma_runs_bounded(map@, wi, hi, x as int, y as int);
            }
            let i = idx(x, y, w);
            if map[i].terrain.is_walkable() {
                let v = if x == w - 1 {
                    0
                } else {
                    proof {
                        lemma_flat_in_range(x + 1, y as int, wi, hi);
                    }
                    let right = idx(x + 1, y, w);
                    if map[right].terrain.is_walkable() { de[right] + 1 } else { 0 }
                };
                let ghost d0 = de@;
                de.set(i, v);
                proof {
                    assert forall|xx: int, yy: int| ((0 <= xx < w && 0 <= yy < y) || (yy == y && x <= xx < w))
                        && open_at(map@, wi, hi, xx, yy) implies
                        #[trigger] de@[flat(xx, yy, wi)] as int == run_right(map@, wi, hi, xx, yy) by {
                        lemma_flat_in_range(xx, yy, wi, hi);
                        if flat(xx, yy, wi) != i as int {
                            assert(de@[flat(xx, yy, wi)] == d0[flat(xx, yy, wi)]);
                        } else {
                            crate::cell::lemma_flat_injective(xx, yy, x as int, y as int, wi, hi);
                        }
                    }
                }
            }
        }
        y = y + 1;
    }
    // Combine.
    let mut pw: Vec<u8> = vec![0u8; n];
    proof {
        assert forall|xx: int, yy: int| in_grid(xx, yy, wi, hi) && !open_at(map@, wi, hi, xx, yy) implies
            #[trigger] pw@[flat(xx, yy, wi)] == 0 by {
            lemma_flat_in_range(xx, yy, wi, hi);
        }
    }
    let mut y: i32 = 0;
    while y < h
        invariant
            grid_ok(map@, wi, hi),
            wi == w,
            hi == h,
            0 <= y <= h,
            n == map@.len(),
            pw@.len() == n,
            dn@.len() == n && ds@.len() == n && dw@.len() == n && de@.len() == n,
            forall|xx: int, yy: int| in_grid(xx, yy, wi, hi) && open_at(map@, wi, hi, xx, yy) ==>
                #[trigger] dn@[flat(xx, yy, wi)] as int == run_up(map@, wi, hi, xx, yy)
                && ds@[flat(xx, yy, wi)] as int == run_down(map@, wi, hi, xx, yy)
                && dw@[flat(xx, yy, wi)] as int == run_left(map@, wi, hi, xx, yy)
                && de@[flat(xx, yy, wi)] as int == run_right(map@, wi, hi, xx, yy),
            forall|xx: int, yy: int| in_grid(xx, yy, wi, hi) && !open_at(map@, wi, hi, xx, yy) ==>
                #[trigger] pw@[flat(xx, yy, wi)] == 0,
            forall|xx: int, yy: int| 0 <= xx < w && 0 <= yy < y ==>
                #[trigger] pw@[flat(xx, yy, wi)] as int == passage_width(map@, wi, hi, xx, yy),
        decreases h - y,
    {
        let mut x: i32 = 0;
        while x < w
            invariant
                grid_ok(map@, wi, hi),
                wi == w,
                hi == h,
                0 <= y < h,
                0 <= x <= w,
                n == map@.len(),
                pw@.len() == n,
                dn@.len() == n && ds@.len() == n && dw@.len() == n && de@.len() == n,
                forall|xx: int, yy: int| in_grid(xx, yy, wi, hi) && open_at(map@, wi, hi, xx, yy) ==>
                    #[trigger] dn@[flat(xx, yy, wi)] as int == run_up(map@, wi, hi, xx, yy)
                    && ds@[flat(xx, yy, wi)] as int == run_down(map@, wi, hi, xx, yy)
                    && dw@[flat(xx, yy, wi)] as int == run_left(map@, wi, hi, xx, yy)
                    && de@[flat(xx, yy, wi)] as int == run_right(map@, wi, hi, xx, yy),
                forall|xx: int, yy: int| in_grid(xx, yy, wi, hi) && !open_at(map@, wi, hi, xx, yy) ==>
                    #[trigger] pw@[flat(xx, yy, wi)] == 0,
                forall|xx: int, yy: int| ((0 <= xx < w && 0 <= yy < y) || (yy == y && 0 <= xx < x)) ==>
                    #[trigger] pw@[flat(xx, yy, wi)] as int == passage_width(map@, wi, hi, xx, yy),
            decreases w - x,
        {
            proof {
                lemma_flat_in_range(x as int, y as int, wi, hi);
                lemma_runs_bounded(map@, wi, hi, x as int, y as int);
            }
            let i = idx(x, y, w);
            if map[i].terrain.is_walkable() {
                proof {
                    assert(open_at(map@, wi, hi, x as int, y as int));
                }
                let vert = dn[i] + ds[i] + 1;
                let horiz = de[i] + dw[i] + 1;
                let m = if vert < horiz { vert } else { horiz };
                let m2 = if m < 255 { m } else { 255 };
                let ghost p0 = pw@;
                pw.set(i, m2 as u8);
                proof {
                    assert forall|xx: int, yy: int| ((0 <= xx < w && 0 <= yy < y) || (yy == y && 0 <= xx < x + 1)) implies
                        #[trigger] pw@[flat(xx, yy, wi)] as int == passage_width(map@, wi, hi, xx, yy) by {
                        lemma_flat_in_range(xx, yy, wi, hi);
                        if flat(xx, yy, wi) != i as int {
                            assert(pw@[flat(xx, yy, wi)] == p0[flat(xx, yy, wi)]);
                        } else {
                            crate::cell::lemma_flat_injective(xx, yy, x as int, y as int, wi, hi);
                        }
                    }
                    assert forall|xx: int, yy: int| in_grid(xx, yy, wi, hi) && !open_at(map@, wi, hi, xx, yy) implies
                        #[trigger] pw@[flat(xx, yy, wi)] == 0 by {
                        lemma_flat_in_range(xx, yy, wi, hi);
                        if flat(xx, yy, wi) == i as int {
                            crate::cell::lemma_flat_injective(xx, yy, x as int, y as int, wi, hi);
                        }
                    }
                }
            } else {
                proof {
                    assert(pw@[flat(x as int, y as int, wi)] == 0);
                }
            }
            x = x + 1;
        }
        y = y + 1;
    }
    pw
}

} // verus!
