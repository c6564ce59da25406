//! Whole-map generation: sizing, BSP, grouping into rooms, carving, void
//! seal, merge walls, doors and cover.

use vstd::prelude::*;
use crate::cell::{Cell, Terrain, lemma_flat_in_range, lemma_flat_injective, grid_ok, flat, floor_connected};
use crate::room::RoomKind;
use crate::map_gen::{
    BspRect, WallLine, MapRng, map_ok, rows, rect_in, lemma_map_ok, AREA_PER_ROOM, MIN_ROOM_SIZE,
    MIN_LEAVES_PER_NORMAL, BSP_TARGET_BUFFER, BORDER, void_cleanup, walkable_census, flood_fill_count,
    generate_ca_cover, touches_void, all_void_around, sealed_cell, block_walls, lemma_counts_connected,
    cover_room,
};
use crate::bsp::{bsp_subdivide, rect_within, wall_within, rect_small, rect_has, on_wall, rects_disjoint, bsp_covers};
use crate::grouping::{
    find_leaf_edges, cascade_kind_counts, lemma_cascade_fits, spec_cascade, merge_normal_target_avg,
    build_group_map, execute_merge_wall_removal, roots_below, area_sum, edge_in, wall_in, rect_fits,
    wall_fits, LeafEdge,
};
use crate::doors::{cut_doors, force_door, rect_in_grid, leaves_saturated, leaf_isolated, grows_doors, lemma_saturated_grows,
    wall_has_door, wall_door_blocked, lemma_wall_forced_grows};
use crate::union_find::{UnionFind, roots_of, lemma_root_basic};

verus! {

/// Smallest `k >= start` with `k * k >= x`.
pub open spec fn ceil_sqrt_from(x: int, k: int) -> int
    decreases x - k,
{
    if k < 0 || k * k >= x {
        k
    } else {
        proof {
            assert(k < x) by (nonlinear_arith)
                requires 0 <= k, k * k < x;
        }
        ceil_sqrt_from(x, k + 1)
    }
}

/// Ceiling of the square root of `x`.
pub open spec fn ceil_sqrt(x: int) -> int {
    ceil_sqrt_from(x, 0)
}

proof fn lemma_ceil_sqrt_from(x: int, k: int)
    requires
        0 <= k,
        k == 0 || (k - 1) * (k - 1) < x,
    ensures
        ceil_sqrt_from(x, k) >= k,
        ceil_sqrt_from(x, k) * ceil_sqrt_from(x, k) >= x,
        ceil_sqrt_from(x, k) == 0 || (ceil_sqrt_from(x, k) - 1) * (ceil_sqrt_from(x, k) - 1) < x,
    decreases x - k,
{
    if k * k < x {
        assert(k < x) by (nonlinear_arith)
            requires 0 <= k, k * k < x;
        lemma_ceil_sqrt_from(x, k + 1);
    }
}

/// `min(ceil_sqrt(x), cap)`.
fn ceil_sqrt_capped(x: u64, cap: u64) -> (r: u64)
    requires
        cap <= 0xffff,
    ensures
        r as int == vstd::math::min(ceil_sqrt(x as int), cap as int),
{
    let mut k: u64 = 0;
    proof {
        lemma_ceil_sqrt_from(x as int, 0);
    }
    while k < cap && k * k < x
        invariant
            k <= cap <= 0xffff,
            k * k <= 0xffff * 0xffff,
            ceil_sqrt_from(x as int, k as int) == ceil_sqrt(x as int),
            ceil_sqrt(x as int) >= k,
        decreases cap - k,
    {
        proof {
            assert(k * k <= 0xffff * 0xffff) by (nonlinear_arith) requires k <= 0xffff;
        }
        k = k + 1;
        proof {
            assert(k * k <= 0xffff * 0xffff) by (nonlinear_arith) requires k <= 0xffff;
            lemma_ceil_sqrt_from(x as int, k as int);
        }
    }
    proof {
        if k < cap {
            assert(ceil_sqrt_from(x as int, k as int) == k);
        }
    }
    k
}

/// Number of rooms of kind `k` requested.
pub open spec fn count_kind(rooms: Seq<RoomKind>, k: RoomKind) -> int
    decreases rooms.len(),
{
    if rooms.len() == 0 {
        0
    } else {
        count_kind(rooms.drop_last(), k) + if rooms.last() == k { 1int } else { 0int }
    }
}

proof fn lemma_count_kind_bound(rooms: Seq<RoomKind>, k: RoomKind)
    ensures
        0 <= count_kind(rooms, k) <= rooms.len(),
    decreases rooms.len(),
{
    if rooms.len() > 0 {
        lemma_count_kind_bound(rooms.drop_last(), k);
    }
}

fn count_rooms(rooms: &Vec<RoomKind>, k: RoomKind) -> (c: usize)
    ensures
        c as int == count_kind(rooms@, k),
        rooms@.len() <= usize::MAX,
{
    let mut c: usize = 0;
    let mut i: usize = 0;
    while i < rooms.len()
        invariant
            i <= rooms@.len(),
            c as int == count_kind(rooms@.subrange(0, i as int), k),
            c <= i,
        decreases rooms@.len() - i,
    {
        proof {
            assert(rooms@.subrange(0, i + 1).drop_last() =~= rooms@.subrange(0, i as int));
        }
        if rooms[i] == k {
            c = c + 1;
        }
        i = i + 1;
    }
    proof {
        assert(rooms@.subrange(0, rooms@.len() as int) =~= rooms@);
    }
    c
}

/// Row-major flat indices of the cells of `rect` on a `map_w`-column grid.
pub fn rect_indices(rect: &BspRect, map_w: usize) -> (idx: Vec<usize>)
    requires
        (rect.y + rect.h) * map_w <= usize::MAX,
        rect.x + rect.w <= map_w,
    ensures
        idx@.len() == rect.w * rect.h,
        forall|k: int| 0 <= k < idx@.len() ==>
            #[trigger] idx@[k] as int == (rect.y + k / (rect.w as int)) * map_w + (rect.x + k % (rect.w as int)),
{
    let mut idx: Vec<usize> = Vec::new();
    let mut j: usize = 0;
    while j < rect.h
        invariant
            j <= rect.h,
            (rect.y + rect.h) * map_w <= usize::MAX,
            rect.x + rect.w <= map_w,
            idx@.len() == j * rect.w,
            forall|k: int| 0 <= k < idx@.len() ==>
                #[trigger] idx@[k] as int == (rect.y + k / (rect.w as int)) * map_w + (rect.x + k % (rect.w as int)),
        decreases rect.h - j,
    {
        let mut i: usize = 0;
        while i < rect.w
            invariant
                i <= rect.w,
                j < rect.h,
                (rect.y + rect.h) * map_w <= usize::MAX,
                rect.x + rect.w <= map_w,
                idx@.len() == j * rect.w + i,
                forall|k: int| 0 <= k < idx@.len() ==>
                    #[trigger] idx@[k] as int == (rect.y + k / (rect.w as int)) * map_w + (rect.x + k % (rect.w as int)),
            decreases rect.w - i,
        {
            proof {
                assert(rect.y + rect.h <= (rect.y + rect.h) * map_w) by (nonlinear_arith)
                    requires map_w >= 1;
                assert((rect.y + j) * map_w + (rect.x + i) < (rect.y + rect.h) * map_w) by (nonlinear_arith)
                    requires j < rect.h, rect.x + i < map_w;
                assert((rect.y + j) * map_w <= (rect.y + rect.h) * map_w) by (nonlinear_arith)
                    requires j < rect.h;
                let k = j * rect.w + i;
                assert(k / (rect.w as int) == j && k % (rect.w as int) == i) by {
                    vstd::arithmetic::div_mod::lemma_fundamental_div_mod_converse(k as int, rect.w as int, j as int, i as int);
                }
            }
            let row = rect.y + j;
            proof {
                assert(row * map_w <= usize::MAX);
            }
            let base = row * map_w;
            idx.push(base + (rect.x + i));
            i = i + 1;
        }
        proof {
            assert((j + 1) * rect.w == j * rect.w + rect.w) by (nonlinear_arith);
        }
        j = j + 1;
    }
    proof {
        assert(rect.h * rect.w == rect.w * rect.h) by (nonlinear_arith);
    }
    idx
}

/// Map generation settings.
pub struct MapGenConfig {
    /// Requested room kinds.
    pub rooms: Vec<RoomKind>,
    pub map_w: Option<usize>,
    pub map_h: Option<usize>,
    /// Target area of an average room in cells (default `AREA_PER_ROOM`).
    pub area_per_room: Option<usize>,
    /// Void seal: outer wall ring from Void-adjacent cells.
    pub debug_void_seal: bool,
    /// Merge wall removal with stub retention.
    pub debug_merge: bool,
    /// Door cutting plus the connectivity fix.
    pub debug_doors: bool,
    /// Cover cluster seeds per leaf (capped by leaf area); 0 = no cover.
    pub seed_count: usize,
    /// Per-cluster growth limit; 0 = seeds only.
    pub growth_limit: usize,
}

impl Default for MapGenConfig {
    fn default() -> (c: MapGenConfig)
        ensures
            c.rooms@ == seq![RoomKind::Normal, RoomKind::Normal, RoomKind::Normal,
                RoomKind::Toilet, RoomKind::Toilet, RoomKind::Trash],
            c.map_w is None,
            c.map_h is None,
            c.area_per_room is None,
            c.debug_void_seal && c.debug_merge && c.debug_doors,
            c.seed_count == 4,
            c.growth_limit == 30,
    {
        let mut rooms: Vec<RoomKind> = Vec::new();
        rooms.push(RoomKind::Normal);
        rooms.push(RoomKind::Normal);
        rooms.push(RoomKind::Normal);
        rooms.push(RoomKind::Toilet);
        rooms.push(RoomKind::Toilet);
        rooms.push(RoomKind::Trash);
        MapGenConfig {
            rooms,
            map_w: None,
            map_h: None,
            area_per_room: None,
            debug_void_seal: true,
            debug_merge: true,
            debug_doors: true,
            seed_count: 4,
            growth_limit: 30,
        }
    }
}

/// A generated map.
pub struct GeneratedMap {
    pub cells: Vec<Cell>,
    pub width: i32,
    pub height: i32,
    /// Room kind of each walkable or toilet cell of a leaf (None elsewhere).
    pub cell_kinds: Vec<Option<RoomKind>>,
    /// The requested room kinds.
    pub requested_rooms: Vec<RoomKind>,
}

/// Leaves wanted from the BSP: one per special room, two per Normal room,
/// plus a buffer (at least two).
pub open spec fn spec_bsp_target(rooms: Seq<RoomKind>) -> int {
    let t = count_kind(rooms, RoomKind::Toilet) + count_kind(rooms, RoomKind::Trash)
        + MIN_LEAVES_PER_NORMAL * count_kind(rooms, RoomKind::Normal) + BSP_TARGET_BUFFER;
    if t >= 2 { t } else { 2 }
}

/// Map size: the configured or automatic side (square root of rooms times
/// area, height three quarters of it), at least room for the BSP leaves, at
/// most 120 by 90.
pub open spec fn spec_map_dims(rooms: Seq<RoomKind>, map_w: Option<usize>, map_h: Option<usize>,
    area_per_room: Option<usize>) -> (int, int) {
    let area = match area_per_room { Some(a) => a as int, None => AREA_PER_ROOM as int };
    let auto_side = ceil_sqrt(rooms.len() * area);
    let k = ceil_sqrt(spec_bsp_target(rooms));
    let min_dim = k * (MIN_ROOM_SIZE + 1) - 1 + 2 * BORDER;
    let w0 = match map_w { Some(v) => v as int, None => auto_side };
    let h0 = match map_h { Some(v) => v as int, None => auto_side * 3 / 4 };
    (vstd::math::min(vstd::math::max(w0, min_dim), 120), vstd::math::min(vstd::math::max(h0, min_dim), 90))
}

proof fn lemma_ceil_sqrt_big(x: int)
    requires
        x >= 40001,
    ensures
        ceil_sqrt(x) > 200,
{
    lemma_ceil_sqrt_from(x, 0);
    let c = ceil_sqrt(x);
    if c <= 200 {
        assert(c * c <= 200 * 200) by (nonlinear_arith) requires 0 <= c <= 200;
    }
}

/// Map width and height for a configuration.
proof fn lemma_count_kinds_sum(rooms: Seq<RoomKind>)
    ensures
        count_kind(rooms, RoomKind::Toilet) + count_kind(rooms, RoomKind::Trash)
            + count_kind(rooms, RoomKind::Normal) <= rooms.len(),
    decreases rooms.len(),
{
    if rooms.len() > 0 {
        lemma_count_kinds_sum(rooms.drop_last());
    }
}

/// The BSP leaf budget, saturating at the largest `usize`.
fn leaf_budget(rooms: &Vec<RoomKind>) -> (t: usize)
    ensures
        t as int == vstd::math::min(spec_bsp_target(rooms@), usize::MAX as int),
        t >= 2,
{
    let toilet_req = count_rooms(rooms, RoomKind::Toilet);
    let trash_req = count_rooms(rooms, RoomKind::Trash);
    let normal_req = count_rooms(rooms, RoomKind::Normal);
    proof {
        lemma_count_kind_bound(rooms@, RoomKind::Toilet);
        lemma_count_kind_bound(rooms@, RoomKind::Trash);
        lemma_count_kind_bound(rooms@, RoomKind::Normal);
        lemma_count_kinds_sum(rooms@);
    }
    let specials = toilet_req.saturating_add(trash_req);
    let normals = normal_req.saturating_add(normal_req);
    let t0 = specials.saturating_add(normals).saturating_add(BSP_TARGET_BUFFER);
    if t0 >= 2 { t0 } else { 2 }
}

fn map_dims(config: &MapGenConfig) -> (d: (usize, usize))
    ensures
        (d.0 as int, d.1 as int) == spec_map_dims(config.rooms@, config.map_w, config.map_h, config.area_per_room),
        15 <= d.0 <= 120,
        15 <= d.1 <= 90,
{
    let n = config.rooms.len();
    let area = match config.area_per_room { Some(a) => a, None => AREA_PER_ROOM };
    proof {
        assert((n as int) * (area as int) <= 0xffff_ffff_ffff_ffff * 0xffff_ffff_ffff_ffff) by (nonlinear_arith)
            requires n as int <= 0xffff_ffff_ffff_ffff, area as int <= 0xffff_ffff_ffff_ffff, n >= 0, area >= 0;
    }
    let prod: u128 = (n as u128) * (area as u128);
    let x: u64 = if prod > 40001 { 40001 } else { prod as u64 };
    let auto_c = ceil_sqrt_capped(x, 200);
    proof {
        if prod > 40001 {
            lemma_ceil_sqrt_big(prod as int);
            lemma_ceil_sqrt_big(40001);
        }
    }
    let bsp_target = leaf_budget(&config.rooms);
    let xt: u64 = if bsp_target > 40001 { 40001 } else { bsp_target as u64 };
    let k_c = ceil_sqrt_capped(xt, 200);
    proof {
        if bsp_target > 40001 {
            lemma_ceil_sqrt_big(spec_bsp_target(config.rooms@));
            lemma_ceil_sqrt_big(40001);
        } else {
            assert(bsp_target as int == spec_bsp_target(config.rooms@));
        }
        lemma_ceil_sqrt_from(bsp_target as int, 0);
        assert(ceil_sqrt(bsp_target as int) >= 2) by {
            let c = ceil_sqrt(bsp_target as int);
            if c < 2 {
                assert(c * c <= 1) by (nonlinear_arith) requires 0 <= c < 2;
            }
        }
    }
    let min_dim = (k_c as usize) * (MIN_ROOM_SIZE + 1) - 1 + 2 * BORDER;
    let w0 = match config.map_w { Some(v) => v, None => auto_c as usize };
    let h0 = match config.map_h { Some(v) => v, None => (auto_c as usize) * 3 / 4 };
    let w1 = if w0 > min_dim { w0 } else { min_dim };
    let h1 = if h0 > min_dim { h0 } else { min_dim };
    let w = if w1 < 120 { w1 } else { 120 };
    let h = if h1 < 90 { h1 } else { 90 };
    (w, h)
}

/// Area of a leaf below 13 by 13 cells.
fn leaf_area(r: &BspRect) -> (a: usize)
    requires
        r.w < 13,
        r.h < 13,
    ensures
        a == r.w * r.h,
{
    proof {
        assert(r.w * r.h <= 12 * 12) by (nonlinear_arith) requires r.w < 13, r.h < 13;
    }
    r.w * r.h
}

/// Area of a rectangle.
pub open spec fn rect_area(r: BspRect) -> int {
    r.w * r.h
}

/// Indices `0..n` ordered by leaf area, stably.
fn leaves_by_area(leaves: &Vec<BspRect>) -> (order: Vec<usize>)
    requires
        forall|i: int| 0 <= i < leaves@.len() ==> (#[trigger] leaves@[i]).w < 13 && leaves@[i].h < 13,
    ensures
        order@.len() == leaves@.len(),
        forall|t: int| 0 <= t < order@.len() ==> (#[trigger] order@[t]) < leaves@.len(),
        order@.no_duplicates(),
        forall|t: usize| (t as int) < leaves@.len() ==> #[trigger] order@.contains(t),
        forall|a: int, b: int| 0 <= a < b < order@.len() ==>
            rect_area(leaves@[#[trigger] order@[a] as int]) <= rect_area(leaves@[#[trigger] order@[b] as int]),
{
    let mut order: Vec<usize> = Vec::new();
    let mut i: usize = 0;
    while i < leaves.len()
        invariant
            i <= leaves@.len(),
            order@.len() == i,
            forall|t: int| 0 <= t < order@.len() ==> (#[trigger] order@[t]) < leaves@.len(),
            forall|t: int| 0 <= t < order@.len() ==> (#[trigger] order@[t]) < i,
            order@.no_duplicates(),
            forall|t: usize| t < i ==> #[trigger] order@.contains(t),
            forall|a: int, b: int| 0 <= a < b < order@.len() ==>
                rect_area(leaves@[#[trigger] order@[a] as int]) <= rect_area(leaves@[#[trigger] order@[b] as int]),
            forall|i: int| 0 <= i < leaves@.len() ==> (#[trigger] leaves@[i]).w < 13 && leaves@[i].h < 13,
        decreases leaves@.len() - i,
    {
        proof {
            assert(leaves@[i as int].w * leaves@[i as int].h <= 12 * 12) by (nonlinear_arith)
                requires leaves@[i as int].w < 13, leaves@[i as int].h < 13;
        }
        let a = leaf_area(&leaves[i]);
        let mut pos: usize = 0;
        while pos < order.len() && leaf_area(&leaves[order[pos]]) <= a
            invariant
                pos <= order@.len(),
                forall|t: int| 0 <= t < order@.len() ==> (#[trigger] order@[t]) < leaves@.len(),
                forall|i: int| 0 <= i < leaves@.len() ==> (#[trigger] leaves@[i]).w < 13 && leaves@[i].h < 13,
                forall|t: int| 0 <= t < pos ==> rect_area(leaves@[#[trigger] order@[t] as int]) <= a,
            decreases order@.len() - pos,
        {
            pos = pos + 1;
        }
        let ghost o0 = order@;
        proof {
            o0.insert_ensures(pos as int, i);
            if pos < o0.len() {
                assert(rect_area(leaves@[o0[pos as int] as int]) > a);
            }
        }
        order.insert(pos, i);
        proof {
            assert forall|t: int| 0 <= t < order@.len() implies (#[trigger] order@[t]) < leaves@.len() && order@[t] < i + 1 by {
                if t < pos {
                    assert(order@[t] == o0[t]);
                } else if t > pos {
                    assert(order@[t] == o0[t - 1]);
                }
            }
            assert forall|a: int, b: int| 0 <= a < order@.len() && 0 <= b < order@.len() && a != b
                implies order@[a] != order@[b] by {
                if a != pos as int && b != pos as int {
                    let a0 = if a < pos { a } else { a - 1 };
                    let b0 = if b < pos { b } else { b - 1 };
                    assert(order@[a] == o0[a0] && order@[b] == o0[b0]);
                } else if a == pos as int {
                    let b0 = if b < pos { b } else { b - 1 };
                    assert(order@[b] == o0[b0] && o0[b0] < i);
                } else {
                    let a0 = if a < pos { a } else { a - 1 };
                    assert(order@[a] == o0[a0] && o0[a0] < i);
                }
            }
            assert forall|t: usize| t < i + 1 implies #[trigger] order@.contains(t) by {
                if t == i {
                    assert(order@[pos as int] == t);
                } else {
                    assert(o0.contains(t));
                    let k0 = choose|k: int| 0 <= k < o0.len() && o0[k] == t;
                    if k0 < pos {
                        assert(order@[k0] == t);
                    } else {
                        assert(order@[k0 + 1] == t);
                    }
                }
            }
            assert forall|x: int, y: int| 0 <= x < y < order@.len() implies
                rect_area(leaves@[#[trigger] order@[x] as int]) <= rect_area(leaves@[#[trigger] order@[y] as int]) by {
                let x0 = if x < pos { x } else { x - 1 };
                let y0 = if y < pos { y } else { y - 1 };
                if x == pos as int {
                    assert(order@[y] == o0[y0]);
                    assert(y0 >= pos);
                    assert(rect_area(leaves@[o0[pos as int] as int]) > a);
                    if y0 > pos {
                        assert(rect_area(leaves@[o0[pos as int] as int]) <= rect_area(leaves@[o0[y0] as int]));
                    }
                } else if y == pos as int {
                    assert(order@[x] == o0[x0]);
                    assert(x0 < pos);
                } else {
                    assert(order@[x] == o0[x0] && order@[y] == o0[y0]);
                    assert(x0 < y0);
                }
            }
        }
        i = i + 1;
    }
    order
}

/// `(x, y)` lies inside `r`.
pub open spec fn in_rect(r: BspRect, x: int, y: int) -> bool {
    r.x <= x < r.x + r.w && r.y <= y < r.y + r.h
}

/// `m1` is `m0` with the terrain of every cell inside `r` set to `t`,
/// furniture kept, and every other cell unchanged.
pub open spec fn painted(m0: Seq<Cell>, m1: Seq<Cell>, w: int, r: BspRect, t: Terrain) -> bool {
    &&& m1.len() == m0.len()
    &&& forall|x: int, y: int| 0 <= x < w && 0 <= y && #[trigger] flat(x, y, w) < m0.len() ==>
        m1[flat(x, y, w)] == (if in_rect(r, x, y) {
            Cell { terrain: t, furniture: m0[flat(x, y, w)].furniture }
        } else {
            m0[flat(x, y, w)]
        })
}

/// Set the terrain of every cell of `rect` (furniture kept).
fn paint_rect(map: &mut Vec<Cell>, map_w: usize, rect: &BspRect, t: Terrain)
    requires
        map_ok(old(map)@, map_w as int),
        rect_in(*rect, map_w as int, rows(old(map)@, map_w as int)),
    ensures
        final(map)@.len() == old(map)@.len(),
        painted(old(map)@, final(map)@, map_w as int, *rect, t),
{
    let ghost w = map_w as int;
    let ghost h = rows(map@, w);
    let ghost m0 = map@;
    proof {
        lemma_map_ok(map@, w);
        assert(h <= w * h) by (nonlinear_arith) requires w >= 1, h >= 0;
    }
    let mut y = rect.y;
    while y < rect.y + rect.h
        invariant
            grid_ok(map@, w, h),
            w == map_w as int,
            h <= i32::MAX,
            rect_in(*rect, w, h),
            rect.y <= y <= rect.y + rect.h,
            map@.len() == m0.len(),
            forall|xx: int, yy: int| 0 <= xx < w && 0 <= yy < h ==>
                map@[#[trigger] flat(xx, yy, w)] == (if in_rect(*rect, xx, yy) && yy < y {
                    Cell { terrain: t, furniture: m0[flat(xx, yy, w)].furniture }
                } else {
                    m0[flat(xx, yy, w)]
                }),
        decreases rect.y + rect.h - y,
    {
        let mut x = rect.x;
        while x < rect.x + rect.w
            invariant
                grid_ok(map@, w, h),
                w == map_w as int,
                h <= i32::MAX,
                rect_in(*rect, w, h),
                rect.y <= y < rect.y + rect.h,
                rect.x <= x <= rect.x + rect.w,
                map@.len() == m0.len(),
                forall|xx: int, yy: int| 0 <= xx < w && 0 <= yy < h ==>
                    map@[#[trigger] flat(xx, yy, w)] == (if in_rect(*rect, xx, yy) && (yy < y || (yy == y && xx < x)) {
                        Cell { terrain: t, furniture: m0[flat(xx, yy, w)].furniture }
                    } else {
                        m0[flat(xx, yy, w)]
                    }),
            decreases rect.x + rect.w - x,
        {
            proof {
                lemma_flat_in_range(x as int, y as int, w, h);
            }
            let i = y * map_w + x;
            let c = map[i];
            let ghost pre = map@;
            map.set(i, Cell { terrain: t, furniture: c.furniture });
            proof {
                assert forall|xx: int, yy: int| 0 <= xx < w && 0 <= yy < h implies
                    map@[#[trigger] flat(xx, yy, w)] == (if in_rect(*rect, xx, yy) && (yy < y || (yy == y && xx < x + 1)) {
                        Cell { terrain: t, furniture: m0[flat(xx, yy, w)].furniture }
                    } else {
                        m0[flat(xx, yy, w)]
                    }) by {
                    lemma_flat_in_range(xx, yy, w, h);
                    if xx == x && yy == y {
                    } else {
                        if flat(xx, yy, w) == i as int {
                            crate::cell::lemma_flat_injective(xx, yy, x as int, y as int, w, h);
                        }
                        assert(map@[flat(xx, yy, w)] == pre[flat(xx, yy, w)]);
                    }
                }
            }
            x = x + 1;
        }
        y = y + 1;
    }
    proof {
        assert forall|x: int, y: int| 0 <= x < w && 0 <= y && #[trigger] flat(x, y, w) < m0.len() implies
            map@[flat(x, y, w)] == (if in_rect(*rect, x, y) {
                Cell { terrain: t, furniture: m0[flat(x, y, w)].furniture }
            } else {
                m0[flat(x, y, w)]
            }) by {
            if y >= h {
                assert(y * w >= h * w) by (nonlinear_arith) requires y >= h, w >= 0;
                assert(m0.len() == w * h);
                assert(h * w == w * h) by (nonlinear_arith);
            }
            assert(map@[flat(x, y, w)] == (if in_rect(*rect, x, y) && y < rect.y + rect.h {
                Cell { terrain: t, furniture: m0[flat(x, y, w)].furniture }
            } else {
                m0[flat(x, y, w)]
            }));
        }
    }
}

/// The cells of a wall as a rectangle.
fn wall_rect(wall: &WallLine) -> (r: BspRect)
    ensures
        match *wall {
            WallLine::Horizontal { y, x0, x1 } => r == BspRect { x: x0, y, w: if x1 >= x0 { (x1 - x0) as usize } else { 0 }, h: 1 },
            WallLine::Vertical { x, y0, y1 } => r == BspRect { x, y: y0, w: 1, h: if y1 >= y0 { (y1 - y0) as usize } else { 0 } },
        },
{
    match wall {
        WallLine::Horizontal { y, x0, x1 } => BspRect { x: *x0, y: *y, w: x1.saturating_sub(*x0), h: 1 },
        WallLine::Vertical { x, y0, y1 } => BspRect { x: *x, y: *y0, w: 1, h: y1.saturating_sub(*y0) },
    }
}

/// A `w` by `h` map has `h` rows.
proof fn lemma_rows(len: int, w: int, h: int)
    requires
        len == w * h,
        w > 0,
        h >= 0,
    ensures
        len % w == 0,
        len / w == h,
{
    assert(len == h * w + 0) by (nonlinear_arith) requires len == w * h;
    vstd::arithmetic::div_mod::lemma_fundamental_div_mod_converse(len, w, h, 0);
}

/// Group ids are below the number of groups.
proof fn lemma_group_id_bound(uf: UnionFind, i: int)
    requires
        uf.wf(),
        0 <= i < uf.size(),
    ensures
        roots_below(uf.parent@, uf.root(i)).len() < uf.num_classes(),
{
    lemma_root_basic(uf.parent@, uf.rank@, i);
    let r = uf.root(i);
    vstd::set_lib::lemma_int_range(0, uf.parent@.len() as int);
    assert(roots_of(uf.parent@).subset_of(vstd::set_lib::set_int_range(0, uf.parent@.len() as int)));
    vstd::set_lib::lemma_len_subset(roots_of(uf.parent@), vstd::set_lib::set_int_range(0, uf.parent@.len() as int));
    assert(roots_below(uf.parent@, r).subset_of(roots_of(uf.parent@).remove(r)));
    vstd::set_lib::lemma_len_subset(roots_below(uf.parent@, r), roots_of(uf.parent@).remove(r));
}

/// The `k`-th cell of the cross around `(l.x + 1, l.y + 1)`: the centre,
/// then left, right, up and down.
pub open spec fn core_cell(l: BspRect, k: int) -> (int, int) {
    let x = l.x + 1;
    let y = l.y + 1;
    if k == 0 { (x, y) } else if k == 1 { (x - 1, y) } else if k == 2 { (x + 1, y) }
    else if k == 3 { (x, y - 1) } else { (x, y + 1) }
}

/// The cross of five cells around `(l.x + 1, l.y + 1)` is floor.
pub open spec fn core_floor(map: Seq<Cell>, w: int, l: BspRect) -> bool {
    forall|k: int| 0 <= k < 5 ==>
        #[trigger] map[flat(core_cell(l, k).0, core_cell(l, k).1, w)].terrain == Terrain::Floor
}

/// Leaves of kind `k`.
pub open spec fn kind_set(lk: Seq<RoomKind>, k: RoomKind) -> Set<int> {
    Set::new(|t: int| 0 <= t < lk.len() && lk[t] == k)
}

/// Toilet and Trash leaves are never larger than a Normal leaf, and no
/// Toilet leaf is larger than a Trash leaf.
pub open spec fn specials_smallest(lv: Seq<BspRect>, lk: Seq<RoomKind>) -> bool {
    forall|a: int, b: int| 0 <= a < lv.len() && 0 <= b < lv.len()
        && (((lk[a] == RoomKind::Toilet || lk[a] == RoomKind::Trash) && lk[b] == RoomKind::Normal)
            || (lk[a] == RoomKind::Toilet && lk[b] == RoomKind::Trash))
        ==> rect_area(#[trigger] lv[a]) <= rect_area(#[trigger] lv[b])
}

/// Kinds handed out along an area order, Toilet to its first `nt` entries
/// and Trash to the next `nr`, go to the smallest leaves.
proof fn lemma_specials_smallest(lv: Seq<BspRect>, lk: Seq<RoomKind>, by: Seq<usize>, nt: int, nr: int)
    requires
        by.len() == lv.len(),
        lk.len() == lv.len(),
        lv.len() <= usize::MAX,
        by.no_duplicates(),
        0 <= nt,
        0 <= nr,
        nt + nr <= by.len(),
        forall|t: usize| (t as int) < lv.len() ==> #[trigger] by.contains(t),
        forall|a: int, b: int| 0 <= a < b < by.len() ==>
            rect_area(lv[#[trigger] by[a] as int]) <= rect_area(lv[#[trigger] by[b] as int]),
        forall|t: int| 0 <= t < lk.len() ==> (lk[t] == RoomKind::Toilet <==>
            exists|j: int| 0 <= j < nt && #[trigger] by[j] as int == t),
        forall|t: int| 0 <= t < lk.len() ==> (lk[t] == RoomKind::Trash <==>
            exists|j: int| nt <= j < nt + nr && #[trigger] by[j] as int == t),
    ensures
        specials_smallest(lv, lk),
{
    assert forall|a: int, b: int| 0 <= a < lv.len() && 0 <= b < lv.len()
        && (((lk[a] == RoomKind::Toilet || lk[a] == RoomKind::Trash) && lk[b] == RoomKind::Normal)
            || (lk[a] == RoomKind::Toilet && lk[b] == RoomKind::Trash))
        implies rect_area(#[trigger] lv[a]) <= rect_area(#[trigger] lv[b]) by {
        assert(by.contains(a as usize));
        assert(by.contains(b as usize));
        let ja = choose|k: int| 0 <= k < by.len() && by[k] == a as usize;
        let jb = choose|k: int| 0 <= k < by.len() && by[k] == b as usize;
        assert(by[ja] as int == a);
        assert(by[jb] as int == b);
        if lk[a] == RoomKind::Toilet {
            let j = choose|j: int| 0 <= j < nt && #[trigger] by[j] as int == a;
            assert(j == ja);
        } else {
            let j = choose|j: int| nt <= j < nt + nr && #[trigger] by[j] as int == a;
            assert(j == ja);
        }
        if jb < nt {
            assert(lk[b] == RoomKind::Toilet);
        } else if jb < nt + nr {
            assert(lk[b] == RoomKind::Trash);
        }
        assert(ja < jb);
    }
}

/// Every wall line carries a door, or has no clear place left for one.
pub open spec fn walls_forced(m: Seq<Cell>, w: int, h: int, wl: Seq<WallLine>) -> bool {
    forall|j: int| 0 <= j < wl.len() ==> #[trigger] wall_has_door(m, w, h, wl[j]) || wall_door_blocked(m, w, h, wl[j])
}

/// The walls and room groups behind a generated map: every wall on the grid
/// and off every leaf, leaves and walls together covering the interior,
/// leaves of one group sharing a kind and each Toilet or Trash leaf a group
/// of its own; and, with door cutting on, every leaf left with no connection
/// at all has no room for a door to any leaf facing it across a wall, and the
/// walkable cells are connected unless every wall got a door or has no room
/// for one.
pub open spec fn door_layout(cells: Seq<Cell>, w: int, h: int, debug_doors: bool, lv: Seq<BspRect>,
    lk: Seq<RoomKind>, wl: Seq<WallLine>, lg: Seq<usize>) -> bool {
    &&& lg.len() == lv.len()
    &&& lk.len() == lv.len()
    &&& leaves_off_walls(lv, wl)
    &&& forall|j: int| 0 <= j < wl.len() ==> wall_in(#[trigger] wl[j], w, h)
    &&& forall|x: int, y: int| BORDER <= x < w - BORDER && BORDER <= y < h - BORDER ==> #[trigger] bsp_covers(lv, wl, 0, x, y)
    &&& forall|a: int, b: int| 0 <= a < lv.len() && 0 <= b < lv.len() && #[trigger] lg[a] == #[trigger] lg[b] ==> lk[a] == lk[b]
    &&& forall|a: int, b: int| 0 <= a < lv.len() && 0 <= b < lv.len() && a != b
        && (lk[a] == RoomKind::Toilet || lk[a] == RoomKind::Trash) ==> #[trigger] lg[a] != #[trigger] lg[b]
    &&& debug_doors ==> leaves_saturated(cells, w, h, lv, wl, lg)
    &&& debug_doors ==> floor_connected(cells, w, h) || walls_forced(cells, w, h, wl)
}

/// In a generated map with door cutting on, the walkable cells are connected,
/// or else every wall line got a door or has no clear place left for one:
/// the connectivity fix forces a door wherever one fits.
pub proof fn lemma_generated_floor_linked(cells: Seq<Cell>, w: int, h: int, lv: Seq<BspRect>, lk: Seq<RoomKind>,
    wl: Seq<WallLine>, lg: Seq<usize>, j: int)
    requires
        door_layout(cells, w, h, true, lv, lk, wl, lg),
        !floor_connected(cells, w, h),
        0 <= j < wl.len(),
    ensures
        wall_has_door(cells, w, h, wl[j]) || wall_door_blocked(cells, w, h, wl[j]),
{
}

/// A map without doors has no door on the range two leaves share along a
/// wall inside the grid.
proof fn lemma_doorless_overlap(cells: Seq<Cell>, w: int, h: int, a: BspRect, b: BspRect, wl: WallLine)
    requires
        cells.len() == w * h,
        no_doors(cells),
        wall_in(wl, w, h),
        0 <= a.x && a.x + a.w <= w && 0 <= a.y && a.y + a.h <= h,
    ensures
        !crate::doors::door_on_overlap(cells, w, h, a, b, wl),
{
    match wl {
        WallLine::Horizontal { y, x0, x1 } => {
            assert forall|x: int| vstd::math::max(a.x as int, b.x as int) <= x < vstd::math::min(a.x + a.w, b.x + b.w)
                implies !#[trigger] crate::map_gen::ter(cells, w, x, y as int).spec_is_door() by {
                lemma_flat_in_range(x, y as int, w, h);
            }
        },
        WallLine::Vertical { x, y0, y1 } => {
            assert forall|y: int| vstd::math::max(a.y as int, b.y as int) <= y < vstd::math::min(a.y + a.h, b.y + b.h)
                implies !#[trigger] crate::map_gen::ter(cells, w, x as int, y).spec_is_door() by {
                lemma_flat_in_range(x as int, y, w, h);
            }
        },
    }
}

/// In a generated map with door cutting on and no door at all, no door fits
/// between a room and any room of another group facing it across a wall:
/// doors are cut wherever one fits, so where two groups face each other with
/// room for a door between them the map has at least one door.
pub proof fn lemma_doorless_no_fit(cells: Seq<Cell>, kinds: Seq<Option<RoomKind>>, w: int, h: int,
    lv: Seq<BspRect>, lk: Seq<RoomKind>, wl: Seq<WallLine>, lg: Seq<usize>, a: int, b: int, j: int)
    requires
        cells.len() == w * h,
        leaf_layout(cells, kinds, w, h, lv, lk),
        door_layout(cells, w, h, true, lv, lk, wl, lg),
        no_doors(cells),
        0 <= a < lv.len(),
        0 <= b < lv.len(),
        0 <= j < wl.len(),
        crate::doors::facing_either(lv[a], lv[b], wl[j]),
        forall|b2: int, j2: int| 0 <= b2 < lv.len() && 0 <= j2 < wl.len()
            && #[trigger] crate::doors::facing_either(lv[a], lv[b2], wl[j2]) ==> lg[a] != lg[b2],
    ensures
        crate::doors::leaf_door_fails(cells, w, h, lv, wl, lg, a, b, j),
{
    assert forall|b2: int, j2: int| 0 <= b2 < lv.len() && 0 <= j2 < wl.len()
        && #[trigger] crate::doors::facing_either(lv[a], lv[b2], wl[j2])
        implies lg[a] != lg[b2] && !crate::doors::door_on_overlap(cells, w, h, lv[a], lv[b2], wl[j2]) by {
        let r = lv[a];
        assert(BORDER <= r.x && r.x + r.w <= w - BORDER && BORDER <= r.y && r.y + r.h <= h - BORDER);
        assert(wall_in(wl[j2], w, h));
        lemma_doorless_overlap(cells, w, h, lv[a], lv[b2], wl[j2]);
    }
    assert(leaf_isolated(cells, w, h, lv, wl, lg, a));
}

/// Cover only turns floor into walls inside leaves, keeping the floor
/// connected where it was; walls keep their doors or their lack of room.
proof fn lemma_cover_keeps_link(m0: Seq<Cell>, m1: Seq<Cell>, w: int, h: int, leaves: Seq<BspRect>,
    walls: Seq<WallLine>)
    requires
        grows_doors(m0, m1),
        m0.len() == w * h,
        forall|j: int| 0 <= j < walls.len() ==> wall_in(#[trigger] walls[j], w, h),
        forall|t: int| 0 <= t < leaves.len() ==> rect_in(#[trigger] leaves[t], w, h),
        forall|s: int, t: int| 0 <= s < t < leaves.len() ==> rects_disjoint(#[trigger] leaves[s], #[trigger] leaves[t]),
        inner_floor(m0, w, leaves),
        floor_connected(m0, w, h) && cover_room(m0, w, h, leaves) ==> floor_connected(m1, w, h),
        floor_connected(m0, w, h) || walls_forced(m0, w, h, walls),
    ensures
        floor_connected(m1, w, h) || walls_forced(m1, w, h, walls),
{
    if floor_connected(m0, w, h) {
        assert forall|s1: int, t1: int| 0 <= s1 < leaves.len() && 0 <= t1 < leaves.len() && s1 != t1
            implies rects_disjoint(#[trigger] leaves[s1], #[trigger] leaves[t1]) by {
            if s1 > t1 {
                assert(rects_disjoint(leaves[t1], leaves[s1]));
            }
        }
        assert forall|t: int, x: int, y: int| 0 <= t < leaves.len() && leaves[t].w >= crate::map_gen::CA_MIN_LEAF_DIM
            && leaves[t].h >= crate::map_gen::CA_MIN_LEAF_DIM && #[trigger] crate::map_gen::inner_cell(leaves[t], x, y)
            implies crate::cell::open_at(m0, w, h, x, y) by {
            assert(inner_has(leaves[t], x, y));
            assert(rect_in(leaves[t], w, h));
            assert(m0[flat(x, y, w)].terrain == Terrain::Floor);
        }
        assert(cover_room(m0, w, h, leaves));
    } else {
        assert forall|j: int| 0 <= j < walls.len() implies #[trigger] wall_has_door(m1, w, h, walls[j])
            || wall_door_blocked(m1, w, h, walls[j]) by {
            lemma_wall_forced_grows(m0, m1, w, h, walls[j]);
        }
    }
}

/// The leaf layout together with its walls and room groups.
pub open spec fn full_layout(cells: Seq<Cell>, kinds: Seq<Option<RoomKind>>, w: int, h: int, debug_doors: bool,
    lv: Seq<BspRect>, lk: Seq<RoomKind>, wl: Seq<WallLine>, lg: Seq<usize>) -> bool {
    leaf_layout(cells, kinds, w, h, lv, lk) && door_layout(cells, w, h, debug_doors, lv, lk, wl, lg)
}

/// In a generated map with door cutting on, a Toilet or Trash room that got
/// no door to any room facing it across a wall has no room for such a door:
/// door cutting never leaves a special room shut in while a door fits.
pub proof fn lemma_special_leaf_doors(cells: Seq<Cell>, w: int, h: int, lv: Seq<BspRect>, lk: Seq<RoomKind>,
    wl: Seq<WallLine>, lg: Seq<usize>, a: int)
    requires
        door_layout(cells, w, h, true, lv, lk, wl, lg),
        0 <= a < lv.len(),
        lk[a] == RoomKind::Toilet || lk[a] == RoomKind::Trash,
        forall|b: int, j: int| 0 <= b < lv.len() && 0 <= j < wl.len()
            && #[trigger] crate::doors::facing_either(lv[a], lv[b], wl[j])
            ==> !crate::doors::door_on_overlap(cells, w, h, lv[a], lv[b], wl[j]),
    ensures
        forall|b: int, j: int| 0 <= b < lv.len() && 0 <= j < wl.len()
            && #[trigger] crate::doors::facing_either(lv[a], lv[b], wl[j])
            ==> crate::doors::leaf_door_fails(cells, w, h, lv, wl, lg, a, b, j),
{
    assert forall|b: int, j: int| 0 <= b < lv.len() && 0 <= j < wl.len()
        && #[trigger] crate::doors::facing_either(lv[a], lv[b], wl[j]) implies
        lg[a] != lg[b] && !crate::doors::door_on_overlap(cells, w, h, lv[a], lv[b], wl[j]) by {
        assert(b != a);
        assert(lg[a] != lg[b]);
    }
    assert(leaf_isolated(cells, w, h, lv, wl, lg, a));
}

/// Number of leaves of kind `k`.
pub open spec fn kind_leaves(lk: Seq<RoomKind>, k: RoomKind) -> nat {
    kind_set(lk, k).len()
}

/// Two elements with the same group number are in the same class.
proof fn lemma_group_id_inj(uf: UnionFind, i: int, j: int)
    requires
        uf.wf(),
        0 <= i < uf.size(),
        0 <= j < uf.size(),
        roots_below(uf.parent@, uf.root(i)).len() == roots_below(uf.parent@, uf.root(j)).len(),
    ensures
        uf.root(i) == uf.root(j),
{
    lemma_root_basic(uf.parent@, uf.rank@, i);
    lemma_root_basic(uf.parent@, uf.rank@, j);
    let p = uf.parent@;
    let r1 = uf.root(i);
    let r2 = uf.root(j);
    vstd::set_lib::lemma_int_range(0, p.len() as int);
    if r1 != r2 {
        let (lo, hi) = if r1 < r2 { (r1, r2) } else { (r2, r1) };
        assert(roots_below(p, hi).subset_of(vstd::set_lib::set_int_range(0, p.len() as int)));
        vstd::set_lib::lemma_len_subset(roots_below(p, hi), vstd::set_lib::set_int_range(0, p.len() as int));
        assert(roots_below(p, lo).subset_of(vstd::set_lib::set_int_range(0, p.len() as int)));
        vstd::set_lib::lemma_len_subset(roots_below(p, lo), vstd::set_lib::set_int_range(0, p.len() as int));
        assert(roots_below(p, lo).insert(lo).subset_of(roots_below(p, hi)));
        assert(!roots_below(p, lo).contains(lo));
        vstd::set_lib::lemma_len_subset(roots_below(p, lo).insert(lo), roots_below(p, hi));
    }
}

/// When exactly the leaves listed at positions `lo..hi` of a duplicate-free
/// order have kind `k`, there are `hi - lo` of them.
proof fn lemma_kind_leaf_count(lk: Seq<RoomKind>, by: Seq<usize>, lo: int, hi: int, k: RoomKind)
    requires
        by.no_duplicates(),
        0 <= lo <= hi <= by.len(),
        forall|j: int| 0 <= j < by.len() ==> (#[trigger] by[j]) < lk.len(),
        forall|t: int| 0 <= t < lk.len() ==> (lk[t] == k <==> exists|j: int| lo <= j < hi && #[trigger] by[j] as int == t),
    ensures
        kind_leaves(lk, k) == hi - lo,
{
    let f = |j: int| by[j] as int;
    let x = vstd::set_lib::set_int_range(lo, hi);
    let y = kind_set(lk, k);
    vstd::set_lib::lemma_int_range(lo, hi);
    assert(x.map(f) =~= y) by {
        assert forall|t: int| #[trigger] y.contains(t) implies x.map(f).contains(t) by {
            let j = choose|j: int| lo <= j < hi && #[trigger] by[j] as int == t;
            assert(x.contains(j) && f(j) == t);
        }
        assert forall|t: int| #[trigger] x.map(f).contains(t) implies y.contains(t) by {
            let j = choose|j: int| x.contains(j) && f(j) == t;
            assert(by[j] as int == t);
        }
    }
    assert(vstd::relations::injective_on(f, x)) by {
        assert forall|a: int, b: int| x.contains(a) && x.contains(b) && #[trigger] f(a) == #[trigger] f(b) implies a == b by {
            if a != b {
                assert(by[a] != by[b]);
            }
        }
    }
    vstd::set_lib::lemma_map_size(x, y, f);
    assert(y.len() == hi - lo);
}

/// No cell of `m` is a door.
pub open spec fn no_doors(m: Seq<Cell>) -> bool {
    forall|c: int| 0 <= c < m.len() ==> !(#[trigger] m[c]).terrain.spec_is_door()
}

proof fn lemma_paint_no_doors(mb: Seq<Cell>, m: Seq<Cell>, w: int, h: int, r: BspRect, t: Terrain)
    requires
        painted(mb, m, w, r, t),
        !t.spec_is_door(),
        no_doors(mb),
        mb.len() == w * h,
        w > 0,
    ensures
        no_doors(m),
{
    assert forall|c: int| 0 <= c < m.len() implies !(#[trigger] m[c]).terrain.spec_is_door() by {
        crate::cell::lemma_unflat(c, w, h);
        let x = c % w;
        let y = c / w;
        assert(flat(x, y, w) == c);
        assert(!mb[c].terrain.spec_is_door());
    }
}

/// `(x, y)` lies inside leaf `r`, at least one cell away from its edge.
pub open spec fn inner_has(r: BspRect, x: int, y: int) -> bool {
    r.x + 1 <= x < r.x + r.w - 1 && r.y + 1 <= y < r.y + r.h - 1
}

/// Every cell of the first `n` leaves is floor.
pub open spec fn leaves_floor(map: Seq<Cell>, w: int, leaves: Seq<BspRect>, n: int) -> bool {
    forall|t: int, x: int, y: int| 0 <= t < n && #[trigger] rect_has(leaves[t], x, y)
        ==> map[flat(x, y, w)].terrain == Terrain::Floor
}

/// Every inner cell of every leaf is floor.
pub open spec fn inner_floor(map: Seq<Cell>, w: int, leaves: Seq<BspRect>) -> bool {
    forall|t: int, x: int, y: int| 0 <= t < leaves.len() && #[trigger] inner_has(leaves[t], x, y)
        ==> map[flat(x, y, w)].terrain == Terrain::Floor
}

/// No cell of a leaf lies on a wall line.
pub open spec fn leaves_off_walls(leaves: Seq<BspRect>, walls: Seq<WallLine>) -> bool {
    forall|i: int, j: int, x: int, y: int| 0 <= i < leaves.len() && 0 <= j < walls.len() ==>
        !(#[trigger] rect_has(leaves[i], x, y) && #[trigger] on_wall(walls[j], x, y))
}

/// The generated map over BSP leaves `leaves` of room kinds `lk`: the leaves
/// are disjoint rooms of at least `MIN_ROOM_SIZE` cells a side inside the
/// one-cell border; every cell with a kind lies in a leaf; every inner cell
/// of a leaf is floor or cover wall, floor ones carry their leaf's kind, and
/// no 2x2 block of a leaf's inner cells is all wall.
pub open spec fn leaf_layout(cells: Seq<Cell>, kinds: Seq<Option<RoomKind>>, w: int, h: int,
    leaves: Seq<BspRect>, lk: Seq<RoomKind>) -> bool {
    &&& leaves.len() >= 1
    &&& lk.len() == leaves.len()
    &&& forall|c: int| 0 <= c < kinds.len() && (#[trigger] kinds[c]) is Some ==>
        exists|t: int, x: int, y: int| 0 <= t < leaves.len() && 0 <= x < w && c == flat(x, y, w)
            && #[trigger] rect_has(leaves[t], x, y)
    &&& forall|t: int| 0 <= t < leaves.len() ==> {
        let r = #[trigger] leaves[t];
        &&& BORDER <= r.x && r.x + r.w <= w - BORDER && BORDER <= r.y && r.y + r.h <= h - BORDER
        &&& r.w >= MIN_ROOM_SIZE && r.h >= MIN_ROOM_SIZE
    }
    &&& forall|s: int, t: int| 0 <= s < t < leaves.len() ==> rects_disjoint(#[trigger] leaves[s], #[trigger] leaves[t])
    &&& forall|t: int, x: int, y: int| 0 <= t < leaves.len() && #[trigger] inner_has(leaves[t], x, y) ==> {
        &&& cells[flat(x, y, w)].terrain == Terrain::Floor || cells[flat(x, y, w)].terrain == Terrain::Wall
        &&& cells[flat(x, y, w)].terrain == Terrain::Floor ==> kinds[flat(x, y, w)] == Some(lk[t])
    }
    &&& forall|t: int, x: int, y: int| 0 <= t < leaves.len() && #[trigger] inner_has(leaves[t], x, y)
        && inner_has(leaves[t], x + 1, y + 1) ==> !block_walls(cells, w, h, x, y)
}

proof fn lemma_paint_leaf(mb: Seq<Cell>, m: Seq<Cell>, w: int, h: int, leaves: Seq<BspRect>, li: int)
    requires
        0 <= li < leaves.len(),
        mb.len() == w * h,
        w >= 0,
        forall|t: int| 0 <= t < leaves.len() ==> rect_in(#[trigger] leaves[t], w, h),
        painted(mb, m, w, leaves[li], Terrain::Floor),
        leaves_floor(mb, w, leaves, li),
    ensures
        leaves_floor(m, w, leaves, li + 1),
{
    assert forall|t: int, x: int, y: int| 0 <= t < li + 1 && #[trigger] rect_has(leaves[t], x, y)
        implies m[flat(x, y, w)].terrain == Terrain::Floor by {
        assert(rect_in(leaves[t], w, h));
        lemma_flat_in_range(x, y, w, h);
        if t < li {
            assert(mb[flat(x, y, w)].terrain == Terrain::Floor);
        } else {
            assert(in_rect(leaves[li], x, y));
        }
    }
}

proof fn lemma_paint_wall(mb: Seq<Cell>, m: Seq<Cell>, w: int, h: int, leaves: Seq<BspRect>,
    walls: Seq<WallLine>, j: int, r: BspRect)
    requires
        0 <= j < walls.len(),
        mb.len() == w * h,
        w >= 0,
        forall|t: int| 0 <= t < leaves.len() ==> rect_in(#[trigger] leaves[t], w, h),
        leaves_off_walls(leaves, walls),
        forall|x: int, y: int| in_rect(r, x, y) ==> on_wall(walls[j], x, y),
        painted(mb, m, w, r, Terrain::Wall),
        leaves_floor(mb, w, leaves, leaves.len() as int),
    ensures
        leaves_floor(m, w, leaves, leaves.len() as int),
{
    assert forall|t: int, x: int, y: int| 0 <= t < leaves.len() && #[trigger] rect_has(leaves[t], x, y)
        implies m[flat(x, y, w)].terrain == Terrain::Floor by {
        assert(rect_in(leaves[t], w, h));
        lemma_flat_in_range(x, y, w, h);
        assert(!(rect_has(leaves[t], x, y) && on_wall(walls[j], x, y)));
        assert(!in_rect(r, x, y));
        assert(mb[flat(x, y, w)].terrain == Terrain::Floor);
    }
}

proof fn lemma_leaves_inner(m: Seq<Cell>, w: int, leaves: Seq<BspRect>)
    requires
        leaves_floor(m, w, leaves, leaves.len() as int),
    ensures
        inner_floor(m, w, leaves),
{
    assert forall|t: int, x: int, y: int| 0 <= t < leaves.len() && #[trigger] inner_has(leaves[t], x, y)
        implies m[flat(x, y, w)].terrain == Terrain::Floor by {
        assert(rect_has(leaves[t], x, y));
    }
}

proof fn lemma_seal_inner(mb: Seq<Cell>, m: Seq<Cell>, w: int, h: int, leaves: Seq<BspRect>)
    requires
        mb.len() == w * h,
        w >= 0,
        forall|t: int| 0 <= t < leaves.len() ==> rect_in(#[trigger] leaves[t], w, h),
        leaves_floor(mb, w, leaves, leaves.len() as int),
        forall|x: int, y: int| #![trigger m[flat(x, y, w)]] crate::cell::in_grid(x, y, w, h)
            ==> m[flat(x, y, w)] == sealed_cell(mb, w, h, x, y),
    ensures
        inner_floor(m, w, leaves),
{
    assert forall|t: int, x: int, y: int| 0 <= t < leaves.len() && #[trigger] inner_has(leaves[t], x, y)
        implies m[flat(x, y, w)].terrain == Terrain::Floor by {
        let l = leaves[t];
        assert(rect_in(l, w, h));
        assert(rect_has(l, x, y));
        assert(rect_has(l, x - 1, y));
        assert(rect_has(l, x + 1, y));
        assert(rect_has(l, x, y - 1));
        assert(rect_has(l, x, y + 1));
        assert(!touches_void(mb, w, h, x, y));
        assert(!all_void_around(mb, w, h, x, y));
        assert(m[flat(x, y, w)] == sealed_cell(mb, w, h, x, y));
    }
}

proof fn lemma_doors_keep_inner(m0: Seq<Cell>, m: Seq<Cell>, w: int, h: int, leaves: Seq<BspRect>,
    walls: Seq<WallLine>)
    requires
        m0.len() == w * h,
        m.len() == m0.len(),
        w > 0,
        rows(m0, w) == h,
        forall|t: int| 0 <= t < leaves.len() ==> rect_in(#[trigger] leaves[t], w, h),
        leaves_off_walls(leaves, walls),
        inner_floor(m0, w, leaves),
        crate::doors::doors_on_walls(m0, m, w, walls),
    ensures
        inner_floor(m, w, leaves),
{
    reveal(crate::doors::doors_on_walls);
    assert forall|t: int, x: int, y: int| 0 <= t < leaves.len() && #[trigger] inner_has(leaves[t], x, y)
        implies m[flat(x, y, w)].terrain == Terrain::Floor by {
        let c = flat(x, y, w);
        assert(rect_in(leaves[t], w, h));
        lemma_flat_in_range(x, y, w, h);
        if m[c] != m0[c] {
            let (j, x2, y2) = choose|j: int, x2: int, y2: int| 0 <= j < walls.len() && 0 <= x2 < w && c == flat(x2, y2, w)
                && #[trigger] on_wall(walls[j], x2, y2) && crate::doors::across_floor(m, w, h, walls[j], x2, y2)
                && !crate::map_gen::door_near(m0, w, h, x2, y2, crate::map_gen::MIN_DOOR_GAP as int);
            assert(0 <= y2 < h) by (nonlinear_arith)
                requires c == y2 * w + x2, 0 <= x2 < w, 0 <= c < w * h, w > 0;
            lemma_flat_injective(x, y, x2, y2, w, h);
            assert(rect_has(leaves[t], x, y));
            assert(!(rect_has(leaves[t], x, y) && on_wall(walls[j], x, y)));
        }
    }
}

/// Generate a complete map: size it, split the interior into BSP leaves,
/// allocate room kinds, merge Normal leaves into groups, carve, seal the
/// void, open merge walls, cut doors (forcing doors on every wall if the
/// floor is left disconnected) and grow cover. `None` when the door step
/// leaves no walkable cell.
#[verifier::rlimit(60)]
#[verifier::spinoff_prover]
pub fn generate_map(config: &MapGenConfig, rng: &mut MapRng) -> (r: Option<GeneratedMap>)
    ensures
        r is Some,
        r matches Some(gm) ==> {
            let dims = spec_map_dims(config.rooms@, config.map_w, config.map_h, config.area_per_room);
            &&& gm.width as int == dims.0
            &&& gm.height as int == dims.1
            &&& gm.cells@.len() == dims.0 * dims.1
            &&& gm.cell_kinds@.len() == gm.cells@.len()
            &&& gm.requested_rooms@ == config.rooms@
            &&& forall|c: int| 0 <= c < gm.cells@.len() && (#[trigger] gm.cell_kinds@[c]) is Some ==>
                gm.cells@[c].terrain.spec_walkable() || gm.cells@[c].terrain == Terrain::Toilet
            &&& !config.debug_doors ==> no_doors(gm.cells@)
            &&& exists|lv: Seq<BspRect>, lk: Seq<RoomKind>, wl: Seq<WallLine>, lg: Seq<usize>|
                #[trigger] full_layout(gm.cells@, gm.cell_kinds@, dims.0, dims.1, config.debug_doors, lv, lk, wl, lg)
            &&& exists|lv: Seq<BspRect>, lk: Seq<RoomKind>| #[trigger] leaf_layout(gm.cells@, gm.cell_kinds@, dims.0, dims.1, lv, lk)
                && specials_smallest(lv, lk)
                && kind_leaves(lk, RoomKind::Toilet) == spec_cascade(lv.len() as int, count_kind(config.rooms@, RoomKind::Toilet),
                    count_kind(config.rooms@, RoomKind::Trash), count_kind(config.rooms@, RoomKind::Normal)).0
                && kind_leaves(lk, RoomKind::Trash) == spec_cascade(lv.len() as int, count_kind(config.rooms@, RoomKind::Toilet),
                    count_kind(config.rooms@, RoomKind::Trash), count_kind(config.rooms@, RoomKind::Normal)).1
        },
{
    let (map_w, map_h) = map_dims(config);
    let toilet_req = count_rooms(&config.rooms, RoomKind::Toilet);
    let trash_req = count_rooms(&config.rooms, RoomKind::Trash);
    let normal_req = count_rooms(&config.rooms, RoomKind::Normal);
    proof {
        lemma_count_kind_bound(config.rooms@, RoomKind::Toilet);
        lemma_count_kind_bound(config.rooms@, RoomKind::Trash);
        lemma_count_kind_bound(config.rooms@, RoomKind::Normal);
    }
    proof {
        lemma_count_kinds_sum(config.rooms@);
    }
    let bsp_target = leaf_budget(&config.rooms);

    proof {
        assert(map_w * map_h <= 120 * 90) by (nonlinear_arith) requires map_w <= 120, map_h <= 90;
    }
    let total = map_w * map_h;
    let mut map: Vec<Cell> = Vec::new();
    let mut i: usize = 0;
    while i < total
        invariant
            i <= total,
            map@.len() == i,
            forall|c: int| 0 <= c < i ==> (#[trigger] map@[c]).terrain == Terrain::Void,
        decreases total - i,
    {
        map.push(Cell { terrain: Terrain::Void, furniture: None });
        i = i + 1;
    }
    let ghost w = map_w as int;
    let ghost h = map_h as int;
    proof {
        assert(map@.len() == w * h);
        assert(w * h <= 120 * 90) by (nonlinear_arith) requires w <= 120, h <= 90, 0 <= w, 0 <= h;
        lemma_rows(map@.len() as int, w, h);
        assert(map_ok(map@, w));
        assert(rows(map@, w) == h);
    }
    proof {
        assert(no_doors(map@));
    }
    let interior = BspRect { x: BORDER, y: BORDER, w: map_w - 2 * BORDER, h: map_h - 2 * BORDER };

    // Step 1: BSP.
    let mut walls: Vec<WallLine> = Vec::new();
    let leaves = bsp_subdivide(interior, &mut walls, rng, bsp_target);
    proof {
        assert forall|t: int| 0 <= t < leaves@.len() implies rect_in(#[trigger] leaves@[t], w, h)
            && rect_fits(leaves@[t]) && rect_in_grid(leaves@[t], w, h) by {
            assert(rect_within(leaves@[t], interior));
        }
        assert forall|t: int| 0 <= t < walls@.len() implies wall_in(#[trigger] walls@[t], w, h)
            && wall_fits(walls@[t]) by {
            assert(wall_within(walls@[t], interior));
        }
    }

    let ghost l0 = leaves@[0];
    proof {
        assert(leaves_off_walls(leaves@, walls@));
        assert forall|x: int, y: int| BORDER <= x < w - BORDER && BORDER <= y < h - BORDER implies
            #[trigger] bsp_covers(leaves@, walls@, 0, x, y) by {
            assert(rect_has(interior, x, y));
        }
        assert forall|t: int| 0 <= t < leaves@.len() implies {
            let r = #[trigger] leaves@[t];
            &&& BORDER <= r.x && r.x + r.w <= w - BORDER && BORDER <= r.y && r.y + r.h <= h - BORDER
            &&& r.w >= MIN_ROOM_SIZE && r.h >= MIN_ROOM_SIZE
        } by {
            assert(rect_within(leaves@[t], interior));
        }
    }
    proof {
        assert(rect_within(l0, interior));
        assert(l0.w >= 3 && l0.h >= 3);
        assert(l0.x + 3 <= w && l0.y + 3 <= h);
        assert forall|j: int, x: int, y: int| 0 <= j < walls@.len() implies
            !(#[trigger] rect_has(l0, x, y) && #[trigger] on_wall(walls@[j], x, y)) by {
            assert(!(rect_has(leaves@[0], x, y) && on_wall(walls@[j], x, y)));
        }
    }

    // Step 2a: kind allocation.
    let edges = find_leaf_edges(leaves.as_slice(), walls.as_slice());
    let (a_toilet, a_trash, a_normal) = cascade_kind_counts(leaves.len(), toilet_req, trash_req, normal_req);
    proof {
        lemma_cascade_fits(leaves@.len() as int, toilet_req as int, trash_req as int, normal_req as int);
    }

    // Step 2b: freeze the specials, smallest leaves first (Toilet before Trash).
    let by_area = leaves_by_area(&leaves);
    let nl = leaves.len();
    let mut leaf_kind: Vec<RoomKind> = Vec::new();
    let mut frozen: Vec<bool> = Vec::new();
    let mut i: usize = 0;
    while i < nl
        invariant
            i <= nl,
            leaf_kind@.len() == i,
            frozen@.len() == i,
            forall|t: int| 0 <= t < i ==> #[trigger] leaf_kind@[t] == RoomKind::Normal && !frozen@[t],
        decreases nl - i,
    {
        leaf_kind.push(RoomKind::Normal);
        frozen.push(false);
        i = i + 1;
    }
    proof {
        assert forall|t: int| 0 <= t < nl implies !(#[trigger] frozen@[t]) && leaf_kind@[t] == RoomKind::Normal by {
            assert(leaf_kind@[t] == RoomKind::Normal && !frozen@[t]);
        }
    }
    let mut i: usize = 0;
    while i < a_toilet + a_trash
        invariant
            a_toilet + a_trash <= nl,
            by_area@.len() == nl,
            forall|t: int| 0 <= t < by_area@.len() ==> (#[trigger] by_area@[t]) < nl,
            leaf_kind@.len() == nl,
            frozen@.len() == nl,
            i <= a_toilet + a_trash,
            by_area@.no_duplicates(),
            forall|t: int| 0 <= t < nl ==> (#[trigger] frozen@[t] <==> exists|k: int| 0 <= k < i && #[trigger] by_area@[k] as int == t),
            forall|k: int| 0 <= k < i ==> #[trigger] leaf_kind@[by_area@[k] as int] == (if k < a_toilet { RoomKind::Toilet } else { RoomKind::Trash }),
            forall|t: int| 0 <= t < nl && !frozen@[t] ==> #[trigger] leaf_kind@[t] == RoomKind::Normal,
        decreases a_toilet + a_trash - i,
    {
        let li = by_area[i];
        let ghost lk0 = leaf_kind@;
        let ghost fr0 = frozen@;
        leaf_kind.set(li, if i < a_toilet { RoomKind::Toilet } else { RoomKind::Trash });
        frozen.set(li, true);
        proof {
            assert forall|k: int| 0 <= k < i + 1 implies #[trigger] leaf_kind@[by_area@[k] as int] == (if k < a_toilet { RoomKind::Toilet } else { RoomKind::Trash }) by {
                if k < i {
                    assert(by_area@[k] != by_area@[i as int]);
                    assert(leaf_kind@[by_area@[k] as int] == lk0[by_area@[k] as int]);
                }
            }
            assert forall|t: int| 0 <= t < nl implies (#[trigger] frozen@[t] <==> exists|k: int| 0 <= k < i + 1 && #[trigger] by_area@[k] as int == t) by {
                if t == li as int {
                    assert(by_area@[i as int] as int == t);
                } else {
                    assert(frozen@[t] == fr0[t]);
                    if fr0[t] {
                        let k = choose|k: int| 0 <= k < i && #[trigger] by_area@[k] as int == t;
                        assert(0 <= k < i + 1 && by_area@[k] as int == t);
                    }
                }
            }
        }
        i = i + 1;
    }

    // Step 2c: merge non-frozen leaves into Normal groups.
    proof {
        assert(area_sum(leaves@, leaves@.len() as int) <= 120 * 90) by (nonlinear_arith)
            requires
                area_sum(leaves@, leaves@.len() as int) <= interior.w * interior.h,
                interior.w <= 120,
                interior.h <= 90;
        assert forall|t: int| 0 <= t < edges@.len() implies (#[trigger] edges@[t]).a < leaves@.len() && edges@[t].b < leaves@.len() by {}
    }
    let mut uf = merge_normal_target_avg(leaves.as_slice(), edges.as_slice(), frozen.as_slice(), a_normal);
    let ghost uf0 = uf;
    let (leaf_group, num_groups) = build_group_map(&mut uf);
    proof {
        assert forall|t: int| 0 <= t < leaves@.len() implies (#[trigger] leaf_group@[t]) < num_groups by {
            lemma_group_id_bound(uf0, t);
        }
    }

    // Step 3: carve floor, paint walls.
    let mut li: usize = 0;
    while li < nl
        invariant
            map_ok(map@, w),
            rows(map@, w) == h,
            map@.len() == w * h,
            w == map_w as int,
            h == map_h as int,
            nl == leaves@.len(),
            forall|t: int| 0 <= t < leaves@.len() ==> rect_in(#[trigger] leaves@[t], w, h),
            l0 == leaves@[0],
            nl >= 1,
            l0.w >= 3 && l0.h >= 3 && l0.x + 3 <= w && l0.y + 3 <= h,
            li > 0 ==> core_floor(map@, w, l0),
            li <= nl,
            leaves_floor(map@, w, leaves@, li as int),
            no_doors(map@),
        decreases nl - li,
    {
        let ghost mb = map@;
        paint_rect(&mut map, map_w, &leaves[li], Terrain::Floor);
        proof {
            lemma_paint_leaf(mb, map@, w, h, leaves@, li as int);
            lemma_paint_no_doors(mb, map@, w, h, leaves@[li as int], Terrain::Floor);
        }
        proof {
            assert forall|k: int| 0 <= k < 5 implies
                #[trigger] map@[flat(core_cell(l0, k).0, core_cell(l0, k).1, w)].terrain == Terrain::Floor by {
                let x = core_cell(l0, k).0;
                let y = core_cell(l0, k).1;
                lemma_flat_in_range(x, y, w, h);
                assert(flat(x, y, w) < mb.len());
                if li == 0 {
                    assert(in_rect(leaves@[0], x, y));
                } else {
                    assert(mb[flat(x, y, w)].terrain == Terrain::Floor);
                }
            }
        }
        li = li + 1;
    }
    let mut wi: usize = 0;
    while wi < walls.len()
        invariant
            map_ok(map@, w),
            rows(map@, w) == h,
            map@.len() == w * h,
            w == map_w as int,
            h == map_h as int,
            forall|t: int| 0 <= t < walls@.len() ==> wall_in(#[trigger] walls@[t], w, h),
            core_floor(map@, w, l0),
            l0 == leaves@[0],
            l0.w >= 3 && l0.h >= 3 && l0.x + 3 <= w && l0.y + 3 <= h,
            forall|j: int, x: int, y: int| 0 <= j < walls@.len() ==>
                !(#[trigger] rect_has(l0, x, y) && #[trigger] on_wall(walls@[j], x, y)),
            forall|t: int| 0 <= t < leaves@.len() ==> rect_in(#[trigger] leaves@[t], w, h),
            leaves_off_walls(leaves@, walls@),
            leaves_floor(map@, w, leaves@, leaves@.len() as int),
            no_doors(map@),
        decreases walls@.len() - wi,
    {
        let r = wall_rect(&walls[wi]);
        proof {
            assert(wall_in(walls@[wi as int], w, h));
        }
        let ghost mb = map@;
        paint_rect(&mut map, map_w, &r, Terrain::Wall);
        proof {
            assert forall|x: int, y: int| in_rect(r, x, y) implies on_wall(walls@[wi as int], x, y) by {}
            lemma_paint_wall(mb, map@, w, h, leaves@, walls@, wi as int, r);
            lemma_paint_no_doors(mb, map@, w, h, r, Terrain::Wall);
        }
        proof {
            assert forall|k: int| 0 <= k < 5 implies
                #[trigger] map@[flat(core_cell(l0, k).0, core_cell(l0, k).1, w)].terrain == Terrain::Floor by {
                let x = core_cell(l0, k).0;
                let y = core_cell(l0, k).1;
                lemma_flat_in_range(x, y, w, h);
                assert(flat(x, y, w) < mb.len());
                assert(rect_has(l0, x, y));
                assert(!(rect_has(l0, x, y) && on_wall(walls@[wi as int], x, y)));
                assert(!in_rect(r, x, y));
                assert(mb[flat(x, y, w)].terrain == Terrain::Floor);
            }
        }
        wi = wi + 1;
    }

    // Step 4: group kinds (specials are single frozen leaves).
    proof {
        assert forall|s1: int, t1: int| 0 <= s1 < nl && 0 <= t1 < nl && frozen@[s1]
            && #[trigger] leaf_group@[s1] == #[trigger] leaf_group@[t1] implies s1 == t1 by {
            lemma_group_id_inj(uf0, s1, t1);
            assert(uf0.same(s1, t1));
        }
    }
    let mut group_kinds: Vec<RoomKind> = Vec::new();
    let mut g: usize = 0;
    while g < num_groups
        invariant
            g <= num_groups,
            group_kinds@.len() == g,
            forall|q: int| 0 <= q < g ==> #[trigger] group_kinds@[q] == RoomKind::Normal,
        decreases num_groups - g,
    {
        group_kinds.push(RoomKind::Normal);
        g = g + 1;
    }
    let mut li: usize = 0;
    while li < nl
        invariant
            nl == leaves@.len(),
            nl == leaf_group@.len(),
            nl == frozen@.len(),
            nl == leaf_kind@.len(),
            group_kinds@.len() == num_groups,
            forall|t: int| 0 <= t < leaves@.len() ==> (#[trigger] leaf_group@[t]) < num_groups,
            li <= nl,
            forall|s1: int, t1: int| 0 <= s1 < nl && 0 <= t1 < nl && frozen@[s1]
                && #[trigger] leaf_group@[s1] == #[trigger] leaf_group@[t1] ==> s1 == t1,
            forall|t: int| 0 <= t < nl ==> #[trigger] group_kinds@[leaf_group@[t] as int]
                == (if frozen@[t] && t < li { leaf_kind@[t] } else { RoomKind::Normal }),
        decreases nl - li,
    {
        let ghost gk0 = group_kinds@;
        if frozen[li] {
            group_kinds.set(leaf_group[li], leaf_kind[li]);
        }
        proof {
            assert forall|t: int| 0 <= t < nl implies #[trigger] group_kinds@[leaf_group@[t] as int]
                == (if frozen@[t] && t < li + 1 { leaf_kind@[t] } else { RoomKind::Normal }) by {
                if frozen@[li as int] && leaf_group@[t] == leaf_group@[li as int] {
                    assert(t == li as int);
                }
                if t != li as int && !(frozen@[li as int] && leaf_group@[t] == leaf_group@[li as int]) {
                    assert(group_kinds@[leaf_group@[t] as int] == gk0[leaf_group@[t] as int]);
                }
            }
        }
        li = li + 1;
    }

    // Step 6: void seal.
    if config.debug_void_seal {
        proof {
            lemma_map_ok(map@, w);
        }
        let ghost mb = map@;
        void_cleanup(&mut map, map_w, map_h);
        proof {
            lemma_rows(map@.len() as int, w, h);
            assert forall|c: int| 0 <= c < map@.len() implies !(#[trigger] map@[c]).terrain.spec_is_door() by {
                assert(!mb[c].terrain.spec_is_door());
            }
            let x = l0.x + 1;
            let y = l0.y + 1;
            assert(mb[flat(core_cell(l0, 0).0, core_cell(l0, 0).1, w)].terrain == Terrain::Floor);
            assert(mb[flat(core_cell(l0, 1).0, core_cell(l0, 1).1, w)].terrain == Terrain::Floor);
            assert(mb[flat(core_cell(l0, 2).0, core_cell(l0, 2).1, w)].terrain == Terrain::Floor);
            assert(mb[flat(core_cell(l0, 3).0, core_cell(l0, 3).1, w)].terrain == Terrain::Floor);
            assert(mb[flat(core_cell(l0, 4).0, core_cell(l0, 4).1, w)].terrain == Terrain::Floor);
            assert(mb[flat(x, y, w)].terrain == Terrain::Floor);
            assert(!touches_void(mb, w, h, x, y));
            assert(!all_void_around(mb, w, h, x, y));
            assert(map@[flat(x, y, w)] == sealed_cell(mb, w, h, x, y));
            lemma_seal_inner(mb, map@, w, h, leaves@);
        }
    }
    proof {
        if !config.debug_void_seal {
            lemma_leaves_inner(map@, w, leaves@);
            assert(map@[flat(core_cell(l0, 0).0, core_cell(l0, 0).1, w)].terrain == Terrain::Floor);
        }
        assert(map@[flat(l0.x + 1, l0.y + 1, w)].terrain == Terrain::Floor);
    }

    // Step 7: merge wall removal.
    if config.debug_merge {
        proof {
            assert forall|t: int| 0 <= t < edges@.len() implies #[trigger] edge_in(edges@[t], leaves@, walls@, w, h) by {
                assert(rect_in(leaves@[edges@[t].a as int], w, h));
                assert(rect_in(leaves@[edges@[t].b as int], w, h));
                assert(wall_in(walls@[edges@[t].wall_idx as int], w, h));
            }
        }
        let ghost mb = map@;
        execute_merge_wall_removal(&mut map, map_w, walls.as_slice(), leaves.as_slice(), &mut uf, edges.as_slice());
        proof {
            lemma_rows(map@.len() as int, w, h);
            assert forall|c: int| 0 <= c < map@.len() implies !(#[trigger] map@[c]).terrain.spec_is_door() by {
                assert(!mb[c].terrain.spec_is_door());
            }
            lemma_flat_in_range(l0.x + 1, l0.y + 1, w, h);
            assert(mb[flat(l0.x + 1, l0.y + 1, w)].terrain == Terrain::Floor);
            assert forall|t: int, x: int, y: int| 0 <= t < leaves@.len() && #[trigger] inner_has(leaves@[t], x, y)
                implies map@[flat(x, y, w)].terrain == Terrain::Floor by {
                assert(rect_in(leaves@[t], w, h));
                lemma_flat_in_range(x, y, w, h);
                assert(mb[flat(x, y, w)].terrain == Terrain::Floor);
            }
        }
    }
    let ghost core = flat(l0.x + 1, l0.y + 1, w);
    proof {
        lemma_flat_in_range(l0.x + 1, l0.y + 1, w, h);
        assert(map@[core].terrain == Terrain::Floor);
    }

    // Step 8: doors, then force doors on every wall if the floor is split.
    if config.debug_doors {
        let ghost mcut = map@;
        let _dc = cut_doors(&mut map, map_w, leaves.as_slice(), walls.as_slice(), leaf_group.as_slice(), num_groups);
        proof {
            lemma_rows(map@.len() as int, w, h);
            if num_groups <= 1 {
                assert forall|a: int, b: int, wi: int|
                    0 <= a < leaves@.len() && 0 <= b < leaves@.len() && 0 <= wi < walls@.len()
                    && #[trigger] crate::doors::facing_either(leaves@[a], leaves@[b], walls@[wi])
                    && leaf_isolated(map@, w, h, leaves@, walls@, leaf_group@, a)
                    implies crate::doors::leaf_door_fails(map@, w, h, leaves@, walls@, leaf_group@, a, b, wi) by {
                    assert(leaf_group@[a] != leaf_group@[b]);
                    assert(leaf_group@[a] < num_groups && leaf_group@[b] < num_groups);
                }
            }
            assert(leaves_saturated(map@, w, h, leaves@, walls@, leaf_group@));
        }
        proof {
            lemma_doors_keep_inner(mcut, map@, w, h, leaves@, walls@);
        }
        proof {
            assert(map@[core] == mcut[core] || map@[core] == crate::doors::door_of(mcut[core]));
            assert(map@[core].terrain.spec_walkable());
        }
        let (walkable, first) = walkable_census(map.as_slice());
        proof {
            let ws = Set::new(|c: int| 0 <= c < map@.len() && map@[c].terrain.spec_walkable());
            assert(ws.contains(core));
            assert(ws.remove(core).len() + 1 == ws.len());
        }
        let start = match first {
            None => {
                return None;
            },
            Some(s) => s,
        };
        let reached = flood_fill_count(map.as_slice(), map_w, start);
        if reached < walkable {
            let mut wi: usize = 0;
            while wi < walls.len()
                invariant
                    map_ok(map@, w),
                    rows(map@, w) == h,
                    map@.len() == w * h,
                    w == map_w as int,
                    h == map_h as int,
                    forall|t: int| 0 <= t < walls@.len() ==> wall_in(#[trigger] walls@[t], w, h),
                    forall|t: int| 0 <= t < leaves@.len() ==> rect_in(#[trigger] leaves@[t], w, h),
                    leaves_off_walls(leaves@, walls@),
                    inner_floor(map@, w, leaves@),
                    leaves_saturated(map@, w, h, leaves@, walls@, leaf_group@),
                    wi <= walls@.len(),
                    forall|j: int| 0 <= j < wi ==> #[trigger] wall_has_door(map@, w, h, walls@[j])
                        || wall_door_blocked(map@, w, h, walls@[j]),
                    w <= 120,
                    h <= 90,
                decreases walls@.len() - wi,
            {
                let ghost mb = map@;
                force_door(&mut map, map_w, &walls[wi], rng);
                proof {
                    assert forall|j: int| 0 <= j < wi + 1 implies #[trigger] wall_has_door(map@, w, h, walls@[j])
                        || wall_door_blocked(map@, w, h, walls@[j]) by {
                        if j < wi {
                            lemma_wall_forced_grows(mb, map@, w, h, walls@[j]);
                        }
                    }
                    assert forall|i: int| 0 <= i < leaves@.len() implies rect_in_grid(#[trigger] leaves@[i], w, h) by {
                        assert(rect_in(leaves@[i], w, h));
                    }
                    lemma_saturated_grows(mb, map@, w, h, leaves@, walls@, leaf_group@);
                    lemma_rows(map@.len() as int, w, h);
                    assert forall|t: int, x: int, y: int| 0 <= t < leaves@.len() && #[trigger] inner_has(leaves@[t], x, y)
                        implies map@[flat(x, y, w)].terrain == Terrain::Floor by {
                        assert(rect_in(leaves@[t], w, h));
                        assert(rect_has(leaves@[t], x, y));
                        assert(!(rect_has(leaves@[t], x, y) && on_wall(walls@[wi as int], x, y)));
                        assert(crate::cell::in_grid(x, y, w, h));
                        assert(mb[flat(x, y, w)].terrain == Terrain::Floor);
                    }
                }
                wi = wi + 1;
            }
            proof {
                assert(walls_forced(map@, w, h, walls@));
            }
        } else {
            proof {
                lemma_rows(map@.len() as int, w, h);
                lemma_counts_connected(map@, w, h, start as int);
            }
        }
    }

    // Step 9: cover.
    let ghost mpre = map@;
    let ghost linked = floor_connected(map@, w, h) || walls_forced(map@, w, h, walls@);
    proof {
        if config.debug_doors {
            assert(linked);
        }
    }
    let ghost doorless = no_doors(map@);
    let ghost sat = leaves_saturated(map@, w, h, leaves@, walls@, leaf_group@);
    proof {
        if config.debug_doors {
            assert(sat);
        }
    }
    proof {
        if !config.debug_doors {
            assert(doorless);
        }
    }
    let _placed = generate_ca_cover(&mut map, map_w, map_h, leaves.as_slice(), config.seed_count,
        config.growth_limit, rng);
    proof {
        lemma_rows(map@.len() as int, w, h);
        if doorless {
            assert forall|c: int| 0 <= c < map@.len() implies !(#[trigger] map@[c]).terrain.spec_is_door() by {
                assert(!mpre[c].terrain.spec_is_door());
            }
        }
        if sat {
            assert(grows_doors(mpre, map@));
            assert forall|i: int| 0 <= i < leaves@.len() implies rect_in_grid(#[trigger] leaves@[i], w, h) by {
                assert(rect_in(leaves@[i], w, h));
            }
            lemma_saturated_grows(mpre, map@, w, h, leaves@, walls@, leaf_group@);
            if linked {
                lemma_cover_keeps_link(mpre, map@, w, h, leaves@, walls@);
            }
        }
        assert forall|t: int, x: int, y: int| 0 <= t < leaves@.len() && #[trigger] inner_has(leaves@[t], x, y)
            implies map@[flat(x, y, w)].terrain == Terrain::Floor || map@[flat(x, y, w)].terrain == Terrain::Wall by {
            assert(rect_in(leaves@[t], w, h));
            lemma_flat_in_range(x, y, w, h);
            assert(mpre[flat(x, y, w)].terrain == Terrain::Floor);
        }
        assert forall|t: int, x: int, y: int| 0 <= t < leaves@.len() && #[trigger] inner_has(leaves@[t], x, y)
            && inner_has(leaves@[t], x + 1, y + 1) implies !block_walls(map@, w, h, x, y) by {
            if block_walls(map@, w, h, x, y) {
                assert(block_walls(mpre, w, h, x, y));
                assert(mpre[flat(x, y, w)].terrain == Terrain::Floor);
            }
        }
    }

    // Per-cell room kinds from the groups.
    let mut cell_kinds: Vec<Option<RoomKind>> = Vec::new();
    let mut c: usize = 0;
    while c < total
        invariant
            c <= total,
            cell_kinds@.len() == c,
            forall|k: int| 0 <= k < c ==> (#[trigger] cell_kinds@[k]) is None,
        decreases total - c,
    {
        cell_kinds.push(None);
        c = c + 1;
    }
    let ghost lk = Seq::new(nl as nat, |t: int| group_kinds@[leaf_group@[t] as int]);
    proof {
        assert forall|s1: int, t1: int| 0 <= s1 < nl && 0 <= t1 < nl && s1 != t1
            implies rects_disjoint(#[trigger] leaves@[s1], #[trigger] leaves@[t1]) by {
            if s1 > t1 {
                assert(rects_disjoint(leaves@[t1], leaves@[s1]));
            }
        }
    }
    let mut li: usize = 0;
    while li < nl
        invariant
            nl == leaves@.len(),
            nl == leaf_group@.len(),
            group_kinds@.len() == num_groups,
            lk == Seq::new(nl as nat, |t: int| group_kinds@[leaf_group@[t] as int]),
            forall|s1: int, t1: int| 0 <= s1 < nl && 0 <= t1 < nl && s1 != t1
                ==> rects_disjoint(#[trigger] leaves@[s1], #[trigger] leaves@[t1]),
            forall|t: int| 0 <= t < leaves@.len() ==> (#[trigger] leaf_group@[t]) < num_groups,
            forall|t: int| 0 <= t < leaves@.len() ==> rect_in(#[trigger] leaves@[t], w, h),
            map@.len() == w * h,
            total == w * h,
            w == map_w as int,
            h == map_h as int,
            w <= 120,
            h <= 90,
            cell_kinds@.len() == total,
            forall|k: int| 0 <= k < total && (#[trigger] cell_kinds@[k]) is Some ==>
                map@[k].terrain.spec_walkable() || map@[k].terrain == Terrain::Toilet,
            li <= nl,
            forall|t: int, x: int, y: int| 0 <= t < li && #[trigger] rect_has(leaves@[t], x, y)
                && map@[flat(x, y, w)].terrain.spec_walkable() ==> cell_kinds@[flat(x, y, w)] == Some(lk[t]),
            forall|c: int| 0 <= c < total && (#[trigger] cell_kinds@[c]) is Some ==>
                exists|t: int, x: int, y: int| 0 <= t < li && 0 <= x < w && c == flat(x, y, w)
                    && #[trigger] rect_has(leaves@[t], x, y),
        decreases nl - li,
    {
        let gid = leaf_group[li];
        let kind = group_kinds[gid];
        let leaf = leaves[li];
        proof {
            assert(rect_in(leaf, w, h));
            assert((leaf.y + leaf.h) * map_w <= 90 * 120) by (nonlinear_arith)
                requires leaf.y + leaf.h <= h, h <= 90, map_w <= 120;
        }
        let idx = rect_indices(&leaf, map_w);
        let mut k: usize = 0;
        while k < idx.len()
            invariant
                k <= idx@.len(),
                idx@.len() == leaf.w * leaf.h,
                forall|q: int| 0 <= q < idx@.len() ==>
                    #[trigger] idx@[q] as int == (leaf.y + q / (leaf.w as int)) * map_w + (leaf.x + q % (leaf.w as int)),
                rect_in(leaf, w, h),
                map@.len() == w * h,
                total == w * h,
                w == map_w as int,
                cell_kinds@.len() == total,
                forall|q: int| 0 <= q < total && (#[trigger] cell_kinds@[q]) is Some ==>
                    map@[q].terrain.spec_walkable() || map@[q].terrain == Terrain::Toilet,
                li < nl,
                nl == leaves@.len(),
                h == map_h as int,
                forall|t: int| 0 <= t < leaves@.len() ==> rect_in(#[trigger] leaves@[t], w, h),
                leaf == leaves@[li as int],
                forall|t: int, x: int, y: int| 0 <= t < li && #[trigger] rect_has(leaves@[t], x, y)
                    && map@[flat(x, y, w)].terrain.spec_walkable() ==> cell_kinds@[flat(x, y, w)] == Some(lk[t]),
                forall|q: int| 0 <= q < k ==> (#[trigger] idx@[q]) < total,
                forall|q: int| 0 <= q < k && map@[idx@[q] as int].terrain.spec_walkable()
                    ==> cell_kinds@[#[trigger] idx@[q] as int] == Some(lk[li as int]),
                kind == lk[li as int],
                forall|c: int| 0 <= c < total && (#[trigger] cell_kinds@[c]) is Some ==>
                    exists|t: int, x: int, y: int| 0 <= t < li + 1 && 0 <= x < w && c == flat(x, y, w)
                        && #[trigger] rect_has(leaves@[t], x, y),
                forall|s1: int, t1: int| 0 <= s1 < nl && 0 <= t1 < nl && s1 != t1
                    ==> rects_disjoint(#[trigger] leaves@[s1], #[trigger] leaves@[t1]),
            decreases idx@.len() - k,
        {
            let ci = idx[k];
            proof {
                let q = k as int;
                let lw = leaf.w as int;
                assert(lw != 0) by {
                    if lw == 0 {
                        assert(leaf.w * leaf.h == 0) by (nonlinear_arith) requires leaf.w == 0;
                    }
                }
                vstd::arithmetic::div_mod::lemma_fundamental_div_mod(q, lw);
                vstd::arithmetic::div_mod::lemma_mod_pos_bound(q, lw);
                assert(q / lw < leaf.h) by (nonlinear_arith)
                    requires q == lw * (q / lw) + q % lw, 0 <= q % lw, q < lw * leaf.h, lw > 0;
                assert(q / lw >= 0) by {
                    vstd::arithmetic::div_mod::lemma_div_pos_is_pos(q, lw);
                }
                lemma_flat_in_range(leaf.x + q % lw, leaf.y + q / lw, w, h);
            }
            let t = map[ci].terrain;
            let ghost kb = cell_kinds@;
            assert(ci < cell_kinds@.len());
            if t.is_walkable() || t == Terrain::Toilet {
                cell_kinds.set(ci, Some(kind));
            }
            proof {
                assert forall|c: int| 0 <= c < total && (#[trigger] kb[c]) is Some implies cell_kinds@[c] is Some by {
                    if c != ci as int {
                        assert(cell_kinds@[c] == kb[c]);
                    }
                }
                let qk = k as int;
                let lw = leaf.w as int;
                let cx = leaf.x + qk % lw;
                let cy = leaf.y + qk / lw;
                assert(ci as int == flat(cx, cy, w));
                assert(rect_has(leaf, cx, cy));
                assert forall|c: int| 0 <= c < total && (#[trigger] cell_kinds@[c]) is Some implies
                    exists|t: int, x: int, y: int| 0 <= t < li + 1 && 0 <= x < w && c == flat(x, y, w)
                        && #[trigger] rect_has(leaves@[t], x, y) by {
                    if c == ci as int {
                        assert(rect_has(leaves@[li as int], cx, cy));
                    } else {
                        assert(cell_kinds@[c] == kb[c]);
                    }
                }
                assert forall|t2: int, x: int, y: int| 0 <= t2 < li && #[trigger] rect_has(leaves@[t2], x, y)
                    && map@[flat(x, y, w)].terrain.spec_walkable() implies cell_kinds@[flat(x, y, w)] == Some(lk[t2]) by {
                    assert(rect_in(leaves@[t2], w, h));
                    lemma_flat_in_range(x, y, w, h);
                    assert(kb[flat(x, y, w)] == Some(lk[t2]));
                    if flat(x, y, w) == ci as int {
                        lemma_flat_injective(x, y, cx, cy, w, h);
                        assert(rects_disjoint(leaves@[t2], leaves@[li as int]));
                    }
                }
                assert forall|q: int| 0 <= q < k + 1 implies (#[trigger] idx@[q]) < total by {
                    if q == k { assert(idx@[q] == ci); }
                }
                assert forall|q: int| 0 <= q < k + 1 && map@[idx@[q] as int].terrain.spec_walkable()
                    implies cell_kinds@[#[trigger] idx@[q] as int] is Some by {
                    if q < k {
                        assert(kb[idx@[q] as int] == Some(lk[li as int]));
                        assert(idx@[q] as int != ci as int ==> cell_kinds@[idx@[q] as int] == kb[idx@[q] as int]);
                    } else {
                        assert(idx@[q] == ci);
                    }
                }
            }
            k = k + 1;
        }
        proof {
            let lw = leaf.w as int;
            assert forall|x: int, y: int| #[trigger] rect_has(leaves@[li as int], x, y)
                && map@[flat(x, y, w)].terrain.spec_walkable() implies cell_kinds@[flat(x, y, w)] == Some(lk[li as int]) by {
                let dx = x - leaf.x;
                let dy = y - leaf.y;
                let q = dy * lw + dx;
                assert(0 <= q < lw * leaf.h) by (nonlinear_arith)
                    requires q == dy * lw + dx, 0 <= dx < lw, 0 <= dy < leaf.h;
                vstd::arithmetic::div_mod::lemma_fundamental_div_mod_converse(q, lw, dy, dx);
                assert(idx@[q] as int == (leaf.y + dy) * map_w + (leaf.x + dx));
                assert(idx@[q] as int == flat(x, y, w));
            }
        }
        li = li + 1;
    }
    proof {
        assert forall|t: int, x: int, y: int| 0 <= t < leaves@.len() && #[trigger] inner_has(leaves@[t], x, y) implies {
            &&& map@[flat(x, y, w)].terrain == Terrain::Floor || map@[flat(x, y, w)].terrain == Terrain::Wall
            &&& map@[flat(x, y, w)].terrain == Terrain::Floor ==> cell_kinds@[flat(x, y, w)] == Some(lk[t])
        } by {
            assert(rect_has(leaves@[t], x, y));
        }
        assert(leaf_layout(map@, cell_kinds@, w, h, leaves@, lk));
        assert forall|t: int| 0 <= t < lk.len() implies (lk[t] == RoomKind::Toilet <==>
            exists|j: int| 0 <= j < a_toilet && #[trigger] by_area@[j] as int == t) by {
            assert(lk[t] == group_kinds@[leaf_group@[t] as int]);
            if lk[t] == RoomKind::Toilet {
                assert(frozen@[t]);
                let k = choose|k: int| 0 <= k < a_toilet + a_trash && #[trigger] by_area@[k] as int == t;
                assert(leaf_kind@[by_area@[k] as int] == (if k < a_toilet { RoomKind::Toilet } else { RoomKind::Trash }));
                assert(0 <= k < a_toilet);
            }
            if exists|j: int| 0 <= j < a_toilet && #[trigger] by_area@[j] as int == t {
                let j = choose|j: int| 0 <= j < a_toilet && #[trigger] by_area@[j] as int == t;
                assert(0 <= j < a_toilet + a_trash && by_area@[j] as int == t);
                assert(frozen@[t]);
                assert(leaf_kind@[by_area@[j] as int] == RoomKind::Toilet);
            }
        }
        lemma_kind_leaf_count(lk, by_area@, 0, a_toilet as int, RoomKind::Toilet);
        assert forall|t: int| 0 <= t < lk.len() implies (lk[t] == RoomKind::Trash <==>
            exists|j: int| a_toilet <= j < a_toilet + a_trash && #[trigger] by_area@[j] as int == t) by {
            assert(lk[t] == group_kinds@[leaf_group@[t] as int]);
            if lk[t] == RoomKind::Trash {
                assert(frozen@[t]);
                let k = choose|k: int| 0 <= k < a_toilet + a_trash && #[trigger] by_area@[k] as int == t;
                assert(leaf_kind@[by_area@[k] as int] == (if k < a_toilet { RoomKind::Toilet } else { RoomKind::Trash }));
                assert(a_toilet <= k);
            }
            if exists|j: int| a_toilet <= j < a_toilet + a_trash && #[trigger] by_area@[j] as int == t {
                let j = choose|j: int| a_toilet <= j < a_toilet + a_trash && #[trigger] by_area@[j] as int == t;
                assert(0 <= j < a_toilet + a_trash && by_area@[j] as int == t);
                assert(frozen@[t]);
                assert(leaf_kind@[by_area@[j] as int] == RoomKind::Trash);
            }
        }
        lemma_kind_leaf_count(lk, by_area@, a_toilet as int, (a_toilet + a_trash) as int, RoomKind::Trash);
        lemma_specials_smallest(leaves@, lk, by_area@, a_toilet as int, a_trash as int);
        assert forall|a: int, b: int| 0 <= a < leaves@.len() && 0 <= b < leaves@.len() && a != b
            && (lk[a] == RoomKind::Toilet || lk[a] == RoomKind::Trash) implies #[trigger] leaf_group@[a] != #[trigger] leaf_group@[b] by {
            assert(lk[a] == group_kinds@[leaf_group@[a] as int]);
            assert(frozen@[a]);
        }
        assert forall|a: int, b: int| 0 <= a < leaves@.len() && 0 <= b < leaves@.len() && #[trigger] leaf_group@[a] == #[trigger] leaf_group@[b]
            implies lk[a] == lk[b] by {
            assert(lk[a] == group_kinds@[leaf_group@[a] as int]);
            assert(lk[b] == group_kinds@[leaf_group@[b] as int]);
        }
        assert(full_layout(map@, cell_kinds@, w, h, config.debug_doors, leaves@, lk, walls@, leaf_group@));
        assert(leaf_layout(map@, cell_kinds@, w, h, leaves@, lk)
            && specials_smallest(leaves@, lk)
            && kind_leaves(lk, RoomKind::Toilet) == spec_cascade(leaves@.len() as int, count_kind(config.rooms@, RoomKind::Toilet),
                count_kind(config.rooms@, RoomKind::Trash), count_kind(config.rooms@, RoomKind::Normal)).0
            && kind_leaves(lk, RoomKind::Trash) == spec_cascade(leaves@.len() as int, count_kind(config.rooms@, RoomKind::Toilet),
                count_kind(config.rooms@, RoomKind::Trash), count_kind(config.rooms@, RoomKind::Normal)).1);
    }

    Some(GeneratedMap {
        cells: map,
        width: map_w as i32,
        height: map_h as i32,
        cell_kinds,
        requested_rooms: config.rooms.clone(),
    })
}

} // verus!
