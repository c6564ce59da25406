//! Door cutting: door slots between room groups, clear door positions on a
//! wall, and the cycle-first placement of doors.

use vstd::prelude::*;
use crate::cell::{Cell, Terrain, grid_ok, in_grid, flat, lemma_flat_in_range, lemma_flat_injective};
use crate::grouping::{rect_fits, wall_fits, before_wall, wall_in, LeafEdge, find_leaf_edges, faces, has_edge};
use crate::map_gen::{map_ok, rows, lemma_map_ok, door_at};
use crate::bsp::on_wall;
use crate::map_gen::{
    BspRect, WallLine, ter, door_near, door_within_margin, adaptive_margin, rand_range, MapRng,
    DOOR_WIDTH, MIN_DOOR_GAP, DOOR_EDGE_MARGIN, FORCE_DOOR_EDGE_MARGIN, xorshift64_next,
};

verus! {

/// Flat index of position `p` along a wall line: `(p, line)` on a horizontal
/// wall, `(line, p)` on a vertical one.
pub open spec fn line_cell(w: int, horizontal: bool, line: int, p: int) -> int {
    if horizontal { flat(p, line, w) } else { flat(line, p, w) }
}

/// A door cell at position `p` of the wall line has floor on both sides and
/// no door within `MIN_DOOR_GAP` cells (Chebyshev) around it.
pub open spec fn door_cell_ok(map: Seq<Cell>, w: int, h: int, horizontal: bool, line: int, p: int) -> bool {
    if horizontal {
        &&& line > 0
        &&& line + 1 < h
        &&& ter(map, w, p, line - 1) == Terrain::Floor
        &&& ter(map, w, p, line + 1) == Terrain::Floor
        &&& !door_near(map, w, h, p, line, MIN_DOOR_GAP as int)
    } else {
        &&& line > 0
        &&& line + 1 < w
        &&& ter(map, w, line - 1, p) == Terrain::Floor
        &&& ter(map, w, line + 1, p) == Terrain::Floor
        &&& !door_near(map, w, h, line, p, MIN_DOOR_GAP as int)
    }
}

/// A door may start at `start`: both of its cells lie before `safe_e` and
/// are clear.
pub open spec fn door_ok(map: Seq<Cell>, w: int, h: int, horizontal: bool, line: int, safe_e: int, start: int) -> bool {
    &&& start + DOOR_WIDTH <= safe_e
    &&& door_cell_ok(map, w, h, horizontal, line, start)
    &&& door_cell_ok(map, w, h, horizontal, line, start + 1)
}

/// The `k`-th position tried when searching outward from `cand`: the
/// candidate itself, then alternately `cand + off` and `cand - off`.
pub open spec fn probe(cand: int, safe_s: int, safe_e: int, k: int) -> Option<int> {
    if k == 0 {
        Some(cand)
    } else if k % 2 == 1 {
        let off = (k + 1) / 2;
        if cand + off + DOOR_WIDTH <= safe_e { Some(cand + off) } else { None }
    } else {
        let off = k / 2;
        if cand >= safe_s + off { Some(cand - off) } else { None }
    }
}

/// Number of positions tried.
pub open spec fn probe_count(safe_s: int, safe_e: int) -> int {
    let m = if safe_e > safe_s { safe_e - safe_s } else { 0 };
    if m >= 1 { 2 * m - 1 } else { 1 }
}

/// First clear door position among the tries from the `k`-th on.
pub open spec fn first_door(map: Seq<Cell>, w: int, h: int, horizontal: bool, line: int,
    safe_s: int, safe_e: int, cand: int, k: int) -> Option<int>
    decreases probe_count(safe_s, safe_e) - k,
{
    if k < 0 || k >= probe_count(safe_s, safe_e) {
        None
    } else {
        match probe(cand, safe_s, safe_e, k) {
            Some(p) => if door_ok(map, w, h, horizontal, line, safe_e, p) {
                Some(p)
            } else {
                first_door(map, w, h, horizontal, line, safe_s, safe_e, cand, k + 1)
            },
            None => first_door(map, w, h, horizontal, line, safe_s, safe_e, cand, k + 1),
        }
    }
}

/// A found door position is a valid one.
pub proof fn lemma_first_door_ok(map: Seq<Cell>, w: int, h: int, horizontal: bool, line: int,
    safe_s: int, safe_e: int, cand: int, k: int)
    requires
        first_door(map, w, h, horizontal, line, safe_s, safe_e, cand, k) is Some,
    ensures
        door_ok(map, w, h, horizontal, line, safe_e,
            first_door(map, w, h, horizontal, line, safe_s, safe_e, cand, k)->0),
        safe_s >= 0 && cand >= 0 ==> first_door(map, w, h, horizontal, line, safe_s, safe_e, cand, k)->0 >= 0,
    decreases probe_count(safe_s, safe_e) - k,
{
    if 0 <= k < probe_count(safe_s, safe_e) {
        match probe(cand, safe_s, safe_e, k) {
            Some(p) => {
                if !door_ok(map, w, h, horizontal, line, safe_e, p) {
                    lemma_first_door_ok(map, w, h, horizontal, line, safe_s, safe_e, cand, k + 1);
                }
            },
            None => {
                lemma_first_door_ok(map, w, h, horizontal, line, safe_s, safe_e, cand, k + 1);
            },
        }
    }
}

/// Check that no door lies within `MIN_DOOR_GAP` cells (in both axes) of
/// any of the proposed door cells.
pub fn no_nearby_doors_2d(map: &[Cell], map_w: usize, map_h: usize, door_cells: &[(usize, usize)]) -> (b: bool)
    requires
        grid_ok(map@, map_w as int, map_h as int),
        forall|t: int| 0 <= t < door_cells@.len() ==>
            (#[trigger] door_cells@[t]).0 < map_w && door_cells@[t].1 < map_h,
    ensures
        b == forall|t: int| 0 <= t < door_cells@.len() ==>
            !door_near(map@, map_w as int, map_h as int, (#[trigger] door_cells@[t]).0 as int,
                door_cells@[t].1 as int, MIN_DOOR_GAP as int),
{
    let mut t: usize = 0;
    while t < door_cells.len()
        invariant
            grid_ok(map@, map_w as int, map_h as int),
            t <= door_cells@.len(),
            forall|k: int| 0 <= k < door_cells@.len() ==>
                (#[trigger] door_cells@[k]).0 < map_w && door_cells@[k].1 < map_h,
            forall|k: int| 0 <= k < t ==>
                !door_near(map@, map_w as int, map_h as int, (#[trigger] door_cells@[k]).0 as int,
                    door_cells@[k].1 as int, MIN_DOOR_GAP as int),
        decreases door_cells@.len() - t,
    {
        let (cx, cy) = door_cells[t];
        if door_within_margin(map, cx, cy, MIN_DOOR_GAP as i32, map_w, map_h) {
            return false;
        }
        t = t + 1;
    }
    true
}

/// Side cells and 2D door gap for the door cell at `p`.
fn door_cell_clear(map: &[Cell], map_w: usize, map_h: usize, horizontal: bool, line: usize, p: usize) -> (b: bool)
    requires
        grid_ok(map@, map_w as int, map_h as int),
        horizontal ==> p < map_w && line < map_h,
        !horizontal ==> line < map_w && p < map_h,
    ensures
        b == door_cell_ok(map@, map_w as int, map_h as int, horizontal, line as int, p as int),
{
    if horizontal {
        if line == 0 || line + 1 >= map_h {
            return false;
        }
        proof {
            lemma_flat_in_range(p as int, line - 1, map_w as int, map_h as int);
            lemma_flat_in_range(p as int, line + 1, map_w as int, map_h as int);
        }
        let above = map[(line - 1) * map_w + p].terrain == Terrain::Floor;
        let below = map[(line + 1) * map_w + p].terrain == Terrain::Floor;
        if !above || !below {
            return false;
        }
        let cells: Vec<(usize, usize)> = vec![(p, line)];
        no_nearby_doors_2d(map, map_w, map_h, cells.as_slice())
    } else {
        if line == 0 || line + 1 >= map_w {
            return false;
        }
        proof {
            lemma_flat_in_range(line - 1, p as int, map_w as int, map_h as int);
            lemma_flat_in_range(line + 1, p as int, map_w as int, map_h as int);
        }
        let left = map[p * map_w + line - 1].terrain == Terrain::Floor;
        let right = map[p * map_w + line + 1].terrain == Terrain::Floor;
        if !left || !right {
            return false;
        }
        let cells: Vec<(usize, usize)> = vec![(line, p)];
        no_nearby_doors_2d(map, map_w, map_h, cells.as_slice())
    }
}

/// Whether a door may start at `start`.
fn door_fits(map: &[Cell], map_w: usize, map_h: usize, horizontal: bool, line: usize, safe_e: usize, start: usize) -> (b: bool)
    requires
        grid_ok(map@, map_w as int, map_h as int),
        horizontal ==> safe_e <= map_w && line < map_h,
        !horizontal ==> safe_e <= map_h && line < map_w,
    ensures
        b == door_ok(map@, map_w as int, map_h as int, horizontal, line as int, safe_e as int, start as int),
{
    if start >= safe_e || safe_e - start < DOOR_WIDTH {
        return false;
    }
    door_cell_clear(map, map_w, map_h, horizontal, line, start)
        && door_cell_clear(map, map_w, map_h, horizontal, line, start + 1)
}

/// Door start on the wall line at `line`, searched outward from `candidate`
/// within `[safe_s, safe_e)`: the first position tried whose cells have floor
/// on both sides and no door within `MIN_DOOR_GAP` cells.
fn find_clear_door(
    map: &[Cell], map_w: usize, map_h: usize, horizontal: bool,
    line: usize, safe_s: usize, safe_e: usize, candidate: usize,
) -> (r: Option<usize>)
    requires
        grid_ok(map@, map_w as int, map_h as int),
        horizontal ==> safe_e <= map_w && line < map_h,
        !horizontal ==> safe_e <= map_h && line < map_w,
        candidate <= safe_e,
    ensures
        r matches Some(p) ==> first_door(map@, map_w as int, map_h as int, horizontal, line as int,
            safe_s as int, safe_e as int, candidate as int, 0) == Some(p as int),
        r is None ==> first_door(map@, map_w as int, map_h as int, horizontal, line as int,
            safe_s as int, safe_e as int, candidate as int, 0) is None,
{
    proof {
        if horizontal {
            assert(map_w <= map_w * map_h) by (nonlinear_arith) requires line < map_h;
        } else {
            assert(map_h <= map_w * map_h) by (nonlinear_arith) requires line < map_w;
        }
    }
    if door_fits(map, map_w, map_h, horizontal, line, safe_e, candidate) {
        return Some(candidate);
    }
    let max_offset = safe_e.saturating_sub(safe_s);
    proof {
        assert(first_door(map@, map_w as int, map_h as int, horizontal, line as int, safe_s as int, safe_e as int, candidate as int, 0) == first_door(map@, map_w as int, map_h as int, horizontal, line as int, safe_s as int, safe_e as int, candidate as int, 1));
    }
    let mut off: usize = 1;
    while off < max_offset
        invariant
            grid_ok(map@, map_w as int, map_h as int),
            horizontal ==> safe_e <= map_w && line < map_h,
            !horizontal ==> safe_e <= map_h && line < map_w,
            candidate <= safe_e,
            safe_e <= i32::MAX,
            max_offset as int == (if safe_e > safe_s { safe_e - safe_s } else { 0 }),
            1 <= off,
            off <= max_offset || off == 1,
            first_door(map@, map_w as int, map_h as int, horizontal, line as int, safe_s as int, safe_e as int, candidate as int, 0) == first_door(map@, map_w as int, map_h as int, horizontal, line as int, safe_s as int, safe_e as int, candidate as int, 2 * off - 1),
        decreases max_offset - off,
    {
        let up_fits = candidate + off + DOOR_WIDTH <= safe_e;
        if up_fits && door_fits(map, map_w, map_h, horizontal, line, safe_e, candidate + off) {
            return Some(candidate + off);
        }
        proof {
            assert(first_door(map@, map_w as int, map_h as int, horizontal, line as int, safe_s as int, safe_e as int, candidate as int, 2 * off - 1) == first_door(map@, map_w as int, map_h as int, horizontal, line as int, safe_s as int, safe_e as int, candidate as int, 2 * off as int));
        }
        if candidate >= safe_s + off && door_fits(map, map_w, map_h, horizontal, line, safe_e, candidate - off) {
            return Some(candidate - off);
        }
        proof {
            assert(first_door(map@, map_w as int, map_h as int, horizontal, line as int, safe_s as int, safe_e as int, candidate as int, 2 * off as int) == first_door(map@, map_w as int, map_h as int, horizontal, line as int, safe_s as int, safe_e as int, candidate as int, 2 * off + 1));
        }
        off = off + 1;
    }
    proof {
        assert(2 * off - 1 >= probe_count(safe_s as int, safe_e as int));
    }
    None
}

/// For a horizontal wall at row `y`, the door start in `[safe_s, safe_e)`
/// nearest (in search order) to `candidate` with floor above and below both
/// door cells and no door within `MIN_DOOR_GAP` cells.
pub fn find_clear_door_h(
    map: &[Cell], map_w: usize, map_h: usize,
    y: usize, safe_s: usize, safe_e: usize, candidate: usize,
) -> (r: Option<usize>)
    requires
        grid_ok(map@, map_w as int, map_h as int),
        safe_e <= map_w,
        y < map_h,
        candidate <= safe_e,
    ensures
        r matches Some(p) ==> first_door(map@, map_w as int, map_h as int, true, y as int,
            safe_s as int, safe_e as int, candidate as int, 0) == Some(p as int),
        r is None ==> first_door(map@, map_w as int, map_h as int, true, y as int,
            safe_s as int, safe_e as int, candidate as int, 0) is None,
{
    find_clear_door(map, map_w, map_h, true, y, safe_s, safe_e, candidate)
}

/// For a vertical wall at column `x`, the door start in `[safe_s, safe_e)`
/// nearest (in search order) to `candidate` with floor left and right of both
/// door cells and no door within `MIN_DOOR_GAP` cells.
pub fn find_clear_door_v(
    map: &[Cell], map_w: usize, map_h: usize,
    x: usize, safe_s: usize, safe_e: usize, candidate: usize,
) -> (r: Option<usize>)
    requires
        grid_ok(map@, map_w as int, map_h as int),
        safe_e <= map_h,
        x < map_w,
        candidate <= safe_e,
    ensures
        r matches Some(p) ==> first_door(map@, map_w as int, map_h as int, false, x as int,
            safe_s as int, safe_e as int, candidate as int, 0) == Some(p as int),
        r is None ==> first_door(map@, map_w as int, map_h as int, false, x as int,
            safe_s as int, safe_e as int, candidate as int, 0) is None,
{
    find_clear_door(map, map_w, map_h, false, x, safe_s, safe_e, candidate)
}

// ---------------------------------------------------------------------------
// Door slots
// ---------------------------------------------------------------------------

/// A potential door placement between two groups on a wall: the union of
/// the overlaps, along the wall, of the leaves of the two groups facing each
/// other across it.
#[derive(Clone, Copy, Debug)]
pub struct DoorSlot {
    pub group_lo: usize,
    pub group_hi: usize,
    pub wall_idx: usize,
    pub range_start: usize,
    pub range_end: usize,
}

/// Leaf `b` starts just after wall `w`.
pub open spec fn after_wall(b: BspRect, w: WallLine) -> bool {
    match w {
        WallLine::Horizontal { y, x0, x1 } => b.y == y + 1,
        WallLine::Vertical { x, y0, y1 } => b.x == x + 1,
    }
}

/// Overlap of leaves `a` and `b` along wall `w`, clipped to the wall's extent.
pub open spec fn clipped_overlap(a: BspRect, b: BspRect, w: WallLine) -> (int, int) {
    match w {
        WallLine::Horizontal { y, x0, x1 } => (
            vstd::math::max(vstd::math::max(a.x as int, b.x as int), x0 as int),
            vstd::math::min(vstd::math::min(a.x + a.w, b.x + b.w), x1 as int),
        ),
        WallLine::Vertical { x, y0, y1 } => (
            vstd::math::max(vstd::math::max(a.y as int, b.y as int), y0 as int),
            vstd::math::min(vstd::math::min(a.y + a.h, b.y + b.h), y1 as int),
        ),
    }
}

/// Leaves `a` and `b` of different groups face each other across wall `w`
/// over a non-empty clipped overlap.
pub open spec fn door_pair(a: BspRect, b: BspRect, ga: int, gb: int, w: WallLine) -> bool {
    &&& before_wall(a, w)
    &&& after_wall(b, w)
    &&& ga != gb
    &&& clipped_overlap(a, b, w).0 < clipped_overlap(a, b, w).1
}

/// Some slot on wall `w` for groups `lo < hi` covers `[s, e)`.
pub open spec fn slot_covers(slots: Seq<DoorSlot>, w: int, lo: int, hi: int, s: int, e: int) -> bool {
    exists|t: int| 0 <= t < slots.len() && #[trigger] slots[t].wall_idx == w && slots[t].group_lo == lo
        && slots[t].group_hi == hi && slots[t].range_start <= s && e <= slots[t].range_end
}

/// `[s, e)` is the clipped overlap on wall `w` of a facing pair of leaves
/// whose groups are `lo < hi`.
pub open spec fn overlap_of_pair(leaves: Seq<BspRect>, leaf_group: Seq<usize>, w: WallLine,
    lo: int, hi: int, s: int, e: int) -> bool {
    exists|a: int, b: int| 0 <= a < leaves.len() && 0 <= b < leaves.len()
        && #[trigger] door_pair(leaves[a], leaves[b], leaf_group[a] as int, leaf_group[b] as int, w)
        && vstd::math::min(leaf_group[a] as int, leaf_group[b] as int) == lo
        && vstd::math::max(leaf_group[a] as int, leaf_group[b] as int) == hi
        && clipped_overlap(leaves[a], leaves[b], w) == (s, e)
}

/// Position `p` along wall `w` lies in the clipped overlap of a facing pair
/// of leaves whose groups are `lo < hi`.
pub open spec fn pair_reaches(leaves: Seq<BspRect>, leaf_group: Seq<usize>, w: WallLine,
    lo: int, hi: int, p: int) -> bool {
    exists|a: int, b: int| 0 <= a < leaves.len() && 0 <= b < leaves.len()
        && #[trigger] door_pair(leaves[a], leaves[b], leaf_group[a] as int, leaf_group[b] as int, w)
        && vstd::math::min(leaf_group[a] as int, leaf_group[b] as int) == lo
        && vstd::math::max(leaf_group[a] as int, leaf_group[b] as int) == hi
        && clipped_overlap(leaves[a], leaves[b], w).0 <= p < clipped_overlap(leaves[a], leaves[b], w).1
}

/// Every position of every slot lies in the overlap of a facing pair of
/// leaves of the slot's groups on the slot's wall.
pub open spec fn slots_sound(slots: Seq<DoorSlot>, leaves: Seq<BspRect>, leaf_group: Seq<usize>,
    walls: Seq<WallLine>) -> bool {
    forall|t: int, p: int| 0 <= t < slots.len() && slots[t].range_start <= p < slots[t].range_end ==>
        #[trigger] pair_reaches(leaves, leaf_group, walls[slots[t].wall_idx as int],
            slots[t].group_lo as int, slots[t].group_hi as int, p)
}

/// Some pair among `pairs[lo..=hi]` has `p` in its range.
pub open spec fn run_covers(pairs: Seq<(usize, usize, usize, usize)>, lo: int, hi: int, p: int) -> bool {
    exists|k: int| lo <= k <= hi && (#[trigger] pairs[k]).2 <= p < pairs[k].3
}

/// `slots` is the door-slot list of the layout: ordered by wall, groups and
/// start, separated per wall and group pair, covering every clipped overlap
/// of facing leaves of different groups and nothing else.
pub open spec fn door_slots_of(slots: Seq<DoorSlot>, leaves: Seq<BspRect>, walls: Seq<WallLine>,
    leaf_group: Seq<usize>) -> bool {
    &&& forall|t: int| 0 <= t < slots.len() ==> {
        let s = #[trigger] slots[t];
        &&& s.wall_idx < walls.len()
        &&& s.group_lo < s.group_hi
        &&& s.range_start < s.range_end
        &&& s.range_end <= wall_line(walls[s.wall_idx as int]).2
        &&& leaf_group.contains(s.group_lo)
        &&& leaf_group.contains(s.group_hi)
    }
    &&& forall|t1: int, t2: int| 0 <= t1 < t2 < slots.len() ==> slot_before(#[trigger] slots[t1], #[trigger] slots[t2])
    &&& slots_sound(slots, leaves, leaf_group, walls)
    &&& forall|w: int, a: int, b: int| 0 <= w < walls.len() && 0 <= a < leaves.len() && 0 <= b < leaves.len()
        && #[trigger] door_pair(leaves[a], leaves[b], leaf_group[a] as int, leaf_group[b] as int, walls[w]) ==>
        slot_covers(slots, w,
            vstd::math::min(leaf_group[a] as int, leaf_group[b] as int),
            vstd::math::max(leaf_group[a] as int, leaf_group[b] as int),
            clipped_overlap(leaves[a], leaves[b], walls[w]).0,
            clipped_overlap(leaves[a], leaves[b], walls[w]).1)
}

/// Key order on `(lo, hi, start)`.
pub open spec fn key_le(p: (usize, usize, usize, usize), q: (usize, usize, usize, usize)) -> bool {
    p.0 < q.0 || (p.0 == q.0 && (p.1 < q.1 || (p.1 == q.1 && p.2 <= q.2)))
}

/// Slot `s1` comes strictly before slot `s2`: by wall, then groups, then start,
/// with a gap between two ranges of the same wall and groups.
pub open spec fn slot_before(s1: DoorSlot, s2: DoorSlot) -> bool {
    ||| s1.wall_idx < s2.wall_idx
    ||| (s1.wall_idx == s2.wall_idx && (s1.group_lo < s2.group_lo
        || (s1.group_lo == s2.group_lo && (s1.group_hi < s2.group_hi
        || (s1.group_hi == s2.group_hi && s1.range_end < s2.range_start)))))
}

/// Stable insertion of `p` into the key-sorted `v`.
fn insert_sorted(v: &mut Vec<(usize, usize, usize, usize)>, p: (usize, usize, usize, usize))
    requires
        forall|i: int, j: int| 0 <= i < j < old(v)@.len() ==> key_le(#[trigger] old(v)@[i], #[trigger] old(v)@[j]),
    ensures
        forall|i: int, j: int| 0 <= i < j < final(v)@.len() ==> key_le(#[trigger] final(v)@[i], #[trigger] final(v)@[j]),
        final(v)@.len() == old(v)@.len() + 1,
        forall|x: (usize, usize, usize, usize)| #[trigger] final(v)@.contains(x) <==> (old(v)@.contains(x) || x == p),
{
    let mut pos: usize = 0;
    while pos < v.len() && (v[pos].0 < p.0 || (v[pos].0 == p.0 && (v[pos].1 < p.1 || (v[pos].1 == p.1 && v[pos].2 <= p.2))))
        invariant
            pos <= v@.len(),
            v@ == old(v)@,
            forall|i: int| 0 <= i < pos ==> key_le(#[trigger] v@[i], p),
        decreases v@.len() - pos,
    {
        pos = pos + 1;
    }
    let ghost v0 = v@;
    proof {
        v0.insert_ensures(pos as int, p);
    }
    v.insert(pos, p);
    proof {
        assert forall|i: int, j: int| 0 <= i < j < v@.len() implies key_le(#[trigger] v@[i], #[trigger] v@[j]) by {
            if j < pos {
                assert(v@[i] == v0[i] && v@[j] == v0[j]);
            } else if j == pos {
                assert(v@[i] == v0[i]);
            } else if i < pos {
                assert(v@[i] == v0[i] && v@[j] == v0[j - 1]);
                assert(key_le(v0[i], p));
                assert(!key_le(v0[pos as int], p));
                if j - 1 > pos {
                    assert(key_le(v0[pos as int], v0[j - 1]));
                }
            } else if i == pos {
                assert(v@[j] == v0[j - 1]);
                assert(!key_le(v0[pos as int], p));
                if j - 1 > pos {
                    assert(key_le(v0[pos as int], v0[j - 1]));
                }
            } else {
                assert(v@[i] == v0[i - 1] && v@[j] == v0[j - 1]);
            }
        }
        assert forall|x: (usize, usize, usize, usize)| #[trigger] v@.contains(x) <==> (v0.contains(x) || x == p) by {
            if v@.contains(x) {
                let k = choose|k: int| 0 <= k < v@.len() && v@[k] == x;
                if k < pos {
                    assert(v0[k] == x);
                } else if k > pos {
                    assert(v0[k - 1] == x);
                }
            }
            if v0.contains(x) {
                let k = choose|k: int| 0 <= k < v0.len() && v0[k] == x;
                if k < pos {
                    assert(v@[k] == x);
                } else {
                    assert(v@[k + 1] == x);
                }
            }
            if x == p {
                assert(v@[pos as int] == x);
            }
        }
    }
}

/// All door slots, wall by wall: for each wall, the facing leaf pairs of
/// different groups, their overlaps clipped to the wall, unioned per group
/// pair into maximal ranges, ordered by groups and start. The slots cover
/// every such overlap, hold no other position, and two ranges of one wall
/// and group pair are separated by a gap.
#[verifier::loop_isolation(false)]
#[verifier::rlimit(100)]
#[verifier::spinoff_prover]
pub fn collect_door_slots(leaves: &[BspRect], walls: &[WallLine], leaf_group: &[usize]) -> (slots: Vec<DoorSlot>)
    requires
        leaf_group@.len() == leaves@.len(),
        forall|i: int| 0 <= i < leaves@.len() ==> rect_fits(#[trigger] leaves@[i]),
        forall|i: int| 0 <= i < walls@.len() ==> wall_fits(#[trigger] walls@[i]),
    ensures
        forall|t: int| 0 <= t < slots@.len() ==> {
            let s = #[trigger] slots@[t];
            &&& s.wall_idx < walls@.len()
            &&& s.group_lo < s.group_hi
            &&& s.range_start < s.range_end
            &&& s.range_end <= wall_line(walls@[s.wall_idx as int]).2
            &&& leaf_group@.contains(s.group_lo)
            &&& leaf_group@.contains(s.group_hi)
        },
        forall|t1: int, t2: int| 0 <= t1 < t2 < slots@.len() ==> slot_before(#[trigger] slots@[t1], #[trigger] slots@[t2]),
        slots_sound(slots@, leaves@, leaf_group@, walls@),
        door_slots_of(slots@, leaves@, walls@, leaf_group@),
        forall|w: int, a: int, b: int| 0 <= w < walls@.len() && 0 <= a < leaves@.len() && 0 <= b < leaves@.len()
            && #[trigger] door_pair(leaves@[a], leaves@[b], leaf_group@[a] as int, leaf_group@[b] as int, walls@[w]) ==>
            slot_covers(slots@, w,
                vstd::math::min(leaf_group@[a] as int, leaf_group@[b] as int),
                vstd::math::max(leaf_group@[a] as int, leaf_group@[b] as int),
                clipped_overlap(leaves@[a], leaves@[b], walls@[w]).0,
                clipped_overlap(leaves@[a], leaves@[b], walls@[w]).1),
{
    let mut slots: Vec<DoorSlot> = Vec::new();
    let nl = leaves.len();
    let mut wi: usize = 0;
    while wi < walls.len()
        invariant
            nl == leaves@.len(),
            nl == leaf_group@.len(),
            wi <= walls@.len(),
            forall|i: int| 0 <= i < leaves@.len() ==> rect_fits(#[trigger] leaves@[i]),
            forall|i: int| 0 <= i < walls@.len() ==> wall_fits(#[trigger] walls@[i]),
            forall|t: int| 0 <= t < slots@.len() ==> {
                let s = #[trigger] slots@[t];
                &&& s.wall_idx < wi
                &&& s.group_lo < s.group_hi
                &&& s.range_start < s.range_end
                &&& s.range_end <= wall_line(walls@[s.wall_idx as int]).2
                &&& leaf_group@.contains(s.group_lo)
                &&& leaf_group@.contains(s.group_hi)
            },
            forall|t1: int, t2: int| 0 <= t1 < t2 < slots@.len() ==> slot_before(#[trigger] slots@[t1], #[trigger] slots@[t2]),
            slots_sound(slots@, leaves@, leaf_group@, walls@),
            forall|w: int, a: int, b: int| 0 <= w < wi && 0 <= a < leaves@.len() && 0 <= b < leaves@.len()
                && #[trigger] door_pair(leaves@[a], leaves@[b], leaf_group@[a] as int, leaf_group@[b] as int, walls@[w]) ==>
                slot_covers(slots@, w,
                    vstd::math::min(leaf_group@[a] as int, leaf_group@[b] as int),
                    vstd::math::max(leaf_group@[a] as int, leaf_group@[b] as int),
                    clipped_overlap(leaves@[a], leaves@[b], walls@[w]).0,
                    clipped_overlap(leaves@[a], leaves@[b], walls@[w]).1),
        decreases walls@.len() - wi,
    {
        let wall = walls[wi];
        // Facing pairs of different groups on this wall, key-sorted.
        let mut pairs: Vec<(usize, usize, usize, usize)> = Vec::new();
        let mut ai: usize = 0;
        while ai < nl
            invariant
                nl == leaves@.len(),
                nl == leaf_group@.len(),
                wi < walls@.len(),
                wall == walls@[wi as int],
                ai <= nl,
                forall|i: int| 0 <= i < leaves@.len() ==> rect_fits(#[trigger] leaves@[i]),
                forall|i: int| 0 <= i < pairs@.len() ==> overlap_of_pair(leaves@, leaf_group@, walls@[wi as int],
                    (#[trigger] pairs@[i]).0 as int, pairs@[i].1 as int, pairs@[i].2 as int, pairs@[i].3 as int),
                forall|i: int| 0 <= i < pairs@.len() ==> (#[trigger] pairs@[i]).0 < pairs@[i].1 && pairs@[i].2 < pairs@[i].3
                    && pairs@[i].3 <= wall_line(walls@[wi as int]).2 && leaf_group@.contains(pairs@[i].0) && leaf_group@.contains(pairs@[i].1),
                forall|i: int, j: int| 0 <= i < j < pairs@.len() ==> key_le(#[trigger] pairs@[i], #[trigger] pairs@[j]),
                forall|a: int, b: int| 0 <= a < ai && 0 <= b < leaves@.len()
                    && #[trigger] door_pair(leaves@[a], leaves@[b], leaf_group@[a] as int, leaf_group@[b] as int, walls@[wi as int]) ==>
                    pairs@.contains((
                        vstd::math::min(leaf_group@[a] as int, leaf_group@[b] as int) as usize,
                        vstd::math::max(leaf_group@[a] as int, leaf_group@[b] as int) as usize,
                        clipped_overlap(leaves@[a], leaves@[b], walls@[wi as int]).0 as usize,
                        clipped_overlap(leaves@[a], leaves@[b], walls@[wi as int]).1 as usize)),
            decreases nl - ai,
        {
            let a = leaves[ai];
            let a_ok = match wall {
                WallLine::Horizontal { y, x0, x1 } => a.y + a.h == y,
                WallLine::Vertical { x, y0, y1 } => a.x + a.w == x,
            };
            if a_ok {
                let mut bi: usize = 0;
                while bi < nl
                    invariant
                        nl == leaves@.len(),
                        nl == leaf_group@.len(),
                        wi < walls@.len(),
                        wall == walls@[wi as int],
                        ai < nl,
                        a == leaves@[ai as int],
                        before_wall(a, wall),
                        bi <= nl,
                        forall|i: int| 0 <= i < leaves@.len() ==> rect_fits(#[trigger] leaves@[i]),
                forall|i: int| 0 <= i < pairs@.len() ==> overlap_of_pair(leaves@, leaf_group@, walls@[wi as int],
                    (#[trigger] pairs@[i]).0 as int, pairs@[i].1 as int, pairs@[i].2 as int, pairs@[i].3 as int),
                        forall|i: int| 0 <= i < pairs@.len() ==> (#[trigger] pairs@[i]).0 < pairs@[i].1 && pairs@[i].2 < pairs@[i].3
                    && pairs@[i].3 <= wall_line(walls@[wi as int]).2 && leaf_group@.contains(pairs@[i].0) && leaf_group@.contains(pairs@[i].1),
                        forall|i: int, j: int| 0 <= i < j < pairs@.len() ==> key_le(#[trigger] pairs@[i], #[trigger] pairs@[j]),
                        forall|a: int, b: int| 0 <= a < ai && 0 <= b < leaves@.len()
                            && #[trigger] door_pair(leaves@[a], leaves@[b], leaf_group@[a] as int, leaf_group@[b] as int, walls@[wi as int]) ==>
                            pairs@.contains((
                                vstd::math::min(leaf_group@[a] as int, leaf_group@[b] as int) as usize,
                                vstd::math::max(leaf_group@[a] as int, leaf_group@[b] as int) as usize,
                                clipped_overlap(leaves@[a], leaves@[b], walls@[wi as int]).0 as usize,
                                clipped_overlap(leaves@[a], leaves@[b], walls@[wi as int]).1 as usize)),
                        forall|b: int| 0 <= b < bi
                            && #[trigger] door_pair(leaves@[ai as int], leaves@[b], leaf_group@[ai as int] as int, leaf_group@[b] as int, walls@[wi as int]) ==>
                            pairs@.contains((
                                vstd::math::min(leaf_group@[ai as int] as int, leaf_group@[b] as int) as usize,
                                vstd::math::max(leaf_group@[ai as int] as int, leaf_group@[b] as int) as usize,
                                clipped_overlap(leaves@[ai as int], leaves@[b], walls@[wi as int]).0 as usize,
                                clipped_overlap(leaves@[ai as int], leaves@[b], walls@[wi as int]).1 as usize)),
                    decreases nl - bi,
                {
                    let b = leaves[bi];
                    let ga = leaf_group[ai];
                    let gb = leaf_group[bi];
                    let (b_ok, s, e) = match wall {
                        WallLine::Horizontal { y, x0, x1 } => {
                            let s1 = if a.x > b.x { a.x } else { b.x };
                            let s = if s1 > x0 { s1 } else { x0 };
                            let e1 = if a.x + a.w < b.x + b.w { a.x + a.w } else { b.x + b.w };
                            let e = if e1 < x1 { e1 } else { x1 };
                            (b.y == y + 1, s, e)
                        },
                        WallLine::Vertical { x, y0, y1 } => {
                            let s1 = if a.y > b.y { a.y } else { b.y };
                            let s = if s1 > y0 { s1 } else { y0 };
                            let e1 = if a.y + a.h < b.y + b.h { a.y + a.h } else { b.y + b.h };
                            let e = if e1 < y1 { e1 } else { y1 };
                            (b.x == x + 1, s, e)
                        },
                    };
                    proof {
                        assert((s as int, e as int) == clipped_overlap(a, b, wall));
                        assert(b_ok == after_wall(b, wall));
                    }
                    let ghost p0 = pairs@;
                    if b_ok && ga != gb && e > s {
                        let (lo, hi) = if ga < gb { (ga, gb) } else { (gb, ga) };
                        insert_sorted(&mut pairs, (lo, hi, s, e));
                        proof {
                            assert(pairs@.contains((lo, hi, s, e)));
                            assert(leaf_group@[ai as int] == ga && leaf_group@[bi as int] == gb);
                            assert(leaf_group@.contains(ga) && leaf_group@.contains(gb));
                            assert(door_pair(leaves@[ai as int], leaves@[bi as int], leaf_group@[ai as int] as int,
                                leaf_group@[bi as int] as int, walls@[wi as int]));
                            assert(overlap_of_pair(leaves@, leaf_group@, walls@[wi as int], lo as int, hi as int, s as int, e as int));
                            assert forall|i: int| 0 <= i < pairs@.len() implies overlap_of_pair(leaves@, leaf_group@, walls@[wi as int],
                                (#[trigger] pairs@[i]).0 as int, pairs@[i].1 as int, pairs@[i].2 as int, pairs@[i].3 as int) by {
                                assert(pairs@.contains(pairs@[i]));
                                if pairs@[i] != (lo, hi, s, e) {
                                    let k = choose|k: int| 0 <= k < p0.len() && p0[k] == pairs@[i];
                                    assert(overlap_of_pair(leaves@, leaf_group@, walls@[wi as int],
                                        p0[k].0 as int, p0[k].1 as int, p0[k].2 as int, p0[k].3 as int));
                                }
                            }
                            assert forall|i: int| 0 <= i < pairs@.len() implies (#[trigger] pairs@[i]).0 < pairs@[i].1 && pairs@[i].2 < pairs@[i].3
                                && pairs@[i].3 <= wall_line(walls@[wi as int]).2 && leaf_group@.contains(pairs@[i].0) && leaf_group@.contains(pairs@[i].1) by {
                                assert(pairs@.contains(pairs@[i]));
                                if pairs@[i] != (lo, hi, s, e) {
                                    let k = choose|k: int| 0 <= k < p0.len() && p0[k] == pairs@[i];
                                    assert(p0[k].0 < p0[k].1);
                                }
                            }
                        }
                    }
                    bi = bi + 1;
                }
            } else {
                proof {
                    assert forall|b: int| 0 <= b < leaves@.len() implies
                        !door_pair(leaves@[ai as int], #[trigger] leaves@[b], leaf_group@[ai as int] as int, leaf_group@[b] as int, walls@[wi as int]) by {}
                }
            }
            ai = ai + 1;
        }
        // Union the overlaps per group pair.
        let ghost s_w = slots@;
        let mut i: usize = 0;
        while i < pairs.len()
            invariant
                nl == leaves@.len(),
                nl == leaf_group@.len(),
                wi < walls@.len(),
                wall == walls@[wi as int],
                i <= pairs@.len(),
                s_w.len() <= slots@.len(),
                forall|i: int| 0 <= i < pairs@.len() ==> overlap_of_pair(leaves@, leaf_group@, walls@[wi as int],
                    (#[trigger] pairs@[i]).0 as int, pairs@[i].1 as int, pairs@[i].2 as int, pairs@[i].3 as int),
                slots_sound(slots@, leaves@, leaf_group@, walls@),
                forall|t: int| 0 <= t < s_w.len() ==> #[trigger] slots@[t] == s_w[t],
                forall|t: int| 0 <= t < s_w.len() ==> (#[trigger] s_w[t]).wall_idx < wi,
                forall|i: int| 0 <= i < pairs@.len() ==> (#[trigger] pairs@[i]).0 < pairs@[i].1 && pairs@[i].2 < pairs@[i].3
                    && pairs@[i].3 <= wall_line(walls@[wi as int]).2 && leaf_group@.contains(pairs@[i].0) && leaf_group@.contains(pairs@[i].1),
                forall|i: int, j: int| 0 <= i < j < pairs@.len() ==> key_le(#[trigger] pairs@[i], #[trigger] pairs@[j]),
                forall|t: int| 0 <= t < slots@.len() ==> {
                    let s = #[trigger] slots@[t];
                    &&& s.wall_idx <= wi
                    &&& s.group_lo < s.group_hi
                    &&& s.range_start < s.range_end
                    &&& s.range_end <= wall_line(walls@[s.wall_idx as int]).2
                    &&& leaf_group@.contains(s.group_lo)
                    &&& leaf_group@.contains(s.group_hi)
                    &&& (t >= s_w.len() ==> s.wall_idx == wi)
                },
                forall|t1: int, t2: int| 0 <= t1 < t2 < slots@.len() ==> slot_before(#[trigger] slots@[t1], #[trigger] slots@[t2]),
                slots@.len() > s_w.len() && i < pairs@.len() ==> ({
                    let last = slots@[slots@.len() - 1];
                    let nxt = pairs@[i as int];
                    last.group_lo < nxt.0 || (last.group_lo == nxt.0 && (last.group_hi < nxt.1
                        || (last.group_hi == nxt.1 && last.range_end < nxt.2)))
                }),
                forall|k: int| 0 <= k < i ==> slot_covers(slots@, wi as int, (#[trigger] pairs@[k]).0 as int,
                    pairs@[k].1 as int, pairs@[k].2 as int, pairs@[k].3 as int),
            decreases pairs@.len() - i,
        {
            let (ga, gb, rs, mut re) = pairs[i];
            let i0 = i;
            let ghost sl_start = slots@;
            proof {
                assert(forall|k: int| 0 <= k < i0 ==> slot_covers(sl_start, wi as int, (#[trigger] pairs@[k]).0 as int,
                    pairs@[k].1 as int, pairs@[k].2 as int, pairs@[k].3 as int));
            }
            while i + 1 < pairs.len() && pairs[i + 1].0 == ga && pairs[i + 1].1 == gb && pairs[i + 1].2 <= re
                invariant
                    i0 <= i < pairs@.len(),
                    pairs@[i0 as int] == (ga, gb, rs, pairs@[i0 as int].3),
                    forall|i: int| 0 <= i < pairs@.len() ==> (#[trigger] pairs@[i]).0 < pairs@[i].1 && pairs@[i].2 < pairs@[i].3
                    && pairs@[i].3 <= wall_line(walls@[wi as int]).2 && leaf_group@.contains(pairs@[i].0) && leaf_group@.contains(pairs@[i].1),
                    forall|i: int, j: int| 0 <= i < j < pairs@.len() ==> key_le(#[trigger] pairs@[i], #[trigger] pairs@[j]),
                    rs < re,
                    re <= wall_line(walls@[wi as int]).2,
                    forall|k: int| i0 <= k <= i ==> (#[trigger] pairs@[k]).0 == ga && pairs@[k].1 == gb
                        && rs <= pairs@[k].2 && pairs@[k].3 <= re,
                    forall|p: int| rs <= p < re ==> #[trigger] run_covers(pairs@, i0 as int, i as int, p),
                decreases pairs@.len() - i,
            {
                let nre = pairs[i + 1].3;
                let ghost re0 = re;
                if nre > re {
                    re = nre;
                }
                i = i + 1;
                proof {
                    assert forall|p: int| rs <= p < re implies #[trigger] run_covers(pairs@, i0 as int, i as int, p) by {
                        if p >= re0 {
                            assert(pairs@[i as int].2 <= p < pairs@[i as int].3);
                        } else {
                            assert(run_covers(pairs@, i0 as int, i - 1, p));
                            let k = choose|k: int| i0 <= k <= i - 1 && (#[trigger] pairs@[k]).2 <= p < pairs@[k].3;
                            assert(pairs@[k].2 <= p < pairs@[k].3);
                        }
                    }
                }
            }
            i = i + 1;
            let slot = DoorSlot { group_lo: ga, group_hi: gb, wall_idx: wi, range_start: rs, range_end: re };
            let ghost sl0 = slots@;
            proof {
                assert(sl0 == sl_start);
            }
            slots.push(slot);
            proof {
                assert forall|t: int, p: int| 0 <= t < slots@.len() && slots@[t].range_start <= p < slots@[t].range_end implies
                    #[trigger] pair_reaches(leaves@, leaf_group@, walls@[slots@[t].wall_idx as int],
                        slots@[t].group_lo as int, slots@[t].group_hi as int, p) by {
                    if t < sl0.len() {
                        assert(slots@[t] == sl0[t]);
                        assert(pair_reaches(leaves@, leaf_group@, walls@[sl0[t].wall_idx as int],
                            sl0[t].group_lo as int, sl0[t].group_hi as int, p));
                    } else {
                        assert(slots@[t] == slot);
                        assert(run_covers(pairs@, i0 as int, i - 1, p));
                        let k = choose|k: int| i0 <= k <= i - 1 && (#[trigger] pairs@[k]).2 <= p < pairs@[k].3;
                        let q = pairs@[k];
                        assert(overlap_of_pair(leaves@, leaf_group@, walls@[wi as int], q.0 as int, q.1 as int, q.2 as int, q.3 as int));
                        let (a, b) = choose|a: int, b: int| 0 <= a < leaves@.len() && 0 <= b < leaves@.len()
                            && #[trigger] door_pair(leaves@[a], leaves@[b], leaf_group@[a] as int, leaf_group@[b] as int, walls@[wi as int])
                            && vstd::math::min(leaf_group@[a] as int, leaf_group@[b] as int) == q.0 as int
                            && vstd::math::max(leaf_group@[a] as int, leaf_group@[b] as int) == q.1 as int
                            && clipped_overlap(leaves@[a], leaves@[b], walls@[wi as int]) == (q.2 as int, q.3 as int);
                        assert(door_pair(leaves@[a], leaves@[b], leaf_group@[a] as int, leaf_group@[b] as int, walls@[wi as int]));
                    }
                }
                assert forall|k: int| 0 <= k < i implies slot_covers(slots@, wi as int, (#[trigger] pairs@[k]).0 as int,
                    pairs@[k].1 as int, pairs@[k].2 as int, pairs@[k].3 as int) by {
                    if k < i0 {
                        let t = choose|t: int| 0 <= t < sl0.len() && #[trigger] sl0[t].wall_idx == wi as int
                            && sl0[t].group_lo == pairs@[k].0 as int && sl0[t].group_hi == pairs@[k].1 as int
                            && sl0[t].range_start <= pairs@[k].2 as int && pairs@[k].3 as int <= sl0[t].range_end;
                        assert(slots@[t] == sl0[t]);
                        assert(slots@[t].wall_idx == wi as int);
                    } else {
                        assert(slots@[sl0.len() as int] == slot);
                        assert(slots@[sl0.len() as int].wall_idx == wi as int);
                    }
                }
                assert forall|t1: int, t2: int| 0 <= t1 < t2 < slots@.len() implies slot_before(#[trigger] slots@[t1], #[trigger] slots@[t2]) by {
                    if t2 == sl0.len() {
                        if t1 < s_w.len() {
                            assert(slots@[t1] == s_w[t1]);
                        } else if t1 < sl0.len() - 1 {
                            assert(slot_before(sl0[t1], sl0[sl0.len() - 1]));
                        }
                    } else {
                        assert(slots@[t1] == sl0[t1]);
                        assert(slots@[t2] == sl0[t2]);
                    }
                }
                if i < pairs@.len() {
                    let nxt = pairs@[i as int];
                    assert(key_le(pairs@[i - 1], nxt));
                }
            }
        }
        proof {
            assert forall|a: int, b: int| 0 <= a < leaves@.len() && 0 <= b < leaves@.len()
                && #[trigger] door_pair(leaves@[a], leaves@[b], leaf_group@[a] as int, leaf_group@[b] as int, walls@[wi as int]) implies
                slot_covers(slots@, wi as int,
                    vstd::math::min(leaf_group@[a] as int, leaf_group@[b] as int),
                    vstd::math::max(leaf_group@[a] as int, leaf_group@[b] as int),
                    clipped_overlap(leaves@[a], leaves@[b], walls@[wi as int]).0,
                    clipped_overlap(leaves@[a], leaves@[b], walls@[wi as int]).1) by {
                let x = (
                    vstd::math::min(leaf_group@[a] as int, leaf_group@[b] as int) as usize,
                    vstd::math::max(leaf_group@[a] as int, leaf_group@[b] as int) as usize,
                    clipped_overlap(leaves@[a], leaves@[b], walls@[wi as int]).0 as usize,
                    clipped_overlap(leaves@[a], leaves@[b], walls@[wi as int]).1 as usize);
                assert(pairs@.contains(x));
                let k = choose|k: int| 0 <= k < pairs@.len() && pairs@[k] == x;
                assert(slot_covers(slots@, wi as int, pairs@[k].0 as int, pairs@[k].1 as int, pairs@[k].2 as int, pairs@[k].3 as int));
                assert(pairs@[k].0 as int == vstd::math::min(leaf_group@[a] as int, leaf_group@[b] as int));
            }
            assert forall|w: int, a: int, b: int| 0 <= w < wi && 0 <= a < leaves@.len() && 0 <= b < leaves@.len()
                && #[trigger] door_pair(leaves@[a], leaves@[b], leaf_group@[a] as int, leaf_group@[b] as int, walls@[w]) implies
                slot_covers(slots@, w,
                    vstd::math::min(leaf_group@[a] as int, leaf_group@[b] as int),
                    vstd::math::max(leaf_group@[a] as int, leaf_group@[b] as int),
                    clipped_overlap(leaves@[a], leaves@[b], walls@[w]).0,
                    clipped_overlap(leaves@[a], leaves@[b], walls@[w]).1) by {
                let lo = vstd::math::min(leaf_group@[a] as int, leaf_group@[b] as int);
                let hi = vstd::math::max(leaf_group@[a] as int, leaf_group@[b] as int);
                let ov = clipped_overlap(leaves@[a], leaves@[b], walls@[w]);
                assert(slot_covers(s_w, w, lo, hi, ov.0, ov.1));
                let t = choose|t: int| 0 <= t < s_w.len() && #[trigger] s_w[t].wall_idx == w && s_w[t].group_lo == lo
                    && s_w[t].group_hi == hi && s_w[t].range_start <= ov.0 && ov.1 <= s_w[t].range_end;
                assert(slots@[t] == s_w[t]);
                assert(slots@[t].wall_idx == w);
            }
        }
        wi = wi + 1;
    }
    slots
}

// ---------------------------------------------------------------------------
// Cutting doors
// ---------------------------------------------------------------------------

/// A door cell: the terrain becomes an open door, the furniture stays.
pub open spec fn door_of(c: Cell) -> Cell {
    Cell { terrain: Terrain::DoorOpen, furniture: c.furniture }
}

/// The map with a `DOOR_WIDTH`-cell door at position `p` of the wall line.
pub open spec fn with_door(map: Seq<Cell>, w: int, horizontal: bool, line: int, p: int) -> Seq<Cell> {
    let c0 = line_cell(w, horizontal, line, p);
    let c1 = line_cell(w, horizontal, line, p + 1);
    map.update(c0, door_of(map[c0])).update(c1, door_of(map[c1]))
}

/// Search window `(safe_s, safe_e, candidate)` of a slot on its wall: the slot
/// range inset by the adaptive corner margin, kept `DOOR_EDGE_MARGIN` from the
/// map edges and inside the wall; the candidate is the door centred in it.
pub open spec fn slot_window(slot: DoorSlot, wall: WallLine, w: int, h: int) -> (int, int, int) {
    let rw = if slot.range_end > slot.range_start { slot.range_end - slot.range_start } else { 0 };
    let margin = if rw >= DOOR_WIDTH + 1 { vstd::math::min(3, (rw - DOOR_WIDTH - 1) / 2) } else { 0 };
    let (lo, hi, dim) = match wall {
        WallLine::Horizontal { y, x0, x1 } => (x0 as int, x1 as int, w),
        WallLine::Vertical { x, y0, y1 } => (y0 as int, y1 as int, h),
    };
    let safe_s = vstd::math::max(vstd::math::max(slot.range_start + margin, DOOR_EDGE_MARGIN as int), lo);
    let end_in = if slot.range_end >= margin { slot.range_end - margin } else { 0 };
    let dim_in = if dim >= DOOR_EDGE_MARGIN { dim - DOOR_EDGE_MARGIN } else { 0 };
    let safe_e = vstd::math::min(vstd::math::min(end_in, dim_in), hi);
    let mid = (safe_s + safe_e) / 2;
    let cand = vstd::math::max(if mid >= DOOR_WIDTH / 2 { mid - DOOR_WIDTH / 2 } else { 0 }, safe_s);
    (safe_s, safe_e, cand)
}

/// Orientation, line and end of a wall.
pub open spec fn wall_line(wall: WallLine) -> (bool, int, int) {
    match wall {
        WallLine::Horizontal { y, x0, x1 } => (true, y as int, x1 as int),
        WallLine::Vertical { x, y0, y1 } => (false, x as int, y1 as int),
    }
}

/// Door start chosen for a slot, if one fits.
pub open spec fn slot_door(map: Seq<Cell>, w: int, h: int, walls: Seq<WallLine>, slot: DoorSlot) -> Option<int> {
    let wall = walls[slot.wall_idx as int];
    let (safe_s, safe_e, cand) = slot_window(slot, wall, w, h);
    let (horizontal, line, wall_end) = wall_line(wall);
    if safe_e <= safe_s + DOOR_WIDTH {
        None
    } else {
        match first_door(map, w, h, horizontal, line, safe_s, safe_e, cand, 0) {
            Some(p) => if p + DOOR_WIDTH <= wall_end { Some(p) } else { None },
            None => None,
        }
    }
}

/// The map after cutting the door of a slot (unchanged when none fits).
pub open spec fn slot_cut(map: Seq<Cell>, w: int, h: int, walls: Seq<WallLine>, slot: DoorSlot) -> Seq<Cell> {
    match slot_door(map, w, h, walls, slot) {
        Some(p) => {
            let (horizontal, line, wall_end) = wall_line(walls[slot.wall_idx as int]);
            with_door(map, w, horizontal, line, p)
        },
        None => map,
    }
}

/// Write a door of `DOOR_WIDTH` cells at `p` along the wall line.
fn place_door(map: &mut Vec<Cell>, map_w: usize, map_h: usize, horizontal: bool, line: usize, p: usize)
    requires
        grid_ok(old(map)@, map_w as int, map_h as int),
        horizontal ==> p + DOOR_WIDTH <= map_w && line < map_h,
        !horizontal ==> p + DOOR_WIDTH <= map_h && line < map_w,
    ensures
        final(map)@ == with_door(old(map)@, map_w as int, horizontal, line as int, p as int),
        final(map)@.len() == old(map)@.len(),
{
    let mut d: usize = 0;
    let ghost m0 = map@;
    while d < DOOR_WIDTH
        invariant
            grid_ok(map@, map_w as int, map_h as int),
            map@.len() == m0.len(),
            horizontal ==> p + DOOR_WIDTH <= map_w && line < map_h,
            !horizontal ==> p + DOOR_WIDTH <= map_h && line < map_w,
            d <= DOOR_WIDTH,
            d == 0 ==> map@ == m0,
            d == 1 ==> map@ == m0.update(line_cell(map_w as int, horizontal, line as int, p as int),
                door_of(m0[line_cell(map_w as int, horizontal, line as int, p as int)])),
            d == 2 ==> map@ == with_door(m0, map_w as int, horizontal, line as int, p as int),
        decreases DOOR_WIDTH - d,
    {
        proof {
            if horizontal {
                lemma_flat_in_range(p + d, line as int, map_w as int, map_h as int);
                lemma_flat_in_range(p as int, line as int, map_w as int, map_h as int);
                lemma_flat_in_range(p + 1, line as int, map_w as int, map_h as int);
            } else {
                lemma_flat_in_range(line as int, p + d, map_w as int, map_h as int);
                lemma_flat_in_range(line as int, p as int, map_w as int, map_h as int);
                lemma_flat_in_range(line as int, p + 1, map_w as int, map_h as int);
            }
        }
        let ci = if horizontal { line * map_w + (p + d) } else { (p + d) * map_w + line };
        let c = map[ci];
        map.set(ci, Cell { terrain: Terrain::DoorOpen, furniture: c.furniture });
        d = d + 1;
    }
}

/// Cut a single door from a slot; true if one was placed. The slot range is
/// inset by the adaptive corner margin and `DOOR_EDGE_MARGIN` from the map
/// edges, and the door is searched outward from the middle.
#[verifier::rlimit(40)]
pub fn cut_door_from_slot(map: &mut Vec<Cell>, map_w: usize, walls: &[WallLine], slot: &DoorSlot) -> (placed: bool)
    requires
        map_ok(old(map)@, map_w as int),
        slot.wall_idx < walls@.len(),
        wall_in(walls@[slot.wall_idx as int], map_w as int, rows(old(map)@, map_w as int)),
        slot.range_start <= slot.range_end,
        slot.range_end <= (if wall_line(walls@[slot.wall_idx as int]).0 { map_w as int } else { rows(old(map)@, map_w as int) }),
    ensures
        placed == slot_door(old(map)@, map_w as int, rows(old(map)@, map_w as int), walls@, *slot) is Some,
        final(map)@ == slot_cut(old(map)@, map_w as int, rows(old(map)@, map_w as int), walls@, *slot),
        doors_added(old(map)@, final(map)@, placed),
        doors_on_walls(old(map)@, final(map)@, map_w as int, walls@),
{
    let ghost w = map_w as int;
    let ghost h = rows(map@, w);
    proof {
        lemma_map_ok(map@, w);
        lemma_slot_cut_on_wall(map@, w, h, walls@, *slot);
    }
    let map_h = map.len() / map_w;
    proof {
        assert(map_h as int == h);
        match walls@[slot.wall_idx as int] {
            WallLine::Horizontal { y, x0, x1 } => {
                assert(map_w <= map_w * map_h) by (nonlinear_arith) requires y < map_h;
            },
            WallLine::Vertical { x, y0, y1 } => {
                assert(map_h <= map_w * map_h) by (nonlinear_arith) requires x < map_w;
            },
        }
    }
    let range_width = slot.range_end - slot.range_start;
    let margin = adaptive_margin(range_width);
    let wall = walls[slot.wall_idx];
    let (horizontal, line, lo, hi, dim) = match wall {
        WallLine::Horizontal { y, x0, x1 } => (true, y, x0, x1, map_w),
        WallLine::Vertical { x, y0, y1 } => (false, x, y0, y1, map_h),
    };
    let s1 = if slot.range_start + margin > DOOR_EDGE_MARGIN { slot.range_start + margin } else { DOOR_EDGE_MARGIN };
    let safe_s = if s1 > lo { s1 } else { lo };
    let e0 = slot.range_end.saturating_sub(margin);
    let e1 = dim.saturating_sub(DOOR_EDGE_MARGIN);
    let e2 = if e0 < e1 { e0 } else { e1 };
    let safe_e = if e2 < hi { e2 } else { hi };
    if safe_e <= safe_s + DOOR_WIDTH {
        return false;
    }
    let mid = (safe_s + safe_e) / 2;
    let c0 = mid.saturating_sub(DOOR_WIDTH / 2);
    let candidate = if c0 > safe_s { c0 } else { safe_s };
    proof {
        assert((safe_s as int, safe_e as int, candidate as int) == slot_window(*slot, wall, w, h));
        assert((horizontal, line as int, hi as int) == wall_line(wall));
    }
    let found = find_clear_door(map, map_w, map_h, horizontal, line, safe_s, safe_e, candidate);
    match found {
        Some(p) => {
            proof {
                lemma_first_door_ok(map@, w, h, horizontal, line as int, safe_s as int, safe_e as int, candidate as int, 0);
            }
            if p + DOOR_WIDTH > hi {
                return false;
            }
            let ghost m0 = map@;
            place_door(map, map_w, map_h, horizontal, line, p);
            proof {
                lemma_slot_cut_doors(m0, w, h, walls@, *slot);
            }
            true
        },
        None => false,
    }
}

/// Overlap range of two leaves along a wall, if non-empty.
pub fn leaf_wall_overlap(a: &BspRect, b: &BspRect, wall: &WallLine) -> (r: Option<(usize, usize)>)
    requires
        rect_fits(*a),
        rect_fits(*b),
    ensures
        ({
            let (s, e) = match *wall {
                WallLine::Horizontal { y, x0, x1 } =>
                    (vstd::math::max(a.x as int, b.x as int), vstd::math::min(a.x + a.w, b.x + b.w)),
                WallLine::Vertical { x, y0, y1 } =>
                    (vstd::math::max(a.y as int, b.y as int), vstd::math::min(a.y + a.h, b.y + b.h)),
            };
            &&& s < e ==> r == Some((s as usize, e as usize))
            &&& s >= e ==> r is None
        }),
{
    let (s, e) = match wall {
        WallLine::Horizontal { .. } => (
            if a.x > b.x { a.x } else { b.x },
            if a.x + a.w < b.x + b.w { a.x + a.w } else { b.x + b.w },
        ),
        WallLine::Vertical { .. } => (
            if a.y > b.y { a.y } else { b.y },
            if a.y + a.h < b.y + b.h { a.y + a.h } else { b.y + b.h },
        ),
    };
    if e > s { Some((s, e)) } else { None }
}

/// Some cell of the wall within the overlap of leaves `a` and `b` is a door.
pub open spec fn door_on_overlap(map: Seq<Cell>, w: int, h: int, a: BspRect, b: BspRect, wall: WallLine) -> bool {
    match wall {
        WallLine::Horizontal { y, x0, x1 } => exists|x: int|
            vstd::math::max(a.x as int, b.x as int) <= x < vstd::math::min(a.x + a.w, b.x + b.w)
                && #[trigger] ter(map, w, x, y as int).spec_is_door(),
        WallLine::Vertical { x, y0, y1 } => exists|y: int|
            vstd::math::max(a.y as int, b.y as int) <= y < vstd::math::min(a.y + a.h, b.y + b.h)
                && #[trigger] ter(map, w, x as int, y).spec_is_door(),
    }
}

/// Whether a door cell exists on the wall overlap between two leaves.
pub fn has_door_on_leaf_edge(map: &[Cell], map_w: usize, a: &BspRect, b: &BspRect, wall: &WallLine) -> (r: bool)
    requires
        map_ok(map@, map_w as int),
        rect_in_grid(*a, map_w as int, rows(map@, map_w as int)),
        rect_in_grid(*b, map_w as int, rows(map@, map_w as int)),
        wall_in(*wall, map_w as int, rows(map@, map_w as int)),
    ensures
        r == door_on_overlap(map@, map_w as int, rows(map@, map_w as int), *a, *b, *wall),
{
    let ghost w = map_w as int;
    let ghost h = rows(map@, w);
    proof {
        lemma_map_ok(map@, w);
    }
    match wall {
        WallLine::Horizontal { y, .. } => {
            let y = *y;
            let s = if a.x > b.x { a.x } else { b.x };
            let e = if a.x + a.w < b.x + b.w { a.x + a.w } else { b.x + b.w };
            let mut x = s;
            while x < e
                invariant
                    grid_ok(map@, w, h),
                    w == map_w as int,
                    s <= x,
                    e <= map_w,
                    s as int == vstd::math::max(a.x as int, b.x as int),
                    e as int == vstd::math::min(a.x + a.w, b.x + b.w),
                    *wall == (WallLine::Horizontal { y, x0: wall->x0, x1: wall->x1 }),
                    y < h,
                    forall|q: int| s <= q < x ==> !#[trigger] ter(map@, w, q, y as int).spec_is_door(),
                decreases e - x,
            {
                proof {
                    lemma_flat_in_range(x as int, y as int, w, h);
                }
                if crate::map_gen::is_door_terrain(map[y * map_w + x].terrain) {
                    proof {
                        assert(ter(map@, w, x as int, y as int).spec_is_door());
                        assert(s as int == vstd::math::max(a.x as int, b.x as int));
                        assert(e as int == vstd::math::min(a.x + a.w, b.x + b.w));
                        assert(door_on_overlap(map@, w, h, *a, *b, *wall));
                    }
                    return true;
                }
                x = x + 1;
            }
            false
        },
        WallLine::Vertical { x, .. } => {
            let x = *x;
            let s = if a.y > b.y { a.y } else { b.y };
            let e = if a.y + a.h < b.y + b.h { a.y + a.h } else { b.y + b.h };
            let mut y = s;
            while y < e
                invariant
                    grid_ok(map@, w, h),
                    w == map_w as int,
                    s <= y,
                    e as int <= h,
                    s as int == vstd::math::max(a.y as int, b.y as int),
                    e as int == vstd::math::min(a.y + a.h, b.y + b.h),
                    *wall == (WallLine::Vertical { x, y0: wall->y0, y1: wall->y1 }),
                    x < map_w,
                    forall|q: int| s <= q < y ==> !#[trigger] ter(map@, w, x as int, q).spec_is_door(),
                decreases e - y,
            {
                proof {
                    lemma_flat_in_range(x as int, y as int, w, h);
                }
                if crate::map_gen::is_door_terrain(map[y * map_w + x].terrain) {
                    proof {
                        assert(ter(map@, w, x as int, y as int).spec_is_door());
                        assert(s as int == vstd::math::max(a.y as int, b.y as int));
                        assert(e as int == vstd::math::min(a.y + a.h, b.y + b.h));
                        assert(door_on_overlap(map@, w, h, *a, *b, *wall));
                    }
                    return true;
                }
                y = y + 1;
            }
            false
        },
    }
}

/// The rectangle lies inside the grid.
pub open spec fn rect_in_grid(r: BspRect, w: int, h: int) -> bool {
    r.x + r.w <= w && r.y + r.h <= h
}

/// `m2` is `m1` with doors cut: two more door cells when `placed`, none
/// otherwise, and every changed cell became an open door.
pub open spec fn doors_added(m1: Seq<Cell>, m2: Seq<Cell>, placed: bool) -> bool {
    &&& m2.len() == m1.len()
    &&& placed ==> non_doors(m2).len() + 2 == non_doors(m1).len()
    &&& !placed ==> m2 == m1
    &&& forall|c: int| 0 <= c < m1.len() ==> #[trigger] m2[c] == m1[c] || m2[c] == door_of(m1[c])
}

/// Window `(safe_lo, safe_hi)` for a forced door on a wall.
pub open spec fn force_window(wall: WallLine, w: int, h: int) -> (int, int) {
    let (lo, hi, dim) = match wall {
        WallLine::Horizontal { y, x0, x1 } => (x0 as int, x1 as int, w),
        WallLine::Vertical { x, y0, y1 } => (y0 as int, y1 as int, h),
    };
    let dim_in = if dim >= FORCE_DOOR_EDGE_MARGIN { dim - FORCE_DOOR_EDGE_MARGIN } else { 0 };
    (vstd::math::max(lo, FORCE_DOOR_EDGE_MARGIN as int), vstd::math::min(hi, dim_in))
}

/// Force a door on a wall at a random clear position (searched outward from a
/// random candidate), if the wall has room for one away from the map edges.
pub fn force_door(map: &mut Vec<Cell>, map_w: usize, wall: &WallLine, rng: &mut MapRng)
    requires
        map_ok(old(map)@, map_w as int),
        wall_in(*wall, map_w as int, rows(old(map)@, map_w as int)),
    ensures
        final(map)@.len() == old(map)@.len(),
        ({
            let w = map_w as int;
            let h = rows(old(map)@, w);
            let (lo, hi) = force_window(*wall, w, h);
            let (horizontal, line, wall_end) = wall_line(*wall);
            &&& hi <= lo + DOOR_WIDTH ==> final(map)@ == old(map)@ && final(rng).state == old(rng).state
            &&& hi > lo + DOOR_WIDTH ==> final_is(final(map)@, old(map)@, w, h, horizontal, line, lo, hi,
                if lo < hi - DOOR_WIDTH {
                    lo + (xorshift64_next(old(rng).state) % ((hi - DOOR_WIDTH - lo) + 1) as u64)
                } else {
                    lo
                })
            &&& hi > lo + DOOR_WIDTH && lo < hi - DOOR_WIDTH ==> final(rng).state == xorshift64_next(old(rng).state)
            &&& hi > lo + DOOR_WIDTH && lo >= hi - DOOR_WIDTH ==> final(rng).state == old(rng).state
        }),
        forall|x: int, y: int| #![trigger final(map)@[flat(x, y, map_w as int)]]
            in_grid(x, y, map_w as int, rows(old(map)@, map_w as int)) && !on_wall(*wall, x, y)
            ==> final(map)@[flat(x, y, map_w as int)] == old(map)@[flat(x, y, map_w as int)],
        grows_doors(old(map)@, final(map)@),
        wall_has_door(final(map)@, map_w as int, rows(old(map)@, map_w as int), *wall)
            || wall_door_blocked(final(map)@, map_w as int, rows(old(map)@, map_w as int), *wall),
{
    let ghost w = map_w as int;
    let ghost h = rows(map@, w);
    proof {
        lemma_map_ok(map@, w);
    }
    let map_h = map.len() / map_w;
    proof {
        assert(map_h as int == h);
        match *wall {
            WallLine::Horizontal { y, x0, x1 } => {
                assert(map_w <= map_w * map_h) by (nonlinear_arith) requires y < map_h;
            },
            WallLine::Vertical { x, y0, y1 } => {
                assert(map_h <= map_w * map_h) by (nonlinear_arith) requires x < map_w;
            },
        }
    }
    let (horizontal, line, lo, hi, dim) = match wall {
        WallLine::Horizontal { y, x0, x1 } => (true, *y, *x0, *x1, map_w),
        WallLine::Vertical { x, y0, y1 } => (false, *x, *y0, *y1, map_h),
    };
    let safe_lo = if lo > FORCE_DOOR_EDGE_MARGIN { lo } else { FORCE_DOOR_EDGE_MARGIN };
    let d_in = dim.saturating_sub(FORCE_DOOR_EDGE_MARGIN);
    let safe_hi = if hi < d_in { hi } else { d_in };
    proof {
        assert((safe_lo as int, safe_hi as int) == force_window(*wall, w, h));
        assert((horizontal, line as int, hi as int) == wall_line(*wall));
    }
    if safe_hi <= safe_lo + DOOR_WIDTH {
        proof {
            assert(wall_door_blocked(map@, w, h, *wall));
        }
        return;
    }
    let candidate = rand_range(rng, safe_lo, safe_hi - DOOR_WIDTH);
    let ghost m0 = map@;
    match find_clear_door(map, map_w, map_h, horizontal, line, safe_lo, safe_hi, candidate) {
        Some(p) => {
            proof {
                lemma_first_door_ok(m0, w, h, horizontal, line as int, safe_lo as int, safe_hi as int, candidate as int, 0);
            }
            place_door(map, map_w, map_h, horizontal, line, p);
            proof {
                assert(final_is(map@, m0, w, h, horizontal, line as int, safe_lo as int, safe_hi as int, candidate as int));
                assert(candidate >= safe_lo);
                assert(first_door(m0, w, h, horizontal, line as int, safe_lo as int, safe_hi as int, candidate as int, 0) == Some(p as int));
                lemma_first_door_ge(m0, w, h, horizontal, line as int, safe_lo as int, safe_hi as int, candidate as int, 0);
                assert(safe_lo <= p);
                assert(p + DOOR_WIDTH <= safe_hi);
                assert(grows_doors(m0, map@)) by {
                    let c0 = line_cell(w, horizontal, line as int, p as int);
                    let c1 = line_cell(w, horizontal, line as int, p as int + 1);
                    match *wall {
                        WallLine::Horizontal { y: wy, x0, x1 } => {
                            assert(horizontal && x1 <= w && wy < h);
                            lemma_flat_in_range(p as int, line as int, w, h);
                            lemma_flat_in_range(p as int + 1, line as int, w, h);
                        },
                        WallLine::Vertical { x: wx, y0, y1 } => {
                            assert(!horizontal && y1 <= h && wx < w);
                            lemma_flat_in_range(line as int, p as int, w, h);
                            lemma_flat_in_range(line as int, p as int + 1, w, h);
                        },
                    }
                    assert(map@ == with_door(m0, w, horizontal, line as int, p as int));
                    assert forall|c: int| 0 <= c < m0.len() implies #[trigger] map@[c] == m0[c] || map@[c].terrain.spec_is_door()
                        || (m0[c].terrain == Terrain::Floor && map@[c].terrain == Terrain::Wall) by {
                        if c != c0 && c != c1 {
                            assert(map@[c] == m0[c]);
                        }
                    }
                }
                match *wall {
                    WallLine::Horizontal { y: wy, x0, x1 } => {
                        lemma_flat_in_range(p as int, line as int, w, h);
                        lemma_flat_in_range(p as int + 1, line as int, w, h);
                        assert(on_wall(*wall, p as int, line as int));
                        assert(door_at(map@, w, h, p as int, line as int));
                    },
                    WallLine::Vertical { x: wx, y0, y1 } => {
                        lemma_flat_in_range(line as int, p as int, w, h);
                        lemma_flat_in_range(line as int, p as int + 1, w, h);
                        assert(on_wall(*wall, line as int, p as int));
                        assert(door_at(map@, w, h, line as int, p as int));
                    },
                }
                assert forall|x: int, y: int| in_grid(x, y, w, h) && !on_wall(*wall, x, y)
                    implies #[trigger] map@[flat(x, y, w)] == m0[flat(x, y, w)] by {
                    let c0 = line_cell(w, horizontal, line as int, p as int);
                    let c1 = line_cell(w, horizontal, line as int, p as int + 1);
                    assert(map@ == with_door(m0, w, horizontal, line as int, p as int));
                    lemma_flat_in_range(x, y, w, h);
                    assert(flat(x, y, w) < m0.len());
                    match *wall {
                        WallLine::Horizontal { y: wy, x0, x1 } => {
                            assert(horizontal && line == wy && lo == x0 && hi == x1 && x1 <= w && wy < h);
                        },
                        WallLine::Vertical { x: wx, y0, y1 } => {
                            assert(!horizontal && line == wx && lo == y0 && hi == y1 && y1 <= h && wx < w);
                        },
                    }
                    if flat(x, y, w) == c0 || flat(x, y, w) == c1 {
                        let q: int = if flat(x, y, w) == c0 { p as int } else { p as int + 1 };
                        assert(lo <= q && q < hi);
                        if horizontal {
                            assert(flat(x, y, w) == flat(q, line as int, w));
                            lemma_flat_injective(x, y, q, line as int, w, h);
                        } else {
                            assert(flat(x, y, w) == flat(line as int, q, w));
                            lemma_flat_injective(x, y, line as int, q, w, h);
                        }
                        assert(on_wall(*wall, x, y));
                    } else {
                        if horizontal {
                            lemma_flat_in_range(p as int, line as int, w, h);
                            lemma_flat_in_range(p as int + 1, line as int, w, h);
                        } else {
                            lemma_flat_in_range(line as int, p as int, w, h);
                            lemma_flat_in_range(line as int, p as int + 1, w, h);
                        }
                        assert(0 <= c0 < m0.len() && 0 <= c1 < m0.len());
                        assert(map@[flat(x, y, w)] == m0[flat(x, y, w)]);
                    }
                }
            }
        },
        None => {
            proof {
                assert(final_is(map@, m0, w, h, horizontal, line as int, safe_lo as int, safe_hi as int, candidate as int));
                lemma_first_none_blocks(m0, w, h, horizontal, line as int, safe_lo as int, safe_hi as int, candidate as int);
                assert(wall_door_blocked(map@, w, h, *wall));
            }
        },
    }
}

/// Some cell of wall `wl` is a door.
pub open spec fn wall_has_door(m: Seq<Cell>, w: int, h: int, wl: WallLine) -> bool {
    exists|x: int, y: int| #[trigger] on_wall(wl, x, y) && door_at(m, w, h, x, y)
}

/// The forced-door window of wall `wl` is too short to search, or no clear
/// door position is left in it.
pub open spec fn wall_door_blocked(m: Seq<Cell>, w: int, h: int, wl: WallLine) -> bool {
    let (lo, hi) = force_window(wl, w, h);
    let (horizontal, line, wall_end) = wall_line(wl);
    hi <= lo + DOOR_WIDTH
        || forall|p: int| lo <= p && p + DOOR_WIDTH <= hi ==> !#[trigger] door_ok(m, w, h, horizontal, line, hi, p)
}

/// A search that found nothing rejected every position it tried.
proof fn lemma_first_none_at(map: Seq<Cell>, w: int, h: int, horizontal: bool, line: int,
    safe_s: int, safe_e: int, cand: int, k0: int, k: int)
    requires
        first_door(map, w, h, horizontal, line, safe_s, safe_e, cand, k0) is None,
        0 <= k0 <= k < probe_count(safe_s, safe_e),
    ensures
        probe(cand, safe_s, safe_e, k) matches Some(p) ==> !door_ok(map, w, h, horizontal, line, safe_e, p),
    decreases k - k0,
{
    if k0 < k {
        lemma_first_none_at(map, w, h, horizontal, line, safe_s, safe_e, cand, k0 + 1, k);
    }
}

/// The outward search from a candidate inside the window tries every
/// position of the window, so finding nothing means no position is clear.
proof fn lemma_first_none_blocks(map: Seq<Cell>, w: int, h: int, horizontal: bool, line: int,
    safe_s: int, safe_e: int, cand: int)
    requires
        first_door(map, w, h, horizontal, line, safe_s, safe_e, cand, 0) is None,
        safe_s <= cand,
        cand + DOOR_WIDTH <= safe_e,
    ensures
        forall|p: int| safe_s <= p && p + DOOR_WIDTH <= safe_e ==> !#[trigger] door_ok(map, w, h, horizontal, line, safe_e, p),
{
    assert forall|p: int| safe_s <= p && p + DOOR_WIDTH <= safe_e implies !#[trigger] door_ok(map, w, h, horizontal, line, safe_e, p) by {
        let k = if p >= cand { if p == cand { 0 } else { 2 * (p - cand) - 1 } } else { 2 * (cand - p) };
        assert(probe(cand, safe_s, safe_e, k) == Some(p));
        lemma_first_none_at(map, w, h, horizontal, line, safe_s, safe_e, cand, 0, k);
    }
}

/// A wall's door, or the lack of room for one, stays as cells only turn into
/// doors or floor into walls.
pub proof fn lemma_wall_forced_grows(m1: Seq<Cell>, m2: Seq<Cell>, w: int, h: int, wl: WallLine)
    requires
        grows_doors(m1, m2),
        m1.len() == w * h,
        wall_in(wl, w, h),
        wall_has_door(m1, w, h, wl) || wall_door_blocked(m1, w, h, wl),
    ensures
        wall_has_door(m2, w, h, wl) || wall_door_blocked(m2, w, h, wl),
{
    if wall_has_door(m1, w, h, wl) {
        let (x, y) = choose|x: int, y: int| #[trigger] on_wall(wl, x, y) && door_at(m1, w, h, x, y);
        lemma_flat_in_range(x, y, w, h);
        assert(door_at(m2, w, h, x, y));
    } else if force_window(wl, w, h).1 > force_window(wl, w, h).0 + DOOR_WIDTH {
        let (lo, hi) = force_window(wl, w, h);
        let (horizontal, line, wall_end) = wall_line(wl);
        assert forall|p: int| lo <= p && p + DOOR_WIDTH <= hi implies !#[trigger] door_ok(m2, w, h, horizontal, line, hi, p) by {
            if door_ok(m2, w, h, horizontal, line, hi, p) {
                lemma_door_cell_mono(m1, m2, w, h, horizontal, line, p);
                lemma_door_cell_mono(m1, m2, w, h, horizontal, line, p + 1);
                assert(door_ok(m1, w, h, horizontal, line, hi, p));
            }
        }
    }
}

/// The map after a forced door search from `cand`.
pub open spec fn final_is(m1: Seq<Cell>, m0: Seq<Cell>, w: int, h: int, horizontal: bool, line: int,
    lo: int, hi: int, cand: int) -> bool {
    m1 == (match first_door(m0, w, h, horizontal, line, lo, hi, cand, 0) {
        Some(p) => with_door(m0, w, horizontal, line, p),
        None => m0,
    })
}

// ---------------------------------------------------------------------------
// Cycles in the room adjacency graph
// ---------------------------------------------------------------------------

/// Adjacency lists of `n` nodes with every neighbour in range.
pub open spec fn adj_ok(adj: Seq<Vec<usize>>, n: int) -> bool {
    &&& adj.len() == n
    &&& forall|u: int, k: int| 0 <= u < n && 0 <= k < adj[u]@.len() ==> (#[trigger] adj[u]@[k]) < n
}

/// `p` is a path of distinct nodes, each listing the next as a neighbour.
pub open spec fn simple_path(adj: Seq<Vec<usize>>, n: int, p: Seq<usize>) -> bool {
    &&& forall|i: int| 0 <= i < p.len() ==> (#[trigger] p[i]) < n
    &&& forall|i: int, j: int| 0 <= i < j < p.len() ==> #[trigger] p[i] != #[trigger] p[j]
    &&& forall|i: int| 0 < i < p.len() ==> adj[p[i - 1] as int]@.contains(#[trigger] p[i])
}

/// `p` is a simple cycle of at least three nodes.
pub open spec fn is_cycle(adj: Seq<Vec<usize>>, n: int, p: Seq<usize>) -> bool {
    &&& p.len() >= 3
    &&& simple_path(adj, n, p)
    &&& adj[p[p.len() - 1] as int]@.contains(p[0])
}

/// `p` is a Hamiltonian cycle starting at node 0.
pub open spec fn is_ham_cycle(adj: Seq<Vec<usize>>, n: int, p: Seq<usize>) -> bool {
    &&& is_cycle(adj, n, p)
    &&& p.len() == n
    &&& p[0] == 0
}

/// `c` begins with `p`.
pub open spec fn has_prefix(c: Seq<usize>, p: Seq<usize>) -> bool {
    p.len() <= c.len() && forall|i: int| 0 <= i < p.len() ==> #[trigger] c[i] == p[i]
}

/// No Hamiltonian cycle (of `n` nodes) begins with `p`.
pub open spec fn no_closing(adj: Seq<Vec<usize>>, n: int, p: Seq<usize>) -> bool {
    forall|c: Seq<usize>| #[trigger] has_prefix(c, p) && c.len() == n && simple_path(adj, n, c)
        ==> !adj[c[c.len() - 1] as int]@.contains(0)
}

/// `flags[v]` marks exactly the nodes of `p`.
pub open spec fn marks(flags: Seq<bool>, p: Seq<usize>, n: int) -> bool {
    &&& flags.len() == n
    &&& forall|v: int| 0 <= v < n ==> (#[trigger] flags[v] <==> p.contains(v as usize))
}

/// Whether `v` is in `list`.
fn list_contains(list: &Vec<usize>, v: usize) -> (r: bool)
    ensures
        r == list@.contains(v),
{
    let mut i: usize = 0;
    while i < list.len()
        invariant
            i <= list@.len(),
            forall|k: int| 0 <= k < i ==> list@[k] != v,
        decreases list@.len() - i,
    {
        if list[i] == v {
            proof {
                assert(list@[i as int] == v);
            }
            return true;
        }
        i = i + 1;
    }
    false
}

proof fn lemma_path_push(adj: Seq<Vec<usize>>, n: int, p: Seq<usize>, v: usize)
    requires
        simple_path(adj, n, p),
        p.len() >= 1,
        v < n,
        !p.contains(v),
        adj[p[p.len() - 1] as int]@.contains(v),
    ensures
        simple_path(adj, n, p.push(v)),
{
    let q = p.push(v);
    assert forall|i: int, j: int| 0 <= i < j < q.len() implies #[trigger] q[i] != #[trigger] q[j] by {
        if j == p.len() {
            assert(q[i] == p[i]);
            assert(p.contains(p[i]));
        }
    }
    assert forall|i: int| 0 < i < q.len() implies adj[q[i - 1] as int]@.contains(#[trigger] q[i]) by {
        if i < p.len() {
            assert(q[i] == p[i]);
            assert(q[i - 1] == p[i - 1]);
        }
    }
}

proof fn lemma_marks_push(f: Seq<bool>, p: Seq<usize>, n: int, v: usize)
    requires
        marks(f, p, n),
        v < n,
        n <= usize::MAX,
        !p.contains(v),
    ensures
        marks(f.update(v as int, true), p.push(v), n),
{
    let f2 = f.update(v as int, true);
    let q = p.push(v);
    assert forall|u: int| 0 <= u < n implies (#[trigger] f2[u] <==> q.contains(u as usize)) by {
        if u == v as int {
            assert(q[p.len() as int] == v);
        } else {
            if p.contains(u as usize) {
                let k = choose|k: int| 0 <= k < p.len() && p[k] == u as usize;
                assert(q[k] == u as usize);
            }
            if q.contains(u as usize) {
                let k = choose|k: int| 0 <= k < q.len() && q[k] == u as usize;
                assert(q[p.len() as int] == v);
                assert(k < p.len());
                assert(p[k] == u as usize);
            }
        }
    }
}

/// A prefix that repeats a node begins no simple cycle.
proof fn lemma_repeat_no_cycle(adj: Seq<Vec<usize>>, n: int, p: Seq<usize>, v: usize, b: int)
    requires
        p.contains(v),
    ensures
        cycles_bounded(adj, n, p.push(v), b),
        no_closing(adj, n, p.push(v)),
{
    let k = choose|k: int| 0 <= k < p.len() && p[k] == v;
    assert forall|c: Seq<usize>| #[trigger] has_prefix(c, p.push(v)) && is_cycle(adj, n, c) implies c.len() <= b by {
        assert(c[k] == p.push(v)[k]);
        assert(c[p.len() as int] == p.push(v)[p.len() as int]);
    }
    assert forall|c: Seq<usize>| #[trigger] has_prefix(c, p.push(v)) && c.len() == n && simple_path(adj, n, c)
        implies !adj[c[c.len() - 1] as int]@.contains(0) by {
        assert(c[k] == p.push(v)[k]);
        assert(c[p.len() as int] == p.push(v)[p.len() as int]);
    }
}

/// Depth-first extension of `path` to a Hamiltonian cycle back to node 0.
fn ham_dfs(adj: &Vec<Vec<usize>>, path: &mut Vec<usize>, in_path: &mut Vec<bool>, num_nodes: usize) -> (found: bool)
    requires
        adj_ok(adj@, num_nodes as int),
        1 <= old(path)@.len() <= num_nodes,
        old(path)@[0] == 0,
        simple_path(adj@, num_nodes as int, old(path)@),
        marks(old(in_path)@, old(path)@, num_nodes as int),
    ensures
        found ==> is_ham_cycle(adj@, num_nodes as int, final(path)@) || (num_nodes < 3 && final(path)@.len() == num_nodes),
        found ==> has_prefix(final(path)@, old(path)@) && final(path)@.len() == num_nodes,
        found ==> simple_path(adj@, num_nodes as int, final(path)@)
            && adj@[final(path)@[final(path)@.len() - 1] as int]@.contains(0),
        !found ==> final(path)@ == old(path)@ && final(in_path)@ == old(in_path)@,
        !found ==> no_closing(adj@, num_nodes as int, old(path)@),
    decreases num_nodes - path@.len(),
{
    let n = num_nodes;
    let last = path[path.len() - 1];
    if path.len() == n {
        let r = list_contains(&adj[last], 0);
        proof {
            assert forall|c: Seq<usize>| #[trigger] has_prefix(c, path@) && c.len() == num_nodes
                && simple_path(adj@, num_nodes as int, c) implies !adj@[c[c.len() - 1] as int]@.contains(0) || r by {
                assert(c[c.len() - 1] == path@[path@.len() - 1]);
            }
            if r {
                assert(has_prefix(path@, path@));
            }
        }
        return r;
    }
    let cur = last;
    let ghost p0 = path@;
    let ghost f0 = in_path@;
    let mut j: usize = 0;
    while j < adj[cur].len()
        invariant
            adj_ok(adj@, n as int),
            n == num_nodes,
            1 <= p0.len() < n,
            p0[0] == 0,
            cur == p0[p0.len() - 1],
            cur < n,
            simple_path(adj@, n as int, p0),
            marks(f0, p0, n as int),
            path@ == p0,
            p0 == old(path)@,
            in_path@ == f0,
            j <= adj@[cur as int]@.len(),
            forall|k: int| 0 <= k < j ==> #[trigger] no_closing(adj@, n as int, p0.push(adj@[cur as int]@[k])),
        decreases adj@[cur as int]@.len() - j,
    {
        let nbr = adj[cur][j];
        proof {
            assert(nbr < n);
        }
        if !in_path[nbr] {
            in_path.set(nbr, true);
            path.push(nbr);
            proof {
                assert(!p0.contains(nbr));
                assert(adj@[cur as int]@.contains(nbr));
                lemma_path_push(adj@, n as int, p0, nbr);
                lemma_marks_push(f0, p0, n as int, nbr);
                assert(path@[0] == 0);
            }
            proof {
                assert(adj@[cur as int]@[j as int] == nbr);
            }
            let ghost p1 = path@;
            if ham_dfs(adj, path, in_path, num_nodes) {
                proof {
                    assert(has_prefix(path@, p1));
                    assert(has_prefix(path@, p0)) by {
                        assert forall|i: int| 0 <= i < p0.len() implies #[trigger] path@[i] == p0[i] by {
                            assert(p1[i] == p0[i]);
                            assert(path@[i] == p1[i]);
                        }
                    }
                }
                return true;
            }
            path.pop();
            in_path.set(nbr, false);
            proof {
                assert(path@ =~= p0);
                assert(in_path@ =~= f0);
            }
        } else {
            proof {
                assert(p0.contains(nbr));
                assert(adj@[cur as int]@[j as int] == nbr);
                lemma_repeat_no_cycle(adj@, n as int, p0, nbr, 0);
            }
        }
        j = j + 1;
    }
    proof {
        assert forall|c: Seq<usize>| #[trigger] has_prefix(c, p0) && c.len() == n
            && simple_path(adj@, n as int, c) implies !adj@[c[c.len() - 1] as int]@.contains(0) by {
            let next = c[p0.len() as int];
            assert(c[p0.len() - 1] == cur);
            assert(adj@[cur as int]@.contains(next));
            let k = choose|k: int| 0 <= k < adj@[cur as int]@.len() && adj@[cur as int]@[k] == next;
            assert(has_prefix(c, p0.push(adj@[cur as int]@[k]))) by {
                assert forall|i: int| 0 <= i < p0.len() + 1 implies #[trigger] c[i] == p0.push(adj@[cur as int]@[k])[i] by {}
            }
            assert(no_closing(adj@, n as int, p0.push(adj@[cur as int]@[k])));
        }
    }
    false
}

/// A Hamiltonian cycle of the adjacency graph starting at node 0, found by
/// depth-first backtracking; `None` when there is none (or fewer than three
/// nodes).
pub fn find_hamiltonian_cycle(adj: &Vec<Vec<usize>>, num_nodes: usize) -> (r: Option<Vec<usize>>)
    requires
        adj_ok(adj@, num_nodes as int),
    ensures
        r matches Some(c) ==> is_ham_cycle(adj@, num_nodes as int, c@),
        r is None ==> num_nodes < 3 || forall|c: Seq<usize>| !#[trigger] is_ham_cycle(adj@, num_nodes as int, c),
{
    if num_nodes < 3 {
        return None;
    }
    let mut path: Vec<usize> = vec![0usize];
    let mut in_path: Vec<bool> = vec![false; num_nodes];
    in_path.set(0, true);
    let ghost p_init = path@;
    proof {
        assert(p_init =~= seq![0usize]);
        assert forall|v: int| 0 <= v < num_nodes implies (#[trigger] in_path@[v] <==> path@.contains(v as usize)) by {
            if v == 0 {
                assert(path@[0] == 0);
            }
        }
    }
    if ham_dfs(adj, &mut path, &mut in_path, num_nodes) {
        proof {
            assert(path@[0] == 0);
        }
        Some(path)
    } else {
        proof {
            assert forall|c: Seq<usize>| !#[trigger] is_ham_cycle(adj@, num_nodes as int, c) by {
                if is_ham_cycle(adj@, num_nodes as int, c) {
                    assert(has_prefix(c, p_init));
                }
            }
        }
        None
    }
}

/// A path of distinct nodes below `n` has at most `n` nodes.
pub proof fn lemma_path_len_bound(adj: Seq<Vec<usize>>, n: int, p: Seq<usize>)
    requires
        simple_path(adj, n, p),
        n >= 0,
    ensures
        p.len() <= n,
{
    let q = Seq::new(p.len(), |i: int| p[i] as int);
    assert(q.no_duplicates()) by {
        assert forall|i: int, j: int| 0 <= i < q.len() && 0 <= j < q.len() && i != j implies q[i] != q[j] by {
            if i < j {
                assert(p[i] != p[j]);
            } else {
                assert(p[j] != p[i]);
            }
        }
    }
    q.unique_seq_to_set();
    vstd::set_lib::lemma_int_range(0, n);
    assert(q.to_set().subset_of(vstd::set_lib::set_int_range(0, n))) by {
        assert forall|x: int| q.to_set().contains(x) implies vstd::set_lib::set_int_range(0, n).contains(x) by {
            let k = choose|k: int| 0 <= k < q.len() && q[k] == x;
            assert(p[k] < n);
        }
    }
    vstd::set_lib::lemma_len_subset(q.to_set(), vstd::set_lib::set_int_range(0, n));
}

/// Every simple cycle beginning with `p` has at most `b` nodes.
pub open spec fn cycles_bounded(adj: Seq<Vec<usize>>, n: int, p: Seq<usize>, b: int) -> bool {
    forall|c: Seq<usize>| #[trigger] has_prefix(c, p) && is_cycle(adj, n, c) ==> c.len() <= b
}

/// If every one-node extension of `p` bounds its cycles by `b`, and so do
/// the cycles equal to `p`, then `p` bounds its cycles by `b`.
proof fn lemma_extend_bounded(adj: Seq<Vec<usize>>, n: int, p: Seq<usize>, b: int)
    requires
        adj_ok(adj, n),
        p.len() >= 1,
        p[p.len() - 1] < n,
        forall|k: int| 0 <= k < adj[p[p.len() - 1] as int]@.len() ==>
            #[trigger] cycles_bounded(adj, n, p.push(adj[p[p.len() - 1] as int]@[k]), b),
        forall|c: Seq<usize>| #[trigger] has_prefix(c, p) && is_cycle(adj, n, c) && c.len() == p.len() ==> c.len() <= b,
    ensures
        cycles_bounded(adj, n, p, b),
{
    let cur = p[p.len() - 1];
    assert forall|c: Seq<usize>| #[trigger] has_prefix(c, p) && is_cycle(adj, n, c) implies c.len() <= b by {
        if c.len() > p.len() {
            let next = c[p.len() as int];
            assert(c[p.len() - 1] == cur);
            assert(adj[cur as int]@.contains(next));
            let k = choose|k: int| 0 <= k < adj[cur as int]@.len() && adj[cur as int]@[k] == next;
            assert(has_prefix(c, p.push(adj[cur as int]@[k]))) by {
                assert forall|i: int| 0 <= i < p.len() + 1 implies #[trigger] c[i] == p.push(adj[cur as int]@[k])[i] by {}
            }
            assert(cycles_bounded(adj, n, p.push(adj[cur as int]@[k]), b));
        }
    }
}

/// Depth-first search for the longest simple cycle through `path[0]` that
/// extends `path`, keeping the longest cycle seen in `best`.
#[verifier::rlimit(40)]
fn longest_dfs(adj: &Vec<Vec<usize>>, path: &mut Vec<usize>, in_path: &mut Vec<bool>, n: usize, best: &mut Vec<usize>)
    requires
        adj_ok(adj@, n as int),
        1 <= old(path)@.len() <= n,
        simple_path(adj@, n as int, old(path)@),
        marks(old(in_path)@, old(path)@, n as int),
        old(best)@.len() == 0 || is_cycle(adj@, n as int, old(best)@),
        old(best)@.len() <= n,
    ensures
        final(path)@ == old(path)@,
        final(in_path)@ == old(in_path)@,
        final(best)@.len() == 0 || is_cycle(adj@, n as int, final(best)@),
        old(best)@.len() <= final(best)@.len() <= n,
        cycles_bounded(adj@, n as int, old(path)@, final(best)@.len() as int),
    decreases n - path@.len(),
{
    let ghost p0 = path@;
    let ghost f0 = in_path@;
    let ghost b_in = best@;
    let cur = path[path.len() - 1];
    let start = path[0];
    if path.len() >= 3 && list_contains(&adj[cur], start) {
        if path.len() > best.len() {
            *best = path.clone();
            proof {
                assert(best@ =~= p0);
            }
        }
    }
    proof {
        lemma_path_len_bound(adj@, n as int, p0);
        // A cycle equal to the path itself is bounded now.
        assert forall|c: Seq<usize>| #[trigger] has_prefix(c, p0) && is_cycle(adj@, n as int, c) && c.len() == p0.len()
            implies c.len() <= best@.len() by {
            assert(c =~= p0);
        }
    }
    let total = in_path.len();
    let remaining = total - path.len();
    if path.len() + remaining <= best.len() {
        proof {
            assert forall|c: Seq<usize>| #[trigger] has_prefix(c, p0) && is_cycle(adj@, n as int, c) implies c.len() <= best@.len() by {
                lemma_path_len_bound(adj@, n as int, c);
            }
        }
        return;
    }
    let ghost b1 = best@;
    let mut j: usize = 0;
    while j < adj[cur].len()
        invariant
            adj_ok(adj@, n as int),
            1 <= p0.len() <= n,
            cur == p0[p0.len() - 1],
            start == p0[0],
            cur < n,
            simple_path(adj@, n as int, p0),
            marks(f0, p0, n as int),
            path@ == p0,
            p0 == old(path)@,
            in_path@ == f0,
            j <= adj@[cur as int]@.len(),
            best@.len() == 0 || is_cycle(adj@, n as int, best@),
            b_in.len() <= b1.len() <= best@.len() <= n,
            forall|c: Seq<usize>| #[trigger] has_prefix(c, p0) && is_cycle(adj@, n as int, c) && c.len() == p0.len()
                ==> c.len() <= b1.len(),
            forall|k: int| 0 <= k < j ==> #[trigger] cycles_bounded(adj@, n as int, p0.push(adj@[cur as int]@[k]), best@.len() as int),
        decreases adj@[cur as int]@.len() - j,
    {
        let nbr = adj[cur][j];
        proof {
            assert(nbr < n);
            assert(adj@[cur as int]@[j as int] == nbr);
        }
        let ghost b2 = best@;
        if !in_path[nbr] {
            in_path.set(nbr, true);
            path.push(nbr);
            proof {
                assert(!p0.contains(nbr));
                assert(adj@[cur as int]@.contains(nbr));
                lemma_path_push(adj@, n as int, p0, nbr);
                lemma_marks_push(f0, p0, n as int, nbr);
                lemma_path_len_bound(adj@, n as int, path@);
            }
            longest_dfs(adj, path, in_path, n, best);
            path.pop();
            in_path.set(nbr, false);
            proof {
                assert(path@ =~= p0);
                assert(in_path@ =~= f0);
                assert forall|k: int| 0 <= k < j + 1 implies #[trigger] cycles_bounded(adj@, n as int, p0.push(adj@[cur as int]@[k]), best@.len() as int) by {
                    if k < j {
                        assert(cycles_bounded(adj@, n as int, p0.push(adj@[cur as int]@[k]), b2.len() as int));
                    }
                }
            }
        } else {
            proof {
                assert(p0.contains(nbr));
                lemma_repeat_no_cycle(adj@, n as int, p0, nbr, best@.len() as int);
            }
        }
        j = j + 1;
    }
    proof {
        lemma_extend_bounded(adj@, n as int, p0, best@.len() as int);
    }
}

/// The longest simple cycle of the adjacency graph (empty if there is none),
/// by exhaustive depth-first search from every start node.
pub fn find_longest_cycle(adj: &Vec<Vec<usize>>, num_nodes: usize) -> (best: Vec<usize>)
    requires
        adj_ok(adj@, num_nodes as int),
    ensures
        best@.len() == 0 || is_cycle(adj@, num_nodes as int, best@),
        forall|c: Seq<usize>| #[trigger] is_cycle(adj@, num_nodes as int, c) ==> c.len() <= best@.len(),
{
    let mut best: Vec<usize> = Vec::new();
    if num_nodes < 3 {
        proof {
            assert forall|c: Seq<usize>| #[trigger] is_cycle(adj@, num_nodes as int, c) implies c.len() <= best@.len() by {
                lemma_path_len_bound(adj@, num_nodes as int, c);
            }
        }
        return best;
    }
    let n = num_nodes;
    let mut start: usize = 0;
    while start < n
        invariant
            adj_ok(adj@, n as int),
            n == num_nodes,
            3 <= n,
            start <= n,
            best@.len() == 0 || is_cycle(adj@, n as int, best@),
            best@.len() <= n,
            forall|c: Seq<usize>| #[trigger] is_cycle(adj@, n as int, c) && c[0] < start ==> c.len() <= best@.len(),
        decreases n - start,
    {
        let mut path: Vec<usize> = vec![start];
        let mut in_path: Vec<bool> = vec![false; n];
        in_path.set(start, true);
        let ghost p_init = path@;
        let ghost b0 = best@;
        proof {
            assert(p_init =~= seq![start]);
            assert forall|v: int| 0 <= v < n implies (#[trigger] in_path@[v] <==> path@.contains(v as usize)) by {
                if v == start as int {
                    assert(path@[0] == start);
                }
            }
        }
        longest_dfs(adj, &mut path, &mut in_path, n, &mut best);
        proof {
            assert forall|c: Seq<usize>| #[trigger] is_cycle(adj@, n as int, c) && c[0] < start + 1 implies c.len() <= best@.len() by {
                if c[0] == start {
                    assert(has_prefix(c, p_init));
                }
            }
        }
        start = start + 1;
        if best.len() == n {
            proof {
                assert forall|c: Seq<usize>| #[trigger] is_cycle(adj@, n as int, c) implies c.len() <= best@.len() by {
                    lemma_path_len_bound(adj@, n as int, c);
                }
            }
            return best;
        }
    }
    best
}

// ---------------------------------------------------------------------------
// Placing doors for group pairs
// ---------------------------------------------------------------------------

/// A slot on an existing wall inside the grid, its range within the wall.
pub open spec fn slot_valid(slot: DoorSlot, walls: Seq<WallLine>, w: int, h: int) -> bool {
    &&& slot.wall_idx < walls.len()
    &&& wall_in(walls[slot.wall_idx as int], w, h)
    &&& slot.range_start <= slot.range_end
    &&& slot.range_end <= (if wall_line(walls[slot.wall_idx as int]).0 { w } else { h })
}

/// Cells of the map that are not doors.
pub open spec fn non_doors(map: Seq<Cell>) -> Set<int> {
    Set::new(|c: int| 0 <= c < map.len() && !map[c].terrain.spec_is_door())
}

/// Attempting the slots `ps[k..]` in order, skipping used ones and marking
/// each attempted slot used, until one door is cut: whether one was cut, the
/// map after it, and the used flags.
pub open spec fn pair_try(map: Seq<Cell>, w: int, h: int, walls: Seq<WallLine>, slots: Seq<DoorSlot>,
    ps: Seq<usize>, used: Seq<bool>, k: int) -> (bool, Seq<Cell>, Seq<bool>)
    decreases ps.len() - k,
{
    if k < 0 || k >= ps.len() {
        (false, map, used)
    } else {
        let si = ps[k] as int;
        if used[si] {
            pair_try(map, w, h, walls, slots, ps, used, k + 1)
        } else if slot_door(map, w, h, walls, slots[si]) is Some {
            (true, slot_cut(map, w, h, walls, slots[si]), used.update(si, true))
        } else {
            pair_try(map, w, h, walls, slots, ps, used.update(si, true), k + 1)
        }
    }
}

proof fn lemma_non_doors_finite(map: Seq<Cell>)
    ensures
        non_doors(map).finite(),
        non_doors(map).len() <= map.len(),
{
    vstd::set_lib::lemma_int_range(0, map.len() as int);
    assert(non_doors(map).subset_of(vstd::set_lib::set_int_range(0, map.len() as int)));
    vstd::set_lib::lemma_len_subset(non_doors(map), vstd::set_lib::set_int_range(0, map.len() as int));
}

/// Cutting a slot's door turns two non-door cells into doors.
pub proof fn lemma_slot_cut_doors(map: Seq<Cell>, w: int, h: int, walls: Seq<WallLine>, slot: DoorSlot)
    requires
        grid_ok(map, w, h),
        slot_valid(slot, walls, w, h),
        slot_door(map, w, h, walls, slot) is Some,
    ensures
        slot_cut(map, w, h, walls, slot).len() == map.len(),
        non_doors(slot_cut(map, w, h, walls, slot)).len() + 2 == non_doors(map).len(),
        forall|c: int| 0 <= c < map.len() ==> #[trigger] slot_cut(map, w, h, walls, slot)[c] == map[c]
            || slot_cut(map, w, h, walls, slot)[c] == door_of(map[c]),
{
    let wall = walls[slot.wall_idx as int];
    let (safe_s, safe_e, cand) = slot_window(slot, wall, w, h);
    let (horizontal, line, wall_end) = wall_line(wall);
    let p = slot_door(map, w, h, walls, slot)->0;
    lemma_first_door_ok(map, w, h, horizontal, line, safe_s, safe_e, cand, 0);
    assert(door_ok(map, w, h, horizontal, line, safe_e, p));
    let c0 = line_cell(w, horizontal, line, p);
    let c1 = line_cell(w, horizontal, line, p + 1);
    // both door cells lie on the grid and are not doors yet
    if horizontal {
        lemma_flat_in_range(p, line, w, h);
        lemma_flat_in_range(p + 1, line, w, h);
        assert(!crate::map_gen::door_at(map, w, h, p + 0, line + 0));
        assert(!crate::map_gen::door_at(map, w, h, p + 1 + 0, line + 0));
    } else {
        lemma_flat_in_range(line, p, w, h);
        lemma_flat_in_range(line, p + 1, w, h);
        assert(!crate::map_gen::door_at(map, w, h, line + 0, p + 0));
        assert(!crate::map_gen::door_at(map, w, h, line + 0, p + 1 + 0));
    }
    assert(c0 != c1);
    let m2 = with_door(map, w, horizontal, line, p);
    lemma_non_doors_finite(map);
    assert(non_doors(m2) =~= non_doors(map).remove(c0).remove(c1));
}

/// The two cells across wall line `wl` from `(x, y)` lie on the grid and are floor.
pub open spec fn across_floor(m: Seq<Cell>, w: int, h: int, wl: WallLine, x: int, y: int) -> bool {
    match wl {
        WallLine::Horizontal { .. } => in_grid(x, y - 1, w, h) && in_grid(x, y + 1, w, h)
            && ter(m, w, x, y - 1) == Terrain::Floor && ter(m, w, x, y + 1) == Terrain::Floor,
        WallLine::Vertical { .. } => in_grid(x - 1, y, w, h) && in_grid(x + 1, y, w, h)
            && ter(m, w, x - 1, y) == Terrain::Floor && ter(m, w, x + 1, y) == Terrain::Floor,
    }
}

/// Every cell in which `m` differs from `m0` is now a door on one of
/// `walls`, with floor on both sides across the wall in `m` and no door of
/// `m0` within `MIN_DOOR_GAP` cells.
#[verifier::opaque]
pub open spec fn doors_on_walls(m0: Seq<Cell>, m: Seq<Cell>, w: int, walls: Seq<WallLine>) -> bool {
    let h = rows(m0, w);
    forall|c: int| 0 <= c < m0.len() && #[trigger] m[c] != m0[c] ==> m[c].terrain.spec_is_door() &&
        exists|j: int, x: int, y: int| 0 <= j < walls.len() && 0 <= x < w && c == flat(x, y, w)
            && #[trigger] on_wall(walls[j], x, y) && across_floor(m, w, h, walls[j], x, y)
            && !door_near(m0, w, h, x, y, MIN_DOOR_GAP as int)
}

pub proof fn lemma_doors_on_walls_refl(m: Seq<Cell>, w: int, walls: Seq<WallLine>)
    ensures
        doors_on_walls(m, m, w, walls),
{
    reveal(doors_on_walls);
}

pub proof fn lemma_doors_on_walls_trans(m0: Seq<Cell>, m1: Seq<Cell>, m2: Seq<Cell>, w: int, walls: Seq<WallLine>)
    requires
        doors_on_walls(m0, m1, w, walls),
        doors_on_walls(m1, m2, w, walls),
        m1.len() == m0.len(),
        map_ok(m1, w),
    ensures
        doors_on_walls(m0, m2, w, walls),
{
    reveal(doors_on_walls);
    lemma_map_ok(m1, w);
    let h = rows(m0, w);
    assert(rows(m1, w) == h);
    // doors of m0 are doors of m1
    assert forall|px: int, py: int| #[trigger] door_at(m0, w, h, px, py) implies door_at(m1, w, h, px, py) by {
        let q = flat(px, py, w);
        lemma_flat_in_range(px, py, w, h);
        if m1[q] != m0[q] {
        }
    }
    assert forall|c: int| 0 <= c < m0.len() && #[trigger] m2[c] != m0[c] implies m2[c].terrain.spec_is_door() &&
        exists|j: int, x: int, y: int| 0 <= j < walls.len() && 0 <= x < w && c == flat(x, y, w)
            && #[trigger] on_wall(walls[j], x, y) && across_floor(m2, w, h, walls[j], x, y)
            && !door_near(m0, w, h, x, y, MIN_DOOR_GAP as int) by {
        if m2[c] != m1[c] {
            let (j, x, y) = choose|j: int, x: int, y: int| 0 <= j < walls.len() && 0 <= x < w && c == flat(x, y, w)
                && #[trigger] on_wall(walls[j], x, y) && across_floor(m2, w, h, walls[j], x, y)
                && !door_near(m1, w, h, x, y, MIN_DOOR_GAP as int);
            if door_near(m0, w, h, x, y, MIN_DOOR_GAP as int) {
                let (dx, dy) = choose|dx: int, dy: int| -(MIN_DOOR_GAP as int) <= dx <= MIN_DOOR_GAP as int
                    && -(MIN_DOOR_GAP as int) <= dy <= MIN_DOOR_GAP as int && #[trigger] door_at(m0, w, h, x + dx, y + dy);
                assert(door_at(m1, w, h, x + dx, y + dy));
            }
        } else {
            let (j, x, y) = choose|j: int, x: int, y: int| 0 <= j < walls.len() && 0 <= x < w && c == flat(x, y, w)
                && #[trigger] on_wall(walls[j], x, y) && across_floor(m1, w, h, walls[j], x, y)
                && !door_near(m0, w, h, x, y, MIN_DOOR_GAP as int);
            lemma_across_kept(m1, m2, w, h, walls, j, x, y);
            assert(on_wall(walls[j], x, y));
        }
    }
}

/// The floor across a door of `m1` stays floor when the cells changed from
/// `m1` to `m2` keep their distance from the doors of `m1`.
proof fn lemma_across_kept(m1: Seq<Cell>, m2: Seq<Cell>, w: int, h: int, walls: Seq<WallLine>, j: int, x: int, y: int)
    requires
        doors_on_walls(m1, m2, w, walls),
        h == rows(m1, w),
        0 <= j < walls.len(),
        across_floor(m1, w, h, walls[j], x, y),
        in_grid(x, y, w, h),
        m1[flat(x, y, w)].terrain.spec_is_door(),
        m1.len() == w * h,
    ensures
        across_floor(m2, w, h, walls[j], x, y),
{
    reveal(doors_on_walls);
    let (ax, ay, bx, by) = match walls[j] {
        WallLine::Horizontal { .. } => (x, y - 1, x, y + 1),
        WallLine::Vertical { .. } => (x - 1, y, x + 1, y),
    };
    assert(door_at(m1, w, h, x, y));
    lemma_cell_kept(m1, m2, w, h, walls, ax, ay, x, y);
    lemma_cell_kept(m1, m2, w, h, walls, bx, by, x, y);
}

/// A cell next to a door of `m1` is not changed on the way to `m2`.
proof fn lemma_cell_kept(m1: Seq<Cell>, m2: Seq<Cell>, w: int, h: int, walls: Seq<WallLine>,
    ax: int, ay: int, x: int, y: int)
    requires
        doors_on_walls(m1, m2, w, walls),
        h == rows(m1, w),
        in_grid(ax, ay, w, h),
        door_at(m1, w, h, x, y),
        -1 <= x - ax <= 1,
        -1 <= y - ay <= 1,
        m1.len() == w * h,
    ensures
        m2[flat(ax, ay, w)] == m1[flat(ax, ay, w)],
{
    reveal(doors_on_walls);
    let a = flat(ax, ay, w);
    lemma_flat_in_range(ax, ay, w, h);
    if m2[a] != m1[a] {
        let (j2, x2, y2) = choose|j2: int, x2: int, y2: int| 0 <= j2 < walls.len() && 0 <= x2 < w && a == flat(x2, y2, w)
            && #[trigger] on_wall(walls[j2], x2, y2) && across_floor(m2, w, h, walls[j2], x2, y2)
            && !door_near(m1, w, h, x2, y2, MIN_DOOR_GAP as int);
        assert(0 <= y2) by {
            if y2 < 0 {
                assert(y2 * w <= -w) by (nonlinear_arith) requires y2 < 0, w > 0;
            }
        }
        assert(y2 < h) by {
            if y2 >= h {
                assert(y2 * w >= h * w) by (nonlinear_arith) requires y2 >= h, w > 0;
                assert(h * w == w * h) by (nonlinear_arith);
            }
        }
        crate::cell::lemma_flat_injective(x2, y2, ax, ay, w, h);
        assert(door_at(m1, w, h, ax + (x - ax), ay + (y - ay)));
    }
}

/// A search from a candidate inside the window finds a start inside it.
proof fn lemma_first_door_ge(map: Seq<Cell>, w: int, h: int, horizontal: bool, line: int,
    safe_s: int, safe_e: int, cand: int, k: int)
    requires
        cand >= safe_s,
        first_door(map, w, h, horizontal, line, safe_s, safe_e, cand, k) is Some,
    ensures
        first_door(map, w, h, horizontal, line, safe_s, safe_e, cand, k)->0 >= safe_s,
    decreases probe_count(safe_s, safe_e) - k,
{
    if 0 <= k < probe_count(safe_s, safe_e) {
        match probe(cand, safe_s, safe_e, k) {
            Some(p) => {
                if !door_ok(map, w, h, horizontal, line, safe_e, p) {
                    lemma_first_door_ge(map, w, h, horizontal, line, safe_s, safe_e, cand, k + 1);
                }
            },
            None => {
                lemma_first_door_ge(map, w, h, horizontal, line, safe_s, safe_e, cand, k + 1);
            },
        }
    }
}

/// Cutting a slot's door places it on the slot's wall, between floor
/// cells, away from the doors already there.
pub proof fn lemma_slot_cut_on_wall(map: Seq<Cell>, w: int, h: int, walls: Seq<WallLine>, slot: DoorSlot)
    requires
        grid_ok(map, w, h),
        slot_valid(slot, walls, w, h),
    ensures
        doors_on_walls(map, slot_cut(map, w, h, walls, slot), w, walls),
{
    reveal(doors_on_walls);
    if slot_door(map, w, h, walls, slot) is Some {
        let wall = walls[slot.wall_idx as int];
        let (safe_s, safe_e, cand) = slot_window(slot, wall, w, h);
        let (horizontal, line, wall_end) = wall_line(wall);
        let p = slot_door(map, w, h, walls, slot)->0;
        lemma_first_door_ok(map, w, h, horizontal, line, safe_s, safe_e, cand, 0);
        lemma_first_door_ge(map, w, h, horizontal, line, safe_s, safe_e, cand, 0);
        assert(w > 0 && h > 0);
        assert(rows(map, w) == h) by {
            vstd::arithmetic::div_mod::lemma_div_multiples_vanish(h, w);
        }
        let c0 = line_cell(w, horizontal, line, p);
        let c1 = line_cell(w, horizontal, line, p + 1);
        let j = slot.wall_idx as int;
        let m2 = slot_cut(map, w, h, walls, slot);
        assert(door_cell_ok(map, w, h, horizontal, line, p));
        assert(door_cell_ok(map, w, h, horizontal, line, p + 1));
        if horizontal {
            lemma_flat_in_range(p, line, w, h);
            lemma_flat_in_range(p + 1, line, w, h);
            lemma_flat_in_range(p, line - 1, w, h);
            lemma_flat_in_range(p, line + 1, w, h);
            lemma_flat_in_range(p + 1, line - 1, w, h);
            lemma_flat_in_range(p + 1, line + 1, w, h);
            assert(across_floor(m2, w, h, walls[j], p, line));
            assert(across_floor(m2, w, h, walls[j], p + 1, line));
        } else {
            lemma_flat_in_range(line, p, w, h);
            lemma_flat_in_range(line, p + 1, w, h);
            lemma_flat_in_range(line - 1, p, w, h);
            lemma_flat_in_range(line + 1, p, w, h);
            lemma_flat_in_range(line - 1, p + 1, w, h);
            lemma_flat_in_range(line + 1, p + 1, w, h);
            assert(across_floor(m2, w, h, walls[j], line, p));
            assert(across_floor(m2, w, h, walls[j], line, p + 1));
        }
        assert forall|c: int| 0 <= c < map.len() && #[trigger] m2[c] != map[c] implies m2[c].terrain.spec_is_door() &&
            exists|jj: int, x: int, y: int| 0 <= jj < walls.len() && 0 <= x < w && c == flat(x, y, w)
                && #[trigger] on_wall(walls[jj], x, y) && across_floor(m2, w, h, walls[jj], x, y)
                && !door_near(map, w, h, x, y, MIN_DOOR_GAP as int) by {
            assert(c == c0 || c == c1);
            if horizontal {
                if c == c0 { assert(on_wall(walls[j], p, line)); } else { assert(on_wall(walls[j], p + 1, line)); }
            } else {
                if c == c0 { assert(on_wall(walls[j], line, p)); } else { assert(on_wall(walls[j], line, p + 1)); }
            }
        }
    }
}

/// A pair attempt changes only cells of the walls.
pub proof fn lemma_pair_try_on_wall(map: Seq<Cell>, w: int, h: int, walls: Seq<WallLine>, slots: Seq<DoorSlot>,
    ps: Seq<usize>, used: Seq<bool>, k: int)
    requires
        grid_ok(map, w, h),
        forall|t: int| 0 <= t < ps.len() ==> (#[trigger] ps[t]) < slots.len() && ps[t] < used.len(),
        forall|t: int| 0 <= t < slots.len() ==> slot_valid(#[trigger] slots[t], walls, w, h),
    ensures
        doors_on_walls(map, pair_try(map, w, h, walls, slots, ps, used, k).1, w, walls),
    decreases ps.len() - k,
{
    lemma_doors_on_walls_refl(map, w, walls);
    if 0 <= k < ps.len() {
        let si = ps[k] as int;
        if used[si] {
            lemma_pair_try_on_wall(map, w, h, walls, slots, ps, used, k + 1);
        } else if slot_door(map, w, h, walls, slots[si]) is Some {
            lemma_slot_cut_on_wall(map, w, h, walls, slots[si]);
        } else {
            lemma_pair_try_on_wall(map, w, h, walls, slots, ps, used.update(si, true), k + 1);
        }
    }
}

/// What a pair attempt does to the map: on success, two non-door cells became doors.
pub proof fn lemma_pair_try_doors(map: Seq<Cell>, w: int, h: int, walls: Seq<WallLine>, slots: Seq<DoorSlot>,
    ps: Seq<usize>, used: Seq<bool>, k: int)
    requires
        grid_ok(map, w, h),
        forall|t: int| 0 <= t < ps.len() ==> (#[trigger] ps[t]) < slots.len() && ps[t] < used.len(),
        forall|t: int| 0 <= t < slots.len() ==> slot_valid(#[trigger] slots[t], walls, w, h),
    ensures
        ({
            let (ok, m2, u2) = pair_try(map, w, h, walls, slots, ps, used, k);
            &&& m2.len() == map.len()
            &&& u2.len() == used.len()
            &&& ok ==> non_doors(m2).len() + 2 == non_doors(map).len()
            &&& !ok ==> m2 == map
            &&& forall|c: int| 0 <= c < map.len() ==> #[trigger] m2[c] == map[c] || m2[c] == door_of(map[c])
        }),
    decreases ps.len() - k,
{
    if 0 <= k < ps.len() {
        let si = ps[k] as int;
        if used[si] {
            lemma_pair_try_doors(map, w, h, walls, slots, ps, used, k + 1);
        } else if slot_door(map, w, h, walls, slots[si]) is Some {
            lemma_slot_cut_doors(map, w, h, walls, slots[si]);
        } else {
            lemma_pair_try_doors(map, w, h, walls, slots, ps, used.update(si, true), k + 1);
        }
    }
}

/// Every slot flagged used in `u1` is still flagged in `u2`.
pub open spec fn used_grows(u1: Seq<bool>, u2: Seq<bool>) -> bool {
    &&& u1.len() == u2.len()
    &&& forall|i: int| 0 <= i < u1.len() && #[trigger] u1[i] ==> u2[i]
}

/// Every neighbour listed in `d1` is still listed in `d2`.
pub open spec fn dn_grows(d1: Seq<Vec<usize>>, d2: Seq<Vec<usize>>) -> bool {
    &&& d1.len() == d2.len()
    &&& forall|g: int, x: usize| 0 <= g < d1.len() && #[trigger] d1[g]@.contains(x) ==> #[trigger] d2[g]@.contains(x)
}

/// The slots of the group pair of `a` and `b`, if it has any, have all been tried.
pub open spec fn pair_exhausted(table: Seq<PairSlots>, used: Seq<bool>, a: int, b: int) -> bool {
    match pair_index(table, vstd::math::min(a, b), vstd::math::max(a, b)) {
        None => true,
        Some(e) => forall|t: int| 0 <= t < table[e].slots@.len() ==> used[#[trigger] table[e].slots@[t] as int],
    }
}

/// Groups `a` and `b` are door neighbours, or no untried slot is left between them.
pub open spec fn edge_settled(table: Seq<PairSlots>, used: Seq<bool>, dn: Seq<Vec<usize>>, a: int, b: int) -> bool {
    dn[a]@.contains(b as usize) || pair_exhausted(table, used, a, b)
}

proof fn lemma_exhausted_mono(table: Seq<PairSlots>, u1: Seq<bool>, u2: Seq<bool>, a: int, b: int)
    requires
        pair_exhausted(table, u1, a, b),
        used_grows(u1, u2),
        table_ok(table, u1.len() as int),
    ensures
        pair_exhausted(table, u2, a, b),
{
    lemma_pair_index(table, vstd::math::min(a, b), vstd::math::max(a, b));
    match pair_index(table, vstd::math::min(a, b), vstd::math::max(a, b)) {
        None => {},
        Some(e) => {
            assert forall|t: int| 0 <= t < table[e].slots@.len() implies u2[#[trigger] table[e].slots@[t] as int] by {
                assert(u1[table[e].slots@[t] as int]);
            }
        },
    }
}

proof fn lemma_settled_mono(table: Seq<PairSlots>, u1: Seq<bool>, u2: Seq<bool>, d1: Seq<Vec<usize>>,
    d2: Seq<Vec<usize>>, a: int, b: int)
    requires
        edge_settled(table, u1, d1, a, b),
        used_grows(u1, u2),
        dn_grows(d1, d2),
        table_ok(table, u1.len() as int),
        0 <= a < d1.len(),
    ensures
        edge_settled(table, u2, d2, a, b),
{
    if d1[a]@.contains(b as usize) {
        assert(d2[a]@.contains(b as usize));
    } else {
        lemma_exhausted_mono(table, u1, u2, a, b);
    }
}

proof fn lemma_grows_trans(u1: Seq<bool>, u2: Seq<bool>, u3: Seq<bool>, d1: Seq<Vec<usize>>,
    d2: Seq<Vec<usize>>, d3: Seq<Vec<usize>>)
    requires
        used_grows(u1, u2),
        used_grows(u2, u3),
        dn_grows(d1, d2),
        dn_grows(d2, d3),
    ensures
        used_grows(u1, u3),
        dn_grows(d1, d3),
{
    assert forall|i: int| 0 <= i < u1.len() && #[trigger] u1[i] implies u3[i] by {
        assert(u2[i]);
    }
    assert forall|g: int, x: usize| 0 <= g < d1.len() && #[trigger] d1[g]@.contains(x) implies #[trigger] d3[g]@.contains(x) by {
        assert(d2[g]@.contains(x));
    }
}

/// Every slot flagged in `u2` but not in `u1` admits no door on `map`.
pub open spec fn tried_failed(map: Seq<Cell>, w: int, h: int, walls: Seq<WallLine>, slots: Seq<DoorSlot>,
    u1: Seq<bool>, u2: Seq<bool>) -> bool {
    forall|i: int| 0 <= i < u1.len() && #[trigger] u2[i] && !u1[i] ==> slot_door(map, w, h, walls, slots[i]) is None
}

proof fn lemma_tried_trans(map: Seq<Cell>, w: int, h: int, walls: Seq<WallLine>, slots: Seq<DoorSlot>,
    u0: Seq<bool>, u1: Seq<bool>, u2: Seq<bool>)
    requires
        tried_failed(map, w, h, walls, slots, u0, u1),
        tried_failed(map, w, h, walls, slots, u1, u2),
        used_grows(u0, u1),
    ensures
        tried_failed(map, w, h, walls, slots, u0, u2),
{
    assert forall|i: int| 0 <= i < u0.len() && #[trigger] u2[i] && !u0[i] implies
        slot_door(map, w, h, walls, slots[i]) is None by {
        if !u1[i] {
            assert(u2[i] && !u1[i]);
        }
    }
}

/// With no door cut between two states: the map and the neighbour lists are
/// unchanged, and each slot newly flagged used admits no door on the map.
pub open spec fn no_door_pass(m0: Seq<Cell>, m1: Seq<Cell>, w: int, walls: Seq<WallLine>, slots: Seq<DoorSlot>,
    u0: Seq<bool>, u1: Seq<bool>, d0: Seq<Vec<usize>>, d1: Seq<Vec<usize>>) -> bool {
    &&& m1 == m0
    &&& tried_failed(m0, w, rows(m0, w), walls, slots, u0, u1)
    &&& d1.len() == d0.len()
    &&& forall|g: int| 0 <= g < d0.len() ==> #[trigger] d1[g]@ == d0[g]@
}

proof fn lemma_no_door_step(m0: Seq<Cell>, m2: Seq<Cell>, w: int, walls: Seq<WallLine>, slots: Seq<DoorSlot>,
    u0: Seq<bool>, u1: Seq<bool>, u2: Seq<bool>, d0: Seq<Vec<usize>>, d1: Seq<Vec<usize>>, d2: Seq<Vec<usize>>)
    requires
        no_door_pass(m0, m0, w, walls, slots, u0, u1, d0, d1),
        used_grows(u0, u1),
        m2 == m0,
        tried_failed(m0, w, rows(m0, w), walls, slots, u1, u2),
        d2.len() == d1.len(),
        forall|g: int| 0 <= g < d1.len() ==> #[trigger] d2[g]@ == d1[g]@,
    ensures
        no_door_pass(m0, m2, w, walls, slots, u0, u2, d0, d2),
{
    lemma_tried_trans(m0, w, rows(m0, w), walls, slots, u0, u1, u2);
    assert forall|g: int| 0 <= g < d0.len() implies #[trigger] d2[g]@ == d0[g]@ by {
        assert(d2[g]@ == d1[g]@);
    }
}

proof fn lemma_no_door_trans(m0: Seq<Cell>, w: int, walls: Seq<WallLine>, slots: Seq<DoorSlot>,
    u0: Seq<bool>, u1: Seq<bool>, u2: Seq<bool>, d0: Seq<Vec<usize>>, d1: Seq<Vec<usize>>, d2: Seq<Vec<usize>>)
    requires
        no_door_pass(m0, m0, w, walls, slots, u0, u1, d0, d1),
        no_door_pass(m0, m0, w, walls, slots, u1, u2, d1, d2),
        used_grows(u0, u1),
    ensures
        no_door_pass(m0, m0, w, walls, slots, u0, u2, d0, d2),
{
    lemma_no_door_step(m0, m0, w, walls, slots, u0, u1, u2, d0, d1, d2);
}

/// A failed pair attempt tried its slots on `map` itself: each slot it
/// flagged admits no door there.
proof fn lemma_pair_try_failed(map: Seq<Cell>, w: int, h: int, walls: Seq<WallLine>, slots: Seq<DoorSlot>,
    ps: Seq<usize>, used: Seq<bool>, k: int)
    requires
        0 <= k,
        forall|t: int| 0 <= t < ps.len() ==> (#[trigger] ps[t]) < used.len(),
    ensures
        !pair_try(map, w, h, walls, slots, ps, used, k).0 ==>
            tried_failed(map, w, h, walls, slots, used, pair_try(map, w, h, walls, slots, ps, used, k).2),
    decreases ps.len() - k,
{
    if k < ps.len() {
        let si = ps[k] as int;
        if used[si] {
            lemma_pair_try_failed(map, w, h, walls, slots, ps, used, k + 1);
        } else if slot_door(map, w, h, walls, slots[si]) is Some {
        } else {
            let u1 = used.update(si, true);
            lemma_pair_try_failed(map, w, h, walls, slots, ps, u1, k + 1);
            let u2 = pair_try(map, w, h, walls, slots, ps, used, k).2;
            assert(u2 == pair_try(map, w, h, walls, slots, ps, u1, k + 1).2);
            if !pair_try(map, w, h, walls, slots, ps, used, k).0 {
                assert(!pair_try(map, w, h, walls, slots, ps, u1, k + 1).0);
                assert forall|i: int| 0 <= i < used.len() && #[trigger] u2[i] && !used[i] implies
                    slot_door(map, w, h, walls, slots[i]) is None by {
                    if i != si {
                        assert(!u1[i]);
                        assert(u1.len() == used.len());
                    }
                }
            }
        }
    }
}

/// A pair attempt only sets used flags, and a failed one leaves every slot
/// it was given (from `k` on) flagged.
proof fn lemma_pair_try_used(map: Seq<Cell>, w: int, h: int, walls: Seq<WallLine>, slots: Seq<DoorSlot>,
    ps: Seq<usize>, used: Seq<bool>, k: int)
    requires
        0 <= k,
        forall|t: int| 0 <= t < ps.len() ==> (#[trigger] ps[t]) < used.len(),
    ensures
        used_grows(used, pair_try(map, w, h, walls, slots, ps, used, k).2),
        !pair_try(map, w, h, walls, slots, ps, used, k).0 ==>
            forall|t: int| k <= t < ps.len() ==> pair_try(map, w, h, walls, slots, ps, used, k).2[#[trigger] ps[t] as int],
    decreases ps.len() - k,
{
    if k < ps.len() {
        let si = ps[k] as int;
        if used[si] {
            lemma_pair_try_used(map, w, h, walls, slots, ps, used, k + 1);
        } else if slot_door(map, w, h, walls, slots[si]) is Some {
            let u2 = pair_try(map, w, h, walls, slots, ps, used, k).2;
            assert(u2 == used.update(si, true));
            assert forall|i: int| 0 <= i < used.len() && #[trigger] used[i] implies u2[i] by {
                if i != si {
                    assert(u2[i] == used[i]);
                }
            }
        } else {
            let u1 = used.update(si, true);
            lemma_pair_try_used(map, w, h, walls, slots, ps, u1, k + 1);
            let u2 = pair_try(map, w, h, walls, slots, ps, used, k).2;
            assert(u2 == pair_try(map, w, h, walls, slots, ps, u1, k + 1).2);
            assert(u1[si]);
            assert forall|i: int| 0 <= i < used.len() && #[trigger] used[i] implies u2[i] by {
                assert(u1[i]);
            }
        }
    }
}

/// Try the slots of one group pair (longest first) until a door is cut,
/// marking every attempted slot used; true if a door was placed.
pub fn try_place_pair_door(
    map: &mut Vec<Cell>,
    map_w: usize,
    walls: &[WallLine],
    slots: &[DoorSlot],
    pair_slots: &[usize],
    used_slots: &mut Vec<bool>,
) -> (placed: bool)
    requires
        map_ok(old(map)@, map_w as int),
        forall|t: int| 0 <= t < pair_slots@.len() ==> (#[trigger] pair_slots@[t]) < slots@.len()
            && pair_slots@[t] < old(used_slots)@.len(),
        forall|t: int| 0 <= t < slots@.len() ==> slot_valid(#[trigger] slots@[t], walls@, map_w as int,
            rows(old(map)@, map_w as int)),
    ensures
        (placed, final(map)@, final(used_slots)@) == pair_try(old(map)@, map_w as int, rows(old(map)@, map_w as int),
            walls@, slots@, pair_slots@, old(used_slots)@, 0),
        final(map)@.len() == old(map)@.len(),
        final(used_slots)@.len() == old(used_slots)@.len(),
        doors_added(old(map)@, final(map)@, placed),
        used_grows(old(used_slots)@, final(used_slots)@),
        !placed ==> forall|t: int| 0 <= t < pair_slots@.len() ==> final(used_slots)@[#[trigger] pair_slots@[t] as int],
        !placed ==> final(map)@ == old(map)@ && tried_failed(old(map)@, map_w as int, rows(old(map)@, map_w as int),
            walls@, slots@, old(used_slots)@, final(used_slots)@),
        doors_on_walls(old(map)@, final(map)@, map_w as int, walls@),
{
    let ghost w = map_w as int;
    let ghost h = rows(map@, w);
    let ghost m0 = map@;
    let ghost u0 = used_slots@;
    proof {
        lemma_map_ok(map@, w);
        lemma_pair_try_on_wall(m0, w, h, walls@, slots@, pair_slots@, u0, 0);
        lemma_pair_try_doors(m0, w, h, walls@, slots@, pair_slots@, u0, 0);
        lemma_pair_try_used(m0, w, h, walls@, slots@, pair_slots@, u0, 0);
        lemma_pair_try_failed(m0, w, h, walls@, slots@, pair_slots@, u0, 0);
    }
    let mut k: usize = 0;
    while k < pair_slots.len()
        invariant
            w == map_w as int,
            h == rows(m0, w),
            map_ok(map@, w),
            map@ == m0,
            m0 == old(map)@,
            u0 == old(used_slots)@,
            grid_ok(m0, w, h),
            used_slots@.len() == u0.len(),
            k <= pair_slots@.len(),
            forall|t: int| 0 <= t < pair_slots@.len() ==> (#[trigger] pair_slots@[t]) < slots@.len()
                && pair_slots@[t] < u0.len(),
            forall|t: int| 0 <= t < slots@.len() ==> slot_valid(#[trigger] slots@[t], walls@, w, h),
            pair_try(m0, w, h, walls@, slots@, pair_slots@, u0, 0)
                == pair_try(m0, w, h, walls@, slots@, pair_slots@, used_slots@, k as int),
            doors_added(m0, pair_try(m0, w, h, walls@, slots@, pair_slots@, u0, 0).1,
                pair_try(m0, w, h, walls@, slots@, pair_slots@, u0, 0).0),
            pair_try(m0, w, h, walls@, slots@, pair_slots@, u0, 0).2.len() == u0.len(),
            used_grows(u0, pair_try(m0, w, h, walls@, slots@, pair_slots@, u0, 0).2),
            doors_on_walls(m0, pair_try(m0, w, h, walls@, slots@, pair_slots@, u0, 0).1, w, walls@),
            !pair_try(m0, w, h, walls@, slots@, pair_slots@, u0, 0).0 ==> forall|t: int| 0 <= t < pair_slots@.len() ==>
                pair_try(m0, w, h, walls@, slots@, pair_slots@, u0, 0).2[#[trigger] pair_slots@[t] as int],
            !pair_try(m0, w, h, walls@, slots@, pair_slots@, u0, 0).0 ==>
                tried_failed(m0, w, h, walls@, slots@, u0, pair_try(m0, w, h, walls@, slots@, pair_slots@, u0, 0).2),
        decreases pair_slots@.len() - k,
    {
        let si = pair_slots[k];
        if used_slots[si] {
            k = k + 1;
            continue;
        }
        proof {
            assert(slot_valid(slots@[si as int], walls@, w, h));
            assert(rows(map@, w) == h);
        }
        let placed = cut_door_from_slot(map, map_w, walls, &slots[si]);
        used_slots.set(si, true);
        if placed {
            proof {
                lemma_slot_cut_doors(m0, w, h, walls@, slots@[si as int]);
            }
            return true;
        }
        k = k + 1;
    }
    false
}

/// A table entry: the slots of one group pair `(lo, hi)`, longest range first.
pub struct PairSlots {
    pub lo: usize,
    pub hi: usize,
    pub slots: Vec<usize>,
}

/// Index of the entry for `(lo, hi)`, if any.
pub open spec fn pair_index(table: Seq<PairSlots>, lo: int, hi: int) -> Option<int>
    decreases table.len(),
{
    if table.len() == 0 {
        None
    } else if table[table.len() - 1].lo == lo && table[table.len() - 1].hi == hi
        && pair_index(table.drop_last(), lo, hi) is None {
        Some(table.len() - 1)
    } else {
        pair_index(table.drop_last(), lo, hi)
    }
}

/// Table entries hold slot indices below `n`.
pub open spec fn table_ok(table: Seq<PairSlots>, n: int) -> bool {
    forall|e: int, t: int| 0 <= e < table.len() && 0 <= t < table[e].slots@.len() ==>
        (#[trigger] table[e].slots@[t]) < n
}

proof fn lemma_pair_index(table: Seq<PairSlots>, lo: int, hi: int)
    ensures
        pair_index(table, lo, hi) matches Some(e) ==> 0 <= e < table.len() && table[e].lo == lo && table[e].hi == hi,
        pair_index(table, lo, hi) is None ==> forall|e: int| 0 <= e < table.len() ==> !(table[e].lo == lo && #[trigger] table[e].hi == hi),
    decreases table.len(),
{
    if table.len() > 0 {
        lemma_pair_index(table.drop_last(), lo, hi);
        if pair_index(table, lo, hi) is None {
            assert forall|e: int| 0 <= e < table.len() implies !(table[e].lo == lo && #[trigger] table[e].hi == hi) by {
                if e < table.len() - 1 {
                    assert(table.drop_last()[e] == table[e]);
                }
            }
        }
    }
}

/// Entry index for `(lo, hi)`.
fn find_pair(table: &Vec<PairSlots>, lo: usize, hi: usize) -> (r: Option<usize>)
    ensures
        r matches Some(e) ==> pair_index(table@, lo as int, hi as int) == Some(e as int),
        r is None ==> pair_index(table@, lo as int, hi as int) is None,
{
    let mut e: usize = 0;
    while e < table.len()
        invariant
            e <= table@.len(),
            pair_index(table@.subrange(0, e as int), lo as int, hi as int) is None,
        decreases table@.len() - e,
    {
        proof {
            assert(table@.subrange(0, e + 1).drop_last() =~= table@.subrange(0, e as int));
        }
        if table[e].lo == lo && table[e].hi == hi {
            proof {
                lemma_pair_index_prefix(table@, e as int + 1, lo as int, hi as int);
            }
            return Some(e);
        }
        e = e + 1;
    }
    proof {
        assert(table@.subrange(0, table@.len() as int) =~= table@);
    }
    None
}

/// Finding an entry in a prefix finds it in the whole table.
proof fn lemma_pair_index_prefix(table: Seq<PairSlots>, k: int, lo: int, hi: int)
    requires
        0 <= k <= table.len(),
        pair_index(table.subrange(0, k), lo, hi) is Some,
    ensures
        pair_index(table, lo, hi) == pair_index(table.subrange(0, k), lo, hi),
    decreases table.len() - k,
{
    if k < table.len() {
        assert(table.subrange(0, k + 1).drop_last() =~= table.subrange(0, k));
        lemma_pair_index_prefix(table, k + 1, lo, hi);
    } else {
        assert(table.subrange(0, k) =~= table);
    }
}

/// `list` with `x` appended unless already present.
pub open spec fn add_once(list: Seq<usize>, x: usize) -> Seq<usize> {
    if list.contains(x) { list } else { list.push(x) }
}

/// Place a door between groups `a` and `b` from their slots; on success
/// record each as the other's neighbour and count the door.
pub fn try_place_edge(
    a: usize,
    b: usize,
    map: &mut Vec<Cell>,
    map_w: usize,
    table: &Vec<PairSlots>,
    slots: &[DoorSlot],
    walls: &[WallLine],
    used_slots: &mut Vec<bool>,
    distinct_neighbors: &mut Vec<Vec<usize>>,
    count: &mut usize,
) -> (placed: bool)
    requires
        map_ok(old(map)@, map_w as int),
        a != b,
        a < old(distinct_neighbors)@.len(),
        b < old(distinct_neighbors)@.len(),
        table_ok(table@, slots@.len() as int),
        slots@.len() == old(used_slots)@.len(),
        forall|t: int| 0 <= t < slots@.len() ==> slot_valid(#[trigger] slots@[t], walls@, map_w as int,
            rows(old(map)@, map_w as int)),
        *old(count) < usize::MAX,
    ensures
        ({
            let lo = vstd::math::min(a as int, b as int);
            let hi = vstd::math::max(a as int, b as int);
            let w = map_w as int;
            let h = rows(old(map)@, w);
            match pair_index(table@, lo, hi) {
                None => !placed && final(map)@ == old(map)@ && final(used_slots)@ == old(used_slots)@,
                Some(e) => (placed, final(map)@, final(used_slots)@)
                    == pair_try(old(map)@, w, h, walls@, slots@, table@[e].slots@, old(used_slots)@, 0),
            }
        }),
        placed ==> *final(count) == *old(count) + 1,
        !placed ==> *final(count) == *old(count),
        doors_added(old(map)@, final(map)@, placed),
        final(used_slots)@.len() == old(used_slots)@.len(),
        final(distinct_neighbors)@.len() == old(distinct_neighbors)@.len(),
        placed ==> final(distinct_neighbors)@[a as int]@ == add_once(old(distinct_neighbors)@[a as int]@, b),
        placed ==> final(distinct_neighbors)@[b as int]@ == add_once(old(distinct_neighbors)@[b as int]@, a),
        forall|g: int| 0 <= g < old(distinct_neighbors)@.len() && (!placed || (g != a && g != b)) ==>
            #[trigger] final(distinct_neighbors)@[g]@ == old(distinct_neighbors)@[g]@,
        final(map)@.len() == old(map)@.len(),
        used_grows(old(used_slots)@, final(used_slots)@),
        dn_grows(old(distinct_neighbors)@, final(distinct_neighbors)@),
        placed ==> final(distinct_neighbors)@[a as int]@.contains(b) && final(distinct_neighbors)@[b as int]@.contains(a),
        !placed ==> pair_exhausted(table@, final(used_slots)@, a as int, b as int),
        !placed ==> final(map)@ == old(map)@ && tried_failed(old(map)@, map_w as int, rows(old(map)@, map_w as int),
            walls@, slots@, old(used_slots)@, final(used_slots)@),
        doors_on_walls(old(map)@, final(map)@, map_w as int, walls@),
{
    let (lo, hi) = if a < b { (a, b) } else { (b, a) };
    match find_pair(table, lo, hi) {
        None => {
            proof {
                lemma_doors_on_walls_refl(map@, map_w as int, walls@);
            }
            false
        },
        Some(e) => {
            proof {
                lemma_pair_index(table@, lo as int, hi as int);
            }
            let placed = try_place_pair_door(map, map_w, walls, slots, table[e].slots.as_slice(), used_slots);
            if placed {
                let ghost d0 = distinct_neighbors@;
                if !list_contains(&distinct_neighbors[a], b) {
                    let mut la = distinct_neighbors[a].clone();
                    la.push(b);
                    distinct_neighbors.set(a, la);
                }
                if !list_contains(&distinct_neighbors[b], a) {
                    let mut lb = distinct_neighbors[b].clone();
                    lb.push(a);
                    distinct_neighbors.set(b, lb);
                }
                proof {
                    lemma_push_contains(d0[a as int]@, b);
                    lemma_push_contains(distinct_neighbors@[b as int]@, a);
                    lemma_push_contains(d0[b as int]@, a);
                    assert forall|g: int, x: usize| 0 <= g < d0.len() && #[trigger] d0[g]@.contains(x)
                        implies #[trigger] distinct_neighbors@[g]@.contains(x) by {
                        if g == a as int {
                            lemma_push_contains(d0[g]@, b);
                        } else if g == b as int {
                            lemma_push_contains(d0[g]@, a);
                        }
                    }
                }
                *count = *count + 1;
            }
            placed
        },
    }
}

// ---------------------------------------------------------------------------
// Cutting all doors
// ---------------------------------------------------------------------------

/// Doors cut so far from `m0`: `count` doors of two cells each, and every
/// changed cell is an open door.
pub open spec fn door_state(map: Seq<Cell>, m0: Seq<Cell>, w: int, h: int, count: int) -> bool {
    &&& map_ok(map, w)
    &&& map.len() == m0.len()
    &&& rows(map, w) == h
    &&& 2 * count + non_doors(map).len() == non_doors(m0).len()
    &&& forall|c: int| 0 <= c < m0.len() ==> #[trigger] map[c] == m0[c] || map[c] == door_of(m0[c])
}

proof fn lemma_push_contains(s: Seq<usize>, x: usize)
    ensures
        forall|y: usize| #[trigger] s.push(x).contains(y) <==> (s.contains(y) || y == x),
{
    assert forall|y: usize| #[trigger] s.push(x).contains(y) <==> (s.contains(y) || y == x) by {
        if s.push(x).contains(y) {
            let k = choose|k: int| 0 <= k < s.len() + 1 && s.push(x)[k] == y;
            if k < s.len() {
                assert(s[k] == y);
            }
        }
        if s.contains(y) {
            let k = choose|k: int| 0 <= k < s.len() && s[k] == y;
            assert(s.push(x)[k] == y);
        }
        if y == x {
            assert(s.push(x)[s.len() as int] == x);
        }
    }
}

proof fn lemma_insert_contains(s: Seq<usize>, pos: int, x: usize)
    requires
        0 <= pos <= s.len(),
    ensures
        forall|y: usize| #[trigger] s.insert(pos, x).contains(y) <==> (s.contains(y) || y == x),
{
    s.insert_ensures(pos, x);
    let t = s.insert(pos, x);
    assert forall|y: usize| #[trigger] t.contains(y) <==> (s.contains(y) || y == x) by {
        if t.contains(y) {
            let k = choose|k: int| 0 <= k < t.len() && t[k] == y;
            if k < pos {
                assert(s[k] == y);
            } else if k > pos {
                assert(s[k - 1] == y);
            }
        }
        if s.contains(y) {
            let k = choose|k: int| 0 <= k < s.len() && s[k] == y;
            if k < pos {
                assert(t[k] == y);
            } else {
                assert(t[k + 1] == y);
            }
        }
        if y == x {
            assert(t[pos] == x);
        }
    }
}

/// Length of the range of slot `t`.
pub open spec fn slot_len(slots: Seq<DoorSlot>, t: int) -> int {
    slots[t].range_end - slots[t].range_start
}

/// Stable sort of slot indices by range length, longest first.
fn sort_by_len_desc(list: &mut Vec<usize>, slots: &[DoorSlot])
    requires
        forall|t: int| 0 <= t < old(list)@.len() ==> (#[trigger] old(list)@[t]) < slots@.len(),
        forall|t: int| 0 <= t < slots@.len() ==> (#[trigger] slots@[t]).range_start <= slots@[t].range_end,
    ensures
        final(list)@.len() == old(list)@.len(),
        final(list)@.to_multiset() == old(list)@.to_multiset(),
        forall|a: int, b: int| 0 <= a < b < final(list)@.len() ==>
            slot_len(slots@, #[trigger] final(list)@[a] as int) >= slot_len(slots@, #[trigger] final(list)@[b] as int),
        forall|x: usize| #[trigger] final(list)@.contains(x) <==> old(list)@.contains(x),
        forall|t: int| 0 <= t < final(list)@.len() ==> (#[trigger] final(list)@[t]) < slots@.len(),
{
    let n = list.len();
    let mut out: Vec<usize> = Vec::new();
    let mut i: usize = 0;
    proof {
        assert(out@ =~= list@.subrange(0, 0));
    }
    while i < n
        invariant
            n == list@.len(),
            list@ == old(list)@,
            i <= n,
            out@.len() == i,
            forall|t: int| 0 <= t < list@.len() ==> (#[trigger] list@[t]) < slots@.len(),
            forall|t: int| 0 <= t < out@.len() ==> (#[trigger] out@[t]) < slots@.len(),
            forall|t: int| 0 <= t < slots@.len() ==> (#[trigger] slots@[t]).range_start <= slots@[t].range_end,
            forall|x: usize| #[trigger] out@.contains(x) <==> list@.subrange(0, i as int).contains(x),
            out@.to_multiset() == list@.subrange(0, i as int).to_multiset(),
            forall|a: int, b: int| 0 <= a < b < out@.len() ==>
                slot_len(slots@, #[trigger] out@[a] as int) >= slot_len(slots@, #[trigger] out@[b] as int),
        decreases n - i,
    {
        let x = list[i];
        let len_x = slots[x].range_end - slots[x].range_start;
        let mut pos: usize = 0;
        while pos < out.len() && slots[out[pos]].range_end - slots[out[pos]].range_start >= len_x
            invariant
                pos <= out@.len(),
                forall|t: int| 0 <= t < out@.len() ==> (#[trigger] out@[t]) < slots@.len(),
                forall|t: int| 0 <= t < slots@.len() ==> (#[trigger] slots@[t]).range_start <= slots@[t].range_end,
                x < slots@.len(),
                len_x == slot_len(slots@, x as int),
                forall|t: int| 0 <= t < pos ==> slot_len(slots@, #[trigger] out@[t] as int) >= len_x,
            decreases out@.len() - pos,
        {
            pos = pos + 1;
        }
        let ghost o0 = out@;
        proof {
            o0.insert_ensures(pos as int, x);
            lemma_insert_contains(o0, pos as int, x);
            lemma_push_contains(list@.subrange(0, i as int), x);
        }
        out.insert(pos, x);
        proof {
            assert(list@.subrange(0, i + 1) =~= list@.subrange(0, i as int).push(x));
            vstd::seq_lib::to_multiset_insert(o0, pos as int, x);
            list@.subrange(0, i as int).to_multiset_ensures();
            assert(pos < o0.len() ==> slot_len(slots@, o0[pos as int] as int) < len_x);
            assert forall|a: int, b: int| 0 <= a < b < out@.len() implies
                slot_len(slots@, #[trigger] out@[a] as int) >= slot_len(slots@, #[trigger] out@[b] as int) by {
                let oa = if a < pos { a } else if a == pos { -1 } else { a - 1 };
                let ob = if b < pos { b } else if b == pos { -1 } else { b - 1 };
                if a == pos {
                    assert(slot_len(slots@, o0[pos as int] as int) >= slot_len(slots@, o0[ob] as int));
                } else if b == pos {
                    assert(slot_len(slots@, o0[oa] as int) >= len_x);
                } else {
                    assert(out@[a] == o0[oa] && out@[b] == o0[ob]);
                }
            }
            assert forall|t: int| 0 <= t < out@.len() implies (#[trigger] out@[t]) < slots@.len() by {
                if t < pos {
                    assert(out@[t] == o0[t]);
                } else if t > pos {
                    assert(out@[t] == o0[t - 1]);
                }
            }
        }
        i = i + 1;
    }
    proof {
        assert(list@.subrange(0, n as int) =~= list@);
    }
    *list = out;
}

/// The distinct values of `list`, ascending.
fn sorted_unique(list: &Vec<usize>) -> (out: Vec<usize>)
    ensures
        forall|x: usize| #[trigger] out@.contains(x) <==> list@.contains(x),
        forall|i: int, j: int| 0 <= i < j < out@.len() ==> #[trigger] out@[i] < #[trigger] out@[j],
{
    let mut out: Vec<usize> = Vec::new();
    let mut i: usize = 0;
    while i < list.len()
        invariant
            i <= list@.len(),
            forall|x: usize| #[trigger] out@.contains(x) <==> list@.subrange(0, i as int).contains(x),
            forall|a: int, b: int| 0 <= a < b < out@.len() ==> #[trigger] out@[a] < #[trigger] out@[b],
        decreases list@.len() - i,
    {
        let x = list[i];
        proof {
            assert(list@.subrange(0, i + 1) =~= list@.subrange(0, i as int).push(x));
        }
        let mut pos: usize = 0;
        while pos < out.len() && out[pos] < x
            invariant
                pos <= out@.len(),
                forall|t: int| 0 <= t < pos ==> out@[t] < x,
            decreases out@.len() - pos,
        {
            pos = pos + 1;
        }
        if pos < out.len() && out[pos] == x {
            proof {
                lemma_push_contains(list@.subrange(0, i as int), x);
                assert(out@.contains(x)) by {
                    assert(out@[pos as int] == x);
                }
            }
        } else {
            let ghost o0 = out@;
            proof {
                o0.insert_ensures(pos as int, x);
            }
            proof {
                lemma_insert_contains(o0, pos as int, x);
                lemma_push_contains(list@.subrange(0, i as int), x);
            }
            out.insert(pos, x);
            proof {
                assert forall|a: int, b: int| 0 <= a < b < out@.len() implies #[trigger] out@[a] < #[trigger] out@[b] by {
                    if b < pos {
                        assert(out@[a] == o0[a] && out@[b] == o0[b]);
                    } else if b == pos {
                        assert(out@[a] == o0[a]);
                    } else if a < pos {
                        assert(out@[a] == o0[a] && out@[b] == o0[b - 1]);
                        assert(o0[pos as int] > x);
                        if b - 1 > pos {
                            assert(o0[pos as int] < o0[b - 1]);
                        }
                    } else if a == pos {
                        assert(out@[b] == o0[b - 1]);
                        assert(o0[pos as int] > x);
                        if b - 1 > pos {
                            assert(o0[pos as int] < o0[b - 1]);
                        }
                    } else {
                        assert(out@[a] == o0[a - 1] && out@[b] == o0[b - 1]);
                    }
                }
            }
        }
        i = i + 1;
    }
    proof {
        assert(list@.subrange(0, list@.len() as int) =~= list@);
    }
    out
}

/// `m2` is `m1` with `k` more doors cut: `2 * k` fewer non-door cells, and
/// every changed cell became an open door.
pub open spec fn doors_cut(m1: Seq<Cell>, m2: Seq<Cell>, k: int) -> bool {
    &&& m2.len() == m1.len()
    &&& 2 * k + non_doors(m2).len() == non_doors(m1).len()
    &&& forall|c: int| 0 <= c < m1.len() ==> #[trigger] m2[c] == m1[c] || m2[c] == door_of(m1[c])
}

/// The door count is consistent with the map: each counted door turned two
/// cells into doors.
pub open spec fn count_ok(map: Seq<Cell>, count: int) -> bool {
    0 <= count && 2 * count + non_doors(map).len() <= map.len()
}

proof fn lemma_cut_refl(m: Seq<Cell>)
    ensures
        doors_cut(m, m, 0),
{
}

proof fn lemma_cut_step(m0: Seq<Cell>, m1: Seq<Cell>, m2: Seq<Cell>, k: int, placed: bool)
    requires
        doors_cut(m0, m1, k),
        doors_added(m1, m2, placed),
    ensures
        doors_cut(m0, m2, if placed { k + 1 } else { k }),
{
    assert forall|c: int| 0 <= c < m0.len() implies #[trigger] m2[c] == m0[c] || m2[c] == door_of(m0[c]) by {
        assert(m1[c] == m0[c] || m1[c] == door_of(m0[c]));
        assert(m2[c] == m1[c] || m2[c] == door_of(m1[c]));
    }
}

proof fn lemma_cut_trans(m0: Seq<Cell>, m1: Seq<Cell>, m2: Seq<Cell>, k1: int, k2: int)
    requires
        doors_cut(m0, m1, k1),
        doors_cut(m1, m2, k2),
    ensures
        doors_cut(m0, m2, k1 + k2),
{
    assert forall|c: int| 0 <= c < m0.len() implies #[trigger] m2[c] == m0[c] || m2[c] == door_of(m0[c]) by {
        assert(m1[c] == m0[c] || m1[c] == door_of(m0[c]));
        assert(m2[c] == m1[c] || m2[c] == door_of(m1[c]));
    }
}

/// A consistent count stays below `usize::MAX` on a map of at most
/// `i32::MAX` cells, and stays consistent after more doors.
proof fn lemma_count_ok(m1: Seq<Cell>, m2: Seq<Cell>, count: int, k: int)
    requires
        count_ok(m1, count),
        doors_cut(m1, m2, k),
        m1.len() <= i32::MAX,
    ensures
        count_ok(m2, count + k),
        count + k < i32::MAX,
{
    lemma_non_doors_finite(m1);
    lemma_non_doors_finite(m2);
    assert(non_doors(m2).subset_of(non_doors(m1))) by {
        assert forall|c: int| non_doors(m2).contains(c) implies non_doors(m1).contains(c) by {
            assert(m2[c] == m1[c] || m2[c] == door_of(m1[c]));
        }
    }
    vstd::set_lib::lemma_len_subset(non_doors(m2), non_doors(m1));
}

/// Shared state of the door passes over one map.
pub open spec fn pass_env(map: Seq<Cell>, w: int, walls: Seq<WallLine>, slots: Seq<DoorSlot>,
    table: Seq<PairSlots>, used: Seq<bool>, dn: Seq<Vec<usize>>, ng: int) -> bool {
    &&& map_ok(map, w)
    &&& table_ok(table, slots.len() as int)
    &&& used.len() == slots.len()
    &&& dn.len() == ng
    &&& forall|t: int| 0 <= t < slots.len() ==> slot_valid(#[trigger] slots[t], walls, w, rows(map, w))
}

/// The entry is for the slot's group pair.
pub open spec fn same_pair(e: PairSlots, s: DoorSlot) -> bool {
    e.lo == s.group_lo && e.hi == s.group_hi
}

/// Every entry is for the group pair of some slot.
pub open spec fn table_from(table: Seq<PairSlots>, slots: Seq<DoorSlot>) -> bool {
    forall|e: int| 0 <= e < table.len() ==> #[trigger] pair_has_slot(table[e], slots)
}

/// Some slot is for the entry's group pair.
pub open spec fn pair_has_slot(e: PairSlots, slots: Seq<DoorSlot>) -> bool {
    exists|t: int| 0 <= t < slots.len() && #[trigger] same_pair(e, slots[t])
}

/// No two entries are for the same group pair.
pub open spec fn keys_distinct(table: Seq<PairSlots>) -> bool {
    forall|e1: int, e2: int| 0 <= e1 < e2 < table.len() ==>
        !(#[trigger] table[e1].lo == #[trigger] table[e2].lo && table[e1].hi == table[e2].hi)
}

/// Some entry is for the group pair of slot `s`.
pub open spec fn has_entry(table: Seq<PairSlots>, s: DoorSlot) -> bool {
    exists|e: int| 0 <= e < table.len() && #[trigger] same_pair(table[e], s)
}

/// The entry lists, once each, exactly the indices below `n` of the slots
/// for its group pair.
pub open spec fn entry_exact(entry: PairSlots, slots: Seq<DoorSlot>, n: int) -> bool {
    &&& entry.slots@.no_duplicates()
    &&& forall|x: usize| #[trigger] entry.slots@.contains(x) <==> (x < n && same_pair(entry, slots[x as int]))
}

/// The entry's slot indices run longest range first.
pub open spec fn entry_sorted(entry: PairSlots, slots: Seq<DoorSlot>) -> bool {
    forall|a: int, b: int| 0 <= a < b < entry.slots@.len() ==>
        slot_len(slots, #[trigger] entry.slots@[a] as int) >= slot_len(slots, #[trigger] entry.slots@[b] as int)
}

/// Two index lists with one multiset hold the same indices, and the second
/// has no repeats where the first has none.
proof fn lemma_perm_keeps(s1: Seq<usize>, s2: Seq<usize>)
    requires
        s1.to_multiset() == s2.to_multiset(),
        s1.no_duplicates(),
    ensures
        s2.no_duplicates(),
        forall|x: usize| s2.contains(x) <==> s1.contains(x),
{
    s1.lemma_multiset_has_no_duplicates();
    assert forall|x: usize| s2.contains(x) <==> s1.contains(x) by {
        vstd::seq_lib::to_multiset_contains(s1, x);
        vstd::seq_lib::to_multiset_contains(s2, x);
    }
    assert forall|x: usize| s2.to_multiset().contains(x) implies s2.to_multiset().count(x) == 1 by {
        assert(s1.to_multiset().contains(x));
    }
    s2.lemma_multiset_has_no_duplicates_conv();
}

/// Group every slot index under its group pair, each pair's slots longest first.
fn build_pair_table(slots: &[DoorSlot]) -> (table: Vec<PairSlots>)
    requires
        forall|t: int| 0 <= t < slots@.len() ==> (#[trigger] slots@[t]).range_start <= slots@[t].range_end,
    ensures
        table_ok(table@, slots@.len() as int),
        table_from(table@, slots@),
        keys_distinct(table@),
        forall|t: int| 0 <= t < slots@.len() ==> #[trigger] has_entry(table@, slots@[t]),
        forall|e: int| 0 <= e < table@.len() ==> entry_exact(#[trigger] table@[e], slots@, slots@.len() as int),
        forall|e: int| 0 <= e < table@.len() ==> entry_sorted(#[trigger] table@[e], slots@),
{
    let mut table: Vec<PairSlots> = Vec::new();
    let mut si: usize = 0;
    while si < slots.len()
        invariant
            si <= slots@.len(),
            table_ok(table@, slots@.len() as int),
            forall|t: int| 0 <= t < slots@.len() ==> (#[trigger] slots@[t]).range_start <= slots@[t].range_end,
            table_from(table@, slots@),
            keys_distinct(table@),
            forall|t: int| 0 <= t < si ==> #[trigger] has_entry(table@, slots@[t]),
            forall|e: int| 0 <= e < table@.len() ==> entry_exact(#[trigger] table@[e], slots@, si as int),
        decreases slots@.len() - si,
    {
        let lo = slots[si].group_lo;
        let hi = slots[si].group_hi;
        match find_pair(&table, lo, hi) {
            Some(e) => {
                proof {
                    lemma_pair_index(table@, lo as int, hi as int);
                }
                let ghost t0 = table@;
                let mut entry = PairSlots { lo: table[e].lo, hi: table[e].hi, slots: table[e].slots.clone() };
                entry.slots.push(si);
                table.set(e, entry);
                proof {
                    assert forall|ee: int, t: int| 0 <= ee < table@.len() && 0 <= t < table@[ee].slots@.len() implies
                        (#[trigger] table@[ee].slots@[t]) < slots@.len() by {
                        if ee != e as int {
                            assert(table@[ee] == t0[ee]);
                        } else if t < t0[ee].slots@.len() {
                            assert(table@[ee].slots@[t] == t0[ee].slots@[t]);
                        }
                    }
                    assert forall|ee: int| 0 <= ee < table@.len() implies #[trigger] pair_has_slot(table@[ee], slots@) by {
                        if ee != e as int {
                            assert(table@[ee] == t0[ee]);
                            assert(pair_has_slot(t0[ee], slots@));
                            let t = choose|t: int| 0 <= t < slots@.len() && #[trigger] same_pair(t0[ee], slots@[t]);
                            assert(same_pair(table@[ee], slots@[t]));
                        } else {
                            assert(same_pair(table@[ee], slots@[si as int]));
                        }
                    }
                    assert(table_from(table@, slots@));
                    assert(same_pair(table@[e as int], slots@[si as int]));
                    assert forall|e1: int, e2: int| 0 <= e1 < e2 < table@.len() implies
                        !(#[trigger] table@[e1].lo == #[trigger] table@[e2].lo && table@[e1].hi == table@[e2].hi) by {
                        assert(table@[e1].lo == t0[e1].lo && table@[e1].hi == t0[e1].hi);
                        assert(table@[e2].lo == t0[e2].lo && table@[e2].hi == t0[e2].hi);
                        assert(!(t0[e1].lo == t0[e2].lo && t0[e1].hi == t0[e2].hi));
                    }
                    assert forall|t: int| 0 <= t < si + 1 implies #[trigger] has_entry(table@, slots@[t]) by {
                        if t == si {
                            assert(same_pair(table@[e as int], slots@[t]));
                        } else {
                            assert(has_entry(t0, slots@[t]));
                            let ee = choose|ee: int| 0 <= ee < t0.len() && #[trigger] same_pair(t0[ee], slots@[t]);
                            assert(same_pair(table@[ee], slots@[t]));
                        }
                    }
                    assert forall|ee: int| 0 <= ee < table@.len() implies entry_exact(#[trigger] table@[ee], slots@, si + 1) by {
                        if ee != e as int {
                            assert(table@[ee] == t0[ee]);
                            assert(entry_exact(t0[ee], slots@, si as int));
                            assert(!same_pair(t0[ee], slots@[si as int]));
                        } else {
                            let old_l = t0[ee].slots@;
                            assert(entry_exact(t0[ee], slots@, si as int));
                            assert(table@[ee].slots@ == old_l.push(si));
                            assert(!old_l.contains(si));
                            assert forall|x: usize| #[trigger] table@[ee].slots@.contains(x) <==> (x < si + 1 && same_pair(table@[ee], slots@[x as int])) by {
                                assert(table@[ee].lo == t0[ee].lo && table@[ee].hi == t0[ee].hi);
                                if table@[ee].slots@.contains(x) && x != si {
                                    let k = choose|k: int| 0 <= k < table@[ee].slots@.len() && table@[ee].slots@[k] == x;
                                    assert(k < old_l.len());
                                    assert(old_l[k] == x);
                                    assert(old_l.contains(x));
                                }
                                if x < si && same_pair(table@[ee], slots@[x as int]) {
                                    assert(old_l.contains(x));
                                    let k = choose|k: int| 0 <= k < old_l.len() && old_l[k] == x;
                                    assert(table@[ee].slots@[k] == x);
                                }
                                if x == si {
                                    assert(table@[ee].slots@[old_l.len() as int] == x);
                                }
                            }
                            assert forall|i: int, j: int| 0 <= i < j < table@[ee].slots@.len() implies
                                table@[ee].slots@[i] != table@[ee].slots@[j] by {
                                if j == old_l.len() {
                                    assert(old_l.contains(old_l[i]));
                                }
                            }
                        }
                    }
                }
            },
            None => {
                let ghost t0 = table@;
                let mut v: Vec<usize> = Vec::new();
                v.push(si);
                table.push(PairSlots { lo, hi, slots: v });
                proof {
                    assert forall|ee: int, t: int| 0 <= ee < table@.len() && 0 <= t < table@[ee].slots@.len() implies
                        (#[trigger] table@[ee].slots@[t]) < slots@.len() by {
                        if ee < t0.len() {
                            assert(table@[ee] == t0[ee]);
                        }
                    }
                    assert forall|ee: int| 0 <= ee < table@.len() implies #[trigger] pair_has_slot(table@[ee], slots@) by {
                        if ee < t0.len() {
                            assert(table@[ee] == t0[ee]);
                            assert(pair_has_slot(t0[ee], slots@));
                            let t = choose|t: int| 0 <= t < slots@.len() && #[trigger] same_pair(t0[ee], slots@[t]);
                            assert(same_pair(table@[ee], slots@[t]));
                        } else {
                            assert(same_pair(table@[ee], slots@[si as int]));
                        }
                    }
                    assert(table_from(table@, slots@));
                    lemma_pair_index(t0, lo as int, hi as int);
                    assert forall|e1: int, e2: int| 0 <= e1 < e2 < table@.len() implies
                        !(#[trigger] table@[e1].lo == #[trigger] table@[e2].lo && table@[e1].hi == table@[e2].hi) by {
                        assert(table@[e1] == t0[e1]);
                        if e2 < t0.len() {
                            assert(table@[e2] == t0[e2]);
                        } else {
                            assert(!(t0[e1].lo == lo && t0[e1].hi == hi));
                        }
                    }
                    assert forall|t: int| 0 <= t < si + 1 implies #[trigger] has_entry(table@, slots@[t]) by {
                        if t == si {
                            assert(same_pair(table@[t0.len() as int], slots@[t]));
                        } else {
                            assert(has_entry(t0, slots@[t]));
                            let ee = choose|ee: int| 0 <= ee < t0.len() && #[trigger] same_pair(t0[ee], slots@[t]);
                            assert(same_pair(table@[ee], slots@[t]));
                        }
                    }
                    assert forall|ee: int| 0 <= ee < table@.len() implies entry_exact(#[trigger] table@[ee], slots@, si + 1) by {
                        if ee < t0.len() {
                            assert(table@[ee] == t0[ee]);
                            assert(entry_exact(t0[ee], slots@, si as int));
                            assert(!(t0[ee].lo == lo && t0[ee].hi == hi));
                        } else {
                            assert(table@[ee].slots@ =~= seq![si]);
                            assert forall|x: usize| #[trigger] table@[ee].slots@.contains(x) <==> (x < si + 1 && same_pair(table@[ee], slots@[x as int])) by {
                                if x < si + 1 && same_pair(table@[ee], slots@[x as int]) && x != si {
                                    assert(has_entry(t0, slots@[x as int]));
                                    let e3 = choose|e3: int| 0 <= e3 < t0.len() && #[trigger] same_pair(t0[e3], slots@[x as int]);
                                    assert(t0[e3].lo == lo && t0[e3].hi == hi);
                                }
                                if x == si {
                                    assert(table@[ee].slots@[0] == x);
                                }
                                if table@[ee].slots@.contains(x) {
                                    let k = choose|k: int| 0 <= k < table@[ee].slots@.len() && table@[ee].slots@[k] == x;
                                    assert(k == 0);
                                    assert(x == si);
                                    assert(same_pair(table@[ee], slots@[si as int]));
                                }
                            }
                        }
                    }
                }
            },
        }
        si = si + 1;
    }
    // Longest overlap first within each pair.
    let mut e: usize = 0;
    while e < table.len()
        invariant
            e <= table@.len(),
            table_ok(table@, slots@.len() as int),
            forall|t: int| 0 <= t < slots@.len() ==> (#[trigger] slots@[t]).range_start <= slots@[t].range_end,
            table_from(table@, slots@),
            keys_distinct(table@),
            forall|t: int| 0 <= t < slots@.len() ==> #[trigger] has_entry(table@, slots@[t]),
            forall|ee: int| 0 <= ee < table@.len() ==> entry_exact(#[trigger] table@[ee], slots@, slots@.len() as int),
            forall|ee: int| 0 <= ee < e ==> entry_sorted(#[trigger] table@[ee], slots@),
        decreases table@.len() - e,
    {
        let ghost t0 = table@;
        let mut list = table[e].slots.clone();
        proof {
            assert forall|t: int| 0 <= t < list@.len() implies (#[trigger] list@[t]) < slots@.len() by {
                assert(list@[t] == t0[e as int].slots@[t]);
            }
        }
        sort_by_len_desc(&mut list, slots);
        let entry = PairSlots { lo: table[e].lo, hi: table[e].hi, slots: list };
        table.set(e, entry);
        proof {
            assert forall|ee: int, t: int| 0 <= ee < table@.len() && 0 <= t < table@[ee].slots@.len() implies
                (#[trigger] table@[ee].slots@[t]) < slots@.len() by {
                if ee != e as int {
                    assert(table@[ee] == t0[ee]);
                }
            }
            assert forall|ee: int| 0 <= ee < table@.len() implies #[trigger] pair_has_slot(table@[ee], slots@) by {
                assert(table@[ee].lo == t0[ee].lo && table@[ee].hi == t0[ee].hi);
                assert(pair_has_slot(t0[ee], slots@));
                            let t = choose|t: int| 0 <= t < slots@.len() && #[trigger] same_pair(t0[ee], slots@[t]);
                assert(same_pair(table@[ee], slots@[t]));
            }
            assert(table_from(table@, slots@));
            assert(list@ == table@[e as int].slots@);
            assert(entry_exact(t0[e as int], slots@, slots@.len() as int));
            lemma_perm_keeps(t0[e as int].slots@, list@);
            assert(entry_exact(table@[e as int], slots@, slots@.len() as int));
            assert forall|e1: int, e2: int| 0 <= e1 < e2 < table@.len() implies
                !(#[trigger] table@[e1].lo == #[trigger] table@[e2].lo && table@[e1].hi == table@[e2].hi) by {
                assert(table@[e1].lo == t0[e1].lo && table@[e1].hi == t0[e1].hi);
                assert(table@[e2].lo == t0[e2].lo && table@[e2].hi == t0[e2].hi);
                assert(!(t0[e1].lo == t0[e2].lo && t0[e1].hi == t0[e2].hi));
            }
            assert forall|t: int| 0 <= t < slots@.len() implies #[trigger] has_entry(table@, slots@[t]) by {
                assert(has_entry(t0, slots@[t]));
                let ee = choose|ee: int| 0 <= ee < t0.len() && #[trigger] same_pair(t0[ee], slots@[t]);
                assert(same_pair(table@[ee], slots@[t]));
            }
            assert forall|ee: int| 0 <= ee < table@.len() implies entry_exact(#[trigger] table@[ee], slots@, slots@.len() as int) by {
                if ee != e as int {
                    assert(table@[ee] == t0[ee]);
                }
            }
            assert forall|ee: int| 0 <= ee < e + 1 implies entry_sorted(#[trigger] table@[ee], slots@) by {
                if ee != e as int {
                    assert(table@[ee] == t0[ee]);
                }
            }
        }
        e = e + 1;
    }
    table
}

/// Adjacency lists of the group graph: each group's partners, ascending.
fn build_adjacency(table: &Vec<PairSlots>, num_groups: usize) -> (adj: Vec<Vec<usize>>)
    requires
        forall|e: int| 0 <= e < table@.len() ==> (#[trigger] table@[e]).lo < table@[e].hi < num_groups,
    ensures
        adj_ok(adj@, num_groups as int),
        forall|u: int, k: int| 0 <= u < num_groups && 0 <= k < adj@[u]@.len() ==> (#[trigger] adj@[u]@[k]) as int != u,
        forall|e: int| 0 <= e < table@.len() ==> adj@[(#[trigger] table@[e]).lo as int]@.contains(table@[e].hi)
            && adj@[table@[e].lo as int]@.contains(table@[e].hi),
        forall|e: int| 0 <= e < table@.len() ==> adj@[(#[trigger] table@[e]).hi as int]@.contains(table@[e].lo),
{
    let mut raw: Vec<Vec<usize>> = Vec::new();
    let mut g: usize = 0;
    while g < num_groups
        invariant
            g <= num_groups,
            raw@.len() == g,
            forall|u: int| 0 <= u < g ==> (#[trigger] raw@[u])@.len() == 0,
        decreases num_groups - g,
    {
        raw.push(Vec::new());
        g = g + 1;
    }
    let mut e: usize = 0;
    while e < table.len()
        invariant
            e <= table@.len(),
            raw@.len() == num_groups,
            forall|e: int| 0 <= e < table@.len() ==> (#[trigger] table@[e]).lo < table@[e].hi < num_groups,
            forall|u: int, k: int| 0 <= u < num_groups && 0 <= k < raw@[u]@.len() ==>
                (#[trigger] raw@[u]@[k]) < num_groups && raw@[u]@[k] as int != u,
            forall|ee: int| 0 <= ee < e ==> raw@[(#[trigger] table@[ee]).lo as int]@.contains(table@[ee].hi)
                && raw@[table@[ee].hi as int]@.contains(table@[ee].lo),
        decreases table@.len() - e,
    {
        let lo = table[e].lo;
        let hi = table[e].hi;
        let ghost r0 = raw@;
        let mut l = raw[lo].clone();
        proof {
            assert(l@ =~= r0[lo as int]@);
        }
        l.push(hi);
        raw.set(lo, l);
        let ghost r1 = raw@;
        let mut h = raw[hi].clone();
        proof {
            assert(h@ =~= r1[hi as int]@);
        }
        h.push(lo);
        raw.set(hi, h);
        proof {
            lemma_push_contains(r0[lo as int]@, hi);
            lemma_push_contains(r1[hi as int]@, lo);
            assert forall|ee: int| 0 <= ee < e + 1 implies raw@[(#[trigger] table@[ee]).lo as int]@.contains(table@[ee].hi)
                && raw@[table@[ee].hi as int]@.contains(table@[ee].lo) by {
                let x = table@[ee].lo as int;
                let y = table@[ee].hi as int;
                assert forall|u: int, z: usize| 0 <= u < num_groups && #[trigger] r0[u]@.contains(z) implies raw@[u]@.contains(z) by {
                    lemma_push_contains(r0[u]@, hi);
                    lemma_push_contains(r1[u]@, lo);
                    if u == lo as int {
                        assert(r1[u]@ == r0[u]@.push(hi));
                    } else {
                        assert(r1[u] == r0[u]);
                    }
                    if u == hi as int {
                        assert(raw@[u]@ == r1[u]@.push(lo));
                    } else {
                        assert(raw@[u] == r1[u]);
                    }
                }
                if ee < e {
                    assert(r0[x]@.contains(table@[ee].hi));
                    assert(r0[y]@.contains(table@[ee].lo));
                } else {
                    assert(r1[lo as int]@.contains(hi));
                    if hi != lo {
                        assert(raw@[lo as int] == r1[lo as int]);
                    }
                }
            }
            assert forall|u: int, k: int| 0 <= u < num_groups && 0 <= k < raw@[u]@.len() implies
                (#[trigger] raw@[u]@[k]) < num_groups && raw@[u]@[k] as int != u by {
                if u == hi as int {
                    if k < r1[u]@.len() {
                        assert(raw@[u]@[k] == r1[u]@[k]);
                        assert(r1[u] == r0[u]);
                    }
                } else if u == lo as int {
                    assert(raw@[u] == r1[u]);
                    if k < r0[u]@.len() {
                        assert(r1[u]@[k] == r0[u]@[k]);
                    }
                } else {
                    assert(raw@[u] == r0[u]);
                }
            }
        }
        e = e + 1;
    }
    let mut adj: Vec<Vec<usize>> = Vec::new();
    let mut g: usize = 0;
    while g < num_groups
        invariant
            g <= num_groups,
            raw@.len() == num_groups,
            adj@.len() == g,
            forall|u: int, k: int| 0 <= u < num_groups && 0 <= k < raw@[u]@.len() ==>
                (#[trigger] raw@[u]@[k]) < num_groups && raw@[u]@[k] as int != u,
            forall|u: int, k: int| 0 <= u < g && 0 <= k < adj@[u]@.len() ==>
                (#[trigger] adj@[u]@[k]) < num_groups && adj@[u]@[k] as int != u,
            forall|ee: int| 0 <= ee < table@.len() ==> raw@[(#[trigger] table@[ee]).lo as int]@.contains(table@[ee].hi)
                && raw@[table@[ee].hi as int]@.contains(table@[ee].lo),
            forall|u: int, z: usize| 0 <= u < g ==> (#[trigger] adj@[u]@.contains(z) <==> raw@[u]@.contains(z)),
        decreases num_groups - g,
    {
        let l = sorted_unique(&raw[g]);
        proof {
            assert forall|k: int| 0 <= k < l@.len() implies (#[trigger] l@[k]) < num_groups && l@[k] as int != g as int by {
                assert(l@.contains(l@[k]));
                assert(raw@[g as int]@.contains(l@[k]));
            }
        }
        let ghost a0 = adj@;
        adj.push(l);
        proof {
            assert forall|u: int, k: int| 0 <= u < g + 1 && 0 <= k < adj@[u]@.len() implies
                (#[trigger] adj@[u]@[k]) < num_groups && adj@[u]@[k] as int != u by {
                if u < g {
                    assert(adj@[u] == a0[u]);
                }
            }
            assert forall|u: int, z: usize| 0 <= u < g + 1 implies (#[trigger] adj@[u]@.contains(z) <==> raw@[u]@.contains(z)) by {
                if u < g {
                    assert(adj@[u] == a0[u]);
                }
            }
        }
        g = g + 1;
    }
    proof {
        assert forall|e: int| 0 <= e < table@.len() implies adj@[(#[trigger] table@[e]).hi as int]@.contains(table@[e].lo) by {
            assert(raw@[table@[e].hi as int]@.contains(table@[e].lo));
        }
        assert forall|e: int| 0 <= e < table@.len() implies adj@[(#[trigger] table@[e]).lo as int]@.contains(table@[e].hi)
            && adj@[table@[e].lo as int]@.contains(table@[e].hi) by {
            assert(raw@[table@[e].lo as int]@.contains(table@[e].hi));
        }
    }
    adj
}

proof fn lemma_after_place(m0: Seq<Cell>, m1: Seq<Cell>, m2: Seq<Cell>, c0: int, count: int, placed: bool)
    requires
        doors_cut(m0, m1, count - c0),
        count_ok(m1, count),
        doors_added(m1, m2, placed),
        m1.len() <= i32::MAX,
    ensures
        doors_cut(m0, m2, (if placed { count + 1 } else { count }) - c0),
        count_ok(m2, if placed { count + 1 } else { count }),
        m2.len() == m1.len(),
{
    lemma_cut_refl(m1);
    lemma_cut_step(m1, m1, m2, 0, placed);
    lemma_count_ok(m1, m2, count, if placed { 1 } else { 0 });
    lemma_cut_step(m0, m1, m2, count - c0, placed);
}

/// Place doors along the edges of a cycle of groups.
fn connect_cycle(
    cycle: &Vec<usize>,
    map: &mut Vec<Cell>,
    map_w: usize,
    table: &Vec<PairSlots>,
    slots: &[DoorSlot],
    walls: &[WallLine],
    used_slots: &mut Vec<bool>,
    distinct_neighbors: &mut Vec<Vec<usize>>,
    count: &mut usize,
)
    requires
        pass_env(old(map)@, map_w as int, walls@, slots@, table@, old(used_slots)@, old(distinct_neighbors)@,
            old(distinct_neighbors)@.len() as int),
        count_ok(old(map)@, *old(count) as int),
        cycle@.len() >= 3,
        forall|i: int, j: int| 0 <= i < j < cycle@.len() ==> #[trigger] cycle@[i] != #[trigger] cycle@[j],
        forall|i: int| 0 <= i < cycle@.len() ==> (#[trigger] cycle@[i]) < old(distinct_neighbors)@.len(),
    ensures
        pass_env(final(map)@, map_w as int, walls@, slots@, table@, final(used_slots)@, final(distinct_neighbors)@,
            old(distinct_neighbors)@.len() as int),
        *final(count) >= *old(count),
        doors_cut(old(map)@, final(map)@, *final(count) - *old(count)),
        doors_on_walls(old(map)@, final(map)@, map_w as int, walls@),
        count_ok(final(map)@, *final(count) as int),
        used_grows(old(used_slots)@, final(used_slots)@),
        dn_grows(old(distinct_neighbors)@, final(distinct_neighbors)@),
        forall|i: int| 0 <= i < cycle@.len() ==> #[trigger] edge_settled(table@, final(used_slots)@, final(distinct_neighbors)@,
            cycle@[i] as int, cycle@[(i + 1) % cycle@.len() as int] as int),
        *final(count) == *old(count) ==> no_door_pass(old(map)@, final(map)@, map_w as int, walls@, slots@,
            old(used_slots)@, final(used_slots)@, old(distinct_neighbors)@, final(distinct_neighbors)@),
{
    let ghost m0 = map@;
    let ghost c0 = *count as int;
    let ghost ng = distinct_neighbors@.len();
    let ghost u0 = used_slots@;
    let ghost d0 = distinct_neighbors@;
    proof {
        lemma_cut_refl(m0);
        lemma_doors_on_walls_refl(m0, map_w as int, walls@);
    }
    let n = cycle.len();
    let mut i: usize = 0;
    while i < n
        invariant
            n == cycle@.len(),
            n >= 3,
            i <= n,
            ng == distinct_neighbors@.len(),
            m0 == old(map)@,
            c0 == *old(count) as int,
            forall|i: int, j: int| 0 <= i < j < cycle@.len() ==> #[trigger] cycle@[i] != #[trigger] cycle@[j],
            forall|i: int| 0 <= i < cycle@.len() ==> (#[trigger] cycle@[i]) < ng,
            pass_env(map@, map_w as int, walls@, slots@, table@, used_slots@, distinct_neighbors@, ng as int),
            rows(map@, map_w as int) == rows(m0, map_w as int),
            *count >= c0,
            doors_cut(m0, map@, *count - c0),
            doors_on_walls(m0, map@, map_w as int, walls@),
            count_ok(map@, *count as int),
            u0 == old(used_slots)@,
            d0 == old(distinct_neighbors)@,
            used_grows(u0, used_slots@),
            dn_grows(d0, distinct_neighbors@),
            forall|j: int| 0 <= j < i ==> #[trigger] edge_settled(table@, used_slots@, distinct_neighbors@,
                cycle@[j] as int, cycle@[(j + 1) % n as int] as int),
                *count == c0 ==> no_door_pass(m0, map@, map_w as int, walls@, slots@, u0, used_slots@, d0, distinct_neighbors@),
        decreases n - i,
    {
        let a = cycle[i];
        let b = cycle[(i + 1) % n];
        proof {
            let jj = (i + 1) % (n as int);
            if i + 1 < n {
                vstd::arithmetic::div_mod::lemma_small_mod((i + 1) as nat, n as nat);
            } else {
                vstd::arithmetic::div_mod::lemma_mod_self_0(n as int);
            }
            assert(jj != i as int);
            if jj > i as int {
                assert(cycle@[i as int] != cycle@[jj]);
            } else {
                assert(cycle@[jj] != cycle@[i as int]);
            }
        }
        let ghost m1 = map@;
        let ghost k1 = *count as int;
        let ghost u1 = used_slots@;
        let ghost d1 = distinct_neighbors@;
        let ok = try_place_edge(a, b, map, map_w, table, slots, walls, used_slots, distinct_neighbors, count);
        proof {
            lemma_after_place(m0, m1, map@, c0, k1, ok);
            lemma_doors_on_walls_trans(m0, m1, map@, map_w as int, walls@);
            lemma_grows_trans(u0, u1, used_slots@, d0, d1, distinct_neighbors@);
            if !ok && k1 == c0 {
                lemma_no_door_step(m0, map@, map_w as int, walls@, slots@, u0, u1, used_slots@, d0, d1, distinct_neighbors@);
            }
            assert forall|j: int| 0 <= j < i + 1 implies #[trigger] edge_settled(table@, used_slots@, distinct_neighbors@,
                cycle@[j] as int, cycle@[(j + 1) % n as int] as int) by {
                if j < i {
                    lemma_settled_mono(table@, u1, used_slots@, d1, distinct_neighbors@,
                        cycle@[j] as int, cycle@[(j + 1) % n as int] as int);
                }
            }
        }
        i = i + 1;
    }
}

/// Group `v` is where breadth-first attachment starts: on the cycle, or
/// group 0 when the cycle is empty.
pub open spec fn is_seed(cycle: Seq<usize>, v: int) -> bool {
    cycle.contains(v as usize) || (cycle.len() == 0 && v == 0)
}

/// Group `v` has a door neighbour, or every slot between it and some group
/// listing it as a graph neighbour has been tried.
pub open spec fn attach_settled(table: Seq<PairSlots>, used: Seq<bool>, dn: Seq<Vec<usize>>,
    adj: Seq<Vec<usize>>, v: int) -> bool {
    dn[v]@.len() >= 1 || exists|u: int| 0 <= u < adj.len() && #[trigger] adj[u]@.contains(v as usize)
        && pair_exhausted(table, used, v, u)
}

/// `att` holds the seeds, is closed under graph neighbours, and every group
/// in it but a seed is settled.
pub open spec fn attach_result(att: Set<int>, cycle: Seq<usize>, adj: Seq<Vec<usize>>, table: Seq<PairSlots>,
    used: Seq<bool>, dn: Seq<Vec<usize>>) -> bool {
    &&& forall|x: int| 0 <= x < adj.len() && #[trigger] is_seed(cycle, x) ==> att.contains(x)
    &&& forall|x: int, j: int| att.contains(x) && 0 <= j < adj[x]@.len() ==> att.contains(#[trigger] adj[x]@[j] as int)
    &&& forall|x: int| #[trigger] att.contains(x) ==> 0 <= x < adj.len()
        && (!is_seed(cycle, x) ==> attach_settled(table, used, dn, adj, x))
}

proof fn lemma_nonempty_grows(d1: Seq<Vec<usize>>, d2: Seq<Vec<usize>>, v: int)
    requires
        dn_grows(d1, d2),
        0 <= v < d1.len(),
        d1[v]@.len() >= 1,
    ensures
        d2[v]@.len() >= 1,
{
    assert(d1[v]@.contains(d1[v]@[0]));
    assert(d2[v]@.contains(d1[v]@[0]));
}

proof fn lemma_all_attach_mono(table: Seq<PairSlots>, u1: Seq<bool>, u2: Seq<bool>, d1: Seq<Vec<usize>>,
    d2: Seq<Vec<usize>>, adj: Seq<Vec<usize>>, attached: Seq<bool>, cycle: Seq<usize>, v: int)
    requires
        forall|x: int| 0 <= x < d1.len() && x != v && #[trigger] attached[x] && !is_seed(cycle, x) ==>
            attach_settled(table, u1, d1, adj, x),
        used_grows(u1, u2),
        dn_grows(d1, d2),
        table_ok(table, u1.len() as int),
    ensures
        forall|x: int| 0 <= x < d1.len() && x != v && #[trigger] attached[x] && !is_seed(cycle, x) ==>
            attach_settled(table, u2, d2, adj, x),
{
    assert forall|x: int| 0 <= x < d1.len() && x != v && #[trigger] attached[x] && !is_seed(cycle, x) implies
        attach_settled(table, u2, d2, adj, x) by {
        if d1[x]@.len() >= 1 {
            lemma_nonempty_grows(d1, d2, x);
        } else {
            let u = choose|u: int| 0 <= u < adj.len() && #[trigger] adj[u]@.contains(x as usize)
                && pair_exhausted(table, u1, x, u);
            lemma_exhausted_mono(table, u1, u2, x, u);
        }
    }
}

/// Attach the groups off the cycle, breadth first from the cycle (or from
/// group 0 when there is none): each newly reached group gets doors to up to
/// two already attached neighbours (or its parent), else one to its parent.
#[verifier::loop_isolation(false)]
fn attach_off_cycle(
    adj: &Vec<Vec<usize>>,
    cycle: &Vec<usize>,
    map: &mut Vec<Cell>,
    map_w: usize,
    table: &Vec<PairSlots>,
    slots: &[DoorSlot],
    walls: &[WallLine],
    used_slots: &mut Vec<bool>,
    distinct_neighbors: &mut Vec<Vec<usize>>,
    count: &mut usize,
)
    requires
        pass_env(old(map)@, map_w as int, walls@, slots@, table@, old(used_slots)@, old(distinct_neighbors)@,
            old(distinct_neighbors)@.len() as int),
        count_ok(old(map)@, *old(count) as int),
        adj_ok(adj@, old(distinct_neighbors)@.len() as int),
        forall|u: int, k: int| 0 <= u < adj@.len() && 0 <= k < adj@[u]@.len() ==> (#[trigger] adj@[u]@[k]) as int != u,
        old(distinct_neighbors)@.len() >= 1,
        forall|i: int| 0 <= i < cycle@.len() ==> (#[trigger] cycle@[i]) < old(distinct_neighbors)@.len(),
    ensures
        pass_env(final(map)@, map_w as int, walls@, slots@, table@, final(used_slots)@, final(distinct_neighbors)@,
            old(distinct_neighbors)@.len() as int),
        *final(count) >= *old(count),
        doors_cut(old(map)@, final(map)@, *final(count) - *old(count)),
        doors_on_walls(old(map)@, final(map)@, map_w as int, walls@),
        count_ok(final(map)@, *final(count) as int),
        used_grows(old(used_slots)@, final(used_slots)@),
        dn_grows(old(distinct_neighbors)@, final(distinct_neighbors)@),
        exists|att: Set<int>| #[trigger] attach_result(att, cycle@, adj@, table@, final(used_slots)@, final(distinct_neighbors)@),
        *final(count) == *old(count) ==> no_door_pass(old(map)@, final(map)@, map_w as int, walls@, slots@,
            old(used_slots)@, final(used_slots)@, old(distinct_neighbors)@, final(distinct_neighbors)@),
{
    let ghost m0 = map@;
    let ghost c0 = *count as int;
    let ghost u0 = used_slots@;
    let ghost d0 = distinct_neighbors@;
    let ng = distinct_neighbors.len();
    proof {
        lemma_cut_refl(m0);
        lemma_doors_on_walls_refl(m0, map_w as int, walls@);
    }
    let mut attached: Vec<bool> = vec![false; ng];
    let mut queue: Vec<usize> = Vec::new();
    let mut i: usize = 0;
    while i < cycle.len()
        invariant
            i <= cycle@.len(),
            attached@.len() == ng,
            queue@.len() == i,
            forall|k: int| 0 <= k < queue@.len() ==> (#[trigger] queue@[k]) < ng,
            queue@ == cycle@.subrange(0, i as int),
            forall|x: int| 0 <= x < ng ==> (#[trigger] attached@[x] <==> queue@.contains(x as usize)),
        decreases cycle@.len() - i,
    {
        let c = cycle[i];
        let ghost q0 = queue@;
        attached.set(c, true);
        queue.push(c);
        proof {
            lemma_push_contains(q0, c);
            assert(cycle@.subrange(0, i + 1) =~= cycle@.subrange(0, i as int).push(c));
        }
        i = i + 1;
    }
    proof {
        assert(queue@ =~= cycle@);
    }
    if cycle.len() == 0 {
        let ghost q0 = queue@;
        attached.set(0, true);
        queue.push(0);
        proof {
            lemma_push_contains(q0, 0);
        }
    }
    proof {
        assert forall|x: int| 0 <= x < ng && #[trigger] is_seed(cycle@, x) implies attached@[x] by {
            if cycle@.len() > 0 {
                assert(queue@ == cycle@);
            }
        }
        assert forall|x: int| 0 <= x < ng && #[trigger] attached@[x] implies is_seed(cycle@, x) by {
            if cycle@.len() > 0 {
                assert(queue@ == cycle@);
            } else {
                assert(queue@ =~= seq![0usize]);
                assert(queue@.contains(x as usize));
            }
        }
    }
    let ghost q0 = queue@.len();
    let ghost att0 = crate::union_find::marked(attached@);
    proof {
        vstd::set_lib::lemma_int_range(0, ng as int);
        assert(att0.subset_of(vstd::set_lib::set_int_range(0, ng as int)));
        vstd::set_lib::lemma_len_subset(att0, vstd::set_lib::set_int_range(0, ng as int));
    }
    let mut head: usize = 0;
    while head < queue.len()
        invariant
            ng == distinct_neighbors@.len(),
            attached@.len() == ng,
            head <= queue@.len(),
            forall|k: int| 0 <= k < queue@.len() ==> (#[trigger] queue@[k]) < ng,
            crate::union_find::marked(attached@).finite(),
            att0.subset_of(crate::union_find::marked(attached@)),
            crate::union_find::marked(attached@).len() <= ng,
            queue@.len() + att0.len() == q0 + crate::union_find::marked(attached@).len(),
            pass_env(map@, map_w as int, walls@, slots@, table@, used_slots@, distinct_neighbors@, ng as int),
            rows(map@, map_w as int) == rows(m0, map_w as int),
            *count >= c0,
            doors_cut(m0, map@, *count - c0),
            doors_on_walls(m0, map@, map_w as int, walls@),
            count_ok(map@, *count as int),
            used_grows(u0, used_slots@),
            dn_grows(d0, distinct_neighbors@),
            *count == c0 ==> no_door_pass(m0, map@, map_w as int, walls@, slots@, u0, used_slots@, d0, distinct_neighbors@),
            forall|x: int| 0 <= x < ng ==> (#[trigger] attached@[x] <==> queue@.contains(x as usize)),
            forall|x: int| 0 <= x < ng && #[trigger] is_seed(cycle@, x) ==> attached@[x],
            forall|x: int| 0 <= x < ng && #[trigger] attached@[x] && !is_seed(cycle@, x) ==>
                attach_settled(table@, used_slots@, distinct_neighbors@, adj@, x),
            forall|k: int, j: int| 0 <= k < head && 0 <= j < adj@[queue@[k] as int]@.len() ==>
                attached@[#[trigger] adj@[queue@[k] as int]@[j] as int],
        decreases q0 + ng - head,
    {
        let u = queue[head];
        head = head + 1;
        let mut j: usize = 0;
        while j < adj[u].len()
            invariant
                ng == distinct_neighbors@.len(),
                attached@.len() == ng,
                u < ng,
                head <= queue@.len(),
                j <= adj@[u as int]@.len(),
                forall|k: int| 0 <= k < queue@.len() ==> (#[trigger] queue@[k]) < ng,
                crate::union_find::marked(attached@).finite(),
                att0.subset_of(crate::union_find::marked(attached@)),
                crate::union_find::marked(attached@).len() <= ng,
                queue@.len() + att0.len() == q0 + crate::union_find::marked(attached@).len(),
                pass_env(map@, map_w as int, walls@, slots@, table@, used_slots@, distinct_neighbors@, ng as int),
                rows(map@, map_w as int) == rows(m0, map_w as int),
                *count >= c0,
                doors_cut(m0, map@, *count - c0),
                doors_on_walls(m0, map@, map_w as int, walls@),
                count_ok(map@, *count as int),
                used_grows(u0, used_slots@),
                dn_grows(d0, distinct_neighbors@),
                *count == c0 ==> no_door_pass(m0, map@, map_w as int, walls@, slots@, u0, used_slots@, d0, distinct_neighbors@),
                forall|x: int| 0 <= x < ng ==> (#[trigger] attached@[x] <==> queue@.contains(x as usize)),
                forall|x: int| 0 <= x < ng && #[trigger] is_seed(cycle@, x) ==> attached@[x],
                forall|x: int| 0 <= x < ng && #[trigger] attached@[x] && !is_seed(cycle@, x) ==>
                    attach_settled(table@, used_slots@, distinct_neighbors@, adj@, x),
                0 < head,
                u == queue@[head - 1],
                forall|k: int, j: int| 0 <= k < head - 1 && 0 <= j < adj@[queue@[k] as int]@.len() ==>
                    attached@[#[trigger] adj@[queue@[k] as int]@[j] as int],
                forall|jj: int| 0 <= jj < j ==> attached@[#[trigger] adj@[u as int]@[jj] as int],
            decreases adj@[u as int]@.len() - j,
        {
            let v = adj[u][j];
            j = j + 1;
            proof {
                assert(v < ng);
            }
            if !attached[v] {
                let ghost a_before = crate::union_find::marked(attached@);
                let ghost att_b = attached@;
                proof {
                    assert(!queue@.contains(v));
                    assert(!is_seed(cycle@, v as int));
                }
                attached.set(v, true);
                proof {
                    assert(crate::union_find::marked(attached@) =~= a_before.insert(v as int));
                    vstd::set_lib::lemma_int_range(0, ng as int);
                    assert(crate::union_find::marked(attached@).subset_of(vstd::set_lib::set_int_range(0, ng as int)));
                    vstd::set_lib::lemma_len_subset(crate::union_find::marked(attached@), vstd::set_lib::set_int_range(0, ng as int));
                }
                let mut placed_count: usize = 0;
                let nbrs = adj[v].clone();
                let mut k: usize = 0;
                while k < nbrs.len()
                    invariant
                        ng == distinct_neighbors@.len(),
                        attached@.len() == ng,
                        v < ng,
                        k <= nbrs@.len(),
                        nbrs@ == adj@[v as int]@,
                        placed_count <= 2,
                        pass_env(map@, map_w as int, walls@, slots@, table@, used_slots@, distinct_neighbors@, ng as int),
                        rows(map@, map_w as int) == rows(m0, map_w as int),
                        *count >= c0,
                        doors_cut(m0, map@, *count - c0),
                        doors_on_walls(m0, map@, map_w as int, walls@),
                        count_ok(map@, *count as int),
                        used_grows(u0, used_slots@),
                        dn_grows(d0, distinct_neighbors@),
                        *count == c0 ==> no_door_pass(m0, map@, map_w as int, walls@, slots@, u0, used_slots@, d0, distinct_neighbors@),
                        forall|x: int| 0 <= x < ng && x != v && #[trigger] attached@[x] && !is_seed(cycle@, x) ==>
                            attach_settled(table@, used_slots@, distinct_neighbors@, adj@, x),
                        placed_count >= 1 ==> distinct_neighbors@[v as int]@.len() >= 1,
                    decreases nbrs@.len() - k,
                {
                    let nbr = nbrs[k];
                    k = k + 1;
                    proof {
                        assert(nbr < ng);
                        assert(nbr != v);
                    }
                    if !attached[nbr] && nbr != u {
                        continue;
                    }
                    if list_contains(&distinct_neighbors[v], nbr) {
                        continue;
                    }
                    let ghost m1 = map@;
                    let ghost k1 = *count as int;
                    let ghost u1 = used_slots@;
                    let ghost d1 = distinct_neighbors@;
                    let ok = try_place_edge(v, nbr, map, map_w, table, slots, walls, used_slots, distinct_neighbors, count);
                    proof {
                        lemma_after_place(m0, m1, map@, c0, k1, ok);
                        lemma_doors_on_walls_trans(m0, m1, map@, map_w as int, walls@);
                        lemma_grows_trans(u0, u1, used_slots@, d0, d1, distinct_neighbors@);
                        if !ok && k1 == c0 {
                            lemma_no_door_step(m0, map@, map_w as int, walls@, slots@, u0, u1, used_slots@, d0, d1, distinct_neighbors@);
                        }
                        lemma_all_attach_mono(table@, u1, used_slots@, d1, distinct_neighbors@, adj@, attached@, cycle@, v as int);
                        if placed_count >= 1 {
                            lemma_nonempty_grows(d1, distinct_neighbors@, v as int);
                        }
                        if ok {
                            assert(distinct_neighbors@[v as int]@.contains(nbr));
                        }
                    }
                    if ok {
                        placed_count = placed_count + 1;
                        if placed_count >= 2 {
                            break;
                        }
                    }
                }
                if placed_count < 1 && !list_contains(&distinct_neighbors[v], u) {
                    proof {
                        assert(v != u);
                    }
                    let ghost m1 = map@;
                    let ghost k1 = *count as int;
                    let ghost u1 = used_slots@;
                    let ghost d1 = distinct_neighbors@;
                    let ok = try_place_edge(v, u, map, map_w, table, slots, walls, used_slots, distinct_neighbors, count);
                    proof {
                        lemma_after_place(m0, m1, map@, c0, k1, ok);
                        lemma_doors_on_walls_trans(m0, m1, map@, map_w as int, walls@);
                        lemma_grows_trans(u0, u1, used_slots@, d0, d1, distinct_neighbors@);
                        if !ok && k1 == c0 {
                            lemma_no_door_step(m0, map@, map_w as int, walls@, slots@, u0, u1, used_slots@, d0, d1, distinct_neighbors@);
                        }
                        lemma_all_attach_mono(table@, u1, used_slots@, d1, distinct_neighbors@, adj@, attached@, cycle@, v as int);
                        if ok {
                            assert(distinct_neighbors@[v as int]@.contains(u));
                        } else {
                            assert(adj@[u as int]@[j - 1] == v);
                            assert(adj@[u as int]@.contains(v));
                            assert(pair_exhausted(table@, used_slots@, v as int, u as int));
                        }
                    }
                } else {
                    proof {
                        if placed_count < 1 {
                            assert(distinct_neighbors@[v as int]@.contains(u));
                        }
                    }
                }
                proof {
                    assert(attach_settled(table@, used_slots@, distinct_neighbors@, adj@, v as int));
                }
                let ghost q0 = queue@;
                queue.push(v);
                proof {
                    lemma_push_contains(q0, v);
                }
            }
        }
    }
    proof {
        let att = Set::new(|x: int| 0 <= x < ng && attached@[x]);
        assert forall|x: int, j: int| att.contains(x) && 0 <= j < adj@[x]@.len() implies
            att.contains(#[trigger] adj@[x]@[j] as int) by {
            assert(queue@.contains(x as usize));
            let k = choose|k: int| 0 <= k < queue@.len() && queue@[k] == x as usize;
            assert(attached@[adj@[queue@[k] as int]@[j] as int]);
        }
        assert(attach_result(att, cycle@, adj@, table@, used_slots@, distinct_neighbors@));
    }
}

/// Whether any slot of the entry is unused.
fn has_untried(entry: &PairSlots, used_slots: &Vec<bool>) -> (r: bool)
    requires
        forall|t: int| 0 <= t < entry.slots@.len() ==> (#[trigger] entry.slots@[t]) < used_slots@.len(),
    ensures
        r == exists|t: int| 0 <= t < entry.slots@.len() && !used_slots@[#[trigger] entry.slots@[t] as int],
{
    let mut t: usize = 0;
    while t < entry.slots.len()
        invariant
            t <= entry.slots@.len(),
            forall|k: int| 0 <= k < entry.slots@.len() ==> (#[trigger] entry.slots@[k]) < used_slots@.len(),
            forall|k: int| 0 <= k < t ==> used_slots@[#[trigger] entry.slots@[k] as int],
        decreases entry.slots@.len() - t,
    {
        if !used_slots[entry.slots[t]] {
            return true;
        }
        t = t + 1;
    }
    false
}

/// Group `g` has two door neighbours, or every slot between it and each of
/// its graph neighbours has been tried.
pub open spec fn group_settled(table: Seq<PairSlots>, used: Seq<bool>, dn: Seq<Vec<usize>>,
    adj: Seq<Vec<usize>>, g: int) -> bool {
    dn[g]@.len() >= 2 || forall|j: int| 0 <= j < adj[g]@.len() ==>
        #[trigger] pair_exhausted(table, used, g, adj[g]@[j] as int)
}

proof fn lemma_all_settled_mono(table: Seq<PairSlots>, u1: Seq<bool>, u2: Seq<bool>, d1: Seq<Vec<usize>>,
    d2: Seq<Vec<usize>>, adj: Seq<Vec<usize>>, n: int)
    requires
        forall|g: int| 0 <= g < n ==> #[trigger] group_settled(table, u1, d1, adj, g),
        used_grows(u1, u2),
        table_ok(table, u1.len() as int),
        d1.len() == d2.len(),
        n <= d1.len(),
        forall|g: int| 0 <= g < d1.len() ==> #[trigger] d2[g]@ == d1[g]@,
    ensures
        forall|g: int| 0 <= g < n ==> #[trigger] group_settled(table, u2, d2, adj, g),
{
    assert forall|g: int| 0 <= g < n implies #[trigger] group_settled(table, u2, d2, adj, g) by {
        assert(group_settled(table, u1, d1, adj, g));
        assert(d2[g]@ == d1[g]@);
        if d1[g]@.len() < 2 {
            assert forall|j: int| 0 <= j < adj[g]@.len() implies
                #[trigger] pair_exhausted(table, u2, g, adj[g]@[j] as int) by {
                lemma_exhausted_mono(table, u1, u2, g, adj[g]@[j] as int);
            }
        }
    }
}

/// Group-level augmentation: every group should have doors to at least two
/// distinct groups; failing a new neighbour, a second door to an existing one
/// (from an untried slot) is cut.
#[verifier::loop_isolation(false)]
fn augment_groups(
    adj: &Vec<Vec<usize>>,
    map: &mut Vec<Cell>,
    map_w: usize,
    table: &Vec<PairSlots>,
    slots: &[DoorSlot],
    walls: &[WallLine],
    used_slots: &mut Vec<bool>,
    distinct_neighbors: &mut Vec<Vec<usize>>,
    count: &mut usize,
)
    requires
        pass_env(old(map)@, map_w as int, walls@, slots@, table@, old(used_slots)@, old(distinct_neighbors)@,
            old(distinct_neighbors)@.len() as int),
        count_ok(old(map)@, *old(count) as int),
        adj_ok(adj@, old(distinct_neighbors)@.len() as int),
        forall|u: int, k: int| 0 <= u < adj@.len() && 0 <= k < adj@[u]@.len() ==> (#[trigger] adj@[u]@[k]) as int != u,
    ensures
        pass_env(final(map)@, map_w as int, walls@, slots@, table@, final(used_slots)@, final(distinct_neighbors)@,
            old(distinct_neighbors)@.len() as int),
        *final(count) >= *old(count),
        doors_cut(old(map)@, final(map)@, *final(count) - *old(count)),
        doors_on_walls(old(map)@, final(map)@, map_w as int, walls@),
        count_ok(final(map)@, *final(count) as int),
        used_grows(old(used_slots)@, final(used_slots)@),
        dn_grows(old(distinct_neighbors)@, final(distinct_neighbors)@),
        forall|g: int| 0 <= g < old(distinct_neighbors)@.len() ==>
            #[trigger] group_settled(table@, final(used_slots)@, final(distinct_neighbors)@, adj@, g),
        *final(count) == *old(count) ==> no_door_pass(old(map)@, final(map)@, map_w as int, walls@, slots@,
            old(used_slots)@, final(used_slots)@, old(distinct_neighbors)@, final(distinct_neighbors)@),
{
    let ghost m0 = map@;
    let ghost c0 = *count as int;
    let ghost u0 = used_slots@;
    let ghost d0 = distinct_neighbors@;
    let ng = distinct_neighbors.len();
    proof {
        lemma_cut_refl(m0);
        lemma_doors_on_walls_refl(m0, map_w as int, walls@);
        lemma_non_doors_finite(map@);
    }
    loop
        invariant
            ng == distinct_neighbors@.len(),
            pass_env(map@, map_w as int, walls@, slots@, table@, used_slots@, distinct_neighbors@, ng as int),
            rows(map@, map_w as int) == rows(m0, map_w as int),
            *count >= c0,
            doors_cut(m0, map@, *count - c0),
            doors_on_walls(m0, map@, map_w as int, walls@),
            count_ok(map@, *count as int),
            used_grows(u0, used_slots@),
            dn_grows(d0, distinct_neighbors@),
            *count == c0 ==> no_door_pass(m0, map@, map_w as int, walls@, slots@, u0, used_slots@, d0, distinct_neighbors@),
        decreases non_doors(map@).len(),
    {
        let ghost nd_start = non_doors(map@).len();
        let mut progress = false;
        let mut node: usize = 0;
        while node < ng
            invariant
                ng == distinct_neighbors@.len(),
                node <= ng,
                pass_env(map@, map_w as int, walls@, slots@, table@, used_slots@, distinct_neighbors@, ng as int),
                rows(map@, map_w as int) == rows(m0, map_w as int),
                *count >= c0,
                doors_cut(m0, map@, *count - c0),
                doors_on_walls(m0, map@, map_w as int, walls@),
                count_ok(map@, *count as int),
                progress ==> non_doors(map@).len() < nd_start,
                !progress ==> non_doors(map@).len() <= nd_start,
                used_grows(u0, used_slots@),
                dn_grows(d0, distinct_neighbors@),
                *count == c0 ==> no_door_pass(m0, map@, map_w as int, walls@, slots@, u0, used_slots@, d0, distinct_neighbors@),
                !progress ==> forall|g: int| 0 <= g < node ==>
                    #[trigger] group_settled(table@, used_slots@, distinct_neighbors@, adj@, g),
            decreases ng - node,
        {
            loop
                invariant
                    ng == distinct_neighbors@.len(),
                    node < ng,
                    pass_env(map@, map_w as int, walls@, slots@, table@, used_slots@, distinct_neighbors@, ng as int),
                    rows(map@, map_w as int) == rows(m0, map_w as int),
                    *count >= c0,
                    doors_cut(m0, map@, *count - c0),
                    doors_on_walls(m0, map@, map_w as int, walls@),
                    count_ok(map@, *count as int),
                    progress ==> non_doors(map@).len() < nd_start,
                    !progress ==> non_doors(map@).len() <= nd_start,
                    used_grows(u0, used_slots@),
                    dn_grows(d0, distinct_neighbors@),
                    *count == c0 ==> no_door_pass(m0, map@, map_w as int, walls@, slots@, u0, used_slots@, d0, distinct_neighbors@),
                    !progress ==> forall|g: int| 0 <= g < node ==>
                        #[trigger] group_settled(table@, used_slots@, distinct_neighbors@, adj@, g),
                decreases non_doors(map@).len(),
            {
                if distinct_neighbors[node].len() >= 2 {
                    break;
                }
                let ghost nd_iter = non_doors(map@).len();
                let ghost prog0 = progress;
                let mut placed = false;
                let node_adj = adj[node].clone();
                // First pass: a door to a new neighbour.
                let mut k: usize = 0;
                while k < node_adj.len()
                    invariant
                        ng == distinct_neighbors@.len(),
                        node < ng,
                        k <= node_adj@.len(),
                        node_adj@ == adj@[node as int]@,
                        !placed,
                        progress == prog0,
                        prog0 ==> nd_iter < nd_start,
                        !prog0 ==> nd_iter <= nd_start,
                        pass_env(map@, map_w as int, walls@, slots@, table@, used_slots@, distinct_neighbors@, ng as int),
                        rows(map@, map_w as int) == rows(m0, map_w as int),
                        *count >= c0,
                        doors_cut(m0, map@, *count - c0),
                        doors_on_walls(m0, map@, map_w as int, walls@),
                        count_ok(map@, *count as int),
                        non_doors(map@).len() == nd_iter,
                        used_grows(u0, used_slots@),
                        dn_grows(d0, distinct_neighbors@),
                        *count == c0 ==> no_door_pass(m0, map@, map_w as int, walls@, slots@, u0, used_slots@, d0, distinct_neighbors@),
                        !progress ==> forall|g: int| 0 <= g < node ==>
                            #[trigger] group_settled(table@, used_slots@, distinct_neighbors@, adj@, g),
                    decreases node_adj@.len() - k,
                {
                    let nbr = node_adj[k];
                    k = k + 1;
                    proof {
                        assert(nbr < ng && nbr != node);
                    }
                    if list_contains(&distinct_neighbors[node], nbr) {
                        continue;
                    }
                    let ghost m1 = map@;
                    let ghost k1 = *count as int;
                    let ghost u1 = used_slots@;
                    let ghost d1 = distinct_neighbors@;
                    let ok = try_place_edge(node, nbr, map, map_w, table, slots, walls, used_slots, distinct_neighbors, count);
                    proof {
                        lemma_after_place(m0, m1, map@, c0, k1, ok);
                        lemma_doors_on_walls_trans(m0, m1, map@, map_w as int, walls@);
                        lemma_non_doors_finite(map@);
                        lemma_grows_trans(u0, u1, used_slots@, d0, d1, distinct_neighbors@);
                        if !ok && k1 == c0 {
                            lemma_no_door_step(m0, map@, map_w as int, walls@, slots@, u0, u1, used_slots@, d0, d1, distinct_neighbors@);
                        }
                        if !ok && !progress {
                            lemma_all_settled_mono(table@, u1, used_slots@, d1, distinct_neighbors@, adj@, node as int);
                        }
                    }
                    if ok {
                        placed = true;
                        progress = true;
                        break;
                    }
                }
                if placed {
                    continue;
                }
                // Second pass: a second door to an existing neighbour.
                let mut k: usize = 0;
                while k < node_adj.len()
                    invariant
                        ng == distinct_neighbors@.len(),
                        node < ng,
                        k <= node_adj@.len(),
                        node_adj@ == adj@[node as int]@,
                        progress == (prog0 || placed),
                        prog0 ==> nd_iter < nd_start,
                        !prog0 ==> nd_iter <= nd_start,
                        pass_env(map@, map_w as int, walls@, slots@, table@, used_slots@, distinct_neighbors@, ng as int),
                        rows(map@, map_w as int) == rows(m0, map_w as int),
                        *count >= c0,
                        doors_cut(m0, map@, *count - c0),
                        doors_on_walls(m0, map@, map_w as int, walls@),
                        count_ok(map@, *count as int),
                        !placed ==> non_doors(map@).len() == nd_iter,
                        placed ==> non_doors(map@).len() < nd_iter,
                        used_grows(u0, used_slots@),
                        dn_grows(d0, distinct_neighbors@),
                        *count == c0 ==> no_door_pass(m0, map@, map_w as int, walls@, slots@, u0, used_slots@, d0, distinct_neighbors@),
                        !progress ==> forall|g: int| 0 <= g < node ==>
                            #[trigger] group_settled(table@, used_slots@, distinct_neighbors@, adj@, g),
                        !placed ==> forall|j: int| 0 <= j < k ==>
                            #[trigger] pair_exhausted(table@, used_slots@, node as int, node_adj@[j] as int),
                    decreases node_adj@.len() - k,
                {
                    let nbr = node_adj[k];
                    k = k + 1;
                    let ghost pl0 = placed;
                    let (lo, hi) = if node < nbr { (node, nbr) } else { (nbr, node) };
                    proof {
                        assert(lo as int == vstd::math::min(node as int, nbr as int));
                        assert(hi as int == vstd::math::max(node as int, nbr as int));
                        lemma_pair_index(table@, lo as int, hi as int);
                    }
                    match find_pair(table, lo, hi) {
                        None => {
                            proof {
                                assert(pair_exhausted(table@, used_slots@, node as int, nbr as int));
                            }
                        },
                        Some(e) => {
                            proof {
                                lemma_pair_index(table@, lo as int, hi as int);
                            }
                            if has_untried(&table[e], used_slots) {
                                let ghost m1 = map@;
                                let ghost k1 = *count as int;
                                let ghost u1 = used_slots@;
                                let ok = try_place_pair_door(map, map_w, walls, slots, table[e].slots.as_slice(), used_slots);
                                if ok {
                                    *count = *count + 1;
                                }
                                proof {
                                    lemma_after_place(m0, m1, map@, c0, k1, ok);
                                    lemma_doors_on_walls_trans(m0, m1, map@, map_w as int, walls@);
                                    lemma_non_doors_finite(map@);
                                    lemma_grows_trans(u0, u1, used_slots@, d0, distinct_neighbors@, distinct_neighbors@);
                                    if !ok && k1 == c0 {
                                        lemma_no_door_step(m0, map@, map_w as int, walls@, slots@, u0, u1, used_slots@, d0,
                                            distinct_neighbors@, distinct_neighbors@);
                                    }
                                    if !ok {
                                        if !progress {
                                            lemma_all_settled_mono(table@, u1, used_slots@, distinct_neighbors@,
                                                distinct_neighbors@, adj@, node as int);
                                        }
                                        if !pl0 {
                                        assert forall|j: int| 0 <= j < k implies
                                            #[trigger] pair_exhausted(table@, used_slots@, node as int, node_adj@[j] as int) by {
                                            if j < k - 1 {
                                                lemma_exhausted_mono(table@, u1, used_slots@, node as int, node_adj@[j] as int);
                                            }
                                        }
                                        }
                                    }
                                }
                                if ok {
                                    placed = true;
                                    progress = true;
                                    break;
                                }
                            }
                        },
                    }
                    proof {
                        if !placed {
                            assert(pair_exhausted(table@, used_slots@, node as int, node_adj@[k - 1] as int));
                        }
                    }
                }
                proof {
                    if !progress {
                        assert(group_settled(table@, used_slots@, distinct_neighbors@, adj@, node as int));
                    }
                }
                // A second door to the same neighbour does not add a distinct
                // neighbour: move on to the next group either way.
                break;
            }
            node = node + 1;
        }
        if !progress {
            break;
        }
    }
}

/// Append `x` to `list` unless present.
fn push_once(list: &mut Vec<usize>, x: usize)
    ensures
        final(list)@ == add_once(old(list)@, x),
{
    if !list_contains(list, x) {
        list.push(x);
    }
}

/// Append `x` to the `i`-th list unless present.
fn push_once_at(lists: &mut Vec<Vec<usize>>, i: usize, x: usize)
    requires
        i < old(lists)@.len(),
    ensures
        final(lists)@.len() == old(lists)@.len(),
        final(lists)@[i as int]@ == add_once(old(lists)@[i as int]@, x),
        forall|j: int| 0 <= j < old(lists)@.len() && j != i ==> #[trigger] final(lists)@[j]@ == old(lists)@[j]@,
{
    let mut l = lists[i].clone();
    proof {
        assert(l@ =~= lists@[i as int]@);
    }
    push_once(&mut l, x);
    lists.set(i, l);
}

/// Whether leaf `li` has fewer than two connections (same-group passages
/// plus cross-group door neighbours).
fn leaf_short(sg: &Vec<Vec<usize>>, dl: &Vec<Vec<usize>>, li: usize) -> (r: bool)
    requires
        li < sg@.len(),
        li < dl@.len(),
    ensures
        r == (sg@[li as int]@.len() + dl@[li as int]@.len() < 2),
{
    (sg[li].len() as u128) + (dl[li].len() as u128) < 2
}

/// Neighbour leaves and walls recorded per leaf are in range.
pub open spec fn cg_ok(cg_n: Seq<Vec<usize>>, cg_w: Seq<Vec<usize>>, nl: int, nw: int) -> bool {
    forall|a: int, q: int| 0 <= a < nl && 0 <= q < cg_n[a]@.len() ==> (#[trigger] cg_n[a]@[q]) < nl && cg_w[a]@[q] < nw
}

/// Record a cross-group neighbour leaf `b` of leaf `a` across wall `wi`.
fn append_edge(cg_n: &mut Vec<Vec<usize>>, cg_w: &mut Vec<Vec<usize>>, a: usize, b: usize, wi: usize, nl: usize, nw: usize)
    requires
        a < old(cg_n)@.len(),
        old(cg_n)@.len() == nl,
        old(cg_w)@.len() == nl,
        b < nl,
        wi < nw,
        forall|x: int| 0 <= x < nl ==> (#[trigger] old(cg_n)@[x])@.len() == old(cg_w)@[x]@.len(),
        forall|x: int, k: int| 0 <= x < nl && 0 <= k < old(cg_n)@[x]@.len() ==>
            (#[trigger] old(cg_n)@[x]@[k]) < nl && old(cg_w)@[x]@[k] < nw,
    ensures
        final(cg_n)@.len() == nl,
        final(cg_w)@.len() == nl,
        forall|x: int| 0 <= x < nl ==> (#[trigger] final(cg_n)@[x])@.len() == final(cg_w)@[x]@.len(),
        forall|x: int, k: int| 0 <= x < nl && 0 <= k < final(cg_n)@[x]@.len() ==>
            (#[trigger] final(cg_n)@[x]@[k]) < nl && final(cg_w)@[x]@[k] < nw,
        final(cg_n)@[a as int]@ == old(cg_n)@[a as int]@.push(b),
        final(cg_w)@[a as int]@ == old(cg_w)@[a as int]@.push(wi),
        forall|x: int| 0 <= x < nl && x != a ==> #[trigger] final(cg_n)@[x]@ == old(cg_n)@[x]@ && final(cg_w)@[x]@ == old(cg_w)@[x]@,
{
    let ghost n0 = cg_n@;
    let ghost w0 = cg_w@;
    let mut ln = cg_n[a].clone();
    proof {
        assert(ln@ =~= n0[a as int]@);
    }
    ln.push(b);
    cg_n.set(a, ln);
    let mut lw = cg_w[a].clone();
    proof {
        assert(lw@ =~= w0[a as int]@);
    }
    lw.push(wi);
    cg_w.set(a, lw);
    proof {
        assert forall|x: int, k: int| 0 <= x < nl && 0 <= k < cg_n@[x]@.len() implies
            (#[trigger] cg_n@[x]@[k]) < nl && cg_w@[x]@[k] < nw by {
            if x == a as int {
                if k < n0[x]@.len() {
                    assert(cg_n@[x]@[k] == n0[x]@[k]);
                    assert(cg_w@[x]@[k] == w0[x]@[k]);
                }
            } else {
                assert(cg_n@[x] == n0[x]);
                assert(cg_w@[x] == w0[x]);
            }
        }
        assert forall|x: int| 0 <= x < nl implies (#[trigger] cg_n@[x])@.len() == cg_w@[x]@.len() by {
            if x != a as int {
                assert(cg_n@[x] == n0[x]);
                assert(cg_w@[x] == w0[x]);
            }
        }
    }
}

/// Leaves `a` and `b` face each other across wall `w`, in either order.
pub open spec fn facing_either(a: BspRect, b: BspRect, w: WallLine) -> bool {
    faces(a, b, w) || faces(b, a, w)
}

/// The range along wall `w` shared by leaves `a` and `b`.
pub open spec fn leaf_overlap(a: BspRect, b: BspRect, w: WallLine) -> (int, int) {
    match w {
        WallLine::Horizontal { y, x0, x1 } =>
            (vstd::math::max(a.x as int, b.x as int), vstd::math::min(a.x + a.w, b.x + b.w)),
        WallLine::Vertical { x, y0, y1 } =>
            (vstd::math::max(a.y as int, b.y as int), vstd::math::min(a.y + a.h, b.y + b.h)),
    }
}

/// Leaf `a` has no connection: every leaf facing it is of another group,
/// with no door on their shared range.
pub open spec fn leaf_isolated(map: Seq<Cell>, mw: int, h: int, leaves: Seq<BspRect>, walls: Seq<WallLine>,
    lg: Seq<usize>, a: int) -> bool {
    forall|b: int, w: int| 0 <= b < leaves.len() && 0 <= w < walls.len()
        && #[trigger] facing_either(leaves[a], leaves[b], walls[w]) ==>
        lg[a] != lg[b] && !door_on_overlap(map, mw, h, leaves[a], leaves[b], walls[w])
}

/// No door fits in the range shared by leaves `a` and `b` along wall `w`.
pub open spec fn leaf_door_fails(map: Seq<Cell>, mw: int, h: int, leaves: Seq<BspRect>, walls: Seq<WallLine>,
    lg: Seq<usize>, a: int, b: int, w: int) -> bool {
    let ov = leaf_overlap(leaves[a], leaves[b], walls[w]);
    ov.0 < ov.1 ==> slot_door(map, mw, h, walls, DoorSlot {
        group_lo: vstd::math::min(lg[a] as int, lg[b] as int) as usize,
        group_hi: vstd::math::max(lg[a] as int, lg[b] as int) as usize,
        wall_idx: w as usize,
        range_start: ov.0 as usize,
        range_end: ov.1 as usize,
    }) is None
}

/// Leaf `b` is listed, with wall `w`, among the cross-group neighbours of leaf `a`.
pub open spec fn cg_has(cg_n: Seq<Vec<usize>>, cg_w: Seq<Vec<usize>>, a: int, b: int, w: int) -> bool {
    exists|k: int| 0 <= k < cg_n[a]@.len() && #[trigger] cg_n[a]@[k] == b as usize && cg_w[a]@[k] == w as usize
}

/// Every leaf in `a`'s list faces `a` and is of its group.
pub open spec fn sg_sound(sg: Seq<Vec<usize>>, leaves: Seq<BspRect>, walls: Seq<WallLine>, lg: Seq<usize>, a: int) -> bool {
    forall|x: usize| #[trigger] sg[a]@.contains(x) ==> x < leaves.len() && lg[a] == lg[x as int]
        && exists|w: int| 0 <= w < walls.len() && #[trigger] facing_either(leaves[a], leaves[x as int], walls[w])
}

/// Every leaf in `a`'s list faces `a` with a door on their shared range.
pub open spec fn dl_sound(dl: Seq<Vec<usize>>, map: Seq<Cell>, mw: int, h: int, leaves: Seq<BspRect>,
    walls: Seq<WallLine>, a: int) -> bool {
    forall|x: usize| #[trigger] dl[a]@.contains(x) ==> x < leaves.len()
        && exists|w: int| 0 <= w < walls.len() && #[trigger] facing_either(leaves[a], leaves[x as int], walls[w])
            && door_on_overlap(map, mw, h, leaves[a], leaves[x as int], walls[w])
}

/// An isolated leaf `a` had a door tried, and failing, on every range it shares
/// with a listed cross-group neighbour.
pub open spec fn leaf_tried(map: Seq<Cell>, mw: int, h: int, leaves: Seq<BspRect>, walls: Seq<WallLine>,
    lg: Seq<usize>, cg_n: Seq<Vec<usize>>, cg_w: Seq<Vec<usize>>, a: int) -> bool {
    leaf_isolated(map, mw, h, leaves, walls, lg, a) ==> forall|k: int| 0 <= k < cg_n[a]@.len() ==>
        leaf_door_fails(map, mw, h, leaves, walls, lg, a, #[trigger] cg_n[a]@[k] as int, cg_w[a]@[k] as int)
}

/// A door on the shared range of two leaves stays there when cells only
/// ever turn into doors.
proof fn lemma_overlap_persists(m1: Seq<Cell>, m2: Seq<Cell>, w: int, h: int, a: BspRect, b: BspRect, wall: WallLine)
    requires
        door_on_overlap(m1, w, h, a, b, wall),
        m2.len() == m1.len(),
        m1.len() == w * h,
        forall|c: int| 0 <= c < m1.len() ==> #[trigger] m2[c] == m1[c] || m2[c] == door_of(m1[c]),
        rect_in_grid(a, w, h),
        wall_in(wall, w, h),
    ensures
        door_on_overlap(m2, w, h, a, b, wall),
{
    match wall {
        WallLine::Horizontal { y, x0, x1 } => {
            let x = choose|x: int| vstd::math::max(a.x as int, b.x as int) <= x < vstd::math::min(a.x + a.w, b.x + b.w)
                && #[trigger] ter(m1, w, x, y as int).spec_is_door();
            lemma_flat_in_range(x, y as int, w, h);
            assert(ter(m2, w, x, y as int).spec_is_door());
        },
        WallLine::Vertical { x, y0, y1 } => {
            let y = choose|y: int| vstd::math::max(a.y as int, b.y as int) <= y < vstd::math::min(a.y + a.h, b.y + b.h)
                && #[trigger] ter(m1, w, x as int, y).spec_is_door();
            lemma_flat_in_range(x as int, y, w, h);
            assert(ter(m2, w, x as int, y).spec_is_door());
        },
    }
}

/// A door cut from the slot of two leaves' shared range lies on that range.
proof fn lemma_slot_cut_overlap(map: Seq<Cell>, w: int, h: int, walls: Seq<WallLine>, slot: DoorSlot,
    a: BspRect, b: BspRect)
    requires
        grid_ok(map, w, h),
        slot_valid(slot, walls, w, h),
        slot_door(map, w, h, walls, slot) is Some,
        slot.range_start as int == leaf_overlap(a, b, walls[slot.wall_idx as int]).0,
        slot.range_end as int == leaf_overlap(a, b, walls[slot.wall_idx as int]).1,
    ensures
        door_on_overlap(slot_cut(map, w, h, walls, slot), w, h, a, b, walls[slot.wall_idx as int]),
{
    let wall = walls[slot.wall_idx as int];
    let (safe_s, safe_e, cand) = slot_window(slot, wall, w, h);
    let (horizontal, line, wall_end) = wall_line(wall);
    let p = slot_door(map, w, h, walls, slot)->0;
    lemma_first_door_ok(map, w, h, horizontal, line, safe_s, safe_e, cand, 0);
    lemma_first_door_ge(map, w, h, horizontal, line, safe_s, safe_e, cand, 0);
    assert(slot.range_start <= p && p < slot.range_end);
    let m2 = slot_cut(map, w, h, walls, slot);
    let c0 = line_cell(w, horizontal, line, p);
    let c1 = line_cell(w, horizontal, line, p + 1);
    match wall {
        WallLine::Horizontal { y, x0, x1 } => {
            lemma_flat_in_range(p, line, w, h);
            lemma_flat_in_range(p + 1, line, w, h);
            assert(c0 != c1);
            assert(m2[c0] == door_of(map[c0]));
            assert(ter(m2, w, p, y as int).spec_is_door());
        },
        WallLine::Vertical { x, y0, y1 } => {
            lemma_flat_in_range(line, p, w, h);
            lemma_flat_in_range(line, p + 1, w, h);
            assert(c0 != c1);
            assert(m2[c0] == door_of(map[c0]));
            assert(ter(m2, w, x as int, p).spec_is_door());
        },
    }
}

proof fn lemma_door_overlap_sym(map: Seq<Cell>, mw: int, h: int, a: BspRect, b: BspRect, w: WallLine)
    requires
        door_on_overlap(map, mw, h, a, b, w),
    ensures
        door_on_overlap(map, mw, h, b, a, w),
{
    match w {
        WallLine::Horizontal { y, x0, x1 } => {
            let x = choose|x: int| vstd::math::max(a.x as int, b.x as int) <= x < vstd::math::min(a.x + a.w, b.x + b.w)
                && #[trigger] ter(map, mw, x, y as int).spec_is_door();
            assert(vstd::math::max(b.x as int, a.x as int) <= x < vstd::math::min(b.x + b.w, a.x + a.w));
        },
        WallLine::Vertical { x, y0, y1 } => {
            let y = choose|y: int| vstd::math::max(a.y as int, b.y as int) <= y < vstd::math::min(a.y + a.h, b.y + b.h)
                && #[trigger] ter(map, mw, x as int, y).spec_is_door();
            assert(vstd::math::max(b.y as int, a.y as int) <= y < vstd::math::min(b.y + b.h, a.y + a.h));
        },
    }
}

proof fn lemma_cg_push_empty(n0: Seq<Vec<usize>>, w0: Seq<Vec<usize>>, n1: Seq<Vec<usize>>, w1: Seq<Vec<usize>>,
    nl: int, nw: int)
    requires
        n1.len() == n0.len() + 1,
        w1.len() == w0.len() + 1,
        n0.len() == w0.len(),
        forall|a: int| 0 <= a < n0.len() ==> #[trigger] n1[a]@ == n0[a]@ && w1[a]@ == w0[a]@,
        n1[n0.len() as int]@.len() == 0,
        w1[n0.len() as int]@.len() == 0,
        forall|a: int| 0 <= a < n0.len() ==> (#[trigger] n0[a])@.len() == w0[a]@.len(),
        forall|a: int, k: int| 0 <= a < n0.len() && 0 <= k < n0[a]@.len() ==>
            (#[trigger] n0[a]@[k]) < nl && w0[a]@[k] < nw,
    ensures
        forall|a: int| 0 <= a < n1.len() ==> (#[trigger] n1[a])@.len() == w1[a]@.len(),
        forall|a: int, k: int| 0 <= a < n1.len() && 0 <= k < n1[a]@.len() ==>
            (#[trigger] n1[a]@[k]) < nl && w1[a]@[k] < nw,
{
    assert forall|a: int| 0 <= a < n1.len() implies (#[trigger] n1[a])@.len() == w1[a]@.len() by {
        if a < n0.len() {
            assert(n1[a]@.len() == n0[a]@.len());
            assert(w1[a]@.len() == w0[a]@.len());
        }
    }
    assert forall|a: int, k: int| 0 <= a < n1.len() && 0 <= k < n1[a]@.len() implies
        (#[trigger] n1[a]@[k]) < nl && w1[a]@[k] < nw by {
        assert(a < n0.len());
        assert(n1[a]@[k] == n0[a]@[k]);
        assert(w1[a]@[k] == w0[a]@[k]);
    }
}

proof fn lemma_add_once_contains(l: Seq<usize>, x: usize)
    ensures
        forall|y: usize| #[trigger] add_once(l, x).contains(y) <==> (l.contains(y) || y == x),
{
    lemma_push_contains(l, x);
}

proof fn lemma_sg_push(sg0: Seq<Vec<usize>>, sg1: Seq<Vec<usize>>, leaves: Seq<BspRect>, walls: Seq<WallLine>,
    lg: Seq<usize>, i: int, x: usize, wi: int)
    requires
        forall|a: int| 0 <= a < sg0.len() ==> #[trigger] sg_sound(sg0, leaves, walls, lg, a),
        sg1.len() == sg0.len(),
        0 <= i < sg0.len(),
        sg1[i]@ == add_once(sg0[i]@, x),
        forall|j: int| 0 <= j < sg0.len() && j != i ==> #[trigger] sg1[j]@ == sg0[j]@,
        x < leaves.len(),
        lg[i] == lg[x as int],
        0 <= wi < walls.len(),
        facing_either(leaves[i], leaves[x as int], walls[wi]),
    ensures
        forall|a: int| 0 <= a < sg1.len() ==> #[trigger] sg_sound(sg1, leaves, walls, lg, a),
{
    assert forall|a: int| 0 <= a < sg1.len() implies #[trigger] sg_sound(sg1, leaves, walls, lg, a) by {
        assert(sg_sound(sg0, leaves, walls, lg, a));
        if a == i {
            lemma_add_once_contains(sg0[i]@, x);
            assert forall|y: usize| #[trigger] sg1[a]@.contains(y) implies y < leaves.len() && lg[a] == lg[y as int]
                && exists|w: int| 0 <= w < walls.len() && #[trigger] facing_either(leaves[a], leaves[y as int], walls[w]) by {
                if !sg0[i]@.contains(y) {
                    assert(y == x);
                    assert(facing_either(leaves[a], leaves[y as int], walls[wi]));
                }
            }
        } else {
            assert(sg1[a]@ == sg0[a]@);
        }
    }
}

proof fn lemma_dl_push(dl0: Seq<Vec<usize>>, dl1: Seq<Vec<usize>>, map: Seq<Cell>, mw: int, h: int,
    leaves: Seq<BspRect>, walls: Seq<WallLine>, i: int, x: usize, wi: int)
    requires
        forall|a: int| 0 <= a < dl0.len() ==> #[trigger] dl_sound(dl0, map, mw, h, leaves, walls, a),
        dl1.len() == dl0.len(),
        0 <= i < dl0.len(),
        dl1[i]@ == add_once(dl0[i]@, x),
        forall|j: int| 0 <= j < dl0.len() && j != i ==> #[trigger] dl1[j]@ == dl0[j]@,
        x < leaves.len(),
        0 <= wi < walls.len(),
        facing_either(leaves[i], leaves[x as int], walls[wi]),
        door_on_overlap(map, mw, h, leaves[i], leaves[x as int], walls[wi]),
    ensures
        forall|a: int| 0 <= a < dl1.len() ==> #[trigger] dl_sound(dl1, map, mw, h, leaves, walls, a),
{
    assert forall|a: int| 0 <= a < dl1.len() implies #[trigger] dl_sound(dl1, map, mw, h, leaves, walls, a) by {
        assert(dl_sound(dl0, map, mw, h, leaves, walls, a));
        if a == i {
            lemma_add_once_contains(dl0[i]@, x);
            assert forall|y: usize| #[trigger] dl1[a]@.contains(y) implies y < leaves.len()
                && exists|w: int| 0 <= w < walls.len() && #[trigger] facing_either(leaves[a], leaves[y as int], walls[w])
                    && door_on_overlap(map, mw, h, leaves[a], leaves[y as int], walls[w]) by {
                if !dl0[i]@.contains(y) {
                    assert(y == x);
                    assert(facing_either(leaves[a], leaves[y as int], walls[wi]));
                }
            }
        } else {
            assert(dl1[a]@ == dl0[a]@);
        }
    }
}

/// Every listed cross-group neighbour of a leaf faces it across the listed wall.
pub open spec fn cg_sound(cg_n: Seq<Vec<usize>>, cg_w: Seq<Vec<usize>>, leaves: Seq<BspRect>, walls: Seq<WallLine>,
    nl: int) -> bool {
    forall|a: int, k: int| 0 <= a < nl && 0 <= k < cg_n[a]@.len() ==>
        facing_either(leaves[a], leaves[(#[trigger] cg_n[a]@[k]) as int], walls[cg_w[a]@[k] as int])
}

proof fn lemma_cg_append_sound(n0: Seq<Vec<usize>>, w0: Seq<Vec<usize>>, n1: Seq<Vec<usize>>, w1: Seq<Vec<usize>>,
    leaves: Seq<BspRect>, walls: Seq<WallLine>, nl: int, a: int, b: usize, wi: usize)
    requires
        cg_sound(n0, w0, leaves, walls, nl),
        n0.len() == nl,
        n1.len() == nl,
        0 <= a < nl,
        n1[a]@ == n0[a]@.push(b),
        w1[a]@ == w0[a]@.push(wi),
        w0[a]@.len() == n0[a]@.len(),
        forall|x: int| 0 <= x < n0.len() && x != a ==> #[trigger] n1[x]@ == n0[x]@ && w1[x]@ == w0[x]@,
        facing_either(leaves[a], leaves[b as int], walls[wi as int]),
    ensures
        cg_sound(n1, w1, leaves, walls, nl),
{
    assert forall|x: int, k: int| 0 <= x < nl && 0 <= k < n1[x]@.len() implies
        facing_either(leaves[x], leaves[(#[trigger] n1[x]@[k]) as int], walls[w1[x]@[k] as int]) by {
        if x != a {
            assert(n1[x]@ == n0[x]@ && w1[x]@ == w0[x]@);
            assert(n0[x]@[k] == n1[x]@[k]);
        } else if k < n0[a]@.len() {
            assert(n1[a]@[k] == n0[a]@[k] && w1[a]@[k] == w0[a]@[k]);
            assert(n0[a]@[k] == n1[a]@[k]);
        }
    }
}

/// The door lists stay sound as cells only turn into doors.
proof fn lemma_dl_persist(dl: Seq<Vec<usize>>, m1: Seq<Cell>, m2: Seq<Cell>, w: int, h: int,
    leaves: Seq<BspRect>, walls: Seq<WallLine>)
    requires
        forall|a: int| 0 <= a < dl.len() ==> #[trigger] dl_sound(dl, m1, w, h, leaves, walls, a),
        m2.len() == m1.len(),
        m1.len() == w * h,
        forall|c: int| 0 <= c < m1.len() ==> #[trigger] m2[c] == m1[c] || m2[c] == door_of(m1[c]),
        forall|i: int| 0 <= i < leaves.len() ==> rect_in_grid(#[trigger] leaves[i], w, h),
        forall|i: int| 0 <= i < walls.len() ==> wall_in(#[trigger] walls[i], w, h),
        dl.len() <= leaves.len(),
    ensures
        forall|a: int| 0 <= a < dl.len() ==> #[trigger] dl_sound(dl, m2, w, h, leaves, walls, a),
{
    assert forall|a: int| 0 <= a < dl.len() implies #[trigger] dl_sound(dl, m2, w, h, leaves, walls, a) by {
        assert(dl_sound(dl, m1, w, h, leaves, walls, a));
        assert forall|x: usize| #[trigger] dl[a]@.contains(x) implies x < leaves.len()
            && exists|wi: int| 0 <= wi < walls.len() && #[trigger] facing_either(leaves[a], leaves[x as int], walls[wi])
                && door_on_overlap(m2, w, h, leaves[a], leaves[x as int], walls[wi]) by {
            let wi = choose|wi: int| 0 <= wi < walls.len() && #[trigger] facing_either(leaves[a], leaves[x as int], walls[wi])
                && door_on_overlap(m1, w, h, leaves[a], leaves[x as int], walls[wi]);
            lemma_overlap_persists(m1, m2, w, h, leaves[a], leaves[x as int], walls[wi]);
        }
    }
}

/// After a leaf-pair slot cut, the door lists stay sound, and a placed door
/// lies on the pair's shared range.
proof fn lemma_dl_keep_after_cut(dl: Seq<Vec<usize>>, m1: Seq<Cell>, m2: Seq<Cell>, w: int, h: int,
    leaves: Seq<BspRect>, walls: Seq<WallLine>, slot: DoorSlot, a: int, b: int, placed: bool)
    requires
        forall|x: int| 0 <= x < dl.len() ==> #[trigger] dl_sound(dl, m1, w, h, leaves, walls, x),
        dl.len() == leaves.len(),
        m1.len() == w * h,
        w > 0,
        grid_ok(m1, w, h),
        forall|i: int| 0 <= i < leaves.len() ==> rect_in_grid(#[trigger] leaves[i], w, h),
        forall|i: int| 0 <= i < walls.len() ==> wall_in(#[trigger] walls[i], w, h),
        slot_valid(slot, walls, w, h),
        placed == slot_door(m1, w, h, walls, slot) is Some,
        m2 == slot_cut(m1, w, h, walls, slot),
        doors_added(m1, m2, placed),
        0 <= a < leaves.len(),
        0 <= b < leaves.len(),
        slot.range_start as int == leaf_overlap(leaves[a], leaves[b], walls[slot.wall_idx as int]).0,
        slot.range_end as int == leaf_overlap(leaves[a], leaves[b], walls[slot.wall_idx as int]).1,
    ensures
        forall|x: int| 0 <= x < dl.len() ==> #[trigger] dl_sound(dl, m2, w, h, leaves, walls, x),
        placed ==> door_on_overlap(m2, w, h, leaves[a], leaves[b], walls[slot.wall_idx as int]),
{
    lemma_dl_persist(dl, m1, m2, w, h, leaves, walls);
    if placed {
        lemma_slot_cut_overlap(m1, w, h, walls, slot, leaves[a], leaves[b]);
    }
}

proof fn lemma_cg_append(n0: Seq<Vec<usize>>, w0: Seq<Vec<usize>>, n1: Seq<Vec<usize>>, w1: Seq<Vec<usize>>,
    a: int, b: usize, wi: usize)
    requires
        n0.len() == n1.len(),
        w0.len() == w1.len(),
        n0.len() == w0.len(),
        0 <= a < n0.len(),
        n1[a]@ == n0[a]@.push(b),
        w1[a]@ == w0[a]@.push(wi),
        forall|x: int| 0 <= x < n0.len() && x != a ==> #[trigger] n1[x]@ == n0[x]@ && w1[x]@ == w0[x]@,
        forall|x: int| 0 <= x < n0.len() ==> (#[trigger] n0[x])@.len() == w0[x]@.len(),
    ensures
        cg_has(n1, w1, a, b as int, wi as int),
        forall|p: int, q: int, r: int| 0 <= p < n0.len() && cg_has(n0, w0, p, q, r) ==> #[trigger] cg_has(n1, w1, p, q, r),
{
    assert(n1[a]@[n0[a]@.len() as int] == b);
    assert(w1[a]@[n0[a]@.len() as int] == wi);
    assert forall|p: int, q: int, r: int| 0 <= p < n0.len() && cg_has(n0, w0, p, q, r) implies #[trigger] cg_has(n1, w1, p, q, r) by {
        let k = choose|k: int| 0 <= k < n0[p]@.len() && #[trigger] n0[p]@[k] == q as usize && w0[p]@[k] == r as usize;
        if p == a {
            assert(n1[p]@[k] == n0[p]@[k]);
            assert(w1[p]@[k] == w0[p]@[k]);
        } else {
            assert(n1[p]@ == n0[p]@ && w1[p]@ == w0[p]@);
        }
    }
}

/// Leaf-level augmentation: every BSP leaf should have at least two
/// connections (same-group passages plus cross-group doors); a short leaf
/// gets doors to new cross-group neighbour leaves, else a second door to an
/// existing one.
#[verifier::loop_isolation(false)]
#[verifier::rlimit(100)]
#[verifier::spinoff_prover]
fn augment_leaves(
    leaves: &[BspRect],
    walls: &[WallLine],
    leaf_group: &[usize],
    map: &mut Vec<Cell>,
    map_w: usize,
    distinct_neighbors: &mut Vec<Vec<usize>>,
    count: &mut usize,
)
    requires
        map_ok(old(map)@, map_w as int),
        count_ok(old(map)@, *old(count) as int),
        leaf_group@.len() == leaves@.len(),
        forall|i: int| 0 <= i < leaves@.len() ==> (#[trigger] leaf_group@[i]) < old(distinct_neighbors)@.len(),
        forall|i: int| 0 <= i < leaves@.len() ==> rect_in_grid(#[trigger] leaves@[i], map_w as int, rows(old(map)@, map_w as int)),
        forall|i: int| 0 <= i < walls@.len() ==> wall_in(#[trigger] walls@[i], map_w as int, rows(old(map)@, map_w as int)),
    ensures
        map_ok(final(map)@, map_w as int),
        final(distinct_neighbors)@.len() == old(distinct_neighbors)@.len(),
        *final(count) >= *old(count),
        doors_cut(old(map)@, final(map)@, *final(count) - *old(count)),
        doors_on_walls(old(map)@, final(map)@, map_w as int, walls@),
        count_ok(final(map)@, *final(count) as int),
        *final(count) == *old(count) ==> final(map)@ == old(map)@,
        *final(count) == *old(count) ==> forall|a: int, b: int, wi: int|
            0 <= a < leaves@.len() && 0 <= b < leaves@.len() && 0 <= wi < walls@.len()
            && #[trigger] facing_either(leaves@[a], leaves@[b], walls@[wi])
            && leaf_isolated(old(map)@, map_w as int, rows(old(map)@, map_w as int), leaves@, walls@, leaf_group@, a)
            ==> leaf_door_fails(old(map)@, map_w as int, rows(old(map)@, map_w as int), leaves@, walls@, leaf_group@, a, b, wi),
        forall|a: int, b: int, wi: int|
            0 <= a < leaves@.len() && 0 <= b < leaves@.len() && 0 <= wi < walls@.len()
            && #[trigger] facing_either(leaves@[a], leaves@[b], walls@[wi])
            && leaf_isolated(final(map)@, map_w as int, rows(old(map)@, map_w as int), leaves@, walls@, leaf_group@, a)
            ==> leaf_door_fails(final(map)@, map_w as int, rows(old(map)@, map_w as int), leaves@, walls@, leaf_group@, a, b, wi),
{
    let ghost m0 = map@;
    let ghost c0 = *count as int;
    let ghost w = map_w as int;
    let ghost h = rows(map@, w);
    let ng = distinct_neighbors.len();
    proof {
        lemma_cut_refl(m0);
        lemma_doors_on_walls_refl(m0, map_w as int, walls@);
        lemma_map_ok(map@, w);
        assert forall|i: int| 0 <= i < leaves@.len() implies rect_fits(#[trigger] leaves@[i]) by {
            assert(rect_in_grid(leaves@[i], w, h));
        }
        assert forall|i: int| 0 <= i < walls@.len() implies wall_fits(#[trigger] walls@[i]) by {
            assert(wall_in(walls@[i], w, h));
        }
    }
    let leaf_edges = find_leaf_edges(leaves, walls);
    let nl = leaves.len();
    let mut sg: Vec<Vec<usize>> = Vec::new();
    let mut cg_n: Vec<Vec<usize>> = Vec::new();
    let mut cg_w: Vec<Vec<usize>> = Vec::new();
    let mut dl: Vec<Vec<usize>> = Vec::new();
    let mut i: usize = 0;
    while i < nl
        invariant
            i <= nl,
            sg@.len() == i,
            cg_n@.len() == i,
            cg_w@.len() == i,
            dl@.len() == i,
            forall|a: int| 0 <= a < i ==> (#[trigger] cg_n@[a])@.len() == cg_w@[a]@.len(),
            forall|a: int, k: int| 0 <= a < i && 0 <= k < cg_n@[a]@.len() ==>
                (#[trigger] cg_n@[a]@[k]) < nl && cg_w@[a]@[k] < walls@.len(),
            forall|a: int| 0 <= a < i ==> (#[trigger] sg@[a])@.len() == 0 && dl@[a]@.len() == 0,
            forall|a: int| 0 <= a < i ==> (#[trigger] cg_n@[a])@.len() == 0,
        decreases nl - i,
    {
        let ghost n0 = cg_n@;
        let ghost w0 = cg_w@;
        let ghost s0 = sg@;
        let ghost l0 = dl@;
        sg.push(Vec::new());
        cg_n.push(Vec::new());
        cg_w.push(Vec::new());
        dl.push(Vec::new());
        proof {
            lemma_cg_push_empty(n0, w0, cg_n@, cg_w@, nl as int, walls@.len() as int);
            assert(sg@[i as int]@.len() == 0);
            assert(dl@[i as int]@.len() == 0);
            assert forall|a: int| 0 <= a < i + 1 implies (#[trigger] cg_n@[a])@.len() == 0 by {
                if a < i {
                    assert(cg_n@[a] == n0[a]);
                }
            }
            assert forall|a: int| 0 <= a < i + 1 implies (#[trigger] sg@[a])@.len() == 0 && dl@[a]@.len() == 0 by {
                if a < i {
                    assert(sg@[a] == s0[a] && dl@[a] == l0[a]);
                    assert(s0[a]@.len() == 0 && l0[a]@.len() == 0);
                }
            }
        }
        i = i + 1;
    }
    proof {
        assert forall|a: int| 0 <= a < nl implies #[trigger] sg_sound(sg@, leaves@, walls@, leaf_group@, a) by {
            assert(sg@[a]@.len() == 0);
        }
        assert(cg_sound(cg_n@, cg_w@, leaves@, walls@, nl as int));
        assert forall|a: int| 0 <= a < nl implies #[trigger] dl_sound(dl@, m0, w, h, leaves@, walls@, a) by {
            assert(sg@[a]@.len() == 0);
            assert(dl@[a]@.len() == 0);
        }
    }
    let mut t: usize = 0;
    while t < leaf_edges.len()
        invariant
            t <= leaf_edges@.len(),
            sg@.len() == nl,
            cg_n@.len() == nl,
            cg_w@.len() == nl,
            dl@.len() == nl,
            forall|a: int| 0 <= a < nl ==> (#[trigger] cg_n@[a])@.len() == cg_w@[a]@.len(),
            cg_ok(cg_n@, cg_w@, nl as int, walls@.len() as int),
            map@ == m0,
            forall|a: int| 0 <= a < nl ==> #[trigger] sg_sound(sg@, leaves@, walls@, leaf_group@, a),
            forall|a: int| 0 <= a < nl ==> #[trigger] dl_sound(dl@, m0, w, h, leaves@, walls@, a),
            cg_sound(cg_n@, cg_w@, leaves@, walls@, nl as int),
            nl == leaves@.len(),
            forall|tt: int| 0 <= tt < t && leaf_group@[(#[trigger] leaf_edges@[tt]).a as int] != leaf_group@[leaf_edges@[tt].b as int] ==>
                cg_has(cg_n@, cg_w@, leaf_edges@[tt].a as int, leaf_edges@[tt].b as int, leaf_edges@[tt].wall_idx as int)
                && cg_has(cg_n@, cg_w@, leaf_edges@[tt].b as int, leaf_edges@[tt].a as int, leaf_edges@[tt].wall_idx as int),
        decreases leaf_edges@.len() - t,
    {
        let e = leaf_edges[t];
        proof {
            assert(leaf_edges@[t as int] == e);
            assert(faces(leaves@[e.a as int], leaves@[e.b as int], walls@[e.wall_idx as int]));
            assert(facing_either(leaves@[e.a as int], leaves@[e.b as int], walls@[e.wall_idx as int]));
            assert(facing_either(leaves@[e.b as int], leaves@[e.a as int], walls@[e.wall_idx as int]));
        }
        t = t + 1;
        let ghost n_s = cg_n@;
        let ghost w_s = cg_w@;
        if leaf_group[e.a] == leaf_group[e.b] {
            let ghost sg0 = sg@;
            push_once_at(&mut sg, e.a, e.b);
            proof {
                lemma_sg_push(sg0, sg@, leaves@, walls@, leaf_group@, e.a as int, e.b, e.wall_idx as int);
            }
            let ghost sg1 = sg@;
            push_once_at(&mut sg, e.b, e.a);
            proof {
                lemma_sg_push(sg1, sg@, leaves@, walls@, leaf_group@, e.b as int, e.a, e.wall_idx as int);
            }
        } else {
            let ghost n0 = cg_n@;
            let ghost w0 = cg_w@;
            append_edge(&mut cg_n, &mut cg_w, e.a, e.b, e.wall_idx, nl, walls.len());
            proof {
                lemma_cg_append(n0, w0, cg_n@, cg_w@, e.a as int, e.b, e.wall_idx);
                lemma_cg_append_sound(n0, w0, cg_n@, cg_w@, leaves@, walls@, nl as int, e.a as int, e.b, e.wall_idx);
            }
            let ghost n1 = cg_n@;
            let ghost w1 = cg_w@;
            append_edge(&mut cg_n, &mut cg_w, e.b, e.a, e.wall_idx, nl, walls.len());
            proof {
                lemma_cg_append(n1, w1, cg_n@, cg_w@, e.b as int, e.a, e.wall_idx);
                lemma_cg_append_sound(n1, w1, cg_n@, cg_w@, leaves@, walls@, nl as int, e.b as int, e.a, e.wall_idx);
            }
            if has_door_on_leaf_edge(map, map_w, &leaves[e.a], &leaves[e.b], &walls[e.wall_idx]) {
                proof {
                    lemma_door_overlap_sym(m0, w, h, leaves@[e.a as int], leaves@[e.b as int], walls@[e.wall_idx as int]);
                }
                let ghost dl0 = dl@;
                push_once_at(&mut dl, e.a, e.b);
                proof {
                    lemma_dl_push(dl0, dl@, m0, w, h, leaves@, walls@, e.a as int, e.b, e.wall_idx as int);
                }
                let ghost dl1 = dl@;
                push_once_at(&mut dl, e.b, e.a);
                proof {
                    lemma_dl_push(dl1, dl@, m0, w, h, leaves@, walls@, e.b as int, e.a, e.wall_idx as int);
                }
            }
        }
        proof {
            assert forall|tt: int| 0 <= tt < t && leaf_group@[(#[trigger] leaf_edges@[tt]).a as int] != leaf_group@[leaf_edges@[tt].b as int] implies
                cg_has(cg_n@, cg_w@, leaf_edges@[tt].a as int, leaf_edges@[tt].b as int, leaf_edges@[tt].wall_idx as int)
                && cg_has(cg_n@, cg_w@, leaf_edges@[tt].b as int, leaf_edges@[tt].a as int, leaf_edges@[tt].wall_idx as int) by {
                let et = leaf_edges@[tt];
                if tt < t - 1 {
                    assert(cg_has(n_s, w_s, et.a as int, et.b as int, et.wall_idx as int));
                    assert(cg_has(n_s, w_s, et.b as int, et.a as int, et.wall_idx as int));
                }
            }
        }
    }
    proof {
        assert forall|a: int, b: int, wi: int| 0 <= a < nl && 0 <= b < nl && 0 <= wi < walls@.len()
            && #[trigger] facing_either(leaves@[a], leaves@[b], walls@[wi]) && leaf_group@[a] != leaf_group@[b]
            implies cg_has(cg_n@, cg_w@, a, b, wi) by {
            if faces(leaves@[a], leaves@[b], walls@[wi]) {
                assert(has_edge(leaf_edges@, wi, a, b));
                let tt = choose|tt: int| 0 <= tt < leaf_edges@.len() && leaf_edges@[tt].wall_idx == wi
                    && leaf_edges@[tt].a == a && leaf_edges@[tt].b == b;
                assert(leaf_group@[leaf_edges@[tt].a as int] != leaf_group@[leaf_edges@[tt].b as int]);
            } else {
                assert(faces(leaves@[b], leaves@[a], walls@[wi]));
                assert(has_edge(leaf_edges@, wi, b, a));
                let tt = choose|tt: int| 0 <= tt < leaf_edges@.len() && leaf_edges@[tt].wall_idx == wi
                    && leaf_edges@[tt].a == b && leaf_edges@[tt].b == a;
                assert(leaf_group@[leaf_edges@[tt].a as int] != leaf_group@[leaf_edges@[tt].b as int]);
            }
        }
    }
    proof {
        lemma_non_doors_finite(map@);
    }
    loop
        invariant
            sg@.len() == nl,
            cg_n@.len() == nl,
            cg_w@.len() == nl,
            dl@.len() == nl,
            nl == leaves@.len(),
            ng == distinct_neighbors@.len(),
            forall|a: int| 0 <= a < nl ==> (#[trigger] cg_n@[a])@.len() == cg_w@[a]@.len(),
            cg_ok(cg_n@, cg_w@, nl as int, walls@.len() as int),
            map_ok(map@, w),
            rows(map@, w) == h,
            *count >= c0,
            doors_cut(m0, map@, *count - c0),
            doors_on_walls(m0, map@, map_w as int, walls@),
            count_ok(map@, *count as int),
            *count == c0 ==> map@ == m0,
            forall|a: int| 0 <= a < nl ==> #[trigger] dl_sound(dl@, map@, w, h, leaves@, walls@, a),
            cg_sound(cg_n@, cg_w@, leaves@, walls@, nl as int),
            map@.len() == w * h,
        decreases non_doors(map@).len(),
    {
        let ghost nd_start = non_doors(map@).len();
        let ghost m_p = map@;
        let ghost c_p = *count as int;
        let mut leaf_progress = false;
        let mut li: usize = 0;
        while li < nl
            invariant
                li <= nl,
                sg@.len() == nl,
                cg_n@.len() == nl,
            cg_w@.len() == nl,
                dl@.len() == nl,
                ng == distinct_neighbors@.len(),
                forall|a: int| 0 <= a < nl ==> (#[trigger] cg_n@[a])@.len() == cg_w@[a]@.len(),
            cg_ok(cg_n@, cg_w@, nl as int, walls@.len() as int),
                map_ok(map@, w),
                rows(map@, w) == h,
                *count >= c0,
                doors_cut(m0, map@, *count - c0),
                doors_on_walls(m0, map@, map_w as int, walls@),
                count_ok(map@, *count as int),
                *count == c0 ==> map@ == m0,
                forall|a: int| 0 <= a < nl ==> #[trigger] dl_sound(dl@, map@, w, h, leaves@, walls@, a),
                cg_sound(cg_n@, cg_w@, leaves@, walls@, nl as int),
                map@.len() == w * h,
                *count >= c_p,
                *count == c_p ==> map@ == m_p,
                !leaf_progress ==> *count == c_p,
                *count == c_p ==> forall|a: int| 0 <= a < li ==> #[trigger] leaf_tried(m_p, w, h, leaves@, walls@, leaf_group@, cg_n@, cg_w@, a),
                leaf_progress ==> non_doors(map@).len() < nd_start,
                !leaf_progress ==> non_doors(map@).len() <= nd_start,
            decreases nl - li,
        {
            let ghost dl_li = dl@;
            if !leaf_short(&sg, &dl, li) {
                proof {
                    if *count == c_p && leaf_isolated(m_p, w, h, leaves@, walls@, leaf_group@, li as int) {
                        if sg@[li as int]@.len() > 0 {
                            assert(sg_sound(sg@, leaves@, walls@, leaf_group@, li as int));
                            assert(sg@[li as int]@.contains(sg@[li as int]@[0]));
                        } else {
                            assert(dl_sound(dl@, map@, w, h, leaves@, walls@, li as int));
                            assert(dl@[li as int]@.contains(dl@[li as int]@[0]));
                        }
                    }
                }
                li = li + 1;
                continue;
            }
            let nbrs_li = cg_n[li].clone();
            let walls_li = cg_w[li].clone();
            // First pass: new cross-group neighbour leaves.
            let mut k: usize = 0;
            while k < nbrs_li.len()
                invariant
                    li < nl,
                    k <= nbrs_li@.len(),
                    nbrs_li@ == cg_n@[li as int]@,
                    walls_li@ == cg_w@[li as int]@,
                    sg@.len() == nl,
                    cg_n@.len() == nl,
            cg_w@.len() == nl,
                    dl@.len() == nl,
                    ng == distinct_neighbors@.len(),
                    forall|a: int| 0 <= a < nl ==> (#[trigger] cg_n@[a])@.len() == cg_w@[a]@.len(),
            cg_ok(cg_n@, cg_w@, nl as int, walls@.len() as int),
                    map_ok(map@, w),
                    rows(map@, w) == h,
                    *count >= c0,
                    doors_cut(m0, map@, *count - c0),
                    doors_on_walls(m0, map@, map_w as int, walls@),
                    count_ok(map@, *count as int),
                    *count == c0 ==> map@ == m0,
                    forall|a: int| 0 <= a < nl ==> #[trigger] dl_sound(dl@, map@, w, h, leaves@, walls@, a),
                    cg_sound(cg_n@, cg_w@, leaves@, walls@, nl as int),
                    map@.len() == w * h,
                    *count >= c_p,
                    *count == c_p ==> map@ == m_p,
                    !leaf_progress ==> *count == c_p,
                    *count == c_p ==> forall|a: int| 0 <= a < li ==> #[trigger] leaf_tried(m_p, w, h, leaves@, walls@, leaf_group@, cg_n@, cg_w@, a),
                    *count == c_p ==> dl@ == dl_li,
                    leaf_progress ==> non_doors(map@).len() < nd_start,
                    !leaf_progress ==> non_doors(map@).len() <= nd_start,
                decreases nbrs_li@.len() - k,
            {
                if !leaf_short(&sg, &dl, li) {
                    break;
                }
                let nbr = nbrs_li[k];
                let wall_idx = walls_li[k];
                k = k + 1;
                proof {
                    assert(cg_n@[li as int]@[k - 1] == nbrs_li@[k - 1]);
                }
                if list_contains(&dl[li], nbr) {
                    continue;
                }
                proof {
                    assert(rect_in_grid(leaves@[li as int], w, h));
                    assert(rect_in_grid(leaves@[nbr as int], w, h));
                    assert(wall_in(walls@[wall_idx as int], w, h));
                }
                match leaf_wall_overlap(&leaves[li], &leaves[nbr], &walls[wall_idx]) {
                    None => {},
                    Some((rs, re)) => {
                        let ga = leaf_group[li];
                        let gb = leaf_group[nbr];
                        let (lo, hi) = if ga < gb { (ga, gb) } else { (gb, ga) };
                        let slot = DoorSlot { group_lo: lo, group_hi: hi, wall_idx, range_start: rs, range_end: re };
                        let ghost m1 = map@;
                        let ghost k1 = *count as int;
                        let ok = cut_door_from_slot(map, map_w, walls, &slot);
                        proof {
                            lemma_dl_keep_after_cut(dl@, m1, map@, w, h, leaves@, walls@, slot, li as int, nbr as int, ok);
                        }
                        if ok {
                            let ghost d0 = dl@;
                            push_once_at(&mut dl, li, nbr);
                            proof {
                                lemma_dl_push(d0, dl@, map@, w, h, leaves@, walls@, li as int, nbr, wall_idx as int);
                                lemma_door_overlap_sym(map@, w, h, leaves@[li as int], leaves@[nbr as int], walls@[wall_idx as int]);
                            }
                            let ghost d1 = dl@;
                            push_once_at(&mut dl, nbr, li);
                            proof {
                                lemma_dl_push(d1, dl@, map@, w, h, leaves@, walls@, nbr as int, li, wall_idx as int);
                            }
                            push_once_at(distinct_neighbors, ga, gb);
                            push_once_at(distinct_neighbors, gb, ga);
                            *count = *count + 1;
                            leaf_progress = true;
                        }
                        proof {
                            lemma_after_place(m0, m1, map@, c0, k1, ok);
                            lemma_doors_on_walls_trans(m0, m1, map@, map_w as int, walls@);
                            lemma_non_doors_finite(map@);
                        }
                    },
                }
            }
            // Second pass: a second door to an existing neighbour leaf.
            if leaf_short(&sg, &dl, li) {
                let mut k: usize = 0;
                while k < nbrs_li.len()
                    invariant
                        li < nl,
                        k <= nbrs_li@.len(),
                        nbrs_li@ == cg_n@[li as int]@,
                        walls_li@ == cg_w@[li as int]@,
                        sg@.len() == nl,
                        cg_n@.len() == nl,
            cg_w@.len() == nl,
                        dl@.len() == nl,
                        ng == distinct_neighbors@.len(),
                        forall|a: int| 0 <= a < nl ==> (#[trigger] cg_n@[a])@.len() == cg_w@[a]@.len(),
            cg_ok(cg_n@, cg_w@, nl as int, walls@.len() as int),
                        map_ok(map@, w),
                        rows(map@, w) == h,
                        *count >= c0,
                        doors_cut(m0, map@, *count - c0),
                        doors_on_walls(m0, map@, map_w as int, walls@),
                        count_ok(map@, *count as int),
                        *count == c0 ==> map@ == m0,
                        forall|a: int| 0 <= a < nl ==> #[trigger] dl_sound(dl@, map@, w, h, leaves@, walls@, a),
                        cg_sound(cg_n@, cg_w@, leaves@, walls@, nl as int),
                        map@.len() == w * h,
                        *count >= c_p,
                        *count == c_p ==> map@ == m_p,
                        !leaf_progress ==> *count == c_p,
                        *count == c_p ==> forall|a: int| 0 <= a < li ==> #[trigger] leaf_tried(m_p, w, h, leaves@, walls@, leaf_group@, cg_n@, cg_w@, a),
                        *count == c_p ==> dl@ == dl_li,
                        leaf_progress ==> non_doors(map@).len() < nd_start,
                        !leaf_progress ==> non_doors(map@).len() <= nd_start,
                        *count == c_p ==> forall|kk: int| 0 <= kk < k ==>
                            leaf_door_fails(m_p, w, h, leaves@, walls@, leaf_group@, li as int,
                                #[trigger] nbrs_li@[kk] as int, walls_li@[kk] as int),
                    decreases nbrs_li@.len() - k,
                {
                    if !leaf_short(&sg, &dl, li) {
                        break;
                    }
                    let nbr = nbrs_li[k];
                    let wall_idx = walls_li[k];
                    k = k + 1;
                    proof {
                        assert(cg_n@[li as int]@[k - 1] == nbrs_li@[k - 1]);
                        assert(rect_in_grid(leaves@[li as int], w, h));
                        assert(rect_in_grid(leaves@[nbr as int], w, h));
                        assert(wall_in(walls@[wall_idx as int], w, h));
                    }
                    match leaf_wall_overlap(&leaves[li], &leaves[nbr], &walls[wall_idx]) {
                        None => {
                            proof {
                                assert(leaf_door_fails(m_p, w, h, leaves@, walls@, leaf_group@, li as int, nbr as int, wall_idx as int));
                            }
                        },
                        Some((rs, re)) => {
                            let ga = leaf_group[li];
                            let gb = leaf_group[nbr];
                            let (lo, hi) = if ga < gb { (ga, gb) } else { (gb, ga) };
                            let slot = DoorSlot { group_lo: lo, group_hi: hi, wall_idx, range_start: rs, range_end: re };
                            let ghost m1 = map@;
                            let ghost k1 = *count as int;
                            let ok = cut_door_from_slot(map, map_w, walls, &slot);
                            proof {
                                lemma_dl_keep_after_cut(dl@, m1, map@, w, h, leaves@, walls@, slot, li as int, nbr as int, ok);
                            }
                            if ok {
                                let ghost d0 = dl@;
                                push_once_at(&mut dl, li, nbr);
                                proof {
                                    lemma_dl_push(d0, dl@, map@, w, h, leaves@, walls@, li as int, nbr, wall_idx as int);
                                    lemma_door_overlap_sym(map@, w, h, leaves@[li as int], leaves@[nbr as int], walls@[wall_idx as int]);
                                }
                                let ghost d1 = dl@;
                                push_once_at(&mut dl, nbr, li);
                                proof {
                                    lemma_dl_push(d1, dl@, map@, w, h, leaves@, walls@, nbr as int, li, wall_idx as int);
                                }
                                *count = *count + 1;
                                leaf_progress = true;
                            }
                            proof {
                                lemma_after_place(m0, m1, map@, c0, k1, ok);
                                lemma_doors_on_walls_trans(m0, m1, map@, map_w as int, walls@);
                                lemma_non_doors_finite(map@);
                                if !ok && k1 == c_p {
                                    assert(lo as int == vstd::math::min(leaf_group@[li as int] as int, leaf_group@[nbr as int] as int));
                                    assert(hi as int == vstd::math::max(leaf_group@[li as int] as int, leaf_group@[nbr as int] as int));
                                    assert(leaf_door_fails(m_p, w, h, leaves@, walls@, leaf_group@, li as int, nbr as int, wall_idx as int));
                                }
                            }
                            if ok {
                                break;
                            }
                        },
                    }
                }
            }
            proof {
                if *count == c_p {
                    assert(dl@ == dl_li);
                    assert(leaf_tried(m_p, w, h, leaves@, walls@, leaf_group@, cg_n@, cg_w@, li as int));
                }
            }
            li = li + 1;
        }
        if !leaf_progress {
            proof {
                assert forall|a: int| 0 <= a < nl implies #[trigger] leaf_tried(map@, w, h, leaves@, walls@, leaf_group@, cg_n@, cg_w@, a) by {
                    assert(leaf_tried(m_p, w, h, leaves@, walls@, leaf_group@, cg_n@, cg_w@, a));
                }
            }
            break;
        }
    }
    proof {
        assert forall|a: int, b: int, wi: int|
            0 <= a < leaves@.len() && 0 <= b < leaves@.len() && 0 <= wi < walls@.len()
            && #[trigger] facing_either(leaves@[a], leaves@[b], walls@[wi])
            && leaf_isolated(map@, w, h, leaves@, walls@, leaf_group@, a)
            implies leaf_door_fails(map@, w, h, leaves@, walls@, leaf_group@, a, b, wi) by {
            assert(cg_has(cg_n@, cg_w@, a, b, wi));
            let k = choose|k: int| 0 <= k < cg_n@[a]@.len() && #[trigger] cg_n@[a]@[k] == b as usize && cg_w@[a]@[k] == wi as usize;
            assert(leaf_tried(map@, w, h, leaves@, walls@, leaf_group@, cg_n@, cg_w@, a));
        }
        if *count == c0 {
            assert forall|a: int, b: int, wi: int|
                0 <= a < leaves@.len() && 0 <= b < leaves@.len() && 0 <= wi < walls@.len()
                && #[trigger] facing_either(leaves@[a], leaves@[b], walls@[wi])
                && leaf_isolated(m0, w, h, leaves@, walls@, leaf_group@, a)
                implies leaf_door_fails(m0, w, h, leaves@, walls@, leaf_group@, a, b, wi) by {
                assert(cg_has(cg_n@, cg_w@, a, b, wi));
                let k = choose|k: int| 0 <= k < cg_n@[a]@.len() && #[trigger] cg_n@[a]@[k] == b as usize && cg_w@[a]@[k] == wi as usize;
                assert(leaf_door_fails(map@, w, h, leaves@, walls@, leaf_group@, a, b, wi));
            }
        }
    }
}

/// When a whole door pass cut nothing, no slot admits a door on the
/// original map: every slot was tried on it, since every group was left
/// with fewer than two door neighbours and so had all its pairs' slots tried.
proof fn lemma_no_door_found(m0: Seq<Cell>, w: int, leaves: Seq<BspRect>, walls: Seq<WallLine>,
    leaf_group: Seq<usize>, slots: Seq<DoorSlot>, table: Seq<PairSlots>, adj: Seq<Vec<usize>>, used: Seq<bool>,
    dn: Seq<Vec<usize>>, di: Seq<Vec<usize>>, ng: int)
    requires
        door_slots_of(slots, leaves, walls, leaf_group),
        forall|i: int| 0 <= i < leaf_group.len() ==> (#[trigger] leaf_group[i]) < ng,
        di.len() == ng,
        forall|x: int| 0 <= x < ng ==> (#[trigger] di[x])@.len() == 0,
        no_door_pass(m0, m0, w, walls, slots, Seq::new(slots.len(), |i: int| false), used, di, dn),
        used.len() == slots.len(),
        slots.len() <= usize::MAX,
        adj.len() == ng,
        forall|t: int| 0 <= t < slots.len() ==> #[trigger] has_entry(table, slots[t]),
        forall|e: int| 0 <= e < table.len() ==> entry_exact(#[trigger] table[e], slots, slots.len() as int),
        forall|e: int| 0 <= e < table.len() ==> adj[(#[trigger] table[e]).lo as int]@.contains(table[e].hi),
        forall|g: int| 0 <= g < ng ==> #[trigger] group_settled(table, used, dn, adj, g),
    ensures
        forall|t: int| 0 <= t < slots.len() ==> slot_door(m0, w, rows(m0, w), walls, #[trigger] slots[t]) is None,
{
    let u0 = Seq::new(slots.len(), |i: int| false);
    assert forall|t: int| 0 <= t < slots.len() implies slot_door(m0, w, rows(m0, w), walls, #[trigger] slots[t]) is None by {
        let s = slots[t];
        let lo = s.group_lo as int;
        let hi = s.group_hi as int;
        assert(leaf_group.contains(s.group_lo));
        let kl = choose|kl: int| 0 <= kl < leaf_group.len() && leaf_group[kl] == s.group_lo;
        assert(leaf_group[kl] < ng);
        assert(has_entry(table, s));
        let e = choose|e: int| 0 <= e < table.len() && #[trigger] same_pair(table[e], s);
        assert(adj[table[e].lo as int]@.contains(table[e].hi));
        let j = choose|j: int| 0 <= j < adj[lo]@.len() && adj[lo]@[j] == s.group_hi;
        assert(group_settled(table, used, dn, adj, lo));
        assert(dn[lo]@ == di[lo]@);
        assert(pair_exhausted(table, used, lo, adj[lo]@[j] as int));
        lemma_pair_index(table, lo, hi);
        let e2 = pair_index(table, lo, hi)->0;
        assert(same_pair(table[e2], s));
        assert(entry_exact(table[e2], slots, slots.len() as int));
        assert((t as usize) as int == t);
        assert(same_pair(table[e2], slots[(t as usize) as int]));
        assert(table[e2].slots@.contains(t as usize));
        let k = choose|k: int| 0 <= k < table[e2].slots@.len() && table[e2].slots@[k] == t as usize;
        assert(used[table[e2].slots@[k] as int]);
        assert(used[t] && !u0[t]);
    }
}

/// Every leaf left with no connection at all has no room for a door on any
/// range it shares with a facing leaf.
pub open spec fn leaves_saturated(map: Seq<Cell>, w: int, h: int, leaves: Seq<BspRect>, walls: Seq<WallLine>,
    lg: Seq<usize>) -> bool {
    forall|a: int, b: int, wi: int|
        0 <= a < leaves.len() && 0 <= b < leaves.len() && 0 <= wi < walls.len()
        && #[trigger] facing_either(leaves[a], leaves[b], walls[wi])
        && leaf_isolated(map, w, h, leaves, walls, lg, a)
        ==> leaf_door_fails(map, w, h, leaves, walls, lg, a, b, wi)
}

/// `m2` is `m1` with some cells turned into doors and some floor cells
/// turned into walls.
pub open spec fn grows_doors(m1: Seq<Cell>, m2: Seq<Cell>) -> bool {
    &&& m2.len() == m1.len()
    &&& forall|c: int| 0 <= c < m1.len() ==> #[trigger] m2[c] == m1[c] || m2[c].terrain.spec_is_door()
        || (m1[c].terrain == Terrain::Floor && m2[c].terrain == Terrain::Wall)
}

pub proof fn lemma_grows_doors_refl(m: Seq<Cell>)
    ensures
        grows_doors(m, m),
{
}

pub proof fn lemma_grows_doors_trans(m1: Seq<Cell>, m2: Seq<Cell>, m3: Seq<Cell>)
    requires
        grows_doors(m1, m2),
        grows_doors(m2, m3),
    ensures
        grows_doors(m1, m3),
{
    assert forall|c: int| 0 <= c < m1.len() implies #[trigger] m3[c] == m1[c] || m3[c].terrain.spec_is_door()
        || (m1[c].terrain == Terrain::Floor && m3[c].terrain == Terrain::Wall) by {
        assert(m2[c] == m1[c] || m2[c].terrain.spec_is_door() || (m1[c].terrain == Terrain::Floor && m2[c].terrain == Terrain::Wall));
        assert(m3[c] == m2[c] || m3[c].terrain.spec_is_door() || (m2[c].terrain == Terrain::Floor && m3[c].terrain == Terrain::Wall));
    }
}

proof fn lemma_door_near_mono(m1: Seq<Cell>, m2: Seq<Cell>, w: int, h: int, x: int, y: int, margin: int)
    requires
        grows_doors(m1, m2),
        m1.len() == w * h,
        door_near(m1, w, h, x, y, margin),
    ensures
        door_near(m2, w, h, x, y, margin),
{
    let (dx, dy) = choose|dx: int, dy: int| -margin <= dx <= margin && -margin <= dy <= margin
        && #[trigger] door_at(m1, w, h, x + dx, y + dy);
    lemma_flat_in_range(x + dx, y + dy, w, h);
    assert(door_at(m2, w, h, x + dx, y + dy));
}

proof fn lemma_door_cell_mono(m1: Seq<Cell>, m2: Seq<Cell>, w: int, h: int, horizontal: bool, line: int, p: int)
    requires
        grows_doors(m1, m2),
        m1.len() == w * h,
        0 <= p,
        horizontal ==> p < w,
        !horizontal ==> p < h,
        door_cell_ok(m2, w, h, horizontal, line, p),
    ensures
        door_cell_ok(m1, w, h, horizontal, line, p),
{
    if door_near(m1, w, h, if horizontal { p } else { line }, if horizontal { line } else { p }, MIN_DOOR_GAP as int) {
        lemma_door_near_mono(m1, m2, w, h, if horizontal { p } else { line }, if horizontal { line } else { p }, MIN_DOOR_GAP as int);
    }
    if horizontal {
        lemma_flat_in_range(p, line - 1, w, h);
        lemma_flat_in_range(p, line + 1, w, h);
    } else {
        lemma_flat_in_range(line - 1, p, w, h);
        lemma_flat_in_range(line + 1, p, w, h);
    }
}

proof fn lemma_first_door_mono(m1: Seq<Cell>, m2: Seq<Cell>, w: int, h: int, horizontal: bool, line: int,
    safe_s: int, safe_e: int, cand: int, k: int)
    requires
        grows_doors(m1, m2),
        m1.len() == w * h,
        0 <= safe_s <= cand,
        horizontal ==> safe_e <= w,
        !horizontal ==> safe_e <= h,
        first_door(m1, w, h, horizontal, line, safe_s, safe_e, cand, k) is None,
    ensures
        first_door(m2, w, h, horizontal, line, safe_s, safe_e, cand, k) is None,
    decreases probe_count(safe_s, safe_e) - k,
{
    if 0 <= k < probe_count(safe_s, safe_e) {
        match probe(cand, safe_s, safe_e, k) {
            Some(p) => {
                assert(p >= safe_s);
                if door_ok(m2, w, h, horizontal, line, safe_e, p) {
                    lemma_door_cell_mono(m1, m2, w, h, horizontal, line, p);
                    lemma_door_cell_mono(m1, m2, w, h, horizontal, line, p + 1);
                    assert(door_ok(m1, w, h, horizontal, line, safe_e, p));
                }
                lemma_first_door_mono(m1, m2, w, h, horizontal, line, safe_s, safe_e, cand, k + 1);
            },
            None => {
                lemma_first_door_mono(m1, m2, w, h, horizontal, line, safe_s, safe_e, cand, k + 1);
            },
        }
    }
}

/// A slot with no room for a door keeps none as cells only turn into doors
/// or floor into walls.
proof fn lemma_slot_door_mono(m1: Seq<Cell>, m2: Seq<Cell>, w: int, h: int, walls: Seq<WallLine>, slot: DoorSlot)
    requires
        grows_doors(m1, m2),
        m1.len() == w * h,
        slot_valid(slot, walls, w, h),
        slot_door(m1, w, h, walls, slot) is None,
    ensures
        slot_door(m2, w, h, walls, slot) is None,
{
    let wall = walls[slot.wall_idx as int];
    let (safe_s, safe_e, cand) = slot_window(slot, wall, w, h);
    let (horizontal, line, wall_end) = wall_line(wall);
    if safe_e > safe_s + DOOR_WIDTH {
        if first_door(m1, w, h, horizontal, line, safe_s, safe_e, cand, 0) is Some {
            lemma_first_door_ok(m1, w, h, horizontal, line, safe_s, safe_e, cand, 0);
        }
        lemma_first_door_mono(m1, m2, w, h, horizontal, line, safe_s, safe_e, cand, 0);
    }
}

/// A door on two leaves' shared range stays as cells only turn into doors
/// or floor into walls.
proof fn lemma_overlap_grows(m1: Seq<Cell>, m2: Seq<Cell>, w: int, h: int, a: BspRect, b: BspRect, wall: WallLine)
    requires
        door_on_overlap(m1, w, h, a, b, wall),
        grows_doors(m1, m2),
        m1.len() == w * h,
        rect_in_grid(a, w, h),
        wall_in(wall, w, h),
    ensures
        door_on_overlap(m2, w, h, a, b, wall),
{
    match wall {
        WallLine::Horizontal { y, x0, x1 } => {
            let x = choose|x: int| vstd::math::max(a.x as int, b.x as int) <= x < vstd::math::min(a.x + a.w, b.x + b.w)
                && #[trigger] ter(m1, w, x, y as int).spec_is_door();
            lemma_flat_in_range(x, y as int, w, h);
            assert(ter(m2, w, x, y as int).spec_is_door());
        },
        WallLine::Vertical { x, y0, y1 } => {
            let y = choose|y: int| vstd::math::max(a.y as int, b.y as int) <= y < vstd::math::min(a.y + a.h, b.y + b.h)
                && #[trigger] ter(m1, w, x as int, y).spec_is_door();
            lemma_flat_in_range(x as int, y, w, h);
            assert(ter(m2, w, x as int, y).spec_is_door());
        },
    }
}

/// Leaf saturation survives later doors and cover walls.
pub proof fn lemma_saturated_grows(m1: Seq<Cell>, m2: Seq<Cell>, w: int, h: int, leaves: Seq<BspRect>,
    walls: Seq<WallLine>, lg: Seq<usize>)
    requires
        leaves_saturated(m1, w, h, leaves, walls, lg),
        grows_doors(m1, m2),
        m1.len() == w * h,
        0 <= w <= usize::MAX,
        0 <= h <= usize::MAX,
        walls.len() <= usize::MAX,
        forall|i: int| 0 <= i < leaves.len() ==> rect_in_grid(#[trigger] leaves[i], w, h),
        forall|i: int| 0 <= i < walls.len() ==> wall_in(#[trigger] walls[i], w, h),
    ensures
        leaves_saturated(m2, w, h, leaves, walls, lg),
{
    assert forall|a: int, b: int, wi: int|
        0 <= a < leaves.len() && 0 <= b < leaves.len() && 0 <= wi < walls.len()
        && #[trigger] facing_either(leaves[a], leaves[b], walls[wi])
        && leaf_isolated(m2, w, h, leaves, walls, lg, a)
        implies leaf_door_fails(m2, w, h, leaves, walls, lg, a, b, wi) by {
        assert forall|b2: int, w2: int| 0 <= b2 < leaves.len() && 0 <= w2 < walls.len()
            && #[trigger] facing_either(leaves[a], leaves[b2], walls[w2]) implies
            lg[a] != lg[b2] && !door_on_overlap(m1, w, h, leaves[a], leaves[b2], walls[w2]) by {
            if door_on_overlap(m1, w, h, leaves[a], leaves[b2], walls[w2]) {
                lemma_overlap_grows(m1, m2, w, h, leaves[a], leaves[b2], walls[w2]);
            }
        }
        assert(leaf_isolated(m1, w, h, leaves, walls, lg, a));
        assert(leaf_door_fails(m1, w, h, leaves, walls, lg, a, b, wi));
        let ov = leaf_overlap(leaves[a], leaves[b], walls[wi]);
        if ov.0 < ov.1 {
            let slot = DoorSlot {
                group_lo: vstd::math::min(lg[a] as int, lg[b] as int) as usize,
                group_hi: vstd::math::max(lg[a] as int, lg[b] as int) as usize,
                wall_idx: wi as usize,
                range_start: ov.0 as usize,
                range_end: ov.1 as usize,
            };
            assert(rect_in_grid(leaves[a], w, h) && rect_in_grid(leaves[b], w, h));
            assert(wall_in(walls[wi], w, h));
            assert(slot_valid(slot, walls, w, h));
            lemma_slot_door_mono(m1, m2, w, h, walls, slot);
        }
    }
}

/// With no door slot at all, every facing pair of leaves of different
/// groups shares no stretch of wall, so no door fits between them.
proof fn lemma_no_slots_saturated(map: Seq<Cell>, w: int, h: int, leaves: Seq<BspRect>, walls: Seq<WallLine>,
    lg: Seq<usize>)
    requires
        door_slots_of(Seq::empty(), leaves, walls, lg),
        lg.len() == leaves.len(),
        0 <= w <= usize::MAX,
        0 <= h <= usize::MAX,
        walls.len() <= usize::MAX,
        forall|i: int| 0 <= i < leaves.len() ==> rect_in_grid(#[trigger] leaves[i], w, h),
    ensures
        leaves_saturated(map, w, h, leaves, walls, lg),
{
    let empty: Seq<DoorSlot> = Seq::empty();
    assert forall|a: int, b: int, wi: int|
        0 <= a < leaves.len() && 0 <= b < leaves.len() && 0 <= wi < walls.len()
        && #[trigger] facing_either(leaves[a], leaves[b], walls[wi])
        && leaf_isolated(map, w, h, leaves, walls, lg, a)
        implies leaf_door_fails(map, w, h, leaves, walls, lg, a, b, wi) by {
        assert(facing_either(leaves[a], leaves[b], walls[wi]));
        assert(lg[a] != lg[b] && !door_on_overlap(map, w, h, leaves[a], leaves[b], walls[wi]));
        if faces(leaves[a], leaves[b], walls[wi]) {
            if door_pair(leaves[a], leaves[b], lg[a] as int, lg[b] as int, walls[wi]) {
                assert(slot_covers(empty, wi,
                    vstd::math::min(lg[a] as int, lg[b] as int), vstd::math::max(lg[a] as int, lg[b] as int),
                    clipped_overlap(leaves[a], leaves[b], walls[wi]).0, clipped_overlap(leaves[a], leaves[b], walls[wi]).1));
            }
        } else {
            assert(faces(leaves[b], leaves[a], walls[wi]));
            if door_pair(leaves[b], leaves[a], lg[b] as int, lg[a] as int, walls[wi]) {
                assert(slot_covers(empty, wi,
                    vstd::math::min(lg[b] as int, lg[a] as int), vstd::math::max(lg[b] as int, lg[a] as int),
                    clipped_overlap(leaves[b], leaves[a], walls[wi]).0, clipped_overlap(leaves[b], leaves[a], walls[wi]).1));
            }
        }
        assert(clipped_overlap(leaves[a], leaves[b], walls[wi]).0 >= clipped_overlap(leaves[a], leaves[b], walls[wi]).1);
        let ov = leaf_overlap(leaves[a], leaves[b], walls[wi]);
        if ov.0 < ov.1 {
            assert(rect_in_grid(leaves[a], w, h) && rect_in_grid(leaves[b], w, h));
            let slot = DoorSlot {
                group_lo: vstd::math::min(lg[a] as int, lg[b] as int) as usize,
                group_hi: vstd::math::max(lg[a] as int, lg[b] as int) as usize,
                wall_idx: wi as usize,
                range_start: ov.0 as usize,
                range_end: ov.1 as usize,
            };
            assert(slot.range_start as int == ov.0 && slot.range_end as int == ov.1);
            let win = slot_window(slot, walls[wi], w, h);
            assert(win.1 <= win.0 + DOOR_WIDTH);
        }
    }
}

/// Cut doors between room groups, cycle first: doors along a Hamiltonian
/// cycle of the group graph if there is one, else along a longest cycle with
/// the remaining groups attached breadth first; then every group is given
/// doors to two distinct groups where possible, and every leaf two
/// connections. Returns the number of doors cut; every changed cell became an
/// open door, two per door.
pub fn cut_doors(
    map: &mut Vec<Cell>,
    map_w: usize,
    leaves: &[BspRect],
    walls: &[WallLine],
    leaf_group: &[usize],
    num_groups: usize,
) -> (count: usize)
    requires
        num_groups > 1 ==> map_ok(old(map)@, map_w as int),
        num_groups > 1 ==> leaf_group@.len() == leaves@.len(),
        num_groups > 1 ==> forall|i: int| 0 <= i < leaves@.len() ==> (#[trigger] leaf_group@[i]) < num_groups,
        num_groups > 1 ==> forall|i: int| 0 <= i < leaves@.len() ==>
            rect_in_grid(#[trigger] leaves@[i], map_w as int, rows(old(map)@, map_w as int)),
        num_groups > 1 ==> forall|i: int| 0 <= i < walls@.len() ==>
            wall_in(#[trigger] walls@[i], map_w as int, rows(old(map)@, map_w as int)),
    ensures
        doors_cut(old(map)@, final(map)@, count as int),
        num_groups <= 1 ==> count == 0 && final(map)@ == old(map)@,
        doors_on_walls(old(map)@, final(map)@, map_w as int, walls@),
        num_groups > 1 ==> exists|slots: Seq<DoorSlot>| #[trigger] door_slots_of(slots, leaves@, walls@, leaf_group@)
            && (count == 0 ==> forall|t: int| 0 <= t < slots.len() ==>
                slot_door(old(map)@, map_w as int, rows(old(map)@, map_w as int), walls@, #[trigger] slots[t]) is None)
            && (slots.len() > 0 ==> leaves_saturated(final(map)@, map_w as int, rows(old(map)@, map_w as int),
                leaves@, walls@, leaf_group@)),
        num_groups > 1 ==> leaves_saturated(final(map)@, map_w as int, rows(old(map)@, map_w as int),
            leaves@, walls@, leaf_group@),
{
    let ghost m0 = map@;
    let ghost w = map_w as int;
    let ghost h = rows(map@, w);
    proof {
        lemma_cut_refl(m0);
        lemma_doors_on_walls_refl(m0, map_w as int, walls@);
    }
    if num_groups <= 1 {
        return 0;
    }
    proof {
        lemma_map_ok(map@, w);
        lemma_non_doors_finite(map@);
        assert forall|i: int| 0 <= i < leaves@.len() implies rect_fits(#[trigger] leaves@[i]) by {
            assert(rect_in_grid(leaves@[i], w, h));
        }
        assert forall|i: int| 0 <= i < walls@.len() implies wall_fits(#[trigger] walls@[i]) by {
            assert(wall_in(walls@[i], w, h));
        }
    }
    // Phase 1: all possible door placements, grouped by group pair.
    let slots = collect_door_slots(leaves, walls, leaf_group);
    let n_walls = walls.len();
    if slots.len() == 0 {
        proof {
            assert(walls@.len() == n_walls);
            assert(door_slots_of(slots@, leaves@, walls@, leaf_group@));
            assert(slots@ =~= Seq::<DoorSlot>::empty());
            assert(h <= map@.len()) by {
                vstd::arithmetic::div_mod::lemma_div_is_ordered_by_denominator(map@.len() as int, 1, w);
            }
            lemma_no_slots_saturated(map@, w, h, leaves@, walls@, leaf_group@);
        }
        return 0;
    }
    proof {
        assert forall|t: int| 0 <= t < slots@.len() implies slot_valid(#[trigger] slots@[t], walls@, w, h) by {
            let s = slots@[t];
            assert(wall_in(walls@[s.wall_idx as int], w, h));
        }
        assert forall|t: int| 0 <= t < slots@.len() implies (#[trigger] slots@[t]).range_start <= slots@[t].range_end by {}
    }
    let table = build_pair_table(slots.as_slice());
    proof {
        assert forall|e: int| 0 <= e < table@.len() implies (#[trigger] table@[e]).lo < table@[e].hi < num_groups by {
            assert(pair_has_slot(table@[e], slots@));
            let t = choose|t: int| 0 <= t < slots@.len() && #[trigger] same_pair(table@[e], slots@[t]);
            let s = slots@[t];
            assert(leaf_group@.contains(s.group_hi));
            let k = choose|k: int| 0 <= k < leaf_group@.len() && leaf_group@[k] == s.group_hi;
            assert(leaf_group@[k] < num_groups);
        }
    }
    let adj = build_adjacency(&table, num_groups);
    let mut used_slots: Vec<bool> = vec![false; slots.len()];
    let mut distinct_neighbors: Vec<Vec<usize>> = Vec::new();
    let mut g: usize = 0;
    while g < num_groups
        invariant
            g <= num_groups,
            distinct_neighbors@.len() == g,
            forall|x: int| 0 <= x < g ==> (#[trigger] distinct_neighbors@[x])@.len() == 0,
        decreases num_groups - g,
    {
        distinct_neighbors.push(Vec::new());
        g = g + 1;
    }
    let mut count: usize = 0;
    // Phase 2: doors along a Hamiltonian cycle, else a longest cycle plus
    // the groups off it.
    let ghost m1 = map@;
    let ghost ui = used_slots@;
    let ghost di = distinct_neighbors@;
    proof {
        assert(ui =~= Seq::new(slots@.len(), |i: int| false));
        assert(no_door_pass(m0, map@, w, walls@, slots@, ui, used_slots@, di, distinct_neighbors@));
        assert(used_grows(ui, used_slots@));
        assert(dn_grows(di, distinct_neighbors@));
    }
    match find_hamiltonian_cycle(&adj, num_groups) {
        Some(cycle) => {
            connect_cycle(&cycle, map, map_w, &table, slots.as_slice(), walls, &mut used_slots,
                &mut distinct_neighbors, &mut count);
            proof {
                lemma_doors_on_walls_trans(m0, m1, map@, w, walls@);
            }
        },
        None => {
            let longest = find_longest_cycle(&adj, num_groups);
            proof {
                if longest@.len() > 0 {
                    assert(is_cycle(adj@, num_groups as int, longest@));
                }
            }
            if longest.len() >= 3 {
                connect_cycle(&longest, map, map_w, &table, slots.as_slice(), walls, &mut used_slots,
                    &mut distinct_neighbors, &mut count);
            }
            let ghost m2 = map@;
            let ghost k2 = count as int;
            let ghost u2 = used_slots@;
            let ghost d2 = distinct_neighbors@;
            attach_off_cycle(&adj, &longest, map, map_w, &table, slots.as_slice(), walls, &mut used_slots,
                &mut distinct_neighbors, &mut count);
            proof {
                if longest@.len() >= 3 {
                    lemma_doors_on_walls_trans(m0, m1, m2, w, walls@);
                }
                lemma_doors_on_walls_trans(m0, m2, map@, w, walls@);
                lemma_cut_trans(m0, m2, map@, k2, count - k2);
                lemma_grows_trans(ui, u2, used_slots@, di, d2, distinct_neighbors@);
                if count == 0 {
                    lemma_no_door_trans(m0, w, walls@, slots@, ui, u2, used_slots@, di, d2, distinct_neighbors@);
                }
            }
        },
    }
    // Phase 3: group-level augmentation.
    let ghost m3 = map@;
    let ghost k3 = count as int;
    let ghost u3 = used_slots@;
    let ghost d3 = distinct_neighbors@;
    proof {
        assert(used_grows(ui, u3));
        assert(k3 == 0 ==> no_door_pass(m0, m3, w, walls@, slots@, ui, u3, di, d3));
    }
    augment_groups(&adj, map, map_w, &table, slots.as_slice(), walls, &mut used_slots,
        &mut distinct_neighbors, &mut count);
    proof {
        lemma_doors_on_walls_trans(m0, m3, map@, w, walls@);
        lemma_cut_trans(m0, m3, map@, k3, count - k3);
        if count == 0 {
            lemma_no_door_trans(m0, w, walls@, slots@, ui, u3, used_slots@, di, d3, distinct_neighbors@);
            lemma_no_door_found(m0, w, leaves@, walls@, leaf_group@, slots@, table@, adj@, used_slots@,
                distinct_neighbors@, di, num_groups as int);
        }
    }
    // Phase 4: leaf-level augmentation.
    let ghost m4 = map@;
    let ghost k4 = count as int;
    augment_leaves(leaves, walls, leaf_group, map, map_w, &mut distinct_neighbors, &mut count);
    proof {
        lemma_doors_on_walls_trans(m0, m4, map@, w, walls@);
        lemma_cut_trans(m0, m4, map@, k4, count - k4);
        assert(door_slots_of(slots@, leaves@, walls@, leaf_group@));
        assert(leaves_saturated(map@, w, h, leaves@, walls@, leaf_group@));
        if count == 0 {
            assert(k4 == 0);
            assert(forall|t: int| 0 <= t < slots@.len() ==>
                slot_door(m0, w, rows(m0, w), walls@, #[trigger] slots@[t]) is None);
        }
    }
    count
}

} // verus!
