//! Procedural map generation: BSP subdivision, leaf merging, door cutting,
//! void sealing and cellular-automaton cover walls.

use vstd::prelude::*;
use crate::cell::{
    Cell, Terrain, grid_ok, in_grid, flat, cpos, open_at, reachable, reach_set, walkable_set,
    floor_connected, adj_closed, lemma_flat_in_range, lemma_unflat, lemma_reach_refl,
    lemma_reach_step, lemma_closed_contains_reach, lemma_connected_from, lemma_reach_end_open,
    adjacent, is_walk, lemma_reach_symm, lemma_reach_trans, lemma_flat_injective,
};
use crate::bsp::rects_disjoint;

verus! {

/// Row count of a map stored row-major with `w` columns.
pub open spec fn rows(map: Seq<Cell>, w: int) -> int {
    (map.len() as int) / w
}

/// A map of `w` columns whose length is a whole number of rows and fits
/// 32-bit coordinates.
pub open spec fn map_ok(map: Seq<Cell>, w: int) -> bool {
    &&& 0 < w <= i32::MAX
    &&& (map.len() as int) % w == 0
    &&& map.len() <= i32::MAX
}

pub proof fn lemma_map_ok(map: Seq<Cell>, w: int)
    requires
        map_ok(map, w),
    ensures
        grid_ok(map, w, rows(map, w)),
        map.len() == w * rows(map, w),
        rows(map, w) >= 0,
{
    vstd::arithmetic::div_mod::lemma_fundamental_div_mod(map.len() as int, w);
    vstd::arithmetic::div_mod::lemma_div_pos_is_pos(map.len() as int, w);
    vstd::arithmetic::mul::lemma_mul_is_commutative(w, rows(map, w));
}

// ---------------------------------------------------------------------------
// Constants
// ---------------------------------------------------------------------------

/// Target area for an average room in cells, used for map sizing only.
pub const AREA_PER_ROOM: usize = 120;
/// Minimum leaf rect dimension.
pub const MIN_ROOM_SIZE: usize = 6;
/// Maximum leaf rect dimension: a split is forced above it.
pub const MAX_ROOM_SIZE: usize = 9;
/// Door opening width in cells.
pub const DOOR_WIDTH: usize = 2;
/// Each Normal room should be made of at least this many BSP leaves.
pub const MIN_LEAVES_PER_NORMAL: usize = 2;
/// Extra leaves beyond the strict minimum, slack for the merge step.
pub const BSP_TARGET_BUFFER: usize = 4;
/// Outer Void padding around the playable interior.
pub const BORDER: usize = 1;
/// Percentage of a merge wall's length retained as a stub at each end.
pub const STUB_RETAIN_PERCENT: usize = 35;
/// Minimum gap between two doors (cells), checked in both axes.
pub const MIN_DOOR_GAP: usize = 3;
/// Minimum distance from a wall intersection to a door (cells).
pub const DOOR_CORNER_MARGIN: usize = 3;
/// Minimum distance from the map edge for door placement.
pub const DOOR_EDGE_MARGIN: usize = 2;
/// Minimum distance from the map edge for force-placed doors.
pub const FORCE_DOOR_EDGE_MARGIN: usize = 2;
/// Minimum floor gap left in the middle of a removed merge wall.
pub const MIN_MERGE_GAP: usize = 2;
/// Minimum leaf dimension for cover generation.
pub const CA_MIN_LEAF_DIM: usize = 5;
/// Minimum distance from the leaf edge for seed placement.
pub const CA_SEED_MARGIN: usize = 2;
/// Minimum Manhattan distance between two seeds of one leaf.
pub const CA_SEED_PAIR_DIST: usize = 3;
/// Attempts to place one seed before giving up on it.
pub const CA_SEED_PLACEMENT_RETRIES: usize = 50;
/// Maximum cellular-automaton iterations per leaf.
pub const CA_MAX_ITER: usize = 200;
/// Chebyshev margin kept free of cover walls around door cells.
pub const CA_DOOR_MARGIN: i32 = 1;

/// Birth probability, in percent, of a cover wall cell with `deg` own-cluster
/// cardinal walls.
pub open spec fn spec_degree_bias(deg: int) -> int {
    if deg == 1 { 30 } else if deg == 2 { 50 } else if deg == 3 { 70 } else if deg == 4 { 90 } else { 0 }
}

pub fn degree_bias_percent(deg: usize) -> (p: u64)
    ensures
        p as int == spec_degree_bias(deg as int),
{
    if deg == 1 { 30 } else if deg == 2 { 50 } else if deg == 3 { 70 } else if deg == 4 { 90 } else { 0 }
}

// ---------------------------------------------------------------------------
// Random source
// ---------------------------------------------------------------------------

/// One xorshift64 step: `x ^= x << 13; x ^= x >> 7; x ^= x << 17`.
pub open spec fn xorshift64_next(x: u64) -> u64 {
    let a = x ^ ((x << 13u64) as u64);
    let b = a ^ (a >> 7u64);
    b ^ ((b << 17u64) as u64)
}

/// Deterministic xorshift64 generator that drives map generation.
pub struct MapRng {
    pub state: u64,
}

impl MapRng {
    /// A generator seeded with `seed` (a zero seed is replaced by one,
    /// since xorshift never leaves zero).
    pub fn new(seed: u64) -> (r: MapRng)
        ensures
            r.state == if seed == 0 { 1 } else { seed },
    {
        MapRng { state: if seed == 0 { 1 } else { seed } }
    }

    /// Uniform-ish draw in `[0, n)`: the next xorshift64 value modulo `n`.
    pub fn below(&mut self, n: u64) -> (r: u64)
        requires
            n > 0,
        ensures
            final(self).state == xorshift64_next(old(self).state),
            r == xorshift64_next(old(self).state) % n,
            r < n,
    {
        let mut x = self.state;
        x = x ^ (x << 13u64);
        x = x ^ (x >> 7u64);
        x = x ^ (x << 17u64);
        self.state = x;
        x % n
    }
}

/// A random value in the inclusive range `[min, max]` (`min` when the range
/// is empty).
pub fn rand_range(rng: &mut MapRng, min: usize, max: usize) -> (r: usize)
    requires
        max < usize::MAX,
    ensures
        min >= max ==> r == min && final(rng).state == old(rng).state,
        min < max ==> min <= r <= max,
        min < max ==> r == min + xorshift64_next(old(rng).state) % ((max - min) + 1) as u64,
        min < max ==> final(rng).state == xorshift64_next(old(rng).state),
{
    if min >= max {
        return min;
    }
    proof {
        assert(max - min < u64::MAX);
    }
    let span = (max - min) as u64 + 1;
    let r = rng.below(span) as usize;
    min + r
}

// ---------------------------------------------------------------------------
// Size classification
// ---------------------------------------------------------------------------

#[derive(Clone, Copy, Debug, PartialEq, Eq, Structural)]
pub enum SizeClass {
    Small,
    Medium,
    Large,
}

/// Rank of group `i` when groups are ordered by area (ties by index).
pub open spec fn area_rank(areas: Seq<usize>, i: int) -> int {
    Set::new(|j: int| 0 <= j < areas.len() && (areas[j] < areas[i] || (areas[j] == areas[i] && j < i))).len() as int
}

/// Thirds by rank: bottom third Small, middle third Medium, top third Large.
pub open spec fn class_of_rank(rank: int, n: int) -> SizeClass {
    if 3 * rank < n {
        SizeClass::Small
    } else if 3 * rank < 2 * n {
        SizeClass::Medium
    } else {
        SizeClass::Large
    }
}

/// Classify groups by area into thirds of the area ranking.
pub fn classify_by_area(areas: &[usize]) -> (out: Vec<SizeClass>)
    requires
        areas@.len() <= i32::MAX,
    ensures
        out@.len() == areas@.len(),
        forall|i: int| 0 <= i < areas@.len() ==> #[trigger] out@[i] == class_of_rank(area_rank(areas@, i), areas@.len() as int),
{
    let n = areas.len();
    let mut out: Vec<SizeClass> = Vec::new();
    let mut i: usize = 0;
    while i < n
        invariant
            n == areas@.len(),
            n <= i32::MAX,
            i <= n,
            out@.len() == i,
            forall|k: int| 0 <= k < i ==> #[trigger] out@[k] == class_of_rank(area_rank(areas@, k), n as int),
        decreases n - i,
    {
        let mut rank: usize = 0;
        let mut j: usize = 0;
        let ghost mut below: Set<int> = Set::empty();
        while j < n
            invariant
                n == areas@.len(),
                i < n,
                j <= n,
                below == Set::new(|k: int| 0 <= k < j && (areas@[k] < areas@[i as int] || (areas@[k] == areas@[i as int] && k < i))),
                below.finite(),
                rank == below.len(),
                rank <= j,
            decreases n - j,
        {
            if areas[j] < areas[i] || (areas[j] == areas[i] && j < i) {
                proof {
                    assert(!below.contains(j as int));
                    below = below.insert(j as int);
                }
                rank = rank + 1;
            }
            j = j + 1;
            proof {
                assert(below =~= Set::new(|k: int| 0 <= k < j && (areas@[k] < areas@[i as int] || (areas@[k] == areas@[i as int] && k < i))));
            }
        }
        proof {
            assert(below =~= Set::new(|k: int| 0 <= k < areas@.len() && (areas@[k] < areas@[i as int] || (areas@[k] == areas@[i as int] && k < i))));
        }
        let r3 = 3 * (rank as u64);
        let n64 = n as u64;
        let c = if r3 < n64 {
            SizeClass::Small
        } else if r3 < 2 * n64 {
            SizeClass::Medium
        } else {
            SizeClass::Large
        };
        out.push(c);
        i = i + 1;
    }
    out
}

// ---------------------------------------------------------------------------
// BSP types
// ---------------------------------------------------------------------------

/// An axis-aligned rectangle of cells.
#[derive(Clone, Copy, Debug)]
pub struct BspRect {
    pub x: usize,
    pub y: usize,
    pub w: usize,
    pub h: usize,
}

/// A one-cell-thick partition wall produced by a BSP split.
#[derive(Clone, Copy, Debug)]
pub enum WallLine {
    Horizontal { y: usize, x0: usize, x1: usize },
    Vertical { x: usize, y0: usize, y1: usize },
}

/// Check if a terrain is a door (open or closed).
pub fn is_door_terrain(t: Terrain) -> (b: bool)
    ensures
        b == t.spec_is_door(),
{
    match t {
        Terrain::DoorOpen | Terrain::DoorClosed => true,
        _ => false,
    }
}

/// Corner margin for a door on an overlap of `range_width` cells: as large as
/// possible (up to `DOOR_CORNER_MARGIN`) while leaving room for one door.
pub fn adaptive_margin(range_width: usize) -> (m: usize)
    ensures
        m as int == if range_width >= DOOR_WIDTH + 1 {
            vstd::math::min(DOOR_CORNER_MARGIN as int, (range_width - DOOR_WIDTH - 1) / 2)
        } else {
            0
        },
{
    let half = range_width.saturating_sub(DOOR_WIDTH + 1) / 2;
    if DOOR_CORNER_MARGIN < half { DOOR_CORNER_MARGIN } else { half }
}

/// Flat index of the neighbour of cell `ci` at offset `(dx, dy)`, if it lies
/// on the `map_w` by `map_h` grid.
fn neighbor(ci: usize, map_w: usize, map_h: usize, dx: i32, dy: i32) -> (r: Option<usize>)
    requires
        0 < map_w,
        ci < map_w * map_h,
        map_w * map_h <= i32::MAX,
        -2 <= dx <= 2,
        -2 <= dy <= 2,
    ensures
        r matches Some(ni) ==> ni < map_w * map_h
            && cpos(ni as int, map_w as int) == (cpos(ci as int, map_w as int).0 + dx, cpos(ci as int, map_w as int).1 + dy),
        r is None ==> !in_grid(cpos(ci as int, map_w as int).0 + dx, cpos(ci as int, map_w as int).1 + dy, map_w as int, map_h as int),
{
    proof {
        lemma_unflat(ci as int, map_w as int, map_h as int);
        assert(map_w <= map_w * map_h && map_h <= map_w * map_h) by (nonlinear_arith)
            requires 0 < map_w, ci < map_w * map_h;
    }
    let cx = (ci % map_w) as i64;
    let cy = (ci / map_w) as i64;
    let nx = cx + dx as i64;
    let ny = cy + dy as i64;
    if nx < 0 || nx >= map_w as i64 || ny < 0 || ny >= map_h as i64 {
        return None;
    }
    proof {
        assert(ny * map_w + nx < map_w * map_h) by (nonlinear_arith)
            requires 0 <= nx < map_w, 0 <= ny < map_h;
        assert(0 <= ny * map_w) by (nonlinear_arith)
            requires 0 <= ny, 0 <= map_w;
    }
    let ni = ny as usize * map_w + nx as usize;
    proof {
        lemma_flat_in_range(nx as int, ny as int, map_w as int, map_h as int);
    }
    Some(ni)
}

/// Visited bookkeeping of a flood fill from `start`: the flags match the
/// ghost set, the counter is its size and every member is reachable.
#[verifier::opaque]
spec fn fill_visited(map: Seq<Cell>, w: int, h: int, start: int, visited: Seq<bool>, vset: Set<int>, count: int) -> bool {
    let n = w * h;
    &&& visited.len() == n
    &&& forall|c: int| 0 <= c < n ==> (#[trigger] visited[c] <==> vset.contains(c))
    &&& vset.subset_of(Set::new(|c: int| 0 <= c < n))
    &&& vset.finite()
    &&& count == vset.len()
    &&& forall|c: int| #[trigger] vset.contains(c) ==> reachable(map, w, h, cpos(start, w), cpos(c, w))
}

/// Every finished cell has all its walkable neighbours visited.
#[verifier::opaque]
spec fn fill_done_closed(map: Seq<Cell>, w: int, h: int, done: Set<int>, vset: Set<int>) -> bool {
    forall|c: int, m: int| #![trigger done.contains(c), vset.contains(m)]
        done.contains(c) && 0 <= m < w * h && adjacent(cpos(c, w), cpos(m, w)) && map[m].terrain.spec_walkable()
        ==> vset.contains(m)
}

/// Visited cells that are not finished are on the stack, and the stack only
/// holds visited cells.
#[verifier::opaque]
spec fn fill_pending(vset: Set<int>, done: Set<int>, stack: Seq<usize>) -> bool {
    &&& forall|c: int| #[trigger] vset.contains(c) && !done.contains(c) ==> stack.contains(c as usize)
    &&& forall|j: int| 0 <= j < stack.len() ==> vset.contains(#[trigger] stack[j] as int)
    &&& done.subset_of(vset)
}

/// Mark walkable, unvisited neighbour `(dx, dy)` of `ci` and push it.
fn fill_visit(
    map: &[Cell], map_w: usize, map_h: usize, ci: usize, dx: i32, dy: i32,
    visited: &mut Vec<bool>, stack: &mut Vec<usize>, count: &mut usize,
    Ghost(start): Ghost<int>, Ghost(vset): Ghost<Set<int>>, Ghost(done): Ghost<Set<int>>,
) -> (new_vset: Ghost<Set<int>>)
    requires
        grid_ok(map@, map_w as int, map_h as int),
        0 < map_w,
        ci < map@.len(),
        -1 <= dx <= 1,
        -1 <= dy <= 1,
        (dx == 0) != (dy == 0),
        vset.contains(ci as int),
        fill_visited(map@, map_w as int, map_h as int, start, old(visited)@, vset, *old(count) as int),
        fill_pending(vset, done, old(stack)@),
    ensures
        fill_visited(map@, map_w as int, map_h as int, start, final(visited)@, new_vset@, *final(count) as int),
        fill_pending(new_vset@, done, final(stack)@),
        vset.subset_of(new_vset@),
        new_vset@.len() <= map@.len(),
        *final(count) <= map@.len(),
        *final(count) >= *old(count),
        final(stack)@.len() <= old(stack)@.len() + (*final(count) - *old(count)),
        forall|j: int| 0 <= j < old(stack)@.len() ==> #[trigger] final(stack)@[j] == old(stack)@[j],
        final(stack)@.len() >= old(stack)@.len(),
        ({
            let q = (cpos(ci as int, map_w as int).0 + dx, cpos(ci as int, map_w as int).1 + dy);
            in_grid(q.0, q.1, map_w as int, map_h as int) && map@[flat(q.0, q.1, map_w as int)].terrain.spec_walkable()
                ==> new_vset@.contains(flat(q.0, q.1, map_w as int))
        }),
{
    let ghost w = map_w as int;
    let ghost h = map_h as int;
    let ghost n = map@.len() as int;
    proof {
        reveal(fill_visited);
        reveal(fill_pending);
        vstd::set_lib::lemma_int_range(0, n);
        assert(Set::new(|c: int| 0 <= c < n) =~= vstd::set_lib::set_int_range(0, n));
        vstd::set_lib::lemma_len_subset(vset, Set::new(|c: int| 0 <= c < n));
    }
    match neighbor(ci, map_w, map_h, dx, dy) {
        Some(ni) => {
            proof {
                lemma_unflat(ni as int, w, h);
                lemma_flat_in_range(cpos(ni as int, w).0, cpos(ni as int, w).1, w, h);
            }
            if !visited[ni] && map[ni].terrain.is_walkable() {
                proof {
                    assert(!vset.contains(ni as int));
                    vstd::set_lib::lemma_len_subset(vset.insert(ni as int), Set::new(|c: int| 0 <= c < n));
                    lemma_unflat(ci as int, w, h);
                    lemma_reach_step(map@, w, h, cpos(start, w), cpos(ci as int, w), cpos(ni as int, w));
                }
                visited.set(ni, true);
                *count = *count + 1;
                stack.push(ni);
                let ghost nv = vset.insert(ni as int);
                proof {
                    assert(stack@[stack@.len() - 1] == ni);
                    assert forall|c: int| #[trigger] nv.contains(c) && !done.contains(c) implies stack@.contains(c as usize) by {
                        if c == ni as int {
                            assert(stack@[stack@.len() - 1] == c as usize);
                        } else {
                            assert(old(stack)@.contains(c as usize));
                            let j = choose|j: int| 0 <= j < old(stack)@.len() && old(stack)@[j] == c as usize;
                            assert(stack@[j] == c as usize);
                        }
                    }
                    assert(fill_pending(nv, done, stack@));
                    assert(fill_visited(map@, w, h, start, visited@, nv, *count as int));
                }
                return Ghost(nv);
            }
        },
        None => {},
    }
    Ghost(vset)
}

/// Number of cells reachable from `start` by a cardinal walk over walkable
/// cells (`start` itself included).
pub fn flood_fill_count(map: &[Cell], map_w: usize, start: usize) -> (count: usize)
    requires
        map_ok(map@, map_w as int),
        start < map@.len(),
    ensures
        reach_set(map@, map_w as int, rows(map@, map_w as int), start as int).finite(),
        count == reach_set(map@, map_w as int, rows(map@, map_w as int), start as int).len(),
{
    let ghost w = map_w as int;
    let ghost h = rows(map@, w);
    proof {
        lemma_map_ok(map@, w);
    }
    let map_h = map.len() / map_w;
    let n = map.len();
    let mut visited: Vec<bool> = vec![false; n];
    let mut stack: Vec<usize> = Vec::new();
    stack.push(start);
    visited.set(start, true);
    let mut count: usize = 1;
    let ghost mut vset: Set<int> = Set::empty().insert(start as int);
    let ghost mut done: Set<int> = Set::empty();
    let ghost rs = reach_set(map@, w, h, start as int);
    proof {
        reveal(fill_visited);
        reveal(fill_pending);
        reveal(fill_done_closed);
        assert forall|c: int| 0 <= c < n implies (#[trigger] visited@[c] <==> vset.contains(c)) by {
            if c != start {
                assert(cloned(false, visited@[c]));
            }
        }
        lemma_reach_refl(map@, w, h, cpos(start as int, w));
        assert(stack@[0] == start);
        assert(stack@.contains(start));
        vstd::set_lib::lemma_int_range(0, n as int);
        assert(Set::new(|c: int| 0 <= c < n) =~= vstd::set_lib::set_int_range(0, n as int));
    }
    let dirs: [(i32, i32); 4] = [(0, -1), (1, 0), (0, 1), (-1, 0)];
    loop
        invariant
            0 < w,
            w == map_w as int,
            h == map_h as int,
            n == map@.len(),
            n == w * h,
            grid_ok(map@, w, h),
            start < n,
            rs == reach_set(map@, w, h, start as int),
            dirs@ == seq![(0i32, -1i32), (1i32, 0i32), (0i32, 1i32), (-1i32, 0i32)],
            fill_visited(map@, w, h, start as int, visited@, vset, count as int),
            fill_done_closed(map@, w, h, done, vset),
            fill_pending(vset, done, stack@),
            count <= n,
            done.finite(),
            vset.contains(start as int),
        ensures
            vset.contains(start as int),
            fill_visited(map@, w, h, start as int, visited@, vset, count as int),
            fill_done_closed(map@, w, h, done, vset),
            fill_pending(vset, done, stack@),
            stack@.len() == 0,
        decreases n - count, stack@.len(),
    {
        let ghost pre_stack = stack@;
        let top = stack.pop();
        match top {
            None => {
                break;
            },
            Some(ci) => {
                let ghost count0 = count;
                proof {
                    reveal(fill_pending);
                    reveal(fill_visited);
                    assert(pre_stack.last() == ci);
                    assert(stack@ == pre_stack.drop_last());
                    assert(vset.contains(ci as int)) by {
                        assert(pre_stack[pre_stack.len() - 1] == ci);
                    }
                }
                let ghost stack_after_pop = stack@;
                let ghost done_old = done;
                let ghost vset_pop = vset;
                proof {
                    reveal(fill_pending);
                    done = done.insert(ci as int);
                    assert forall|c: int| #[trigger] vset.contains(c) && !done.contains(c) implies stack@.contains(c as usize) by {
                        assert(pre_stack.contains(c as usize));
                        let j = choose|j: int| 0 <= j < pre_stack.len() && pre_stack[j] == c as usize;
                        assert(j != pre_stack.len() - 1);
                        assert(stack@[j] == c as usize);
                    }
                    assert forall|j: int| 0 <= j < stack@.len() implies vset.contains(#[trigger] stack@[j] as int) by {
                        assert(stack@[j] == pre_stack[j]);
                    }
                    assert(fill_pending(vset, done, stack@));
                }
                let mut d: usize = 0;
                while d < 4
                    invariant
                        0 < w,
                        w == map_w as int,
                        h == map_h as int,
                        n == map@.len(),
                        n == w * h,
                        grid_ok(map@, w, h),
                        start < n,
                        ci < n,
                        vset.contains(ci as int),
                        vset_pop.subset_of(vset),
                        done == done_old.insert(ci as int),
                        dirs@ == seq![(0i32, -1i32), (1i32, 0i32), (0i32, 1i32), (-1i32, 0i32)],
                        d <= 4,
                        fill_visited(map@, w, h, start as int, visited@, vset, count as int),
                        fill_pending(vset, done, stack@),
                        count >= count0,
                        count <= n,
                        stack@.len() <= stack_after_pop.len() + (count - count0),
                        stack@.len() >= stack_after_pop.len(),
                        forall|j: int| 0 <= j < stack_after_pop.len() ==> #[trigger] stack@[j] == stack_after_pop[j],
                        stack_after_pop == pre_stack.drop_last(),
                        pre_stack.last() == ci,
                        forall|dd: int| 0 <= dd < d ==> {
                            let q = (cpos(ci as int, w).0 + (#[trigger] dirs@[dd]).0, cpos(ci as int, w).1 + dirs@[dd].1);
                            in_grid(q.0, q.1, w, h) && map@[flat(q.0, q.1, w)].terrain.spec_walkable()
                                ==> vset.contains(flat(q.0, q.1, w))
                        },
                    decreases 4 - d,
                {
                    let (dx, dy) = dirs[d];
                    let ghost vset1 = vset;
                    proof {
                        assert(dirs@[d as int] == (dx, dy));
                    }
                    let Ghost(nv) = fill_visit(map, map_w, map_h, ci, dx, dy, &mut visited, &mut stack, &mut count,
                        Ghost(start as int), Ghost(vset), Ghost(done));
                    proof {
                        vset = nv;
                        assert forall|dd: int| 0 <= dd < d + 1 implies {
                            let q = (cpos(ci as int, w).0 + (#[trigger] dirs@[dd]).0, cpos(ci as int, w).1 + dirs@[dd].1);
                            in_grid(q.0, q.1, w, h) && map@[flat(q.0, q.1, w)].terrain.spec_walkable()
                                ==> vset.contains(flat(q.0, q.1, w))
                        } by {
                            if dd < d {
                                let q = (cpos(ci as int, w).0 + dirs@[dd].0, cpos(ci as int, w).1 + dirs@[dd].1);
                                if in_grid(q.0, q.1, w, h) && map@[flat(q.0, q.1, w)].terrain.spec_walkable() {
                                    assert(vset1.contains(flat(q.0, q.1, w)));
                                }
                            }
                        }
                    }
                    d = d + 1;
                }
                proof {
                    reveal(fill_done_closed);
                    let done0 = done_old;
                    assert forall|c: int, m: int| #![trigger done.contains(c), vset.contains(m)]
                        done.contains(c) && 0 <= m < w * h && adjacent(cpos(c, w), cpos(m, w)) && map@[m].terrain.spec_walkable()
                        implies vset.contains(m) by {
                        if c == ci as int {
                            lemma_unflat(ci as int, w, h);
                            lemma_unflat(m, w, h);
                            let q = cpos(m, w);
                            let p = cpos(ci as int, w);
                            let dd = if q.1 == p.1 - 1 { 0int } else if q.0 == p.0 + 1 { 1int } else if q.1 == p.1 + 1 { 2int } else { 3int };
                            assert(dirs@[dd].0 == q.0 - p.0 && dirs@[dd].1 == q.1 - p.1);
                            assert(flat(q.0, q.1, w) == m);
                        } else {
                            assert(done0.contains(c));
                            assert(vset_pop.contains(m));
                        }
                    }
                    assert(done.finite());
                }
            },
        }
    }
    proof {
        reveal(fill_visited);
        reveal(fill_pending);
        reveal(fill_done_closed);
        assert forall|c: int| #[trigger] vset.contains(c) implies done.contains(c) by {
            if !done.contains(c) {
                assert(stack@.contains(c as usize));
            }
        }
        assert(adj_closed(map@, w, h, vset)) by {
            assert forall|c: int, m: int| #![trigger vset.contains(c), vset.contains(m)]
                vset.contains(c) && 0 <= c < w * h && 0 <= m < w * h
                && adjacent(cpos(c, w), cpos(m, w)) && map@[m].terrain.spec_walkable()
                implies vset.contains(m) by {
                assert(done.contains(c));
            }
        }
        assert forall|c: int| #[trigger] rs.contains(c) implies vset.contains(c) by {
            lemma_closed_contains_reach(map@, w, h, vset, start as int, c);
        }
        assert forall|c: int| #[trigger] vset.contains(c) implies rs.contains(c) by {
            assert(Set::new(|c: int| 0 <= c < n).contains(c));
        }
        assert(vset =~= rs);
    }
    count
}

/// Number of walkable cells and the flat index of the first one.
pub fn walkable_census(map: &[Cell]) -> (r: (usize, Option<usize>))
    requires
        map@.len() <= i32::MAX,
    ensures
        Set::new(|c: int| 0 <= c < map@.len() && map@[c].terrain.spec_walkable()).finite(),
        r.0 == Set::new(|c: int| 0 <= c < map@.len() && map@[c].terrain.spec_walkable()).len(),
        r.1 is None <==> r.0 == 0,
        r.1 matches Some(s) ==> s < map@.len() && map@[s as int].terrain.spec_walkable(),
        r.1 matches Some(s) ==> forall|c: int| 0 <= c < s ==> !(#[trigger] map@[c]).terrain.spec_walkable(),
{
    let mut count: usize = 0;
    let mut first: Option<usize> = None;
    let mut i: usize = 0;
    let ghost mut ws: Set<int> = Set::empty();
    while i < map.len()
        invariant
            i <= map@.len(),
            map@.len() <= i32::MAX,
            ws == Set::new(|c: int| 0 <= c < i && map@[c].terrain.spec_walkable()),
            ws.finite(),
            count == ws.len(),
            count <= i,
            first is None <==> count == 0,
            first matches Some(s) ==> s < i && map@[s as int].terrain.spec_walkable(),
            first matches Some(s) ==> forall|c: int| 0 <= c < s ==> !(#[trigger] map@[c]).terrain.spec_walkable(),
            first is None ==> forall|c: int| 0 <= c < i ==> !(#[trigger] map@[c]).terrain.spec_walkable(),
        decreases map@.len() - i,
    {
        let ghost ws0 = ws;
        if map[i].terrain.is_walkable() {
            proof {
                assert(!ws.contains(i as int));
                ws = ws.insert(i as int);
            }
            count = count + 1;
            if first.is_none() {
                first = Some(i);
            }
        }
        i = i + 1;
        proof {
            assert(ws =~= Set::new(|c: int| 0 <= c < i && map@[c].terrain.spec_walkable()));
        }
    }
    proof {
        assert(ws =~= Set::new(|c: int| 0 <= c < map@.len() && map@[c].terrain.spec_walkable()));
    }
    (count, first)
}

/// When a flood fill from a walkable cell reaches at least as many cells as
/// there are walkable cells, the walkable cells are connected.
pub proof fn lemma_counts_connected(map: Seq<Cell>, w: int, h: int, start: int)
    requires
        map_ok(map, w),
        h == rows(map, w),
        0 <= start < map.len(),
        map[start].terrain.spec_walkable(),
        reach_set(map, w, h, start).finite(),
        Set::new(|c: int| 0 <= c < map.len() && map[c].terrain.spec_walkable()).finite(),
        reach_set(map, w, h, start).len() >= Set::new(|c: int| 0 <= c < map.len() && map[c].terrain.spec_walkable()).len(),
    ensures
        floor_connected(map, w, h),
{
    lemma_map_ok(map, w);
    let ws = walkable_set(map, w, h);
    let rs = reach_set(map, w, h, start);
    assert(ws =~= Set::new(|c: int| 0 <= c < map.len() && map[c].terrain.spec_walkable()));
    lemma_unflat(start, w, h);
    let sp = cpos(start, w);
    assert(open_at(map, w, h, sp.0, sp.1));
    assert(rs.subset_of(ws)) by {
        assert forall|c: int| #[trigger] rs.contains(c) implies ws.contains(c) by {
            lemma_unflat(c, w, h);
            if c != start {
                if cpos(c, w) == sp {
                    vstd::arithmetic::div_mod::lemma_fundamental_div_mod(c, w);
                    vstd::arithmetic::div_mod::lemma_fundamental_div_mod(start, w);
                }
                lemma_reach_end_open(map, w, h, sp, cpos(c, w));
            }
        }
    }
    vstd::set_lib::lemma_len_subset(rs, ws);
    vstd::set_lib::lemma_subset_equality(rs, ws);
    lemma_connected_from(map, w, h, sp);
    assert forall|c: (int, int)| #[trigger] open_at(map, w, h, c.0, c.1) implies reachable(map, w, h, sp, c) by {
        lemma_flat_in_range(c.0, c.1, w, h);
        let i = flat(c.0, c.1, w);
        assert(ws.contains(i));
        assert(rs.contains(i));
        assert(cpos(i, w) == c);
    }
}

/// Every walkable cell is reachable from every other walkable cell by a
/// cardinal walk (trivially true when nothing is walkable).
pub fn floor_globally_connected(map: &[Cell], map_w: usize, map_h: usize) -> (b: bool)
    requires
        map_ok(map@, map_w as int),
        map_h as int == rows(map@, map_w as int),
    ensures
        b == floor_connected(map@, map_w as int, map_h as int),
{
    let ghost w = map_w as int;
    let ghost h = map_h as int;
    proof {
        lemma_map_ok(map@, w);
    }
    let (total_walkable, first) = walkable_census(map);
    let start = match first {
        Some(s) => s,
        None => {
            proof {
                assert forall|a: (int, int), b: (int, int)|
                    #[trigger] open_at(map@, w, h, a.0, a.1) && #[trigger] open_at(map@, w, h, b.0, b.1)
                    implies reachable(map@, w, h, a, b) by {
                    lemma_flat_in_range(a.0, a.1, w, h);
                    let i = flat(a.0, a.1, w);
                    assert(Set::new(|c: int| 0 <= c < map@.len() && map@[c].terrain.spec_walkable()).contains(i));
                    assert(Set::new(|c: int| 0 <= c < map@.len() && map@[c].terrain.spec_walkable()).len() == 0);
                }
            }
            return true;
        },
    };
    let reached = flood_fill_count(map, map_w, start);
    proof {
        let ws = walkable_set(map@, w, h);
        let rs = reach_set(map@, w, h, start as int);
        assert(ws =~= Set::new(|c: int| 0 <= c < map@.len() && map@[c].terrain.spec_walkable()));
        lemma_unflat(start as int, w, h);
        let sp = cpos(start as int, w);
        assert(open_at(map@, w, h, sp.0, sp.1));
        assert(rs.subset_of(ws)) by {
            assert forall|c: int| #[trigger] rs.contains(c) implies ws.contains(c) by {
                lemma_unflat(c, w, h);
                if c != start as int {
                    if cpos(c, w) == sp {
                        vstd::arithmetic::div_mod::lemma_fundamental_div_mod(c, w);
                        vstd::arithmetic::div_mod::lemma_fundamental_div_mod(start as int, w);
                    }
                    lemma_reach_end_open(map@, w, h, sp, cpos(c, w));
                }
            }
        }
        lemma_connected_from(map@, w, h, sp);
        if reached == total_walkable {
            vstd::set_lib::lemma_subset_equality(rs, ws);
            assert forall|c: (int, int)| #[trigger] open_at(map@, w, h, c.0, c.1) implies reachable(map@, w, h, sp, c) by {
                lemma_flat_in_range(c.0, c.1, w, h);
                let i = flat(c.0, c.1, w);
                assert(ws.contains(i));
                assert(rs.contains(i));
                assert(cpos(i, w) == c);
            }
        } else {
            if floor_connected(map@, w, h) {
                assert(ws.subset_of(rs)) by {
                    assert forall|c: int| #[trigger] ws.contains(c) implies rs.contains(c) by {
                        lemma_unflat(c, w, h);
                        let q = cpos(c, w);
                        assert(open_at(map@, w, h, q.0, q.1));
                    }
                }
                assert(rs =~= ws);
            }
        }
    }
    reached == total_walkable
}

// ---------------------------------------------------------------------------
// Cell predicates used by cover generation and void sealing
// ---------------------------------------------------------------------------

/// Terrain at on-grid `(x, y)`.
pub open spec fn ter(map: Seq<Cell>, w: int, x: int, y: int) -> Terrain {
    map[flat(x, y, w)].terrain
}

pub open spec fn wall_at(map: Seq<Cell>, w: int, h: int, x: int, y: int) -> bool {
    in_grid(x, y, w, h) && ter(map, w, x, y) == Terrain::Wall
}

pub open spec fn void_at(map: Seq<Cell>, w: int, h: int, x: int, y: int) -> bool {
    in_grid(x, y, w, h) && ter(map, w, x, y) == Terrain::Void
}

pub open spec fn door_at(map: Seq<Cell>, w: int, h: int, x: int, y: int) -> bool {
    in_grid(x, y, w, h) && ter(map, w, x, y).spec_is_door()
}

/// The four cardinal offsets, in the order (-1,0), (1,0), (0,-1), (0,1).
pub open spec fn card(k: int) -> (int, int) {
    if k == 0 { (-1, 0) } else if k == 1 { (1, 0) } else if k == 2 { (0, -1) } else { (0, 1) }
}

/// The four diagonal offsets, in the order (1,1), (1,-1), (-1,1), (-1,-1).
pub open spec fn diag(k: int) -> (int, int) {
    if k == 0 { (1, 1) } else if k == 1 { (1, -1) } else if k == 2 { (-1, 1) } else { (-1, -1) }
}

/// Is `(x, y)` an on-grid wall cell.
fn is_wall(map: &[Cell], map_w: usize, map_h: usize, x: i64, y: i64) -> (b: bool)
    requires
        grid_ok(map@, map_w as int, map_h as int),
    ensures
        b == wall_at(map@, map_w as int, map_h as int, x as int, y as int),
{
    if x < 0 || y < 0 || x as u64 >= map_w as u64 || y as u64 >= map_h as u64 {
        return false;
    }
    proof {
        lemma_flat_in_range(x as int, y as int, map_w as int, map_h as int);
    }
    let i = y as usize * map_w + x as usize;
    match map[i].terrain {
        Terrain::Wall => true,
        _ => false,
    }
}

/// Is `(x, y)` an on-grid walkable cell.
fn is_open(map: &[Cell], map_w: usize, map_h: usize, x: i64, y: i64) -> (b: bool)
    requires
        grid_ok(map@, map_w as int, map_h as int),
    ensures
        b == open_at(map@, map_w as int, map_h as int, x as int, y as int),
{
    if x < 0 || y < 0 || x as u64 >= map_w as u64 || y as u64 >= map_h as u64 {
        return false;
    }
    proof {
        lemma_flat_in_range(x as int, y as int, map_w as int, map_h as int);
    }
    let i = y as usize * map_w + x as usize;
    map[i].terrain.is_walkable()
}

/// Is `(x, y)` an on-grid door cell.
fn is_door_at(map: &[Cell], map_w: usize, map_h: usize, x: i64, y: i64) -> (b: bool)
    requires
        grid_ok(map@, map_w as int, map_h as int),
    ensures
        b == door_at(map@, map_w as int, map_h as int, x as int, y as int),
{
    if x < 0 || y < 0 || x as u64 >= map_w as u64 || y as u64 >= map_h as u64 {
        return false;
    }
    proof {
        lemma_flat_in_range(x as int, y as int, map_w as int, map_h as int);
    }
    let i = y as usize * map_w + x as usize;
    is_door_terrain(map[i].terrain)
}

/// The 2x2 block with top-left corner `(x, y)` is all wall.
pub open spec fn block_walls(map: Seq<Cell>, w: int, h: int, x: int, y: int) -> bool {
    &&& wall_at(map, w, h, x, y)
    &&& wall_at(map, w, h, x + 1, y)
    &&& wall_at(map, w, h, x, y + 1)
    &&& wall_at(map, w, h, x + 1, y + 1)
}

/// Every 2x2 all-wall block of `m` was already one in `m0`.
pub open spec fn no_new_block(m0: Seq<Cell>, m: Seq<Cell>, w: int, h: int) -> bool {
    forall|x: int, y: int| #[trigger] block_walls(m, w, h, x, y) ==> block_walls(m0, w, h, x, y)
}

proof fn lemma_no_new_block_trans(m0: Seq<Cell>, m1: Seq<Cell>, m2: Seq<Cell>, w: int, h: int)
    requires
        no_new_block(m0, m1, w, h),
        no_new_block(m1, m2, w, h),
    ensures
        no_new_block(m0, m2, w, h),
{
    assert forall|x: int, y: int| #[trigger] block_walls(m2, w, h, x, y) implies block_walls(m0, w, h, x, y) by {
        assert(block_walls(m1, w, h, x, y));
    }
}

/// Walling one cell that completes no 2x2 block creates no new block.
proof fn lemma_wall_no_block(m0: Seq<Cell>, before: Seq<Cell>, after: Seq<Cell>, w: int, h: int, i: int, j: int)
    requires
        grid_ok(before, w, h),
        in_grid(i, j, w, h),
        after.len() == before.len(),
        forall|c: int| 0 <= c < before.len() && c != flat(i, j, w) ==> #[trigger] after[c] == before[c],
        !makes_2x2(before, w, h, i, j),
        no_new_block(m0, before, w, h),
    ensures
        no_new_block(m0, after, w, h),
{
    assert forall|x: int, y: int| #[trigger] block_walls(after, w, h, x, y) implies block_walls(m0, w, h, x, y) by {
        let cells = seq![(x, y), (x + 1, y), (x, y + 1), (x + 1, y + 1)];
        assert forall|k: int| 0 <= k < 4 && cells[k] != (i, j) implies
            wall_at(before, w, h, #[trigger] cells[k].0, cells[k].1) by {
            let q = cells[k];
            assert(wall_at(after, w, h, q.0, q.1));
            lemma_flat_in_range(q.0, q.1, w, h);
            if flat(q.0, q.1, w) == flat(i, j, w) {
                crate::cell::lemma_flat_injective(q.0, q.1, i, j, w, h);
            }
            assert(after[flat(q.0, q.1, w)] == before[flat(q.0, q.1, w)]);
        }
        if cells[0] != (i, j) { assert(wall_at(before, w, h, cells[0].0, cells[0].1)); }
        if cells[1] != (i, j) { assert(wall_at(before, w, h, cells[1].0, cells[1].1)); }
        if cells[2] != (i, j) { assert(wall_at(before, w, h, cells[2].0, cells[2].1)); }
        if cells[3] != (i, j) { assert(wall_at(before, w, h, cells[3].0, cells[3].1)); }
        if (i, j) == (x, y) {
            assert(wall_at(before, w, h, i + diag(0).0, j) && wall_at(before, w, h, i, j + diag(0).1)
                && wall_at(before, w, h, i + diag(0).0, j + diag(0).1));
        } else if (i, j) == (x + 1, y) {
            assert(wall_at(before, w, h, i + diag(2).0, j) && wall_at(before, w, h, i, j + diag(2).1)
                && wall_at(before, w, h, i + diag(2).0, j + diag(2).1));
        } else if (i, j) == (x, y + 1) {
            assert(wall_at(before, w, h, i + diag(1).0, j) && wall_at(before, w, h, i, j + diag(1).1)
                && wall_at(before, w, h, i + diag(1).0, j + diag(1).1));
        } else if (i, j) == (x + 1, y + 1) {
            assert(wall_at(before, w, h, i + diag(3).0, j) && wall_at(before, w, h, i, j + diag(3).1)
                && wall_at(before, w, h, i + diag(3).0, j + diag(3).1));
        } else {
            assert(block_walls(before, w, h, x, y));
        }
    }
}

/// Placing a wall at `(i, j)` would complete a 2x2 block of walls.
pub open spec fn makes_2x2(map: Seq<Cell>, w: int, h: int, i: int, j: int) -> bool {
    exists|k: int| 0 <= k < 4 && #[trigger] wall_at(map, w, h, i + diag(k).0, j)
        && wall_at(map, w, h, i, j + diag(k).1) && wall_at(map, w, h, i + diag(k).0, j + diag(k).1)
}

/// Returns true if placing a wall at (i, j) would create a 2x2 wall block
/// with (i, j) as one of its corners (the no-thicken constraint).
pub fn ca_would_create_2x2(map: &[Cell], i: usize, j: usize, map_w: usize, map_h: usize) -> (b: bool)
    requires
        grid_ok(map@, map_w as int, map_h as int),
        i < map_w,
        j < map_h,
    ensures
        b == makes_2x2(map@, map_w as int, map_h as int, i as int, j as int),
{
    proof {
        assert(map_w <= map_w * map_h && map_h <= map_w * map_h) by (nonlinear_arith)
            requires i < map_w, j < map_h;
    }
    let ii = i as i64;
    let jj = j as i64;
    let dirs: [(i64, i64); 4] = [(1, 1), (1, -1), (-1, 1), (-1, -1)];
    let mut k: usize = 0;
    while k < 4
        invariant
            grid_ok(map@, map_w as int, map_h as int),
            i < map_w <= i32::MAX,
            j < map_h <= i32::MAX,
            ii == i,
            jj == j,
            k <= 4,
            dirs@ == seq![(1i64, 1i64), (1i64, -1i64), (-1i64, 1i64), (-1i64, -1i64)],
            forall|kk: int| 0 <= kk < k ==> !(#[trigger] wall_at(map@, map_w as int, map_h as int, i + diag(kk).0, j as int)
                && wall_at(map@, map_w as int, map_h as int, i as int, j + diag(kk).1)
                && wall_at(map@, map_w as int, map_h as int, i + diag(kk).0, j + diag(kk).1)),
        decreases 4 - k,
    {
        let (dx, dy) = dirs[k];
        proof {
            assert(dx == diag(k as int).0 && dy == diag(k as int).1);
        }
        if is_wall(map, map_w, map_h, ii + dx, jj)
            && is_wall(map, map_w, map_h, ii, jj + dy)
            && is_wall(map, map_w, map_h, ii + dx, jj + dy) {
            return true;
        }
        k = k + 1;
    }
    false
}

/// Number of walkable cardinal neighbours of `(x, y)` other than `(i, j)`.
pub open spec fn open_nbrs_except(map: Seq<Cell>, w: int, h: int, x: int, y: int, i: int, j: int) -> int {
    (if open_at(map, w, h, x + card(0).0, y + card(0).1) && (x + card(0).0, y + card(0).1) != (i, j) { 1int } else { 0 })
    + (if open_at(map, w, h, x + card(1).0, y + card(1).1) && (x + card(1).0, y + card(1).1) != (i, j) { 1int } else { 0 })
    + (if open_at(map, w, h, x + card(2).0, y + card(2).1) && (x + card(2).0, y + card(2).1) != (i, j) { 1int } else { 0 })
    + (if open_at(map, w, h, x + card(3).0, y + card(3).1) && (x + card(3).0, y + card(3).1) != (i, j) { 1int } else { 0 })
}

/// Placing a wall at `(i, j)` would leave a walkable cardinal neighbour with
/// fewer than two walkable cardinal neighbours of its own.
pub open spec fn makes_deadend(map: Seq<Cell>, w: int, h: int, i: int, j: int) -> bool {
    exists|k: int| 0 <= k < 4 && #[trigger] open_at(map, w, h, i + card(k).0, j + card(k).1)
        && open_nbrs_except(map, w, h, i + card(k).0, j + card(k).1, i, j) < 2
}

/// Counts `open_nbrs_except` for neighbour `(nx, ny)` of `(i, j)`.
fn open_nbr_count(map: &[Cell], map_w: usize, map_h: usize, nx: i64, ny: i64, i: i64, j: i64) -> (c: usize)
    requires
        grid_ok(map@, map_w as int, map_h as int),
        -1 <= nx <= i32::MAX,
        -1 <= ny <= i32::MAX,
    ensures
        c as int == open_nbrs_except(map@, map_w as int, map_h as int, nx as int, ny as int, i as int, j as int),
{
    let mut c: usize = 0;
    if is_open(map, map_w, map_h, nx - 1, ny) && !(nx - 1 == i && ny == j) { c = c + 1; }
    if is_open(map, map_w, map_h, nx + 1, ny) && !(nx + 1 == i && ny == j) { c = c + 1; }
    if is_open(map, map_w, map_h, nx, ny - 1) && !(nx == i && ny - 1 == j) { c = c + 1; }
    if is_open(map, map_w, map_h, nx, ny + 1) && !(nx == i && ny + 1 == j) { c = c + 1; }
    c
}

/// Returns true if placing a wall at (i, j) would leave any cardinal walkable
/// neighbour with fewer than two walkable cardinal neighbours (a dead end).
pub fn ca_would_create_deadend(map: &[Cell], i: usize, j: usize, map_w: usize, map_h: usize) -> (b: bool)
    requires
        grid_ok(map@, map_w as int, map_h as int),
        i < map_w,
        j < map_h,
    ensures
        b == makes_deadend(map@, map_w as int, map_h as int, i as int, j as int),
{
    let ii = i as i64;
    let jj = j as i64;
    proof {
        assert(map_w <= map_w * map_h && map_h <= map_w * map_h) by (nonlinear_arith)
            requires i < map_w, j < map_h;
    }
    let dirs: [(i64, i64); 4] = [(-1, 0), (1, 0), (0, -1), (0, 1)];
    let mut k: usize = 0;
    while k < 4
        invariant
            grid_ok(map@, map_w as int, map_h as int),
            i < map_w,
            j < map_h,
            map_w <= i32::MAX,
            map_h <= i32::MAX,
            ii == i,
            jj == j,
            k <= 4,
            dirs@ == seq![(-1i64, 0i64), (1i64, 0i64), (0i64, -1i64), (0i64, 1i64)],
            forall|kk: int| 0 <= kk < k ==> !(#[trigger] open_at(map@, map_w as int, map_h as int, i + card(kk).0, j + card(kk).1)
                && open_nbrs_except(map@, map_w as int, map_h as int, i + card(kk).0, j + card(kk).1, i as int, j as int) < 2),
        decreases 4 - k,
    {
        let (dx, dy) = dirs[k];
        proof {
            assert(dx == card(k as int).0 && dy == card(k as int).1);
        }
        let nx = ii + dx;
        let ny = jj + dy;
        if is_open(map, map_w, map_h, nx, ny) {
            let c = open_nbr_count(map, map_w, map_h, nx, ny, ii, jj);
            if c < 2 {
                return true;
            }
        }
        k = k + 1;
    }
    false
}

/// Some cell within Chebyshev distance `margin` of `(i, j)` is a door.
pub open spec fn door_near(map: Seq<Cell>, w: int, h: int, i: int, j: int, margin: int) -> bool {
    exists|dx: int, dy: int| -margin <= dx <= margin && -margin <= dy <= margin
        && #[trigger] door_at(map, w, h, i + dx, j + dy)
}

/// Returns true if any cell within Chebyshev `margin` of (i, j) is a door.
pub fn door_within_margin(map: &[Cell], i: usize, j: usize, margin: i32, map_w: usize, map_h: usize) -> (b: bool)
    requires
        grid_ok(map@, map_w as int, map_h as int),
        i < map_w,
        j < map_h,
        0 <= margin <= 8,
    ensures
        b == door_near(map@, map_w as int, map_h as int, i as int, j as int, margin as int),
{
    let m = margin as i64;
    let ii = i as i64;
    let jj = j as i64;
    proof {
        assert(map_w <= map_w * map_h && map_h <= map_w * map_h) by (nonlinear_arith)
            requires i < map_w, j < map_h;
    }
    let mut dy: i64 = -m;
    while dy <= m
        invariant
            grid_ok(map@, map_w as int, map_h as int),
            i < map_w <= i32::MAX,
            j < map_h <= i32::MAX,
            ii == i,
            jj == j,
            m == margin,
            0 <= m <= 8,
            -m <= dy <= m + 1,
            forall|ex: int, ey: int| -m <= ex <= m && -m <= ey < dy ==> !#[trigger] door_at(map@, map_w as int, map_h as int, i + ex, j + ey),
        decreases m + 1 - dy,
    {
        let mut dx: i64 = -m;
        while dx <= m
            invariant
                grid_ok(map@, map_w as int, map_h as int),
                i < map_w <= i32::MAX,
                j < map_h <= i32::MAX,
                ii == i,
                jj == j,
                m == margin,
                0 <= m <= 8,
                -m <= dy <= m,
                -m <= dx <= m + 1,
                forall|ex: int, ey: int| -m <= ex <= m && -m <= ey < dy ==> !#[trigger] door_at(map@, map_w as int, map_h as int, i + ex, j + ey),
                forall|ex: int| -m <= ex < dx ==> !#[trigger] door_at(map@, map_w as int, map_h as int, i + ex, j + dy),
            decreases m + 1 - dx,
        {
            if is_door_at(map, map_w, map_h, ii + dx, jj + dy) {
                return true;
            }
            dx = dx + 1;
        }
        dy = dy + 1;
    }
    false
}

/// Some wall cell in the 8-neighbourhood of `(i, j)` belongs to a cover
/// cluster other than `own`.
pub open spec fn other_cluster_near(map: Seq<Cell>, cl: Seq<i32>, w: int, h: int, i: int, j: int, own: int) -> bool {
    exists|dx: int, dy: int| -1 <= dx <= 1 && -1 <= dy <= 1 && !(dx == 0 && dy == 0)
        && #[trigger] wall_at(map, w, h, i + dx, j + dy)
        && cl[flat(i + dx, j + dy, w)] >= 0 && cl[flat(i + dx, j + dy, w)] != own
}

/// Returns true if any cell in the 8-neighbourhood of (i, j) is a wall of a
/// different cover cluster than `own_cluster` (BSP walls have id -1).
pub fn ca_diagonal_other_cluster(
    map: &[Cell], cluster_of: &[i32], i: usize, j: usize, own_cluster: i32, map_w: usize, map_h: usize,
) -> (b: bool)
    requires
        grid_ok(map@, map_w as int, map_h as int),
        cluster_of@.len() == map@.len(),
        i < map_w,
        j < map_h,
    ensures
        b == other_cluster_near(map@, cluster_of@, map_w as int, map_h as int, i as int, j as int, own_cluster as int),
{
    let ii = i as i64;
    let jj = j as i64;
    proof {
        assert(map_w <= map_w * map_h && map_h <= map_w * map_h) by (nonlinear_arith)
            requires i < map_w, j < map_h;
    }
    let mut dy: i64 = -1;
    while dy <= 1
        invariant
            grid_ok(map@, map_w as int, map_h as int),
            cluster_of@.len() == map@.len(),
            i < map_w <= i32::MAX,
            j < map_h <= i32::MAX,
            ii == i,
            jj == j,
            -1 <= dy <= 2,
            forall|ex: int, ey: int| -1 <= ex <= 1 && -1 <= ey < dy && !(ex == 0 && ey == 0) ==>
                !(#[trigger] wall_at(map@, map_w as int, map_h as int, i + ex, j + ey)
                && cluster_of@[flat(i + ex, j + ey, map_w as int)] >= 0
                && cluster_of@[flat(i + ex, j + ey, map_w as int)] != own_cluster),
        decreases 2 - dy,
    {
        let mut dx: i64 = -1;
        while dx <= 1
            invariant
                grid_ok(map@, map_w as int, map_h as int),
                cluster_of@.len() == map@.len(),
                i < map_w <= i32::MAX,
                j < map_h <= i32::MAX,
                ii == i,
                jj == j,
                -1 <= dy <= 1,
                -1 <= dx <= 2,
                forall|ex: int, ey: int| -1 <= ex <= 1 && -1 <= ey < dy && !(ex == 0 && ey == 0) ==>
                    !(#[trigger] wall_at(map@, map_w as int, map_h as int, i + ex, j + ey)
                    && cluster_of@[flat(i + ex, j + ey, map_w as int)] >= 0
                    && cluster_of@[flat(i + ex, j + ey, map_w as int)] != own_cluster),
                forall|ex: int| -1 <= ex < dx && !(ex == 0 && dy == 0) ==>
                    !(#[trigger] wall_at(map@, map_w as int, map_h as int, i + ex, j + dy)
                    && cluster_of@[flat(i + ex, j + dy, map_w as int)] >= 0
                    && cluster_of@[flat(i + ex, j + dy, map_w as int)] != own_cluster),
            decreases 2 - dx,
        {
            if !(dx == 0 && dy == 0) && is_wall(map, map_w, map_h, ii + dx, jj + dy) {
                proof {
                    lemma_flat_in_range(i + dx, j + dy, map_w as int, map_h as int);
                }
                let n_idx = (jj + dy) as usize * map_w + (ii + dx) as usize;
                let cid = cluster_of[n_idx];
                if cid >= 0 && cid != own_cluster {
                    return true;
                }
            }
            dx = dx + 1;
        }
        dy = dy + 1;
    }
    false
}

/// Cardinal neighbour `k` of `(i, j)` is a wall of some cover cluster.
pub open spec fn cluster_wall_card(map: Seq<Cell>, cl: Seq<i32>, w: int, h: int, i: int, j: int, k: int) -> bool {
    wall_at(map, w, h, i + card(k).0, j + card(k).1) && cl[flat(i + card(k).0, j + card(k).1, w)] >= 0
}

/// Cluster id of cardinal neighbour `k` of `(i, j)`.
pub open spec fn card_cluster(cl: Seq<i32>, w: int, i: int, j: int, k: int) -> int {
    cl[flat(i + card(k).0, j + card(k).1, w)] as int
}

/// Number of cover-cluster walls among the cardinal neighbours of `(i, j)`.
pub open spec fn cluster_wall_count(map: Seq<Cell>, cl: Seq<i32>, w: int, h: int, i: int, j: int) -> int {
    (if cluster_wall_card(map, cl, w, h, i, j, 0) { 1int } else { 0 })
    + (if cluster_wall_card(map, cl, w, h, i, j, 1) { 1int } else { 0 })
    + (if cluster_wall_card(map, cl, w, h, i, j, 2) { 1int } else { 0 })
    + (if cluster_wall_card(map, cl, w, h, i, j, 3) { 1int } else { 0 })
}

/// Birth eligibility of floor cell `(i, j)`: `Some((cid, n))` when at least
/// one cardinal neighbour is a cover wall and all such walls belong to
/// cluster `cid` (`n` of them); `None` otherwise.
pub open spec fn spec_birth(map: Seq<Cell>, cl: Seq<i32>, w: int, h: int, i: int, j: int) -> Option<(i32, usize)> {
    if ter(map, w, i, j) != Terrain::Floor {
        None
    } else if !(exists|k: int| 0 <= k < 4 && #[trigger] cluster_wall_card(map, cl, w, h, i, j, k)) {
        None
    } else {
        let k0 = choose|k: int| 0 <= k < 4 && #[trigger] cluster_wall_card(map, cl, w, h, i, j, k);
        let cid = card_cluster(cl, w, i, j, k0);
        if forall|k: int| 0 <= k < 4 && #[trigger] cluster_wall_card(map, cl, w, h, i, j, k) ==> card_cluster(cl, w, i, j, k) == cid {
            Some((cid as i32, cluster_wall_count(map, cl, w, h, i, j) as usize))
        } else {
            None
        }
    }
}

/// Returns Some((cluster_id, cardinal_wall_count)) if (i, j) is a floor cell
/// whose cardinal cover walls all belong to a single cluster (at least one);
/// None if mixed, none, or the cell is not floor.
pub fn ca_birth_eligibility(
    map: &[Cell], cluster_of: &[i32], i: usize, j: usize, map_w: usize, map_h: usize,
) -> (r: Option<(i32, usize)>)
    requires
        grid_ok(map@, map_w as int, map_h as int),
        cluster_of@.len() == map@.len(),
        i < map_w,
        j < map_h,
    ensures
        r == spec_birth(map@, cluster_of@, map_w as int, map_h as int, i as int, j as int),
        r matches Some((c, n)) ==> c >= 0 && 1 <= n <= 4,
{
    let ghost w = map_w as int;
    let ghost h = map_h as int;
    proof {
        lemma_flat_in_range(i as int, j as int, w, h);
        assert(map_w <= map_w * map_h && map_h <= map_w * map_h) by (nonlinear_arith)
            requires i < map_w, j < map_h;
    }
    if map[j * map_w + i].terrain != Terrain::Floor {
        return None;
    }
    let ii = i as i64;
    let jj = j as i64;
    let dirs: [(i64, i64); 4] = [(-1, 0), (1, 0), (0, -1), (0, 1)];
    let mut own_cid: i32 = -1;
    let mut count: usize = 0;
    let mut k: usize = 0;
    while k < 4
        invariant
            grid_ok(map@, w, h),
            cluster_of@.len() == map@.len(),
            w == map_w as int,
            h == map_h as int,
            i < map_w <= i32::MAX,
            j < map_h <= i32::MAX,
            ii == i,
            jj == j,
            k <= 4,
            dirs@ == seq![(-1i64, 0i64), (1i64, 0i64), (0i64, -1i64), (0i64, 1i64)],
            ter(map@, w, i as int, j as int) == Terrain::Floor,
            own_cid < 0 <==> !(exists|kk: int| 0 <= kk < k && #[trigger] cluster_wall_card(map@, cluster_of@, w, h, i as int, j as int, kk)),
            forall|kk: int| 0 <= kk < k && #[trigger] cluster_wall_card(map@, cluster_of@, w, h, i as int, j as int, kk)
                ==> card_cluster(cluster_of@, w, i as int, j as int, kk) == own_cid,
            count as int == (if k > 0 && cluster_wall_card(map@, cluster_of@, w, h, i as int, j as int, 0) { 1int } else { 0 })
                + (if k > 1 && cluster_wall_card(map@, cluster_of@, w, h, i as int, j as int, 1) { 1int } else { 0 })
                + (if k > 2 && cluster_wall_card(map@, cluster_of@, w, h, i as int, j as int, 2) { 1int } else { 0 })
                + (if k > 3 && cluster_wall_card(map@, cluster_of@, w, h, i as int, j as int, 3) { 1int } else { 0 }),
        decreases 4 - k,
    {
        let (dx, dy) = dirs[k];
        proof {
            assert(dx == card(k as int).0 && dy == card(k as int).1);
        }
        let nx = ii + dx;
        let ny = jj + dy;
        if is_wall(map, map_w, map_h, nx, ny) {
            proof {
                lemma_flat_in_range(nx as int, ny as int, w, h);
            }
            let cid = cluster_of[ny as usize * map_w + nx as usize];
            proof {
                assert(cluster_wall_card(map@, cluster_of@, w, h, i as int, j as int, k as int) == (cid >= 0));
                assert(cid >= 0 ==> card_cluster(cluster_of@, w, i as int, j as int, k as int) == cid);
            }
            if cid >= 0 {
                if own_cid < 0 {
                    own_cid = cid;
                } else if own_cid != cid {
                    proof {
                        let k0 = choose|kk: int| 0 <= kk < 4 && #[trigger] cluster_wall_card(map@, cluster_of@, w, h, i as int, j as int, kk);
                        let c0 = card_cluster(cluster_of@, w, i as int, j as int, k0);
                        assert(cluster_wall_card(map@, cluster_of@, w, h, i as int, j as int, k as int));
                        let kk1 = choose|kk: int| 0 <= kk < k && #[trigger] cluster_wall_card(map@, cluster_of@, w, h, i as int, j as int, kk);
                        assert(card_cluster(cluster_of@, w, i as int, j as int, kk1) == own_cid);
                        if c0 == own_cid {
                            assert(!(card_cluster(cluster_of@, w, i as int, j as int, k as int) == c0));
                        } else {
                            assert(!(card_cluster(cluster_of@, w, i as int, j as int, kk1) == c0));
                        }
                    }
                    return None;
                }
                count = count + 1;
            }
        } else {
            proof {
                assert(!cluster_wall_card(map@, cluster_of@, w, h, i as int, j as int, k as int));
            }
        }
        k = k + 1;
    }
    if own_cid < 0 {
        return None;
    }
    proof {
        let k0 = choose|kk: int| 0 <= kk < 4 && #[trigger] cluster_wall_card(map@, cluster_of@, w, h, i as int, j as int, kk);
        assert(card_cluster(cluster_of@, w, i as int, j as int, k0) == own_cid);
    }
    Some((own_cid, count))
}

// ---------------------------------------------------------------------------
// Void cleanup
// ---------------------------------------------------------------------------

/// No walkable-or-door cell (anything but wall or void) touches the void
/// cardinally: the playable area is sealed by walls.
pub open spec fn void_sealed(map: Seq<Cell>, w: int, h: int) -> bool {
    forall|x: int, y: int, k: int| in_grid(x, y, w, h) && 0 <= k < 4
        && ter(map, w, x, y) != Terrain::Void && ter(map, w, x, y) != Terrain::Wall
        ==> !#[trigger] void_at(map, w, h, x + card(k).0, y + card(k).1)
}

/// Cardinal neighbour `k` of `(x, y)` is off the grid or void.
pub open spec fn void_or_edge(map: Seq<Cell>, w: int, h: int, x: int, y: int, k: int) -> bool {
    let q = (x + card(k).0, y + card(k).1);
    !in_grid(q.0, q.1, w, h) || void_at(map, w, h, q.0, q.1)
}

/// Some cardinal neighbour of `(x, y)` is an on-grid void cell.
pub open spec fn touches_void(map: Seq<Cell>, w: int, h: int, x: int, y: int) -> bool {
    ||| void_at(map, w, h, x - 1, y)
    ||| void_at(map, w, h, x + 1, y)
    ||| void_at(map, w, h, x, y - 1)
    ||| void_at(map, w, h, x, y + 1)
}

/// Every on-grid cardinal neighbour of `(x, y)` is void.
pub open spec fn all_void_around(map: Seq<Cell>, w: int, h: int, x: int, y: int) -> bool {
    &&& void_or_edge(map, w, h, x, y, 0)
    &&& void_or_edge(map, w, h, x, y, 1)
    &&& void_or_edge(map, w, h, x, y, 2)
    &&& void_or_edge(map, w, h, x, y, 3)
}

/// What sealing makes of cell `(x, y)` of `map`: a non-void cell whose
/// on-grid neighbours are all void becomes bare void, one with some void
/// neighbour becomes a bare wall, anything else is kept.
pub open spec fn sealed_cell(map: Seq<Cell>, w: int, h: int, x: int, y: int) -> Cell {
    let c = map[flat(x, y, w)];
    if c.terrain == Terrain::Void {
        c
    } else if all_void_around(map, w, h, x, y) {
        Cell { terrain: Terrain::Void, furniture: None }
    } else if touches_void(map, w, h, x, y) {
        Cell { terrain: Terrain::Wall, furniture: None }
    } else {
        c
    }
}

/// Seal the map boundary: any non-Void cell adjacent to at least one Void
/// neighbour becomes Wall; a cell whose neighbours are all Void becomes Void.
/// Every cell is judged on the map as it was: a cell absorbed into the void
/// has only void neighbours, so no other cell's verdict depends on it.
#[verifier::rlimit(60)]
#[verifier::spinoff_prover]
pub fn void_cleanup(map: &mut Vec<Cell>, map_w: usize, map_h: usize)
    requires
        grid_ok(old(map)@, map_w as int, map_h as int),
    ensures
        final(map)@.len() == old(map)@.len(),
        forall|x: int, y: int| #![trigger final(map)@[flat(x, y, map_w as int)]] in_grid(x, y, map_w as int, map_h as int)
            ==> final(map)@[flat(x, y, map_w as int)] == sealed_cell(old(map)@, map_w as int, map_h as int, x, y),
        void_sealed(final(map)@, map_w as int, map_h as int),
        forall|c: int| 0 <= c < old(map)@.len() ==> {
            let t0 = #[trigger] old(map)@[c].terrain;
            let t1 = final(map)@[c].terrain;
            &&& t0 == Terrain::Void ==> t1 == Terrain::Void
            &&& (t1 == t0 && final(map)@[c] == old(map)@[c]) || t1 == Terrain::Void || t1 == Terrain::Wall
        },
{
    let ghost w = map_w as int;
    let ghost h = map_h as int;
    let ghost m0 = map@;
    let mut y: usize = 0;
    while y < map_h
        invariant
            grid_ok(map@, w, h),
            w == map_w as int,
            h == map_h as int,
            map@.len() == m0.len(),
            forall|xx: int, yy: int| #![trigger map@[flat(xx, yy, w)]] in_grid(xx, yy, w, h) && yy < y
                ==> map@[flat(xx, yy, w)] == sealed_cell(m0, w, h, xx, yy),
            y <= map_h,
            // processed rows are sealed
            forall|x: int, yy: int, k: int| in_grid(x, yy, w, h) && yy < y && 0 <= k < 4
                && ter(map@, w, x, yy) != Terrain::Void && ter(map@, w, x, yy) != Terrain::Wall
                ==> !#[trigger] void_at(map@, w, h, x + card(k).0, yy + card(k).1),
            forall|c: int| 0 <= c < m0.len() ==> {
                let t0 = #[trigger] m0[c].terrain;
                let t1 = map@[c].terrain;
                &&& t0 == Terrain::Void ==> t1 == Terrain::Void
                &&& (t1 == t0 && map@[c] == m0[c]) || t1 == Terrain::Void || t1 == Terrain::Wall
            },
            // unprocessed cells are untouched
            forall|c: int| y * w <= c < m0.len() ==> #[trigger] map@[c] == m0[c],
        decreases map_h - y,
    {
        let mut x: usize = 0;
        while x < map_w
            invariant
                grid_ok(map@, w, h),
                w == map_w as int,
                h == map_h as int,
                map@.len() == m0.len(),
                forall|xx: int, yy: int| #![trigger map@[flat(xx, yy, w)]] in_grid(xx, yy, w, h) && (yy < y || (yy == y && xx < x))
                    ==> map@[flat(xx, yy, w)] == sealed_cell(m0, w, h, xx, yy),
                y < map_h,
                x <= map_w,
                forall|xx: int, yy: int, k: int| in_grid(xx, yy, w, h) && (yy < y || (yy == y && xx < x)) && 0 <= k < 4
                    && ter(map@, w, xx, yy) != Terrain::Void && ter(map@, w, xx, yy) != Terrain::Wall
                    ==> !#[trigger] void_at(map@, w, h, xx + card(k).0, yy + card(k).1),
                forall|c: int| 0 <= c < m0.len() ==> {
                    let t0 = #[trigger] m0[c].terrain;
                    let t1 = map@[c].terrain;
                    &&& t0 == Terrain::Void ==> t1 == Terrain::Void
                    &&& (t1 == t0 && map@[c] == m0[c]) || t1 == Terrain::Void || t1 == Terrain::Wall
                },
                forall|c: int| y * w + x <= c < m0.len() ==> #[trigger] map@[c] == m0[c],
            decreases map_w - x,
        {
            proof {
                lemma_flat_in_range(x as int, y as int, w, h);
            }
            let i = y * map_w + x;
            proof {
                lemma_seal_sees_original(m0, map@, w, h, x as int, y as int);
            }
            let ghost pre = map@;
            if map[i].terrain != Terrain::Void {
                let xi = x as i64;
                let yi = y as i64;
                proof {
                    assert(map_w <= map_w * map_h && map_h <= map_w * map_h) by (nonlinear_arith)
                        requires x < map_w, y < map_h;
                }
                let mut void_n: u8 = 0;
                let mut nbr_n: u8 = 0;
                if x > 0 { nbr_n = nbr_n + 1; if is_void(map, map_w, map_h, xi - 1, yi) { void_n = void_n + 1; } }
                if x + 1 < map_w { nbr_n = nbr_n + 1; if is_void(map, map_w, map_h, xi + 1, yi) { void_n = void_n + 1; } }
                if y > 0 { nbr_n = nbr_n + 1; if is_void(map, map_w, map_h, xi, yi - 1) { void_n = void_n + 1; } }
                if y + 1 < map_h { nbr_n = nbr_n + 1; if is_void(map, map_w, map_h, xi, yi + 1) { void_n = void_n + 1; } }
                let ghost before = map@;
                proof {
                    // void_n counts exactly the void cardinal neighbours; nbr_n the on-grid ones
                    assert(void_n == 0 ==> forall|k: int| 0 <= k < 4 ==> !#[trigger] void_at(map@, w, h, x + card(k).0, y + card(k).1));
                    assert(void_n == nbr_n ==> forall|k: int| 0 <= k < 4 && in_grid(x + card(k).0, y + card(k).1, w, h)
                        ==> #[trigger] void_at(map@, w, h, x + card(k).0, y + card(k).1));
                    assert((void_n == nbr_n) == all_void_around(map@, w, h, x as int, y as int));
                    assert((void_n > 0) == touches_void(map@, w, h, x as int, y as int));
                }
                if void_n == nbr_n {
                    let c = Cell { terrain: Terrain::Void, furniture: None };
                    map.set(i, c);
                } else if void_n > 0 {
                    let c = Cell { terrain: Terrain::Wall, furniture: None };
                    map.set(i, c);
                }
                proof {
                    assert(map@[i as int] == sealed_cell(m0, w, h, x as int, y as int));
                    assert forall|xx: int, yy: int, k: int| in_grid(xx, yy, w, h) && (yy < y || (yy == y && xx < x + 1)) && 0 <= k < 4
                        && ter(map@, w, xx, yy) != Terrain::Void && ter(map@, w, xx, yy) != Terrain::Wall
                        implies !#[trigger] void_at(map@, w, h, xx + card(k).0, yy + card(k).1) by {
                        lemma_flat_in_range(xx, yy, w, h);
                        let q = (xx + card(k).0, yy + card(k).1);
                        if xx == x && yy == y {
                            assert(void_n == 0);
                            if in_grid(q.0, q.1, w, h) {
                                lemma_flat_in_range(q.0, q.1, w, h);
                                assert(!void_at(before, w, h, q.0, q.1));
                            }
                        } else {
                            assert(flat(xx, yy, w) != i);
                            assert(map@[flat(xx, yy, w)] == before[flat(xx, yy, w)]);
                            if in_grid(q.0, q.1, w, h) {
                                lemma_flat_in_range(q.0, q.1, w, h);
                                if flat(q.0, q.1, w) == i as int {
                                    // (xx, yy) is a processed neighbour of the current cell
                                    lemma_flat_injective_local(q.0, q.1, x as int, y as int, w, h);
                                    if ter(map@, w, x as int, y as int) == Terrain::Void {
                                        let kb = if k == 0 { 1int } else if k == 1 { 0int } else if k == 2 { 3int } else { 2int };
                                        assert(xx == x + card(kb).0 && yy == y + card(kb).1);
                                        assert(void_at(before, w, h, xx, yy));
                                        assert(false);
                                    }
                                } else {
                                    assert(!void_at(before, w, h, q.0, q.1));
                                }
                            }
                        }
                    }
                }
            }
            proof {
                lemma_seal_extend(m0, pre, map@, w, h, x as int, y as int);
            }
            x = x + 1;
        }
        proof {
            assert((y + 1) * w == y * w + w) by (nonlinear_arith);
        }
        y = y + 1;
    }
}

/// While the scan stands at a non-void `(x, y)`, its neighbours look as they
/// did on the original map: those already visited were sealed, and none of
/// them was absorbed, since `(x, y)` itself is not void.
proof fn lemma_seal_sees_original(m0: Seq<Cell>, m: Seq<Cell>, w: int, h: int, x: int, y: int)
    requires
        grid_ok(m0, w, h),
        m.len() == m0.len(),
        in_grid(x, y, w, h),
        forall|xx: int, yy: int| #![trigger m[flat(xx, yy, w)]] in_grid(xx, yy, w, h) && (yy < y || (yy == y && xx < x))
            ==> m[flat(xx, yy, w)] == sealed_cell(m0, w, h, xx, yy),
        forall|c: int| flat(x, y, w) <= c < m0.len() ==> #[trigger] m[c] == m0[c],
    ensures
        m[flat(x, y, w)] == m0[flat(x, y, w)],
        ter(m0, w, x, y) != Terrain::Void ==> {
            &&& all_void_around(m, w, h, x, y) == all_void_around(m0, w, h, x, y)
            &&& touches_void(m, w, h, x, y) == touches_void(m0, w, h, x, y)
        },
{
    lemma_flat_in_range(x, y, w, h);
    if ter(m0, w, x, y) != Terrain::Void {
        // later neighbours are untouched
        if in_grid(x + 1, y, w, h) {
            lemma_flat_in_range(x + 1, y, w, h);
            assert(m[flat(x + 1, y, w)] == m0[flat(x + 1, y, w)]);
        }
        if in_grid(x, y + 1, w, h) {
            lemma_flat_in_range(x, y + 1, w, h);
            assert(flat(x, y + 1, w) == flat(x, y, w) + w) by (nonlinear_arith);
            assert(m[flat(x, y + 1, w)] == m0[flat(x, y + 1, w)]);
        }
        // earlier neighbours were sealed without being absorbed
        if in_grid(x - 1, y, w, h) {
            lemma_flat_in_range(x - 1, y, w, h);
            assert(m[flat(x - 1, y, w)] == sealed_cell(m0, w, h, x - 1, y));
            assert(!void_or_edge(m0, w, h, x - 1, y, 1));
        }
        if in_grid(x, y - 1, w, h) {
            lemma_flat_in_range(x, y - 1, w, h);
            assert(m[flat(x, y - 1, w)] == sealed_cell(m0, w, h, x, y - 1));
            assert(!void_or_edge(m0, w, h, x, y - 1, 3));
        }
    }
}

/// One more cell of the scan is sealed: the sealed prefix grows by `(x, y)`.
proof fn lemma_seal_extend(m0: Seq<Cell>, pre: Seq<Cell>, m: Seq<Cell>, w: int, h: int, x: int, y: int)
    requires
        grid_ok(m0, w, h),
        in_grid(x, y, w, h),
        pre.len() == m0.len(),
        m.len() == m0.len(),
        forall|xx: int, yy: int| #![trigger pre[flat(xx, yy, w)]] in_grid(xx, yy, w, h) && (yy < y || (yy == y && xx < x))
            ==> pre[flat(xx, yy, w)] == sealed_cell(m0, w, h, xx, yy),
        forall|c: int| 0 <= c < m0.len() && c != flat(x, y, w) ==> #[trigger] m[c] == pre[c],
        m[flat(x, y, w)] == sealed_cell(m0, w, h, x, y),
    ensures
        forall|xx: int, yy: int| #![trigger m[flat(xx, yy, w)]] in_grid(xx, yy, w, h) && (yy < y || (yy == y && xx < x + 1))
            ==> m[flat(xx, yy, w)] == sealed_cell(m0, w, h, xx, yy),
{
    assert forall|xx: int, yy: int| #![trigger m[flat(xx, yy, w)]] in_grid(xx, yy, w, h) && (yy < y || (yy == y && xx < x + 1))
        implies m[flat(xx, yy, w)] == sealed_cell(m0, w, h, xx, yy) by {
        if !(xx == x && yy == y) {
            lemma_flat_in_range(xx, yy, w, h);
            if flat(xx, yy, w) == flat(x, y, w) {
                crate::cell::lemma_flat_injective(xx, yy, x, y, w, h);
            }
            assert(m[flat(xx, yy, w)] == pre[flat(xx, yy, w)]);
        }
    }
}

/// Is `(x, y)` an on-grid void cell.
fn is_void(map: &[Cell], map_w: usize, map_h: usize, x: i64, y: i64) -> (b: bool)
    requires
        grid_ok(map@, map_w as int, map_h as int),
    ensures
        b == void_at(map@, map_w as int, map_h as int, x as int, y as int),
{
    if x < 0 || y < 0 || x as u64 >= map_w as u64 || y as u64 >= map_h as u64 {
        return false;
    }
    proof {
        lemma_flat_in_range(x as int, y as int, map_w as int, map_h as int);
    }
    let i = y as usize * map_w + x as usize;
    match map[i].terrain {
        Terrain::Void => true,
        _ => false,
    }
}

proof fn lemma_flat_injective_local(x1: int, y1: int, x2: int, y2: int, w: int, h: int)
    requires
        in_grid(x1, y1, w, h),
        in_grid(x2, y2, w, h),
        flat(x1, y1, w) == flat(x2, y2, w),
    ensures
        x1 == x2,
        y1 == y2,
{
    crate::cell::lemma_flat_injective(x1, y1, x2, y2, w, h);
}

// ---------------------------------------------------------------------------
// Cellular-automaton cover generation
// ---------------------------------------------------------------------------

/// `m1` differs from `m0` only by floor cells that became walls (keeping
/// their furniture).
pub open spec fn only_floor_to_wall(m0: Seq<Cell>, m1: Seq<Cell>) -> bool {
    &&& m0.len() == m1.len()
    &&& forall|c: int| 0 <= c < m0.len() ==> #[trigger] m1[c] == m0[c]
        || (m0[c].terrain == Terrain::Floor && m1[c].terrain == Terrain::Wall && m1[c].furniture == m0[c].furniture)
}

/// Flat indices at which `m1` differs from `m0`.
pub open spec fn changed_cells(m0: Seq<Cell>, m1: Seq<Cell>) -> Set<int> {
    Set::new(|c: int| 0 <= c < m0.len() && m1[c] != m0[c])
}

/// `r` lies within the `w` by `h` grid.
pub open spec fn rect_in(r: BspRect, w: int, h: int) -> bool {
    r.x + r.w <= w && r.y + r.h <= h
}

proof fn lemma_changed_finite(m0: Seq<Cell>, m1: Seq<Cell>)
    ensures
        changed_cells(m0, m1).finite(),
        changed_cells(m0, m1).len() <= m0.len(),
{
    vstd::set_lib::lemma_int_range(0, m0.len() as int);
    assert(changed_cells(m0, m1).subset_of(vstd::set_lib::set_int_range(0, m0.len() as int)));
    vstd::set_lib::lemma_len_subset(changed_cells(m0, m1), vstd::set_lib::set_int_range(0, m0.len() as int));
}

/// Chaining two floor-to-wall stages adds up their changed cells.
proof fn lemma_changed_chain(m0: Seq<Cell>, m1: Seq<Cell>, m2: Seq<Cell>)
    requires
        only_floor_to_wall(m0, m1),
        only_floor_to_wall(m1, m2),
    ensures
        only_floor_to_wall(m0, m2),
        changed_cells(m0, m2).len() == changed_cells(m0, m1).len() + changed_cells(m1, m2).len(),
{
    lemma_changed_finite(m0, m1);
    lemma_changed_finite(m1, m2);
    let a = changed_cells(m0, m1);
    let b = changed_cells(m1, m2);
    assert forall|c: int| 0 <= c < m0.len() implies #[trigger] m2[c] == m0[c]
        || (m0[c].terrain == Terrain::Floor && m2[c].terrain == Terrain::Wall && m2[c].furniture == m0[c].furniture) by {
        assert(m1[c] == m0[c] || (m0[c].terrain == Terrain::Floor && m1[c].terrain == Terrain::Wall && m1[c].furniture == m0[c].furniture));
        assert(m2[c] == m1[c] || (m1[c].terrain == Terrain::Floor && m2[c].terrain == Terrain::Wall && m2[c].furniture == m1[c].furniture));
    }
    assert(a.disjoint(b)) by {
        assert forall|c: int| a.contains(c) implies !b.contains(c) by {
            assert(m1[c].terrain == Terrain::Wall);
        }
    }
    assert(changed_cells(m0, m2) =~= a.union(b)) by {
        assert forall|c: int| #[trigger] changed_cells(m0, m2).contains(c) <==> a.union(b).contains(c) by {
            if 0 <= c < m0.len() {
                assert(m1[c] == m0[c] || (m0[c].terrain == Terrain::Floor && m1[c].terrain == Terrain::Wall));
                assert(m2[c] == m1[c] || (m1[c].terrain == Terrain::Floor && m2[c].terrain == Terrain::Wall));
            }
        }
    }
    vstd::set_lib::lemma_set_disjoint_lens(a, b);
}

/// Grow the cover clusters of one leaf with the probabilistic synchronous
/// cellular automaton. Each placement that would split the walkable floor is
/// reverted, so a connected floor stays connected.
fn ca_grow_leaf(
    map: &mut Vec<Cell>,
    cluster_of: &mut Vec<i32>,
    leaf: &BspRect,
    leaf_first_cid: i32,
    cluster_sizes: &mut Vec<usize>,
    growth_limit: usize,
    rng: &mut MapRng,
    map_w: usize,
    map_h: usize,
) -> (placed: usize)
    requires
        map_ok(old(map)@, map_w as int),
        map_h as int == rows(old(map)@, map_w as int),
        old(cluster_of)@.len() == old(map)@.len(),
        rect_in(*leaf, map_w as int, map_h as int),
        leaf_first_cid >= 0,
    ensures
        only_floor_to_wall(old(map)@, final(map)@),
        changed_cells(old(map)@, final(map)@).finite(),
        placed == changed_cells(old(map)@, final(map)@).len(),
        final(cluster_of)@.len() == final(map)@.len(),
        final(cluster_sizes)@.len() == old(cluster_sizes)@.len(),
        floor_connected(old(map)@, map_w as int, map_h as int) ==> floor_connected(final(map)@, map_w as int, map_h as int),
        no_new_block(old(map)@, final(map)@, map_w as int, map_h as int),
        forall|c: int| 0 <= c < old(map)@.len() && #[trigger] final(map)@[c] != old(map)@[c]
            ==> leaf_cell(*leaf, map_w as int, c),
{
    let ghost w = map_w as int;
    let ghost h = map_h as int;
    let ghost m0 = map@;
    proof {
        lemma_map_ok(map@, w);
        lemma_changed_finite(m0, m0);
        assert(changed_cells(m0, m0) =~= Set::empty());
    }
    let mut placed: usize = 0;
    let mut iter: usize = 0;
    while iter < CA_MAX_ITER
        invariant
            map_ok(map@, w),
            w == map_w as int,
            h == map_h as int,
            h == rows(map@, w),
            grid_ok(map@, w, h),
            map@.len() == m0.len(),
            cluster_of@.len() == map@.len(),
            cluster_sizes@.len() == old(cluster_sizes)@.len(),
            rect_in(*leaf, w, h),
            leaf_first_cid >= 0,
            only_floor_to_wall(m0, map@),
            changed_cells(m0, map@).finite(),
            placed == changed_cells(m0, map@).len(),
            floor_connected(m0, w, h) ==> floor_connected(map@, w, h),
            no_new_block(m0, map@, w, h),
            forall|c: int| 0 <= c < m0.len() && #[trigger] map@[c] != m0[c] ==> leaf_cell(*leaf, w, c),
        decreases CA_MAX_ITER - iter,
    {
        // === Snapshot phase: collect candidates (flat index, cluster id) ===
        let mut candidates: Vec<(usize, i32)> = Vec::new();
        let mut j = leaf.y;
        while j < leaf.y + leaf.h
            invariant
                grid_ok(map@, w, h),
                w == map_w as int,
                h == map_h as int,
                cluster_of@.len() == map@.len(),
                rect_in(*leaf, w, h),
                leaf_first_cid >= 0,
                leaf.y <= j <= leaf.y + leaf.h,
                forall|t: int| 0 <= t < candidates@.len() ==> (#[trigger] candidates@[t]).0 < map@.len(),
                forall|t: int| 0 <= t < candidates@.len() ==> leaf_cell(*leaf, w, (#[trigger] candidates@[t]).0 as int),
            decreases leaf.y + leaf.h - j,
        {
            let mut i = leaf.x;
            while i < leaf.x + leaf.w
                invariant
                    grid_ok(map@, w, h),
                    w == map_w as int,
                    h == map_h as int,
                    cluster_of@.len() == map@.len(),
                    rect_in(*leaf, w, h),
                    leaf_first_cid >= 0,
                    leaf.y <= j < leaf.y + leaf.h,
                    leaf.x <= i <= leaf.x + leaf.w,
                    forall|t: int| 0 <= t < candidates@.len() ==> (#[trigger] candidates@[t]).0 < map@.len(),
                    forall|t: int| 0 <= t < candidates@.len() ==> leaf_cell(*leaf, w, (#[trigger] candidates@[t]).0 as int),
                decreases leaf.x + leaf.w - i,
            {
                proof {
                    lemma_flat_in_range(i as int, j as int, w, h);
                }
                let idx = j * map_w + i;
                proof {
                    lemma_unflat(idx as int, w, h);
                    lemma_flat_injective(i as int, j as int, (idx as int) % w, (idx as int) / w, w, h);
                    assert(leaf_cell(*leaf, w, idx as int));
                }
                if map[idx].terrain == Terrain::Floor {
                    match ca_birth_eligibility(map, cluster_of, i, j, map_w, map_h) {
                        Some((own_cid, deg)) => {
                            if own_cid >= leaf_first_cid {
                                let local_cid = (own_cid - leaf_first_cid) as usize;
                                if local_cid < cluster_sizes.len() && cluster_sizes[local_cid] < growth_limit
                                    && !ca_would_create_2x2(map, i, j, map_w, map_h)
                                    && !ca_would_create_deadend(map, i, j, map_w, map_h)
                                    && !door_within_margin(map, i, j, CA_DOOR_MARGIN, map_w, map_h)
                                    && !ca_diagonal_other_cluster(map, cluster_of, i, j, own_cid, map_w, map_h)
                                {
                                    let p = degree_bias_percent(deg);
                                    let roll = rng.below(100);
                                    if roll < p {
                                        candidates.push((idx, own_cid));
                                    }
                                }
                            }
                        },
                        None => {},
                    }
                }
                i = i + 1;
            }
            j = j + 1;
        }

        if candidates.len() == 0 {
            break;
        }

        // Shuffle candidates so the apply order is random.
        let mut k = candidates.len() - 1;
        while k > 0
            invariant
                k < candidates@.len(),
                forall|t: int| 0 <= t < candidates@.len() ==> (#[trigger] candidates@[t]).0 < map@.len(),
                forall|t: int| 0 <= t < candidates@.len() ==> leaf_cell(*leaf, w, (#[trigger] candidates@[t]).0 as int),
            decreases k,
        {
            let kk: u64 = k as u64;
            proof {
                assert(k < candidates.len());
                assert(candidates.len() <= usize::MAX);
                assert(kk < u64::MAX);
            }
            let r = rng.below(kk + 1) as usize;
            let a = candidates[k];
            let b = candidates[r];
            candidates.set(k, b);
            candidates.set(r, a);
            k = k - 1;
        }

        // === Apply phase: sequential with re-check ===
        let mut placed_this_iter: usize = 0;
        let mut t: usize = 0;
        while t < candidates.len()
            invariant
                map_ok(map@, w),
                w == map_w as int,
                h == map_h as int,
                h == rows(map@, w),
                grid_ok(map@, w, h),
                map@.len() == m0.len(),
                cluster_of@.len() == map@.len(),
                cluster_sizes@.len() == old(cluster_sizes)@.len(),
                rect_in(*leaf, w, h),
                leaf_first_cid >= 0,
                only_floor_to_wall(m0, map@),
                changed_cells(m0, map@).finite(),
                placed == changed_cells(m0, map@).len(),
                floor_connected(m0, w, h) ==> floor_connected(map@, w, h),
                no_new_block(m0, map@, w, h),
                forall|tt: int| 0 <= tt < candidates@.len() ==> (#[trigger] candidates@[tt]).0 < map@.len(),
                forall|tt: int| 0 <= tt < candidates@.len() ==> leaf_cell(*leaf, w, (#[trigger] candidates@[tt]).0 as int),
                forall|c: int| 0 <= c < m0.len() && #[trigger] map@[c] != m0[c] ==> leaf_cell(*leaf, w, c),
                placed_this_iter <= t <= candidates@.len(),
            decreases candidates@.len() - t,
        {
            let (idx, cid) = candidates[t];
            t = t + 1;
            proof {
                lemma_unflat(idx as int, w, h);
            }
            let i = idx % map_w;
            let j = idx / map_w;
            if map[idx].terrain != Terrain::Floor {
                continue;
            }
            let recheck = match ca_birth_eligibility(map, cluster_of, i, j, map_w, map_h) {
                Some((rc, _)) => rc == cid,
                None => false,
            };
            if !recheck
                || ca_would_create_2x2(map, i, j, map_w, map_h)
                || ca_would_create_deadend(map, i, j, map_w, map_h)
                || ca_diagonal_other_cluster(map, cluster_of, i, j, cid, map_w, map_h)
            {
                continue;
            }
            // Tentative commit.
            let ghost before = map@;
            let old_cell = map[idx];
            let wall = Cell { terrain: Terrain::Wall, furniture: old_cell.furniture };
            map.set(idx, wall);
            cluster_of.set(idx, cid);
            proof {
                lemma_map_ok(map@, w);
            }
            // Global connectivity check: revert placements that split the floor.
            if !floor_globally_connected(map, map_w, map_h) {
                map.set(idx, old_cell);
                cluster_of.set(idx, -1);
                proof {
                    assert(map@ =~= before);
                }
                continue;
            }
            proof {
                lemma_wall_no_block(m0, before, map@, w, h, i as int, j as int);
                lemma_changed_finite(m0, map@);
                assert(changed_cells(m0, map@) =~= changed_cells(m0, before).insert(idx as int)) by {
                    assert forall|c: int| #[trigger] changed_cells(m0, map@).contains(c) <==> changed_cells(m0, before).insert(idx as int).contains(c) by {
                        if c == idx as int {
                            assert(before[c].terrain == Terrain::Floor);
                            assert(map@[c].terrain == Terrain::Wall);
                            assert(m0[c].terrain == Terrain::Floor);
                        }
                    }
                }
                assert(!changed_cells(m0, before).contains(idx as int)) by {
                    if changed_cells(m0, before).contains(idx as int) {
                        assert(before[idx as int].terrain == Terrain::Wall);
                    }
                }
                assert forall|c: int| 0 <= c < m0.len() implies #[trigger] map@[c] == m0[c]
                    || (m0[c].terrain == Terrain::Floor && map@[c].terrain == Terrain::Wall && map@[c].furniture == m0[c].furniture) by {
                    if c == idx as int {
                        assert(before[c].terrain == Terrain::Floor);
                        assert(before[c] == m0[c] || before[c].terrain == Terrain::Wall);
                    }
                }
                assert(changed_cells(m0, map@).len() <= m0.len()) by {
                    lemma_changed_finite(m0, map@);
                }
                assert(leaf_cell(*leaf, w, candidates@[t - 1].0 as int));
                assert forall|c: int| 0 <= c < m0.len() && #[trigger] map@[c] != m0[c] implies leaf_cell(*leaf, w, c) by {
                    if c != idx as int {
                        assert(map@[c] == before[c]);
                    }
                }
            }
            let local_cid = if cid >= leaf_first_cid { (cid - leaf_first_cid) as usize } else { cluster_sizes.len() };
            if local_cid < cluster_sizes.len() && cluster_sizes[local_cid] < usize::MAX {
                let sz = cluster_sizes[local_cid];
                cluster_sizes.set(local_cid, sz + 1);
            }
            placed = placed + 1;
            placed_this_iter = placed_this_iter + 1;
        }

        if placed_this_iter == 0 {
            break;
        }
        iter = iter + 1;
    }
    placed
}

/// True if no earlier seed of the leaf is within Manhattan distance
/// `CA_SEED_PAIR_DIST` of `(sx, sy)`.
fn seed_far_enough(seeds: &Vec<(usize, usize)>, sx: usize, sy: usize) -> (b: bool)
    requires
        sx <= i32::MAX,
        sy <= i32::MAX,
        forall|t: int| 0 <= t < seeds@.len() ==> (#[trigger] seeds@[t]).0 <= i32::MAX && seeds@[t].1 <= i32::MAX,
    ensures
        b == forall|t: int| 0 <= t < seeds@.len() ==>
            #[trigger] vstd::math::abs(sx - seeds@[t].0) + vstd::math::abs(sy - seeds@[t].1) >= CA_SEED_PAIR_DIST,
{
    let mut t: usize = 0;
    while t < seeds.len()
        invariant
            t <= seeds@.len(),
            sx <= i32::MAX,
            sy <= i32::MAX,
            forall|tt: int| 0 <= tt < seeds@.len() ==> (#[trigger] seeds@[tt]).0 <= i32::MAX && seeds@[tt].1 <= i32::MAX,
            forall|tt: int| 0 <= tt < t ==>
                #[trigger] vstd::math::abs(sx - seeds@[tt].0) + vstd::math::abs(sy - seeds@[tt].1) >= CA_SEED_PAIR_DIST,
        decreases seeds@.len() - t,
    {
        let (ox, oy) = seeds[t];
        let dx = if sx >= ox { sx - ox } else { ox - sx };
        let dy = if sy >= oy { sy - oy } else { oy - sy };
        if (dx as u64) + (dy as u64) < CA_SEED_PAIR_DIST as u64 {
            proof {
                let ti = t as int;
                assert(vstd::math::abs(sx - seeds@[ti].0) == dx as int);
                assert(vstd::math::abs(sy - seeds@[ti].1) == dy as int);
                assert(!(vstd::math::abs(sx - seeds@[ti].0) + vstd::math::abs(sy - seeds@[ti].1) >= CA_SEED_PAIR_DIST));
            }
            return false;
        }
        t = t + 1;
    }
    true
}

/// Where the first seed of `leaf` is tried from generator state `st`: two
/// draws, one per axis, inside the leaf less its seed margin.
pub open spec fn first_seed_pos(leaf: BspRect, st: u64) -> (int, int) {
    let iw = leaf.w - 2 * CA_SEED_MARGIN;
    let ih = leaf.h - 2 * CA_SEED_MARGIN;
    let s1 = xorshift64_next(st);
    let s2 = xorshift64_next(s1);
    (leaf.x + CA_SEED_MARGIN + (s1 as int) % iw, leaf.y + CA_SEED_MARGIN + (s2 as int) % ih)
}

/// A seed may go at `(x, y)`: a floor cell whose four neighbours are on the
/// grid and floor or toilet, with no door within `CA_DOOR_MARGIN`.
pub open spec fn seed_spot_ok(map: Seq<Cell>, w: int, h: int, x: int, y: int) -> bool {
    &&& in_grid(x, y, w, h)
    &&& ter(map, w, x, y) == Terrain::Floor
    &&& forall|k: int| 0 <= k < 4 ==> in_grid(x + card(k).0, y + card(k).1, w, h)
        && (#[trigger] ter(map, w, x + card(k).0, y + card(k).1) == Terrain::Floor
            || ter(map, w, x + card(k).0, y + card(k).1) == Terrain::Toilet)
    &&& !door_near(map, w, h, x, y, CA_DOOR_MARGIN as int)
}

/// The first leaf is large enough for cover and its first tried seed spot fits.
pub open spec fn first_seed_fits(map: Seq<Cell>, w: int, h: int, leaves: Seq<BspRect>, st: u64) -> bool {
    &&& leaves.len() > 0
    &&& leaves[0].w >= CA_MIN_LEAF_DIM
    &&& leaves[0].h >= CA_MIN_LEAF_DIM
    &&& seed_spot_ok(map, w, h, first_seed_pos(leaves[0], st).0, first_seed_pos(leaves[0], st).1)
}

/// Flat index `c` is a cell of leaf `l` on a grid `w` wide.
pub open spec fn leaf_cell(l: BspRect, w: int, c: int) -> bool {
    l.x <= c % w < l.x + l.w && l.y <= c / w < l.y + l.h
}

/// The eight cells around `(x, y)` are on the grid and walkable.
pub open spec fn ring_open(m: Seq<Cell>, w: int, h: int, x: int, y: int) -> bool {
    &&& open_at(m, w, h, x - 1, y - 1)
    &&& open_at(m, w, h, x, y - 1)
    &&& open_at(m, w, h, x + 1, y - 1)
    &&& open_at(m, w, h, x + 1, y)
    &&& open_at(m, w, h, x + 1, y + 1)
    &&& open_at(m, w, h, x, y + 1)
    &&& open_at(m, w, h, x - 1, y + 1)
    &&& open_at(m, w, h, x - 1, y)
}

/// Any two side neighbours of a cell with an open ring reach each other
/// around it.
proof fn lemma_ring_reach(m: Seq<Cell>, w: int, h: int, x: int, y: int, u: (int, int), v: (int, int))
    requires
        ring_open(m, w, h, x, y),
        adjacent(u, (x, y)),
        adjacent(v, (x, y)),
    ensures
        reachable(m, w, h, u, v),
{
    let r0 = (x - 1, y);
    let r1 = (x - 1, y - 1);
    let r2 = (x, y - 1);
    let r3 = (x + 1, y - 1);
    let r4 = (x + 1, y);
    let r5 = (x + 1, y + 1);
    let r6 = (x, y + 1);
    let r7 = (x - 1, y + 1);
    lemma_reach_refl(m, w, h, r0);
    lemma_reach_step(m, w, h, r0, r0, r1);
    lemma_reach_step(m, w, h, r0, r1, r2);
    lemma_reach_step(m, w, h, r0, r2, r3);
    lemma_reach_step(m, w, h, r0, r3, r4);
    lemma_reach_step(m, w, h, r0, r4, r5);
    lemma_reach_step(m, w, h, r0, r5, r6);
    assert(u == r0 || u == r2 || u == r4 || u == r6);
    assert(v == r0 || v == r2 || v == r4 || v == r6);
    if u != r0 {
        lemma_reach_symm(m, w, h, r0, u);
        lemma_reach_trans(m, w, h, u, r0, v);
    }
}

/// A walk between two cells other than `s` can be rerouted around `s` in a
/// map that differs only at `s` and keeps the ring around `s` open.
proof fn lemma_walk_avoids(m: Seq<Cell>, m2: Seq<Cell>, w: int, h: int, s: (int, int), p: Seq<(int, int)>)
    requires
        is_walk(m, w, h, p),
        p[0] != s,
        p.last() != s,
        ring_open(m2, w, h, s.0, s.1),
        forall|x: int, y: int| #![trigger open_at(m2, w, h, x, y)] #![trigger open_at(m, w, h, x, y)]
            !(x == s.0 && y == s.1) ==> open_at(m2, w, h, x, y) == open_at(m, w, h, x, y),
    ensures
        reachable(m2, w, h, p[0], p.last()),
    decreases p.len(),
{
    let n = p.len() as int;
    if n == 1 {
        lemma_reach_refl(m2, w, h, p[0]);
    } else {
        let b = p[n - 1];
        let prev = p[n - 2];
        assert(open_at(m, w, h, b.0, b.1));
        assert(open_at(m2, w, h, b.0, b.1));
        assert(adjacent(prev, b));
        if prev != s {
            let q = p.subrange(0, n - 1);
            assert(is_walk(m, w, h, q)) by {
                assert forall|i: int| 1 <= i < q.len() implies #[trigger] open_at(m, w, h, q[i].0, q[i].1) by {
                    assert(q[i] == p[i]);
                }
                assert forall|i: int| 1 <= i < q.len() implies adjacent(q[i - 1], #[trigger] q[i]) by {
                    assert(q[i] == p[i] && q[i - 1] == p[i - 1]);
                }
            }
            lemma_walk_avoids(m, m2, w, h, s, q);
            lemma_reach_step(m2, w, h, p[0], prev, b);
        } else {
            assert(n >= 3);
            let u = p[n - 3];
            assert(adjacent(u, prev));
            let q = p.subrange(0, n - 2);
            assert(is_walk(m, w, h, q)) by {
                assert forall|i: int| 1 <= i < q.len() implies #[trigger] open_at(m, w, h, q[i].0, q[i].1) by {
                    assert(q[i] == p[i]);
                }
                assert forall|i: int| 1 <= i < q.len() implies adjacent(q[i - 1], #[trigger] q[i]) by {
                    assert(q[i] == p[i] && q[i - 1] == p[i - 1]);
                }
            }
            assert(q.last() == u);
            lemma_walk_avoids(m, m2, w, h, s, q);
            lemma_ring_reach(m2, w, h, s.0, s.1, u, b);
            lemma_reach_trans(m2, w, h, p[0], u, b);
        }
    }
}

/// Walling one cell whose eight neighbours are walkable keeps the walkable
/// cells connected.
proof fn lemma_seed_keeps_connected(m: Seq<Cell>, m2: Seq<Cell>, w: int, h: int, x: int, y: int)
    requires
        floor_connected(m, w, h),
        ring_open(m, w, h, x, y),
        in_grid(x, y, w, h),
        m.len() == w * h,
        m2.len() == m.len(),
        !m2[flat(x, y, w)].terrain.spec_walkable(),
        forall|c: int| 0 <= c < m.len() && c != flat(x, y, w) ==> #[trigger] m2[c] == m[c],
    ensures
        floor_connected(m2, w, h),
{
    let s = (x, y);
    assert forall|x2: int, y2: int| #![trigger open_at(m2, w, h, x2, y2)] #![trigger open_at(m, w, h, x2, y2)]
        !(x2 == s.0 && y2 == s.1) implies open_at(m2, w, h, x2, y2) == open_at(m, w, h, x2, y2) by {
        if in_grid(x2, y2, w, h) {
            lemma_flat_in_range(x2, y2, w, h);
            if flat(x2, y2, w) == flat(x, y, w) {
                lemma_flat_injective(x2, y2, x, y, w, h);
            }
            assert(m2[flat(x2, y2, w)] == m[flat(x2, y2, w)]);
        }
    }
    assert(ring_open(m2, w, h, x, y));
    assert forall|a: (int, int), b: (int, int)|
        #[trigger] open_at(m2, w, h, a.0, a.1) && #[trigger] open_at(m2, w, h, b.0, b.1)
        implies reachable(m2, w, h, a, b) by {
        assert(a != s);
        assert(b != s);
        assert(open_at(m, w, h, a.0, a.1));
        assert(open_at(m, w, h, b.0, b.1));
        assert(reachable(m, w, h, a, b));
        let p = choose|p: Seq<(int, int)>| #[trigger] is_walk(m, w, h, p) && p[0] == a && p.last() == b;
        lemma_walk_avoids(m, m2, w, h, s, p);
    }
}

/// `(x, y)` lies inside leaf `l`, at least one cell away from its edge.
pub open spec fn inner_cell(l: BspRect, x: int, y: int) -> bool {
    l.x + 1 <= x < l.x + l.w - 1 && l.y + 1 <= y < l.y + l.h - 1
}

/// Room for cover: the leaves are pairwise disjoint and every inner cell of
/// a leaf big enough for cover is walkable.
pub open spec fn cover_room(m: Seq<Cell>, w: int, h: int, leaves: Seq<BspRect>) -> bool {
    &&& forall|s: int, t: int| 0 <= s < leaves.len() && 0 <= t < leaves.len() && s != t
        ==> rects_disjoint(#[trigger] leaves[s], #[trigger] leaves[t])
    &&& forall|t: int, x: int, y: int| 0 <= t < leaves.len() && leaves[t].w >= CA_MIN_LEAF_DIM
        && leaves[t].h >= CA_MIN_LEAF_DIM && #[trigger] inner_cell(leaves[t], x, y) ==> open_at(m, w, h, x, y)
}

/// Every cell where `m` differs from `m0` is a cell of one of the first `n` leaves.
pub open spec fn changed_in_leaves(m0: Seq<Cell>, m: Seq<Cell>, w: int, leaves: Seq<BspRect>, n: int) -> bool {
    forall|c: int| 0 <= c < m0.len() && #[trigger] m[c] != m0[c] ==>
        exists|t: int| 0 <= t < n && #[trigger] leaf_cell(leaves[t], w, c)
}

/// While seeding leaf `cur`: every changed cell is in an earlier leaf, or is
/// one of the seeds of `cur`.
pub open spec fn changed_by_seeds(m0: Seq<Cell>, m: Seq<Cell>, w: int, leaves: Seq<BspRect>, cur: int,
    seeds: Seq<(usize, usize)>) -> bool {
    forall|c: int| 0 <= c < m0.len() && #[trigger] m[c] != m0[c] ==>
        (exists|t: int| 0 <= t < cur && #[trigger] leaf_cell(leaves[t], w, c))
        || (leaf_cell(leaves[cur], w, c)
            && exists|k: int| 0 <= k < seeds.len() && c == #[trigger] flat(seeds[k].0 as int, seeds[k].1 as int, w))
}

/// The ring around a new seed is untouched since the start and so walkable.
proof fn lemma_cover_ring(m0: Seq<Cell>, m: Seq<Cell>, w: int, h: int, leaves: Seq<BspRect>, cur: int,
    seeds: Seq<(usize, usize)>, sx: int, sy: int)
    requires
        0 <= cur < leaves.len(),
        m0.len() == w * h,
        m.len() == m0.len(),
        w > 0,
        cover_room(m0, w, h, leaves),
        leaves[cur].w >= CA_MIN_LEAF_DIM,
        leaves[cur].h >= CA_MIN_LEAF_DIM,
        leaves[cur].x + CA_SEED_MARGIN <= sx < leaves[cur].x + leaves[cur].w - CA_SEED_MARGIN,
        leaves[cur].y + CA_SEED_MARGIN <= sy < leaves[cur].y + leaves[cur].h - CA_SEED_MARGIN,
        changed_by_seeds(m0, m, w, leaves, cur, seeds),
        forall|k: int| 0 <= k < seeds.len() ==> (#[trigger] seeds[k]).0 < w && seeds[k].1 < h,
        forall|k: int| 0 <= k < seeds.len() ==>
            #[trigger] vstd::math::abs(sx - seeds[k].0) + vstd::math::abs(sy - seeds[k].1) >= CA_SEED_PAIR_DIST,
    ensures
        ring_open(m, w, h, sx, sy),
{
    let l = leaves[cur];
    assert forall|rx: int, ry: int| sx - 1 <= rx <= sx + 1 && sy - 1 <= ry <= sy + 1 && !(rx == sx && ry == sy)
        implies #[trigger] open_at(m, w, h, rx, ry) by {
        assert(inner_cell(l, rx, ry));
        assert(open_at(m0, w, h, rx, ry));
        let c = flat(rx, ry, w);
        lemma_flat_in_range(rx, ry, w, h);
        lemma_unflat(c, w, h);
        lemma_flat_injective(rx, ry, c % w, c / w, w, h);
        if m[c] != m0[c] {
            if exists|t: int| 0 <= t < cur && #[trigger] leaf_cell(leaves[t], w, c) {
                let t = choose|t: int| 0 <= t < cur && #[trigger] leaf_cell(leaves[t], w, c);
                assert(rects_disjoint(leaves[t], leaves[cur]));
            } else {
                let k = choose|k: int| 0 <= k < seeds.len() && c == #[trigger] flat(seeds[k].0 as int, seeds[k].1 as int, w);
                assert(leaf_cell(l, w, c));
                assert(seeds[k].0 < w && seeds[k].1 < h);
                lemma_flat_injective(rx, ry, seeds[k].0 as int, seeds[k].1 as int, w, h);
                assert(vstd::math::abs(sx - seeds[k].0) + vstd::math::abs(sy - seeds[k].1) >= CA_SEED_PAIR_DIST);
            }
        }
    }
    assert(open_at(m, w, h, sx - 1, sy - 1));
    assert(open_at(m, w, h, sx, sy - 1));
    assert(open_at(m, w, h, sx + 1, sy - 1));
    assert(open_at(m, w, h, sx + 1, sy));
    assert(open_at(m, w, h, sx + 1, sy + 1));
    assert(open_at(m, w, h, sx, sy + 1));
    assert(open_at(m, w, h, sx - 1, sy + 1));
    assert(open_at(m, w, h, sx - 1, sy));
}

/// Probabilistic synchronous CA cover generation. Places up to `seed_count`
/// seed walls per leaf (each its own cluster) and grows them. Returns the
/// number of floor cells turned into cover walls.
pub fn generate_ca_cover(
    map: &mut Vec<Cell>,
    map_w: usize,
    map_h: usize,
    leaves: &[BspRect],
    seed_count: usize,
    growth_limit: usize,
    rng: &mut MapRng,
) -> (placed: usize)
    requires
        map_ok(old(map)@, map_w as int),
        map_h as int == rows(old(map)@, map_w as int),
        forall|t: int| 0 <= t < leaves@.len() ==> rect_in(#[trigger] leaves@[t], map_w as int, map_h as int),
    ensures
        only_floor_to_wall(old(map)@, final(map)@),
        changed_cells(old(map)@, final(map)@).finite(),
        placed == changed_cells(old(map)@, final(map)@).len(),
        seed_count == 0 ==> final(map)@ == old(map)@,
        no_new_block(old(map)@, final(map)@, map_w as int, map_h as int),
        seed_count > 0 && first_seed_fits(old(map)@, map_w as int, map_h as int, leaves@, old(rng).state) ==> placed >= 1,
        floor_connected(old(map)@, map_w as int, map_h as int) && cover_room(old(map)@, map_w as int, map_h as int, leaves@)
            ==> floor_connected(final(map)@, map_w as int, map_h as int),
{
    let ghost w = map_w as int;
    let ghost h = map_h as int;
    let ghost m0 = map@;
    let ghost st0 = rng.state;
    let ghost fits = seed_count > 0 && first_seed_fits(m0, w, h, leaves@, st0);
    let ghost good = floor_connected(m0, w, h) && cover_room(m0, w, h, leaves@);
    proof {
        lemma_map_ok(map@, w);
        lemma_changed_finite(m0, m0);
        assert(changed_cells(m0, m0) =~= Set::empty());
    }
    if seed_count == 0 {
        return 0;
    }
    let mut cluster_of: Vec<i32> = vec![-1i32; map.len()];
    let mut next_cluster_id: i32 = 0;
    let mut total_placed: usize = 0;
    let mut li: usize = 0;
    while li < leaves.len()
        invariant
            map_ok(map@, w),
            w == map_w as int,
            h == map_h as int,
            h == rows(map@, w),
            grid_ok(map@, w, h),
            map@.len() == m0.len(),
            cluster_of@.len() == map@.len(),
            forall|t: int| 0 <= t < leaves@.len() ==> rect_in(#[trigger] leaves@[t], w, h),
            only_floor_to_wall(m0, map@),
            no_new_block(m0, map@, w, h),
            changed_cells(m0, map@).finite(),
            total_placed == changed_cells(m0, map@).len(),
            0 <= next_cluster_id <= total_placed,
            li <= leaves@.len(),
            st0 == old(rng).state,
            fits == (seed_count > 0 && first_seed_fits(m0, w, h, leaves@, st0)),
            seed_count > 0,
            li == 0 ==> rng.state == st0 && map@ == m0,
            li >= 1 && fits ==> total_placed >= 1,
            m0.len() == w * h,
            good == (floor_connected(m0, w, h) && cover_room(m0, w, h, leaves@)),
            good ==> floor_connected(map@, w, h),
            changed_in_leaves(m0, map@, w, leaves@, li as int),
        decreases leaves@.len() - li,
    {
        let ghost first = li == 0;
        let ghost tp_start = total_placed;
        let leaf = leaves[li];
        li = li + 1;
        proof {
            assert(rect_in(leaf, w, h));
            lemma_changed_finite(m0, map@);
        }
        if leaf.w < CA_MIN_LEAF_DIM || leaf.h < CA_MIN_LEAF_DIM {
            continue;
        }
        proof {
            assert((leaf.w / 3) * (leaf.h / 3) <= map_w * map_h) by (nonlinear_arith)
                requires leaf.w <= map_w, leaf.h <= map_h;
        }
        let cap_w = if leaf.w / CA_SEED_PAIR_DIST > 1 { leaf.w / CA_SEED_PAIR_DIST } else { 1 };
        let cap_h = if leaf.h / CA_SEED_PAIR_DIST > 1 { leaf.h / CA_SEED_PAIR_DIST } else { 1 };
        proof {
            assert(cap_w * cap_h <= map_w * map_h) by (nonlinear_arith)
                requires cap_w <= map_w, cap_h <= map_h, 1 <= cap_w, 1 <= cap_h;
        }
        let leaf_capacity = cap_w * cap_h;
        let leaf_seeds_target = if seed_count < leaf_capacity { seed_count } else { leaf_capacity };
        proof {
            assert(leaf_capacity >= 1) by (nonlinear_arith) requires leaf_capacity == cap_w * cap_h, cap_w >= 1, cap_h >= 1;
        }
        let leaf_first_cid = next_cluster_id;
        let mut seeds: Vec<(usize, usize)> = Vec::new();
        proof {
            assert(map_w <= map_w * map_h) by (nonlinear_arith)
                requires map_h >= 1;
            assert(map_h <= map_w * map_h) by (nonlinear_arith)
                requires map_w >= 1;
        }
        let ghost m_leaf = map@;

        let mut si: usize = 0;
        while si < leaf_seeds_target
            invariant
                map_ok(map@, w),
                w == map_w as int,
                h == map_h as int,
                h == rows(map@, w),
                grid_ok(map@, w, h),
                map@.len() == m0.len(),
                cluster_of@.len() == map@.len(),
                rect_in(leaf, w, h),
                only_floor_to_wall(m0, map@),
                no_new_block(m0, map@, w, h),
                changed_cells(m0, map@).finite(),
                total_placed == changed_cells(m0, map@).len(),
                0 <= leaf_first_cid <= next_cluster_id <= total_placed,
                seeds@.len() == next_cluster_id - leaf_first_cid,
                forall|t: int| 0 <= t < seeds@.len() ==> (#[trigger] seeds@[t]).0 < map_w && seeds@[t].1 < map_h,
                map_w <= i32::MAX,
                map_h <= i32::MAX,
                tp_start <= total_placed,
                first ==> leaf == leaves@[0],
                fits == (seed_count > 0 && first_seed_fits(m0, w, h, leaves@, st0)),
                leaf_seeds_target >= 1,
                first && si == 0 ==> rng.state == st0 && map@ == m0 && seeds@.len() == 0,
                first && si >= 1 && fits ==> total_placed >= 1,
                m0.len() == w * h,
                1 <= li <= leaves@.len(),
                leaf == leaves@[li - 1],
                leaf.w >= CA_MIN_LEAF_DIM && leaf.h >= CA_MIN_LEAF_DIM,
                good == (floor_connected(m0, w, h) && cover_room(m0, w, h, leaves@)),
                good ==> floor_connected(map@, w, h),
                changed_by_seeds(m0, map@, w, leaves@, li - 1, seeds@),
            decreases leaf_seeds_target - si,
        {
            si = si + 1;
            let ghost tp_si = total_placed;
            let mut retry: usize = 0;
            while retry < CA_SEED_PLACEMENT_RETRIES
                invariant
                    map_ok(map@, w),
                    w == map_w as int,
                    h == map_h as int,
                    h == rows(map@, w),
                    grid_ok(map@, w, h),
                    map@.len() == m0.len(),
                    cluster_of@.len() == map@.len(),
                    rect_in(leaf, w, h),
                    only_floor_to_wall(m0, map@),
                    no_new_block(m0, map@, w, h),
                    changed_cells(m0, map@).finite(),
                    total_placed == changed_cells(m0, map@).len(),
                    0 <= leaf_first_cid <= next_cluster_id <= total_placed,
                    seeds@.len() == next_cluster_id - leaf_first_cid,
                    forall|t: int| 0 <= t < seeds@.len() ==> (#[trigger] seeds@[t]).0 < map_w && seeds@[t].1 < map_h,
                    map_w <= i32::MAX,
                    map_h <= i32::MAX,
                    tp_start <= tp_si <= total_placed,
                    first ==> leaf == leaves@[0],
                    fits == (seed_count > 0 && first_seed_fits(m0, w, h, leaves@, st0)),
                    first && si == 1 && fits ==> (retry == 0 && rng.state == st0 && map@ == m0 && seeds@.len() == 0)
                        || total_placed >= 1,
                    m0.len() == w * h,
                    1 <= li <= leaves@.len(),
                    leaf == leaves@[li - 1],
                    leaf.w >= CA_MIN_LEAF_DIM && leaf.h >= CA_MIN_LEAF_DIM,
                    good == (floor_connected(m0, w, h) && cover_room(m0, w, h, leaves@)),
                    good ==> floor_connected(map@, w, h),
                    changed_by_seeds(m0, map@, w, leaves@, li - 1, seeds@),
                ensures
                    retry >= 1,
                decreases CA_SEED_PLACEMENT_RETRIES - retry,
            {
                let ghost start_ok = first && si == 1 && fits && retry == 0 && rng.state == st0 && map@ == m0
                    && seeds@.len() == 0;
                let ghost st_r = rng.state;
                retry = retry + 1;
                let inner_w = leaf.w.saturating_sub(2 * CA_SEED_MARGIN);
                let inner_h = leaf.h.saturating_sub(2 * CA_SEED_MARGIN);
                proof {
                    if start_ok {
                        assert(leaf.w >= CA_MIN_LEAF_DIM && leaf.h >= CA_MIN_LEAF_DIM);
                        assert(inner_w as int == leaf.w - 2 * CA_SEED_MARGIN);
                        assert(inner_h as int == leaf.h - 2 * CA_SEED_MARGIN);
                    }
                }
                if inner_w == 0 || inner_h == 0 {
                    break;
                }
                let rx = rng.below(inner_w as u64);
                let ghost st_mid = rng.state;
                let ry = rng.below(inner_h as u64);
                let sx = leaf.x + CA_SEED_MARGIN + rx as usize;
                let sy = leaf.y + CA_SEED_MARGIN + ry as usize;
                proof {
                    lemma_flat_in_range(sx as int, sy as int, w, h);
                    if start_ok {
                        let s1 = xorshift64_next(st0);
                        let s2 = xorshift64_next(s1);
                        assert(st_mid == s1);
                        assert(rx as int == (s1 as int) % (leaf.w - 2 * CA_SEED_MARGIN));
                        assert(ry as int == (s2 as int) % (leaf.h - 2 * CA_SEED_MARGIN));
                        assert((sx as int, sy as int) == first_seed_pos(leaves@[0], st0));
                        assert(seed_spot_ok(map@, w, h, sx as int, sy as int));
                    }
                }
                let s_idx = sy * map_w + sx;
                if map[s_idx].terrain != Terrain::Floor {
                    continue;
                }
                // Reject if cardinal-adjacent to anything but floor or toilet.
                let mut adj_blocked = false;
                let mut k: usize = 0;
                while k < 4
                    invariant
                        grid_ok(map@, w, h),
                        w == map_w as int,
                        h == map_h as int,
                        sx < map_w <= i32::MAX,
                        sy < map_h <= i32::MAX,
                        k <= 4,
                        !adj_blocked && k >= 1 ==> !wall_at(map@, w, h, sx - 1, sy as int),
                        adj_blocked ==> !seed_spot_ok(map@, w, h, sx as int, sy as int),
                        !adj_blocked && k >= 2 ==> !wall_at(map@, w, h, sx + 1, sy as int),
                    ensures
                        !adj_blocked ==> !wall_at(map@, w, h, sx - 1, sy as int) && !wall_at(map@, w, h, sx + 1, sy as int),
                        adj_blocked ==> !seed_spot_ok(map@, w, h, sx as int, sy as int),
                    decreases 4 - k,
                {
                    let (dx, dy): (i64, i64) = if k == 0 { (-1, 0) } else if k == 1 { (1, 0) } else if k == 2 { (0, -1) } else { (0, 1) };
                    let nx = sx as i64 + dx;
                    let ny = sy as i64 + dy;
                    k = k + 1;
                    proof {
                        assert(card(k - 1) == (dx as int, dy as int));
                    }
                    if nx < 0 || nx as u64 >= map_w as u64 || ny < 0 || ny as u64 >= map_h as u64 {
                        adj_blocked = true;
                        proof {
                            assert(!in_grid(sx + card(k - 1).0, sy + card(k - 1).1, w, h));
                            assert(!(in_grid(sx + card(k - 1).0, sy + card(k - 1).1, w, h)
                                && (ter(map@, w, sx + card(k - 1).0, sy + card(k - 1).1) == Terrain::Floor
                                || ter(map@, w, sx + card(k - 1).0, sy + card(k - 1).1) == Terrain::Toilet)));
                        }
                        break;
                    }
                    proof {
                        lemma_flat_in_range(nx as int, ny as int, w, h);
                    }
                    let t = map[ny as usize * map_w + nx as usize].terrain;
                    match t {
                        Terrain::Floor | Terrain::Toilet => {},
                        _ => {
                            adj_blocked = true;
                            proof {
                                assert(ter(map@, w, sx + card(k - 1).0, sy + card(k - 1).1) == t);
                                assert(!(in_grid(sx + card(k - 1).0, sy + card(k - 1).1, w, h)
                                    && (ter(map@, w, sx + card(k - 1).0, sy + card(k - 1).1) == Terrain::Floor
                                    || ter(map@, w, sx + card(k - 1).0, sy + card(k - 1).1) == Terrain::Toilet)));
                            }
                            break;
                        },
                    }
                }
                if adj_blocked {
                    continue;
                }
                if door_within_margin(map, sx, sy, CA_DOOR_MARGIN, map_w, map_h) {
                    continue;
                }
                if !seed_far_enough(&seeds, sx, sy) {
                    continue;
                }
                // All checks pass: place the seed.
                let ghost before = map@;
                let ghost seeds0 = seeds@;
                let old_cell = map[s_idx];
                map.set(s_idx, Cell { terrain: Terrain::Wall, furniture: old_cell.furniture });
                cluster_of.set(s_idx, next_cluster_id);
                proof {
                    lemma_map_ok(map@, w);
                    assert(!makes_2x2(before, w, h, sx as int, sy as int)) by {
                        assert forall|k: int| 0 <= k < 4 implies !#[trigger] wall_at(before, w, h, sx + diag(k).0, sy as int) by {}
                    }
                    lemma_wall_no_block(m0, before, map@, w, h, sx as int, sy as int);
                    lemma_changed_finite(m0, map@);
                    assert(!changed_cells(m0, before).contains(s_idx as int)) by {
                        if changed_cells(m0, before).contains(s_idx as int) {
                            assert(before[s_idx as int].terrain == Terrain::Wall);
                        }
                    }
                    assert(changed_cells(m0, map@) =~= changed_cells(m0, before).insert(s_idx as int)) by {
                        assert forall|c: int| #[trigger] changed_cells(m0, map@).contains(c) <==> changed_cells(m0, before).insert(s_idx as int).contains(c) by {
                            if c == s_idx as int {
                                assert(before[c] == m0[c] || before[c].terrain == Terrain::Wall);
                                assert(m0[c].terrain == Terrain::Floor);
                            }
                        }
                    }
                    assert forall|c: int| 0 <= c < m0.len() implies #[trigger] map@[c] == m0[c]
                        || (m0[c].terrain == Terrain::Floor && map@[c].terrain == Terrain::Wall && map@[c].furniture == m0[c].furniture) by {
                        if c == s_idx as int {
                            assert(before[c] == m0[c] || before[c].terrain == Terrain::Wall);
                        }
                    }
                    lemma_changed_finite(m0, map@);
                }
                seeds.push((sx, sy));
                proof {
                    let sc = s_idx as int;
                    lemma_unflat(sc, w, h);
                    lemma_flat_injective(sx as int, sy as int, sc % w, sc / w, w, h);
                    assert(leaf_cell(leaf, w, sc));
                    if good {
                        lemma_cover_ring(m0, before, w, h, leaves@, li - 1, seeds0, sx as int, sy as int);
                        assert forall|c: int| 0 <= c < before.len() && c != flat(sx as int, sy as int, w)
                            implies #[trigger] map@[c] == before[c] by {}
                        lemma_seed_keeps_connected(before, map@, w, h, sx as int, sy as int);
                    }
                    assert(seeds@[seeds@.len() - 1] == (sx, sy));
                    assert forall|c: int| 0 <= c < m0.len() && #[trigger] map@[c] != m0[c] implies
                        (exists|t: int| 0 <= t < li - 1 && #[trigger] leaf_cell(leaves@[t], w, c))
                        || (leaf_cell(leaves@[li - 1], w, c)
                            && exists|k: int| 0 <= k < seeds@.len() && c == #[trigger] flat(seeds@[k].0 as int, seeds@[k].1 as int, w)) by {
                        if c == sc {
                            let k = seeds@.len() - 1;
                            assert(c == flat(seeds@[k].0 as int, seeds@[k].1 as int, w));
                        } else {
                            assert(map@[c] == before[c]);
                            if !(exists|t: int| 0 <= t < li - 1 && #[trigger] leaf_cell(leaves@[t], w, c)) {
                                let k = choose|k: int| 0 <= k < seeds0.len() && c == #[trigger] flat(seeds0[k].0 as int, seeds0[k].1 as int, w);
                                assert(seeds@[k] == seeds0[k]);
                                assert(c == flat(seeds@[k].0 as int, seeds@[k].1 as int, w));
                            }
                        }
                    }
                }
                next_cluster_id = next_cluster_id + 1;
                total_placed = total_placed + 1;
                break;
            }
        }

        proof {
            assert forall|c: int| 0 <= c < m0.len() && #[trigger] map@[c] != m0[c] implies
                exists|t: int| 0 <= t < li && #[trigger] leaf_cell(leaves@[t], w, c) by {
                if !(exists|t: int| 0 <= t < li - 1 && #[trigger] leaf_cell(leaves@[t], w, c)) {
                    assert(leaf_cell(leaves@[li - 1], w, c));
                }
            }
        }
        if seeds.len() == 0 {
            continue;
        }
        // CA growth (skipped when growth_limit == 0: seeds stay alone).
        if growth_limit == 0 {
            continue;
        }
        let mut cluster_sizes: Vec<usize> = vec![1usize; seeds.len()];
        let ghost m_before_grow = map@;
        let grown = ca_grow_leaf(map, &mut cluster_of, &leaf, leaf_first_cid, &mut cluster_sizes,
            growth_limit, rng, map_w, map_h);
        proof {
            lemma_no_new_block_trans(m0, m_before_grow, map@, w, h);
            assert forall|c: int| 0 <= c < m0.len() && #[trigger] map@[c] != m0[c] implies
                exists|t: int| 0 <= t < li && #[trigger] leaf_cell(leaves@[t], w, c) by {
                if map@[c] != m_before_grow[c] {
                    assert(leaf_cell(leaves@[li - 1], w, c));
                } else {
                    assert(m_before_grow[c] != m0[c]);
                }
            }
            lemma_changed_chain(m0, m_before_grow, map@);
            lemma_changed_finite(m0, map@);
            lemma_map_ok(map@, w);
        }
        total_placed = total_placed + grown;
    }
    total_placed
}

} // verus!
