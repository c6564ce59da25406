//! Room detection: flood-fill from map tiles, door-subgoal classification
//! and room adjacency.
//!
//! Rooms are the connected regions of walkable cells that are not doors;
//! doors bound rooms and belong to none.

use vstd::prelude::*;
use crate::cell::{Cell, Terrain, grid_ok, in_grid, flat, open_at, adjacent, ipos, reachable,
    lemma_flat_in_range, lemma_flat_injective, lemma_reach_refl, lemma_reach_step, idx};
use crate::subgoal::SubgoalGraph;

verus! {

/// Kind of a detected room.
#[derive(Clone, Copy, Debug, PartialEq, Eq, Structural)]
pub enum RoomKind {
    Normal,
    Toilet,
    /// Trash room: smallest non-corridor rooms; NPC patrol destination.
    Trash,
    Corridor,
}

/// A connected region of walkable, non-door tiles.
pub struct Room {
    pub id: usize,
    /// All floor/toilet tiles in this room (not doors, not walls).
    pub tiles: Vec<(i32, i32)>,
    /// Subgoal indices that sit at room exits (adjacent to door terrain).
    pub door_subgoals: Vec<usize>,
    pub kind: RoomKind,
    /// Adjacent rooms reachable through doors: `(other_room_id, door_subgoal_pos)`.
    pub adjacent_rooms: Vec<(usize, (i32, i32))>,
}

/// The map with every door turned into a wall: its walkable cells are
/// exactly the room cells.
pub open spec fn room_map(map: Seq<Cell>) -> Seq<Cell> {
    map.map_values(|c: Cell| if c.terrain.spec_is_door() { Cell { terrain: Terrain::Wall, furniture: c.furniture } } else { c })
}

/// `(x, y)` is on the grid, walkable and not a door.
pub open spec fn room_cell(map: Seq<Cell>, w: int, h: int, x: int, y: int) -> bool {
    open_at(room_map(map), w, h, x, y)
}

/// The tiles of one region being flood-filled: assigned to `rid` in `t2r`
/// exactly where `tiles` lists them (`slot` says where), distinct room
/// cells reachable from the first through room cells.
spec fn region_ok(map: Seq<Cell>, w: int, h: int, t2r: Seq<usize>, tiles: Seq<(i32, i32)>, slot: Seq<int>, rid: int) -> bool {
    &&& tiles.len() >= 1
    &&& slot.len() == w * h
    &&& forall|k: int| 0 <= k < tiles.len() ==> {
        let p = #[trigger] tiles[k];
        &&& room_cell(map, w, h, p.0 as int, p.1 as int)
        &&& t2r[flat(p.0 as int, p.1 as int, w)] == rid
        &&& slot[flat(p.0 as int, p.1 as int, w)] == k
        &&& reachable(room_map(map), w, h, ipos(tiles[0]), ipos(p))
    }
    &&& forall|i: int| 0 <= i < w * h && #[trigger] t2r[i] == rid ==> {
        let k = slot[i];
        &&& 0 <= k < tiles.len()
        &&& flat(tiles[k].0 as int, tiles[k].1 as int, w) == i
    }
}

/// Whether `(x, y)` is a room cell.
fn room_cell_at(map: &[Cell], w: i32, h: i32, x: i32, y: i32) -> (b: bool)
    requires
        grid_ok(map@, w as int, h as int),
    ensures
        b == room_cell(map@, w as int, h as int, x as int, y as int),
{
    if x < 0 || x >= w || y < 0 || y >= h {
        return false;
    }
    proof {
        lemma_flat_in_range(x as int, y as int, w as int, h as int);
    }
    let t = map[idx(x, y, w)].terrain;
    t.is_walkable() && !matches!(t, Terrain::DoorOpen | Terrain::DoorClosed)
}

/// Adjacent room cells share their room wherever the first one has one.
pub open spec fn rooms_closed(map: Seq<Cell>, w: int, h: int, t2r: Seq<usize>) -> bool {
    forall|a: (int, int), b: (int, int)| #![trigger t2r[flat(a.0, a.1, w)], t2r[flat(b.0, b.1, w)]]
        room_cell(map, w, h, a.0, a.1) && room_cell(map, w, h, b.0, b.1) && adjacent(a, b)
        && t2r[flat(a.0, a.1, w)] != usize::MAX
        ==> t2r[flat(b.0, b.1, w)] == t2r[flat(a.0, a.1, w)]
}

/// The four cardinal steps.
pub open spec fn step4(d: int) -> (int, int) {
    if d == 0 { (1, 0) } else if d == 1 { (-1, 0) } else if d == 2 { (0, 1) } else { (0, -1) }
}

/// Every cardinal neighbour is one of the four steps.
proof fn lemma_adjacent_step(p: (int, int), b: (int, int))
    requires
        adjacent(p, b),
    ensures
        exists|d: int| 0 <= d < 4 && #[trigger] step4(d) == (b.0 - p.0, b.1 - p.1),
{
    if b.0 == p.0 + 1 {
        assert(step4(0) == (b.0 - p.0, b.1 - p.1));
    } else if b.0 == p.0 - 1 {
        assert(step4(1) == (b.0 - p.0, b.1 - p.1));
    } else if b.1 == p.1 + 1 {
        assert(step4(2) == (b.0 - p.0, b.1 - p.1));
    } else {
        assert(step4(3) == (b.0 - p.0, b.1 - p.1));
    }
}

/// Flood-fill the room of `(x, y)` as room `rid`, breadth first, marking
/// its cells in `t2r`. Returns its tiles in visiting order.
#[verifier::rlimit(40)]
fn flood_one(map: &[Cell], w: i32, h: i32, t2r: &mut Vec<usize>, x: i32, y: i32, rid: usize)
    -> (r: (Vec<(i32, i32)>, Ghost<Seq<int>>))
    requires
        grid_ok(map@, w as int, h as int),
        old(t2r)@.len() == w * h,
        in_grid(x as int, y as int, w as int, h as int),
        room_cell(map@, w as int, h as int, x as int, y as int),
        old(t2r)@[flat(x as int, y as int, w as int)] == usize::MAX,
        rid < usize::MAX,
        forall|i: int| 0 <= i < w * h ==> #[trigger] old(t2r)@[i] == usize::MAX || old(t2r)@[i] < rid,
        rooms_closed(map@, w as int, h as int, old(t2r)@),
    ensures
        final(t2r)@.len() == w * h,
        forall|i: int| 0 <= i < w * h ==> #[trigger] final(t2r)@[i] == old(t2r)@[i]
            || (old(t2r)@[i] == usize::MAX && final(t2r)@[i] == rid),
        region_ok(map@, w as int, h as int, final(t2r)@, r.0@, r.1@, rid as int),
        r.0@[0] == (x, y),
        forall|k: int, b: (int, int)| 0 <= k < r.0@.len() && room_cell(map@, w as int, h as int, b.0, b.1)
            && adjacent(ipos(#[trigger] r.0@[k]), b) ==> #[trigger] final(t2r)@[flat(b.0, b.1, w as int)] == rid,
{
    let ghost wi = w as int;
    let ghost hi = h as int;
    let ghost n = wi * hi;
    let ghost old_t2r = t2r@;
    let ghost rm = room_map(map@);
    proof {
        lemma_flat_in_range(x as int, y as int, wi, hi);
    }
    let i0 = idx(x, y, w);
    t2r.set(i0, rid);
    let mut tiles: Vec<(i32, i32)> = Vec::new();
    tiles.push((x, y));
    let ghost mut slot: Seq<int> = Seq::new(n as nat, |i: int| 0int);
    let ghost mut assigned: Set<int> = set![i0 as int];
    let ghost all_cells: Set<int> = Set::new(|i: int| 0 <= i < n);
    proof {
        lemma_reach_refl(rm, wi, hi, ipos((x, y)));
        assert(region_ok(map@, wi, hi, t2r@, tiles@, slot, rid as int));
    }
    let dirs: [(i32, i32); 4] = [(1, 0), (-1, 0), (0, 1), (0, -1)];
    let mut head: usize = 0;
    while head < tiles.len()
        invariant
            grid_ok(map@, wi, hi),
            wi == w,
            hi == h,
            n == wi * hi,
            rm == room_map(map@),
            t2r@.len() == n,
            rid < usize::MAX,
            head <= tiles@.len(),
            tiles@[0] == (x, y),
            region_ok(map@, wi, hi, t2r@, tiles@, slot, rid as int),
            forall|i: int| 0 <= i < n ==> #[trigger] t2r@[i] == old_t2r[i] || (old_t2r[i] == usize::MAX && t2r@[i] == rid),
            forall|i: int| 0 <= i < n ==> #[trigger] old_t2r[i] == usize::MAX || old_t2r[i] < rid,
            rooms_closed(map@, wi, hi, old_t2r),
            forall|k: int, b: (int, int)| 0 <= k < head && room_cell(map@, wi, hi, b.0, b.1)
                && adjacent(ipos(#[trigger] tiles@[k]), b) ==> #[trigger] t2r@[flat(b.0, b.1, wi)] == rid,
            assigned.finite(),
            assigned.len() == tiles@.len(),
            assigned.subset_of(all_cells),
            all_cells == Set::new(|i: int| 0 <= i < n),
            forall|i: int| 0 <= i < n ==> (#[trigger] t2r@[i] == rid <==> assigned.contains(i)),
            dirs@ == seq![(1i32, 0i32), (-1i32, 0i32), (0i32, 1i32), (0i32, -1i32)],
        decreases (n - tiles@.len()) * 5 + (tiles@.len() - head),
    {
        let (cx, cy) = tiles[head];
        proof {
            assert(room_cell(map@, wi, hi, cx as int, cy as int));
            vstd::set_lib::lemma_int_range(0, n);
            assert(all_cells =~= vstd::set_lib::set_int_range(0, n));
            vstd::set_lib::lemma_len_subset(assigned, all_cells);
        }
        let ghost len_before = tiles@.len();
        let mut d: usize = 0;
        while d < 4
            invariant
                grid_ok(map@, wi, hi),
                wi == w,
                hi == h,
                n == wi * hi,
                rm == room_map(map@),
                t2r@.len() == n,
                rid < usize::MAX,
                head < tiles@.len(),
                tiles@[head as int] == (cx, cy),
                tiles@[0] == (x, y),
                room_cell(map@, wi, hi, cx as int, cy as int),
                d <= 4,
                len_before <= tiles@.len() <= len_before + d,
                region_ok(map@, wi, hi, t2r@, tiles@, slot, rid as int),
                forall|i: int| 0 <= i < n ==> #[trigger] t2r@[i] == old_t2r[i] || (old_t2r[i] == usize::MAX && t2r@[i] == rid),
                forall|i: int| 0 <= i < n ==> #[trigger] old_t2r[i] == usize::MAX || old_t2r[i] < rid,
                rooms_closed(map@, wi, hi, old_t2r),
                forall|k: int, b: (int, int)| 0 <= k < head && room_cell(map@, wi, hi, b.0, b.1)
                    && adjacent(ipos(#[trigger] tiles@[k]), b) ==> #[trigger] t2r@[flat(b.0, b.1, wi)] == rid,
                forall|dd: int| 0 <= dd < d && #[trigger] room_cell(map@, wi, hi, cx + step4(dd).0, cy + step4(dd).1)
                    ==> t2r@[flat(cx + step4(dd).0, cy + step4(dd).1, wi)] == rid,
                assigned.finite(),
                assigned.len() == tiles@.len(),
                assigned.subset_of(all_cells),
                all_cells == Set::new(|i: int| 0 <= i < n),
                forall|i: int| 0 <= i < n ==> (#[trigger] t2r@[i] == rid <==> assigned.contains(i)),
                dirs@ == seq![(1i32, 0i32), (-1i32, 0i32), (0i32, 1i32), (0i32, -1i32)],
            decreases 4 - d,
        {
            let (dx, dy) = dirs[d];
            proof {
                assert((dx as int, dy as int) == step4(d as int));
            }
            let nx = cx + dx;
            let ny = cy + dy;
            let ghost t_before = t2r@;
            if 0 <= nx && nx < w && 0 <= ny && ny < h {
                proof {
                    lemma_flat_in_range(nx as int, ny as int, wi, hi);
                }
                let ni = idx(nx, ny, w);
                if t2r[ni] == usize::MAX && room_cell_at(map, w, h, nx, ny) {
                    let ghost tiles_before = tiles@;
                    proof {
                        assert(!assigned.contains(ni as int));
                        vstd::set_lib::lemma_int_range(0, n);
                        assert(all_cells =~= vstd::set_lib::set_int_range(0, n));
                        vstd::set_lib::lemma_len_subset(assigned.insert(ni as int), all_cells);
                    }
                    t2r.set(ni, rid);
                    tiles.push((nx, ny));
                    proof {
                        let k_new = tiles_before.len() as int;
                        slot = slot.update(ni as int, k_new);
                        assigned = assigned.insert(ni as int);
                        assert(adjacent(ipos((cx, cy)), ipos((nx, ny))));
                        assert(reachable(rm, wi, hi, ipos(tiles@[0]), ipos((cx, cy))));
                        lemma_reach_step(rm, wi, hi, ipos(tiles@[0]), ipos((cx, cy)), ipos((nx, ny)));
                        assert forall|k: int| 0 <= k < tiles@.len() implies {
                            let p = #[trigger] tiles@[k];
                            &&& room_cell(map@, wi, hi, p.0 as int, p.1 as int)
                            &&& t2r@[flat(p.0 as int, p.1 as int, wi)] == rid
                            &&& slot[flat(p.0 as int, p.1 as int, wi)] == k
                            &&& reachable(room_map(map@), wi, hi, ipos(tiles@[0]), ipos(p))
                        } by {
                            if k < k_new {
                                let p = tiles_before[k];
                                assert(tiles@[k] == p);
                                lemma_flat_in_range(p.0 as int, p.1 as int, wi, hi);
                                assert(t_before[flat(p.0 as int, p.1 as int, wi)] == rid);
                                assert(flat(p.0 as int, p.1 as int, wi) != ni as int);
                            }
                        }
                        assert forall|i: int| 0 <= i < n && #[trigger] t2r@[i] == rid implies {
                            let k = slot[i];
                            &&& 0 <= k < tiles@.len()
                            &&& flat(tiles@[k].0 as int, tiles@[k].1 as int, wi) == i
                        } by {
                            if i != ni as int {
                                assert(t_before[i] == rid);
                                assert(tiles@[slot[i]] == tiles_before[slot[i]]);
                            }
                        }
                        assert forall|kk: int, b: (int, int)| 0 <= kk < head && room_cell(map@, wi, hi, b.0, b.1)
                            && adjacent(ipos(#[trigger] tiles@[kk]), b) implies #[trigger] t2r@[flat(b.0, b.1, wi)] == rid by {
                            assert(tiles@[kk] == tiles_before[kk]);
                            assert(t_before[flat(b.0, b.1, wi)] == rid);
                            lemma_flat_in_range(b.0, b.1, wi, hi);
                        }
                    }
                }
            }
            proof {
                assert forall|dd: int| 0 <= dd < d + 1 && #[trigger] room_cell(map@, wi, hi, cx + step4(dd).0, cy + step4(dd).1)
                    implies t2r@[flat(cx + step4(dd).0, cy + step4(dd).1, wi)] == rid by {
                    let bx = cx + step4(dd).0;
                    let by = cy + step4(dd).1;
                    lemma_flat_in_range(bx, by, wi, hi);
                    if dd < d {
                        assert(t_before[flat(bx, by, wi)] == rid);
                    } else {
                        // The neighbour was already assigned: to this room, since an
                        // earlier room would have taken this cell too.
                        let fb = flat(bx, by, wi);
                        if t2r@[fb] != rid {
                            assert(t_before[fb] == t2r@[fb]);
                            assert(t_before[fb] != usize::MAX);
                            assert(t_before[fb] == old_t2r[fb]);
                            assert(old_t2r[fb] != usize::MAX);
                            let a = (bx, by);
                            let c = (cx as int, cy as int);
                            assert(adjacent(a, c));
                            lemma_flat_in_range(cx as int, cy as int, wi, hi);
                            assert(old_t2r[flat(c.0, c.1, wi)] == old_t2r[flat(a.0, a.1, wi)]);
                            assert(t_before[flat(c.0, c.1, wi)] == rid);
                        }
                    }
                }
            }
            d = d + 1;
        }
        proof {
            assert forall|kk: int, b: (int, int)| 0 <= kk < head + 1 && room_cell(map@, wi, hi, b.0, b.1)
                && adjacent(ipos(#[trigger] tiles@[kk]), b) implies #[trigger] t2r@[flat(b.0, b.1, wi)] == rid by {
                if kk == head {
                    lemma_adjacent_step(ipos((cx, cy)), b);
                    let dd = choose|dd: int| 0 <= dd < 4 && #[trigger] step4(dd) == (b.0 - cx, b.1 - cy);
                    assert(room_cell(map@, wi, hi, cx + step4(dd).0, cy + step4(dd).1));
                }
            }
            vstd::set_lib::lemma_int_range(0, n);
            assert(all_cells =~= vstd::set_lib::set_int_range(0, n));
            vstd::set_lib::lemma_len_subset(assigned, all_cells);
        }
        head = head + 1;
    }
    (tiles, Ghost(slot))
}

/// The rooms (as tile lists) and the tile-to-room table partition the room
/// cells into their connected regions, numbered in row-major order of their
/// first cell, each list starting at that cell.
pub open spec fn partition_ok(map: Seq<Cell>, w: int, h: int, tiles: Seq<Seq<(i32, i32)>>, t2r: Seq<usize>) -> bool {
    &&& t2r.len() == w * h
    &&& forall|x: int, y: int| in_grid(x, y, w, h) ==>
        (#[trigger] t2r[flat(x, y, w)] != usize::MAX <==> room_cell(map, w, h, x, y))
    &&& forall|x: int, y: int| in_grid(x, y, w, h) && #[trigger] t2r[flat(x, y, w)] != usize::MAX ==>
        t2r[flat(x, y, w)] < tiles.len()
        && exists|k: int| 0 <= k < tiles[t2r[flat(x, y, w)] as int].len()
            && #[trigger] tiles[t2r[flat(x, y, w)] as int][k] == (x as i32, y as i32)
    &&& forall|r: int| 0 <= r < tiles.len() ==> (#[trigger] tiles[r]).len() >= 1
    &&& forall|r: int, k: int| 0 <= r < tiles.len() && 0 <= k < tiles[r].len() ==> {
        let p = #[trigger] tiles[r][k];
        &&& room_cell(map, w, h, p.0 as int, p.1 as int)
        &&& t2r[flat(p.0 as int, p.1 as int, w)] == r
        &&& reachable(room_map(map), w, h, ipos(tiles[r][0]), ipos(p))
        &&& flat(tiles[r][0].0 as int, tiles[r][0].1 as int, w) <= flat(p.0 as int, p.1 as int, w)
    }
    &&& forall|r: int, k1: int, k2: int| 0 <= r < tiles.len() && 0 <= k1 < k2 < tiles[r].len() ==>
        #[trigger] tiles[r][k1] != #[trigger] tiles[r][k2]
    &&& forall|r1: int, r2: int| 0 <= r1 < r2 < tiles.len() ==>
        flat((#[trigger] tiles[r1])[0].0 as int, tiles[r1][0].1 as int, w)
            < flat((#[trigger] tiles[r2])[0].0 as int, tiles[r2][0].1 as int, w)
    &&& rooms_closed(map, w, h, t2r)
}

/// A region stays valid when the table changes only at cells that were
/// not in it and did not join it.
proof fn lemma_region_keep(map: Seq<Cell>, w: int, h: int, t0: Seq<usize>, t1: Seq<usize>,
    tiles: Seq<(i32, i32)>, slot: Seq<int>, r: int)
    requires
        grid_ok(map, w, h),
        region_ok(map, w, h, t0, tiles, slot, r),
        t0.len() == w * h,
        t1.len() == w * h,
        forall|i: int| 0 <= i < w * h ==> #[trigger] t1[i] == t0[i] || (t0[i] != r && t1[i] != r),
    ensures
        region_ok(map, w, h, t1, tiles, slot, r),
{
    assert forall|k: int| 0 <= k < tiles.len() implies
        #[trigger] t1[flat(tiles[k].0 as int, tiles[k].1 as int, w)] == r by {
        let p = tiles[k];
        assert(room_cell(map, w, h, p.0 as int, p.1 as int));
        lemma_flat_in_range(p.0 as int, p.1 as int, w, h);
        assert(t0[flat(p.0 as int, p.1 as int, w)] == r);
    }
    assert forall|i: int| 0 <= i < w * h && #[trigger] t1[i] == r implies t0[i] == r by {}
}

/// Flood-fill every room, scanning seeds in row-major order.
#[verifier::rlimit(60)]
fn flood_rooms(map: &[Cell], w: i32, h: i32) -> (r: (Vec<Vec<(i32, i32)>>, Vec<usize>))
    requires
        grid_ok(map@, w as int, h as int),
    ensures
        partition_ok(map@, w as int, h as int, r.0@.map_values(|v: Vec<(i32, i32)>| v@), r.1@),
{
    let ghost wi = w as int;
    let ghost hi = h as int;
    let ghost n = wi * hi;
    let n_cells = map.len();
    let mut t2r: Vec<usize> = vec![usize::MAX; n_cells];
    let mut rooms: Vec<Vec<(i32, i32)>> = Vec::new();
    let ghost mut slots: Seq<Seq<int>> = Seq::empty();
    proof {
        assert forall|i: int| 0 <= i < n implies #[trigger] t2r@[i] == usize::MAX by {
            assert(cloned(usize::MAX, t2r@[i]));
        }
        assert forall|a: (int, int), b: (int, int)| #![trigger t2r@[flat(a.0, a.1, wi)], t2r@[flat(b.0, b.1, wi)]]
            room_cell(map@, wi, hi, a.0, a.1) && room_cell(map@, wi, hi, b.0, b.1) && adjacent(a, b)
            && t2r@[flat(a.0, a.1, wi)] != usize::MAX
            implies t2r@[flat(b.0, b.1, wi)] == t2r@[flat(a.0, a.1, wi)] by {
            lemma_flat_in_range(a.0, a.1, wi, hi);
        }
    }
    let mut y: i32 = 0;
    while y < h
        invariant
            grid_ok(map@, wi, hi),
            wi == w,
            hi == h,
            n == wi * hi,
            n_cells == n,
            0 <= y <= h,
            t2r@.len() == n,
            slots.len() == rooms@.len(),
            rooms@.len() <= flat(0, y as int, wi),
            forall|r: int| 0 <= r < rooms@.len() ==> region_ok(map@, wi, hi, t2r@, #[trigger] rooms@[r]@, slots[r], r),
            forall|i: int| 0 <= i < n ==> #[trigger] t2r@[i] == usize::MAX || t2r@[i] < rooms@.len(),
            rooms_closed(map@, wi, hi, t2r@),
            forall|xx: int, yy: int| in_grid(xx, yy, wi, hi) && flat(xx, yy, wi) < flat(0, y as int, wi)
                && room_cell(map@, wi, hi, xx, yy) ==> #[trigger] t2r@[flat(xx, yy, wi)] != usize::MAX,
            forall|r: int| 0 <= r < rooms@.len() ==> flat((#[trigger] rooms@[r])@[0].0 as int, rooms@[r]@[0].1 as int, wi) < flat(0, y as int, wi),
            forall|r1: int, r2: int| 0 <= r1 < r2 < rooms@.len() ==>
                flat((#[trigger] rooms@[r1])@[0].0 as int, rooms@[r1]@[0].1 as int, wi)
                    < flat((#[trigger] rooms@[r2])@[0].0 as int, rooms@[r2]@[0].1 as int, wi),
            forall|r: int, k: int| 0 <= r < rooms@.len() && 0 <= k < rooms@[r]@.len() ==>
                flat(rooms@[r]@[0].0 as int, rooms@[r]@[0].1 as int, wi)
                    <= flat((#[trigger] rooms@[r]@[k]).0 as int, rooms@[r]@[k].1 as int, wi),
        decreases h - y,
    {
        let mut x: i32 = 0;
        while x < w
            invariant
                grid_ok(map@, wi, hi),
                wi == w,
                hi == h,
                n == wi * hi,
                n_cells == n,
                0 <= y < h,
                0 <= x <= w,
                t2r@.len() == n,
                slots.len() == rooms@.len(),
                rooms@.len() <= flat(x as int, y as int, wi),
                forall|r: int| 0 <= r < rooms@.len() ==> region_ok(map@, wi, hi, t2r@, #[trigger] rooms@[r]@, slots[r], r),
                forall|i: int| 0 <= i < n ==> #[trigger] t2r@[i] == usize::MAX || t2r@[i] < rooms@.len(),
                rooms_closed(map@, wi, hi, t2r@),
                forall|xx: int, yy: int| in_grid(xx, yy, wi, hi) && flat(xx, yy, wi) < flat(x as int, y as int, wi)
                    && room_cell(map@, wi, hi, xx, yy) ==> #[trigger] t2r@[flat(xx, yy, wi)] != usize::MAX,
                forall|r: int| 0 <= r < rooms@.len() ==> flat((#[trigger] rooms@[r])@[0].0 as int, rooms@[r]@[0].1 as int, wi) < flat(x as int, y as int, wi),
                forall|r1: int, r2: int| 0 <= r1 < r2 < rooms@.len() ==>
                    flat((#[trigger] rooms@[r1])@[0].0 as int, rooms@[r1]@[0].1 as int, wi)
                        < flat((#[trigger] rooms@[r2])@[0].0 as int, rooms@[r2]@[0].1 as int, wi),
                forall|r: int, k: int| 0 <= r < rooms@.len() && 0 <= k < rooms@[r]@.len() ==>
                    flat(rooms@[r]@[0].0 as int, rooms@[r]@[0].1 as int, wi)
                        <= flat((#[trigger] rooms@[r]@[k]).0 as int, rooms@[r]@[k].1 as int, wi),
            decreases w - x,
        {
            proof {
                lemma_flat_in_range(x as int, y as int, wi, hi);
            }
            let i = idx(x, y, w);
            if t2r[i] == usize::MAX && room_cell_at(map, w, h, x, y) {
                let rid = rooms.len();
                let ghost t0 = t2r@;
                let ghost rooms0 = rooms@;
                let (tiles, Ghost(slot)) = flood_one(map, w, h, &mut t2r, x, y, rid);
                proof {
                    assert forall|r: int| 0 <= r < rooms0.len() implies region_ok(map@, wi, hi, t2r@, rooms0[r]@, slots[r], r) by {
                        lemma_region_keep(map@, wi, hi, t0, t2r@, rooms0[r]@, slots[r], r);
                    }
                    // Every newly assigned cell lies at or after the seed.
                    assert forall|k: int| 0 <= k < tiles@.len() implies
                        flat(x as int, y as int, wi) <= flat((#[trigger] tiles@[k]).0 as int, tiles@[k].1 as int, wi) by {
                        let p = tiles@[k];
                        assert(room_cell(map@, wi, hi, p.0 as int, p.1 as int));
                        lemma_flat_in_range(p.0 as int, p.1 as int, wi, hi);
                        let fp = flat(p.0 as int, p.1 as int, wi);
                        assert(t2r@[fp] == rid);
                        assert(t0[fp] == usize::MAX);
                    }
                    // Closure: old rooms keep it; the new room got it from the flood.
                    assert forall|a: (int, int), b: (int, int)| #![trigger t2r@[flat(a.0, a.1, wi)], t2r@[flat(b.0, b.1, wi)]]
                        room_cell(map@, wi, hi, a.0, a.1) && room_cell(map@, wi, hi, b.0, b.1) && adjacent(a, b)
                        && t2r@[flat(a.0, a.1, wi)] != usize::MAX
                        implies t2r@[flat(b.0, b.1, wi)] == t2r@[flat(a.0, a.1, wi)] by {
                        lemma_flat_in_range(a.0, a.1, wi, hi);
                        lemma_flat_in_range(b.0, b.1, wi, hi);
                        let fa = flat(a.0, a.1, wi);
                        let fb = flat(b.0, b.1, wi);
                        if t0[fa] != usize::MAX {
                            assert(t0[fb] == t0[fa]);
                        } else {
                            assert(t2r@[fa] == rid);
                            let k = slot[fa];
                            assert(flat(tiles@[k].0 as int, tiles@[k].1 as int, wi) == fa);
                            lemma_flat_in_range(tiles@[k].0 as int, tiles@[k].1 as int, wi, hi);
                            assert(room_cell(map@, wi, hi, tiles@[k].0 as int, tiles@[k].1 as int));
                            lemma_flat_injective(tiles@[k].0 as int, tiles@[k].1 as int, a.0, a.1, wi, hi);
                            assert(ipos(tiles@[k]) == a);
                            assert(t2r@[fb] == rid);
                        }
                    }
                }
                rooms.push(tiles);
                proof {
                    slots = slots.push(slot);
                    assert(rooms@[rid as int]@ == tiles@);
                    assert forall|r: int| 0 <= r < rooms@.len() implies region_ok(map@, wi, hi, t2r@, #[trigger] rooms@[r]@, slots[r], r) by {
                        if r < rid {
                            assert(rooms@[r] == rooms0[r]);
                        }
                    }
                    assert forall|xx: int, yy: int| in_grid(xx, yy, wi, hi) && flat(xx, yy, wi) < flat(x as int, y as int, wi)
                        && room_cell(map@, wi, hi, xx, yy) implies #[trigger] t2r@[flat(xx, yy, wi)] != usize::MAX by {
                        lemma_flat_in_range(xx, yy, wi, hi);
                        assert(t0[flat(xx, yy, wi)] != usize::MAX);
                    }
                    assert forall|r1: int, r2: int| 0 <= r1 < r2 < rooms@.len() implies
                        flat((#[trigger] rooms@[r1])@[0].0 as int, rooms@[r1]@[0].1 as int, wi)
                            < flat((#[trigger] rooms@[r2])@[0].0 as int, rooms@[r2]@[0].1 as int, wi) by {
                        if r2 < rid {
                            assert(rooms@[r1] == rooms0[r1] && rooms@[r2] == rooms0[r2]);
                        } else {
                            assert(rooms@[r1] == rooms0[r1]);
                        }
                    }
                    assert forall|r: int, k: int| 0 <= r < rooms@.len() && 0 <= k < rooms@[r]@.len() implies
                        flat(rooms@[r]@[0].0 as int, rooms@[r]@[0].1 as int, wi)
                            <= flat((#[trigger] rooms@[r]@[k]).0 as int, rooms@[r]@[k].1 as int, wi) by {
                        if r < rid {
                            assert(rooms@[r] == rooms0[r]);
                        }
                    }
                    assert forall|r: int| 0 <= r < rooms@.len() implies flat((#[trigger] rooms@[r])@[0].0 as int, rooms@[r]@[0].1 as int, wi) < flat(x as int, y as int, wi) + 1 by {
                        if r < rid {
                            assert(rooms@[r] == rooms0[r]);
                        }
                    }
                }
            }
            proof {
                assert forall|xx: int, yy: int| in_grid(xx, yy, wi, hi) && flat(xx, yy, wi) < flat(x as int, y as int, wi) + 1
                    && room_cell(map@, wi, hi, xx, yy) implies #[trigger] t2r@[flat(xx, yy, wi)] != usize::MAX by {
                    lemma_flat_in_range(xx, yy, wi, hi);
                    if flat(xx, yy, wi) == flat(x as int, y as int, wi) {
                        lemma_flat_injective(xx, yy, x as int, y as int, wi, hi);
                    }
                }
            }
            x = x + 1;
        }
        proof {
            assert(flat(wi, y as int, wi) == flat(0, y as int + 1, wi)) by (nonlinear_arith);
        }
        y = y + 1;
    }
    let ghost tl = rooms@.map_values(|v: Vec<(i32, i32)>| v@);
    proof {
        assert(flat(0, hi, wi) == n) by (nonlinear_arith) requires n == wi * hi;
        assert forall|r: int| 0 <= r < tl.len() implies #[trigger] tl[r] == rooms@[r]@ by {}
        assert forall|x: int, y: int| in_grid(x, y, wi, hi) && #[trigger] t2r@[flat(x, y, wi)] != usize::MAX implies
            t2r@[flat(x, y, wi)] < tl.len()
            && exists|k: int| 0 <= k < tl[t2r@[flat(x, y, wi)] as int].len()
                && #[trigger] tl[t2r@[flat(x, y, wi)] as int][k] == (x as i32, y as i32) by {
            lemma_flat_in_range(x, y, wi, hi);
            let i = flat(x, y, wi);
            let r = t2r@[i] as int;
            assert(region_ok(map@, wi, hi, t2r@, rooms@[r]@, slots[r], r));
            let k = slots[r][i];
            let p = rooms@[r]@[k];
            assert(room_cell(map@, wi, hi, p.0 as int, p.1 as int));
            lemma_flat_in_range(p.0 as int, p.1 as int, wi, hi);
            lemma_flat_injective(p.0 as int, p.1 as int, x, y, wi, hi);
            assert(tl[r][k] == (x as i32, y as i32));
        }
        assert forall|x: int, y: int| in_grid(x, y, wi, hi) implies
            (#[trigger] t2r@[flat(x, y, wi)] != usize::MAX <==> room_cell(map@, wi, hi, x, y)) by {
            lemma_flat_in_range(x, y, wi, hi);
            if t2r@[flat(x, y, wi)] != usize::MAX {
                let r = t2r@[flat(x, y, wi)] as int;
                assert(region_ok(map@, wi, hi, t2r@, rooms@[r]@, slots[r], r));
                let k = slots[r][flat(x, y, wi)];
                let p = rooms@[r]@[k];
                lemma_flat_in_range(p.0 as int, p.1 as int, wi, hi);
                lemma_flat_injective(p.0 as int, p.1 as int, x, y, wi, hi);
            }
        }
        assert forall|r: int, k: int| 0 <= r < tl.len() && 0 <= k < tl[r].len() implies {
            let p = #[trigger] tl[r][k];
            &&& room_cell(map@, wi, hi, p.0 as int, p.1 as int)
            &&& t2r@[flat(p.0 as int, p.1 as int, wi)] == r
            &&& reachable(room_map(map@), wi, hi, ipos(tl[r][0]), ipos(p))
            &&& flat(tl[r][0].0 as int, tl[r][0].1 as int, wi) <= flat(p.0 as int, p.1 as int, wi)
        } by {
            assert(region_ok(map@, wi, hi, t2r@, rooms@[r]@, slots[r], r));
            assert(rooms@[r]@[k] == tl[r][k]);
        }
        assert forall|r: int, k1: int, k2: int| 0 <= r < tl.len() && 0 <= k1 < k2 < tl[r].len() implies
            #[trigger] tl[r][k1] != #[trigger] tl[r][k2] by {
            assert(region_ok(map@, wi, hi, t2r@, rooms@[r]@, slots[r], r));
            let p1 = tl[r][k1];
            let p2 = tl[r][k2];
            assert(p1 == rooms@[r]@[k1] && p2 == rooms@[r]@[k2]);
            assert(slots[r][flat(p1.0 as int, p1.1 as int, wi)] == k1);
            assert(slots[r][flat(p2.0 as int, p2.1 as int, wi)] == k2);
        }
        assert forall|r: int| 0 <= r < tl.len() implies (#[trigger] tl[r]).len() >= 1 by {
            assert(region_ok(map@, wi, hi, t2r@, rooms@[r]@, slots[r], r));
        }
    }
    (rooms, t2r)
}

/// Bounding box `(min_x, max_x, min_y, max_y)` of `t`, folded from
/// `(w, 0, h, 0)`.
pub open spec fn bbox(t: Seq<(i32, i32)>, w: int, h: int) -> (int, int, int, int)
    decreases t.len(),
{
    if t.len() == 0 {
        (w, 0, h, 0)
    } else {
        let (a, b, c, d) = bbox(t.drop_last(), w, h);
        let p = t.last();
        (vstd::math::min(a, p.0 as int), vstd::math::max(b, p.0 as int),
         vstd::math::min(c, p.1 as int), vstd::math::max(d, p.1 as int))
    }
}

/// Corridor when the bounding box is at most two cells thick or more than
/// three times as long as it is thick; else a normal room.
pub open spec fn shape_kind(t: Seq<(i32, i32)>, w: int, h: int) -> RoomKind {
    let (a, b, c, d) = bbox(t, w, h);
    let bw = b - a + 1;
    let bh = d - c + 1;
    let thin = vstd::math::min(bw, bh);
    let long = vstd::math::max(bw, bh);
    if thin <= 2 || long > 3 * vstd::math::max(thin, 1) {
        RoomKind::Corridor
    } else {
        RoomKind::Normal
    }
}

/// A copy of a tile list.
fn copy_tiles(v: &Vec<(i32, i32)>) -> (r: Vec<(i32, i32)>)
    ensures
        r@ == v@,
{
    let mut r: Vec<(i32, i32)> = Vec::new();
    let mut j: usize = 0;
    while j < v.len()
        invariant
            j <= v.len(),
            r@ == v@.subrange(0, j as int),
        decreases v.len() - j,
    {
        r.push(v[j]);
        proof {
            assert(v@.subrange(0, j + 1) =~= v@.subrange(0, j as int).push(v@[j as int]));
        }
        j = j + 1;
    }
    proof {
        assert(v@.subrange(0, v@.len() as int) =~= v@);
    }
    r
}

/// Corridor or normal, from the room's bounding box.
fn classify_shape(tiles: &Vec<(i32, i32)>, w: i32, h: i32) -> (k: RoomKind)
    requires
        0 <= w,
        0 <= h,
        forall|j: int| 0 <= j < tiles@.len() ==> in_grid((#[trigger] tiles@[j]).0 as int, tiles@[j].1 as int, w as int, h as int),
    ensures
        k == shape_kind(tiles@, w as int, h as int),
{
    let (mut min_x, mut max_x) = (w, 0i32);
    let (mut min_y, mut max_y) = (h, 0i32);
    let mut j: usize = 0;
    while j < tiles.len()
        invariant
            j <= tiles@.len(),
            forall|jj: int| 0 <= jj < tiles@.len() ==> in_grid((#[trigger] tiles@[jj]).0 as int, tiles@[jj].1 as int, w as int, h as int),
            (min_x as int, max_x as int, min_y as int, max_y as int) == bbox(tiles@.subrange(0, j as int), w as int, h as int),
            0 <= min_x <= w,
            0 <= max_x < w || (j == 0 && max_x == 0),
            0 <= min_y <= h,
            0 <= max_y < h || (j == 0 && max_y == 0),
        decreases tiles@.len() - j,
    {
        let (tx, ty) = tiles[j];
        proof {
            assert(tiles@.subrange(0, j + 1).drop_last() =~= tiles@.subrange(0, j as int));
        }
        if tx < min_x { min_x = tx; }
        if tx > max_x { max_x = tx; }
        if ty < min_y { min_y = ty; }
        if ty > max_y { max_y = ty; }
        j = j + 1;
    }
    proof {
        assert(tiles@.subrange(0, tiles@.len() as int) =~= tiles@);
    }
    let bw = max_x as i64 - min_x as i64 + 1;
    let bh = max_y as i64 - min_y as i64 + 1;
    let thin = if bw < bh { bw } else { bh };
    let long = if bw < bh { bh } else { bw };
    let thin1 = if thin > 1 { thin } else { 1 };
    if thin <= 2 || long > 3 * thin1 {
        RoomKind::Corridor
    } else {
        RoomKind::Normal
    }
}

/// Some cardinal neighbour of `(x, y)` on the grid is a door.
pub open spec fn near_door(map: Seq<Cell>, w: int, h: int, x: int, y: int) -> bool {
    exists|d: int| 0 <= d < 4 && #[trigger] in_grid(x + step4(d).0, y + step4(d).1, w, h)
        && map[flat(x + step4(d).0, y + step4(d).1, w)].terrain.spec_is_door()
}

/// Indices, ascending, of the first `n` subgoals that lie in room `r` and
/// next to a door.
pub open spec fn door_sgs(sgs: Seq<(i32, i32)>, t2r: Seq<usize>, map: Seq<Cell>, w: int, h: int, r: int, n: int)
    -> Seq<usize>
    decreases n,
{
    if n <= 0 {
        Seq::empty()
    } else {
        let rest = door_sgs(sgs, t2r, map, w, h, r, n - 1);
        let p = sgs[n - 1];
        if t2r[flat(p.0 as int, p.1 as int, w)] as int == r && near_door(map, w, h, p.0 as int, p.1 as int) {
            rest.push((n - 1) as usize)
        } else {
            rest
        }
    }
}

/// Whether `(x, y)` has a door as cardinal neighbour.
fn next_to_door(map: &[Cell], w: i32, h: i32, x: i32, y: i32) -> (b: bool)
    requires
        grid_ok(map@, w as int, h as int),
        in_grid(x as int, y as int, w as int, h as int),
    ensures
        b == near_door(map@, w as int, h as int, x as int, y as int),
{
    let dirs: [(i32, i32); 4] = [(1, 0), (-1, 0), (0, 1), (0, -1)];
    let mut d: usize = 0;
    while d < 4
        invariant
            grid_ok(map@, w as int, h as int),
            in_grid(x as int, y as int, w as int, h as int),
            d <= 4,
            dirs@ == seq![(1i32, 0i32), (-1i32, 0i32), (0i32, 1i32), (0i32, -1i32)],
            forall|dd: int| 0 <= dd < d ==> !(#[trigger] in_grid(x + step4(dd).0, y + step4(dd).1, w as int, h as int)
                && map@[flat(x + step4(dd).0, y + step4(dd).1, w as int)].terrain.spec_is_door()),
        decreases 4 - d,
    {
        let (dx, dy) = dirs[d];
        proof {
            assert((dx as int, dy as int) == step4(d as int));
        }
        let nx = x + dx;
        let ny = y + dy;
        if nx >= 0 && nx < w && ny >= 0 && ny < h {
            proof {
                lemma_flat_in_range(nx as int, ny as int, w as int, h as int);
            }
            let t = map[idx(nx, ny, w)].terrain;
            if matches!(t, Terrain::DoorOpen | Terrain::DoorClosed) {
                proof {
                    let dd = d as int;
                    assert(in_grid(x + step4(dd).0, y + step4(dd).1, w as int, h as int)
                        && map@[flat(x + step4(dd).0, y + step4(dd).1, w as int)].terrain.spec_is_door());
                }
                return true;
            }
        }
        d = d + 1;
    }
    false
}

/// The subgoals at the exits of room `r`: those in the room with a door
/// as cardinal neighbour, ascending.
fn door_subgoals_of(map: &[Cell], w: i32, h: i32, subgoals: &Vec<(i32, i32)>, t2r: &Vec<usize>, r: usize) -> (v: Vec<usize>)
    requires
        grid_ok(map@, w as int, h as int),
        t2r@.len() == w * h,
        forall|s: int| 0 <= s < subgoals@.len() ==> in_grid((#[trigger] subgoals@[s]).0 as int, subgoals@[s].1 as int, w as int, h as int),
    ensures
        v@ == door_sgs(subgoals@, t2r@, map@, w as int, h as int, r as int, subgoals@.len() as int),
{
    let mut v: Vec<usize> = Vec::new();
    let mut si: usize = 0;
    while si < subgoals.len()
        invariant
            grid_ok(map@, w as int, h as int),
            t2r@.len() == w * h,
            forall|s: int| 0 <= s < subgoals@.len() ==> in_grid((#[trigger] subgoals@[s]).0 as int, subgoals@[s].1 as int, w as int, h as int),
            si <= subgoals@.len(),
            v@ == door_sgs(subgoals@, t2r@, map@, w as int, h as int, r as int, si as int),
        decreases subgoals@.len() - si,
    {
        let (sx, sy) = subgoals[si];
        proof {
            assert(in_grid(sx as int, sy as int, w as int, h as int));
            lemma_flat_in_range(sx as int, sy as int, w as int, h as int);
        }
        if t2r[idx(sx, sy, w)] == r && next_to_door(map, w, h, sx, sy) {
            v.push(si);
        }
        si = si + 1;
    }
    v
}

/// Direction `k` of the scans through a door: south, north, east, west.
pub open spec fn scan_dir(k: int) -> (int, int) {
    if k == 0 { (0, 1) } else if k == 1 { (0, -1) } else if k == 2 { (1, 0) } else { (-1, 0) }
}

/// Stepping from `pos` in direction `dir`, `dist` and more cells away (up
/// to three) over walkable cells on the grid: the first cell's room that
/// is a room other than `ri`.
pub open spec fn scan_hit(map: Seq<Cell>, w: int, h: int, t2r: Seq<usize>, pos: (i32, i32), dir: (int, int), ri: int, dist: int)
    -> Option<usize>
    decreases 4 - dist,
{
    if dist < 1 || dist > 3 {
        None
    } else {
        let nx = pos.0 + dir.0 * dist;
        let ny = pos.1 + dir.1 * dist;
        if !in_grid(nx, ny, w, h) || !map[flat(nx, ny, w)].terrain.spec_walkable() {
            None
        } else if t2r[flat(nx, ny, w)] as int != ri && t2r[flat(nx, ny, w)] != usize::MAX {
            Some(t2r[flat(nx, ny, w)])
        } else {
            scan_hit(map, w, h, t2r, pos, dir, ri, dist + 1)
        }
    }
}

/// The links `(room, pos)` found by the first `k` direction scans from `pos`.
pub open spec fn pos_links(map: Seq<Cell>, w: int, h: int, t2r: Seq<usize>, pos: (i32, i32), ri: int, k: int)
    -> Seq<(usize, (i32, i32))>
    decreases k,
{
    if k <= 0 {
        Seq::empty()
    } else {
        let rest = pos_links(map, w, h, t2r, pos, ri, k - 1);
        match scan_hit(map, w, h, t2r, pos, scan_dir(k - 1), ri, 1) {
            Some(o) => rest.push((o, pos)),
            None => rest,
        }
    }
}

/// The links found from each door subgoal of room `ri`, in order.
pub open spec fn room_cands(map: Seq<Cell>, w: int, h: int, sgs: Seq<(i32, i32)>, t2r: Seq<usize>, ri: int, dsg: Seq<usize>)
    -> Seq<(usize, (i32, i32))>
    decreases dsg.len(),
{
    if dsg.len() == 0 {
        Seq::empty()
    } else {
        room_cands(map, w, h, sgs, t2r, ri, dsg.drop_last()) + pos_links(map, w, h, t2r, sgs[dsg.last() as int], ri, 4)
    }
}

/// `s` without repeats, each kept at its first occurrence.
pub open spec fn dedup_links(s: Seq<(usize, (i32, i32))>) -> Seq<(usize, (i32, i32))>
    decreases s.len(),
{
    if s.len() == 0 {
        Seq::empty()
    } else {
        let d = dedup_links(s.drop_last());
        if d.contains(s.last()) { d } else { d.push(s.last()) }
    }
}

/// The first room other than `ri` met within three walkable cells of `pos`
/// in direction `(dx, dy)`.
fn scan_room(map: &[Cell], w: i32, h: i32, t2r: &Vec<usize>, pos: (i32, i32), dx: i32, dy: i32, ri: usize) -> (r: Option<usize>)
    requires
        grid_ok(map@, w as int, h as int),
        t2r@.len() == w * h,
        in_grid(pos.0 as int, pos.1 as int, w as int, h as int),
        -1 <= dx <= 1,
        -1 <= dy <= 1,
    ensures
        r == scan_hit(map@, w as int, h as int, t2r@, pos, (dx as int, dy as int), ri as int, 1),
{
    let mut dist: i32 = 1;
    while dist <= 3
        invariant
            grid_ok(map@, w as int, h as int),
            t2r@.len() == w * h,
            in_grid(pos.0 as int, pos.1 as int, w as int, h as int),
            -1 <= dx <= 1,
            -1 <= dy <= 1,
            1 <= dist <= 4,
            scan_hit(map@, w as int, h as int, t2r@, pos, (dx as int, dy as int), ri as int, 1)
                == scan_hit(map@, w as int, h as int, t2r@, pos, (dx as int, dy as int), ri as int, dist as int),
        decreases 4 - dist,
    {
        proof {
            assert(-3 <= dx * dist <= 3 && -3 <= dy * dist <= 3) by (nonlinear_arith)
                requires -1 <= dx <= 1, -1 <= dy <= 1, 1 <= dist <= 3;
        }
        let nx64 = pos.0 as i64 + (dx * dist) as i64;
        let ny64 = pos.1 as i64 + (dy * dist) as i64;
        if nx64 < 0 || nx64 >= w as i64 || ny64 < 0 || ny64 >= h as i64 {
            return None;
        }
        let nx = nx64 as i32;
        let ny = ny64 as i32;
        proof {
            lemma_flat_in_range(nx as int, ny as int, w as int, h as int);
        }
        let ni = idx(nx, ny, w);
        if !map[ni].terrain.is_walkable() {
            return None;
        }
        let other = t2r[ni];
        if other != ri && other != usize::MAX {
            return Some(other);
        }
        dist = dist + 1;
    }
    None
}

/// Whether `v` holds `e`.
fn has_link(v: &Vec<(usize, (i32, i32))>, e: (usize, (i32, i32))) -> (b: bool)
    ensures
        b == v@.contains(e),
{
    let mut j: usize = 0;
    while j < v.len()
        invariant
            j <= v@.len(),
            forall|jj: int| 0 <= jj < j ==> v@[jj] != e,
        decreases v@.len() - j,
    {
        if v[j].0 == e.0 && v[j].1.0 == e.1.0 && v[j].1.1 == e.1.1 {
            proof {
                assert(v@[j as int] == e);
            }
            return true;
        }
        j = j + 1;
    }
    false
}

/// The rooms beyond the doors of room `ri`, each `(room, door subgoal
/// position)` once, in order of discovery.
fn room_links(map: &[Cell], w: i32, h: i32, subgoals: &Vec<(i32, i32)>, t2r: &Vec<usize>, ri: usize, dsg: &Vec<usize>)
    -> (v: Vec<(usize, (i32, i32))>)
    requires
        grid_ok(map@, w as int, h as int),
        t2r@.len() == w * h,
        forall|s: int| 0 <= s < subgoals@.len() ==> in_grid((#[trigger] subgoals@[s]).0 as int, subgoals@[s].1 as int, w as int, h as int),
        forall|j: int| 0 <= j < dsg@.len() ==> (#[trigger] dsg@[j]) < subgoals@.len(),
    ensures
        v@ == dedup_links(room_cands(map@, w as int, h as int, subgoals@, t2r@, ri as int, dsg@)),
{
    let dirs: [(i32, i32); 4] = [(0, 1), (0, -1), (1, 0), (-1, 0)];
    let mut v: Vec<(usize, (i32, i32))> = Vec::new();
    let mut j: usize = 0;
    while j < dsg.len()
        invariant
            grid_ok(map@, w as int, h as int),
            t2r@.len() == w * h,
            forall|s: int| 0 <= s < subgoals@.len() ==> in_grid((#[trigger] subgoals@[s]).0 as int, subgoals@[s].1 as int, w as int, h as int),
            forall|jj: int| 0 <= jj < dsg@.len() ==> (#[trigger] dsg@[jj]) < subgoals@.len(),
            j <= dsg@.len(),
            dirs@ == seq![(0i32, 1i32), (0i32, -1i32), (1i32, 0i32), (-1i32, 0i32)],
            v@ == dedup_links(room_cands(map@, w as int, h as int, subgoals@, t2r@, ri as int, dsg@.subrange(0, j as int))),
        decreases dsg@.len() - j,
    {
        let si = dsg[j];
        let pos = subgoals[si];
        let ghost before = room_cands(map@, w as int, h as int, subgoals@, t2r@, ri as int, dsg@.subrange(0, j as int));
        proof {
            assert(in_grid(pos.0 as int, pos.1 as int, w as int, h as int));
            assert(before =~= before + pos_links(map@, w as int, h as int, t2r@, pos, ri as int, 0));
        }
        let mut k: usize = 0;
        while k < 4
            invariant
                grid_ok(map@, w as int, h as int),
                t2r@.len() == w * h,
                in_grid(pos.0 as int, pos.1 as int, w as int, h as int),
                k <= 4,
                dirs@ == seq![(0i32, 1i32), (0i32, -1i32), (1i32, 0i32), (-1i32, 0i32)],
                v@ == dedup_links(before + pos_links(map@, w as int, h as int, t2r@, pos, ri as int, k as int)),
            decreases 4 - k,
        {
            let (dx, dy) = dirs[k];
            proof {
                assert((dx as int, dy as int) == scan_dir(k as int));
            }
            let ghost cur = before + pos_links(map@, w as int, h as int, t2r@, pos, ri as int, k as int);
            match scan_room(map, w, h, t2r, pos, dx, dy, ri) {
                Some(o) => {
                    proof {
                        let nxt = before + pos_links(map@, w as int, h as int, t2r@, pos, ri as int, k + 1);
                        assert(nxt =~= cur.push((o, pos)));
                        assert(nxt.drop_last() =~= cur);
                    }
                    if !has_link(&v, (o, pos)) {
                        v.push((o, pos));
                    }
                },
                None => {
                    proof {
                        assert(before + pos_links(map@, w as int, h as int, t2r@, pos, ri as int, k + 1) =~= cur);
                    }
                },
            }
            k = k + 1;
        }
        proof {
            assert(dsg@.subrange(0, j + 1).drop_last() =~= dsg@.subrange(0, j as int));
            assert(dsg@.subrange(0, j + 1).last() == si);
        }
        j = j + 1;
    }
    proof {
        assert(dsg@.subrange(0, dsg@.len() as int) =~= dsg@);
    }
    v
}

/// How many tiles of `t` carry kind `k` in `ck`.
pub open spec fn kind_count(t: Seq<(i32, i32)>, ck: Seq<Option<RoomKind>>, w: int, k: RoomKind) -> int
    decreases t.len(),
{
    if t.len() == 0 {
        0
    } else {
        kind_count(t.drop_last(), ck, w, k)
            + if ck[flat(t.last().0 as int, t.last().1 as int, w)] == Some(k) { 1int } else { 0int }
    }
}

/// The room's kind: its shape's, except that a non-corridor room takes the
/// majority of the tile kinds in `ck` when that is toilet or trash (ties
/// favour toilet, then trash, over normal).
pub open spec fn final_kind(t: Seq<(i32, i32)>, ck: Seq<Option<RoomKind>>, w: int, h: int) -> RoomKind {
    let shape = shape_kind(t, w, h);
    if ck.len() == 0 || shape == RoomKind::Corridor {
        shape
    } else {
        let normal = kind_count(t, ck, w, RoomKind::Normal);
        let toilet = kind_count(t, ck, w, RoomKind::Toilet);
        let trash = kind_count(t, ck, w, RoomKind::Trash);
        if toilet >= trash && toilet >= normal && toilet > 0 {
            RoomKind::Toilet
        } else if trash >= toilet && trash >= normal && trash > 0 {
            RoomKind::Trash
        } else {
            shape
        }
    }
}

/// A room's kind follows the votes of its tiles: a corridor-shaped room, or
/// any room when no tile kinds are given, keeps its shape's kind; otherwise
/// it becomes Toilet (or Trash) only when at least one tile votes so and no
/// other kind has more votes, ties going to Toilet, then Trash; a room whose
/// Normal votes outnumber both other kinds stays Normal.
pub proof fn lemma_room_kind_votes(t: Seq<(i32, i32)>, ck: Seq<Option<RoomKind>>, w: int, h: int)
    ensures
        ({
            let k = final_kind(t, ck, w, h);
            let shape = shape_kind(t, w, h);
            let n = kind_count(t, ck, w, RoomKind::Normal);
            let to = kind_count(t, ck, w, RoomKind::Toilet);
            let tr = kind_count(t, ck, w, RoomKind::Trash);
            &&& shape == RoomKind::Corridor || ck.len() == 0 ==> k == shape
            &&& k == RoomKind::Toilet ==> shape == RoomKind::Normal && ck.len() > 0 && to > 0 && to >= n && to >= tr
            &&& k == RoomKind::Trash ==> shape == RoomKind::Normal && ck.len() > 0 && tr > 0 && tr >= n && tr >= to
            &&& k != RoomKind::Toilet && k != RoomKind::Trash ==> k == shape
            &&& shape == RoomKind::Normal && n > to && n > tr ==> k == RoomKind::Normal
            &&& shape == RoomKind::Normal && ck.len() > 0 && to > 0 && to >= tr && to >= n ==> k == RoomKind::Toilet
            &&& shape == RoomKind::Normal && ck.len() > 0 && tr > 0 && tr > to && tr >= n ==> k == RoomKind::Trash
        }),
{
}

/// The kind of a room from its shape and the majority of its tile kinds.
fn vote_kind(tiles: &Vec<(i32, i32)>, cell_kinds: &[Option<RoomKind>], w: i32, h: i32, shape: RoomKind) -> (k: RoomKind)
    requires
        0 <= w,
        0 <= h,
        shape == shape_kind(tiles@, w as int, h as int),
        cell_kinds@.len() == 0 || cell_kinds@.len() == w * h,
        w * h <= i32::MAX,
        forall|j: int| 0 <= j < tiles@.len() ==> in_grid((#[trigger] tiles@[j]).0 as int, tiles@[j].1 as int, w as int, h as int),
    ensures
        k == final_kind(tiles@, cell_kinds@, w as int, h as int),
{
    if cell_kinds.len() == 0 || shape == RoomKind::Corridor {
        return shape;
    }
    let mut normal: usize = 0;
    let mut toilet: usize = 0;
    let mut trash: usize = 0;
    let mut j: usize = 0;
    while j < tiles.len()
        invariant
            cell_kinds@.len() == w * h,
            w * h <= i32::MAX,
            0 <= w,
            0 <= h,
            forall|jj: int| 0 <= jj < tiles@.len() ==> in_grid((#[trigger] tiles@[jj]).0 as int, tiles@[jj].1 as int, w as int, h as int),
            j <= tiles@.len(),
            normal as int == kind_count(tiles@.subrange(0, j as int), cell_kinds@, w as int, RoomKind::Normal),
            toilet as int == kind_count(tiles@.subrange(0, j as int), cell_kinds@, w as int, RoomKind::Toilet),
            trash as int == kind_count(tiles@.subrange(0, j as int), cell_kinds@, w as int, RoomKind::Trash),
            normal <= j,
            toilet <= j,
            trash <= j,
        decreases tiles@.len() - j,
    {
        let (tx, ty) = tiles[j];
        proof {
            assert(in_grid(tx as int, ty as int, w as int, h as int));
            lemma_flat_in_range(tx as int, ty as int, w as int, h as int);
            assert(tiles@.subrange(0, j + 1).drop_last() =~= tiles@.subrange(0, j as int));
        }
        let ci = idx(tx, ty, w);
        match cell_kinds[ci] {
            Some(RoomKind::Normal) => normal = normal + 1,
            Some(RoomKind::Toilet) => toilet = toilet + 1,
            Some(RoomKind::Trash) => trash = trash + 1,
            _ => {},
        }
        j = j + 1;
    }
    proof {
        assert(tiles@.subrange(0, tiles@.len() as int) =~= tiles@);
    }
    if toilet >= trash && toilet >= normal && toilet > 0 {
        RoomKind::Toilet
    } else if trash >= toilet && trash >= normal && trash > 0 {
        RoomKind::Trash
    } else {
        shape
    }
}

/// Door subgoal indices are subgoal indices.
proof fn lemma_door_sgs_bound(sgs: Seq<(i32, i32)>, t2r: Seq<usize>, map: Seq<Cell>, w: int, h: int, r: int, n: int)
    requires
        n <= sgs.len(),
    ensures
        forall|j: int| 0 <= j < door_sgs(sgs, t2r, map, w, h, r, n).len() ==>
            (#[trigger] door_sgs(sgs, t2r, map, w, h, r, n)[j]) < n,
    decreases n,
{
    if n > 0 {
        lemma_door_sgs_bound(sgs, t2r, map, w, h, r, n - 1);
        let rest = door_sgs(sgs, t2r, map, w, h, r, n - 1);
        let cur = door_sgs(sgs, t2r, map, w, h, r, n);
        assert forall|j: int| 0 <= j < cur.len() implies (#[trigger] cur[j]) < n by {
            if j < rest.len() {
                assert(cur[j] == rest[j]);
            }
        }
    }
}

/// Detect the rooms: connected regions of walkable non-door tiles, found
/// by flood fill in row-major order of their first tile. Returns the rooms
/// and the tile-to-room table (`usize::MAX` where no room is). Each room
/// records the subgoals next to its doors, the rooms beyond them, and its
/// kind: corridor by shape, else the majority of `cell_kinds` over its
/// tiles (normal where `cell_kinds` is empty).
pub fn build_rooms(map: &[Cell], w: i32, h: i32, sg: &SubgoalGraph, cell_kinds: &[Option<RoomKind>]) -> (r: (Vec<Room>, Vec<usize>))
    requires
        grid_ok(map@, w as int, h as int),
        forall|s: int| 0 <= s < sg.subgoals@.len() ==>
            in_grid((#[trigger] sg.subgoals@[s]).0 as int, sg.subgoals@[s].1 as int, w as int, h as int),
        cell_kinds@.len() == 0 || cell_kinds@.len() == w * h,
    ensures
        partition_ok(map@, w as int, h as int, r.0@.map_values(|room: Room| room.tiles@), r.1@),
        forall|ri: int| 0 <= ri < r.0@.len() ==> {
            let room = #[trigger] r.0@[ri];
            &&& room.id == ri
            &&& room.kind == final_kind(room.tiles@, cell_kinds@, w as int, h as int)
            &&& room.door_subgoals@ == door_sgs(sg.subgoals@, r.1@, map@, w as int, h as int, ri, sg.subgoals@.len() as int)
            &&& room.adjacent_rooms@ == dedup_links(room_cands(map@, w as int, h as int, sg.subgoals@, r.1@, ri, room.door_subgoals@))
        },
{
    let ghost wi = w as int;
    let ghost hi = h as int;
    let (tiles_list, t2r) = flood_rooms(map, w, h);
    let ghost tl = tiles_list@.map_values(|v: Vec<(i32, i32)>| v@);
    let mut rooms: Vec<Room> = Vec::new();
    let mut ri: usize = 0;
    while ri < tiles_list.len()
        invariant
            grid_ok(map@, wi, hi),
            wi == w,
            hi == h,
            forall|s: int| 0 <= s < sg.subgoals@.len() ==>
                in_grid((#[trigger] sg.subgoals@[s]).0 as int, sg.subgoals@[s].1 as int, wi, hi),
            cell_kinds@.len() == 0 || cell_kinds@.len() == wi * hi,
            partition_ok(map@, wi, hi, tl, t2r@),
            tl == tiles_list@.map_values(|v: Vec<(i32, i32)>| v@),
            ri <= tiles_list@.len(),
            rooms@.len() == ri,
            forall|k: int| 0 <= k < ri ==> {
                let room = #[trigger] rooms@[k];
                &&& room.tiles@ == tl[k]
                &&& room.id == k
                &&& room.kind == final_kind(room.tiles@, cell_kinds@, wi, hi)
                &&& room.door_subgoals@ == door_sgs(sg.subgoals@, t2r@, map@, wi, hi, k, sg.subgoals@.len() as int)
                &&& room.adjacent_rooms@ == dedup_links(room_cands(map@, wi, hi, sg.subgoals@, t2r@, k, room.door_subgoals@))
            },
        decreases tiles_list@.len() - ri,
    {
        let tiles = copy_tiles(&tiles_list[ri]);
        proof {
            assert(tiles@ == tl[ri as int]);
            assert forall|j: int| 0 <= j < tiles@.len() implies
                in_grid((#[trigger] tiles@[j]).0 as int, tiles@[j].1 as int, wi, hi) by {
                assert(tiles@[j] == tl[ri as int][j]);
                assert(room_cell(map@, wi, hi, tl[ri as int][j].0 as int, tl[ri as int][j].1 as int));
            }
        }
        let shape = classify_shape(&tiles, w, h);
        let dsg = door_subgoals_of(map, w, h, &sg.subgoals, &t2r, ri);
        proof {
            lemma_door_sgs_bound(sg.subgoals@, t2r@, map@, wi, hi, ri as int, sg.subgoals@.len() as int);
        }
        let adj = room_links(map, w, h, &sg.subgoals, &t2r, ri, &dsg);
        let kind = vote_kind(&tiles, cell_kinds, w, h, shape);
        rooms.push(Room { id: ri, tiles, door_subgoals: dsg, kind, adjacent_rooms: adj });
        ri = ri + 1;
    }
    proof {
        let rt = rooms@.map_values(|room: Room| room.tiles@);
        assert(rt =~= tl);
    }
    (rooms, t2r)
}

proof fn lemma_dedup_sub(s: Seq<(usize, (i32, i32))>, e: (usize, (i32, i32)))
    requires
        dedup_links(s).contains(e),
    ensures
        s.contains(e),
    decreases s.len(),
{
    if s.len() > 0 {
        let d = dedup_links(s.drop_last());
        if d.contains(e) {
            lemma_dedup_sub(s.drop_last(), e);
            let j = choose|j: int| 0 <= j < s.drop_last().len() && s.drop_last()[j] == e;
            assert(s[j] == e);
        } else {
            assert(e == s.last());
            assert(s[s.len() - 1] == e);
        }
    }
}

proof fn lemma_scan_hit(map: Seq<Cell>, w: int, h: int, t2r: Seq<usize>, pos: (i32, i32), dir: (int, int), ri: int, dist: int)
    requires
        scan_hit(map, w, h, t2r, pos, dir, ri, dist) is Some,
    ensures
        ({
            let o = scan_hit(map, w, h, t2r, pos, dir, ri, dist).unwrap();
            &&& o as int != ri
            &&& exists|x: int, y: int| in_grid(x, y, w, h) && #[trigger] t2r[flat(x, y, w)] == o && o != usize::MAX
        }),
    decreases 4 - dist,
{
    let nx = pos.0 + dir.0 * dist;
    let ny = pos.1 + dir.1 * dist;
    if t2r[flat(nx, ny, w)] as int != ri && t2r[flat(nx, ny, w)] != usize::MAX {
        assert(in_grid(nx, ny, w, h) && t2r[flat(nx, ny, w)] == scan_hit(map, w, h, t2r, pos, dir, ri, dist).unwrap());
    } else {
        lemma_scan_hit(map, w, h, t2r, pos, dir, ri, dist + 1);
    }
}

proof fn lemma_pos_links(map: Seq<Cell>, w: int, h: int, t2r: Seq<usize>, pos: (i32, i32), ri: int, k: int, e: (usize, (i32, i32)))
    requires
        pos_links(map, w, h, t2r, pos, ri, k).contains(e),
    ensures
        e.1 == pos,
        e.0 as int != ri,
        exists|x: int, y: int| in_grid(x, y, w, h) && #[trigger] t2r[flat(x, y, w)] == e.0 && e.0 != usize::MAX,
    decreases k,
{
    if k > 0 {
        let rest = pos_links(map, w, h, t2r, pos, ri, k - 1);
        if rest.contains(e) {
            lemma_pos_links(map, w, h, t2r, pos, ri, k - 1, e);
        } else {
            lemma_scan_hit(map, w, h, t2r, pos, scan_dir(k - 1), ri, 1);
        }
    }
}

proof fn lemma_room_cands(map: Seq<Cell>, w: int, h: int, sgs: Seq<(i32, i32)>, t2r: Seq<usize>, ri: int, dsg: Seq<usize>, e: (usize, (i32, i32)))
    requires
        room_cands(map, w, h, sgs, t2r, ri, dsg).contains(e),
    ensures
        exists|j: int| 0 <= j < dsg.len() && pos_links(map, w, h, t2r, sgs[#[trigger] dsg[j] as int], ri, 4).contains(e),
    decreases dsg.len(),
{
    if dsg.len() > 0 {
        let a = room_cands(map, w, h, sgs, t2r, ri, dsg.drop_last());
        let b = pos_links(map, w, h, t2r, sgs[dsg.last() as int], ri, 4);
        let j = choose|j: int| 0 <= j < (a + b).len() && (a + b)[j] == e;
        if j < a.len() {
            assert(a[j] == e);
            lemma_room_cands(map, w, h, sgs, t2r, ri, dsg.drop_last(), e);
            let jj = choose|jj: int| 0 <= jj < dsg.drop_last().len()
                && pos_links(map, w, h, t2r, sgs[#[trigger] dsg.drop_last()[jj] as int], ri, 4).contains(e);
            assert(dsg[jj] == dsg.drop_last()[jj]);
        } else {
            assert(b[j - a.len()] == e);
            assert(dsg[dsg.len() - 1] == dsg.last());
        }
    }
}

/// Every room link leads through one of the room's door subgoals to another
/// existing room.
pub proof fn lemma_link_targets(map: Seq<Cell>, w: int, h: int, sgs: Seq<(i32, i32)>, tiles: Seq<Seq<(i32, i32)>>,
    t2r: Seq<usize>, ri: int, dsg: Seq<usize>, e: (usize, (i32, i32)))
    requires
        partition_ok(map, w, h, tiles, t2r),
        dedup_links(room_cands(map, w, h, sgs, t2r, ri, dsg)).contains(e),
    ensures
        e.0 as int != ri,
        (e.0 as int) < tiles.len(),
        exists|j: int| 0 <= j < dsg.len() && sgs[#[trigger] dsg[j] as int] == e.1,
{
    lemma_dedup_sub(room_cands(map, w, h, sgs, t2r, ri, dsg), e);
    lemma_room_cands(map, w, h, sgs, t2r, ri, dsg, e);
    let j = choose|j: int| 0 <= j < dsg.len() && pos_links(map, w, h, t2r, sgs[#[trigger] dsg[j] as int], ri, 4).contains(e);
    lemma_pos_links(map, w, h, t2r, sgs[dsg[j] as int], ri, 4, e);
    let (x, y) = choose|x: int, y: int| in_grid(x, y, w, h) && #[trigger] t2r[flat(x, y, w)] == e.0 && e.0 != usize::MAX;
    assert(t2r[flat(x, y, w)] != usize::MAX);
}

/// Room `a` lists a link to room `b`, both rooms of `rooms`.
pub open spec fn room_link(rooms: Seq<Room>, a: int, b: int) -> bool {
    &&& 0 <= a < rooms.len()
    &&& 0 <= b < rooms.len()
    &&& exists|k: int| 0 <= k < rooms[a].adjacent_rooms@.len() && (#[trigger] rooms[a].adjacent_rooms@[k]).0 as int == b
}

/// `p` is a non-empty walk over room links.
pub open spec fn room_walk(rooms: Seq<Room>, p: Seq<usize>) -> bool {
    &&& p.len() >= 1
    &&& forall|i: int, j: int| 0 <= i && j == i + 1 && j < p.len() ==>
        room_link(rooms, #[trigger] p[i] as int, #[trigger] p[j] as int)
}

/// Room `b` can be reached from room `a` over at most `k` links.
pub open spec fn within_hops(rooms: Seq<Room>, a: int, b: int, k: int) -> bool {
    exists|p: Seq<usize>| #[trigger] room_walk(rooms, p) && p[0] as int == a && p.last() as int == b && p.len() <= k + 1
}

/// A walk's last link splits off.
pub proof fn lemma_hops_last(rooms: Seq<Room>, a: int, b: int, k: int)
    requires
        within_hops(rooms, a, b, k),
        a != b,
    ensures
        k >= 1,
        exists|u: int| within_hops(rooms, a, u, k - 1) && #[trigger] room_link(rooms, u, b),
{
    let p = choose|p: Seq<usize>| #[trigger] room_walk(rooms, p) && p[0] as int == a && p.last() as int == b && p.len() <= k + 1;
    assert(p.len() >= 2);
    let q = p.drop_last();
    assert(room_walk(rooms, q)) by {
        assert forall|i: int, j: int| 0 <= i && j == i + 1 && j < q.len() implies
            room_link(rooms, #[trigger] q[i] as int, #[trigger] q[j] as int) by {
            assert(q[i] == p[i] && q[j] == p[j]);
        }
    }
    let u = q.last() as int;
    assert(room_link(rooms, p[p.len() - 2] as int, p[p.len() - 1] as int));
    assert(within_hops(rooms, a, u, k - 1));
}

/// A link extends a walk.
pub proof fn lemma_hops_step(rooms: Seq<Room>, a: int, u: int, b: int, k: int)
    requires
        within_hops(rooms, a, u, k),
        room_link(rooms, u, b),
    ensures
        within_hops(rooms, a, b, k + 1),
{
    let p = choose|p: Seq<usize>| #[trigger] room_walk(rooms, p) && p[0] as int == a && p.last() as int == u && p.len() <= k + 1;
    let q = p.push(b as usize);
    assert(room_walk(rooms, q)) by {
        assert forall|i: int, j: int| 0 <= i && j == i + 1 && j < q.len() implies
            room_link(rooms, #[trigger] q[i] as int, #[trigger] q[j] as int) by {
            if j < p.len() {
                assert(q[i] == p[i] && q[j] == p[j]);
            } else {
                assert(q[i] == p.last());
            }
        }
    }
    assert(q[0] == p[0]);
}

/// Every room reaches itself in no links.
pub proof fn lemma_hops_refl(rooms: Seq<Room>, a: usize)
    ensures
        within_hops(rooms, a as int, a as int, 0),
{
    let p = seq![a];
    assert(room_walk(rooms, p));
}

/// Breadth-first lower bound: where every visited room below level `l`
/// has all its links visited one level further at most, every room within
/// `k <= l` links of the root is visited at level at most `k`.
pub proof fn lemma_bfs_bound(rooms: Seq<Room>, from: int, visited: Seq<bool>, lvl: Seq<int>, l: int, v: int, k: int)
    requires
        visited.len() == rooms.len(),
        lvl.len() == rooms.len(),
        0 <= from < rooms.len(),
        visited[from],
        lvl[from] == 0,
        forall|u: int, x: int| 0 <= u < rooms.len() && #[trigger] visited[u] && lvl[u] < l
            && #[trigger] room_link(rooms, u, x) ==> visited[x] && lvl[x] <= lvl[u] + 1,
        0 <= k <= l,
        within_hops(rooms, from, v, k),
    ensures
        0 <= v < rooms.len(),
        visited[v],
        lvl[v] <= k,
    decreases k,
{
    if v == from {
    } else {
        lemma_hops_last(rooms, from, v, k);
        let u = choose|u: int| within_hops(rooms, from, u, k - 1) && #[trigger] room_link(rooms, u, v);
        lemma_bfs_bound(rooms, from, visited, lvl, l, u, k - 1);
    }
}

/// Breadth-first state over the room graph: the queue holds each visited
/// room once with its level, levels never drop along the queue and stay
/// within one of `cur`, the first `head` entries are expanded, and every
/// visited room is reached in its level's number of links.
pub open spec fn bfs_ok(rooms: Seq<Room>, from: int, to: int, visited: Seq<bool>, queue: Seq<(usize, u32)>,
    lvl: Seq<int>, slot: Seq<int>, head: int, cur: int) -> bool
{
    let n = rooms.len();
    &&& visited.len() == n
    &&& lvl.len() == n
    &&& slot.len() == n
    &&& 0 <= head <= queue.len() <= n
    &&& queue.len() >= 1
    &&& queue[0] == (from as usize, 0u32)
    &&& !visited[to]
    &&& forall|j: int| 0 <= j < queue.len() ==> {
        let (v, l) = #[trigger] queue[j];
        &&& (v as int) < n
        &&& visited[v as int]
        &&& lvl[v as int] == l
        &&& slot[v as int] == j
        &&& l <= j
    }
    &&& forall|v: int| 0 <= v < n && #[trigger] visited[v] ==> 0 <= slot[v] < queue.len() && queue[slot[v]].0 as int == v
    &&& forall|v: int| 0 <= v < n && #[trigger] visited[v] ==> within_hops(rooms, from, v, lvl[v])
    &&& forall|j1: int, j2: int| 0 <= j1 <= j2 < queue.len() ==> (#[trigger] queue[j1]).1 <= (#[trigger] queue[j2]).1
    &&& forall|j: int| 0 <= j < head ==> (#[trigger] queue[j]).1 <= cur
    &&& forall|j: int| head <= j < queue.len() ==> cur <= (#[trigger] queue[j]).1 <= cur + 1
    &&& forall|j: int, x: int| 0 <= j < head && #[trigger] room_link(rooms, queue[j].0 as int, x)
        ==> visited[x] && lvl[x] <= (#[trigger] queue[j]).1 + 1
}

/// Visited rooms below level `l` are expanded, so their links are visited.
pub proof fn lemma_bfs_closed_below(rooms: Seq<Room>, from: int, to: int, visited: Seq<bool>, queue: Seq<(usize, u32)>,
    lvl: Seq<int>, slot: Seq<int>, head: int, cur: int, l: int)
    requires
        bfs_ok(rooms, from, to, visited, queue, lvl, slot, head, cur),
        head < queue.len() ==> l <= queue[head].1,
    ensures
        forall|u: int, x: int| 0 <= u < rooms.len() && #[trigger] visited[u] && lvl[u] < l
            && #[trigger] room_link(rooms, u, x) ==> visited[x] && lvl[x] <= lvl[u] + 1,
{
    assert forall|u: int, x: int| 0 <= u < rooms.len() && #[trigger] visited[u] && lvl[u] < l
        && #[trigger] room_link(rooms, u, x) implies visited[x] && lvl[x] <= lvl[u] + 1 by {
        let j = slot[u];
        assert(queue[j].0 as int == u);
        if j >= head {
            assert(queue[head].1 <= queue[j].1);
        }
        assert(room_link(rooms, queue[j].0 as int, x));
    }
}

/// Visiting a new room `v` from the room at the head of the queue, one
/// level further, keeps the breadth-first state.
pub proof fn lemma_bfs_push(rooms: Seq<Room>, from: int, to: int, visited: Seq<bool>, queue: Seq<(usize, u32)>,
    lvl: Seq<int>, slot: Seq<int>, head: int, cur: int, v: usize)
    requires
        bfs_ok(rooms, from, to, visited, queue, lvl, slot, head, cur),
        0 <= to < rooms.len(),
        head < queue.len(),
        queue[head].1 == cur,
        (v as int) < rooms.len(),
        !visited[v as int],
        v as int != to,
        within_hops(rooms, from, v as int, cur + 1),
        queue.len() + 1 <= rooms.len(),
        cur + 1 <= u32::MAX,
    ensures
        bfs_ok(rooms, from, to, visited.update(v as int, true), queue.push((v, (cur + 1) as u32)),
            lvl.update(v as int, cur + 1), slot.update(v as int, queue.len() as int), head, cur),
{
    let n = rooms.len();
    let vis2 = visited.update(v as int, true);
    let q2 = queue.push((v, (cur + 1) as u32));
    let lvl2 = lvl.update(v as int, cur + 1);
    let slot2 = slot.update(v as int, queue.len() as int);
    assert forall|j: int| 0 <= j < queue.len() implies #[trigger] q2[j] == queue[j] by {}
    assert forall|j: int| 0 <= j < q2.len() implies {
        let (vv, l) = #[trigger] q2[j];
        &&& (vv as int) < n
        &&& vis2[vv as int]
        &&& lvl2[vv as int] == l
        &&& slot2[vv as int] == j
        &&& l <= j
    } by {
        if j < queue.len() {
            assert(visited[queue[j].0 as int]);
            assert(queue[j].0 != v);
        } else {
            assert(queue[head].1 <= head);
        }
    }
    assert forall|x: int| 0 <= x < n && #[trigger] vis2[x] implies within_hops(rooms, from, x, lvl2[x]) by {
        if x != v as int {
            assert(visited[x]);
        }
    }
    assert forall|x: int| 0 <= x < n && #[trigger] vis2[x] implies 0 <= slot2[x] < q2.len() && q2[slot2[x]].0 as int == x by {
        if x != v as int {
            assert(visited[x]);
        }
    }
    assert forall|j1: int, j2: int| 0 <= j1 <= j2 < q2.len() implies (#[trigger] q2[j1]).1 <= (#[trigger] q2[j2]).1 by {
        if j2 == queue.len() && j1 < queue.len() {
            if j1 < head {
                assert(queue[j1].1 <= cur);
            } else {
                assert(queue[j1].1 <= cur + 1);
            }
        }
    }
    assert forall|j: int, x: int| 0 <= j < head && #[trigger] room_link(rooms, q2[j].0 as int, x)
        implies vis2[x] && lvl2[x] <= (#[trigger] q2[j]).1 + 1 by {
        assert(q2[j] == queue[j]);
        assert(visited[x]);
    }
    assert(vis2.len() == n && lvl2.len() == n && slot2.len() == n);
    assert(0 <= head <= q2.len() <= n);
    assert(q2[0] == (from as usize, 0u32));
    assert(!vis2[to]);
    assert forall|j: int| 0 <= j < head implies (#[trigger] q2[j]).1 <= cur by {
        assert(q2[j] == queue[j]);
    }
    assert forall|j: int| head <= j < q2.len() implies cur <= (#[trigger] q2[j]).1 <= cur + 1 by {
        if j < queue.len() {
            assert(q2[j] == queue[j]);
        }
    }
}

} // verus!
