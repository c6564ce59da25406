//! Chase support: the chase phases and the room-level and tile-level
//! routing helpers the chase relies on.

use vstd::prelude::*;
use crate::room::{Room, room_link, room_walk, within_hops, lemma_hops_step, lemma_hops_refl, lemma_bfs_bound,
    bfs_ok, lemma_bfs_closed_below, lemma_bfs_push};
use crate::cell::{Cell, grid_ok, in_grid, flat, open_at, ipos, is_walk, reachable, lemma_flat_in_range, idx};
use crate::npc::{astar, walk_between, iseq, steps_at_least, shortest_steps, lemma_shortest_steps};
use crate::subgoal::{SubgoalGraph, los, ip};

verus! {

/// Phase of an NPC's chase.
#[derive(Clone, Debug)]
pub enum ChasePhase {
    /// Direct pursuit: the NPC sees the player.
    Pursuit,
    /// Sight lost: heading for the target room, possibly over several rooms.
    Navigate {
        /// The room to reach and search.
        final_room: usize,
        /// Room path from the NPC's room to `final_room` (inclusive).
        room_path: Vec<usize>,
        /// Index into `room_path` of the room being headed for.
        current_hop: usize,
    },
    /// Inside the target room, sweeping its blind spots.
    Search {
        room_id: usize,
        /// Per-tile seen flags, parallel to the room's tiles.
        seen: Vec<bool>,
    },
}

/// Breadth-first search over the room links: `Some` of a shortest room
/// walk from `from` to `to` (both ends included), or `None` when none
/// exists.
#[verifier::rlimit(60)]
pub fn bfs_room_path(from_room: usize, to_room: usize, rooms: &[Room]) -> (r: Option<Vec<usize>>)
    requires
        rooms@.len() < u32::MAX,
    ensures
        from_room == to_room ==> (r matches Some(p) && p@ == seq![to_room]),
        r is Some <==> exists|k: int| #[trigger] within_hops(rooms@, from_room as int, to_room as int, k),
        r matches Some(p) ==> {
            &&& room_walk(rooms@, p@)
            &&& p@[0] == from_room
            &&& p@.last() == to_room
            &&& !within_hops(rooms@, from_room as int, to_room as int, p@.len() - 2)
        },
{
    let from = from_room;
    let to = to_room;
    if from == to {
        let v = vec![to];
        proof {
            assert(v@ =~= seq![to]);
            lemma_hops_refl(rooms@, from);
            assert(room_walk(rooms@, v@));
        }
        return Some(v);
    }
    if from >= rooms.len() || to >= rooms.len() {
        proof {
            assert forall|k: int| !#[trigger] within_hops(rooms@, from as int, to as int, k) by {
                if within_hops(rooms@, from as int, to as int, k) {
                    let p = choose|p: Seq<usize>| #[trigger] room_walk(rooms@, p) && p[0] as int == from
                        && p.last() as int == to && p.len() <= k + 1;
                    assert(room_link(rooms@, p[0] as int, p[1] as int));
                    assert(room_link(rooms@, p[p.len() - 2] as int, p[p.len() - 1] as int));
                }
            }
        }
        return None;
    }
    let n = rooms.len();
    let mut visited: Vec<bool> = vec![false; n];
    let mut parent: Vec<usize> = vec![usize::MAX; n];
    let mut queue: Vec<usize> = Vec::new();
    visited.set(from, true);
    queue.push(from);
    let ghost mut gq: Seq<(usize, u32)> = seq![(from, 0u32)];
    let ghost mut lvl: Seq<int> = Seq::new(n as nat, |i: int| 0int);
    let ghost mut slot: Seq<int> = Seq::new(n as nat, |i: int| 0int);
    let ghost mut cur: int = 0;
    let ghost mut vis_set: Set<int> = set![from as int];
    let ghost all_rooms: Set<int> = Set::new(|v: int| 0 <= v < n);
    proof {
        assert forall|v: int| 0 <= v < n && v != from implies !#[trigger] visited@[v] by {
            assert(cloned(false, visited@[v]));
        }
        lemma_hops_refl(rooms@, from);
        assert(bfs_ok(rooms@, from as int, to as int, visited@, gq, lvl, slot, 0, cur));
    }
    let mut head: usize = 0;
    while head < queue.len()
        invariant
            n == rooms@.len(),
            n < u32::MAX,
            from == from_room,
            to == to_room,
            from < n,
            to < n,
            from != to,
            parent@.len() == n,
            queue@.len() == gq.len(),
            forall|j: int| 0 <= j < gq.len() ==> (#[trigger] gq[j]).0 == queue@[j],
            bfs_ok(rooms@, from as int, to as int, visited@, gq, lvl, slot, head as int, cur),
            forall|v: int| 0 <= v < n && v != from && #[trigger] visited@[v] ==> {
                let p = parent@[v] as int;
                &&& 0 <= p < n
                &&& visited@[p]
                &&& room_link(rooms@, p, v)
                &&& lvl[p] + 1 == lvl[v]
            },
            vis_set.finite(),
            vis_set.len() == queue@.len(),
            vis_set.subset_of(all_rooms),
            all_rooms == Set::new(|v: int| 0 <= v < n),
            forall|v: int| 0 <= v < n ==> (#[trigger] visited@[v] <==> vis_set.contains(v)),
        decreases n - head,
    {
        let cur_room = queue[head];
        let ghost old_cur = cur;
        let ghost hops = gq[head as int].1;
        proof {
            cur = hops as int;
            assert(gq[head as int].0 == cur_room);
            assert(bfs_ok(rooms@, from as int, to as int, visited@, gq, lvl, slot, head as int, cur)) by {
                assert forall|j: int| 0 <= j < head implies (#[trigger] gq[j]).1 <= cur by {
                    assert(gq[j].1 <= old_cur);
                }
                assert forall|j: int| head <= j < gq.len() implies cur <= (#[trigger] gq[j]).1 <= cur + 1 by {
                    assert(gq[head as int].1 <= gq[j].1);
                }
            }
        }
        let adj = &rooms[cur_room].adjacent_rooms;
        let mut k: usize = 0;
        while k < adj.len()
            invariant
                n == rooms@.len(),
                n < u32::MAX,
                from == from_room,
                to == to_room,
                from < n,
                to < n,
                from != to,
                parent@.len() == n,
                head < gq.len(),
                queue@.len() == gq.len(),
                forall|j: int| 0 <= j < gq.len() ==> (#[trigger] gq[j]).0 == queue@[j],
                gq[head as int] == (cur_room, hops),
                cur == hops,
                adj@ == rooms@[cur_room as int].adjacent_rooms@,
                k <= adj@.len(),
                bfs_ok(rooms@, from as int, to as int, visited@, gq, lvl, slot, head as int, cur),
                forall|v: int| 0 <= v < n && v != from && #[trigger] visited@[v] ==> {
                    let p = parent@[v] as int;
                    &&& 0 <= p < n
                    &&& visited@[p]
                    &&& room_link(rooms@, p, v)
                    &&& lvl[p] + 1 == lvl[v]
                },
                forall|kk: int| 0 <= kk < k && (#[trigger] adj@[kk]).0 < n ==>
                    visited@[adj@[kk].0 as int] && lvl[adj@[kk].0 as int] <= cur + 1,
                vis_set.finite(),
                vis_set.len() == queue@.len(),
                vis_set.subset_of(all_rooms),
                all_rooms == Set::new(|v: int| 0 <= v < n),
                forall|v: int| 0 <= v < n ==> (#[trigger] visited@[v] <==> vis_set.contains(v)),
            decreases adj@.len() - k,
        {
            let (v, _) = adj[k];
            if v >= n || visited[v] {
                k = k + 1;
                continue;
            }
            proof {
                assert(room_link(rooms@, cur_room as int, v as int)) by {
                    assert(rooms@[cur_room as int].adjacent_rooms@[k as int].0 as int == v);
                }
                lemma_hops_step(rooms@, from as int, cur_room as int, v as int, hops as int);
                assert(!vis_set.contains(v as int));
                vstd::set_lib::lemma_int_range(0, n as int);
                assert(all_rooms =~= vstd::set_lib::set_int_range(0, n as int));
                vstd::set_lib::lemma_len_subset(vis_set.insert(v as int), all_rooms);
            }
            let ghost vis0 = visited@;
            let ghost par0 = parent@;
            let ghost lvl0 = lvl;
            visited.set(v, true);
            parent.set(v, cur_room);
            proof {
                lvl = lvl.update(v as int, hops + 1);
                assert forall|x: int| 0 <= x < n && x != from && #[trigger] visited@[x] implies {
                    let p = parent@[x] as int;
                    &&& 0 <= p < n
                    &&& visited@[p]
                    &&& room_link(rooms@, p, x)
                    &&& lvl[p] + 1 == lvl[x]
                } by {
                    if x != v as int {
                        assert(vis0[x]);
                        assert(par0[x] as int != v as int);
                    } else {
                        assert(gq[slot[cur_room as int]] == gq[head as int]);
                    }
                }
            }
            if v == to {
                proof {
                    if within_hops(rooms@, from as int, to as int, hops as int) {
                        lemma_bfs_closed_below(rooms@, from as int, to as int, vis0, gq, lvl0, slot, head as int, cur, hops as int);
                        lemma_bfs_bound(rooms@, from as int, vis0, lvl0, hops as int, to as int, hops as int);
                    }
                }
                let path = trace_rooms(from, to, &parent, Ghost(visited@), Ghost(lvl), Ghost(rooms@));
                return Some(path);
            }
            let ghost q0 = gq;
            queue.push(v);
            proof {
                lemma_bfs_push(rooms@, from as int, to as int, vis0, q0, lvl0, slot, head as int, cur, v);
                gq = gq.push((v, (hops + 1) as u32));
                vis_set = vis_set.insert(v as int);
                slot = slot.update(v as int, q0.len() as int);
                assert forall|j: int| 0 <= j < q0.len() implies #[trigger] gq[j] == q0[j] by {}
                assert forall|kk: int| 0 <= kk < k + 1 && (#[trigger] adj@[kk]).0 < n implies
                    visited@[adj@[kk].0 as int] && lvl[adj@[kk].0 as int] <= cur + 1 by {
                    if kk < k {
                        assert(vis0[adj@[kk].0 as int]);
                    }
                }
            }
            k = k + 1;
        }
        proof {
            assert(bfs_ok(rooms@, from as int, to as int, visited@, gq, lvl, slot, head + 1, cur)) by {
                assert forall|j: int, x: int| 0 <= j < head + 1 && #[trigger] room_link(rooms@, gq[j].0 as int, x)
                    implies visited@[x] && lvl[x] <= (#[trigger] gq[j]).1 + 1 by {
                    if j == head {
                        let kk = choose|kk: int| 0 <= kk < rooms@[cur_room as int].adjacent_rooms@.len()
                            && (#[trigger] rooms@[cur_room as int].adjacent_rooms@[kk]).0 as int == x;
                        assert(adj@[kk].0 < n);
                    }
                }
                assert forall|j: int| 0 <= j < head + 1 implies (#[trigger] gq[j]).1 <= cur by {
                    if j < head {
                        assert(gq[j].1 <= cur);
                    }
                }
            }
        }
        head = head + 1;
    }
    proof {
        assert forall|k: int| !#[trigger] within_hops(rooms@, from as int, to as int, k) by {
            if within_hops(rooms@, from as int, to as int, k) {
                lemma_bfs_closed_below(rooms@, from as int, to as int, visited@, gq, lvl, slot, head as int, cur, k);
                lemma_bfs_bound(rooms@, from as int, visited@, lvl, k, to as int, k);
            }
        }
    }
    None
}

/// Follow parent links from `to` back to `from` and return the room walk
/// from `from` to `to`, one room per level.
fn trace_rooms(from: usize, to: usize, parent: &Vec<usize>, Ghost(visited): Ghost<Seq<bool>>,
    Ghost(lvl): Ghost<Seq<int>>, Ghost(rooms): Ghost<Seq<Room>>) -> (p: Vec<usize>)
    requires
        from < parent@.len(),
        to < parent@.len(),
        from != to,
        visited.len() == parent@.len(),
        lvl.len() == parent@.len(),
        visited[to as int],
        visited[from as int],
        lvl[from as int] == 0,
        forall|v: int| 0 <= v < parent@.len() && #[trigger] visited[v] ==> lvl[v] >= 0,
        forall|v: int| 0 <= v < parent@.len() && v != from && #[trigger] visited[v] ==> {
            let q = parent@[v] as int;
            &&& 0 <= q < parent@.len()
            &&& visited[q]
            &&& room_link(rooms, q, v)
            &&& lvl[q] + 1 == lvl[v]
        },
    ensures
        room_walk(rooms, p@),
        p@[0] == from,
        p@.last() == to,
        p@.len() == lvl[to as int] + 1,
{
    let mut back: Vec<usize> = Vec::new();
    let mut c = to;
    while c != from
        invariant
            from < parent@.len(),
            to < parent@.len(),
            visited.len() == parent@.len(),
            lvl.len() == parent@.len(),
            visited[from as int],
            lvl[from as int] == 0,
            forall|v: int| 0 <= v < parent@.len() && #[trigger] visited[v] ==> lvl[v] >= 0,
            forall|v: int| 0 <= v < parent@.len() && v != from && #[trigger] visited[v] ==> {
                let q = parent@[v] as int;
                &&& 0 <= q < parent@.len()
                &&& visited[q]
                &&& room_link(rooms, q, v)
                &&& lvl[q] + 1 == lvl[v]
            },
            c < parent@.len(),
            visited[c as int],
            lvl[c as int] >= 0,
            back@.len() + lvl[c as int] == lvl[to as int],
            back@.len() == 0 ==> c == to,
            back@.len() > 0 ==> back@[0] == to && room_link(rooms, c as int, back@.last() as int),
            forall|i: int, j: int| 0 <= i && j == i + 1 && j < back@.len() ==>
                room_link(rooms, #[trigger] back@[j] as int, #[trigger] back@[i] as int),
        decreases lvl[c as int],
    {
        let ghost pre = back@;
        back.push(c);
        proof {
            assert forall|i: int, j: int| 0 <= i && j == i + 1 && j < back@.len() implies
                room_link(rooms, #[trigger] back@[j] as int, #[trigger] back@[i] as int) by {
                if j < pre.len() {
                    assert(back@[i] == pre[i] && back@[j] == pre[j]);
                } else {
                    assert(back@[i] == pre.last());
                }
            }
            assert(lvl[parent@[c as int] as int] + 1 == lvl[c as int]);
        }
        c = parent[c];
    }
    back.push(from);
    let n = back.len();
    let mut p: Vec<usize> = Vec::new();
    let mut j: usize = n;
    while j > 0
        invariant
            n == back@.len(),
            n > 0,
            j <= n,
            p@.len() == n - j,
            forall|t: int| 0 <= t < p@.len() ==> #[trigger] p@[t] == back@[n - 1 - t],
        decreases j,
    {
        j = j - 1;
        p.push(back[j]);
    }
    proof {
        assert(p@[0] == back@[n - 1]);
        assert(p@.last() == back@[0]);
        assert forall|i: int, k: int| 0 <= i && k == i + 1 && k < p@.len() implies
            room_link(rooms, #[trigger] p@[i] as int, #[trigger] p@[k] as int) by {
            assert(p@[i] == back@[n - 1 - i]);
            assert(p@[k] == back@[n - 1 - k]);
            let jj = n - 1 - i;
            let ii = n - 1 - k;
            assert(room_link(rooms, back@[jj] as int, back@[ii] as int));
        }
    }
    p
}

/// Manhattan distance between two tiles.
pub open spec fn tile_dist(a: (i32, i32), b: (i32, i32)) -> int {
    (if a.0 >= b.0 { a.0 - b.0 } else { b.0 - a.0 }) + (if a.1 >= b.1 { a.1 - b.1 } else { b.1 - a.1 })
}

/// The first tile of the room nearest to `ref_tile` (Manhattan), or `None`
/// for a room without tiles.
pub fn nearest_tile_in_room(room: &Room, ref_tile: (i32, i32)) -> (r: Option<(i32, i32)>)
    ensures
        r is None <==> room.tiles@.len() == 0,
        r matches Some(t) ==> exists|k: int| 0 <= k < room.tiles@.len() && room.tiles@[k] == t
            && (forall|j: int| 0 <= j < room.tiles@.len() ==> tile_dist(t, ref_tile) <= #[trigger] tile_dist(room.tiles@[j], ref_tile))
            && (forall|j: int| 0 <= j < k ==> tile_dist(t, ref_tile) < #[trigger] tile_dist(room.tiles@[j], ref_tile)),
{
    let tiles = &room.tiles;
    let mut best: Option<((i32, i32), i64)> = None;
    let ghost mut bk: int = 0;
    let mut i: usize = 0;
    while i < tiles.len()
        invariant
            tiles@ == room.tiles@,
            i <= tiles@.len(),
            best is None <==> i == 0,
            best matches Some((t, d)) ==> {
                &&& 0 <= bk < i
                &&& tiles@[bk] == t
                &&& d as int == tile_dist(t, ref_tile)
                &&& forall|j: int| 0 <= j < i ==> tile_dist(t, ref_tile) <= #[trigger] tile_dist(tiles@[j], ref_tile)
                &&& forall|j: int| 0 <= j < bk ==> tile_dist(t, ref_tile) < #[trigger] tile_dist(tiles@[j], ref_tile)
            },
        decreases tiles@.len() - i,
    {
        let tile = tiles[i];
        let ddx: i64 = if tile.0 >= ref_tile.0 { tile.0 as i64 - ref_tile.0 as i64 } else { ref_tile.0 as i64 - tile.0 as i64 };
        let ddy: i64 = if tile.1 >= ref_tile.1 { tile.1 as i64 - ref_tile.1 as i64 } else { ref_tile.1 as i64 - tile.1 as i64 };
        let d = ddx + ddy;
        let replace = match best {
            None => true,
            Some((_, bd)) => d < bd,
        };
        if replace {
            best = Some((tile, d));
            proof {
                bk = i as int;
            }
        }
        i = i + 1;
    }
    match best {
        Some((pos, _)) => Some(pos),
        None => None,
    }
}

/// Stepping from `p` in direction `(dx, dy)`, `dist` and more cells away
/// (up to three): off-grid cells are skipped, a non-walkable cell ends the
/// search, and the first cell of room `target` is the answer.
pub open spec fn probe_dir(map: Seq<Cell>, w: int, h: int, t2r: Seq<usize>, p: (i32, i32), dx: int, dy: int, target: usize, dist: int)
    -> Option<(i32, i32)>
    decreases 4 - dist,
{
    if dist < 1 || dist > 3 {
        None
    } else {
        let nx = p.0 + dx * dist;
        let ny = p.1 + dy * dist;
        if !in_grid(nx, ny, w, h) {
            probe_dir(map, w, h, t2r, p, dx, dy, target, dist + 1)
        } else if !map[flat(nx, ny, w)].terrain.spec_walkable() {
            None
        } else if t2r[flat(nx, ny, w)] == target {
            Some((nx as i32, ny as i32))
        } else {
            probe_dir(map, w, h, t2r, p, dx, dy, target, dist + 1)
        }
    }
}

/// Direction `k` of the probes through a door: south, north, east, west.
pub open spec fn probe_step(k: int) -> (int, int) {
    if k == 0 { (0, 1) } else if k == 1 { (0, -1) } else if k == 2 { (1, 0) } else { (-1, 0) }
}

/// The first hit of the probes in directions `k..4`.
pub open spec fn probe_from(map: Seq<Cell>, w: int, h: int, t2r: Seq<usize>, p: (i32, i32), target: usize, k: int)
    -> Option<(i32, i32)>
    decreases 4 - k,
{
    if k < 0 || k >= 4 {
        None
    } else {
        match probe_dir(map, w, h, t2r, p, probe_step(k).0, probe_step(k).1, target, 1) {
            Some(t) => Some(t),
            None => probe_from(map, w, h, t2r, p, target, k + 1),
        }
    }
}

/// A walkable tile of `target_room` within three cells of `door_sg` in a
/// cardinal direction, reached through walkable tiles.
pub fn find_tile_in_room(door_sg: (i32, i32), target_room: usize, tile_to_room: &[usize], map: &[Cell], map_w: i32, map_h: i32)
    -> (r: Option<(i32, i32)>)
    requires
        grid_ok(map@, map_w as int, map_h as int),
        tile_to_room@.len() == map_w * map_h,
    ensures
        r == probe_from(map@, map_w as int, map_h as int, tile_to_room@, door_sg, target_room, 0),
{
    let ghost wi = map_w as int;
    let ghost hi = map_h as int;
    let dirs: [(i32, i32); 4] = [(0, 1), (0, -1), (1, 0), (-1, 0)];
    let mut k: usize = 0;
    while k < 4
        invariant
            grid_ok(map@, wi, hi),
            wi == map_w,
            hi == map_h,
            tile_to_room@.len() == wi * hi,
            k <= 4,
            dirs@ == seq![(0i32, 1i32), (0i32, -1i32), (1i32, 0i32), (-1i32, 0i32)],
            probe_from(map@, wi, hi, tile_to_room@, door_sg, target_room, 0)
                == probe_from(map@, wi, hi, tile_to_room@, door_sg, target_room, k as int),
        decreases 4 - k,
    {
        let (dx, dy) = dirs[k];
        proof {
            assert((dx as int, dy as int) == probe_step(k as int));
        }
        let mut dist: i64 = 1;
        while dist <= 3
            invariant
                grid_ok(map@, wi, hi),
                wi == map_w,
                hi == map_h,
                tile_to_room@.len() == wi * hi,
                k < 4,
                (dx as int, dy as int) == probe_step(k as int),
                1 <= dist <= 4,
                probe_from(map@, wi, hi, tile_to_room@, door_sg, target_room, 0)
                    == probe_from(map@, wi, hi, tile_to_room@, door_sg, target_room, k as int),
                probe_dir(map@, wi, hi, tile_to_room@, door_sg, dx as int, dy as int, target_room, 1)
                    == probe_dir(map@, wi, hi, tile_to_room@, door_sg, dx as int, dy as int, target_room, dist as int),
            ensures
                grid_ok(map@, wi, hi),
                tile_to_room@.len() == wi * hi,
                k < 4,
                (dx as int, dy as int) == probe_step(k as int),
                probe_from(map@, wi, hi, tile_to_room@, door_sg, target_room, 0)
                    == probe_from(map@, wi, hi, tile_to_room@, door_sg, target_room, k as int),
                probe_dir(map@, wi, hi, tile_to_room@, door_sg, dx as int, dy as int, target_room, 1) is None,
            decreases 4 - dist,
        {
            proof {
                assert(-3 <= dx * dist <= 3 && -3 <= dy * dist <= 3) by (nonlinear_arith)
                    requires -1 <= dx <= 1, -1 <= dy <= 1, 1 <= dist <= 3;
            }
            let nx = door_sg.0 as i64 + dx as i64 * dist;
            let ny = door_sg.1 as i64 + dy as i64 * dist;
            if nx < 0 || nx >= map_w as i64 || ny < 0 || ny >= map_h as i64 {
                dist = dist + 1;
                continue;
            }
            proof {
                lemma_flat_in_range(nx as int, ny as int, wi, hi);
            }
            let ni = idx(nx as i32, ny as i32, map_w);
            if !map[ni].is_walkable() {
                break;
            }
            if tile_to_room[ni] == target_room {
                return Some((nx as i32, ny as i32));
            }
            dist = dist + 1;
        }
        k = k + 1;
    }
    None
}

/// Score of a door on the way from the NPC to a reference tile: distance
/// from the NPC to the door plus distance from the door to the reference.
pub open spec fn door_score(door: (i32, i32), ref_tile: (i32, i32), npc_tile: (i32, i32)) -> int {
    tile_dist(door, npc_tile) + tile_dist(door, ref_tile)
}

/// The door from room `from_room` into room `to_room` with the least
/// total cost `dist(npc, door) + dist(door, ref)`; the first such door on
/// ties. `None` when `from_room` is no room or no door leads to `to_room`.
pub fn door_between_rooms(from_room: usize, to_room: usize, ref_tile: (i32, i32), npc_tile: (i32, i32), rooms: &[Room])
    -> (r: Option<(i32, i32)>)
    ensures
        r is None <==> from_room >= rooms@.len()
            || forall|k: int| 0 <= k < rooms@[from_room as int].adjacent_rooms@.len()
                ==> (#[trigger] rooms@[from_room as int].adjacent_rooms@[k]).0 != to_room,
        r matches Some(d) ==> {
            let adj = rooms@[from_room as int].adjacent_rooms@;
            exists|k: int| 0 <= k < adj.len() && adj[k].0 == to_room && adj[k].1 == d
                && (forall|j: int| 0 <= j < adj.len() && (#[trigger] adj[j]).0 == to_room
                    ==> door_score(d, ref_tile, npc_tile) <= door_score(adj[j].1, ref_tile, npc_tile))
                && (forall|j: int| 0 <= j < k && (#[trigger] adj[j]).0 == to_room
                    ==> door_score(d, ref_tile, npc_tile) < door_score(adj[j].1, ref_tile, npc_tile))
        },
{
    if from_room >= rooms.len() {
        return None;
    }
    let adj = &rooms[from_room].adjacent_rooms;
    let mut best: Option<((i32, i32), i64)> = None;
    let ghost mut bk: int = 0;
    let mut i: usize = 0;
    while i < adj.len()
        invariant
            adj@ == rooms@[from_room as int].adjacent_rooms@,
            i <= adj@.len(),
            best is None <==> forall|j: int| 0 <= j < i ==> (#[trigger] adj@[j]).0 != to_room,
            best matches Some((t, d)) ==> {
                &&& 0 <= bk < i
                &&& adj@[bk].0 == to_room
                &&& adj@[bk].1 == t
                &&& d as int == door_score(t, ref_tile, npc_tile)
                &&& forall|j: int| 0 <= j < i && (#[trigger] adj@[j]).0 == to_room
                    ==> door_score(t, ref_tile, npc_tile) <= door_score(adj@[j].1, ref_tile, npc_tile)
                &&& forall|j: int| 0 <= j < bk && (#[trigger] adj@[j]).0 == to_room
                    ==> door_score(t, ref_tile, npc_tile) < door_score(adj@[j].1, ref_tile, npc_tile)
            },
        decreases adj@.len() - i,
    {
        let (a, door) = adj[i];
        if a == to_room {
            let dx1: i64 = if door.0 >= npc_tile.0 { door.0 as i64 - npc_tile.0 as i64 } else { npc_tile.0 as i64 - door.0 as i64 };
            let dy1: i64 = if door.1 >= npc_tile.1 { door.1 as i64 - npc_tile.1 as i64 } else { npc_tile.1 as i64 - door.1 as i64 };
            let dx2: i64 = if door.0 >= ref_tile.0 { door.0 as i64 - ref_tile.0 as i64 } else { ref_tile.0 as i64 - door.0 as i64 };
            let dy2: i64 = if door.1 >= ref_tile.1 { door.1 as i64 - ref_tile.1 as i64 } else { ref_tile.1 as i64 - door.1 as i64 };
            let score = dx1 + dy1 + dx2 + dy2;
            let replace = match best {
                None => true,
                Some((_, bs)) => score < bs,
            };
            if replace {
                best = Some((door, score));
                proof {
                    bk = i as int;
                }
            }
        }
        i = i + 1;
    }
    match best {
        Some((pos, _)) => Some(pos),
        None => None,
    }
}

/// An adjacency entry of a room that leads to a room not yet searched.
pub open spec fn open_link(adj: Seq<(usize, (i32, i32))>, searched: Seq<usize>, k: int) -> bool {
    0 <= k < adj.len() && !searched.contains(adj[k].0)
}

/// The next room to search from `current_room`: among the unsearched
/// neighbours, the one with a door nearest to `ref_tile` (Manhattan); on
/// ties, the neighbour listed first. `None` when `current_room` is no room
/// or every neighbour was searched.
pub fn pick_next_room(current_room: usize, searched: &[usize], ref_tile: (i32, i32), rooms: &[Room]) -> (r: Option<usize>)
    ensures
        r is None <==> current_room >= rooms@.len()
            || forall|k: int| #[trigger] open_link(rooms@[current_room as int].adjacent_rooms@, searched@, k) ==> false,
        r matches Some(a) ==> {
            let adj = rooms@[current_room as int].adjacent_rooms@;
            exists|j: int, m: int| #[trigger] open_link(adj, searched@, j) && #[trigger] open_link(adj, searched@, m)
                && adj[j].0 == a && adj[m].0 == a
                && (forall|t: int| #[trigger] open_link(adj, searched@, t) ==> tile_dist(adj[m].1, ref_tile) <= tile_dist(adj[t].1, ref_tile))
                && (forall|i: int, t: int| 0 <= i < j && #[trigger] open_link(adj, searched@, i) && #[trigger] open_link(adj, searched@, t)
                    && adj[t].0 == adj[i].0 ==> tile_dist(adj[m].1, ref_tile) < tile_dist(adj[t].1, ref_tile))
        },
{
    if current_room >= rooms.len() {
        return None;
    }
    let adj = &rooms[current_room].adjacent_rooms;
    let ghost sv = searched@;
    // The least door distance over all unsearched neighbours.
    let mut best: Option<i64> = None;
    let ghost mut bm: int = 0;
    let mut i: usize = 0;
    while i < adj.len()
        invariant
            current_room < rooms@.len(),
            adj@ == rooms@[current_room as int].adjacent_rooms@,
            sv == searched@,
            i <= adj@.len(),
            best is None <==> forall|k: int| 0 <= k < i ==> !#[trigger] open_link(adj@, sv, k),
            best matches Some(d) ==> {
                &&& 0 <= bm < i
                &&& open_link(adj@, sv, bm)
                &&& d as int == tile_dist(adj@[bm].1, ref_tile)
                &&& forall|t: int| 0 <= t < i && #[trigger] open_link(adj@, sv, t) ==> d <= tile_dist(adj@[t].1, ref_tile)
            },
        decreases adj@.len() - i,
    {
        let (a, door) = adj[i];
        let seen_before = slice_contains(searched, a);
        proof {
            assert(open_link(adj@, sv, i as int) == !seen_before);
        }
        if !seen_before {
            let d = manhattan_i64(door, ref_tile);
            let replace = match best {
                None => true,
                Some(bd) => d < bd,
            };
            if replace {
                best = Some(d);
                proof {
                    bm = i as int;
                }
            }
        }
        i = i + 1;
    }
    let dmin = match best {
        None => {
            assert forall|k: int| #[trigger] open_link(adj@, sv, k) implies false by {}
            return None;
        },
        Some(d) => d,
    };
    // The first unsearched entry whose neighbour reaches that distance.
    let mut j: usize = 0;
    while j < adj.len()
        invariant
            current_room < rooms@.len(),
            adj@ == rooms@[current_room as int].adjacent_rooms@,
            sv == searched@,
            j <= adj@.len(),
            0 <= bm < adj@.len(),
            open_link(adj@, sv, bm),
            dmin as int == tile_dist(adj@[bm].1, ref_tile),
            forall|t: int| #[trigger] open_link(adj@, sv, t) ==> dmin <= tile_dist(adj@[t].1, ref_tile),
            forall|i: int, t: int| 0 <= i < j && #[trigger] open_link(adj@, sv, i) && #[trigger] open_link(adj@, sv, t)
                && adj@[t].0 == adj@[i].0 ==> dmin < tile_dist(adj@[t].1, ref_tile),
        decreases adj@.len() - j,
    {
        let (a, _) = adj[j];
        if !slice_contains(searched, a) {
            let mut m: usize = 0;
            let mut found = false;
            while m < adj.len() && !found
                invariant
                    current_room < rooms@.len(),
                    adj@ == rooms@[current_room as int].adjacent_rooms@,
                    sv == searched@,
                    m <= adj@.len(),
                    j < adj@.len(),
                    a == adj@[j as int].0,
                    !found ==> forall|t: int| 0 <= t < m && #[trigger] open_link(adj@, sv, t) && adj@[t].0 == a
                        ==> dmin < tile_dist(adj@[t].1, ref_tile),
                    forall|t: int| #[trigger] open_link(adj@, sv, t) ==> dmin <= tile_dist(adj@[t].1, ref_tile),
                    found ==> m < adj@.len() && open_link(adj@, sv, m as int) && adj@[m as int].0 == a
                        && dmin as int == tile_dist(adj@[m as int].1, ref_tile),
                decreases adj@.len() - m + (if found { 0int } else { 1int }),
            {
                let (b, door) = adj[m];
                if b == a && !slice_contains(searched, b) && manhattan_i64(door, ref_tile) == dmin {
                    found = true;
                } else {
                    m = m + 1;
                }
            }
            if found {
                proof {
                    assert(open_link(rooms@[current_room as int].adjacent_rooms@, searched@, j as int));
                    assert(open_link(adj@, sv, m as int));
                }
                return Some(a);
            }
        }
        j = j + 1;
    }
    proof {
        assert(open_link(adj@, sv, bm));
        assert(open_link(adj@, sv, bm) && open_link(adj@, sv, bm) && adj@[bm].0 == adj@[bm].0);
    }
    None
}

/// Manhattan distance between two tiles, widened to avoid overflow.
fn manhattan_i64(a: (i32, i32), b: (i32, i32)) -> (d: i64)
    ensures
        d as int == tile_dist(a, b),
{
    let dx: i64 = if a.0 >= b.0 { a.0 as i64 - b.0 as i64 } else { b.0 as i64 - a.0 as i64 };
    let dy: i64 = if a.1 >= b.1 { a.1 as i64 - b.1 as i64 } else { b.1 as i64 - a.1 as i64 };
    dx + dy
}

/// Whether `v` holds `x`.
fn slice_contains(v: &[usize], x: usize) -> (b: bool)
    ensures
        b == v@.contains(x),
{
    let mut i: usize = 0;
    while i < v.len()
        invariant
            i <= v@.len(),
            forall|k: int| 0 <= k < i ==> v@[k] != x,
        decreases v@.len() - i,
    {
        if v[i] == x {
            assert(v@[i as int] == x);
            return true;
        }
        i = i + 1;
    }
    false
}

/// Room of the first cardinal neighbour of `p` (south, north, east, west)
/// that lies on the grid and belongs to a room; `usize::MAX` when none does.
pub open spec fn door_room_from(t2r: Seq<usize>, w: int, h: int, p: (i32, i32), k: int) -> usize
    decreases 4 - k,
{
    if k < 0 || k >= 4 {
        usize::MAX
    } else {
        let nx = p.0 + probe_step(k).0;
        let ny = p.1 + probe_step(k).1;
        if in_grid(nx, ny, w, h) && t2r[flat(nx, ny, w)] != usize::MAX {
            t2r[flat(nx, ny, w)]
        } else {
            door_room_from(t2r, w, h, p, k + 1)
        }
    }
}

/// For an NPC standing on a door tile (which belongs to no room): the room
/// of its first cardinal neighbour that has one, or `usize::MAX`.
pub fn find_nearest_room_from_door(tile: (i32, i32), tile_to_room: &[usize], map_w: i32, map_h: i32) -> (r: usize)
    requires
        0 <= map_w,
        0 <= map_h,
        map_w * map_h <= i32::MAX,
        tile_to_room@.len() == map_w * map_h,
    ensures
        r == door_room_from(tile_to_room@, map_w as int, map_h as int, tile, 0),
{
    let ghost wi = map_w as int;
    let ghost hi = map_h as int;
    let dirs: [(i32, i32); 4] = [(0, 1), (0, -1), (1, 0), (-1, 0)];
    let mut k: usize = 0;
    while k < 4
        invariant
            0 <= wi,
            0 <= hi,
            wi * hi <= i32::MAX,
            wi == map_w,
            hi == map_h,
            tile_to_room@.len() == wi * hi,
            k <= 4,
            dirs@ == seq![(0i32, 1i32), (0i32, -1i32), (1i32, 0i32), (-1i32, 0i32)],
            door_room_from(tile_to_room@, wi, hi, tile, 0) == door_room_from(tile_to_room@, wi, hi, tile, k as int),
        decreases 4 - k,
    {
        let (dx, dy) = dirs[k];
        proof {
            assert((dx as int, dy as int) == probe_step(k as int));
        }
        let nx = tile.0 as i64 + dx as i64;
        let ny = tile.1 as i64 + dy as i64;
        if nx >= 0 && nx < map_w as i64 && ny >= 0 && ny < map_h as i64 {
            proof {
                lemma_flat_in_range(nx as int, ny as int, wi, hi);
            }
            let r = tile_to_room[idx(nx as i32, ny as i32, map_w)];
            if r != usize::MAX {
                return r;
            }
        }
        k = k + 1;
    }
    usize::MAX
}

/// Joining two walks that meet keeps a walk.
proof fn lemma_walk_join(map: Seq<Cell>, w: int, h: int, p: Seq<(i32, i32)>, q: Seq<(i32, i32)>, x: (i32, i32), y: (i32, i32), z: (i32, i32))
    requires
        walk_between(map, w, h, p, x, y),
        walk_between(map, w, h, q, y, z),
    ensures
        walk_between(map, w, h, p + q.subrange(1, q.len() as int), x, z),
{
    let r = p + q.subrange(1, q.len() as int);
    let ir = iseq(r);
    let ip = iseq(p);
    let iq = iseq(q);
    assert forall|i: int| 1 <= i < ir.len() implies #[trigger] open_at(map, w, h, ir[i].0, ir[i].1) by {
        if i < p.len() {
            assert(ir[i] == ip[i]);
        } else {
            assert(ir[i] == iq[i - p.len() + 1]);
        }
    }
    assert forall|i: int| 1 <= i < ir.len() implies crate::cell::adjacent(ir[i - 1], #[trigger] ir[i]) by {
        if i < p.len() {
            assert(ir[i] == ip[i] && ir[i - 1] == ip[i - 1]);
        } else if i == p.len() {
            assert(ir[i] == iq[1]);
            assert(ir[i - 1] == ip[p.len() - 1]);
            assert(iq[0] == ipos(y));
        } else {
            assert(ir[i] == iq[i - p.len() + 1] && ir[i - 1] == iq[i - p.len()]);
        }
    }
    if q.len() == 1 {
        assert(r =~= p);
    } else {
        assert(r.last() == q.last());
    }
}

/// Steps of shortest walks along the first `k` legs between consecutive
/// turning points, summed.
pub open spec fn legs_steps(map: Seq<Cell>, w: int, h: int, sg: Seq<(i32, i32)>, k: int) -> int
    decreases k,
{
    if k <= 0 {
        0
    } else {
        legs_steps(map, w, h, sg, k - 1) + shortest_steps(map, w, h, ipos(sg[k - 1]), ipos(sg[k]))
    }
}

/// Every leg between consecutive turning points can be walked.
pub open spec fn legs_reachable(map: Seq<Cell>, w: int, h: int, sg: Seq<(i32, i32)>) -> bool {
    forall|i: int| 0 <= i < sg.len() - 1 ==> reachable(map, w, h, ipos(#[trigger] sg[i]), ipos(sg[i + 1]))
}

/// Expand turning points into a full walk: each leg found by A*, legs
/// joined at their shared ends. When a leg has no walk, A* from the first
/// to the last point decides instead (empty when that fails too).
pub fn expand_subgoal_path(sg_path: &[(i32, i32)], map: &[Cell], map_w: i32, map_h: i32) -> (r: Vec<(i32, i32)>)
    requires
        grid_ok(map@, map_w as int, map_h as int),
        forall|i: int| 0 <= i < sg_path@.len() ==> in_grid((#[trigger] sg_path@[i]).0 as int, sg_path@[i].1 as int, map_w as int, map_h as int),
    ensures
        sg_path@.len() <= 1 ==> r@ == sg_path@,
        sg_path@.len() >= 2 ==> (r@.len() > 0 <==> reachable(map@, map_w as int, map_h as int, ipos(sg_path@[0]), ipos(sg_path@.last()))),
        sg_path@.len() >= 2 && r@.len() > 0 ==> walk_between(map@, map_w as int, map_h as int, r@, sg_path@[0], sg_path@.last()),
        sg_path@.len() >= 2 && legs_reachable(map@, map_w as int, map_h as int, sg_path@) ==>
            r@.len() - 1 == legs_steps(map@, map_w as int, map_h as int, sg_path@, sg_path@.len() - 1),
        sg_path@.len() >= 2 && !legs_reachable(map@, map_w as int, map_h as int, sg_path@) && r@.len() > 0 ==>
            steps_at_least(map@, map_w as int, map_h as int, ipos(sg_path@[0]), ipos(sg_path@.last()), r@.len() - 1),
{
    let ghost wi = map_w as int;
    let ghost hi = map_h as int;
    if sg_path.len() <= 1 {
        let mut v: Vec<(i32, i32)> = Vec::new();
        if sg_path.len() == 1 {
            v.push(sg_path[0]);
        }
        proof {
            assert(v@ =~= sg_path@);
        }
        return v;
    }
    let n = sg_path.len();
    let mut full: Vec<(i32, i32)> = Vec::new();
    let mut i: usize = 0;
    while i < n - 1
        invariant
            grid_ok(map@, wi, hi),
            wi == map_w,
            hi == map_h,
            n == sg_path@.len(),
            n >= 2,
            forall|j: int| 0 <= j < n ==> in_grid((#[trigger] sg_path@[j]).0 as int, sg_path@[j].1 as int, wi, hi),
            i <= n - 1,
            i == 0 ==> full@.len() == 0,
            i > 0 ==> walk_between(map@, wi, hi, full@, sg_path@[0], sg_path@[i as int]),
            i > 0 ==> full@.len() - 1 == legs_steps(map@, wi, hi, sg_path@, i as int),
            forall|j: int| 0 <= j < i ==> reachable(map@, wi, hi, ipos(#[trigger] sg_path@[j]), ipos(sg_path@[j + 1])),
        decreases n - 1 - i,
    {
        let a = sg_path[i];
        let b = sg_path[i + 1];
        match astar(map, map_w, map_h, a, b) {
            Some(s) => {
                let ghost before = full@;
                proof {
                    lemma_shortest_steps(map@, wi, hi, ipos(a), ipos(b), iseq(s@));
                    assert(iseq(s@).len() == s@.len());
                }
                if full.len() == 0 {
                    let mut j: usize = 0;
                    while j < s.len()
                        invariant
                            j <= s@.len(),
                            full@ == s@.subrange(0, j as int),
                        decreases s@.len() - j,
                    {
                        full.push(s[j]);
                        proof {
                            assert(s@.subrange(0, j + 1) =~= s@.subrange(0, j as int).push(s@[j as int]));
                        }
                        j = j + 1;
                    }
                    proof {
                        assert(s@.subrange(0, s@.len() as int) =~= s@);
                        if i > 0 {
                            assert(walk_between(map@, wi, hi, before, sg_path@[0], sg_path@[i as int]));
                        }
                    }
                } else {
                    let mut j: usize = 1;
                    while j < s.len()
                        invariant
                            1 <= j <= s@.len(),
                            full@ == before + s@.subrange(1, j as int),
                        decreases s@.len() - j,
                    {
                        full.push(s[j]);
                        proof {
                            assert(s@.subrange(1, j + 1) =~= s@.subrange(1, j as int).push(s@[j as int]));
                        }
                        j = j + 1;
                    }
                    proof {
                        lemma_walk_join(map@, wi, hi, before, s@, sg_path@[0], a, b);
                    }
                }
                proof {
                    assert(a == sg_path@[i as int] && b == sg_path@[i + 1]);
                    assert(shortest_steps(map@, wi, hi, ipos(a), ipos(b)) == s@.len() - 1);
                    assert(legs_steps(map@, wi, hi, sg_path@, i + 1)
                        == legs_steps(map@, wi, hi, sg_path@, i as int) + shortest_steps(map@, wi, hi, ipos(a), ipos(b)));
                    if i == 0 {
                        assert(full@.len() == s@.len());
                    } else {
                        assert(full@.len() == before.len() + s@.len() - 1);
                    }
                    assert(full@.len() - 1 == legs_steps(map@, wi, hi, sg_path@, i + 1));
                }
            },
            None => {
                let last = sg_path[n - 1];
                proof {
                    assert(!reachable(map@, wi, hi, ipos(sg_path@[i as int]), ipos(sg_path@[i + 1])));
                    assert(!legs_reachable(map@, wi, hi, sg_path@));
                }
                return match astar(map, map_w, map_h, sg_path[0], last) {
                    Some(p) => p,
                    None => Vec::new(),
                };
            },
        }
        i = i + 1;
    }
    proof {
        let p = full@;
        assert(is_walk(map@, wi, hi, iseq(p)) && iseq(p)[0] == ipos(sg_path@[0]) && iseq(p).last() == ipos(sg_path@.last()));
    }
    full
}

/// The entry of `list` picked by `seed`.
pub fn pick_kaomoji(list: &[&str], seed: u32) -> (s: String)
    requires
        list@.len() > 0,
    ensures
        s@ == list@[(seed as int) % (list@.len() as int)]@,
{
    list[(seed as usize) % list.len()].to_string()
}

/// Room of tile `t`: its own room, or for a door tile the room of the first
/// cardinal neighbour in a room; `usize::MAX` off the grid or when none is.
pub fn effective_room(t: (i32, i32), tile_to_room: &[usize], map_w: i32, map_h: i32) -> (r: usize)
    requires
        0 <= map_w,
        0 <= map_h,
        map_w * map_h <= i32::MAX,
        tile_to_room@.len() == map_w * map_h,
    ensures
        !in_grid(t.0 as int, t.1 as int, map_w as int, map_h as int) ==> r == usize::MAX,
        in_grid(t.0 as int, t.1 as int, map_w as int, map_h as int) ==> r == (
            if tile_to_room@[flat(t.0 as int, t.1 as int, map_w as int)] != usize::MAX {
                tile_to_room@[flat(t.0 as int, t.1 as int, map_w as int)]
            } else {
                door_room_from(tile_to_room@, map_w as int, map_h as int, t, 0)
            }),
{
    if t.0 < 0 || t.0 >= map_w || t.1 < 0 || t.1 >= map_h {
        return usize::MAX;
    }
    proof {
        lemma_flat_in_range(t.0 as int, t.1 as int, map_w as int, map_h as int);
    }
    let r = tile_to_room[(t.1 * map_w + t.0) as usize];
    if r != usize::MAX {
        r
    } else {
        find_nearest_room_from_door(t, tile_to_room, map_w, map_h)
    }
}

/// Raw tile route of a chasing NPC from `from` to `target`: the subgoal
/// route expanded into tiles when the subgoal graph has one (empty when its
/// legs cannot be walked), else a direct grid search; `None` when both fail.
pub fn chase_route(sg: &SubgoalGraph, map: &[Cell], map_w: i32, map_h: i32, from: (i32, i32), target: (i32, i32))
    -> (r: Option<Vec<(i32, i32)>>)
    requires
        grid_ok(map@, map_w as int, map_h as int),
        sg.wf(map@, map_w as int, map_h as int),
        in_grid(from.0 as int, from.1 as int, map_w as int, map_h as int),
        in_grid(target.0 as int, target.1 as int, map_w as int, map_h as int),
    ensures
        r is None <==> (from != target && !los(map@, map_w as int, map_h as int, ip(from), ip(target))
            && !sg.graph_reaches(map@, map_w as int, map_h as int, from, target)
            && !reachable(map@, map_w as int, map_h as int, ipos(from), ipos(target))),
        r matches Some(p) ==> (p@.len() > 0 <==> reachable(map@, map_w as int, map_h as int, ipos(from), ipos(target))),
        r matches Some(p) ==> (p@.len() > 0 ==> walk_between(map@, map_w as int, map_h as int, p@, from, target)),
{
    match sg.find_path(from, target, map, map_w, map_h) {
        Some(sg_path) => {
            proof {
                assert forall|i: int| 0 <= i < sg_path@.len() implies
                    in_grid((#[trigger] sg_path@[i]).0 as int, sg_path@[i].1 as int, map_w as int, map_h as int) by {
                    assert(crate::subgoal::pt_ok(map@, map_w as int, map_h as int, sg_path@[i], from, target));
                }
                if sg_path@.len() <= 1 {
                    assert(sg_path@[0] == from && sg_path@.last() == target);
                    crate::cell::lemma_reach_refl(map@, map_w as int, map_h as int, ipos(from));
                    assert(walk_between(map@, map_w as int, map_h as int, sg_path@, from, target)) by {
                        assert(is_walk(map@, map_w as int, map_h as int, iseq(sg_path@)));
                    }
                }
            }
            let raw = expand_subgoal_path(sg_path.as_slice(), map, map_w, map_h);
            Some(raw)
        },
        None => astar(map, map_w, map_h, from, target),
    }
}

/// Rooms searched, the one being searched included, before a chase is given up.
pub const MAX_SEARCHED_ROOMS: usize = 2;

/// What a chasing NPC that has lost sight of the player does next, at room level.
#[derive(Clone, Copy, Debug, PartialEq, Eq, Structural)]
pub enum ChaseStep {
    /// Give up the chase.
    End,
    /// Search this room; the NPC is in it.
    Search(usize),
    /// Head for this room from the NPC's room.
    Navigate(usize),
    /// Move on to this hop of the room path.
    NextHop(usize),
    /// Carry on as before.
    Continue,
}

/// The step that enters room `n`: search it when the NPC is already there,
/// else head for it.
pub open spec fn enter_room(npc_room: usize, n: usize) -> ChaseStep {
    if npc_room == n { ChaseStep::Search(n) } else { ChaseStep::Navigate(n) }
}

/// Room-level decision of a chasing NPC out of sight of the player.
/// Pursuit just lost sight: search or head for the room the player was last
/// seen in, or give up when that is unknown. Navigate: search the final
/// room on arrival, move to the next hop on reaching the current one, else
/// carry on. Search: once the room is fully seen, give up after
/// `MAX_SEARCHED_ROOMS` rooms or when no next room is found, else enter
/// `next_room`; before that, an escape door seen while fewer than
/// `MAX_SEARCHED_ROOMS` rooms were searched leads into `escape_room`.
pub fn lost_sight_step(phase: &ChasePhase, npc_room: usize, last_seen_room: usize, room_count: usize,
    room_clear: bool, searched: usize, next_room: Option<usize>, escape_room: Option<usize>) -> (r: ChaseStep)
    ensures
        *phase is Pursuit ==> r == (if last_seen_room == usize::MAX { ChaseStep::End }
            else { enter_room(npc_room, last_seen_room) }),
        *phase matches ChasePhase::Navigate { final_room, room_path, current_hop } ==> {
            let hop = if current_hop < room_path@.len() { room_path@[current_hop as int] } else { final_room };
            r == (if npc_room == final_room { ChaseStep::Search(final_room) }
                else if npc_room == hop && hop != final_room { ChaseStep::NextHop((current_hop + 1) as usize) }
                else { ChaseStep::Continue })
        },
        *phase matches ChasePhase::Search { room_id, seen } ==> r == (
            if room_id >= room_count { ChaseStep::End }
            else if room_clear {
                if searched >= MAX_SEARCHED_ROOMS { ChaseStep::End }
                else {
                    match next_room {
                        Some(n) => enter_room(npc_room, n),
                        None => ChaseStep::End,
                    }
                }
            } else if searched < MAX_SEARCHED_ROOMS && escape_room is Some {
                enter_room(npc_room, escape_room->0)
            } else {
                ChaseStep::Continue
            }),
{
    match phase {
        ChasePhase::Pursuit => {
            if last_seen_room == usize::MAX {
                ChaseStep::End
            } else if npc_room == last_seen_room {
                ChaseStep::Search(last_seen_room)
            } else {
                ChaseStep::Navigate(last_seen_room)
            }
        },
        ChasePhase::Navigate { final_room, room_path, current_hop } => {
            let hop = if *current_hop < room_path.len() { room_path[*current_hop] } else { *final_room };
            if npc_room == *final_room {
                ChaseStep::Search(*final_room)
            } else if npc_room == hop && hop != *final_room {
                ChaseStep::NextHop(*current_hop + 1)
            } else {
                ChaseStep::Continue
            }
        },
        ChasePhase::Search { room_id, seen } => {
            if *room_id >= room_count {
                ChaseStep::End
            } else if room_clear {
                if searched >= MAX_SEARCHED_ROOMS {
                    ChaseStep::End
                } else {
                    match next_room {
                        Some(n) => if npc_room == n { ChaseStep::Search(n) } else { ChaseStep::Navigate(n) },
                        None => ChaseStep::End,
                    }
                }
            } else if searched < MAX_SEARCHED_ROOMS {
                match escape_room {
                    Some(n) => if npc_room == n { ChaseStep::Search(n) } else { ChaseStep::Navigate(n) },
                    None => ChaseStep::Continue,
                }
            } else {
                ChaseStep::Continue
            }
        },
    }
}

} // verus!
