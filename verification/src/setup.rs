//! Start-up helpers: the fixed fallback map, room centres, seeded shuffles
//! and the NPC spawn plan.

use vstd::prelude::*;
use crate::room::{Room, RoomKind};
use crate::chase::{nearest_tile_in_room, tile_dist};
use crate::cell::{Cell, Terrain, flat, idx, in_grid};
use crate::npc::{xorshift, xorshift32_next};

verus! {

/// Sum of the x coordinates of the tiles.
pub open spec fn sum_x(tiles: Seq<(i32, i32)>) -> int
    decreases tiles.len(),
{
    if tiles.len() == 0 { 0 } else { sum_x(tiles.drop_last()) + tiles.last().0 }
}

/// Sum of the y coordinates of the tiles.
pub open spec fn sum_y(tiles: Seq<(i32, i32)>) -> int
    decreases tiles.len(),
{
    if tiles.len() == 0 { 0 } else { sum_y(tiles.drop_last()) + tiles.last().1 }
}

/// Integer division rounding toward zero, as Rust's `/` does.
pub open spec fn trunc_div(a: int, n: int) -> int {
    if a >= 0 { a / n } else { -((-a) / n) }
}

/// Mean tile position, each coordinate rounded toward zero.
pub open spec fn centroid(tiles: Seq<(i32, i32)>) -> (int, int) {
    (trunc_div(sum_x(tiles), tiles.len() as int), trunc_div(sum_y(tiles), tiles.len() as int))
}

/// `c` is the centre of a room with these tiles: `(0, 0)` for no tiles,
/// else the first tile nearest (Manhattan) to the mean position.
pub open spec fn is_center(tiles: Seq<(i32, i32)>, c: (i32, i32)) -> bool {
    if tiles.len() == 0 {
        c == (0i32, 0i32)
    } else {
        let m = (centroid(tiles).0 as i32, centroid(tiles).1 as i32);
        exists|k: int| 0 <= k < tiles.len() && tiles[k] == c
            && (forall|j: int| 0 <= j < tiles.len() ==> tile_dist(c, m) <= #[trigger] tile_dist(tiles[j], m))
            && (forall|j: int| 0 <= j < k ==> tile_dist(c, m) < #[trigger] tile_dist(tiles[j], m))
    }
}

/// The mean of `n` values in `[lo, hi]`, rounded toward zero, is in `[lo, hi]`
/// when `lo <= 0 <= hi`.
proof fn lemma_trunc_mean(s: int, n: int, lo: int, hi: int)
    requires
        n > 0,
        lo <= 0 <= hi,
        n * lo <= s <= n * hi,
    ensures
        lo <= trunc_div(s, n) <= hi,
{
    if s >= 0 {
        assert(0 <= s / n <= hi) by (nonlinear_arith)
            requires n > 0, 0 <= s <= n * hi;
    } else {
        assert(n * (-lo) == -(n * lo)) by (nonlinear_arith);
        assert(0 <= (-s) / n <= -lo) by (nonlinear_arith)
            requires n > 0, 0 < -s <= n * (-lo);
    }
}

/// The tile of the room nearest its mean position (the first such tile),
/// or `(0, 0)` for a room without tiles.
pub fn room_center(room: &Room) -> (c: (i32, i32))
    ensures
        is_center(room.tiles@, c),
{
    let tiles = &room.tiles;
    let n = tiles.len();
    if n == 0 {
        return (0, 0);
    }
    let mut sx: i128 = 0;
    let mut sy: i128 = 0;
    let mut i: usize = 0;
    while i < n
        invariant
            tiles@ == room.tiles@,
            n == tiles@.len(),
            i <= n,
            sx as int == sum_x(tiles@.take(i as int)),
            sy as int == sum_y(tiles@.take(i as int)),
            i * (i32::MIN as int) <= sx <= i * (i32::MAX as int),
            i * (i32::MIN as int) <= sy <= i * (i32::MAX as int),
        decreases n - i,
    {
        let t = tiles[i];
        proof {
            assert(tiles@.take(i + 1).drop_last() =~= tiles@.take(i as int));
            assert(tiles@.take(i + 1).last() == t);
            assert((i + 1) * (i32::MIN as int) == i * (i32::MIN as int) + (i32::MIN as int)) by (nonlinear_arith);
            assert((i + 1) * (i32::MAX as int) == i * (i32::MAX as int) + (i32::MAX as int)) by (nonlinear_arith);
            assert(i * (i32::MAX as int) <= 0xffff_ffff_ffff_ffff * 0x8000_0000) by (nonlinear_arith)
                requires 0 <= i <= 0xffff_ffff_ffff_ffff;
            assert(i * (i32::MIN as int) >= -0xffff_ffff_ffff_ffff * 0x8000_0000) by (nonlinear_arith)
                requires 0 <= i <= 0xffff_ffff_ffff_ffff;
        }
        sx = sx + t.0 as i128;
        sy = sy + t.1 as i128;
        i = i + 1;
    }
    proof {
        assert(tiles@.take(n as int) =~= tiles@);
    }
    let nn = n as i128;
    let cx: i128 = if sx >= 0 { sx / nn } else { -((-sx) / nn) };
    let cy: i128 = if sy >= 0 { sy / nn } else { -((-sy) / nn) };
    proof {
        lemma_trunc_mean(sx as int, n as int, i32::MIN as int, i32::MAX as int);
        lemma_trunc_mean(sy as int, n as int, i32::MIN as int, i32::MAX as int);
    }
    let m = (cx as i32, cy as i32);
    match nearest_tile_in_room(room, m) {
        Some(t) => t,
        None => (0, 0),
    }
}

/// The tile lies inside the map's rows of width `w` and its flat index fits
/// the signed 32-bit index arithmetic.
pub open spec fn tile_fits(map: Seq<Cell>, w: int, t: (i32, i32)) -> bool {
    0 <= t.0 < w && 0 <= t.1 && flat(t.0 as int, t.1 as int, w) < map.len() && flat(t.0 as int, t.1 as int, w) <= i32::MAX
}

/// The tiles, in order, whose map cell is walkable.
pub open spec fn walkable_tiles(map: Seq<Cell>, w: int, tiles: Seq<(i32, i32)>) -> Seq<(i32, i32)>
    decreases tiles.len(),
{
    if tiles.len() == 0 {
        Seq::empty()
    } else {
        let rest = walkable_tiles(map, w, tiles.drop_last());
        let t = tiles.last();
        if map[flat(t.0 as int, t.1 as int, w)].terrain.spec_walkable() { rest.push(t) } else { rest }
    }
}

/// A random walkable tile of the room: the next xorshift32 value modulo the
/// number of walkable tiles picks one. A room without walkable tiles gives
/// its centre and leaves the generator untouched.
pub fn random_floor_in_room(room: &Room, map: &[Cell], map_w: i32, rng: &mut u32) -> (r: (i32, i32))
    requires
        forall|k: int| 0 <= k < room.tiles@.len() ==> tile_fits(map@, map_w as int, #[trigger] room.tiles@[k]),
    ensures
        ({
            let wt = walkable_tiles(map@, map_w as int, room.tiles@);
            &&& wt.len() == 0 ==> is_center(room.tiles@, r) && *final(rng) == *old(rng)
            &&& wt.len() > 0 ==> r == wt[(xorshift32_next(*old(rng)) as int) % (wt.len() as int)]
                && *final(rng) == xorshift32_next(*old(rng))
        }),
{
    let tiles = &room.tiles;
    let mut walkable: Vec<(i32, i32)> = Vec::new();
    let mut i: usize = 0;
    while i < tiles.len()
        invariant
            tiles@ == room.tiles@,
            i <= tiles@.len(),
            forall|k: int| 0 <= k < tiles@.len() ==> tile_fits(map@, map_w as int, #[trigger] tiles@[k]),
            walkable@ == walkable_tiles(map@, map_w as int, tiles@.take(i as int)),
        decreases tiles@.len() - i,
    {
        let t = tiles[i];
        proof {
            assert(tiles@.take(i + 1).drop_last() =~= tiles@.take(i as int));
            assert(tiles@.take(i + 1).last() == t);
            assert(tile_fits(map@, map_w as int, tiles@[i as int]));
        }
        let ci = idx(t.0, t.1, map_w);
        if map[ci].is_walkable() {
            walkable.push(t);
        }
        i = i + 1;
    }
    proof {
        assert(tiles@.take(tiles@.len() as int) =~= tiles@);
    }
    if walkable.len() == 0 {
        return room_center(room);
    }
    let v = xorshift(rng);
    walkable[(v as usize) % walkable.len()]
}

/// Swap the items at `i` and `j`.
pub open spec fn seq_swap<T>(s: Seq<T>, i: int, j: int) -> Seq<T> {
    s.update(i, s[j]).update(j, s[i])
}

/// Fisher-Yates from position `i` down to 1: each step draws the next
/// xorshift32 value `r` and swaps position `i` with `r % (i + 1)`.
/// Returns the shuffled items and the final generator state.
pub open spec fn fy_from<T>(s: Seq<T>, r: u32, i: nat) -> (Seq<T>, u32)
    decreases i,
{
    if i == 0 || i >= s.len() {
        (s, r)
    } else {
        let r2 = xorshift32_next(r);
        let j = (r2 as int) % ((i + 1) as int);
        fy_from(seq_swap(s, i as int, j), r2, (i - 1) as nat)
    }
}

/// The seeded Fisher-Yates shuffle of the whole sequence.
pub open spec fn fisher_yates<T>(s: Seq<T>, r: u32) -> (Seq<T>, u32) {
    if s.len() <= 1 { (s, r) } else { fy_from(s, r, (s.len() - 1) as nat) }
}

/// Swapping two positions keeps the items.
proof fn lemma_swap_multiset<T>(s: Seq<T>, i: int, j: int)
    requires
        0 <= i < s.len(),
        0 <= j < s.len(),
    ensures
        seq_swap(s, i, j).to_multiset() =~= s.to_multiset(),
        seq_swap(s, i, j).len() == s.len(),
{
    broadcast use vstd::seq_lib::to_multiset_update;
    broadcast use vstd::multiset::group_multiset_axioms;
    let s1 = s.update(i, s[j]);
    let m = s.to_multiset();
    assert(s1.to_multiset() == m.insert(s[j]).remove(s[i]));
    if i == j {
        assert(seq_swap(s, i, j) =~= s);
    } else {
        assert(s1[j] == s[j]);
        assert(s1.update(j, s[i]).to_multiset() == s1.to_multiset().insert(s[i]).remove(s[j]));
        assert(s.contains(s[i]));
        vstd::seq_lib::to_multiset_contains(s, s[i]);
        assert(m.count(s[i]) > 0);
        let m2 = m.insert(s[j]).remove(s[i]).insert(s[i]).remove(s[j]);
        assert forall|x: T| m2.count(x) == m.count(x) by {
            if x == s[i] && x == s[j] {
            } else if x == s[i] {
            } else if x == s[j] {
            }
        }
        assert(m2 =~= m);
    }
}

/// Shuffle in place with the seeded Fisher-Yates walk (positions from the
/// last down to 1). Keeps exactly the same items.
pub fn shuffle<T: Copy>(v: &mut Vec<T>, rng: &mut u32)
    ensures
        (final(v)@, *final(rng)) == fisher_yates(old(v)@, *old(rng)),
        final(v)@.to_multiset() == old(v)@.to_multiset(),
        final(v)@.len() == old(v)@.len(),
{
    let ghost s0 = v@;
    let ghost r0 = *rng;
    if v.len() <= 1 {
        return;
    }
    let mut i: usize = v.len() - 1;
    while i > 0
        invariant
            v@.len() == s0.len(),
            s0.len() >= 2,
            i < s0.len(),
            i < v.len(),
            fisher_yates(s0, r0) == fy_from(v@, *rng, i as nat),
            v@.to_multiset() == s0.to_multiset(),
        decreases i,
    {
        let x = xorshift(rng);
        let j = (x as usize) % (i + 1);
        proof {
            lemma_swap_multiset(v@, i as int, j as int);
        }
        let ghost prev = v@;
        let a = v[i];
        let b = v[j];
        v.set(i, b);
        v.set(j, a);
        proof {
            assert(v@ =~= seq_swap(prev, i as int, j as int));
        }
        i = i - 1;
    }
}

/// Terrain of the fixed 30 by 20 fallback map: three rooms on top (the
/// middle one tiled as a toilet) behind a wall at row 8, a corridor, a wall
/// at row 12 and an open area below, with two-tile door openings.
pub open spec fn test_map_terrain(x: int, y: int) -> Terrain {
    if x == 0 || x == 29 || y == 0 || y == 19 {
        Terrain::Wall
    } else if y == 8 {
        if x == 4 || x == 5 || x == 13 || x == 14 || x == 22 || x == 23 { Terrain::DoorOpen } else { Terrain::Wall }
    } else if y == 12 {
        if x == 7 || x == 8 || x == 20 || x == 21 { Terrain::DoorOpen } else { Terrain::Wall }
    } else if 1 <= y <= 7 && (x == 9 || x == 18) {
        Terrain::Wall
    } else if 1 <= y <= 7 && 10 <= x <= 17 {
        Terrain::Toilet
    } else {
        Terrain::Floor
    }
}

fn test_map_terrain_at(x: i32, y: i32) -> (t: Terrain)
    ensures
        t == test_map_terrain(x as int, y as int),
{
    if x == 0 || x == 29 || y == 0 || y == 19 {
        Terrain::Wall
    } else if y == 8 {
        if x == 4 || x == 5 || x == 13 || x == 14 || x == 22 || x == 23 { Terrain::DoorOpen } else { Terrain::Wall }
    } else if y == 12 {
        if x == 7 || x == 8 || x == 20 || x == 21 { Terrain::DoorOpen } else { Terrain::Wall }
    } else if 1 <= y && y <= 7 && (x == 9 || x == 18) {
        Terrain::Wall
    } else if 1 <= y && y <= 7 && 10 <= x && x <= 17 {
        Terrain::Toilet
    } else {
        Terrain::Floor
    }
}

/// The fixed fallback map used when generation fails: cells, width, height.
pub fn test_map() -> (r: (Vec<Cell>, i32, i32))
    ensures
        r.1 == 30,
        r.2 == 20,
        r.0@.len() == 600,
        forall|x: int, y: int| in_grid(x, y, 30, 20) ==> #[trigger] r.0@[flat(x, y, 30)]
            == (Cell { terrain: test_map_terrain(x, y), furniture: None }),
{
    let w: i32 = 30;
    let h: i32 = 20;
    let mut map: Vec<Cell> = Vec::new();
    let mut y: i32 = 0;
    while y < h
        invariant
            w == 30,
            h == 20,
            0 <= y <= h,
            map@.len() == y * 30,
            forall|k: int| 0 <= k < map@.len() ==> #[trigger] map@[k]
                == (Cell { terrain: test_map_terrain(k % 30, k / 30), furniture: None }),
        decreases h - y,
    {
        let mut x: i32 = 0;
        while x < w
            invariant
                w == 30,
                h == 20,
                0 <= y < h,
                0 <= x <= w,
                map@.len() == y * 30 + x,
                forall|k: int| 0 <= k < map@.len() ==> #[trigger] map@[k]
                    == (Cell { terrain: test_map_terrain(k % 30, k / 30), furniture: None }),
            decreases w - x,
        {
            let t = test_map_terrain_at(x, y);
            proof {
                let k = y * 30 + x;
                assert(k % 30 == x as int && k / 30 == y as int) by (nonlinear_arith)
                    requires k == y * 30 + x, 0 <= x < 30, 0 <= y;
            }
            map.push(Cell { terrain: t, furniture: None });
            x = x + 1;
        }
        y = y + 1;
    }
    assert forall|x: int, y: int| in_grid(x, y, 30, 20) implies #[trigger] map@[flat(x, y, 30)]
        == (Cell { terrain: test_map_terrain(x, y), furniture: None }) by {
        let k = flat(x, y, 30);
        assert(0 <= k < 600 && k % 30 == x && k / 30 == y) by (nonlinear_arith)
            requires k == y * 30 + x, 0 <= x < 30, 0 <= y < 20;
    }
    (map, w, h)
}

/// Seed of the NPC spawn generator: a fixed constant mixed with the map
/// size and the number of Normal rooms (zero is replaced by one).
pub open spec fn spawn_seed_spec(map_w: i32, map_h: i32, n_normal: usize) -> u32 {
    let s = 0xDEAD_BEEFu32 ^ vstd::wrapping::u32_specs::wrapping_mul(map_w as u32, 31u32)
        ^ vstd::wrapping::u32_specs::wrapping_mul(map_h as u32, 97u32) ^ (n_normal as u32);
    if s == 0 { 1 } else { s }
}

fn spawn_seed(map_w: i32, map_h: i32, n_normal: usize) -> (s: u32)
    ensures
        s == spawn_seed_spec(map_w, map_h, n_normal),
{
    let mut s: u32 = 0xDEAD_BEEF;
    s = s ^ (map_w as u32).wrapping_mul(31) ^ (map_h as u32).wrapping_mul(97);
    s = s ^ (n_normal as u32);
    if s == 0 {
        s = 1;
    }
    s
}

/// Indices of the rooms of the given kind, in room order.
pub open spec fn kind_ids(rooms: Seq<Room>, kind: RoomKind) -> Seq<usize>
    decreases rooms.len(),
{
    if rooms.len() == 0 {
        Seq::empty()
    } else {
        let rest = kind_ids(rooms.drop_last(), kind);
        if rooms.last().kind == kind { rest.push((rooms.len() - 1) as usize) } else { rest }
    }
}

/// Indices of the rooms of the given kind, in room order.
fn rooms_of_kind(rooms: &[Room], kind: RoomKind) -> (ids: Vec<usize>)
    ensures
        ids@ == kind_ids(rooms@, kind),
        forall|k: int| 0 <= k < ids@.len() ==> (#[trigger] ids@[k]) < rooms@.len() && rooms@[ids@[k] as int].kind == kind,
        ids@.no_duplicates(),
{
    let mut ids: Vec<usize> = Vec::new();
    let mut i: usize = 0;
    while i < rooms.len()
        invariant
            i <= rooms@.len(),
            ids@ == kind_ids(rooms@.take(i as int), kind),
            forall|k: int| 0 <= k < ids@.len() ==> (#[trigger] ids@[k]) < i && rooms@[ids@[k] as int].kind == kind,
            forall|a: int, b: int| 0 <= a < b < ids@.len() ==> (#[trigger] ids@[a]) < (#[trigger] ids@[b]),
        decreases rooms@.len() - i,
    {
        proof {
            assert(rooms@.take(i + 1).drop_last() =~= rooms@.take(i as int));
            assert(rooms@.take(i + 1).last() == rooms@[i as int]);
        }
        if rooms[i].kind == kind {
            ids.push(i);
        }
        i = i + 1;
    }
    proof {
        assert(rooms@.take(rooms@.len() as int) =~= rooms@);
    }
    ids
}

/// The centre of a room with these tiles (see `is_center`).
pub open spec fn center_of(tiles: Seq<(i32, i32)>) -> (i32, i32) {
    choose|c: (i32, i32)| is_center(tiles, c)
}

/// A room has one centre: `room_center`'s result is `center_of` the tiles.
pub proof fn lemma_center_unique(tiles: Seq<(i32, i32)>, c: (i32, i32))
    requires
        is_center(tiles, c),
    ensures
        center_of(tiles) == c,
{
    let d = center_of(tiles);
    assert(is_center(tiles, d));
    if tiles.len() > 0 {
        let m = (centroid(tiles).0 as i32, centroid(tiles).1 as i32);
        let k1 = choose|k: int| 0 <= k < tiles.len() && tiles[k] == c
            && (forall|j: int| 0 <= j < tiles.len() ==> tile_dist(c, m) <= #[trigger] tile_dist(tiles[j], m))
            && (forall|j: int| 0 <= j < k ==> tile_dist(c, m) < #[trigger] tile_dist(tiles[j], m));
        let k2 = choose|k: int| 0 <= k < tiles.len() && tiles[k] == d
            && (forall|j: int| 0 <= j < tiles.len() ==> tile_dist(d, m) <= #[trigger] tile_dist(tiles[j], m))
            && (forall|j: int| 0 <= j < k ==> tile_dist(d, m) < #[trigger] tile_dist(tiles[j], m));
        if k1 < k2 {
            assert(tile_dist(d, m) < tile_dist(tiles[k1], m));
            assert(tile_dist(d, m) <= tile_dist(tiles[k1], m));
        } else if k2 < k1 {
            assert(tile_dist(c, m) < tile_dist(tiles[k2], m));
            assert(tile_dist(c, m) <= tile_dist(tiles[k2], m));
        }
    }
}

/// One stop of an NPC's patrol route.
#[derive(Clone, Copy, Debug, PartialEq, Eq)]
pub enum PatrolStop {
    /// Idle at the NPC's home tile.
    Home((i32, i32)),
    /// Use the toilet room with this centre.
    Toilet((i32, i32)),
    /// Take the trash out at the trash room with this centre.
    Trash((i32, i32)),
    /// Idle in another NPC's home room, at its centre.
    Visit((i32, i32)),
}

/// Where and how one NPC starts.
#[derive(Debug)]
pub struct NpcSpawn {
    /// Index of the Normal room the NPC lives in.
    pub home_room: usize,
    /// The NPC's spawn and idle tile in its home room.
    pub home_tile: (i32, i32),
    /// The fixed cycle: home, first destination, home, second destination, ...
    pub route: Vec<PatrolStop>,
    /// Draw in `[0, 1000)` that sets the first idle timer.
    pub timer_seed: u32,
}

/// The fixed destinations of every NPC: each toilet room's centre, then
/// each trash room's centre, in room order.
pub open spec fn base_stops(rooms: Seq<Room>) -> Seq<PatrolStop> {
    kind_ids(rooms, RoomKind::Toilet).map_values(|t: usize| PatrolStop::Toilet(center_of(rooms[t as int].tiles@)))
        + kind_ids(rooms, RoomKind::Trash).map_values(|t: usize| PatrolStop::Trash(center_of(rooms[t as int].tiles@)))
}

/// The destinations of a route: its entries at odd positions.
pub open spec fn route_dests(route: Seq<PatrolStop>) -> Seq<PatrolStop> {
    Seq::new(route.len() / 2, |k: int| route[2 * k + 1])
}

/// A route around `home`: `home` then each destination in turn, or just
/// `home` when there is no destination.
pub open spec fn route_shape(route: Seq<PatrolStop>, home: (i32, i32)) -> bool {
    &&& route.len() >= 1
    &&& (route.len() == 1 || route.len() % 2 == 0)
    &&& forall|k: int| 0 <= k < route.len() && k % 2 == 0 ==> #[trigger] route[k] == PatrolStop::Home(home)
}

/// Alternate `Home(home)` with each destination; `[Home(home)]` for none.
fn interleave_route(home: (i32, i32), dests: &Vec<PatrolStop>) -> (route: Vec<PatrolStop>)
    ensures
        route_shape(route@, home),
        route@.len() == (if dests@.len() == 0 { 1 } else { 2 * dests@.len() }),
        route_dests(route@) == (if dests@.len() == 0 { Seq::<PatrolStop>::empty() } else { dests@ }),
{
    let mut route: Vec<PatrolStop> = Vec::new();
    let mut i: usize = 0;
    while i < dests.len()
        invariant
            i <= dests@.len(),
            route@.len() == 2 * i,
            forall|k: int| 0 <= k < route@.len() ==> #[trigger] route@[k]
                == if k % 2 == 0 { PatrolStop::Home(home) } else { dests@[(k - 1) / 2] },
        decreases dests@.len() - i,
    {
        route.push(PatrolStop::Home(home));
        route.push(dests[i]);
        i = i + 1;
    }
    if dests.len() == 0 {
        route.push(PatrolStop::Home(home));
        assert(route_dests(route@) =~= Seq::<PatrolStop>::empty());
    } else {
        assert forall|k: int| 0 <= k < route@.len() && k % 2 == 0 implies #[trigger] route@[k] == PatrolStop::Home(home) by {}
        assert forall|k: int| 0 <= k < route_dests(route@).len() implies route_dests(route@)[k] == dests@[k] by {
            assert(route@[2 * k + 1] == dests@[((2 * k + 1) - 1) / 2]);
        }
        assert(route_dests(route@) =~= dests@);
    }
    route
}

/// The spawn tile of an NPC in a room with these tiles: one of its walkable
/// tiles, or its centre when none is walkable.
pub open spec fn home_tile_ok(map: Seq<Cell>, w: int, tiles: Seq<(i32, i32)>, t: (i32, i32)) -> bool {
    let wt = walkable_tiles(map, w, tiles);
    if wt.len() == 0 { is_center(tiles, t) } else { wt.contains(t) }
}

/// Items of a shuffled sequence come from the sequence before the shuffle.
proof fn lemma_perm_member<T>(a: Seq<T>, b: Seq<T>, k: int)
    requires
        a.to_multiset() == b.to_multiset(),
        0 <= k < b.len(),
    ensures
        a.contains(b[k]),
{
    vstd::seq_lib::to_multiset_contains(b, b[k]);
    vstd::seq_lib::to_multiset_contains(a, b[k]);
    assert(b.contains(b[k]));
}

/// Shuffling keeps a sequence free of duplicates.
proof fn lemma_perm_no_dup<T>(a: Seq<T>, b: Seq<T>)
    requires
        a.to_multiset() == b.to_multiset(),
        a.no_duplicates(),
    ensures
        b.no_duplicates(),
{
    a.lemma_multiset_has_no_duplicates();
    b.lemma_multiset_has_no_duplicates_conv();
}

/// The home room of each planned NPC.
pub open spec fn homes_of(plan: Seq<NpcSpawn>) -> Seq<usize> {
    plan.map_values(|sp: NpcSpawn| sp.home_room)
}

/// `stop` is a visit to the centre of the home room of an NPC whose home
/// is not `home`.
pub open spec fn visits_other(homes: Seq<usize>, rooms: Seq<Room>, home: usize, stop: PatrolStop) -> bool {
    exists|j: int| 0 <= j < homes.len() && #[trigger] homes[j] != home
        && stop == PatrolStop::Visit(center_of(rooms[homes[j] as int].tiles@))
}

/// Centres of the rooms `order[0..j]` other than `home`, in order.
pub open spec fn other_centers(rooms: Seq<Room>, order: Seq<usize>, home: usize, j: int) -> Seq<(i32, i32)>
    decreases j,
{
    if j <= 0 {
        Seq::empty()
    } else {
        let rest = other_centers(rooms, order, home, j - 1);
        if order[j - 1] != home { rest.push(center_of(rooms[order[j - 1] as int].tiles@)) } else { rest }
    }
}

/// Home tile drawn in a room from rng state `r`, and the state after: a
/// random walkable tile, or the centre when no tile is walkable.
pub open spec fn home_draw(map: Seq<Cell>, w: int, tiles: Seq<(i32, i32)>, r: u32) -> ((i32, i32), u32) {
    let wt = walkable_tiles(map, w, tiles);
    if wt.len() == 0 {
        (center_of(tiles), r)
    } else {
        (wt[(xorshift32_next(r) as int) % (wt.len() as int)], xorshift32_next(r))
    }
}

/// Extra visits drawn from the other NPCs' room centres with rng state `r`:
/// up to three of them, taken from the front of their shuffle; and the
/// state after.
pub open spec fn visit_draw(others: Seq<(i32, i32)>, r: u32) -> (Seq<PatrolStop>, u32) {
    if others.len() == 0 {
        (Seq::empty(), r)
    } else {
        let x = xorshift32_next(r);
        let extra = if (x as int) % 4 > others.len() { others.len() as int } else { (x as int) % 4 };
        let shuffled = fisher_yates(others, x);
        (shuffled.0.take(extra).map_values(|c: (i32, i32)| PatrolStop::Visit(c)), shuffled.1)
    }
}

/// What the `i`-th NPC draws from rng state `r`: home tile, destinations
/// in patrol order, timer seed, and the state after.
pub open spec fn npc_draw(rooms: Seq<Room>, map: Seq<Cell>, w: int, order: Seq<usize>, actual: int, i: int, r: u32)
    -> ((i32, i32), Seq<PatrolStop>, u32, u32) {
    let home = order[i];
    let ht = home_draw(map, w, rooms[home as int].tiles@, r);
    let vis = visit_draw(other_centers(rooms, order, home, actual), ht.1);
    let dests = fisher_yates(base_stops(rooms) + vis.0, vis.1);
    let r4 = xorshift32_next(dests.1);
    (ht.0, dests.0, r4 % 1000, r4)
}

/// Rng state before the `i`-th NPC draws, starting from `r0`.
pub open spec fn npc_rng(rooms: Seq<Room>, map: Seq<Cell>, w: int, order: Seq<usize>, actual: int, i: nat, r0: u32) -> u32
    decreases i,
{
    if i == 0 {
        r0
    } else {
        npc_draw(rooms, map, w, order, actual, i - 1, npc_rng(rooms, map, w, order, actual, (i - 1) as nat, r0)).3
    }
}

/// Plan the NPCs of a map: up to `npc_count` NPCs, each living in its own
/// Normal room. The Normal rooms are shuffled by a generator seeded from
/// the map size; the first ones get an NPC. Each NPC spawns on a random
/// walkable tile of its room and patrols a fixed route: home, then each
/// destination in a shuffled order, returning home between them. The
/// destinations are every toilet and trash room centre plus up to three
/// centres of the other NPCs' rooms.
pub fn plan_npc_spawns(rooms: &[Room], map: &[Cell], map_w: i32, map_h: i32, npc_count: usize) -> (plan: Vec<NpcSpawn>)
    requires
        forall|r: int, k: int| 0 <= r < rooms@.len() && 0 <= k < rooms@[r].tiles@.len()
            ==> tile_fits(map@, map_w as int, #[trigger] rooms@[r].tiles@[k]),
    ensures
        ({
            let normals = kind_ids(rooms@, RoomKind::Normal);
            let order = fisher_yates(normals, spawn_seed_spec(map_w, map_h, normals.len() as usize)).0;
            &&& plan@.len() == (if npc_count < normals.len() { npc_count as int } else { normals.len() as int })
            &&& forall|i: int| 0 <= i < plan@.len() ==> {
                let sp = #[trigger] plan@[i];
                &&& sp.home_room == order[i]
                &&& sp.home_room < rooms@.len()
                &&& rooms@[sp.home_room as int].kind == RoomKind::Normal
                &&& home_tile_ok(map@, map_w as int, rooms@[sp.home_room as int].tiles@, sp.home_tile)
                &&& route_shape(sp.route@, sp.home_tile)
                &&& sp.timer_seed < 1000
                &&& exists|vis: Seq<PatrolStop>| {
                    &&& vis.len() <= 3
                    &&& route_dests(sp.route@).to_multiset() == #[trigger] (base_stops(rooms@) + vis).to_multiset()
                    &&& forall|v: int| 0 <= v < vis.len() ==> visits_other(homes_of(plan@), rooms@, sp.home_room, #[trigger] vis[v])
                }
            }
            &&& forall|i: int, j: int| 0 <= i < j < plan@.len() ==> (#[trigger] plan@[i]).home_room != (#[trigger] plan@[j]).home_room
            &&& forall|i: int| 0 <= i < plan@.len() ==> {
                let d = npc_draw(rooms@, map@, map_w as int, order, plan@.len() as int, i,
                    npc_rng(rooms@, map@, map_w as int, order, plan@.len() as int, i as nat,
                        fisher_yates(normals, spawn_seed_spec(map_w, map_h, normals.len() as usize)).1));
                &&& (#[trigger] plan@[i]).home_tile == d.0
                &&& route_dests(plan@[i].route@) == d.1
                &&& plan@[i].timer_seed == d.2
            }
        }),
{
    let mut normal = rooms_of_kind(rooms, RoomKind::Normal);
    let n_normal = normal.len();
    let actual = if npc_count < n_normal { npc_count } else { n_normal };
    let mut plan: Vec<NpcSpawn> = Vec::new();
    if actual == 0 {
        return plan;
    }
    let ghost normals = normal@;
    let mut rng = spawn_seed(map_w, map_h, n_normal);
    shuffle(&mut normal, &mut rng);
    proof {
        lemma_perm_no_dup(normals, normal@);
        assert forall|k: int| 0 <= k < normal@.len() implies (#[trigger] normal@[k]) < rooms@.len()
            && rooms@[normal@[k] as int].kind == RoomKind::Normal by {
            lemma_perm_member(normals, normal@, k);
        }
    }
    let ghost order = normal@;
    let ghost r0 = rng;
    let toilets = rooms_of_kind(rooms, RoomKind::Toilet);
    let trash = rooms_of_kind(rooms, RoomKind::Trash);
    let mut base: Vec<PatrolStop> = Vec::new();
    let mut t: usize = 0;
    while t < toilets.len()
        invariant
            t <= toilets@.len(),
            toilets@ == kind_ids(rooms@, RoomKind::Toilet),
            forall|k: int| 0 <= k < toilets@.len() ==> (#[trigger] toilets@[k]) < rooms@.len(),
            base@ == kind_ids(rooms@, RoomKind::Toilet).take(t as int)
                .map_values(|x: usize| PatrolStop::Toilet(center_of(rooms@[x as int].tiles@))),
        decreases toilets@.len() - t,
    {
        let c = room_center(&rooms[toilets[t]]);
        proof {
            lemma_center_unique(rooms@[toilets@[t as int] as int].tiles@, c);
        }
        base.push(PatrolStop::Toilet(c));
        proof {
            assert(base@ =~= kind_ids(rooms@, RoomKind::Toilet).take(t + 1)
                .map_values(|x: usize| PatrolStop::Toilet(center_of(rooms@[x as int].tiles@))));
        }
        t = t + 1;
    }
    let ghost n_toilet = base@.len();
    let mut t: usize = 0;
    while t < trash.len()
        invariant
            t <= trash@.len(),
            trash@ == kind_ids(rooms@, RoomKind::Trash),
            forall|k: int| 0 <= k < trash@.len() ==> (#[trigger] trash@[k]) < rooms@.len(),
            base@ == kind_ids(rooms@, RoomKind::Toilet).take(toilets@.len() as int)
                .map_values(|x: usize| PatrolStop::Toilet(center_of(rooms@[x as int].tiles@)))
                + kind_ids(rooms@, RoomKind::Trash).take(t as int)
                .map_values(|x: usize| PatrolStop::Trash(center_of(rooms@[x as int].tiles@))),
            toilets@ == kind_ids(rooms@, RoomKind::Toilet),
        decreases trash@.len() - t,
    {
        let c = room_center(&rooms[trash[t]]);
        proof {
            lemma_center_unique(rooms@[trash@[t as int] as int].tiles@, c);
        }
        base.push(PatrolStop::Trash(c));
        proof {
            assert(base@ =~= kind_ids(rooms@, RoomKind::Toilet).take(toilets@.len() as int)
                .map_values(|x: usize| PatrolStop::Toilet(center_of(rooms@[x as int].tiles@)))
                + kind_ids(rooms@, RoomKind::Trash).take(t + 1)
                .map_values(|x: usize| PatrolStop::Trash(center_of(rooms@[x as int].tiles@))));
        }
        t = t + 1;
    }
    proof {
        assert(kind_ids(rooms@, RoomKind::Toilet).take(toilets@.len() as int) =~= kind_ids(rooms@, RoomKind::Toilet));
        assert(kind_ids(rooms@, RoomKind::Trash).take(trash@.len() as int) =~= kind_ids(rooms@, RoomKind::Trash));
        assert(base@ =~= base_stops(rooms@));
    }
    let mut i: usize = 0;
    while i < actual
        invariant
            actual <= normal@.len(),
            normal@ == order,
            order.no_duplicates(),
            forall|k: int| 0 <= k < order.len() ==> (#[trigger] order[k]) < rooms@.len()
                && rooms@[order[k] as int].kind == RoomKind::Normal,
            forall|r: int, k: int| 0 <= r < rooms@.len() && 0 <= k < rooms@[r].tiles@.len()
                ==> tile_fits(map@, map_w as int, #[trigger] rooms@[r].tiles@[k]),
            base@ == base_stops(rooms@),
            i <= actual,
            plan@.len() == i,
            rng == npc_rng(rooms@, map@, map_w as int, order, actual as int, i as nat, r0),
            forall|p: int| 0 <= p < i ==> {
                let d = npc_draw(rooms@, map@, map_w as int, order, actual as int, p,
                    npc_rng(rooms@, map@, map_w as int, order, actual as int, p as nat, r0));
                &&& (#[trigger] plan@[p]).home_tile == d.0
                &&& route_dests(plan@[p].route@) == d.1
                &&& plan@[p].timer_seed == d.2
            },
            forall|p: int| 0 <= p < i ==> {
                let sp = #[trigger] plan@[p];
                &&& sp.home_room == order[p]
                &&& home_tile_ok(map@, map_w as int, rooms@[sp.home_room as int].tiles@, sp.home_tile)
                &&& route_shape(sp.route@, sp.home_tile)
                &&& sp.timer_seed < 1000
                &&& exists|vis: Seq<PatrolStop>| {
                    &&& vis.len() <= 3
                    &&& route_dests(sp.route@).to_multiset() == #[trigger] (base_stops(rooms@) + vis).to_multiset()
                    &&& forall|v: int| 0 <= v < vis.len() ==> visits_other(order.take(actual as int), rooms@, sp.home_room, #[trigger] vis[v])
                }
            },
        decreases actual - i,
    {
        let home = normal[i];
        let ghost r_i = rng;
        let home_tile = random_floor_in_room(&rooms[home], map, map_w, &mut rng);
        proof {
            if walkable_tiles(map@, map_w as int, rooms@[home as int].tiles@).len() == 0 {
                lemma_center_unique(rooms@[home as int].tiles@, home_tile);
            }
            assert((home_tile, rng) == home_draw(map@, map_w as int, rooms@[home as int].tiles@, r_i));
        }
        let ghost r1 = rng;
        let mut dests: Vec<PatrolStop> = Vec::new();
        let mut b: usize = 0;
        while b < base.len()
            invariant
                b <= base@.len(),
                dests@ == base@.take(b as int),
            decreases base@.len() - b,
        {
            dests.push(base[b]);
            proof {
                assert(dests@ =~= base@.take(b + 1));
            }
            b = b + 1;
        }
        proof {
            assert(base@.take(base@.len() as int) =~= base@);
        }
        // Centres of the other NPCs' rooms.
        let mut others: Vec<(i32, i32)> = Vec::new();
        let mut j: usize = 0;
        while j < actual
            invariant
                actual <= normal@.len(),
                normal@ == order,
                forall|k: int| 0 <= k < order.len() ==> (#[trigger] order[k]) < rooms@.len(),
                j <= actual,
                home == order[i as int],
                others@ == other_centers(rooms@, order, home, j as int),
                forall|k: int| 0 <= k < others@.len() ==> visits_other(order.take(actual as int), rooms@, home,
                    PatrolStop::Visit(#[trigger] others@[k])),
            decreases actual - j,
        {
            if normal[j] != home {
                let c = room_center(&rooms[normal[j]]);
                proof {
                    lemma_center_unique(rooms@[order[j as int] as int].tiles@, c);
                    assert(other_centers(rooms@, order, home, j + 1) == other_centers(rooms@, order, home, j as int).push(c));
                    assert(order.take(actual as int)[j as int] == order[j as int]);
                    assert(visits_other(order.take(actual as int), rooms@, home, PatrolStop::Visit(c)));
                }
                others.push(c);
            }
            j = j + 1;
        }
        let ghost vis: Seq<PatrolStop> = Seq::empty();
        proof {
            assert(others@ == other_centers(rooms@, order, home, actual as int));
        }
        let ghost others0 = others@;
        if others.len() > 0 {
            let x = xorshift(&mut rng);
            let mut extra = (x as usize) % 4;
            if extra > others.len() {
                extra = others.len();
            }
            let ghost pool0 = others@;
            shuffle(&mut others, &mut rng);
            let mut k: usize = 0;
            while k < extra
                invariant
                    extra <= others@.len(),
                    extra <= 3,
                    k <= extra,
                    dests@ == base@ + others@.take(k as int).map_values(|c: (i32, i32)| PatrolStop::Visit(c)),
                decreases extra - k,
            {
                dests.push(PatrolStop::Visit(others[k]));
                proof {
                    assert(dests@ =~= base@ + others@.take(k + 1).map_values(|c: (i32, i32)| PatrolStop::Visit(c)));
                }
                k = k + 1;
            }
            proof {
                vis = others@.take(extra as int).map_values(|c: (i32, i32)| PatrolStop::Visit(c));
                assert((vis, rng) == visit_draw(others0, r1));
                assert forall|v: int| 0 <= v < vis.len() implies visits_other(order.take(actual as int), rooms@, home, #[trigger] vis[v]) by {
                    lemma_perm_member(pool0, others@, v);
                    let q = choose|q: int| 0 <= q < pool0.len() && pool0[q] == others@[v];
                    assert(pool0[q] == others@[v]);
                    assert(vis[v] == PatrolStop::Visit(others@[v]));
                }
            }
        } else {
            proof {
                assert(dests@ =~= base@ + vis);
            }
        }
        proof {
            assert((vis, rng) == visit_draw(others0, r1));
            assert(dests@ == base_stops(rooms@) + vis);
        }
        let ghost built = dests@;
        let ghost r2 = rng;
        shuffle(&mut dests, &mut rng);
        let route = interleave_route(home_tile, &dests);
        proof {
            if dests@.len() == 0 {
                assert(built.len() == 0);
                assert(built =~= Seq::<PatrolStop>::empty());
            }
            assert(route_dests(route@).to_multiset() == (base_stops(rooms@) + vis).to_multiset());
        }
        let ts = xorshift(&mut rng) % 1000;
        plan.push(NpcSpawn { home_room: home, home_tile, route, timer_seed: ts });
        proof {
            let d = npc_draw(rooms@, map@, map_w as int, order, actual as int, i as int, r_i);
            assert(d.0 == home_tile);
            assert(d.1 == dests@);
            assert(route_dests(route@) == dests@);
            assert(d.2 == ts);
            assert(d.3 == rng);
            assert(npc_rng(rooms@, map@, map_w as int, order, actual as int, (i + 1) as nat, r0) == rng);
            assert forall|p: int| 0 <= p < i + 1 implies {
                let d = npc_draw(rooms@, map@, map_w as int, order, actual as int, p,
                    npc_rng(rooms@, map@, map_w as int, order, actual as int, p as nat, r0));
                &&& (#[trigger] plan@[p]).home_tile == d.0
                &&& route_dests(plan@[p].route@) == d.1
                &&& plan@[p].timer_seed == d.2
            } by {}
        }
        proof {
            let sp = plan@[i as int];
            assert(sp.home_room == order[i as int]);
            assert(route_dests(sp.route@).to_multiset() == (base_stops(rooms@) + vis).to_multiset());
            assert forall|p: int| 0 <= p < i + 1 implies {
                let sp = #[trigger] plan@[p];
                &&& sp.home_room == order[p]
                &&& home_tile_ok(map@, map_w as int, rooms@[sp.home_room as int].tiles@, sp.home_tile)
                &&& route_shape(sp.route@, sp.home_tile)
                &&& sp.timer_seed < 1000
                &&& exists|vis: Seq<PatrolStop>| {
                    &&& vis.len() <= 3
                    &&& route_dests(sp.route@).to_multiset() == #[trigger] (base_stops(rooms@) + vis).to_multiset()
                    &&& forall|v: int| 0 <= v < vis.len() ==> visits_other(order.take(actual as int), rooms@, sp.home_room, #[trigger] vis[v])
                }
            } by {
                if p == i {
                    assert(vis.len() <= 3);
                }
            }
        }
        i = i + 1;
    }
    proof {
        assert forall|i: int, j: int| 0 <= i < j < plan@.len() implies (#[trigger] plan@[i]).home_room != (#[trigger] plan@[j]).home_room by {
            assert(order[i] != order[j]);
        }
        assert(homes_of(plan@) =~= order.take(actual as int));
    }
    plan
}

/// Cell `c` belongs to a toilet room among rooms `0..ri`, or to room `ri`
/// through one of its first `k` tiles.
pub open spec fn toilet_tile_before(rooms: Seq<Room>, w: int, c: int, ri: int, k: int) -> bool {
    exists|r: int, kk: int| 0 <= r < rooms.len() && 0 <= kk < rooms[r].tiles@.len()
        && (r < ri || (r == ri && kk < k))
        && rooms[r].kind == RoomKind::Toilet
        && flat((#[trigger] rooms[r].tiles@[kk]).0 as int, rooms[r].tiles@[kk].1 as int, w) == c
}

/// A floor cell repainted as toilet terrain; other cells unchanged.
pub open spec fn toilet_painted(cell: Cell) -> Cell {
    if cell.terrain == Terrain::Floor { Cell { terrain: Terrain::Toilet, furniture: cell.furniture } } else { cell }
}

/// Give every floor tile of a toilet room the toilet terrain.
pub fn paint_toilet_rooms(map: &mut Vec<Cell>, map_w: i32, rooms: &[Room])
    requires
        forall|r: int, k: int| 0 <= r < rooms@.len() && 0 <= k < rooms@[r].tiles@.len()
            ==> tile_fits(old(map)@, map_w as int, #[trigger] rooms@[r].tiles@[k]),
    ensures
        final(map)@.len() == old(map)@.len(),
        forall|c: int| 0 <= c < old(map)@.len() ==> #[trigger] final(map)@[c]
            == if toilet_tile_before(rooms@, map_w as int, c, rooms@.len() as int, 0) { toilet_painted(old(map)@[c]) } else { old(map)@[c] },
{
    let ghost orig = map@;
    let ghost w = map_w as int;
    let mut ri: usize = 0;
    while ri < rooms.len()
        invariant
            ri <= rooms@.len(),
            map@.len() == orig.len(),
            forall|r: int, k: int| 0 <= r < rooms@.len() && 0 <= k < rooms@[r].tiles@.len()
                ==> tile_fits(orig, w, #[trigger] rooms@[r].tiles@[k]),
            w == map_w,
            forall|c: int| 0 <= c < orig.len() ==> #[trigger] map@[c]
                == if toilet_tile_before(rooms@, w, c, ri as int, 0) { toilet_painted(orig[c]) } else { orig[c] },
        decreases rooms@.len() - ri,
    {
        if rooms[ri].kind == RoomKind::Toilet {
            let tiles = &rooms[ri].tiles;
            let mut k: usize = 0;
            while k < tiles.len()
                invariant
                    ri < rooms@.len(),
                    rooms@[ri as int].kind == RoomKind::Toilet,
                    tiles@ == rooms@[ri as int].tiles@,
                    k <= tiles@.len(),
                    map@.len() == orig.len(),
                    forall|r: int, k: int| 0 <= r < rooms@.len() && 0 <= k < rooms@[r].tiles@.len()
                        ==> tile_fits(orig, w, #[trigger] rooms@[r].tiles@[k]),
                    w == map_w,
                    forall|c: int| 0 <= c < orig.len() ==> #[trigger] map@[c]
                        == if toilet_tile_before(rooms@, w, c, ri as int, k as int) { toilet_painted(orig[c]) } else { orig[c] },
                decreases tiles@.len() - k,
            {
                let t = tiles[k];
                proof {
                    assert(tile_fits(orig, w, rooms@[ri as int].tiles@[k as int]));
                }
                let i = idx(t.0, t.1, map_w);
                let ghost before = map@;
                if map[i].terrain == Terrain::Floor {
                    let f = map[i].furniture;
                    map.set(i, Cell { terrain: Terrain::Toilet, furniture: f });
                }
                proof {
                    assert forall|c: int| 0 <= c < orig.len() implies #[trigger] map@[c]
                        == if toilet_tile_before(rooms@, w, c, ri as int, k + 1) { toilet_painted(orig[c]) } else { orig[c] } by {
                        if c == i as int {
                            assert(rooms@[ri as int].tiles@[k as int] == t);
                            assert(toilet_tile_before(rooms@, w, c, ri as int, k + 1));
                        } else {
                            assert(map@[c] == before[c]);
                            if toilet_tile_before(rooms@, w, c, ri as int, k + 1) {
                                let (r, kk) = choose|r: int, kk: int| 0 <= r < rooms@.len() && 0 <= kk < rooms@[r].tiles@.len()
                                    && (r < ri || (r == ri && kk < k + 1))
                                    && rooms@[r].kind == RoomKind::Toilet
                                    && flat((#[trigger] rooms@[r].tiles@[kk]).0 as int, rooms@[r].tiles@[kk].1 as int, w) == c;
                                assert(toilet_tile_before(rooms@, w, c, ri as int, k as int));
                            }
                        }
                    }
                }
                k = k + 1;
            }
            proof {
                assert forall|c: int| 0 <= c < orig.len() implies
                    toilet_tile_before(rooms@, w, c, ri as int, tiles@.len() as int)
                        == toilet_tile_before(rooms@, w, c, ri + 1, 0) by {
                    if toilet_tile_before(rooms@, w, c, ri + 1, 0) {
                        let (r, kk) = choose|r: int, kk: int| 0 <= r < rooms@.len() && 0 <= kk < rooms@[r].tiles@.len()
                            && (r < ri + 1 || (r == ri + 1 && kk < 0))
                            && rooms@[r].kind == RoomKind::Toilet
                            && flat((#[trigger] rooms@[r].tiles@[kk]).0 as int, rooms@[r].tiles@[kk].1 as int, w) == c;
                        assert(toilet_tile_before(rooms@, w, c, ri as int, tiles@.len() as int));
                    }
                    if toilet_tile_before(rooms@, w, c, ri as int, tiles@.len() as int) {
                        let (r, kk) = choose|r: int, kk: int| 0 <= r < rooms@.len() && 0 <= kk < rooms@[r].tiles@.len()
                            && (r < ri || (r == ri && kk < tiles@.len()))
                            && rooms@[r].kind == RoomKind::Toilet
                            && flat((#[trigger] rooms@[r].tiles@[kk]).0 as int, rooms@[r].tiles@[kk].1 as int, w) == c;
                        assert(toilet_tile_before(rooms@, w, c, ri + 1, 0));
                    }
                }
            }
        } else {
            proof {
                assert forall|c: int| 0 <= c < orig.len() implies
                    toilet_tile_before(rooms@, w, c, ri as int, 0) == toilet_tile_before(rooms@, w, c, ri + 1, 0) by {
                    if toilet_tile_before(rooms@, w, c, ri + 1, 0) {
                        let (r, kk) = choose|r: int, kk: int| 0 <= r < rooms@.len() && 0 <= kk < rooms@[r].tiles@.len()
                            && (r < ri + 1 || (r == ri + 1 && kk < 0))
                            && rooms@[r].kind == RoomKind::Toilet
                            && flat((#[trigger] rooms@[r].tiles@[kk]).0 as int, rooms@[r].tiles@[kk].1 as int, w) == c;
                        assert(r != ri);
                        assert(toilet_tile_before(rooms@, w, c, ri as int, 0));
                    }
                }
            }
        }
        ri = ri + 1;
    }
}

/// Room kinds of the start-up map: one trash room first, then for rooms
/// `1..room_count` a toilet at every third position and Normal otherwise.
pub open spec fn procedural_kind(i: int) -> RoomKind {
    if i == 0 { RoomKind::Trash } else if i % 3 == 0 { RoomKind::Toilet } else { RoomKind::Normal }
}

/// The room mix requested for the start-up map (at least the trash room).
pub fn procedural_room_kinds(room_count: usize) -> (kinds: Vec<RoomKind>)
    ensures
        kinds@.len() == (if room_count == 0 { 1 } else { room_count as int }),
        forall|i: int| 0 <= i < kinds@.len() ==> #[trigger] kinds@[i] == procedural_kind(i),
{
    let mut kinds: Vec<RoomKind> = Vec::new();
    kinds.push(RoomKind::Trash);
    let mut i: usize = 1;
    while i < room_count
        invariant
            1 <= i,
            i <= room_count || (room_count == 0 && i == 1),
            kinds@.len() == i,
            forall|j: int| 0 <= j < kinds@.len() ==> #[trigger] kinds@[j] == procedural_kind(j),
        decreases room_count - i,
    {
        if i % 3 == 0 {
            kinds.push(RoomKind::Toilet);
        } else {
            kinds.push(RoomKind::Normal);
        }
        i = i + 1;
    }
    kinds
}

} // verus!
