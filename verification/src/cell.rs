//! Map cells (terrain + optional furniture) and the geometry of a row-major
//! grid: indexing, bounds, walkability and cardinal walks.

use vstd::prelude::*;
use vstd::arithmetic::div_mod::lemma_fundamental_div_mod_converse;

verus! {

/// Ground type of one map cell.
#[derive(Clone, Copy, Debug, PartialEq, Eq, Structural)]
pub enum Terrain {
    /// Outside the building: never walkable.
    Void,
    Floor,
    Wall,
    DoorOpen,
    DoorClosed,
    Toilet,
}

impl Terrain {
    /// Walls and the void outside the building block movement; every other
    /// terrain can be walked on.
    pub open spec fn spec_walkable(self) -> bool {
        !(self is Wall || self is Void)
    }

    /// Walls, closed doors and the void block line of sight.
    pub open spec fn spec_blocks_vision(self) -> bool {
        self is Wall || self is DoorClosed || self is Void
    }

    /// Open and closed doors.
    pub open spec fn spec_is_door(self) -> bool {
        self is DoorOpen || self is DoorClosed
    }

    pub fn is_walkable(self) -> (b: bool)
        ensures
            b == self.spec_walkable(),
    {
        match self {
            Terrain::Wall | Terrain::Void => false,
            _ => true,
        }
    }

    pub fn blocks_vision(self) -> (b: bool)
        ensures
            b == self.spec_blocks_vision(),
    {
        match self {
            Terrain::Wall | Terrain::DoorClosed | Terrain::Void => true,
            _ => false,
        }
    }
}

/// Furniture that can stand on a floor cell.
#[derive(Clone, Copy, Debug, PartialEq, Eq, Structural)]
pub enum Furniture {
    Chair,
    Table,
    Bed,
    Shelf,
    TrashBin,
}

impl Furniture {
    /// Tall furniture (shelves, beds) blocks line of sight.
    pub fn blocks_vision(self) -> (b: bool)
        ensures
            b <==> (self is Shelf || self is Bed),
    {
        match self {
            Furniture::Shelf | Furniture::Bed => true,
            _ => false,
        }
    }
}

/// One map tile: terrain plus optional furniture.
#[derive(Clone, Copy, Debug)]
pub struct Cell {
    pub terrain: Terrain,
    pub furniture: Option<Furniture>,
}

impl Cell {
    /// A cell is walkable exactly when its terrain is.
    pub fn is_walkable(&self) -> (b: bool)
        ensures
            b == self.terrain.spec_walkable(),
    {
        self.terrain.is_walkable()
    }

    /// A plain floor cell without furniture.
    pub fn floor() -> (c: Cell)
        ensures
            c.terrain == Terrain::Floor,
            c.furniture is None,
    {
        Cell { terrain: Terrain::Floor, furniture: None }
    }
}

impl Default for Cell {
    fn default() -> (c: Cell)
        ensures
            c.terrain == Terrain::Floor,
            c.furniture is None,
    {
        Cell { terrain: Terrain::Floor, furniture: None }
    }
}

// ---------------------------------------------------------------------------
// Grid geometry
// ---------------------------------------------------------------------------

/// A map of `w * h` cells in row-major order whose size fits the signed
/// 32-bit coordinates used by callers.
pub open spec fn grid_ok(map: Seq<Cell>, w: int, h: int) -> bool {
    &&& 0 <= w
    &&& 0 <= h
    &&& map.len() == w * h
    &&& w * h <= i32::MAX
}

/// `(x, y)` lies on a `w` by `h` grid.
pub open spec fn in_grid(x: int, y: int, w: int, h: int) -> bool {
    0 <= x < w && 0 <= y < h
}

/// Row-major flat index of `(x, y)`.
pub open spec fn flat(x: int, y: int, w: int) -> int {
    y * w + x
}

/// `(x, y)` is on the grid and its terrain is walkable.
pub open spec fn open_at(map: Seq<Cell>, w: int, h: int, x: int, y: int) -> bool {
    in_grid(x, y, w, h) && map[flat(x, y, w)].terrain.spec_walkable()
}

/// Two positions are one cardinal step apart.
pub open spec fn adjacent(a: (int, int), b: (int, int)) -> bool {
    (a.0 == b.0 && (a.1 - b.1 == 1 || b.1 - a.1 == 1))
    || (a.1 == b.1 && (a.0 - b.0 == 1 || b.0 - a.0 == 1))
}

/// Widen an `i32` position to mathematical integers.
pub open spec fn ipos(p: (i32, i32)) -> (int, int) {
    (p.0 as int, p.1 as int)
}

/// A cardinal walk: consecutive positions are adjacent and every position
/// after the first is walkable (the walker may start anywhere).
pub open spec fn is_walk(map: Seq<Cell>, w: int, h: int, p: Seq<(int, int)>) -> bool {
    &&& p.len() >= 1
    &&& forall|i: int| 1 <= i < p.len() ==> #[trigger] open_at(map, w, h, p[i].0, p[i].1)
    &&& forall|i: int| 1 <= i < p.len() ==> adjacent(p[i - 1], #[trigger] p[i])
}

/// `to` can be reached from `from` by a cardinal walk.
pub open spec fn reachable(map: Seq<Cell>, w: int, h: int, from: (int, int), to: (int, int)) -> bool {
    exists|p: Seq<(int, int)>| #[trigger] is_walk(map, w, h, p) && p[0] == from && p.last() == to
}

/// Position of flat index `i` on a grid of width `w`.
pub open spec fn cpos(i: int, w: int) -> (int, int) {
    (i % w, i / w)
}

/// Flat indices reachable by a cardinal walk from flat index `s`.
pub open spec fn reach_set(map: Seq<Cell>, w: int, h: int, s: int) -> Set<int> {
    Set::new(|c: int| 0 <= c < w * h && reachable(map, w, h, cpos(s, w), cpos(c, w)))
}

/// Flat indices of walkable cells.
pub open spec fn walkable_set(map: Seq<Cell>, w: int, h: int) -> Set<int> {
    Set::new(|c: int| 0 <= c < w * h && map[c].terrain.spec_walkable())
}

/// Every walkable cell can be reached from every other walkable cell.
pub open spec fn floor_connected(map: Seq<Cell>, w: int, h: int) -> bool {
    forall|a: (int, int), b: (int, int)|
        #[trigger] open_at(map, w, h, a.0, a.1) && #[trigger] open_at(map, w, h, b.0, b.1)
        ==> reachable(map, w, h, a, b)
}

/// Appending a walkable neighbour extends a walk.
pub proof fn lemma_walk_push(map: Seq<Cell>, w: int, h: int, p: Seq<(int, int)>, q: (int, int))
    requires
        is_walk(map, w, h, p),
        open_at(map, w, h, q.0, q.1),
        adjacent(p.last(), q),
    ensures
        is_walk(map, w, h, p.push(q)),
        p.push(q)[0] == p[0],
        p.push(q).last() == q,
{
    let r = p.push(q);
    assert forall|i: int| 1 <= i < r.len() implies #[trigger] open_at(map, w, h, r[i].0, r[i].1) by {
        if i < p.len() {
            assert(r[i] == p[i]);
        }
    }
    assert forall|i: int| 1 <= i < r.len() implies adjacent(r[i - 1], #[trigger] r[i]) by {
        if i < p.len() {
            assert(r[i] == p[i]);
            assert(r[i - 1] == p[i - 1]);
        }
    }
}

/// Reachability extends by one walkable neighbour.
pub proof fn lemma_reach_step(map: Seq<Cell>, w: int, h: int, a: (int, int), b: (int, int), c: (int, int))
    requires
        reachable(map, w, h, a, b),
        open_at(map, w, h, c.0, c.1),
        adjacent(b, c),
    ensures
        reachable(map, w, h, a, c),
{
    let p = choose|p: Seq<(int, int)>| #[trigger] is_walk(map, w, h, p) && p[0] == a && p.last() == b;
    lemma_walk_push(map, w, h, p, c);
    let r = p.push(c);
    assert(is_walk(map, w, h, r) && r[0] == a && r.last() == c);
}

/// Every position reaches itself.
pub proof fn lemma_reach_refl(map: Seq<Cell>, w: int, h: int, a: (int, int))
    ensures
        reachable(map, w, h, a, a),
{
    let p = seq![a];
    assert(is_walk(map, w, h, p));
}

/// Walks between walkable cells can be reversed.
pub proof fn lemma_reach_symm(map: Seq<Cell>, w: int, h: int, a: (int, int), b: (int, int))
    requires
        reachable(map, w, h, a, b),
        open_at(map, w, h, a.0, a.1),
    ensures
        reachable(map, w, h, b, a),
{
    let p = choose|p: Seq<(int, int)>| #[trigger] is_walk(map, w, h, p) && p[0] == a && p.last() == b;
    let r = p.reverse();
    let n = p.len();
    assert forall|i: int| 1 <= i < r.len() implies #[trigger] open_at(map, w, h, r[i].0, r[i].1) by {
        assert(r[i] == p[n - 1 - i]);
        if n - 1 - i >= 1 {
            assert(open_at(map, w, h, p[n - 1 - i].0, p[n - 1 - i].1));
        }
    }
    assert forall|i: int| 1 <= i < r.len() implies adjacent(r[i - 1], #[trigger] r[i]) by {
        assert(r[i] == p[n - 1 - i]);
        assert(r[i - 1] == p[n - i]);
        assert(adjacent(p[n - i - 1], p[n - i]));
    }
    assert(r[0] == b);
    assert(r.last() == a);
    assert(is_walk(map, w, h, r));
}

/// Reachability is transitive.
pub proof fn lemma_reach_trans(map: Seq<Cell>, w: int, h: int, a: (int, int), b: (int, int), c: (int, int))
    requires
        reachable(map, w, h, a, b),
        reachable(map, w, h, b, c),
    ensures
        reachable(map, w, h, a, c),
{
    let p = choose|p: Seq<(int, int)>| #[trigger] is_walk(map, w, h, p) && p[0] == a && p.last() == b;
    let q = choose|q: Seq<(int, int)>| #[trigger] is_walk(map, w, h, q) && q[0] == b && q.last() == c;
    let r = p + q.subrange(1, q.len() as int);
    let n = p.len();
    assert forall|i: int| 1 <= i < r.len() implies #[trigger] open_at(map, w, h, r[i].0, r[i].1) by {
        if i >= n {
            assert(r[i] == q[i - n + 1]);
        } else {
            assert(r[i] == p[i]);
        }
    }
    assert forall|i: int| 1 <= i < r.len() implies adjacent(r[i - 1], #[trigger] r[i]) by {
        if i > n {
            assert(r[i] == q[i - n + 1]);
            assert(r[i - 1] == q[i - n]);
        } else if i == n {
            assert(r[i] == q[1]);
            assert(r[i - 1] == p[n - 1]);
            assert(q[0] == p.last());
        } else {
            assert(r[i] == p[i]);
            assert(r[i - 1] == p[i - 1]);
        }
    }
    if q.len() == 1 {
        assert(r =~= p);
    }
    assert(r.last() == c);
    assert(is_walk(map, w, h, r));
}

/// A grid whose walkable cells are all reachable from one walkable cell is
/// connected, and conversely.
pub proof fn lemma_connected_from(map: Seq<Cell>, w: int, h: int, s: (int, int))
    requires
        open_at(map, w, h, s.0, s.1),
    ensures
        floor_connected(map, w, h) <==>
            (forall|c: (int, int)| #[trigger] open_at(map, w, h, c.0, c.1) ==> reachable(map, w, h, s, c)),
{
    if forall|c: (int, int)| #[trigger] open_at(map, w, h, c.0, c.1) ==> reachable(map, w, h, s, c) {
        assert forall|a: (int, int), b: (int, int)|
            #[trigger] open_at(map, w, h, a.0, a.1) && #[trigger] open_at(map, w, h, b.0, b.1)
            implies reachable(map, w, h, a, b) by {
            assert(reachable(map, w, h, s, a));
            assert(reachable(map, w, h, s, b));
            lemma_reach_symm(map, w, h, s, a);
            lemma_reach_trans(map, w, h, a, s, b);
        }
    }
}

/// The last position of a walk of length two or more is walkable.
pub proof fn lemma_reach_end_open(map: Seq<Cell>, w: int, h: int, a: (int, int), b: (int, int))
    requires
        reachable(map, w, h, a, b),
        a != b,
    ensures
        open_at(map, w, h, b.0, b.1),
{
    let p = choose|p: Seq<(int, int)>| #[trigger] is_walk(map, w, h, p) && p[0] == a && p.last() == b;
    assert(p.len() >= 2);
    assert(open_at(map, w, h, p[p.len() - 1].0, p[p.len() - 1].1));
}

/// A set of flat indices that contains every walkable neighbour of each of
/// its members.
pub open spec fn adj_closed(map: Seq<Cell>, w: int, h: int, s: Set<int>) -> bool {
    forall|c: int, n: int| #![trigger s.contains(c), s.contains(n)]
        s.contains(c) && 0 <= c < w * h && 0 <= n < w * h
        && adjacent(cpos(c, w), cpos(n, w)) && map[n].terrain.spec_walkable()
        ==> s.contains(n)
}

/// An adjacency-closed set containing a walk's start contains the whole walk.
pub proof fn lemma_closed_contains_walk(map: Seq<Cell>, w: int, h: int, s: Set<int>, p: Seq<(int, int)>, i: int)
    requires
        0 < w,
        0 <= h,
        map.len() == w * h,
        adj_closed(map, w, h, s),
        is_walk(map, w, h, p),
        in_grid(p[0].0, p[0].1, w, h),
        s.contains(flat(p[0].0, p[0].1, w)),
        0 <= i < p.len(),
    ensures
        in_grid(p[i].0, p[i].1, w, h),
        s.contains(flat(p[i].0, p[i].1, w)),
    decreases i,
{
    if i > 0 {
        lemma_closed_contains_walk(map, w, h, s, p, i - 1);
        assert(open_at(map, w, h, p[i].0, p[i].1));
        assert(adjacent(p[i - 1], p[i]));
        let c = flat(p[i - 1].0, p[i - 1].1, w);
        let n = flat(p[i].0, p[i].1, w);
        lemma_flat_in_range(p[i - 1].0, p[i - 1].1, w, h);
        lemma_flat_in_range(p[i].0, p[i].1, w, h);
        assert(cpos(c, w) == p[i - 1]);
        assert(cpos(n, w) == p[i]);
        assert(s.contains(c));
    }
}

/// An adjacency-closed set containing `a` contains every cell reachable from `a`.
pub proof fn lemma_closed_contains_reach(map: Seq<Cell>, w: int, h: int, s: Set<int>, a: int, c: int)
    requires
        0 < w,
        0 <= h,
        map.len() == w * h,
        adj_closed(map, w, h, s),
        0 <= a < w * h,
        s.contains(a),
        0 <= c < w * h,
        reachable(map, w, h, cpos(a, w), cpos(c, w)),
    ensures
        s.contains(c),
{
    lemma_unflat(a, w, h);
    lemma_unflat(c, w, h);
    let p = choose|p: Seq<(int, int)>| #[trigger] is_walk(map, w, h, p) && p[0] == cpos(a, w) && p.last() == cpos(c, w);
    lemma_closed_contains_walk(map, w, h, s, p, p.len() - 1);
}

/// Flat indices of on-grid cells are in range and distinct cells get
/// distinct indices.
pub proof fn lemma_flat_in_range(x: int, y: int, w: int, h: int)
    requires
        in_grid(x, y, w, h),
    ensures
        0 <= flat(x, y, w) < w * h,
        flat(x, y, w) / w == y,
        flat(x, y, w) % w == x,
{
    assert(0 <= y * w) by (nonlinear_arith)
        requires 0 <= y, 0 <= w;
    assert(y * w + x < w * h) by (nonlinear_arith)
        requires 0 <= x < w, 0 <= y < h;
    lemma_fundamental_div_mod_converse(y * w + x, w, y, x);
}

/// The cell with flat index `i` sits at `(i % w, i / w)`.
pub proof fn lemma_unflat(i: int, w: int, h: int)
    requires
        0 <= i < w * h,
        0 < w,
    ensures
        in_grid(i % w, i / w, w, h),
        flat(i % w, i / w, w) == i,
{
    vstd::arithmetic::div_mod::lemma_fundamental_div_mod(i, w);
    assert(0 <= i % w < w) by {
        vstd::arithmetic::div_mod::lemma_mod_bound(i, w);
    }
    assert(i / w >= 0) by {
        vstd::arithmetic::div_mod::lemma_div_pos_is_pos(i, w);
    }
    let q = i / w;
    let r = i % w;
    assert(i == w * q + r);
    assert(q < h) by (nonlinear_arith)
        requires i == w * q + r, 0 <= r, i < w * h, 0 < w;
    assert(w * (i / w) == (i / w) * w) by {
        vstd::arithmetic::mul::lemma_mul_is_commutative(w, i / w);
    }
}

/// Distinct on-grid positions have distinct flat indices.
pub proof fn lemma_flat_injective(x1: int, y1: int, x2: int, y2: int, w: int, h: int)
    requires
        in_grid(x1, y1, w, h),
        in_grid(x2, y2, w, h),
        flat(x1, y1, w) == flat(x2, y2, w),
    ensures
        x1 == x2,
        y1 == y2,
{
    lemma_flat_in_range(x1, y1, w, h);
    lemma_flat_in_range(x2, y2, w, h);
}

/// Convert on-grid `(x, y)` to a flat index.
pub fn idx(x: i32, y: i32, width: i32) -> (i: usize)
    requires
        0 <= x < width,
        0 <= y,
        y * width + x <= i32::MAX,
    ensures
        i == flat(x as int, y as int, width as int),
{
    proof {
        assert(0 <= y * width) by (nonlinear_arith)
            requires 0 <= y, 0 <= width;
    }
    (y * width + x) as usize
}

/// Flat index of an on-grid position of a well-formed grid.
pub fn grid_index(map: &[Cell], w: i32, h: i32, x: i32, y: i32) -> (i: usize)
    requires
        grid_ok(map@, w as int, h as int),
        in_grid(x as int, y as int, w as int, h as int),
    ensures
        i == flat(x as int, y as int, w as int),
        i < map@.len(),
{
    proof {
        lemma_flat_in_range(x as int, y as int, w as int, h as int);
    }
    idx(x, y, w)
}

/// Is `(x, y)` on the grid and walkable.
pub fn walkable_at(map: &[Cell], w: i32, h: i32, x: i32, y: i32) -> (b: bool)
    requires
        grid_ok(map@, w as int, h as int),
    ensures
        b == open_at(map@, w as int, h as int, x as int, y as int),
{
    if x < 0 || x >= w || y < 0 || y >= h {
        return false;
    }
    let i = grid_index(map, w, h, x, y);
    map[i].terrain.is_walkable()
}

/// A cell that a body cannot enter: off the grid or not walkable.
pub fn is_blocked(map: &[Cell], map_w: i32, map_h: i32, x: i32, y: i32) -> (b: bool)
    requires
        grid_ok(map@, map_w as int, map_h as int),
    ensures
        b == !open_at(map@, map_w as int, map_h as int, x as int, y as int),
{
    !walkable_at(map, map_w, map_h, x, y)
}

/// `(x, y)` is off the grid or void.
pub open spec fn void_or_off(map: Seq<Cell>, w: int, h: int, x: int, y: int) -> bool {
    !in_grid(x, y, w, h) || map[flat(x, y, w)].terrain == Terrain::Void
}

/// A wall tile on the outside of the building: some cardinal neighbour is
/// off the map or void.
pub open spec fn outer_wall(map: Seq<Cell>, w: int, h: int, x: int, y: int) -> bool {
    void_or_off(map, w, h, x - 1, y) || void_or_off(map, w, h, x + 1, y)
        || void_or_off(map, w, h, x, y - 1) || void_or_off(map, w, h, x, y + 1)
}

fn void_or_off_at(map: &[Cell], map_w: i32, map_h: i32, x: i64, y: i64) -> (b: bool)
    requires
        grid_ok(map@, map_w as int, map_h as int),
    ensures
        b == void_or_off(map@, map_w as int, map_h as int, x as int, y as int),
{
    if x < 0 || y < 0 || x >= map_w as i64 || y >= map_h as i64 {
        return true;
    }
    proof {
        lemma_flat_in_range(x as int, y as int, map_w as int, map_h as int);
    }
    map[idx(x as i32, y as i32, map_w)].terrain == Terrain::Void
}

/// Whether the tile at `(gx, gy)` borders the void or the map edge.
pub fn is_outer_wall(map: &[Cell], gx: i32, gy: i32, map_w: i32, map_h: i32) -> (b: bool)
    requires
        grid_ok(map@, map_w as int, map_h as int),
    ensures
        b == outer_wall(map@, map_w as int, map_h as int, gx as int, gy as int),
{
    let x = gx as i64;
    let y = gy as i64;
    void_or_off_at(map, map_w, map_h, x - 1, y) || void_or_off_at(map, map_w, map_h, x + 1, y)
        || void_or_off_at(map, map_w, map_h, x, y - 1) || void_or_off_at(map, map_w, map_h, x, y + 1)
}

} // verus!
