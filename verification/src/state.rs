//! Game-state vocabulary: quick-time keys, the game phase, and room-hop
//! distances over the room graph.

use vstd::prelude::*;
use crate::room::{Room, RoomKind, room_link, within_hops, lemma_hops_step, lemma_hops_refl, lemma_bfs_bound, bfs_ok,
    lemma_bfs_closed_below, lemma_bfs_push};
use crate::cell::{Cell, Terrain, grid_ok, in_grid, flat, lemma_flat_in_range, idx};
use crate::npc::{xorshift, xorshift32_next};

verus! {

/// A key the player must press in a quick-time event.
#[derive(Clone, Copy, Debug, PartialEq, Eq, Structural)]
pub enum QteKey {
    W,
    A,
    S,
    D,
}

impl QteKey {
    /// The key's caption.
    pub fn label(self) -> (s: &'static str)
        ensures
            s@ == (match self {
                QteKey::W => "W"@,
                QteKey::A => "A"@,
                QteKey::S => "S"@,
                QteKey::D => "D"@,
            }),
    {
        match self {
            QteKey::W => "W",
            QteKey::A => "A",
            QteKey::S => "S",
            QteKey::D => "D",
        }
    }
}

/// Whether the game is running or over.
#[derive(Clone, Copy, Debug, PartialEq, Eq, Structural)]
pub enum Phase {
    Playing,
    Win,
    Lose,
}

/// Breadth-first hop count between two rooms over the room links: `Some`
/// of the fewest links from `from` to `to`, or `None` when no walk joins
/// them.
/// The hop count and the room path agree: when both are found, the hop
/// count is the number of links of the path (`bfs_room_hops` and
/// `bfs_room_path` are also found on exactly the same room pairs, as both
/// answer whether any walk joins the rooms).
pub proof fn lemma_hops_match_path(rooms: Seq<crate::room::Room>, from: int, to: int, hc: int, p: Seq<usize>)
    requires
        within_hops(rooms, from, to, hc),
        !within_hops(rooms, from, to, hc - 1),
        crate::room::room_walk(rooms, p),
        p[0] as int == from,
        p.last() as int == to,
        !within_hops(rooms, from, to, p.len() - 2),
    ensures
        hc == p.len() - 1,
{
    assert(within_hops(rooms, from, to, p.len() - 1));
    if hc > p.len() - 1 {
        assert(within_hops(rooms, from, to, hc - 1));
    }
    if hc < p.len() - 1 {
        let q = choose|q: Seq<usize>| #[trigger] crate::room::room_walk(rooms, q) && q[0] as int == from
            && q.last() as int == to && q.len() <= hc + 1;
        assert(within_hops(rooms, from, to, p.len() - 2));
    }
}

#[verifier::rlimit(40)]
pub fn bfs_room_hops(from: usize, to: usize, rooms: &[Room]) -> (r: Option<u32>)
    requires
        rooms@.len() < u32::MAX,
    ensures
        r is Some <==> exists|k: int| #[trigger] within_hops(rooms@, from as int, to as int, k),
        r matches Some(hc) ==> within_hops(rooms@, from as int, to as int, hc as int)
            && !within_hops(rooms@, from as int, to as int, hc - 1),
{
    if from == to {
        proof {
            lemma_hops_refl(rooms@, from);
            assert(!within_hops(rooms@, from as int, to as int, -1));
        }
        return Some(0);
    }
    if from >= rooms.len() || to >= rooms.len() {
        proof {
            assert forall|k: int| !#[trigger] within_hops(rooms@, from as int, to as int, k) by {
                if within_hops(rooms@, from as int, to as int, k) {
                    let p = choose|p: Seq<usize>| #[trigger] crate::room::room_walk(rooms@, p) && p[0] as int == from
                        && p.last() as int == to && p.len() <= k + 1;
                    assert(room_link(rooms@, p[0] as int, p[1] as int));
                    assert(room_link(rooms@, p[p.len() - 2] as int, p[p.len() - 1] as int));
                }
            }
        }
        return None;
    }
    let n = rooms.len();
    let mut visited: Vec<bool> = vec![false; n];
    let mut queue: Vec<(usize, u32)> = Vec::new();
    visited.set(from, true);
    queue.push((from, 0));
    let ghost mut lvl: Seq<int> = Seq::new(n as nat, |i: int| 0int);
    let ghost mut slot: Seq<int> = Seq::new(n as nat, |i: int| 0int);
    let ghost mut cur: int = 0;
    let ghost mut vis_set: Set<int> = set![from as int];
    let ghost all_rooms: Set<int> = Set::new(|v: int| 0 <= v < n);
    proof {
        assert forall|v: int| 0 <= v < n && v != from implies !#[trigger] visited@[v] by {
            assert(cloned(false, visited@[v]));
        }
        lemma_hops_refl(rooms@, from);
        assert(bfs_ok(rooms@, from as int, to as int, visited@, queue@, lvl, slot, 0, cur));
    }
    let mut head: usize = 0;
    while head < queue.len()
        invariant
            n == rooms@.len(),
            n < u32::MAX,
            from < n,
            to < n,
            from != to,
            bfs_ok(rooms@, from as int, to as int, visited@, queue@, lvl, slot, head as int, cur),
            vis_set.finite(),
            vis_set.len() == queue@.len(),
            vis_set.subset_of(all_rooms),
            all_rooms == Set::new(|v: int| 0 <= v < n),
            forall|v: int| 0 <= v < n ==> (#[trigger] visited@[v] <==> vis_set.contains(v)),
        decreases n - head,
    {
        let (u, hops) = queue[head];
        let ghost old_cur = cur;
        proof {
            cur = hops as int;
            assert(queue@[head as int] == (u, hops));
            assert(bfs_ok(rooms@, from as int, to as int, visited@, queue@, lvl, slot, head as int, cur)) by {
                assert forall|j: int| 0 <= j < head implies (#[trigger] queue@[j]).1 <= cur by {
                    assert(queue@[j].1 <= old_cur);
                }
                assert forall|j: int| head <= j < queue@.len() implies cur <= (#[trigger] queue@[j]).1 <= cur + 1 by {
                    assert(queue@[head as int].1 <= queue@[j].1);
                }
            }
        }
        let adj = &rooms[u].adjacent_rooms;
        let mut k: usize = 0;
        while k < adj.len()
            invariant
                n == rooms@.len(),
                n < u32::MAX,
                from < n,
                to < n,
                from != to,
                head < queue@.len(),
                queue@[head as int] == (u, hops),
                cur == hops,
                old_cur <= cur <= old_cur + 1,
                adj@ == rooms@[u as int].adjacent_rooms@,
                k <= adj@.len(),
                bfs_ok(rooms@, from as int, to as int, visited@, queue@, lvl, slot, head as int, cur),
                forall|kk: int| 0 <= kk < k && (#[trigger] adj@[kk]).0 < n ==>
                    visited@[adj@[kk].0 as int] && lvl[adj@[kk].0 as int] <= cur + 1,
                vis_set.finite(),
                vis_set.len() == queue@.len(),
                vis_set.subset_of(all_rooms),
                all_rooms == Set::new(|v: int| 0 <= v < n),
                forall|v: int| 0 <= v < n ==> (#[trigger] visited@[v] <==> vis_set.contains(v)),
            decreases adj@.len() - k,
        {
            let (v, _) = adj[k];
            if v >= n || visited[v] {
                k = k + 1;
                continue;
            }
            proof {
                assert(room_link(rooms@, u as int, v as int)) by {
                    assert(rooms@[u as int].adjacent_rooms@[k as int].0 as int == v);
                }
                lemma_hops_step(rooms@, from as int, u as int, v as int, hops as int);
            }
            if v == to {
                proof {
                    if within_hops(rooms@, from as int, to as int, hops as int) {
                        lemma_bfs_closed_below(rooms@, from as int, to as int, visited@, queue@, lvl, slot, head as int, cur, hops as int);
                        lemma_bfs_bound(rooms@, from as int, visited@, lvl, hops as int, to as int, hops as int);
                    }
                }
                return Some(hops + 1);
            }
            proof {
                assert(!vis_set.contains(v as int));
                vstd::set_lib::lemma_int_range(0, n as int);
                assert(all_rooms =~= vstd::set_lib::set_int_range(0, n as int));
                vstd::set_lib::lemma_len_subset(vis_set.insert(v as int), all_rooms);
            }
            let ghost q0 = queue@;
            let ghost vis0 = visited@;
            visited.set(v, true);
            queue.push((v, hops + 1));
            proof {
                lemma_bfs_push(rooms@, from as int, to as int, vis0, q0, lvl, slot, head as int, cur, v);
                vis_set = vis_set.insert(v as int);
                lvl = lvl.update(v as int, hops + 1);
                slot = slot.update(v as int, q0.len() as int);
                assert forall|kk: int| 0 <= kk < k + 1 && (#[trigger] adj@[kk]).0 < n implies
                    visited@[adj@[kk].0 as int] && lvl[adj@[kk].0 as int] <= cur + 1 by {
                    if kk < k {
                        assert(vis0[adj@[kk].0 as int]);
                    }
                }
            }
            k = k + 1;
        }
        proof {
            assert(bfs_ok(rooms@, from as int, to as int, visited@, queue@, lvl, slot, head + 1, cur)) by {
                assert forall|j: int, x: int| 0 <= j < head + 1 && #[trigger] room_link(rooms@, queue@[j].0 as int, x)
                    implies visited@[x] && lvl[x] <= (#[trigger] queue@[j]).1 + 1 by {
                    if j == head {
                        let kk = choose|kk: int| 0 <= kk < rooms@[u as int].adjacent_rooms@.len()
                            && (#[trigger] rooms@[u as int].adjacent_rooms@[kk]).0 as int == x;
                        assert(adj@[kk].0 < n);
                    }
                }
                assert forall|j: int| 0 <= j < head + 1 implies (#[trigger] queue@[j]).1 <= cur by {
                    if j < head {
                        assert(queue@[j].1 <= cur);
                    }
                }
            }
        }
        head = head + 1;
    }
    proof {
        assert forall|k: int| !#[trigger] within_hops(rooms@, from as int, to as int, k) by {
            if within_hops(rooms@, from as int, to as int, k) {
                lemma_bfs_closed_below(rooms@, from as int, to as int, visited@, queue@, lvl, slot, head as int, cur, k);
                assert(queue@[0] == (from, 0u32));
                lemma_bfs_bound(rooms@, from as int, visited@, lvl, k, to as int, k);
            }
        }
    }
    None
}

/// What a key press did to a quick-time round.
#[derive(Clone, Copy, Debug, PartialEq, Eq, Structural)]
pub enum QtePress {
    /// The round is flashing its failure; presses wait for the retry.
    Ignored,
    /// The expected key: the round advanced.
    Correct,
    /// Any other key: the round failed.
    Wrong,
}

/// What the round needs next.
#[derive(Clone, Copy, Debug, PartialEq, Eq, Structural)]
pub enum QteStep {
    /// A failed round is flashing before its retry.
    Flash,
    /// Keys are still due in the running round.
    Timing,
    /// The round is done and more rounds are needed.
    NewRound,
    /// The round is done and so is the session.
    SessionDone,
}

/// Key and round progress of a quick-time session (its timers live with
/// the caller).
pub struct QteRound {
    /// Current round's key sequence.
    pub sequence: Vec<QteKey>,
    /// Keys completed in the current round.
    pub progress: usize,
    /// Successful rounds completed.
    pub rounds_completed: u32,
    /// Rounds needed for the session.
    pub rounds_needed: u32,
    /// The current round failed and waits for its retry.
    pub round_failed: bool,
}

impl QteRound {
    /// Feed a key press: ignored while a failed round flashes; the expected
    /// key advances the round (finishing it counts a completed round); any
    /// other key fails the round.
    pub fn press(&mut self, key: QteKey) -> (r: QtePress)
        requires
            old(self).round_failed || old(self).progress < old(self).sequence@.len(),
            !old(self).round_failed && old(self).progress + 1 >= old(self).sequence@.len()
                ==> old(self).rounds_completed < u32::MAX,
        ensures
            final(self).sequence@ == old(self).sequence@,
            final(self).rounds_needed == old(self).rounds_needed,
            old(self).round_failed ==> r == QtePress::Ignored
                && final(self).progress == old(self).progress
                && final(self).rounds_completed == old(self).rounds_completed
                && final(self).round_failed,
            !old(self).round_failed && key == old(self).sequence@[old(self).progress as int] ==> r == QtePress::Correct
                && final(self).progress == old(self).progress + 1
                && final(self).rounds_completed == old(self).rounds_completed
                    + (if old(self).progress + 1 >= old(self).sequence@.len() { 1int } else { 0int })
                && !final(self).round_failed,
            !old(self).round_failed && key != old(self).sequence@[old(self).progress as int] ==> r == QtePress::Wrong
                && final(self).progress == old(self).progress
                && final(self).rounds_completed == old(self).rounds_completed
                && final(self).round_failed,
    {
        if self.round_failed {
            return QtePress::Ignored;
        }
        let n = self.sequence.len();
        let expected = self.sequence[self.progress];
        if key == expected {
            self.progress = self.progress + 1;
            if self.progress >= n {
                self.rounds_completed = self.rounds_completed + 1;
            }
            QtePress::Correct
        } else {
            self.round_failed = true;
            QtePress::Wrong
        }
    }

    /// The round's next need: flash a failure, keep timing keys, start a
    /// new round, or end the session once enough rounds are done.
    pub fn next_step(&self) -> (s: QteStep)
        ensures
            s == (if self.round_failed {
                QteStep::Flash
            } else if self.progress >= self.sequence@.len() {
                if self.rounds_completed >= self.rounds_needed { QteStep::SessionDone } else { QteStep::NewRound }
            } else {
                QteStep::Timing
            }),
    {
        if self.round_failed {
            QteStep::Flash
        } else if self.progress >= self.sequence.len() {
            if self.rounds_completed >= self.rounds_needed { QteStep::SessionDone } else { QteStep::NewRound }
        } else {
            QteStep::Timing
        }
    }
}

/// The xorshift32 state after `k` steps from `x`.
pub open spec fn xs_iter(x: u32, k: nat) -> u32
    decreases k,
{
    if k == 0 { x } else { xorshift32_next(xs_iter(x, (k - 1) as nat)) }
}

/// The key a random value picks: W, A, S, D by the value modulo 4.
pub open spec fn key_of(v: u32) -> QteKey {
    let m = v % 4;
    if m == 0 { QteKey::W } else if m == 1 { QteKey::A } else if m == 2 { QteKey::S } else { QteKey::D }
}

/// A random round of `len` keys, one xorshift step per key.
pub fn random_key_sequence(rng: &mut u32, len: u32) -> (seq: Vec<QteKey>)
    ensures
        seq@.len() == len,
        forall|i: int| 0 <= i < len ==> #[trigger] seq@[i] == key_of(xs_iter(*old(rng), (i + 1) as nat)),
        *final(rng) == xs_iter(*old(rng), len as nat),
{
    let keys: [QteKey; 4] = [QteKey::W, QteKey::A, QteKey::S, QteKey::D];
    let ghost r0 = *rng;
    let mut seq: Vec<QteKey> = Vec::new();
    let mut i: u32 = 0;
    while i < len
        invariant
            i <= len,
            seq@.len() == i,
            *rng == xs_iter(r0, i as nat),
            keys@ == seq![QteKey::W, QteKey::A, QteKey::S, QteKey::D],
            forall|j: int| 0 <= j < i ==> #[trigger] seq@[j] == key_of(xs_iter(r0, (j + 1) as nat)),
        decreases len - i,
    {
        let v = xorshift(rng);
        let k = keys[(v % 4) as usize];
        proof {
            assert(v == xs_iter(r0, (i + 1) as nat));
            assert(k == key_of(v));
        }
        seq.push(k);
        i = i + 1;
    }
    seq
}

/// The top-left cell of a 2×2 block of plain floor whose top-left cell lies
/// in a normal room.
pub open spec fn star_spot(map: Seq<Cell>, w: int, h: int, t2r: Seq<usize>, rooms: Seq<Room>, x: int, y: int) -> bool {
    &&& 0 <= x < w - 1
    &&& 0 <= y < h - 1
    &&& map[flat(x, y, w)].terrain == Terrain::Floor
    &&& map[flat(x + 1, y, w)].terrain == Terrain::Floor
    &&& map[flat(x, y + 1, w)].terrain == Terrain::Floor
    &&& map[flat(x + 1, y + 1, w)].terrain == Terrain::Floor
    &&& t2r[flat(x, y, w)] != usize::MAX
    &&& (t2r[flat(x, y, w)] as int) < rooms.len()
    &&& rooms[t2r[flat(x, y, w)] as int].kind == RoomKind::Normal
}

/// Every star spot in row-major order.
pub fn star_candidates(map: &[Cell], w: i32, h: i32, tile_to_room: &[usize], rooms: &[Room]) -> (c: Vec<(i32, i32)>)
    requires
        grid_ok(map@, w as int, h as int),
        tile_to_room@.len() == w * h,
    ensures
        forall|k: int| 0 <= k < c@.len() ==> star_spot(map@, w as int, h as int, tile_to_room@, rooms@,
            (#[trigger] c@[k]).0 as int, c@[k].1 as int),
        forall|x: int, y: int| #[trigger] star_spot(map@, w as int, h as int, tile_to_room@, rooms@, x, y) ==>
            exists|k: int| 0 <= k < c@.len() && c@[k] == (x as i32, y as i32),
        forall|k1: int, k2: int| 0 <= k1 < k2 < c@.len() ==>
            flat((#[trigger] c@[k1]).0 as int, c@[k1].1 as int, w as int) < flat((#[trigger] c@[k2]).0 as int, c@[k2].1 as int, w as int),
{
    let ghost wi = w as int;
    let ghost hi = h as int;
    let mut c: Vec<(i32, i32)> = Vec::new();
    let mut y: i32 = 0;
    while y < h - 1
        invariant
            grid_ok(map@, wi, hi),
            wi == w,
            hi == h,
            tile_to_room@.len() == wi * hi,
            0 <= y,
            y <= h - 1 || h == 0,
            forall|k: int| 0 <= k < c@.len() ==> star_spot(map@, wi, hi, tile_to_room@, rooms@,
                (#[trigger] c@[k]).0 as int, c@[k].1 as int) && (c@[k].1 as int) < y,
            forall|xx: int, yy: int| #[trigger] star_spot(map@, wi, hi, tile_to_room@, rooms@, xx, yy) && yy < y ==>
                exists|k: int| 0 <= k < c@.len() && c@[k] == (xx as i32, yy as i32),
            forall|k1: int, k2: int| 0 <= k1 < k2 < c@.len() ==>
                flat((#[trigger] c@[k1]).0 as int, c@[k1].1 as int, wi) < flat((#[trigger] c@[k2]).0 as int, c@[k2].1 as int, wi),
        decreases h - y,
    {
        let mut x: i32 = 0;
        proof {
            assert forall|k: int| 0 <= k < c@.len() implies
                flat(c@[k].0 as int, c@[k].1 as int, wi) < flat(0, y as int, wi) by {
                let p = c@[k];
                assert(star_spot(map@, wi, hi, tile_to_room@, rooms@, p.0 as int, p.1 as int));
                assert(flat(p.0 as int, p.1 as int, wi) < flat(0, y as int, wi)) by (nonlinear_arith)
                    requires 0 <= p.0 < wi, 0 <= p.1, p.1 + 1 <= y;
            }
        }
        while x < w - 1
            invariant
                grid_ok(map@, wi, hi),
                wi == w,
                hi == h,
                tile_to_room@.len() == wi * hi,
                0 <= y < h - 1,
                0 <= x,
                x <= w - 1 || x == 0,
                forall|k: int| 0 <= k < c@.len() ==> star_spot(map@, wi, hi, tile_to_room@, rooms@,
                    (#[trigger] c@[k]).0 as int, c@[k].1 as int)
                    && flat(c@[k].0 as int, c@[k].1 as int, wi) < flat(x as int, y as int, wi),
                forall|xx: int, yy: int| #[trigger] star_spot(map@, wi, hi, tile_to_room@, rooms@, xx, yy)
                    && (yy < y || (yy == y && xx < x)) ==>
                    exists|k: int| 0 <= k < c@.len() && c@[k] == (xx as i32, yy as i32),
                forall|k1: int, k2: int| 0 <= k1 < k2 < c@.len() ==>
                    flat((#[trigger] c@[k1]).0 as int, c@[k1].1 as int, wi) < flat((#[trigger] c@[k2]).0 as int, c@[k2].1 as int, wi),
            decreases w - x,
        {
            proof {
                lemma_flat_in_range(x as int, y as int, wi, hi);
                lemma_flat_in_range(x + 1, y as int, wi, hi);
                lemma_flat_in_range(x as int, y + 1, wi, hi);
                lemma_flat_in_range(x + 1, y + 1, wi, hi);
            }
            let all_floor = map[idx(x, y, w)].terrain == Terrain::Floor
                && map[idx(x + 1, y, w)].terrain == Terrain::Floor
                && map[idx(x, y + 1, w)].terrain == Terrain::Floor
                && map[idx(x + 1, y + 1, w)].terrain == Terrain::Floor;
            if all_floor {
                let ri = tile_to_room[idx(x, y, w)];
                if ri != usize::MAX && ri < rooms.len() && rooms[ri].kind == RoomKind::Normal {
                    let ghost c0 = c@;
                    c.push((x, y));
                    proof {
                        assert forall|xx: int, yy: int| #[trigger] star_spot(map@, wi, hi, tile_to_room@, rooms@, xx, yy)
                            && (yy < y || (yy == y && xx < x + 1)) implies
                            exists|k: int| 0 <= k < c@.len() && c@[k] == (xx as i32, yy as i32) by {
                            if yy == y && xx == x {
                                assert(c@[c0.len() as int] == (xx as i32, yy as i32));
                            } else {
                                let k = choose|k: int| 0 <= k < c0.len() && c0[k] == (xx as i32, yy as i32);
                                assert(c@[k] == c0[k]);
                            }
                        }
                    }
                }
            }
            proof {
                assert(flat(x as int, y as int, wi) < flat(x + 1, y as int, wi));
            }
            x = x + 1;
        }
        proof {
            assert(flat(wi - 1, y as int, wi) < flat(0, y + 1, wi)) by (nonlinear_arith);
            assert forall|k: int| 0 <= k < c@.len() implies (c@[k].1 as int) < y + 1 by {
                let p = c@[k];
                if p.1 as int > y {
                    assert(flat(p.0 as int, p.1 as int, wi) >= flat(0, y + 1, wi)) by (nonlinear_arith)
                        requires 0 <= p.0, p.1 >= y + 1, 0 <= wi;
                }
            }
        }
        y = y + 1;
    }
    c
}

/// Pick the star spot: `None` without candidates, else the candidate at
/// the next random value modulo their count.
pub fn pick_star(candidates: &Vec<(i32, i32)>, rng: &mut u32) -> (r: Option<(i32, i32)>)
    ensures
        candidates@.len() == 0 ==> r is None && *final(rng) == *old(rng),
        candidates@.len() > 0 ==> r == Some(candidates@[(xorshift32_next(*old(rng)) as int) % (candidates@.len() as int)])
            && *final(rng) == xorshift32_next(*old(rng)),
{
    if candidates.len() == 0 {
        return None;
    }
    let v = xorshift(rng);
    Some(candidates[(v as usize) % candidates.len()])
}

/// Whether `tile` lies in the 2x2 star area whose top-left corner is `star`.
pub fn is_on_star(star: Option<(i32, i32)>, tile: (i32, i32)) -> (b: bool)
    ensures
        b <==> (star matches Some(s) && s.0 <= tile.0 <= s.0 + 1 && s.1 <= tile.1 <= s.1 + 1),
{
    match star {
        Some((sx, sy)) => tile.0 >= sx && tile.0 as i64 <= sx as i64 + 1 && tile.1 >= sy && tile.1 as i64 <= sy as i64 + 1,
        None => false,
    }
}

/// Search order of the spawn scan around the centre `(cx, cy)`: ring
/// distance first, then row offset, then column offset.
pub open spec fn ring_key(x: int, y: int, cx: int, cy: int) -> (int, int, int) {
    let dx = x - cx;
    let dy = y - cy;
    (vstd::math::max(vstd::math::abs(dx) as int, vstd::math::abs(dy) as int), dy, dx)
}

/// `a` comes before `b` in lexicographic order.
pub open spec fn key_less(a: (int, int, int), b: (int, int, int)) -> bool {
    a.0 < b.0 || (a.0 == b.0 && (a.1 < b.1 || (a.1 == b.1 && a.2 < b.2)))
}

/// A plain floor cell on the grid.
pub open spec fn floor_at(map: Seq<Cell>, w: int, h: int, x: int, y: int) -> bool {
    in_grid(x, y, w, h) && map[flat(x, y, w)].terrain == Terrain::Floor
}

/// The player's spawn cell: the floor cell nearest the map centre in rings
/// of growing distance (within a ring by row, then column), or `None` on a
/// map without floor.
pub fn walkable_start_tile(map: &[Cell], w: i32, h: i32) -> (r: Option<(i32, i32)>)
    requires
        grid_ok(map@, w as int, h as int),
    ensures
        r matches Some(p) ==> floor_at(map@, w as int, h as int, p.0 as int, p.1 as int)
            && forall|x: int, y: int| #[trigger] floor_at(map@, w as int, h as int, x, y) ==>
                !key_less(ring_key(x, y, (w / 2) as int, (h / 2) as int), ring_key(p.0 as int, p.1 as int, (w / 2) as int, (h / 2) as int)),
        r is None ==> forall|x: int, y: int| !#[trigger] floor_at(map@, w as int, h as int, x, y),
{
    let ghost wi = w as int;
    let ghost hi = h as int;
    let cx = w / 2;
    let cy = h / 2;
    let ghost cxi = cx as int;
    let ghost cyi = cy as int;
    let rmax = if w > h { w } else { h };
    let mut radius: i32 = 0;
    while radius < rmax
        invariant
            grid_ok(map@, wi, hi),
            wi == w,
            hi == h,
            cx == w / 2,
            cy == h / 2,
            cxi == cx,
            cyi == cy,
            rmax == vstd::math::max(wi, hi),
            0 <= radius <= rmax,
            forall|x: int, y: int| #[trigger] floor_at(map@, wi, hi, x, y) ==> ring_key(x, y, cxi, cyi).0 >= radius,
        decreases rmax - radius,
    {
        let mut dy: i32 = -radius;
        while dy <= radius
            invariant
                grid_ok(map@, wi, hi),
                wi == w,
                hi == h,
                cxi == cx,
                cyi == cy,
                cx == w / 2,
                cy == h / 2,
                rmax == vstd::math::max(wi, hi),
                0 <= radius < rmax,
                -radius <= dy <= radius + 1,
                forall|x: int, y: int| #[trigger] floor_at(map@, wi, hi, x, y) ==>
                    !key_less(ring_key(x, y, cxi, cyi), (radius as int, dy as int, -radius - 1)),
            decreases radius + 1 - dy,
        {
            let mut dx: i32 = -radius;
            while dx <= radius
                invariant
                    grid_ok(map@, wi, hi),
                    wi == w,
                    hi == h,
                    cxi == cx,
                    cyi == cy,
                    cx == w / 2,
                    cy == h / 2,
                    rmax == vstd::math::max(wi, hi),
                    0 <= radius < rmax,
                    -radius <= dy <= radius,
                    -radius <= dx <= radius + 1,
                    forall|x: int, y: int| #[trigger] floor_at(map@, wi, hi, x, y) ==>
                        !key_less(ring_key(x, y, cxi, cyi), (radius as int, dy as int, dx as int)),
                decreases radius + 1 - dx,
            {
                let on_ring = dx == radius || dx == -radius || dy == radius || dy == -radius;
                if on_ring {
                    let x64 = cx as i64 + dx as i64;
                    let y64 = cy as i64 + dy as i64;
                    if x64 >= 0 && x64 < w as i64 && y64 >= 0 && y64 < h as i64 {
                        let x = x64 as i32;
                        let y = y64 as i32;
                        proof {
                            lemma_flat_in_range(x as int, y as int, wi, hi);
                        }
                        if map[idx(x, y, w)].terrain == Terrain::Floor {
                            proof {
                                assert(ring_key(x as int, y as int, cxi, cyi) == (radius as int, dy as int, dx as int));
                            }
                            return Some((x, y));
                        }
                    }
                    proof {
                        assert(!floor_at(map@, wi, hi, cx + dx, cy + dy));
                        assert(ring_key(cx + dx, cy + dy, cxi, cyi) == (radius as int, dy as int, dx as int));
                    }
                } else {
                    proof {
                        assert(vstd::math::max(vstd::math::abs(dx as int) as int, vstd::math::abs(dy as int) as int) < radius);
                        assert(!floor_at(map@, wi, hi, cx + dx, cy + dy));
                    }
                }
                dx = dx + 1;
            }
            dy = dy + 1;
        }
        radius = radius + 1;
    }
    proof {
        assert forall|x: int, y: int| !#[trigger] floor_at(map@, wi, hi, x, y) by {
            if floor_at(map@, wi, hi, x, y) {
                assert(ring_key(x, y, cxi, cyi).0 < rmax);
            }
        }
    }
    None
}

} // verus!
