use brownshock::cell::{Cell, Terrain};
use brownshock::room::{build_rooms, RoomKind};
use brownshock::state::{is_on_star, pick_star, random_key_sequence, star_candidates, walkable_start_tile, QteKey, QtePress, QteRound, QteStep};
use brownshock::subgoal::build_subgoal_graph;

fn parse(rows: &[&str]) -> (Vec<Cell>, i32, i32) {
    let h = rows.len() as i32;
    let w = rows[0].len() as i32;
    let mut cells = Vec::new();
    for r in rows {
        for ch in r.chars() {
            let terrain = match ch {
                '#' => Terrain::Wall,
                'D' => Terrain::DoorOpen,
                'T' => Terrain::Toilet,
                ' ' => Terrain::Void,
                _ => Terrain::Floor,
            };
            cells.push(Cell { terrain, furniture: None });
        }
    }
    (cells, w, h)
}

fn round(seq: Vec<QteKey>) -> QteRound {
    QteRound { sequence: seq, progress: 0, rounds_completed: 0, rounds_needed: 2, round_failed: false }
}

#[test]
fn qte_presses() {
    let mut q = round(vec![QteKey::W, QteKey::A]);
    assert_eq!(q.next_step(), QteStep::Timing);
    assert_eq!(q.press(QteKey::W), QtePress::Correct);
    assert_eq!(q.progress, 1);
    assert_eq!(q.rounds_completed, 0);
    assert_eq!(q.press(QteKey::A), QtePress::Correct);
    assert_eq!(q.progress, 2);
    assert_eq!(q.rounds_completed, 1);
    assert_eq!(q.next_step(), QteStep::NewRound);
    q.rounds_completed = 2;
    assert_eq!(q.next_step(), QteStep::SessionDone);
}

#[test]
fn qte_wrong_key_fails_the_round() {
    let mut q = round(vec![QteKey::S, QteKey::D]);
    assert_eq!(q.press(QteKey::D), QtePress::Wrong);
    assert!(q.round_failed);
    assert_eq!(q.progress, 0);
    assert_eq!(q.next_step(), QteStep::Flash);
    assert_eq!(q.press(QteKey::S), QtePress::Ignored);
    assert_eq!(q.progress, 0);
}

#[test]
fn key_sequences_follow_the_generator() {
    let mut rng: u32 = 1;
    let seq = random_key_sequence(&mut rng, 3);
    assert_eq!(seq.len(), 3);
    // First xorshift32 value from 1 is 270369, which is 1 modulo 4.
    assert_eq!(seq[0], QteKey::A);
    let mut again: u32 = 1;
    assert_eq!(random_key_sequence(&mut again, 3), seq);
    assert_eq!(again, rng);
    let mut r0: u32 = 5;
    assert!(random_key_sequence(&mut r0, 0).is_empty());
    assert_eq!(r0, 5);
}

#[test]
fn star_spots_are_floor_blocks_in_normal_rooms() {
    let (map, w, h) = parse(&["######", "#...T#", "#....#", "######"]);
    let sg = build_subgoal_graph(&map, w, h);
    let (rooms, t2r) = build_rooms(&map, w, h, &sg, &[]);
    assert_eq!(rooms[0].kind, RoomKind::Corridor);
    assert!(star_candidates(&map, w, h, &t2r, &rooms).is_empty());

    let (room, rw, rh) = parse(&["######", "#...T#", "#....#", "#....#", "######"]);
    let rsg = build_subgoal_graph(&room, rw, rh);
    let (rrooms, rt2r) = build_rooms(&room, rw, rh, &rsg, &[]);
    assert_eq!(rrooms[0].kind, RoomKind::Normal);
    let c = star_candidates(&room, rw, rh, &rt2r, &rrooms);
    assert_eq!(c, vec![(1, 1), (2, 1), (1, 2), (2, 2), (3, 2)]);
    let mut rng: u32 = 1;
    assert_eq!(pick_star(&c, &mut rng), Some(c[270369 % 5]));
    let mut rng2: u32 = 9;
    assert_eq!(pick_star(&Vec::new(), &mut rng2), None);
    assert_eq!(rng2, 9);
}

#[test]
fn spawn_scans_rings_from_the_centre() {
    let (map, w, h) = parse(&["#####", "#...#", "#.#.#", "#...#", "#####"]);
    // The centre (2, 2) is a wall; ring 1 starts at row offset -1: (1, 1).
    assert_eq!(walkable_start_tile(&map, w, h), Some((1, 1)));
    let (open, ow, oh) = parse(&["#####", "#...#", "#...#", "#...#", "#####"]);
    assert_eq!(walkable_start_tile(&open, ow, oh), Some((2, 2)));
    let (walls, ww, wh) = parse(&["###", "#T#", "###"]);
    assert_eq!(walkable_start_tile(&walls, ww, wh), None);
}

#[test]
fn star_area_is_two_by_two() {
    assert!(is_on_star(Some((3, 4)), (3, 4)));
    assert!(is_on_star(Some((3, 4)), (4, 5)));
    assert!(!is_on_star(Some((3, 4)), (5, 4)));
    assert!(!is_on_star(Some((3, 4)), (3, 3)));
    assert!(!is_on_star(None, (3, 4)));
}
