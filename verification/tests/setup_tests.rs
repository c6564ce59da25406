use brownshock::cell::{Cell, Terrain};
use brownshock::room::{Room, RoomKind};
use brownshock::setup::{
    paint_toilet_rooms, plan_npc_spawns, procedural_room_kinds, random_floor_in_room, room_center, shuffle, test_map,
    PatrolStop,
};

fn room(id: usize, kind: RoomKind, tiles: Vec<(i32, i32)>) -> Room {
    Room { id, tiles, door_subgoals: Vec::new(), kind, adjacent_rooms: Vec::new() }
}

fn row(s: &str) -> Vec<Cell> {
    s.chars()
        .map(|c| Cell { terrain: if c == '#' { Terrain::Wall } else { Terrain::Floor }, furniture: None })
        .collect()
}

#[test]
fn room_center_is_first_tile_nearest_the_mean() {
    let r = room(0, RoomKind::Normal, vec![(0, 0), (2, 0), (4, 0), (1, 1)]);
    assert_eq!(room_center(&r), (0, 0));
    let empty = room(0, RoomKind::Normal, vec![]);
    assert_eq!(room_center(&empty), (0, 0));
}

#[test]
fn room_center_rounds_the_mean_toward_zero() {
    // Mean x is -1.5: rounding toward zero gives -1, whose nearest tile is (0, 0).
    let r = room(0, RoomKind::Normal, vec![(-3, 0), (0, 0)]);
    assert_eq!(room_center(&r), (0, 0));
    let r = room(0, RoomKind::Normal, vec![(-3, -3), (-1, -1)]);
    assert_eq!(room_center(&r), (-3, -3));
}

#[test]
fn random_floor_picks_a_walkable_tile() {
    let map = row("#..");
    let r = room(0, RoomKind::Normal, vec![(0, 0), (1, 0), (2, 0)]);
    let mut rng: u32 = 1;
    // xorshift32(1) = 270369, odd: the second walkable tile.
    assert_eq!(random_floor_in_room(&r, &map, 3, &mut rng), (2, 0));
    assert_eq!(rng, 270369);
}

#[test]
fn random_floor_falls_back_to_the_centre() {
    let map = row("###");
    let r = room(0, RoomKind::Normal, vec![(0, 0), (1, 0), (2, 0)]);
    let mut rng: u32 = 7;
    assert_eq!(random_floor_in_room(&r, &map, 3, &mut rng), (1, 0));
    assert_eq!(rng, 7);
}

#[test]
fn shuffle_is_seeded_fisher_yates() {
    let mut v = vec![10, 20, 30];
    let mut rng: u32 = 1;
    shuffle(&mut v, &mut rng);
    assert_eq!(v, vec![30, 20, 10]);
    assert_eq!(rng, 67634689);
    let mut one = vec![5];
    let mut rng2: u32 = 9;
    shuffle(&mut one, &mut rng2);
    assert_eq!(one, vec![5]);
    assert_eq!(rng2, 9);
}

#[test]
fn shuffle_keeps_the_items() {
    let mut v: Vec<u32> = (0..20).collect();
    let mut rng: u32 = 0xDEAD_BEEF;
    shuffle(&mut v, &mut rng);
    let mut sorted = v.clone();
    sorted.sort();
    assert_eq!(sorted, (0..20).collect::<Vec<u32>>());
}

#[test]
fn fallback_map_layout() {
    let (map, w, h) = test_map();
    assert_eq!((w, h), (30, 20));
    assert_eq!(map.len(), 600);
    let t = |x: i32, y: i32| map[(y * w + x) as usize].terrain;
    assert_eq!(t(0, 0), Terrain::Wall);
    assert_eq!(t(29, 19), Terrain::Wall);
    assert_eq!(t(1, 1), Terrain::Floor);
    assert_eq!(t(9, 3), Terrain::Wall);
    assert_eq!(t(18, 7), Terrain::Wall);
    assert_eq!(t(10, 1), Terrain::Toilet);
    assert_eq!(t(17, 7), Terrain::Toilet);
    assert_eq!(t(4, 8), Terrain::DoorOpen);
    assert_eq!(t(6, 8), Terrain::Wall);
    assert_eq!(t(7, 12), Terrain::DoorOpen);
    assert_eq!(t(6, 12), Terrain::Wall);
    assert_eq!(t(15, 10), Terrain::Floor);
    assert_eq!(t(15, 15), Terrain::Floor);
    assert!(map.iter().all(|c| c.furniture.is_none()));
}

#[test]
fn procedural_mix() {
    assert_eq!(
        procedural_room_kinds(5),
        vec![RoomKind::Trash, RoomKind::Normal, RoomKind::Normal, RoomKind::Toilet, RoomKind::Normal]
    );
    assert_eq!(procedural_room_kinds(0), vec![RoomKind::Trash]);
    assert_eq!(procedural_room_kinds(1), vec![RoomKind::Trash]);
}

#[test]
fn toilet_rooms_get_toilet_floor() {
    let mut map = row("..#..");
    let rooms = vec![
        room(0, RoomKind::Toilet, vec![(0, 0), (1, 0), (2, 0)]),
        room(1, RoomKind::Normal, vec![(3, 0), (4, 0)]),
    ];
    paint_toilet_rooms(&mut map, 5, &rooms);
    let ts: Vec<Terrain> = map.iter().map(|c| c.terrain).collect();
    assert_eq!(ts, vec![Terrain::Toilet, Terrain::Toilet, Terrain::Wall, Terrain::Floor, Terrain::Floor]);
}

#[test]
fn npc_plan_on_a_small_map() {
    let map = row("......");
    let rooms = vec![
        room(0, RoomKind::Normal, vec![(0, 0), (1, 0)]),
        room(1, RoomKind::Toilet, vec![(2, 0), (3, 0)]),
        room(2, RoomKind::Normal, vec![(4, 0), (5, 0)]),
    ];
    let plan = plan_npc_spawns(&rooms, &map, 6, 1, 2);
    assert_eq!(plan.len(), 2);
    assert_eq!(plan[0].home_room, 0);
    assert_eq!(plan[0].home_tile, (0, 0));
    assert_eq!(plan[0].route, vec![PatrolStop::Home((0, 0)), PatrolStop::Toilet((2, 0))]);
    assert_eq!(plan[0].timer_seed, 479);
    assert_eq!(plan[1].home_room, 2);
    assert_eq!(plan[1].home_tile, (4, 0));
    assert_eq!(
        plan[1].route,
        vec![PatrolStop::Home((4, 0)), PatrolStop::Toilet((2, 0)), PatrolStop::Home((4, 0)), PatrolStop::Visit((0, 0))]
    );
    assert_eq!(plan[1].timer_seed, 722);
}

#[test]
fn npc_plan_caps_at_normal_rooms() {
    let map = row("....");
    let rooms = vec![room(0, RoomKind::Normal, vec![(0, 0), (1, 0)]), room(1, RoomKind::Trash, vec![(2, 0), (3, 0)])];
    let plan = plan_npc_spawns(&rooms, &map, 4, 1, 5);
    assert_eq!(plan.len(), 1);
    assert_eq!(plan[0].home_room, 0);
    assert_eq!(plan[0].route.len(), 2);
    assert_eq!(plan[0].route[1], PatrolStop::Trash((2, 0)));
    let none = plan_npc_spawns(&rooms[1..], &map, 4, 1, 5);
    assert!(none.is_empty());
}
