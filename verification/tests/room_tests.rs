use brownshock::cell::{Cell, Terrain};
use brownshock::chase::{bfs_room_path, expand_subgoal_path, find_tile_in_room, nearest_tile_in_room, pick_kaomoji};
use brownshock::room::{build_rooms, Room, RoomKind};
use brownshock::state::bfs_room_hops;
use brownshock::subgoal::build_subgoal_graph;

fn parse(rows: &[&str]) -> (Vec<Cell>, i32, i32) {
    let h = rows.len() as i32;
    let w = rows[0].len() as i32;
    let mut cells = Vec::new();
    for r in rows {
        for ch in r.chars() {
            let terrain = match ch {
                '#' => Terrain::Wall,
                'D' => Terrain::DoorOpen,
                'C' => Terrain::DoorClosed,
                'T' => Terrain::Toilet,
                ' ' => Terrain::Void,
                _ => Terrain::Floor,
            };
            cells.push(Cell { terrain, furniture: None });
        }
    }
    (cells, w, h)
}

fn two_rooms() -> (Vec<Cell>, i32, i32) {
    parse(&["##########", "#...#....#", "#...D....#", "#...#....#", "##########"])
}

fn room(id: usize, links: &[usize]) -> Room {
    Room {
        id,
        tiles: vec![(id as i32, 0)],
        door_subgoals: Vec::new(),
        kind: RoomKind::Normal,
        adjacent_rooms: links.iter().map(|&r| (r, (0, 0))).collect(),
    }
}

#[test]
fn rooms_are_door_bounded_regions() {
    let (map, w, h) = two_rooms();
    let sg = build_subgoal_graph(&map, w, h);
    let (rooms, t2r) = build_rooms(&map, w, h, &sg, &[]);
    assert_eq!(rooms.len(), 2);
    assert_eq!(rooms[0].id, 0);
    assert_eq!(rooms[1].id, 1);
    assert_eq!(rooms[0].tiles.len(), 9);
    assert_eq!(rooms[1].tiles.len(), 12);
    assert_eq!(rooms[0].tiles[0], (1, 1));
    assert_eq!(rooms[1].tiles[0], (5, 1));
    assert_eq!(t2r[(2 * w + 4) as usize], usize::MAX);
    assert_eq!(t2r[(2 * w + 2) as usize], 0);
    assert_eq!(t2r[(3 * w + 8) as usize], 1);
    assert_eq!(t2r[0], usize::MAX);
    assert_eq!(rooms[0].kind, RoomKind::Normal);
    assert_eq!(rooms[1].kind, RoomKind::Normal);
}

#[test]
fn rooms_link_through_their_door() {
    let (map, w, h) = two_rooms();
    let sg = build_subgoal_graph(&map, w, h);
    assert_eq!(sg.subgoals, vec![(3, 2), (5, 2)]);
    let (rooms, _) = build_rooms(&map, w, h, &sg, &[]);
    assert_eq!(rooms[0].door_subgoals, vec![0]);
    assert_eq!(rooms[1].door_subgoals, vec![1]);
    assert_eq!(rooms[0].adjacent_rooms, vec![(1, (3, 2))]);
    assert_eq!(rooms[1].adjacent_rooms, vec![(0, (5, 2))]);
}

#[test]
fn room_kind_votes_and_corridors() {
    let (map, w, h) = two_rooms();
    let sg = build_subgoal_graph(&map, w, h);
    let mut kinds: Vec<Option<RoomKind>> = vec![None; (w * h) as usize];
    for y in 1..4 {
        for x in 1..4 {
            kinds[(y * w + x) as usize] = Some(RoomKind::Toilet);
        }
    }
    kinds[(1 * w + 5) as usize] = Some(RoomKind::Trash);
    kinds[(1 * w + 6) as usize] = Some(RoomKind::Normal);
    let (rooms, _) = build_rooms(&map, w, h, &sg, &kinds);
    assert_eq!(rooms[0].kind, RoomKind::Toilet);
    // One trash vote ties one normal vote: the tie favours trash.
    assert_eq!(rooms[1].kind, RoomKind::Trash);

    let (hall, hw, hh) = parse(&["##########", "#........#", "##########"]);
    let hsg = build_subgoal_graph(&hall, hw, hh);
    let (hrooms, _) = build_rooms(&hall, hw, hh, &hsg, &[]);
    assert_eq!(hrooms.len(), 1);
    assert_eq!(hrooms[0].kind, RoomKind::Corridor);
}

#[test]
fn room_hops_are_shortest() {
    let rooms = vec![room(0, &[1]), room(1, &[0, 2]), room(2, &[1, 3]), room(3, &[2]), room(4, &[])];
    assert_eq!(bfs_room_hops(0, 3, &rooms), Some(3));
    assert_eq!(bfs_room_hops(3, 0, &rooms), Some(3));
    assert_eq!(bfs_room_hops(2, 2, &rooms), Some(0));
    assert_eq!(bfs_room_hops(0, 4, &rooms), None);
    assert_eq!(bfs_room_hops(0, 9, &rooms), None);
    let shortcut = vec![room(0, &[1, 3]), room(1, &[0, 2]), room(2, &[1, 3]), room(3, &[2, 0])];
    assert_eq!(bfs_room_hops(0, 3, &shortcut), Some(1));
    assert_eq!(bfs_room_hops(1, 3, &shortcut), Some(2));
}

#[test]
fn room_paths_are_shortest_walks() {
    let rooms = vec![room(0, &[1]), room(1, &[0, 2]), room(2, &[1, 3]), room(3, &[2]), room(4, &[])];
    assert_eq!(bfs_room_path(0, 3, &rooms), Some(vec![0, 1, 2, 3]));
    assert_eq!(bfs_room_path(2, 2, &rooms), Some(vec![2]));
    assert_eq!(bfs_room_path(0, 4, &rooms), None);
    let shortcut = vec![room(0, &[1, 3]), room(1, &[0, 2]), room(2, &[1, 3]), room(3, &[2, 0])];
    assert_eq!(bfs_room_path(0, 3, &shortcut), Some(vec![0, 3]));
    assert_eq!(bfs_room_path(1, 3, &shortcut), Some(vec![1, 0, 3]));
}

#[test]
fn nearest_tile_prefers_first_minimum() {
    let mut r = room(0, &[]);
    r.tiles = vec![(5, 5), (1, 1), (2, 2), (0, 1)];
    assert_eq!(nearest_tile_in_room(&r, (0, 0)), Some((0, 1)));
    r.tiles = vec![(1, 0), (0, 1)];
    assert_eq!(nearest_tile_in_room(&r, (0, 0)), Some((1, 0)));
    r.tiles = vec![];
    assert_eq!(nearest_tile_in_room(&r, (0, 0)), None);
}

#[test]
fn tile_beyond_a_door() {
    let (map, w, h) = two_rooms();
    let sg = build_subgoal_graph(&map, w, h);
    let (_, t2r) = build_rooms(&map, w, h, &sg, &[]);
    assert_eq!(find_tile_in_room((3, 2), 1, &t2r, &map, w, h), Some((5, 2)));
    assert_eq!(find_tile_in_room((5, 2), 0, &t2r, &map, w, h), Some((3, 2)));
    assert_eq!(find_tile_in_room((1, 1), 1, &t2r, &map, w, h), None);
}

#[test]
fn expanding_turning_points() {
    let (map, w, h) = parse(&["#######", "#.....#", "#.###.#", "#.....#", "#######"]);
    let full = expand_subgoal_path(&[(2, 1), (1, 1), (1, 3), (4, 3)], &map, w, h);
    assert_eq!(full, vec![(2, 1), (1, 1), (1, 2), (1, 3), (2, 3), (3, 3), (4, 3)]);
    assert_eq!(expand_subgoal_path(&[(2, 1)], &map, w, h), vec![(2, 1)]);
    assert_eq!(expand_subgoal_path(&[], &map, w, h), Vec::<(i32, i32)>::new());
    let (split, sw, sh) = parse(&["#####", "#.#.#", "#####"]);
    assert_eq!(expand_subgoal_path(&[(1, 1), (3, 1)], &split, sw, sh), Vec::<(i32, i32)>::new());
}

#[test]
fn expanding_falls_back_when_a_leg_is_cut_off() {
    // (3, 3) is walled in: the legs through it fail, so the whole walk is
    // searched from the first point to the last.
    let (map, w, h) = parse(&["#######", "#.....#", "#.###.#", "#.#.#.#", "#.###.#", "#.....#", "#######"]);
    let full = expand_subgoal_path(&[(1, 1), (3, 3), (5, 5)], &map, w, h);
    assert_eq!(full.len(), 9);
    assert_eq!(full.first(), Some(&(1, 1)));
    assert_eq!(full.last(), Some(&(5, 5)));
}

#[test]
fn kaomoji_pick_wraps() {
    let list = ["(>:O)", "(?_?)", "(-_-)"];
    assert_eq!(pick_kaomoji(&list, 7), "(?_?)");
    assert_eq!(pick_kaomoji(&list, 0), "(>:O)");
    assert_eq!(pick_kaomoji(&list, 5), "(-_-)");
}
