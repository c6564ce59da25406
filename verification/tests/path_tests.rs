use brownshock::chase::{
    chase_route, door_between_rooms, effective_room, find_nearest_room_from_door, lost_sight_step, pick_next_room,
    ChasePhase, ChaseStep,
};
use brownshock::cell::{Cell, Terrain};
use brownshock::npc::{astar, xorshift};
use brownshock::sight::{line_of_sight, line_of_sight_thick, line_of_sight_vision, smooth_path};
use brownshock::subgoal::{build_subgoal_graph, cardinal_los};

fn parse(rows: &[&str]) -> (Vec<Cell>, i32, i32) {
    let h = rows.len() as i32;
    let w = rows[0].len() as i32;
    let mut cells = Vec::new();
    for r in rows {
        for ch in r.chars() {
            let terrain = match ch {
                '#' => Terrain::Wall,
                'D' => Terrain::DoorOpen,
                'C' => Terrain::DoorClosed,
                'T' => Terrain::Toilet,
                ' ' => Terrain::Void,
                _ => Terrain::Floor,
            };
            cells.push(Cell { terrain, furniture: None });
        }
    }
    (cells, w, h)
}

fn ring() -> (Vec<Cell>, i32, i32) {
    parse(&["#######", "#.....#", "#.###.#", "#.....#", "#######"])
}

fn is_walk(map: &[Cell], w: i32, p: &[(i32, i32)]) -> bool {
    for i in 0..p.len() {
        let (x, y) = p[i];
        if !map[(y * w + x) as usize].terrain.is_walkable() {
            return false;
        }
        if i > 0 {
            let (px, py) = p[i - 1];
            if (px - x).abs() + (py - y).abs() != 1 {
                return false;
            }
        }
    }
    true
}

#[test]
fn astar_finds_shortest_walk() {
    let (map, w, h) = ring();
    let p = astar(&map, w, h, (2, 1), (4, 3)).expect("reachable");
    assert_eq!(p.first(), Some(&(2, 1)));
    assert_eq!(p.last(), Some(&(4, 3)));
    assert_eq!(p.len(), 7);
    assert!(is_walk(&map, w, &p));
}

#[test]
fn astar_same_tile_and_unreachable() {
    let (map, w, h) = ring();
    assert_eq!(astar(&map, w, h, (3, 3), (3, 3)), Some(vec![(3, 3)]));
    let (split, sw, sh) = parse(&["#####", "#.#.#", "#####"]);
    assert_eq!(astar(&split, sw, sh, (1, 1), (3, 1)), None);
}

#[test]
fn xorshift_step() {
    let mut s: u32 = 1;
    let r = xorshift(&mut s);
    assert_eq!(r, 270369);
    assert_eq!(s, 270369);
}

#[test]
fn bresenham_walk_sight() {
    let (map, w, h) = ring();
    assert!(line_of_sight(&map, w, h, (1, 1), (5, 1)));
    assert!(line_of_sight(&map, w, h, (1, 1), (1, 3)));
    assert!(!line_of_sight(&map, w, h, (1, 2), (5, 2)));
    assert!(!line_of_sight(&map, w, h, (1, 1), (5, 3)));
    assert!(line_of_sight(&map, w, h, (2, 1), (2, 1)));
    assert!(!line_of_sight(&map, w, h, (-1, 1), (1, 1)));
}

#[test]
fn vision_through_doors() {
    let (map, w, h) = parse(&["#######", "#..D..#", "#..C..#", "#######"]);
    assert!(!line_of_sight_vision(&map, w, h, (1, 1), (5, 1), true));
    assert!(line_of_sight_vision(&map, w, h, (1, 1), (5, 1), false));
    assert!(!line_of_sight_vision(&map, w, h, (1, 2), (5, 2), false));
    assert!(!line_of_sight_vision(&map, w, h, (1, 2), (5, 2), true));
    assert!(!line_of_sight_vision(&map, w, h, (0, 0), (1, 1), false));
}

#[test]
fn thick_sight_needs_clearance() {
    let (room, w, h) = parse(&["#######", "#.....#", "#.....#", "#.....#", "#######"]);
    // Middle row of a 3-high room: both neighbours above and below are open.
    assert!(line_of_sight_thick(&room, w, h, (1, 2), (5, 2)));
    // Along the top row the cells above are walls.
    assert!(!line_of_sight_thick(&room, w, h, (1, 1), (5, 1)));
    // A single cell has no direction to widen.
    assert!(line_of_sight_thick(&room, w, h, (3, 2), (3, 2)));
}

#[test]
fn smoothing_keeps_ends_and_drops_visible_middles() {
    let (room, w, h) = parse(&["#######", "#.....#", "#.....#", "#.....#", "#######"]);
    let mut p = vec![(1, 2), (2, 2), (3, 2), (4, 2), (5, 2)];
    smooth_path(&mut p, &room, w, h);
    assert_eq!(p, vec![(1, 2), (5, 2)]);

    let mut short = vec![(1, 1), (2, 1)];
    smooth_path(&mut short, &room, w, h);
    assert_eq!(short, vec![(1, 1), (2, 1)]);

    let (map, mw, mh) = ring();
    let mut around = vec![(1, 1), (1, 2), (1, 3), (2, 3), (3, 3)];
    smooth_path(&mut around, &map, mw, mh);
    assert_eq!(around[0], (1, 1));
    assert_eq!(*around.last().unwrap(), (3, 3));
}

#[test]
fn cardinal_line_of_sight() {
    let (map, w, h) = ring();
    assert!(cardinal_los((1, 1), (5, 1), &map, w, h));
    assert!(cardinal_los((1, 3), (1, 1), &map, w, h));
    assert!(!cardinal_los((1, 2), (5, 2), &map, w, h));
    assert!(!cardinal_los((1, 1), (2, 3), &map, w, h));
}

#[test]
fn subgoals_sit_on_convex_corners() {
    let (map, w, h) = ring();
    let g = build_subgoal_graph(&map, w, h);
    assert_eq!(g.subgoals, vec![(1, 1), (5, 1), (1, 3), (5, 3)]);
    assert_eq!(g.edges[0], vec![(1, 4), (2, 2)]);
    assert_eq!(g.tile_to_sg[(1 * w + 1) as usize], 0);
    assert_eq!(g.tile_to_sg[(1 * w + 3) as usize], usize::MAX);
}

#[test]
fn connect_tile_scans_rays() {
    let (map, w, h) = ring();
    let g = build_subgoal_graph(&map, w, h);
    assert_eq!(g.connect_tile(2, 1, &map, w, h), vec![(1, 3), (0, 1)]);
    assert_eq!(g.connect_tile(1, 1, &map, w, h), vec![(0, 0)]);
}

#[test]
fn subgoal_search_paths() {
    let (map, w, h) = ring();
    let g = build_subgoal_graph(&map, w, h);
    assert_eq!(g.find_path((2, 1), (4, 3), &map, w, h), Some(vec![(2, 1), (1, 1), (1, 3), (4, 3)]));
    assert_eq!(g.find_path((1, 1), (5, 1), &map, w, h), Some(vec![(1, 1), (5, 1)]));
    assert_eq!(g.find_path((3, 3), (3, 3), &map, w, h), Some(vec![(3, 3)]));
}

#[test]
fn subgoal_search_fails_across_walls() {
    let (map, w, h) = parse(&["#########", "#...#...#", "#.#.#.#.#", "#...#...#", "#########"]);
    let g = build_subgoal_graph(&map, w, h);
    assert_eq!(g.find_path((1, 1), (7, 3), &map, w, h), None);
}

fn linked_room(id: usize, adjacent_rooms: Vec<(usize, (i32, i32))>) -> brownshock::room::Room {
    brownshock::room::Room { id, tiles: vec![(0, 0)], door_subgoals: Vec::new(), kind: brownshock::room::RoomKind::Normal, adjacent_rooms }
}

#[test]
fn door_between_rooms_takes_the_cheapest_door() {
    let rooms = vec![linked_room(0, vec![(1, (5, 5)), (2, (0, 0)), (1, (1, 1)), (1, (0, 2))]), linked_room(1, vec![])];
    assert_eq!(door_between_rooms(0, 1, (0, 0), (0, 0), &rooms), Some((1, 1)));
    assert_eq!(door_between_rooms(0, 1, (5, 5), (5, 5), &rooms), Some((5, 5)));
    assert_eq!(door_between_rooms(0, 3, (0, 0), (0, 0), &rooms), None);
    assert_eq!(door_between_rooms(7, 1, (0, 0), (0, 0), &rooms), None);
    assert_eq!(door_between_rooms(1, 0, (0, 0), (0, 0), &rooms), None);
}

#[test]
fn next_room_prefers_the_nearest_door() {
    let rooms = vec![linked_room(0, vec![(1, (5, 5)), (2, (0, 0)), (1, (1, 1))])];
    assert_eq!(pick_next_room(0, &[], (0, 0), &rooms), Some(2));
    assert_eq!(pick_next_room(0, &[2], (0, 0), &rooms), Some(1));
    assert_eq!(pick_next_room(0, &[1, 2], (0, 0), &rooms), None);
    assert_eq!(pick_next_room(3, &[], (0, 0), &rooms), None);
}

#[test]
fn next_room_ties_go_to_the_first_listed_neighbour() {
    // Rooms 3 and 4 both have a door at distance 1; room 3 is listed first.
    let rooms = vec![linked_room(0, vec![(3, (9, 9)), (4, (1, 0)), (3, (1, 0))])];
    assert_eq!(pick_next_room(0, &[], (0, 0), &rooms), Some(3));
}

#[test]
fn door_tile_looks_to_its_neighbours() {
    let m = usize::MAX;
    let t2r = vec![m, 4, m, 5, m, 6, m, 7, m];
    assert_eq!(find_nearest_room_from_door((1, 1), &t2r, 3, 3), 7);
    let t2r = vec![m, 4, m, 5, m, 6, m, m, m];
    assert_eq!(find_nearest_room_from_door((1, 1), &t2r, 3, 3), 4);
    let t2r = vec![m; 9];
    assert_eq!(find_nearest_room_from_door((1, 1), &t2r, 3, 3), m);
    assert_eq!(find_nearest_room_from_door((0, 0), &vec![m, 2, m, 3, m, m, m, m, m], 3, 3), 3);
}

fn turn_cost(p: &[(i32, i32)]) -> i32 {
    p.windows(2).map(|s| (s[0].0 - s[1].0).abs() + (s[0].1 - s[1].1).abs()).sum()
}

#[test]
fn astar_takes_the_short_way_round() {
    let (map, w, h) = ring();
    // Left round the block is 4 steps, right round is 8.
    let p = astar(&map, w, h, (2, 1), (2, 3)).expect("reachable");
    assert_eq!(p.len(), 5);
    assert_eq!(p, vec![(2, 1), (1, 1), (1, 2), (1, 3), (2, 3)]);
}

#[test]
fn subgoal_search_takes_the_short_way_round() {
    let (map, w, h) = ring();
    let g = build_subgoal_graph(&map, w, h);
    let p = g.find_path((2, 1), (2, 3), &map, w, h).expect("reachable");
    assert_eq!(p.first(), Some(&(2, 1)));
    assert_eq!(p.last(), Some(&(2, 3)));
    assert_eq!(turn_cost(&p), 4);
    let q = g.find_path((4, 1), (4, 3), &map, w, h).expect("reachable");
    assert_eq!(turn_cost(&q), 4);
}

#[test]
fn subgoal_path_goes_round_a_centre_wall() {
    let (map, w, h) = parse(&["...", ".#.", "..."]);
    let g = build_subgoal_graph(&map, w, h);
    let p = g.find_path((1, 0), (1, 2), &map, w, h).expect("a path");
    assert_eq!(p[0], (1, 0));
    assert_eq!(*p.last().unwrap(), (1, 2));
    for &(x, y) in &p {
        assert!(x >= 0 && x < w && y >= 0 && y < h);
        assert_ne!(map[(y * w + x) as usize].terrain, Terrain::Wall);
    }
}

#[test]
fn chase_route_walks_round_a_wall() {
    let (map, w, h) = parse(&["...", ".#.", "..."]);
    let g = build_subgoal_graph(&map, w, h);
    let route = chase_route(&g, &map, w, h, (1, 0), (1, 2)).expect("a route");
    assert_eq!(route[0], (1, 0));
    assert_eq!(*route.last().unwrap(), (1, 2));
    assert_eq!(route.len(), 5);
    for k in 1..route.len() {
        let (a, b) = (route[k - 1], route[k]);
        assert_eq!((a.0 - b.0).abs() + (a.1 - b.1).abs(), 1);
        assert!(map[(b.1 * w + b.0) as usize].terrain.is_walkable());
    }
}

#[test]
fn chase_route_none_when_cut_off() {
    let (map, w, h) = parse(&[".#.", ".#.", ".#."]);
    let g = build_subgoal_graph(&map, w, h);
    assert!(chase_route(&g, &map, w, h, (0, 0), (2, 2)).is_none());
    assert_eq!(chase_route(&g, &map, w, h, (0, 1), (0, 1)), Some(vec![(0, 1)]));
}

#[test]
fn effective_room_looks_past_doors() {
    let w = 3;
    let h = 1;
    let t2r = vec![4usize, usize::MAX, 7usize];
    assert_eq!(effective_room((0, 0), &t2r, w, h), 4);
    assert_eq!(effective_room((2, 0), &t2r, w, h), 7);
    assert_eq!(effective_room((1, 0), &t2r, w, h), find_nearest_room_from_door((1, 0), &t2r, w, h));
    assert_ne!(effective_room((1, 0), &t2r, w, h), usize::MAX);
    assert_eq!(effective_room((5, 0), &t2r, w, h), usize::MAX);
}

#[test]
fn lost_sight_from_pursuit() {
    let p = ChasePhase::Pursuit;
    assert_eq!(lost_sight_step(&p, 3, usize::MAX, 10, false, 0, None, None), ChaseStep::End);
    assert_eq!(lost_sight_step(&p, 3, 3, 10, false, 0, None, None), ChaseStep::Search(3));
    assert_eq!(lost_sight_step(&p, 2, 5, 10, false, 0, None, None), ChaseStep::Navigate(5));
}

#[test]
fn lost_sight_while_navigating() {
    let p = ChasePhase::Navigate { final_room: 7, room_path: vec![2, 4, 7], current_hop: 1 };
    assert_eq!(lost_sight_step(&p, 7, 0, 10, false, 0, None, None), ChaseStep::Search(7));
    assert_eq!(lost_sight_step(&p, 4, 0, 10, false, 0, None, None), ChaseStep::NextHop(2));
    assert_eq!(lost_sight_step(&p, 2, 0, 10, false, 0, None, None), ChaseStep::Continue);
    assert_eq!(lost_sight_step(&p, usize::MAX, 0, 10, false, 0, None, None), ChaseStep::Continue);
}

#[test]
fn lost_sight_while_searching() {
    let p = ChasePhase::Search { room_id: 4, seen: vec![true, true] };
    assert_eq!(lost_sight_step(&p, 4, 0, 10, true, 2, Some(5), None), ChaseStep::End);
    assert_eq!(lost_sight_step(&p, 4, 0, 10, true, 1, Some(5), None), ChaseStep::Navigate(5));
    assert_eq!(lost_sight_step(&p, 5, 0, 10, true, 1, Some(5), None), ChaseStep::Search(5));
    assert_eq!(lost_sight_step(&p, 4, 0, 10, true, 1, None, None), ChaseStep::End);
    assert_eq!(lost_sight_step(&p, 4, 0, 10, false, 1, None, Some(6)), ChaseStep::Navigate(6));
    assert_eq!(lost_sight_step(&p, 4, 0, 10, false, 2, None, Some(6)), ChaseStep::Continue);
    assert_eq!(lost_sight_step(&p, 4, 0, 10, false, 0, None, None), ChaseStep::Continue);
    assert_eq!(lost_sight_step(&p, 4, 0, 3, false, 0, None, None), ChaseStep::End);
}

#[test]
fn subgoal_path_tie_goes_west() {
    let (map, w, h) = parse(&["...", ".#.", "..."]);
    let g = build_subgoal_graph(&map, w, h);
    assert_eq!(g.find_path((1, 0), (1, 2), &map, w, h), Some(vec![(1, 0), (0, 0), (0, 2), (1, 2)]));
}
