use brownshock::bsp::bsp_subdivide;
use brownshock::map_gen::{generate_ca_cover, BspRect, WallLine};
use brownshock::cell::{Cell, Terrain};
use brownshock::doors::{find_hamiltonian_cycle, find_longest_cycle};
use brownshock::generate::{generate_map, MapGenConfig};
use brownshock::grouping::cascade_kind_counts;
use brownshock::map_gen::{
    adaptive_margin, classify_by_area, degree_bias_percent, flood_fill_count, floor_globally_connected,
    is_door_terrain, rand_range, void_cleanup, MapRng, SizeClass,
};
use brownshock::room::RoomKind;
use brownshock::union_find::UnionFind;

fn parse(rows: &[&str]) -> (Vec<Cell>, usize, usize) {
    let h = rows.len();
    let w = rows[0].len();
    let mut cells = Vec::new();
    for r in rows {
        for ch in r.chars() {
            let terrain = match ch {
                '#' => Terrain::Wall,
                'D' => Terrain::DoorOpen,
                ' ' => Terrain::Void,
                _ => Terrain::Floor,
            };
            cells.push(Cell { terrain, furniture: None });
        }
    }
    (cells, w, h)
}

#[test]
fn default_map_size() {
    let config = MapGenConfig::default();
    assert_eq!(config.rooms.len(), 6);
    let mut rng = MapRng::new(42);
    let map = generate_map(&config, &mut rng).expect("a map");
    assert_eq!(map.width, 29);
    assert_eq!(map.height, 29);
    assert_eq!(map.cells.len(), 29 * 29);
    assert_eq!(map.cell_kinds.len(), map.cells.len());
    assert_eq!(map.requested_rooms, config.rooms);
    for (c, k) in map.cells.iter().zip(map.cell_kinds.iter()) {
        if k.is_some() {
            assert!(c.terrain.is_walkable());
        }
    }
}

#[test]
fn generation_is_deterministic_per_seed() {
    let config = MapGenConfig::default();
    let a = generate_map(&config, &mut MapRng::new(7)).expect("a map");
    let b = generate_map(&config, &mut MapRng::new(7)).expect("a map");
    assert!(a.cells.iter().zip(b.cells.iter()).all(|(x, y)| x.terrain == y.terrain));
}

#[test]
fn configured_size_is_clamped() {
    let mut config = MapGenConfig::default();
    config.map_w = Some(500);
    config.map_h = Some(10);
    let map = generate_map(&config, &mut MapRng::new(3)).expect("a map");
    assert_eq!(map.width, 120);
    assert_eq!(map.height, 29);
}

#[test]
fn random_source() {
    let mut rng = MapRng::new(0);
    assert_eq!(rng.state, 1);
    let r = rng.below(10);
    assert!(r < 10);
    let mut rng2 = MapRng::new(99);
    let before = rng2.state;
    assert_eq!(rand_range(&mut rng2, 5, 5), 5);
    assert_eq!(rng2.state, before);
    for _ in 0..50 {
        let v = rand_range(&mut rng2, 2, 4);
        assert!((2..=4).contains(&v));
    }
}

#[test]
fn margins_and_biases() {
    assert_eq!(adaptive_margin(2), 0);
    assert_eq!(adaptive_margin(3), 0);
    assert_eq!(adaptive_margin(6), 1);
    assert_eq!(adaptive_margin(9), 3);
    assert_eq!(adaptive_margin(20), 3);
    assert_eq!(degree_bias_percent(1), 30);
    assert_eq!(degree_bias_percent(2), 50);
    assert_eq!(degree_bias_percent(3), 70);
    assert_eq!(degree_bias_percent(4), 90);
    assert_eq!(degree_bias_percent(5), 0);
    assert!(is_door_terrain(Terrain::DoorOpen));
    assert!(is_door_terrain(Terrain::DoorClosed));
    assert!(!is_door_terrain(Terrain::Floor));
}

#[test]
fn area_thirds() {
    assert_eq!(classify_by_area(&[10, 30, 20]), vec![SizeClass::Small, SizeClass::Large, SizeClass::Medium]);
    assert_eq!(classify_by_area(&[]), Vec::<SizeClass>::new());
    // Equal areas rank by index.
    assert_eq!(classify_by_area(&[5, 5, 5]), vec![SizeClass::Small, SizeClass::Medium, SizeClass::Large]);
}

#[test]
fn kind_cascade() {
    assert_eq!(cascade_kind_counts(1, 2, 1, 3), (1, 0, 0));
    assert_eq!(cascade_kind_counts(2, 1, 1, 0), (1, 1, 0));
    assert_eq!(cascade_kind_counts(10, 2, 1, 3), (2, 1, 3));
    assert_eq!(cascade_kind_counts(5, 2, 1, 3), (2, 1, 2));
    assert_eq!(cascade_kind_counts(3, 2, 2, 0), (2, 1, 0));
    assert_eq!(cascade_kind_counts(1 + 0, 0, 0, 0), (1, 0, 0));
}

#[test]
fn union_find_classes() {
    let mut uf = UnionFind::new(5);
    assert_eq!(uf.group_count(), 5);
    uf.union(0, 1);
    uf.union(2, 3);
    assert_eq!(uf.group_count(), 3);
    assert_eq!(uf.find(0), uf.find(1));
    assert_ne!(uf.find(0), uf.find(2));
    uf.union(1, 3);
    assert_eq!(uf.group_count(), 2);
    assert_eq!(uf.find(0), uf.find(3));
    uf.union(0, 2);
    assert_eq!(uf.group_count(), 2);
    assert_ne!(uf.find(4), uf.find(0));
}

#[test]
fn cycles_in_leaf_graphs() {
    let square = vec![vec![1, 3], vec![0, 2], vec![1, 3], vec![2, 0]];
    let c = find_hamiltonian_cycle(&square, 4).expect("a cycle");
    assert_eq!(c.len(), 4);
    assert_eq!(c[0], 0);
    for i in 0..4 {
        assert!(square[c[i]].contains(&c[(i + 1) % 4]));
    }
    let line = vec![vec![1], vec![0, 2], vec![1]];
    assert_eq!(find_hamiltonian_cycle(&line, 3), None);
    assert_eq!(find_hamiltonian_cycle(&vec![vec![1], vec![0]], 2), None);

    let kite = vec![vec![1, 2, 3], vec![0, 2], vec![0, 1], vec![0]];
    let best = find_longest_cycle(&kite, 4);
    assert_eq!(best.len(), 3);
    assert!(find_longest_cycle(&line, 3).is_empty());
}

#[test]
fn flood_counts_and_connectivity() {
    let (map, w, h) = parse(&["##########", "#...#....#", "#...D....#", "#...#....#", "##########"]);
    assert_eq!(flood_fill_count(&map, w, 1 * w + 1), 22);
    assert!(floor_globally_connected(&map, w, h));
    let (split, sw, sh) = parse(&["#####", "#.#.#", "#####"]);
    assert_eq!(flood_fill_count(&split, sw, 1 * sw + 1), 1);
    assert!(!floor_globally_connected(&split, sw, sh));
}

#[test]
fn union_keeps_higher_rank_root() {
    let mut uf = UnionFind::new(4);
    uf.union(0, 1);
    // equal ranks: the first argument's root wins and its rank grows
    assert_eq!(uf.find(1), 0);
    assert_eq!(uf.rank[0], 1);
    // lower-ranked class joins the higher-ranked one
    uf.union(2, 0);
    assert_eq!(uf.find(2), 0);
    assert_eq!(uf.rank[0], 1);
    assert_eq!(uf.rank[2], 0);
}

fn cleaned(rows: &[&str]) -> Vec<String> {
    let (mut cells, w, h) = parse(rows);
    void_cleanup(&mut cells, w, h);
    let got: Vec<char> = cells
        .iter()
        .map(|c| match c.terrain {
            Terrain::Void => ' ',
            Terrain::Wall => '#',
            _ => '.',
        })
        .collect();
    got.chunks(w).map(|r| r.iter().collect()).collect()
}

#[test]
fn void_cleanup_judges_the_original_map() {
    // a wall made earlier in the scan is not void, so later cells keep floor
    assert_eq!(cleaned(&["  ..", " ...", "...."]), vec!["  #.", " #..", "#..."]);
    // a cell with only void neighbours is absorbed; its neighbours are void anyway
    assert_eq!(cleaned(&[". .", " ..", "..."]), vec!["  #", " #.", "#.."]);
}

#[test]
fn bsp_leaves_and_walls_tile_the_rect() {
    let rect = BspRect { x: 1, y: 1, w: 27, h: 20 };
    let mut walls: Vec<WallLine> = Vec::new();
    let mut rng = MapRng::new(7);
    let leaves = bsp_subdivide(rect, &mut walls, &mut rng, 8);
    assert_eq!(walls.len() + 1, leaves.len());
    for y in rect.y..rect.y + rect.h {
        for x in rect.x..rect.x + rect.w {
            let in_leaf = leaves.iter().filter(|l| l.x <= x && x < l.x + l.w && l.y <= y && y < l.y + l.h).count();
            let on_wall = walls.iter().any(|wl| match wl {
                WallLine::Horizontal { y: wy, x0, x1 } => y == *wy && *x0 <= x && x < *x1,
                WallLine::Vertical { x: wx, y0, y1 } => x == *wx && *y0 <= y && y < *y1,
            });
            assert!(in_leaf == 1 || on_wall);
            assert!(!(in_leaf > 0 && on_wall));
        }
    }
}

#[test]
fn ca_cover_places_seed_in_open_leaf() {
    let w = 12usize;
    let h = 12usize;
    let mut map = vec![Cell { terrain: Terrain::Floor, furniture: None }; w * h];
    let before = map.clone();
    let leaves = vec![BspRect { x: 0, y: 0, w: 12, h: 12 }];
    let mut rng = MapRng::new(12345);
    let placed = generate_ca_cover(&mut map, w, h, &leaves, 1, 0, &mut rng);
    assert!(placed >= 1);
    let walls = map.iter().filter(|c| c.terrain == Terrain::Wall).count();
    assert_eq!(walls, placed);
    for i in 0..map.len() {
        if map[i].terrain != before[i].terrain {
            assert_eq!(map[i].terrain, Terrain::Wall);
        }
    }
}

#[test]
fn ca_cover_no_seeds_leaves_map_alone() {
    let mut map = vec![Cell { terrain: Terrain::Floor, furniture: None }; 100];
    let before = map.clone();
    let leaves = vec![BspRect { x: 0, y: 0, w: 10, h: 10 }];
    let mut rng = MapRng::new(7);
    let placed = generate_ca_cover(&mut map, 10, 10, &leaves, 0, 5, &mut rng);
    assert_eq!(placed, 0);
    for i in 0..map.len() {
        assert_eq!(map[i].terrain, before[i].terrain);
    }
}

#[test]
fn ca_cover_keeps_open_floor_connected() {
    let w = 20usize;
    let h = 14usize;
    let mut map = Vec::new();
    for y in 0..h {
        for x in 0..w {
            let edge = x == 0 || y == 0 || x == w - 1 || y == h - 1 || x == 10;
            let terrain = if edge && !(x == 10 && y == 7) { Terrain::Wall } else { Terrain::Floor };
            map.push(Cell { terrain, furniture: None });
        }
    }
    assert!(floor_globally_connected(&map, w, h));
    let leaves = vec![BspRect { x: 1, y: 1, w: 9, h: 12 }, BspRect { x: 11, y: 1, w: 8, h: 12 }];
    for seed in 1..6u64 {
        let mut m = map.clone();
        let mut rng = MapRng::new(seed);
        let placed = generate_ca_cover(&mut m, w, h, &leaves, 3, 6, &mut rng);
        assert!(placed >= 1);
        assert!(floor_globally_connected(&m, w, h));
    }
}

#[test]
fn generated_map_has_floor_with_kinds() {
    let config = MapGenConfig::default();
    let map = generate_map(&config, &mut MapRng::new(3)).expect("a map");
    let floors = map.cells.iter().filter(|c| c.terrain == Terrain::Floor).count();
    assert!(floors > 0);
    let kinded = map.cell_kinds.iter().filter(|k| k.is_some()).count();
    assert!(kinded > 0);
    let w = map.width as usize;
    let h = map.height as usize;
    for x in 0..w {
        assert!(map.cells[x].terrain != Terrain::Floor);
        assert!(map.cells[(h - 1) * w + x].terrain != Terrain::Floor);
    }
}
