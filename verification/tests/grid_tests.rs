use brownshock::cell::{grid_index, idx, is_blocked, is_outer_wall, walkable_at, Cell, Furniture, Terrain};
use brownshock::passage::compute_passage_width;
use brownshock::tile::Tile;

fn parse(rows: &[&str]) -> (Vec<Cell>, i32, i32) {
    let h = rows.len() as i32;
    let w = rows[0].len() as i32;
    let mut cells = Vec::new();
    for r in rows {
        for ch in r.chars() {
            let terrain = match ch {
                '#' => Terrain::Wall,
                'D' => Terrain::DoorOpen,
                'C' => Terrain::DoorClosed,
                'T' => Terrain::Toilet,
                ' ' => Terrain::Void,
                _ => Terrain::Floor,
            };
            cells.push(Cell { terrain, furniture: None });
        }
    }
    (cells, w, h)
}

#[test]
fn terrain_walkability() {
    assert!(Terrain::Floor.is_walkable());
    assert!(Terrain::DoorOpen.is_walkable());
    assert!(Terrain::DoorClosed.is_walkable());
    assert!(Terrain::Toilet.is_walkable());
    assert!(!Terrain::Wall.is_walkable());
    assert!(!Terrain::Void.is_walkable());
    let c = Cell::floor();
    assert!(c.is_walkable());
    let d = Cell::default();
    assert!(d.terrain == Terrain::Floor && d.furniture.is_none());
}

#[test]
fn vision_blocking() {
    assert!(Terrain::Wall.blocks_vision());
    assert!(Terrain::DoorClosed.blocks_vision());
    assert!(!Terrain::DoorOpen.blocks_vision());
    assert!(!Terrain::Floor.blocks_vision());
    assert!(Furniture::Shelf.blocks_vision());
    assert!(Furniture::Bed.blocks_vision());
    assert!(!Furniture::Chair.blocks_vision());
    assert!(!Furniture::Table.blocks_vision());
    assert!(!Furniture::TrashBin.blocks_vision());
}

#[test]
fn row_major_indices() {
    assert_eq!(idx(3, 2, 10), 23);
    assert_eq!(idx(0, 0, 7), 0);
    assert_eq!(brownshock::tile::idx(3, 2, 10), 23);
    let (map, w, h) = parse(&["#####", "#...#", "#####"]);
    assert_eq!(grid_index(&map, w, h, 2, 1), 7);
}

#[test]
fn blocked_cells() {
    let (map, w, h) = parse(&["#####", "#.C.#", "#####"]);
    assert!(walkable_at(&map, w, h, 1, 1));
    assert!(walkable_at(&map, w, h, 2, 1));
    assert!(!walkable_at(&map, w, h, 0, 1));
    assert!(is_blocked(&map, w, h, 0, 0));
    assert!(is_blocked(&map, w, h, -1, 1));
    assert!(is_blocked(&map, w, h, 5, 1));
    assert!(!is_blocked(&map, w, h, 3, 1));
}

#[test]
fn tile_glyphs() {
    assert_eq!(Tile::Floor.glyph(), '.');
    assert_eq!(Tile::Wall.glyph(), '#');
    assert_eq!(Tile::Goal.glyph(), 'T');
    assert_eq!(Tile::StairUp.glyph(), '^');
    assert_eq!(Tile::StairDown.glyph(), 'v');
    assert!(Tile::Goal.is_walkable());
    assert!(Tile::StairDown.is_walkable());
    assert!(!Tile::Wall.is_walkable());
}

#[test]
fn passage_width_in_corridor_and_room() {
    let (map, w, h) = parse(&["#####", "#...#", "#####"]);
    let pw = compute_passage_width(&map, w, h);
    assert_eq!(pw.len(), 15);
    assert_eq!(pw[idx(1, 1, w)], 1);
    assert_eq!(pw[idx(2, 1, w)], 1);
    assert_eq!(pw[idx(0, 0, w)], 0);

    let (room, rw, rh) = parse(&["#####", "#...#", "#...#", "#...#", "#####"]);
    let pw = compute_passage_width(&room, rw, rh);
    assert_eq!(pw[idx(2, 2, rw)], 3);
    assert_eq!(pw[idx(1, 1, rw)], 3);
    assert_eq!(pw[idx(0, 2, rw)], 0);
}

#[test]
fn passage_width_takes_narrower_axis() {
    // A 2-wide vertical corridor: horizontal span 2, vertical span 4.
    let (map, w, h) = parse(&["####", "#..#", "#..#", "#..#", "#..#", "####"]);
    let pw = compute_passage_width(&map, w, h);
    assert_eq!(pw[idx(1, 2, w)], 2);
    assert_eq!(pw[idx(2, 4, w)], 2);
}

#[test]
fn outer_walls_touch_void_or_edge() {
    let rows = [" ###", " #.#", " ###"];
    let mut cells = Vec::new();
    for r in rows.iter() {
        for ch in r.chars() {
            let terrain = match ch {
                '#' => Terrain::Wall,
                ' ' => Terrain::Void,
                _ => Terrain::Floor,
            };
            cells.push(Cell { terrain, furniture: None });
        }
    }
    // (1, 1) has the void on its left; (3, 1) is on the map edge.
    assert!(is_outer_wall(&cells, 1, 1, 4, 3));
    assert!(is_outer_wall(&cells, 3, 1, 4, 3));
    // (2, 1) is the floor surrounded by walls.
    assert!(!is_outer_wall(&cells, 2, 1, 4, 3));
    // (2, 0) is on the top edge.
    assert!(is_outer_wall(&cells, 2, 0, 4, 3));
}
