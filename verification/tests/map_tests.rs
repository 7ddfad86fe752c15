use rand::SeedableRng;
use dungeon::fov::calculate_visible_tiles;
use dungeon::map::DungeonMap;
use dungeon::occupancy::OccupancyMap;
use dungeon::pathfinding::astar;
use dungeon::reach::has_path_between;
use dungeon::regions::{collect_walkable_regions, detect_cave_regions};
use dungeon::room::{Room, RoomShape};
use dungeon::terrain::{count_walkable_neighbors, dig_spawn_walk, ensure_connectivity, ensure_spawn_accessible};
use dungeon::tile::Tile;

/// A map with floor on the given rectangle (inclusive bounds).
fn floor_rect(m: &mut DungeonMap, x0: usize, y0: usize, x1: usize, y1: usize) {
    for y in y0..=y1 {
        for x in x0..=x1 {
            m.set(x, y, Tile::Floor);
        }
    }
}

#[test]
fn new_map_is_all_wall() {
    let m = DungeonMap::new();
    assert_eq!(m.get(0, 0), Tile::Wall);
    assert_eq!(m.count_tile(Tile::Wall), 80 * 60);
    assert!(!m.is_walkable(5, 5));
}

#[test]
fn tiles_glyphs_and_codes() {
    assert_eq!(Tile::Wall.glyph(), '#');
    assert!(Tile::Floor.walkable());
    assert!(Tile::ShallowWater.walkable());
    assert!(!Tile::DeepWater.walkable());
    assert!(Tile::Stalactite.blocks_vision());
    assert!(!Tile::Floor.blocks_vision());
    for t in [Tile::Wall, Tile::Floor, Tile::ShallowWater, Tile::DeepWater, Tile::Stalactite] {
        assert_eq!(Tile::from_code(t.to_code()), Some(t));
    }
    assert_eq!(Tile::from_code(5), None);
    assert_eq!(Tile::ShallowWater.bg_color(), Some((120, 190, 250)));
    assert_eq!(Tile::Floor.bg_color(), None);
}

#[test]
fn astar_on_open_floor_is_shortest() {
    let mut m = DungeonMap::new();
    floor_rect(&mut m, 1, 1, 20, 20);
    let p = astar((2, 2), (7, 4), &m, None).expect("route");
    // Chebyshev distance 5.
    assert_eq!(p.len(), 5);
    assert_eq!(*p.last().unwrap(), (7, 4));
    let mut prev = (2usize, 2usize);
    for &c in &p {
        assert!(c.0.abs_diff(prev.0) <= 1 && c.1.abs_diff(prev.1) <= 1 && c != prev);
        assert!(m.is_walkable(c.0, c.1));
        prev = c;
    }
    assert_eq!(astar((3, 3), (3, 3), &m, None), Some(vec![]));
}

#[test]
fn astar_refuses_walls_and_islands() {
    let mut m = DungeonMap::new();
    floor_rect(&mut m, 1, 1, 5, 5);
    floor_rect(&mut m, 10, 10, 12, 12);
    assert_eq!(astar((2, 2), (11, 11), &m, None), None);
    assert_eq!(astar((2, 2), (8, 8), &m, None), None);
}

#[test]
fn astar_goes_around_taken_cells_but_may_end_on_one() {
    let mut m = DungeonMap::new();
    floor_rect(&mut m, 1, 1, 3, 1);
    floor_rect(&mut m, 1, 2, 3, 2);
    let mut occ = OccupancyMap::new();
    occ.set(2, 1, 99);
    let p = astar((1, 1), (3, 1), &m, Some(&occ)).unwrap();
    assert_eq!(p.len(), 2);
    assert!(!p.contains(&(2, 1)));
    occ.set(3, 1, 98);
    let q = astar((1, 1), (3, 1), &m, Some(&occ)).unwrap();
    assert_eq!(*q.last().unwrap(), (3, 1));
}

#[test]
fn paths_and_regions() {
    let mut m = DungeonMap::new();
    floor_rect(&mut m, 1, 1, 4, 4);
    floor_rect(&mut m, 10, 1, 13, 4);
    floor_rect(&mut m, 20, 20, 21, 21);
    assert!(has_path_between(&m, (1, 1), (4, 4)));
    assert!(!has_path_between(&m, (1, 1), (10, 1)));
    let regions = collect_walkable_regions(&m);
    // The 2x2 patch is below the smallest region size.
    assert_eq!(regions.len(), 2);
    assert_eq!(regions[0].len(), 16);
    assert_eq!(regions[0][0], (1, 1));
    assert_eq!(regions[1][0], (10, 1));
    let rooms = detect_cave_regions(&m, 12);
    assert_eq!(rooms.len(), 2);
    assert_eq!((rooms[0].x, rooms[0].y, rooms[0].w, rooms[0].h), (1, 1, 4, 4));
    assert_eq!(count_walkable_neighbors(&m, 2, 2), 8);
    assert_eq!(count_walkable_neighbors(&m, 1, 1), 3);
}

#[test]
fn carving_keeps_connected_cells_connected() {
    let mut m = DungeonMap::new();
    floor_rect(&mut m, 1, 1, 4, 4);
    floor_rect(&mut m, 30, 30, 34, 34);
    ensure_connectivity(&mut m, 7);
    assert!(has_path_between(&m, (1, 1), (4, 4)));
    assert!(has_path_between(&m, (30, 30), (34, 34)));
    assert!(m.is_walkable(1, 1) && m.is_walkable(30, 30));
}

#[test]
fn rooms_centres_and_cells() {
    let r = Room { x: 2, y: 3, w: 4, h: 6, shape: RoomShape::Rect };
    assert_eq!(r.center(), (4, 6));
    let cells = r.tiles();
    assert_eq!(cells.len(), 24);
    assert_eq!(cells[0], (2, 3));
    assert!(r.covers(5, 8));
    assert!(!r.covers(6, 8));
}

#[test]
fn field_of_view_sees_the_room_not_past_walls() {
    let mut m = DungeonMap::new();
    floor_rect(&mut m, 5, 5, 15, 15);
    let v = calculate_visible_tiles(10, 10, 8, &m);
    assert_eq!(v[0], (10, 10));
    assert!(v.contains(&(12, 12)));
    assert!(v.contains(&(5, 10)));
    // Walls bounding the room are seen, what lies behind them is not.
    assert!(v.contains(&(4, 10)));
    assert!(!v.contains(&(3, 10)));
    // Out of range.
    assert!(!v.contains(&(10, 19)));
    let small = calculate_visible_tiles(10, 10, 1, &m);
    assert!(small.iter().all(|&(x, y)| x.abs_diff(10) <= 1 && y.abs_diff(10) <= 1));
}

#[test]
fn render_shows_glyphs() {
    let mut m = DungeonMap::new();
    m.set(1, 0, Tile::Floor);
    let rows = m.render();
    assert_eq!(rows.len(), 60);
    assert!(rows[0].starts_with("#."));
    assert_eq!(rows[0].chars().count(), 80);
}

#[test]
fn spawn_falls_back_to_the_first_floor_cell() {
    let mut m = DungeonMap::new();
    m.set(0, 0, Tile::Floor);
    assert_eq!(m.spawn_point(), (0, 0));
    let mut near = DungeonMap::new();
    near.set(41, 30, Tile::Floor);
    near.set(0, 0, Tile::Floor);
    assert_eq!(near.spawn_point(), (41, 30));
}

#[test]
fn corridor_joins_its_ends() {
    let mut m = DungeonMap::new();
    assert!(!has_path_between(&m, (5, 40), (60, 8)));
    m.carve_corridor((5, 40), (60, 8));
    assert!(has_path_between(&m, (5, 40), (60, 8)));
    assert_eq!(m.get(60, 40), Tile::Floor);
    assert_eq!(m.get(60, 8), Tile::Floor);
    assert_eq!(m.get(4, 40), Tile::Wall);
}

#[test]
fn caves_are_the_bounds_of_the_first_regions() {
    let mut m = DungeonMap::new();
    // An L of 7 cells, a 3x3 block, a 4x2 block; largest first.
    floor_rect(&mut m, 30, 30, 30, 35);
    m.set(31, 35, Tile::Floor);
    floor_rect(&mut m, 5, 40, 7, 42);
    floor_rect(&mut m, 50, 10, 53, 11);
    let regions = collect_walkable_regions(&m);
    assert_eq!(regions.len(), 3);
    let bounds: Vec<(usize, usize, usize, usize)> = regions
        .iter()
        .map(|r| {
            let x0 = r.iter().map(|c| c.0).min().unwrap();
            let x1 = r.iter().map(|c| c.0).max().unwrap();
            let y0 = r.iter().map(|c| c.1).min().unwrap();
            let y1 = r.iter().map(|c| c.1).max().unwrap();
            (x0, y0, x1 - x0 + 1, y1 - y0 + 1)
        })
        .collect();
    assert_eq!(bounds, vec![(5, 40, 3, 3), (50, 10, 4, 2), (30, 30, 2, 6)]);
    let rooms = detect_cave_regions(&m, 2);
    let got: Vec<(usize, usize, usize, usize)> = rooms.iter().map(|r| (r.x, r.y, r.w, r.h)).collect();
    assert_eq!(got, bounds[..2].to_vec());
    assert!(rooms.iter().all(|r| r.shape == RoomShape::Rect));
}

#[test]
fn round_rooms_list_their_cells_wherever_they_stand() {
    let c = Room { x: 10, y: 10, w: 2, h: 0, shape: RoomShape::Circle };
    let t = c.tiles();
    assert_eq!(t.len(), 13);
    assert!(t.contains(&(10, 8)) && t.contains(&(12, 10)) && !t.contains(&(12, 12)));
    let d = Room { x: 0, y: 0, w: 1, h: 0, shape: RoomShape::Diamond };
    assert_eq!(d.tiles(), vec![(0, 0), (1, 0), (0, 1)]);
    let e = Room { x: 5, y: 5, w: 2, h: 1, shape: RoomShape::Ellipse };
    assert_eq!(e.tiles(), vec![(5, 4), (3, 5), (4, 5), (5, 5), (6, 5), (7, 5), (5, 6)]);
    // Far off the map: no cell, and no overflow.
    let far = Room { x: 1 << 40, y: 3, w: 1 << 20, h: 0, shape: RoomShape::Circle };
    assert!(far.tiles().is_empty());
}

#[test]
fn way_out_walk_follows_its_draws() {
    let mut m = DungeonMap::new();
    dig_spawn_walk(&mut m, 10, 10, &vec![(1, 0); 100]);
    for x in 11..=14 {
        assert_eq!(m.get(x, 10), Tile::Floor);
    }
    // It stopped once more than 3 away with a walkable cell beside it.
    assert_eq!(m.get(15, 10), Tile::Wall);
    assert_eq!(m.get(10, 10), Tile::Wall);
}

#[test]
fn walled_in_spawn_always_gets_a_way_out() {
    // Draws that never move: the cell to the right is dug.
    let mut m = DungeonMap::new();
    dig_spawn_walk(&mut m, 10, 10, &vec![(0, 0); 100]);
    assert_eq!(m.get(11, 10), Tile::Floor);
    // At the right edge the cell to the left is dug.
    let mut e = DungeonMap::new();
    dig_spawn_walk(&mut e, 79, 10, &vec![(0, 0); 3]);
    assert_eq!(e.get(78, 10), Tile::Floor);
    // Through the generator: the centre of the first room gets a walkable neighbour.
    let mut r = DungeonMap::new();
    r.rooms.push(Room { x: 30, y: 20, w: 4, h: 4, shape: RoomShape::Rect });
    ensure_spawn_accessible(&mut r, 7);
    let (cx, cy) = (32usize, 22usize);
    let mut open = false;
    for dy in 0..3 {
        for dx in 0..3 {
            if (dx, dy) != (1, 1) && r.get(cx + dx - 1, cy + dy - 1).walkable() {
                open = true;
            }
        }
    }
    assert!(open);
}

#[test]
fn stairs_search_finds_the_nearest_walkable_cell() {
    let mut rng = rand::rngs::SmallRng::seed_from_u64(5);
    let spawn = (40, 30);
    // Only a cell 3 away: the walk cannot stop there, the search finds it.
    let mut m = DungeonMap::new();
    m.set(40, 30, Tile::Floor);
    m.set(43, 30, Tile::Floor);
    assert_eq!(dungeon::floors::pick_stair_pos(&m, spawn, &mut rng), (43, 30));
    // Nothing walkable but the spawn: the cell 15 to its right.
    let mut w = DungeonMap::new();
    w.set(40, 30, Tile::Floor);
    assert_eq!(dungeon::floors::pick_stair_pos(&w, spawn, &mut rng), (55, 30));
    // Two candidates in the search: the first row by row wins.
    let mut two = DungeonMap::new();
    two.set(45, 31, Tile::Floor);
    two.set(47, 29, Tile::Floor);
    assert_eq!(dungeon::floors::pick_stair_pos(&two, spawn, &mut rng), (47, 29));
}
