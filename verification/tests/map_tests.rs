use doghack::map::{
    is_floor, is_wall, tilemap_wall_glyph, TileMap, TileType, DIAGONAL_COST, MAPCOUNT, MAPHEIGHT, MAPWIDTH, MAX_ROOMS,
    ORTHOGONAL_COST,
};
use doghack::Rect;
use rltk::{Algorithm2D, BaseMap};

fn reachable_from(map: &TileMap, start: (i32, i32)) -> Vec<bool> {
    let mut seen = vec![false; map.tiles.len()];
    let mut stack = vec![start];
    seen[map.xy_idx(start.0, start.1)] = true;
    while let Some((x, y)) = stack.pop() {
        for (dx, dy) in [(1, 0), (-1, 0), (0, 1), (0, -1)] {
            let (nx, ny) = (x + dx, y + dy);
            if nx < 0 || ny < 0 || nx >= map.width || ny >= map.height {
                continue;
            }
            let idx = map.xy_idx(nx, ny);
            if !seen[idx] && map.tiles[idx] != TileType::Wall {
                seen[idx] = true;
                stack.push((nx, ny));
            }
        }
    }
    seen
}

#[test]
fn rect_new_keeps_corner_and_adds_size() {
    let r = Rect::new(3, 4, 6, 7);
    assert_eq!((r.x1, r.y1, r.x2, r.y2), (3, 4, 9, 11));
}

#[test]
fn rect_center_is_the_midpoint() {
    assert_eq!(Rect::new(2, 2, 6, 8).center(), (5, 6));
    assert_eq!(Rect::new(1, 1, 7, 7).center(), (4, 4));
    assert_eq!(Rect::new(-5, -3, 2, 0).center(), (-4, -3));
}

#[test]
fn rects_that_touch_intersect_and_distant_ones_do_not() {
    let a = Rect::new(1, 1, 5, 5);
    assert!(a.intersect(&Rect::new(6, 6, 3, 3)));
    assert!(a.intersect(&Rect::new(3, 3, 1, 1)));
    assert!(!a.intersect(&Rect::new(7, 1, 3, 3)));
    assert!(!a.intersect(&Rect::new(1, 7, 3, 3)));
    assert!(Rect::new(6, 6, 3, 3).intersect(&a));
}

#[test]
fn xy_idx_is_row_major() {
    let map = TileMap::blank(1);
    assert_eq!(map.xy_idx(0, 0), 0);
    assert_eq!(map.xy_idx(5, 0), 5);
    assert_eq!(map.xy_idx(0, 1), 80);
    assert_eq!(map.xy_idx(79, 41), MAPCOUNT - 1);
    assert_eq!(map.xy_idx(7, 3), 3 * 80 + 7);
}

#[test]
fn blank_map_is_all_wall() {
    let map = TileMap::blank(3);
    assert_eq!(map.width as usize, MAPWIDTH);
    assert_eq!(map.height as usize, MAPHEIGHT);
    assert_eq!(map.depth, 3);
    assert_eq!(map.tiles.len(), MAPCOUNT);
    assert!(map.tiles.iter().all(|t| *t == TileType::Wall));
    assert!(map.rooms.is_empty());
    assert!(map.revealed_tiles.iter().all(|b| !*b));
    assert!(map.visible_tiles.iter().all(|b| !*b));
    assert!(map.blocked.iter().all(|b| !*b));
    assert!(map.tile_content.iter().all(|c| c.is_empty()));
    assert!(map.bloodstains.is_empty());
}

#[test]
fn room_floor_excludes_first_row_and_column() {
    let mut map = TileMap::blank(1);
    let room = Rect::new(10, 10, 4, 3);
    map.apply_room_to_map(&room);
    for y in 0..map.height {
        for x in 0..map.width {
            let floor = x > 10 && x <= 14 && y > 10 && y <= 13;
            let expected = if floor { TileType::Floor } else { TileType::Wall };
            assert_eq!(map.tiles[map.xy_idx(x, y)], expected, "tile {},{}", x, y);
        }
    }
}

#[test]
fn tunnels_carve_both_ends_in_either_order() {
    let mut map = TileMap::blank(1);
    map.apply_horizontal_tunnel(9, 4, 7);
    map.apply_vertical_tunnel(2, 6, 20);
    let floors: Vec<usize> = (0..MAPCOUNT).filter(|i| map.tiles[*i] == TileType::Floor).collect();
    let mut expected: Vec<usize> = (4..=9).map(|x| 7 * 80 + x).collect();
    expected.extend((2..=6).map(|y| y * 80 + 20));
    expected.sort();
    assert_eq!(floors, expected);
}

#[test]
fn tunnel_never_carves_the_first_tile() {
    let mut map = TileMap::blank(1);
    map.apply_horizontal_tunnel(0, 3, 0);
    assert_eq!(map.tiles[0], TileType::Wall);
    assert_eq!(map.tiles[1], TileType::Floor);
    assert_eq!(map.tiles[3], TileType::Floor);
    map.apply_vertical_tunnel(0, 2, 0);
    assert_eq!(map.tiles[0], TileType::Wall);
    assert_eq!(map.tiles[80], TileType::Floor);
    assert_eq!(map.tiles[160], TileType::Floor);
}

#[test]
fn add_room_joins_centres_horizontal_first() {
    let mut map = TileMap::blank(1);
    map.add_room(Rect::new(2, 2, 6, 6), true);
    map.add_room(Rect::new(20, 20, 6, 6), true);
    assert_eq!(map.rooms.len(), 2);
    // centres are (5, 5) and (23, 23): along row 5, then down column 23
    for x in 5..=23 {
        assert_eq!(map.tiles[map.xy_idx(x, 5)], TileType::Floor);
    }
    for y in 5..=23 {
        assert_eq!(map.tiles[map.xy_idx(23, y)], TileType::Floor);
    }
    assert_eq!(map.tiles[map.xy_idx(5, 12)], TileType::Wall);
}

#[test]
fn add_room_joins_centres_vertical_first() {
    let mut map = TileMap::blank(1);
    map.add_room(Rect::new(2, 2, 6, 6), false);
    map.add_room(Rect::new(20, 20, 6, 6), false);
    for y in 5..=23 {
        assert_eq!(map.tiles[map.xy_idx(5, y)], TileType::Floor);
    }
    for x in 5..=23 {
        assert_eq!(map.tiles[map.xy_idx(x, 23)], TileType::Floor);
    }
    assert_eq!(map.tiles[map.xy_idx(12, 5)], TileType::Wall);
}

#[test]
fn room_is_free_tells_overlap_with_placed_rooms() {
    let mut map = TileMap::blank(1);
    assert!(map.room_is_free(&Rect::new(2, 2, 6, 6)));
    map.add_room(Rect::new(2, 2, 6, 6), true);
    assert!(!map.room_is_free(&Rect::new(8, 8, 6, 6)));
    assert!(map.room_is_free(&Rect::new(9, 2, 6, 6)));
}

#[test]
fn place_stairs_marks_centre_of_last_room() {
    let mut map = TileMap::blank(1);
    map.add_room(Rect::new(2, 2, 6, 6), true);
    map.add_room(Rect::new(20, 20, 8, 6), true);
    map.place_stairs();
    assert_eq!(map.tiles[map.xy_idx(24, 23)], TileType::DownStairs);
    let stairs = map.tiles.iter().filter(|t| **t == TileType::DownStairs).count();
    assert_eq!(stairs, 1);
}

#[test]
fn generated_map_has_one_way_down() {
    let mut rng = rltk::RandomNumberGenerator::seeded(7);
    let map = TileMap::generate(1, &mut rng);
    let stairs = map.tiles.iter().filter(|t| **t == TileType::DownStairs).count();
    assert_eq!(stairs, 1);
    let (cx, cy) = map.rooms[map.rooms.len() - 1].center();
    assert_eq!(map.tiles[map.xy_idx(cx, cy)], TileType::DownStairs);
}

#[test]
fn generated_rooms_do_not_overlap_and_keep_inside() {
    for seed in 0..40u64 {
        let mut rng = rltk::RandomNumberGenerator::seeded(seed);
        let map = TileMap::generate(2, &mut rng);
        assert!(!map.rooms.is_empty());
        assert!(map.rooms.len() <= MAX_ROOMS as usize);
        for (i, a) in map.rooms.iter().enumerate() {
            assert!(a.x1 >= 1 && a.y1 >= 1 && a.x2 <= map.width - 2 && a.y2 <= map.height - 2);
            assert!(a.x2 - a.x1 >= 6 && a.x2 - a.x1 <= 9);
            assert!(a.y2 - a.y1 >= 6 && a.y2 - a.y1 <= 9);
            for b in map.rooms.iter().skip(i + 1) {
                assert!(!a.intersect(b), "seed {}", seed);
            }
        }
    }
}

#[test]
fn every_open_tile_is_reachable_from_the_first_room() {
    for seed in 0..40u64 {
        let mut rng = rltk::RandomNumberGenerator::seeded(seed);
        let map = TileMap::generate(1, &mut rng);
        let seen = reachable_from(&map, map.rooms[0].center());
        for idx in 0..map.tiles.len() {
            assert_eq!(seen[idx], map.tiles[idx] != TileType::Wall, "seed {} tile {}", seed, idx);
        }
    }
}

#[test]
fn generated_map_starts_unexplored() {
    let mut rng = rltk::RandomNumberGenerator::seeded(11);
    let map = TileMap::generate(4, &mut rng);
    assert_eq!(map.depth, 4);
    assert!(map.revealed_tiles.iter().all(|b| !*b));
    assert!(map.visible_tiles.iter().all(|b| !*b));
    assert!(map.blocked.iter().all(|b| !*b));
    assert!(map.tile_content.iter().all(|c| c.is_empty()));
}

#[test]
fn different_seeds_give_different_maps() {
    let a = TileMap::generate(1, &mut rltk::RandomNumberGenerator::seeded(1));
    let b = TileMap::generate(1, &mut rltk::RandomNumberGenerator::seeded(2));
    assert!(a.tiles != b.tiles);
    let c = TileMap::generate(1, &mut rltk::RandomNumberGenerator::seeded(1));
    assert!(a.tiles == c.tiles);
}

#[test]
fn new_map_rooms_and_corridors_builds_a_level() {
    let map = TileMap::new_map_rooms_and_corridors(5);
    assert_eq!(map.depth, 5);
    assert!(!map.rooms.is_empty());
    assert_eq!(map.tiles.iter().filter(|t| **t == TileType::DownStairs).count(), 1);
}

#[test]
fn populate_blocked_follows_walls() {
    let mut map = TileMap::blank(1);
    map.add_room(Rect::new(2, 2, 6, 6), true);
    let inside = map.xy_idx(5, 5);
    map.blocked[inside] = true;
    map.blocked[0] = false;
    map.populate_blocked();
    for idx in 0..MAPCOUNT {
        assert_eq!(map.blocked[idx], map.tiles[idx] == TileType::Wall);
    }
}

#[test]
fn clear_content_index_empties_every_list() {
    let mut map = TileMap::blank(1);
    map.tile_content[5].push(doghack::components::Entity { id: 3 });
    map.tile_content[900].push(doghack::components::Entity { id: 4 });
    map.clear_content_index();
    assert_eq!(map.tile_content.len(), MAPCOUNT);
    assert!(map.tile_content.iter().all(|c| c.is_empty()));
}

#[test]
fn is_opaque_is_true_of_walls_only() {
    let mut map = TileMap::blank(1);
    map.add_room(Rect::new(2, 2, 6, 6), true);
    map.place_stairs();
    assert!(map.is_opaque(0));
    assert!(!map.is_opaque(map.xy_idx(4, 4)));
    assert!(!map.is_opaque(map.xy_idx(5, 5)));
    assert!(map.is_opaque(MAPCOUNT + 10));
}

#[test]
fn dimensions_are_width_and_height() {
    let map = TileMap::blank(1);
    let d = map.dimensions();
    assert_eq!((d.x, d.y), (80, 42));
}

#[test]
fn exits_of_an_open_tile_are_all_eight_neighbours() {
    let mut map = TileMap::blank(1);
    map.add_room(Rect::new(2, 2, 6, 6), true);
    map.populate_blocked();
    let idx = map.xy_idx(5, 5);
    let exits = map.get_available_exits(idx);
    let w = 80usize;
    assert_eq!(
        exits,
        vec![
            (idx - 1, ORTHOGONAL_COST),
            (idx + 1, ORTHOGONAL_COST),
            (idx - w, ORTHOGONAL_COST),
            (idx + w, ORTHOGONAL_COST),
            (idx - w - 1, DIAGONAL_COST),
            (idx - w + 1, DIAGONAL_COST),
            (idx + w - 1, DIAGONAL_COST),
            (idx + w + 1, DIAGONAL_COST),
        ]
    );
    assert_eq!(ORTHOGONAL_COST, 100);
    assert_eq!(DIAGONAL_COST, 145);
}

#[test]
fn exits_leave_out_blocked_tiles() {
    let mut map = TileMap::blank(1);
    map.add_room(Rect::new(2, 2, 6, 6), true);
    map.populate_blocked();
    // (3, 3) is the corner of the floor: west and north are wall
    let idx = map.xy_idx(3, 3);
    let exits = map.get_available_exits(idx);
    assert_eq!(exits, vec![(idx + 1, 100), (idx + 80, 100), (idx + 81, 145)]);
}

#[test]
fn exits_leave_out_the_outermost_ring() {
    let mut map = TileMap::blank(1);
    for b in map.blocked.iter_mut() {
        *b = false;
    }
    let exits = map.get_available_exits(map.xy_idx(1, 1));
    let idx = 81usize;
    assert_eq!(exits, vec![(idx + 1, 100), (idx + 80, 100), (idx + 81, 145)]);
    let corner = map.xy_idx(78, 40);
    assert_eq!(map.get_available_exits(corner), vec![(corner - 1, 100), (corner - 80, 100), (corner - 81, 145)]);
    assert!(!map.is_exit_valid(0, 5));
    assert!(!map.is_exit_valid(5, 0));
    assert!(map.is_exit_valid(1, 1));
    assert!(map.is_exit_valid(78, 40));
    assert!(!map.is_exit_valid(79, 40));
    assert!(!map.is_exit_valid(78, 41));
    assert!(!map.is_exit_valid(80, 41));
    assert!(!map.is_exit_valid(-3, 4));
}

#[test]
fn pathing_distance_squared_is_pythagoras_without_the_root() {
    let map = TileMap::blank(1);
    let a = map.xy_idx(3, 4);
    let b = map.xy_idx(6, 8);
    assert_eq!(map.get_pathing_distance_squared(a, b), 25);
    assert_eq!(map.get_pathing_distance_squared(b, a), 25);
    assert_eq!(map.get_pathing_distance_squared(a, a), 0);
    assert_eq!(map.get_pathing_distance_squared(0, MAPCOUNT - 1), 79 * 79 + 41 * 41);
}

#[test]
fn border_counts_as_wall_and_never_as_floor() {
    let mut map = TileMap::blank(1);
    for t in map.tiles.iter_mut() {
        *t = TileType::Floor;
    }
    assert!(is_wall(&map, 0, 5));
    assert!(is_wall(&map, 79, 5));
    assert!(is_wall(&map, 5, 41));
    assert!(is_wall(&map, -1, -1));
    assert!(!is_wall(&map, 1, 1));
    assert!(!is_wall(&map, 78, 40));
    assert!(!is_floor(&map, 0, 5));
    assert!(!is_floor(&map, 79, 40));
    assert!(is_floor(&map, 1, 1));
    assert!(is_floor(&map, 78, 40));
}

#[test]
fn wall_glyph_follows_the_four_neighbours() {
    let mut map = TileMap::blank(1);
    // all wall: a wall in the middle has walls on all sides and no floor at the corners
    assert_eq!(tilemap_wall_glyph(&map, 10, 10), 82);
    map.add_room(Rect::new(10, 10, 6, 6), true);
    // floor is x 11..=16, y 11..=16
    // the wall left of the floor, (10, 13): walls north and south, wall west, floor east
    assert_eq!(tilemap_wall_glyph(&map, 10, 13), 51);
    // the wall above the floor, (13, 10): walls west, east and north, floor south
    assert_eq!(tilemap_wall_glyph(&map, 13, 10), 114);
    // the corner (10, 10): all four neighbours are wall, floor to the south-east only
    assert_eq!(tilemap_wall_glyph(&map, 10, 10), 90);
    // the corner (17, 10): floor at (16, 11), which is x - 1, y + 1
    assert_eq!(tilemap_wall_glyph(&map, 17, 10), 49);
    // the corner (17, 17): floor at (16, 16), which is x - 1, y - 1
    assert_eq!(tilemap_wall_glyph(&map, 17, 17), 45);
    // the corner (10, 17): floor at (11, 16), which is x + 1, y - 1
    assert_eq!(tilemap_wall_glyph(&map, 10, 17), 43);
    // a floor tile in the middle, asked as if it were a wall: no wall around
    assert_eq!(tilemap_wall_glyph(&map, 13, 13), 0);
}

#[test]
fn tile_glyph_is_blank_until_revealed() {
    let mut map = TileMap::blank(1);
    map.add_room(Rect::new(10, 10, 6, 6), true);
    map.place_stairs();
    let floor = map.xy_idx(11, 11);
    let stairs = map.xy_idx(13, 13);
    let wall = map.xy_idx(10, 13);
    assert_eq!(map.tile_glyph(floor), 32);
    assert_eq!(map.tile_glyph(wall), 32);
    map.revealed_tiles[floor] = true;
    map.revealed_tiles[stairs] = true;
    map.revealed_tiles[wall] = true;
    assert_eq!(map.tile_glyph(floor), 128);
    assert_eq!(map.tile_glyph(stairs), 177);
    assert_eq!(map.tile_glyph(wall), 51);
}
