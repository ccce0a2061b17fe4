use dungeon_crawler::map::{GameMap, Revealed, TileType};
use dungeon_crawler::point::Point;
use dungeon_crawler::{NUM_TILES, SCREEN_HEIGHT, SCREEN_WIDTH};

#[test]
fn index_point_round_trip() {
    for idx in [0usize, 1, 79, 80, 3999] {
        let p = GameMap::map_point(idx);
        assert_eq!(GameMap::map_idx(p), idx);
    }
    assert_eq!(GameMap::map_idx(Point { x: 3, y: 2 }), 163);
    assert_eq!(GameMap::map_point(163), Point { x: 3, y: 2 });
}

#[test]
fn bounds_and_entry() {
    assert!(GameMap::in_bounds(Point { x: 0, y: 0 }));
    assert!(GameMap::in_bounds(Point { x: 79, y: 49 }));
    assert!(!GameMap::in_bounds(Point { x: 80, y: 0 }));
    assert!(!GameMap::in_bounds(Point { x: 0, y: 50 }));
    assert!(!GameMap::in_bounds(Point { x: -1, y: 0 }));

    let mut map = GameMap::new();
    assert!(map.can_enter_tile(Point { x: 5, y: 5 }));
    let idx = GameMap::map_idx(Point { x: 5, y: 5 });
    map.tiles[idx] = TileType::Wall;
    assert!(!map.can_enter_tile(Point { x: 5, y: 5 }));
    map.tiles[idx] = TileType::Exit;
    assert!(map.can_enter_tile(Point { x: 5, y: 5 }));
    assert!(!map.can_enter_tile(Point { x: -3, y: 5 }));
}

#[test]
fn try_idx_matches_bounds() {
    assert_eq!(GameMap::try_idx(Point { x: 2, y: 1 }), Some(82));
    assert_eq!(GameMap::try_idx(Point { x: 80, y: 1 }), None);
}

#[test]
fn revealability_marks_open_neighborhoods() {
    let mut map = GameMap::new();
    // An all-wall map except one open cell.
    for i in 0..NUM_TILES {
        map.tiles[i] = TileType::Wall;
    }
    let open = GameMap::map_idx(Point { x: 10, y: 10 });
    map.tiles[open] = TileType::Floor;
    map.update_revealability();
    for dy in -2i32..=2 {
        for dx in -2i32..=2 {
            let idx = GameMap::map_idx(Point { x: 10 + dx, y: 10 + dy });
            let expect = dx.abs() <= 1 && dy.abs() <= 1;
            assert_eq!(map.revealed_tiles[idx] == Revealed::Unrevealed, expect);
        }
    }
}

#[test]
fn revealability_is_idempotent() {
    let mut map = GameMap::new();
    for i in 0..NUM_TILES {
        if i % 7 == 0 {
            map.tiles[i] = TileType::Wall;
        }
    }
    map.update_revealability();
    let once = map.revealed_tiles.clone();
    map.update_revealability();
    assert_eq!(map.revealed_tiles, once);
}

#[test]
fn screen_constants() {
    assert_eq!(SCREEN_WIDTH, 80);
    assert_eq!(SCREEN_HEIGHT, 50);
    assert_eq!(NUM_TILES, 4000);
}
