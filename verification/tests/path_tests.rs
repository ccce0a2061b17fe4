use dungeon_crawler::map::{GameMap, TileType};
use dungeon_crawler::path::{
    available_exits, find_lowest_exit, reachable_mask, sample_lowest_exit, DijkstraField,
    DIJKSTRA_SENTINEL,
};
use dungeon_crawler::point::Point;
use dungeon_crawler::NUM_TILES;
use bracket_lib::random::RandomNumberGenerator;

#[test]
fn empty_targets_leave_only_sentinels() {
    let map = GameMap::new();
    let field = DijkstraField::new(&map.tiles, &Vec::new());
    for i in 0..NUM_TILES {
        assert_eq!(field.values[i], DIJKSTRA_SENTINEL);
    }
}

#[test]
fn distances_grow_by_steps() {
    let map = GameMap::new();
    let start = GameMap::map_idx(Point { x: 10, y: 10 });
    let field = DijkstraField::new(&map.tiles, &vec![start]);
    assert_eq!(field.values[start], 0);
    assert_eq!(field.values[GameMap::map_idx(Point { x: 11, y: 10 })], 1);
    assert_eq!(field.values[GameMap::map_idx(Point { x: 13, y: 13 })], 6);
}

#[test]
fn walls_are_never_reached() {
    let mut map = GameMap::new();
    let wall = GameMap::map_idx(Point { x: 11, y: 10 });
    map.tiles[wall] = TileType::Wall;
    let start = GameMap::map_idx(Point { x: 10, y: 10 });
    let field = DijkstraField::new(&map.tiles, &vec![start]);
    assert_eq!(field.values[wall], DIJKSTRA_SENTINEL);
    // The cell behind the wall is still reached, around it.
    assert_eq!(field.values[GameMap::map_idx(Point { x: 12, y: 10 })], 4);
}

#[test]
fn lowest_exit_steps_toward_target() {
    let map = GameMap::new();
    let target = GameMap::map_idx(Point { x: 10, y: 10 });
    let field = DijkstraField::new(&map.tiles, &vec![target]);
    let from = GameMap::map_idx(Point { x: 14, y: 10 });
    let step = find_lowest_exit(&field, from, &map).unwrap();
    assert_eq!(step, GameMap::map_idx(Point { x: 13, y: 10 }));
    let mut rng = RandomNumberGenerator::seeded(11);
    let sampled = sample_lowest_exit(&mut rng, &field, from, &map).unwrap();
    assert_eq!(sampled, GameMap::map_idx(Point { x: 13, y: 10 }));
    // At the target itself every neighbor is uphill.
    assert_eq!(find_lowest_exit(&field, target, &map), None);
}

#[test]
fn exits_enumerate_enterable_neighbors() {
    let mut map = GameMap::new();
    let west = GameMap::map_idx(Point { x: 9, y: 10 });
    map.tiles[west] = TileType::Wall;
    let exits = available_exits(&map, GameMap::map_idx(Point { x: 10, y: 10 }));
    assert_eq!(
        exits,
        vec![
            GameMap::map_idx(Point { x: 11, y: 10 }),
            GameMap::map_idx(Point { x: 10, y: 9 }),
            GameMap::map_idx(Point { x: 10, y: 11 }),
        ]
    );
}

#[test]
fn reachability_respects_walls() {
    let mut map = GameMap::new();
    // Wall off a single cell completely.
    let boxed = Point { x: 20, y: 20 };
    for (dx, dy) in [(-1, 0), (1, 0), (0, -1), (0, 1)] {
        let idx = GameMap::map_idx(Point { x: boxed.x + dx, y: boxed.y + dy });
        map.tiles[idx] = TileType::Wall;
    }
    let start = GameMap::map_idx(Point { x: 1, y: 1 });
    let mask = reachable_mask(&map.tiles, start);
    assert!(mask[start]);
    assert!(mask[GameMap::map_idx(Point { x: 40, y: 25 })]);
    assert!(!mask[GameMap::map_idx(boxed)]);
    assert!(!mask[GameMap::map_idx(Point { x: 21, y: 20 })]);
}
