use dungeon_crawler::fov::field_of_view;
use dungeon_crawler::map::{GameMap, TileType};
use dungeon_crawler::point::Point;

#[test]
fn radius_zero_is_the_center_alone() {
    let map = GameMap::new();
    let center = Point { x: 17, y: 23 };
    let view = field_of_view(&map, center, 0);
    assert_eq!(view, vec![center]);
}

#[test]
fn open_ground_is_visible_within_radius() {
    let map = GameMap::new();
    let center = Point { x: 20, y: 20 };
    let view = field_of_view(&map, center, 3);
    assert!(view.contains(&center));
    assert!(view.contains(&Point { x: 23, y: 20 }));
    assert!(view.contains(&Point { x: 20, y: 17 }));
    assert!(!view.contains(&Point { x: 24, y: 20 }));
    for p in &view {
        let dx = (p.x - center.x) as i64;
        let dy = (p.y - center.y) as i64;
        assert!(dx * dx + dy * dy <= 9);
    }
}

#[test]
fn a_wall_blocks_the_cells_behind_it() {
    let mut map = GameMap::new();
    let wall = GameMap::map_idx(Point { x: 12, y: 10 });
    map.tiles[wall] = TileType::Wall;
    let view = field_of_view(&map, Point { x: 10, y: 10 }, 6);
    // The wall itself is lit, what lies straight behind it is not.
    assert!(view.contains(&Point { x: 12, y: 10 }));
    assert!(!view.contains(&Point { x: 14, y: 10 }));
    assert!(!view.contains(&Point { x: 16, y: 10 }));
}
