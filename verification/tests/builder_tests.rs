use bracket_lib::random::RandomNumberGenerator;
use dungeon_crawler::map::{GameMap, TileType};
use dungeon_crawler::map_builder::automata::CellularAutomataArchitect;
use dungeon_crawler::map_builder::drunkard::DrunkardsWalkArchitect;
use dungeon_crawler::map_builder::rooms::RoomsArchitect;
use dungeon_crawler::map_builder::MapBuilder;
use dungeon_crawler::path::reachable_mask;
use dungeon_crawler::{SCREEN_HEIGHT, SCREEN_WIDTH};

fn boundary_is_walled(map: &GameMap) -> bool {
    for x in 0..SCREEN_WIDTH {
        for y in [0, SCREEN_HEIGHT - 1] {
            let idx = GameMap::map_idx(dungeon_crawler::point::Point { x, y });
            if map.tiles[idx] != TileType::Wall {
                return false;
            }
        }
    }
    for y in 0..SCREEN_HEIGHT {
        for x in [0, SCREEN_WIDTH - 1] {
            let idx = GameMap::map_idx(dungeon_crawler::point::Point { x, y });
            if map.tiles[idx] != TileType::Wall {
                return false;
            }
        }
    }
    true
}

fn check_builder(mb: &dungeon_crawler::map_builder::MapBuilder) {
    assert!(boundary_is_walled(&mb.map));
    assert!(mb.map.can_enter_tile(mb.player_start));
    assert!(mb.map.can_enter_tile(mb.amulet_start));
    let start = GameMap::map_idx(mb.player_start);
    let mask = reachable_mask(&mb.map.tiles, start);
    assert!(mask[GameMap::map_idx(mb.amulet_start)]);
    for p in &mb.entity_spawns {
        assert!(mb.map.can_enter_tile(*p));
        assert!(mask[GameMap::map_idx(*p)]);
        assert_ne!(*p, mb.player_start);
    }
}

#[test]
fn rooms_architect_builds_a_sound_level() {
    let mut rng = RandomNumberGenerator::seeded(1);
    let mb = RoomsArchitect::new(&mut rng);
    check_builder(&mb);
    assert!(!mb.rooms.is_empty());
}

#[test]
fn automata_architect_builds_a_sound_level() {
    let mut rng = RandomNumberGenerator::seeded(2);
    let mb = CellularAutomataArchitect::new(&mut rng);
    check_builder(&mb);
    // A real random stream grows real caves; a stuck one would not.
    let floors = mb.map.tiles.iter().filter(|t| **t == TileType::Floor).count();
    assert!(floors > 50);
}

#[test]
fn drunkard_architect_terminates_and_builds_a_sound_level() {
    let mut rng = RandomNumberGenerator::seeded(3);
    let mb = DrunkardsWalkArchitect::new(&mut rng);
    check_builder(&mb);
    let floors = mb.map.tiles.iter().filter(|t| **t == TileType::Floor).count();
    assert!(floors > 500);
}

#[test]
fn the_random_architect_is_one_of_the_three() {
    let mut rng = RandomNumberGenerator::seeded(4);
    let mb = MapBuilder::new(&mut rng);
    check_builder(&mb);
}
