use dungeon_crawler::camera::Camera;
use dungeon_crawler::components::{
    ActivateItem, Carried, Damage, Enemy, Equipped, Health, Item, ProvidesDungeonMap, Weapon,
};
use dungeon_crawler::map::{GameMap, Revealed, TileType};
use dungeon_crawler::point::Point;
use dungeon_crawler::spawner::spawn_player;
use dungeon_crawler::store::{EntityData, EntityStore};
use dungeon_crawler::systems::combat::combat;
use dungeon_crawler::systems::end_turn::end_turn;
use dungeon_crawler::systems::moving::moving;
use dungeon_crawler::systems::player_input::player_input;
use dungeon_crawler::systems::use_items::use_items;
use dungeon_crawler::turn_state::{GameKey, TurnState};

fn open_map() -> GameMap {
    GameMap::new()
}

#[test]
fn move_into_wall_keeps_the_player_in_place() {
    // One input tick plus one player tick against a wall to the east.
    let mut store = EntityStore::new();
    let player = spawn_player(&mut store, Point { x: 40, y: 25 });
    let mut map = open_map();
    let wall = GameMap::map_idx(Point { x: 41, y: 25 });
    map.tiles[wall] = TileType::Wall;
    let mut turn = TurnState::AwaitingInput;
    let mut moves = Vec::new();
    let mut attacks = Vec::new();
    let mut activations = Vec::new();
    player_input(
        &mut store,
        Some(GameKey::Right),
        &mut turn,
        &mut moves,
        &mut attacks,
        &mut activations,
    );
    assert_eq!(turn, TurnState::PlayerTurn);
    assert_eq!(moves.len(), 1);
    let mut camera = Camera::new(Point { x: 40, y: 25 });
    moving(&mut store, moves, &map, &mut camera);
    assert_eq!(
        store.slots[player.id].as_ref().unwrap().pos,
        Some(Point { x: 40, y: 25 })
    );
    end_turn(&store, &mut turn, &map);
    assert_eq!(turn, TurnState::MonsterTurn);
}

fn enemy_at(pos: Point, hp: i32) -> EntityData {
    let mut d = EntityData::empty();
    d.enemy = Some(Enemy);
    d.pos = Some(pos);
    d.health = Some(Health { current: hp, max: hp });
    d
}

#[test]
fn attacking_an_adjacent_enemy_deals_base_damage() {
    let mut store = EntityStore::new();
    let _player = spawn_player(&mut store, Point { x: 10, y: 10 });
    let enemy = store.push(enemy_at(Point { x: 11, y: 10 }, 2));
    let mut turn = TurnState::AwaitingInput;
    let mut moves = Vec::new();
    let mut attacks = Vec::new();
    let mut activations = Vec::new();
    player_input(
        &mut store,
        Some(GameKey::Right),
        &mut turn,
        &mut moves,
        &mut attacks,
        &mut activations,
    );
    assert_eq!(moves.len(), 0);
    assert_eq!(attacks.len(), 1);
    combat(&mut store, attacks);
    assert!(store.alive(enemy));
    assert_eq!(
        store.slots[enemy.id].as_ref().unwrap().health,
        Some(Health { current: 1, max: 2 })
    );
}

#[test]
fn an_equipped_weapon_stacks_its_damage() {
    let mut store = EntityStore::new();
    let player = spawn_player(&mut store, Point { x: 10, y: 10 });
    let enemy = store.push(enemy_at(Point { x: 11, y: 10 }, 2));
    let mut sword = EntityData::empty();
    sword.item = Some(Item);
    sword.weapon = Some(Weapon);
    sword.damage = Some(Damage { damage: 3 });
    sword.equipped = Some(Equipped { by: player });
    store.push(sword);
    let mut turn = TurnState::AwaitingInput;
    let mut moves = Vec::new();
    let mut attacks = Vec::new();
    let mut activations = Vec::new();
    player_input(
        &mut store,
        Some(GameKey::Right),
        &mut turn,
        &mut moves,
        &mut attacks,
        &mut activations,
    );
    combat(&mut store, attacks);
    assert!(!store.alive(enemy));
    assert_eq!(moves.len(), 0);
}

#[test]
fn picking_up_a_weapon_replaces_the_carried_one() {
    let mut store = EntityStore::new();
    let player = spawn_player(&mut store, Point { x: 10, y: 10 });
    let mut old_weapon = EntityData::empty();
    old_weapon.item = Some(Item);
    old_weapon.weapon = Some(Weapon);
    old_weapon.damage = Some(Damage { damage: 2 });
    old_weapon.carried = Some(Carried { by: player });
    let held = store.push(old_weapon);
    let mut new_weapon = EntityData::empty();
    new_weapon.item = Some(Item);
    new_weapon.weapon = Some(Weapon);
    new_weapon.damage = Some(Damage { damage: 5 });
    new_weapon.pos = Some(Point { x: 10, y: 10 });
    let found = store.push(new_weapon);
    let mut turn = TurnState::AwaitingInput;
    let mut moves = Vec::new();
    let mut attacks = Vec::new();
    let mut activations = Vec::new();
    player_input(
        &mut store,
        Some(GameKey::G),
        &mut turn,
        &mut moves,
        &mut attacks,
        &mut activations,
    );
    assert!(!store.alive(held));
    assert!(store.alive(found));
    let picked = store.slots[found.id].as_ref().unwrap();
    assert_eq!(picked.carried.as_ref().unwrap().by, player);
    assert!(picked.pos.is_none());
}

#[test]
fn a_magic_map_promotes_only_unrevealed_cells() {
    let mut store = EntityStore::new();
    let player = spawn_player(&mut store, Point { x: 10, y: 10 });
    let mut scroll = EntityData::empty();
    scroll.item = Some(Item);
    scroll.provides_dungeon_map = Some(ProvidesDungeonMap);
    scroll.carried = Some(Carried { by: player });
    let scroll = store.push(scroll);
    let mut map = open_map();
    map.revealed_tiles[0] = Revealed::Unrevealable;
    map.revealed_tiles[1] = Revealed::Unrevealed;
    map.revealed_tiles[2] = Revealed::Seen;
    map.revealed_tiles[3] = Revealed::FromMap;
    use_items(
        &mut store,
        vec![ActivateItem { used_by: player, item: scroll }],
        &mut map,
    );
    assert_eq!(map.revealed_tiles[0], Revealed::Unrevealable);
    assert_eq!(map.revealed_tiles[1], Revealed::FromMap);
    assert_eq!(map.revealed_tiles[2], Revealed::Seen);
    assert_eq!(map.revealed_tiles[3], Revealed::FromMap);
}

#[test]
fn healing_is_clamped_to_the_maximum() {
    let mut store = EntityStore::new();
    let player = spawn_player(&mut store, Point { x: 10, y: 10 });
    if let Some(d) = store.slots[player.id].as_mut() {
        d.health = Some(Health { current: 4, max: 10 });
    }
    let mut potion = EntityData::empty();
    potion.item = Some(Item);
    potion.provides_healing = Some(dungeon_crawler::components::ProvidesHealing { amount: 9 });
    potion.provides_depletion = Some(dungeon_crawler::components::ProvidesDepletion);
    potion.carried = Some(Carried { by: player });
    let potion = store.push(potion);
    let mut map = open_map();
    use_items(
        &mut store,
        vec![ActivateItem { used_by: player, item: potion }],
        &mut map,
    );
    assert_eq!(
        store.slots[player.id].as_ref().unwrap().health,
        Some(Health { current: 10, max: 10 })
    );
    assert!(!store.alive(potion));
}

#[test]
fn end_turn_follows_the_transition_table() {
    let mut store = EntityStore::new();
    spawn_player(&mut store, Point { x: 10, y: 10 });
    let map = open_map();
    let mut turn = TurnState::AwaitingInput;
    end_turn(&store, &mut turn, &map);
    assert_eq!(turn, TurnState::AwaitingInput);
    turn = TurnState::PlayerTurn;
    end_turn(&store, &mut turn, &map);
    assert_eq!(turn, TurnState::MonsterTurn);
    end_turn(&store, &mut turn, &map);
    assert_eq!(turn, TurnState::AwaitingInput);
}

#[test]
fn end_turn_is_idempotent_on_terminal_states() {
    let mut store = EntityStore::new();
    let player = spawn_player(&mut store, Point { x: 10, y: 10 });
    if let Some(d) = store.slots[player.id].as_mut() {
        d.health = Some(Health { current: 0, max: 10 });
    }
    let map = open_map();
    let mut turn = TurnState::PlayerTurn;
    end_turn(&store, &mut turn, &map);
    assert_eq!(turn, TurnState::GameOver);
    end_turn(&store, &mut turn, &map);
    assert_eq!(turn, TurnState::GameOver);
}

#[test]
fn standing_on_the_exit_advances_the_level() {
    let mut store = EntityStore::new();
    spawn_player(&mut store, Point { x: 10, y: 10 });
    let mut map = open_map();
    let idx = GameMap::map_idx(Point { x: 10, y: 10 });
    map.tiles[idx] = TileType::Exit;
    let mut turn = TurnState::PlayerTurn;
    end_turn(&store, &mut turn, &map);
    assert_eq!(turn, TurnState::NextLevel);
}

#[test]
fn standing_on_the_amulet_wins() {
    let mut store = EntityStore::new();
    spawn_player(&mut store, Point { x: 10, y: 10 });
    let mut amulet = EntityData::empty();
    amulet.item = Some(Item);
    amulet.amulet = Some(dungeon_crawler::components::AmuletOfYala);
    amulet.pos = Some(Point { x: 10, y: 10 });
    store.push(amulet);
    let map = open_map();
    let mut turn = TurnState::MonsterTurn;
    end_turn(&store, &mut turn, &map);
    assert_eq!(turn, TurnState::Victory);
}

#[test]
fn moving_marks_the_view_dirty_and_moves_the_camera() {
    let mut store = EntityStore::new();
    let player = spawn_player(&mut store, Point { x: 40, y: 25 });
    // Clean the player's view first.
    let mut map = open_map();
    dungeon_crawler::systems::fov::fov(&mut store, &mut map);
    assert!(!store.slots[player.id].as_ref().unwrap().fov.as_ref().unwrap().is_dirty);
    let mut camera = Camera::new(Point { x: 40, y: 25 });
    moving(
        &mut store,
        vec![dungeon_crawler::components::WantsToMove {
            entity: player,
            destination: Point { x: 41, y: 25 },
        }],
        &map,
        &mut camera,
    );
    let d = store.slots[player.id].as_ref().unwrap();
    assert_eq!(d.pos, Some(Point { x: 41, y: 25 }));
    assert!(d.fov.as_ref().unwrap().is_dirty);
    assert_eq!(camera.left_x, 21);
}

#[test]
fn equipping_moves_the_item_and_demotes_the_old_weapon() {
    let mut store = EntityStore::new();
    let player = spawn_player(&mut store, Point { x: 10, y: 10 });
    let mut worn = EntityData::empty();
    worn.item = Some(Item);
    worn.weapon = Some(Weapon);
    worn.equipped = Some(Equipped { by: player });
    let worn = store.push(worn);
    let mut fresh = EntityData::empty();
    fresh.item = Some(Item);
    fresh.weapon = Some(Weapon);
    fresh.carried = Some(Carried { by: player });
    fresh.provides_equipment = Some(dungeon_crawler::components::ProvidesEquipment);
    let fresh = store.push(fresh);
    let mut map = open_map();
    use_items(
        &mut store,
        vec![ActivateItem { used_by: player, item: fresh }],
        &mut map,
    );
    // Never carried and equipped at once, and the equipper is the live
    // player with health.
    for slot in &store.slots {
        if let Some(d) = slot {
            assert!(!(d.carried.is_some() && d.equipped.is_some()));
            if let Some(q) = &d.equipped {
                let by = store.slots[q.by.id].as_ref().unwrap();
                assert!(by.health.is_some());
            }
        }
    }
    let new_state = store.slots[fresh.id].as_ref().unwrap();
    assert!(new_state.equipped.is_some());
    assert!(new_state.carried.is_none());
    let old_state = store.slots[worn.id].as_ref().unwrap();
    assert!(old_state.equipped.is_none());
    assert_eq!(old_state.carried.as_ref().unwrap().by, player);
}

#[test]
fn the_view_promotes_unrevealed_cells_to_seen_for_good() {
    let mut store = EntityStore::new();
    let player = spawn_player(&mut store, Point { x: 10, y: 10 });
    let mut map = open_map();
    map.update_revealability();
    let here = GameMap::map_idx(Point { x: 10, y: 10 });
    assert_eq!(map.revealed_tiles[here], Revealed::Unrevealed);
    dungeon_crawler::systems::fov::fov(&mut store, &mut map);
    assert_eq!(map.revealed_tiles[here], Revealed::Seen);
    // Walking away never reverts a seen cell.
    if let Some(d) = store.slots[player.id].as_mut() {
        d.pos = Some(Point { x: 30, y: 30 });
        if let Some(f) = d.fov.as_mut() {
            f.is_dirty = true;
        }
    }
    dungeon_crawler::systems::fov::fov(&mut store, &mut map);
    assert_eq!(map.revealed_tiles[here], Revealed::Seen);
}
