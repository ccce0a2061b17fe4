use bracket_lib::random::RandomNumberGenerator;
use dungeon_crawler::camera::Camera;
use dungeon_crawler::components::{Carried, Equipped, Item, ProvidesDestructionOnLevelProgress, Weapon};
use dungeon_crawler::map::GameMap;
use dungeon_crawler::map_builder::MapTheme;
use dungeon_crawler::point::Point;
use dungeon_crawler::spawner::spawn_player;
use dungeon_crawler::spawner::template::{EntityType, Frequency, Template, Templates};
use dungeon_crawler::state::State;
use dungeon_crawler::store::{EntityData, EntityStore};
use dungeon_crawler::systems::build_scheduler;
use dungeon_crawler::systems::SystemName;
use dungeon_crawler::turn_state::{GameKey, TurnState};

fn small_templates() -> Templates {
    Templates {
        entities: vec![Template {
            entity_type: EntityType::Enemy,
            levels: vec![0, 1, 2],
            frequency: Frequency::Repeated(5),
            name: String::from("Goblin"),
            glyph: 'g',
            provides: None,
            hp: Some(1),
            base_damage: Some(1),
        }],
    }
}

fn hand_built_state(turn: TurnState) -> (State, dungeon_crawler::components::Entity) {
    let mut ecs = EntityStore::new();
    let player = spawn_player(&mut ecs, Point { x: 10, y: 10 });
    let mut map = GameMap::new();
    map.update_dijkstra_maps();
    let camera = Camera::new(Point { x: 10, y: 10 });
    let state = State {
        ecs,
        map,
        camera,
        turn_state: turn,
        theme: MapTheme::Dungeon,
        templates: small_templates(),
        rng: RandomNumberGenerator::seeded(9),
        moves: Vec::new(),
        attacks: Vec::new(),
        activations: Vec::new(),
    };
    (state, player)
}

#[test]
fn advancing_a_level_keeps_the_surviving_inventory() {
    let (mut state, player) = hand_built_state(TurnState::NextLevel);
    // X is doomed by the stairs, Y is carried, Z is equipped.
    let mut x = EntityData::empty();
    x.item = Some(Item);
    x.carried = Some(Carried { by: player });
    x.provides_destruction_on_level_progress = Some(ProvidesDestructionOnLevelProgress);
    let x = state.ecs.push(x);
    let mut y = EntityData::empty();
    y.item = Some(Item);
    y.carried = Some(Carried { by: player });
    let y = state.ecs.push(y);
    let mut z = EntityData::empty();
    z.item = Some(Item);
    z.weapon = Some(Weapon);
    z.equipped = Some(Equipped { by: player });
    let z = state.ecs.push(z);
    let level_before = state.ecs.slots[player.id]
        .as_ref()
        .unwrap()
        .player
        .as_ref()
        .unwrap()
        .map_level;
    state.advance_level();
    assert!(state.ecs.alive(player));
    assert!(!state.ecs.alive(x));
    assert!(state.ecs.alive(y));
    assert!(state.ecs.alive(z));
    let after = state.ecs.slots[player.id].as_ref().unwrap();
    assert_eq!(after.player.as_ref().unwrap().map_level, level_before + 1);
    assert_eq!(state.turn_state, TurnState::AwaitingInput);
}

#[test]
fn a_fresh_game_awaits_input() {
    let state = State::new(small_templates());
    assert_eq!(state.turn_state, TurnState::AwaitingInput);
    let players = state
        .ecs
        .slots
        .iter()
        .filter(|s| s.as_ref().map(|d| d.player.is_some()).unwrap_or(false))
        .count();
    assert_eq!(players, 1);
}

#[test]
fn a_few_ticks_run_every_pipeline() {
    let mut state = State::new(small_templates());
    let mouse = Point { x: 0, y: 0 };
    let frame = state.tick(Some(GameKey::Right), mouse);
    assert!(frame.banner.is_none());
    assert_eq!(state.turn_state, TurnState::PlayerTurn);
    state.tick(None, mouse);
    // One player phase leads to the monster phase unless an override fired.
    let after_player = state.turn_state;
    assert!(
        after_player == TurnState::MonsterTurn || after_player == TurnState::NextLevel
            || after_player == TurnState::Victory || after_player == TurnState::GameOver
    );
    if after_player == TurnState::MonsterTurn {
        state.tick(None, mouse);
    }
}

#[test]
fn the_scheduler_lists_the_three_pipelines_in_order() {
    let s = build_scheduler();
    assert_eq!(
        s.input,
        vec![
            SystemName::PlayerInput,
            SystemName::Fov,
            SystemName::MapRender,
            SystemName::EntityRender,
            SystemName::Hud,
            SystemName::Tooltips,
        ]
    );
    assert_eq!(s.player[0], SystemName::UseItems);
    assert_eq!(s.player[1], SystemName::Moving);
    assert_eq!(*s.player.last().unwrap(), SystemName::EndTurn);
    assert_eq!(*s.monster.last().unwrap(), SystemName::EndTurn);
    assert!(s.monster.contains(&SystemName::Combat));
    assert!(s.monster.contains(&SystemName::RandomMove));
    assert!(s.monster.contains(&SystemName::RoamingAndChasing));
}

#[test]
fn the_hud_reports_the_player_state() {
    let (state, _player) = hand_built_state(TurnState::AwaitingInput);
    let hud = dungeon_crawler::systems::hud::hud(&state.ecs);
    assert_eq!(hud.health_current, 10);
    assert_eq!(hud.health_max, 10);
    assert_eq!(hud.map_level, 0);
}
