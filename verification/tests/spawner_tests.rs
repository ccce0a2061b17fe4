use bracket_lib::random::RandomNumberGenerator;
use dungeon_crawler::point::Point;
use dungeon_crawler::spawner::spawn_amulet_of_yala;
use dungeon_crawler::spawner::template::{EntityType, Frequency, Template, Templates};
use dungeon_crawler::store::EntityStore;

fn orc_template() -> Template {
    Template {
        entity_type: EntityType::Enemy,
        levels: vec![0, 1, 2],
        frequency: Frequency::Repeated(10),
        name: String::from("Orc"),
        glyph: 'o',
        provides: None,
        hp: Some(2),
        base_damage: Some(1),
    }
}

fn relic_template() -> Template {
    Template {
        entity_type: EntityType::Item,
        levels: vec![0],
        frequency: Frequency::Once,
        name: String::from("Rusty Relic"),
        glyph: '|',
        provides: Some(vec![
            (String::from("Healing"), 4),
            (String::from("Depletion"), 0),
            (String::from("Banana"), 1),
        ]),
        hp: None,
        base_damage: None,
    }
}

#[test]
fn enemies_spawn_with_sight_roaming_and_health() {
    let templates = Templates { entities: vec![orc_template()] };
    let mut store = EntityStore::new();
    let mut rng = RandomNumberGenerator::seeded(5);
    let points = vec![Point { x: 5, y: 5 }, Point { x: 6, y: 5 }];
    templates.spawn_entities(&mut store, &mut rng, 0, &points);
    assert_eq!(store.slots.len(), 2);
    for slot in &store.slots {
        let d = slot.as_ref().unwrap();
        assert!(d.enemy.is_some());
        assert!(d.fov.is_some());
        assert_eq!(d.fov.as_ref().unwrap().radius, 6);
        assert!(d.roaming.is_some());
        assert_eq!(d.health.as_ref().unwrap().current, 2);
        assert!(d.player.is_none());
    }
}

#[test]
fn a_one_off_template_spawns_at_most_once() {
    let templates = Templates { entities: vec![orc_template(), relic_template()] };
    let mut store = EntityStore::new();
    let mut rng = RandomNumberGenerator::seeded(6);
    let points: Vec<Point> = (0..20).map(|k| Point { x: 5 + k, y: 7 }).collect();
    templates.spawn_entities(&mut store, &mut rng, 0, &points);
    let relics = store
        .slots
        .iter()
        .filter(|s| {
            s.as_ref()
                .map(|d| d.name.as_ref().map(|n| n.name == "Rusty Relic").unwrap_or(false))
                .unwrap_or(false)
        })
        .count();
    assert!(relics <= 1);
    assert_eq!(store.slots.len(), 20);
}

#[test]
fn unknown_capability_tags_are_ignored() {
    let templates = Templates { entities: vec![relic_template()] };
    let mut store = EntityStore::new();
    templates.spawn_entity(Point { x: 3, y: 3 }, 0, &mut store);
    let d = store.slots[0].as_ref().unwrap();
    assert!(d.item.is_some());
    assert!(d.provides_healing.is_some());
    assert_eq!(d.provides_healing.as_ref().unwrap().amount, 4);
    assert!(d.provides_depletion.is_some());
    assert!(d.provides_dungeon_map.is_none());
    assert!(d.provides_equipment.is_none());
}

#[test]
fn levels_filter_which_templates_spawn() {
    let templates = Templates { entities: vec![orc_template(), relic_template()] };
    let mut store = EntityStore::new();
    let mut rng = RandomNumberGenerator::seeded(7);
    let points = vec![Point { x: 5, y: 5 }];
    // The relic exists only on the first level; deeper only orcs spawn.
    templates.spawn_entities(&mut store, &mut rng, 2, &points);
    let d = store.slots[0].as_ref().unwrap();
    assert_eq!(d.name.as_ref().unwrap().name, "Orc");
}

#[test]
fn the_amulet_lies_where_it_is_spawned() {
    let mut store = EntityStore::new();
    let e = spawn_amulet_of_yala(&mut store, Point { x: 30, y: 30 });
    let d = store.slots[e.id].as_ref().unwrap();
    assert!(d.amulet.is_some());
    assert_eq!(d.pos, Some(Point { x: 30, y: 30 }));
    assert_eq!(d.name.as_ref().unwrap().name, "Amulet of Yala");
}
