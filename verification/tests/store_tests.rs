use dungeon_crawler::components::{Carried, Entity, Equipped};
use dungeon_crawler::point::Point;
use dungeon_crawler::store::{Command, CommandBuffer, EntityData, EntityStore};

fn empty_data() -> EntityData {
    EntityData::empty()
}

#[test]
fn flushing_an_empty_buffer_changes_nothing() {
    let mut store = EntityStore::new();
    let mut d = empty_data();
    d.pos = Some(Point { x: 4, y: 5 });
    store.push(d);
    let before: Vec<bool> = store.slots.iter().map(|s| s.is_some()).collect();
    let pos_before = store.slots[0].as_ref().unwrap().pos;
    let mut buf = CommandBuffer::new();
    buf.flush(&mut store);
    let after: Vec<bool> = store.slots.iter().map(|s| s.is_some()).collect();
    assert_eq!(before, after);
    assert_eq!(store.slots[0].as_ref().unwrap().pos, pos_before);
}

#[test]
fn commands_apply_in_order() {
    let mut store = EntityStore::new();
    let a = store.push(empty_data());
    let b = store.push(empty_data());
    let mut buf = CommandBuffer::new();
    buf.push(Command::AddCarried(a, Carried { by: b }));
    buf.push(Command::RemoveEntity(b));
    buf.flush(&mut store);
    assert!(store.alive(a));
    assert!(!store.alive(b));
    assert_eq!(store.slots[a.id].as_ref().unwrap().carried.as_ref().unwrap().by, b);
}

#[test]
fn commands_on_dead_entities_do_nothing() {
    let mut store = EntityStore::new();
    let a = store.push(empty_data());
    let mut buf = CommandBuffer::new();
    buf.push(Command::RemoveEntity(a));
    buf.push(Command::AddEquipped(a, Equipped { by: Entity { id: 0 } }));
    buf.flush(&mut store);
    assert!(!store.alive(a));
}

#[test]
fn a_dirty_clone_forgets_the_visible_set() {
    let mut fov = dungeon_crawler::components::FieldOfView::new(6);
    assert!(fov.is_dirty);
    assert_eq!(fov.radius, 6);
    fov.visible_tiles.push(Point { x: 1, y: 1 });
    fov.is_dirty = false;
    let copy = fov.clone_dirty();
    assert!(copy.is_dirty);
    assert_eq!(copy.radius, 6);
    assert!(copy.visible_tiles.is_empty());
    assert_eq!(fov.visible_tiles.len(), 1);
}
