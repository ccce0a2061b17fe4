use vstd::prelude::*;
use crate::components::{
    AmuletOfYala, ColorPair, Damage, Entity, FieldOfView, Health, Item, Name, Player, Render, Rgb,
};
use crate::point::Point;
use crate::store::{
    data, lemma_spawn_preserves_wf, live, player_at, wf_world, EntityData, EntityStore,
};

pub mod template;

verus! {

/// Spawn the level's entities from the template set.
pub fn spawn_level(
    store: &mut EntityStore,
    templates: &template::Templates,
    rng: &mut bracket_lib::random::RandomNumberGenerator,
    level: usize,
    spawn_points: &Vec<Point>,
)
    requires
        forall|k: int|
            0 <= k < spawn_points@.len() ==> crate::map::in_bounds_xy(
                (#[trigger] spawn_points@[k]).x as int,
                spawn_points@[k].y as int,
            ),
    ensures
        old(store).slots@.len() <= final(store).slots@.len(),
        final(store).slots@.len() <= old(store).slots@.len() + spawn_points@.len(),
        forall|i: int|
            0 <= i < old(store).slots@.len() ==> final(store).slots@[i] == old(store).slots@[i],
        wf_world(old(store).slots@) ==> wf_world(final(store).slots@),
        forall|i: int|
            old(store).slots@.len() <= i < final(store).slots@.len() ==> live(final(store).slots@, i)
                && !player_at(final(store).slots@, i) && exists|t: int, k: int|
                {
                    &&& 0 <= t < templates.entities@.len()
                    &&& #[trigger] template::level_matches(templates.entities@[t], level as int)
                    &&& 0 <= k < spawn_points@.len()
                    &&& template::instantiated(
                        templates.entities@[t],
                        #[trigger] spawn_points@[k],
                        data(final(store).slots@, i),
                    )
                },
        (exists|t: int|
            0 <= t < templates.entities@.len() && #[trigger] template::level_matches(
                templates.entities@[t],
                level as int,
            ) && templates.entities@[t].frequency is Repeated && templates.entities@[t].frequency->0
                >= 1) ==> final(store).slots@.len() == old(store).slots@.len()
            + spawn_points@.len(),
{
    templates.spawn_entities(store, rng, level, spawn_points);
}

/// Create the player: position, glyph, ten hit points, sight radius
/// eight, and a base attack of one.
pub fn spawn_player(store: &mut EntityStore, pos: Point) -> (e: Entity)
    requires
        crate::map::in_bounds_xy(pos.x as int, pos.y as int),
    ensures
        final(store).slots@.len() == old(store).slots@.len() + 1,
        e.id == old(store).slots@.len(),
        player_at(final(store).slots@, e.id as int),
        is_player_data(pos, data(final(store).slots@, e.id as int)),
        forall|i: int|
            0 <= i < old(store).slots@.len() ==> final(store).slots@[i] == old(store).slots@[i],
        (forall|i: int| !player_at(old(store).slots@, i)) ==> crate::store::unique_player(
            final(store).slots@,
        ),
        (forall|i: int| !player_at(old(store).slots@, i)) && old(store).slots@.len() == 0
            ==> wf_world(final(store).slots@),
{
    let mut d = EntityData::empty();
    d.player = Some(Player { map_level: 0 });
    d.pos = Some(pos);
    d.render = Some(
        Render { color: ColorPair { fg: Rgb::white(), bg: Rgb::black() }, glyph: '@' },
    );
    d.health = Some(Health { current: 10, max: 10 });
    d.fov = Some(FieldOfView::new(8));
    d.damage = Some(Damage { damage: 1 });
    let ghost dd = d;
    let e = store.push(d);
    proof {
        let s2 = store.slots@;
        let n = old(store).slots@.len() as int;
        if forall|i: int| !player_at(old(store).slots@, i) {
            assert(player_at(s2, n));
            assert forall|j: int| #[trigger] player_at(s2, j) implies j == n by {
                if j < n {
                    assert(live(old(store).slots@, j));
                    assert(player_at(old(store).slots@, j));
                }
            }
            assert(crate::store::unique_player(s2));
        }
        if old(store).slots@.len() == 0 {
            assert forall|j: int| #[trigger] live(s2, j) implies j == 0 && data(s2, j) == dd by {}
        }
    }
    e
}

/// The exact component bag the player starts with: the player marker at
/// depth zero, the position, the `@` glyph, ten hit points, sight radius
/// eight (to be computed), a base attack of one, and nothing else.
pub open spec fn is_player_data(pos: Point, d: EntityData) -> bool {
    &&& d.player == Some(Player { map_level: 0 })
    &&& d.pos == Some(pos)
    &&& d.render == Some(
        Render {
            color: ColorPair { fg: Rgb { r: 255, g: 255, b: 255 }, bg: Rgb { r: 0, g: 0, b: 0 } },
            glyph: '@',
        },
    )
    &&& d.health == Some(Health { current: 10, max: 10 })
    &&& d.fov is Some && d.fov->0.radius == 8 && d.fov->0.is_dirty && d.fov->0.visible_tiles@.len()
        == 0
    &&& d.damage == Some(Damage { damage: 1 })
    &&& d.enemy is None
    &&& d.item is None
    &&& d.weapon is None
    &&& d.amulet is None
    &&& d.moving_randomly is None
    &&& d.roaming is None
    &&& d.carried is None
    &&& d.equipped is None
    &&& d.name is None
    &&& d.provides_healing is None
    &&& d.provides_dungeon_map is None
    &&& d.provides_depletion is None
    &&& d.provides_destruction_on_level_progress is None
    &&& d.provides_equipment is None
}

/// Create the victory amulet lying on `pos`.
pub fn spawn_amulet_of_yala(store: &mut EntityStore, pos: Point) -> (e: Entity)
    requires
        crate::map::in_bounds_xy(pos.x as int, pos.y as int),
    ensures
        final(store).slots@.len() == old(store).slots@.len() + 1,
        e.id == old(store).slots@.len(),
        live(final(store).slots@, e.id as int),
        is_amulet_data(pos, data(final(store).slots@, e.id as int)),
        forall|i: int|
            0 <= i < old(store).slots@.len() ==> final(store).slots@[i] == old(store).slots@[i],
        wf_world(old(store).slots@) ==> wf_world(final(store).slots@),
{
    let mut d = EntityData::empty();
    d.item = Some(Item);
    d.amulet = Some(AmuletOfYala);
    d.pos = Some(pos);
    d.render = Some(
        Render { color: ColorPair { fg: Rgb::white(), bg: Rgb::black() }, glyph: '|' },
    );
    d.name = Some(Name { name: amulet_name() });
    proof {
        if wf_world(store.slots@) {
            lemma_spawn_preserves_wf(store.slots@, d);
        }
    }
    store.push(d)
}

/// The exact component bag the amulet lies with: the item and amulet
/// markers, the position, the `|` glyph and its name — no health, no
/// owner, nothing else.
pub open spec fn is_amulet_data(pos: Point, d: EntityData) -> bool {
    &&& d.item == Some(Item)
    &&& d.amulet == Some(AmuletOfYala)
    &&& d.pos == Some(pos)
    &&& d.render == Some(
        Render {
            color: ColorPair { fg: Rgb { r: 255, g: 255, b: 255 }, bg: Rgb { r: 0, g: 0, b: 0 } },
            glyph: '|',
        },
    )
    &&& d.name is Some && d.name->0.name@ == "Amulet of Yala"@
    &&& d.health is None
    &&& d.carried is None
    &&& d.equipped is None
    &&& d.player is None
    &&& d.enemy is None
    &&& d.weapon is None
    &&& d.damage is None
    &&& d.fov is None
    &&& d.moving_randomly is None
    &&& d.roaming is None
    &&& d.provides_healing is None
    &&& d.provides_dungeon_map is None
    &&& d.provides_depletion is None
    &&& d.provides_destruction_on_level_progress is None
    &&& d.provides_equipment is None
}

/// The amulet's display name.
fn amulet_name() -> (r: String)
    ensures
        r@ == "Amulet of Yala"@,
{
    let s: &str = "Amulet of Yala";
    s.to_owned()
}

} // verus!
