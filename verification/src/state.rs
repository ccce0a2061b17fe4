use vstd::prelude::*;
use crate::camera::Camera;
use crate::components::{ActivateItem, Entity, WantsToAttack, WantsToMove};
use crate::map::{dijkstra_cache_ok, idx_of, lemma_point_of_idx_of, GameMap, TileType};
use crate::map_builder::{builder_ok, MapBuilder, MapTheme};
use crate::point::Point;
use crate::rng::rng_new;
use crate::spawner::{spawn_amulet_of_yala, spawn_level, spawn_player};
use crate::spawner::template::Templates;
use crate::store::{
    data, lemma_apply_removals_preserves_wf, lemma_wf_transfer_except_fov, live, player_at,
    same_except_fov, wf_world, Command, CommandBuffer, EntityStore,
};
use crate::systems::end_turn::{end_turn, find_player, player_slot};
use crate::systems::entity_renders::{entity_render, EntityDraw};
use crate::systems::hud::{hud, HudData};
use crate::systems::map_render::{map_render, TileDraw};
use crate::systems::moving::moving;
use crate::systems::player_input::player_input;
use crate::systems::random_move::random_move;
use crate::systems::roaming_and_chasing::roaming_and_chasing;
use crate::systems::tooltips::{tooltips, Tooltip};
use crate::systems::use_items::use_items;
use crate::turn_state::{GameKey, TurnState};
use crate::NUM_TILES;

verus! {

/// Whether some cell of the grid holds the exit.
pub open spec fn has_exit(m: GameMap) -> bool {
    exists|c: int| 0 <= c < NUM_TILES && (#[trigger] m.tiles@[c]) == TileType::Exit
}

/// A terminal screen shown instead of the dungeon.
#[derive(Clone, Copy, PartialEq, Eq, Structural, Debug)]
pub enum Banner {
    GameOver,
    Victory,
}

/// Everything one tick asks the display to draw.
pub struct Frame {
    pub tiles: Vec<TileDraw>,
    pub entities: Vec<EntityDraw>,
    pub hud: Option<HudData>,
    pub tooltips: Vec<Tooltip>,
    pub banner: Option<Banner>,
}

/// The whole game: the entity store, the level, the camera, the phase
/// of the turn machine, the pending intents, the template set and the
/// random stream.
pub struct State {
    pub ecs: EntityStore,
    pub map: GameMap,
    pub camera: Camera,
    pub turn_state: TurnState,
    pub theme: MapTheme,
    pub templates: Templates,
    pub rng: bracket_lib::random::RandomNumberGenerator,
    pub moves: Vec<WantsToMove>,
    pub attacks: Vec<WantsToAttack>,
    pub activations: Vec<ActivateItem>,
}

/// The invariant a running game keeps: a whole grid with correct
/// cached distance fields, a well-formed entity store, and a camera
/// window near the grid.
pub open spec fn state_wf(s: State) -> bool {
    &&& s.map.wf()
    &&& dijkstra_cache_ok(s.map)
    &&& wf_world(s.ecs.slots@)
    &&& crate::systems::use_items::activations_by_player(s.ecs.slots@, s.activations@)
    &&& -1000 <= s.camera.left_x <= 1000
    &&& -1000 <= s.camera.right_x <= 1000
    &&& -1000 <= s.camera.top_y <= 1000
    &&& -1000 <= s.camera.bottom_y <= 1000
}

/// What a freshly spawned entity may be: the amulet lying somewhere,
/// or an instance of a template matching the level at some grid cell.
pub open spec fn level_spawn_ok(
    ents: Seq<crate::spawner::template::Template>,
    level: int,
    d: crate::store::EntityData,
) -> bool {
    ||| exists|q: Point| crate::spawner::is_amulet_data(q, d)
    ||| exists|t: int, q: Point|
        {
            &&& 0 <= t < ents.len()
            &&& #[trigger] crate::spawner::template::level_matches(ents[t], level)
            &&& crate::map::in_bounds_xy(q.x as int, #[trigger] q.y as int)
            &&& crate::spawner::template::instantiated(ents[t], q, d)
        }
}

/// The movement fold reads the map only through enterability, which
/// depends on the tiles alone: two maps with equal tiles fold alike.
proof fn lemma_moving_fold_same_tiles(
    slots: Seq<Option<crate::store::EntityData>>,
    moves: Seq<WantsToMove>,
    m1: GameMap,
    m2: GameMap,
)
    requires
        m1.tiles@ == m2.tiles@,
    ensures
        crate::systems::moving::moving_fold(slots, moves, m1)
            == crate::systems::moving::moving_fold(slots, moves, m2),
    decreases moves.len(),
{
    if moves.len() > 0 {
        lemma_moving_fold_same_tiles(slots, moves.drop_last(), m1, m2);
    }
}

/// A camera that follows any point stays near the grid.
proof fn lemma_follows_bounded(c: Camera, p: Point)
    requires
        c.follows(p),
    ensures
        -1000 <= c.left_x <= 1000,
        -1000 <= c.right_x <= 1000,
        -1000 <= c.top_y <= 1000,
        -1000 <= c.bottom_y <= 1000,
{
}

/// Finish a built level: turn the farthest cell into the exit (or
/// spawn the amulet on the final level), spawn the level's entities,
/// and rebuild the caches.
fn finish_level(
    ecs: &mut EntityStore,
    templates: &Templates,
    rng: &mut bracket_lib::random::RandomNumberGenerator,
    mut mb: MapBuilder,
    level: u32,
    with_amulet: bool,
) -> (r: (GameMap, Camera, MapTheme))
    requires
        builder_ok(mb),
        wf_world(old(ecs).slots@),
    ensures
        r.0.wf(),
        dijkstra_cache_ok(r.0),
        old(ecs).slots@.len() <= final(ecs).slots@.len(),
        wf_world(final(ecs).slots@),
        forall|i: int| 0 <= i < old(ecs).slots@.len() ==> final(ecs).slots@[i] == old(ecs).slots@[i],
        -1000 <= r.1.left_x <= 1000,
        -1000 <= r.1.right_x <= 1000,
        -1000 <= r.1.top_y <= 1000,
        -1000 <= r.1.bottom_y <= 1000,
        // Enterability carries over from the architect's map, so the
        // old start cells stay walkable.
        forall|q: Point| mb.map.spec_can_enter(q) ==> r.0.spec_can_enter(q),
        // A non-final level holds an exit; the final level holds the
        // amulet.
        !with_amulet ==> 0 <= idx_of(mb.amulet_start) < NUM_TILES && r.0.tiles@[idx_of(
            mb.amulet_start,
        )] == TileType::Exit,
        with_amulet ==> exists|i: int|
            old(ecs).slots@.len() <= i < final(ecs).slots@.len() && live(final(ecs).slots@, i)
                && data(final(ecs).slots@, i).amulet is Some,
        // Every spawned entity stands on a walkable cell of the new map.
        forall|i: int|
            old(ecs).slots@.len() <= i < final(ecs).slots@.len() && data(final(ecs).slots@, i).pos
                is Some ==> r.0.spec_can_enter(data(final(ecs).slots@, i).pos->0),
        // Every spawned entity is the amulet or a template instance of
        // this level at some grid cell.
        forall|i: int|
            old(ecs).slots@.len() <= i < final(ecs).slots@.len() ==> #[trigger] live(
                final(ecs).slots@,
                i,
            ) && level_spawn_ok(templates.entities@, level as int, data(final(ecs).slots@, i)),
{
    proof {
        lemma_point_of_idx_of(mb.amulet_start.x as int, mb.amulet_start.y as int);
    }
    let ghost mb0 = mb;
    let ghost ecs0 = ecs.slots@;
    if with_amulet {
        let a = spawn_amulet_of_yala(ecs, mb.amulet_start);
        proof {
            assert(live(ecs.slots@, a.id as int) && data(ecs.slots@, a.id as int).amulet is Some);
        }
    } else {
        let exit_idx = GameMap::map_idx(mb.amulet_start);
        mb.map.tiles.set(exit_idx, TileType::Exit);
        proof {
            assert(mb.map.tiles@[exit_idx as int] == TileType::Exit);
            assert forall|q: Point| mb0.map.spec_can_enter(q) implies mb.map.spec_can_enter(q) by {
                crate::map::lemma_point_of_idx_of(q.x as int, q.y as int);
            }
        }
    }
    let ghost after_amulet = ecs.slots@;
    spawn_level(ecs, templates, rng, level as usize, &mb.entity_spawns);
    proof {
        if with_amulet {
            assert(live(ecs.slots@, ecs0.len() as int) && data(ecs.slots@, ecs0.len() as int).amulet
                is Some) by {
                assert(ecs.slots@[ecs0.len() as int] == after_amulet[ecs0.len() as int]);
            }
        }
        assert forall|i: int|
            ecs0.len() <= i < ecs.slots@.len() implies #[trigger] live(ecs.slots@, i)
            && level_spawn_ok(templates.entities@, level as int, data(ecs.slots@, i)) by {
            if i < after_amulet.len() {
                assert(ecs.slots@[i] == after_amulet[i]);
                assert(crate::spawner::is_amulet_data(mb0.amulet_start, data(ecs.slots@, i)));
            } else {
                assert(live(ecs.slots@, i));
                let (t, k) = choose|t: int, k: int|
                    {
                        &&& 0 <= t < templates.entities@.len()
                        &&& #[trigger] crate::spawner::template::level_matches(
                            templates.entities@[t],
                            level as int,
                        )
                        &&& 0 <= k < mb.entity_spawns@.len()
                        &&& crate::spawner::template::instantiated(
                            templates.entities@[t],
                            #[trigger] mb.entity_spawns@[k],
                            data(ecs.slots@, i),
                        )
                    };
                assert(mb0.map.spec_can_enter(mb0.entity_spawns@[k]));
                assert(crate::map::in_bounds_xy(
                    mb.entity_spawns@[k].x as int,
                    mb.entity_spawns@[k].y as int,
                ));
            }
        }
        assert forall|i: int|
            ecs0.len() <= i < ecs.slots@.len() && data(ecs.slots@, i).pos is Some implies mb.map.spec_can_enter(
            data(ecs.slots@, i).pos->0,
        ) by {
            if i < after_amulet.len() {
                assert(ecs.slots@[i] == after_amulet[i]);
                crate::map::lemma_point_of_idx_of(
                    mb0.amulet_start.x as int,
                    mb0.amulet_start.y as int,
                );
                assert(mb0.map.spec_can_enter(mb0.amulet_start));
            } else {
                assert(live(ecs.slots@, i));
                let (t, k) = choose|t: int, k: int|
                    {
                        &&& 0 <= t < templates.entities@.len()
                        &&& #[trigger] crate::spawner::template::level_matches(
                            templates.entities@[t],
                            level as int,
                        )
                        &&& 0 <= k < mb.entity_spawns@.len()
                        &&& crate::spawner::template::instantiated(
                            templates.entities@[t],
                            #[trigger] mb.entity_spawns@[k],
                            data(ecs.slots@, i),
                        )
                    };
                assert(data(ecs.slots@, i).pos->0 == mb.entity_spawns@[k]);
                assert(mb0.map.spec_can_enter(mb0.entity_spawns@[k]));
            }
        }
    }
    mb.map.update_dijkstra_maps();
    let camera = Camera::new(mb.player_start);
    proof {
        lemma_follows_bounded(camera, mb.player_start);
        lemma_point_of_idx_of(mb.player_start.x as int, mb.player_start.y as int);
        if !with_amulet {
            lemma_point_of_idx_of(mb0.amulet_start.x as int, mb0.amulet_start.y as int);
            let c = idx_of(mb0.amulet_start);
            assert(0 <= c < NUM_TILES && mb.map.tiles@[c] == TileType::Exit);
            assert(exists|cc: int|
                0 <= cc < NUM_TILES && (#[trigger] mb.map.tiles@[cc]) == TileType::Exit);
        }
    }
    (mb.map, camera, mb.theme)
}

impl State {
    /// Start a new game around the loaded template set.
    pub fn new(templates: Templates) -> (s: State)
        ensures
            state_wf(s),
            s.turn_state == TurnState::AwaitingInput,
            player_at(s.ecs.slots@, 0),
            data(s.ecs.slots@, 0).player->0.map_level == 0,
            data(s.ecs.slots@, 0).health == Some(crate::components::Health { current: 10, max: 10 }),
            data(s.ecs.slots@, 0).pos is Some && s.map.spec_can_enter(data(s.ecs.slots@, 0).pos->0),
            forall|i: int|
                #[trigger] live(s.ecs.slots@, i) && data(s.ecs.slots@, i).pos is Some
                    ==> s.map.spec_can_enter(data(s.ecs.slots@, i).pos->0),
            has_exit(s.map),
    {
        let mut rng = rng_new();
        let mut ecs = EntityStore::new();
        let mb = MapBuilder::new(&mut rng);
        proof {
            lemma_point_of_idx_of(mb.player_start.x as int, mb.player_start.y as int);
        }
        let ghost start0 = mb.player_start;
        spawn_player(&mut ecs, mb.player_start);
        let (map, camera, theme) = finish_level(&mut ecs, &templates, &mut rng, mb, 0, false);
        proof {
            assert(map.spec_can_enter(start0));
            assert(has_exit(map));
            assert forall|i: int|
                #[trigger] live(ecs.slots@, i) && data(ecs.slots@, i).pos is Some implies map.spec_can_enter(
                data(ecs.slots@, i).pos->0,
            ) by {
                if i == 0 {
                    assert(data(ecs.slots@, 0).pos == Some(start0));
                }
            }
        }
        State {
            ecs,
            map,
            camera,
            turn_state: TurnState::AwaitingInput,
            theme,
            templates,
            rng,
            moves: Vec::new(),
            attacks: Vec::new(),
            activations: Vec::new(),
        }
    }

    /// Throw the world away and start over.
    pub fn reset_game_state(&mut self)
        ensures
            state_wf(*final(self)),
            final(self).turn_state == TurnState::AwaitingInput,
            player_at(final(self).ecs.slots@, 0),
            data(final(self).ecs.slots@, 0).player->0.map_level == 0,
            data(final(self).ecs.slots@, 0).health == Some(
                crate::components::Health { current: 10, max: 10 },
            ),
            data(final(self).ecs.slots@, 0).pos is Some && final(self).map.spec_can_enter(
                data(final(self).ecs.slots@, 0).pos->0,
            ),
            forall|i: int|
                #[trigger] live(final(self).ecs.slots@, i) && data(final(self).ecs.slots@, i).pos
                    is Some ==> final(self).map.spec_can_enter(
                    data(final(self).ecs.slots@, i).pos->0,
                ),
            has_exit(final(self).map),
    {
        let mut ecs = EntityStore::new();
        let mb = MapBuilder::new(&mut self.rng);
        proof {
            lemma_point_of_idx_of(mb.player_start.x as int, mb.player_start.y as int);
        }
        let ghost start0 = mb.player_start;
        spawn_player(&mut ecs, mb.player_start);
        let (map, camera, theme) = finish_level(&mut ecs, &self.templates, &mut self.rng, mb, 0, false);
        proof {
            assert(map.spec_can_enter(start0));
            assert(has_exit(map));
            assert forall|i: int|
                #[trigger] live(ecs.slots@, i) && data(ecs.slots@, i).pos is Some implies map.spec_can_enter(
                data(ecs.slots@, i).pos->0,
            ) by {
                if i == 0 {
                    assert(data(ecs.slots@, 0).pos == Some(start0));
                }
            }
        }
        self.ecs = ecs;
        self.map = map;
        self.camera = camera;
        self.theme = theme;
        self.turn_state = TurnState::AwaitingInput;
        self.moves = Vec::new();
        self.attacks = Vec::new();
        self.activations = Vec::new();
    }

    /// Move to the next dungeon level: keep the player and whatever the
    /// player carries or wears that survives the stairs, drop every
    /// other entity, mark the remaining views dirty, raise the depth,
    /// and build a fresh level; the amulet appears on the deepest one.
    pub fn advance_level(&mut self)
        requires
            state_wf(*old(self)),
        ensures
            state_wf(*final(self)),
            final(self).turn_state == TurnState::AwaitingInput,
            forall|i: int|
                0 <= i < old(self).ecs.slots@.len() && i != player_slot(old(self).ecs.slots@)
                    ==> (live(final(self).ecs.slots@, i) <==> keeps(old(self).ecs.slots@, i)),
            player_at(final(self).ecs.slots@, player_slot(old(self).ecs.slots@)),
            forall|i: int|
                0 <= i < old(self).ecs.slots@.len() && i != player_slot(old(self).ecs.slots@)
                    && keeps(old(self).ecs.slots@, i) ==> {
                    &&& data(final(self).ecs.slots@, i).carried == data(old(self).ecs.slots@, i).carried
                    &&& data(final(self).ecs.slots@, i).equipped == data(old(self).ecs.slots@, i).equipped
                    &&& data(final(self).ecs.slots@, i).weapon == data(old(self).ecs.slots@, i).weapon
                    &&& data(final(self).ecs.slots@, i).damage == data(old(self).ecs.slots@, i).damage
                    &&& (data(final(self).ecs.slots@, i).fov is Some ==> data(
                        final(self).ecs.slots@,
                        i,
                    ).fov->0.is_dirty)
                },
            // The dungeon deepens by one (at the integer's edge it stays).
            data(old(self).ecs.slots@, player_slot(old(self).ecs.slots@)).player->0.map_level
                < u32::MAX ==> data(
                final(self).ecs.slots@,
                player_slot(old(self).ecs.slots@),
            ).player->0.map_level == data(
                old(self).ecs.slots@,
                player_slot(old(self).ecs.slots@),
            ).player->0.map_level + 1,
            // The deepest level holds the amulet, lying on a walkable
            // cell; any other level a fresh exit.
            data(final(self).ecs.slots@, player_slot(old(self).ecs.slots@)).player->0.map_level
                == 2 ==> exists|i: int|
                #[trigger] live(final(self).ecs.slots@, i) && data(final(self).ecs.slots@, i).amulet
                    is Some && data(final(self).ecs.slots@, i).pos is Some
                    && final(self).map.spec_can_enter(data(final(self).ecs.slots@, i).pos->0),
            // The new level's population: every entity beyond the old
            // slots is the amulet or an instance of a template matching
            // the new depth, placed on the grid.
            forall|i: int|
                old(self).ecs.slots@.len() <= i < final(self).ecs.slots@.len() ==> #[trigger] live(
                    final(self).ecs.slots@,
                    i,
                ) && level_spawn_ok(
                    final(self).templates.entities@,
                    data(
                        final(self).ecs.slots@,
                        player_slot(old(self).ecs.slots@),
                    ).player->0.map_level as int,
                    data(final(self).ecs.slots@, i),
                ),
            data(final(self).ecs.slots@, player_slot(old(self).ecs.slots@)).player->0.map_level
                != 2 ==> has_exit(final(self).map),
            forall|i: int|
                #[trigger] live(final(self).ecs.slots@, i) && data(final(self).ecs.slots@, i).pos
                    is Some ==> final(self).map.spec_can_enter(
                    data(final(self).ecs.slots@, i).pos->0,
                ),
    {
        let ghost slots0 = self.ecs.slots@;
        let p = find_player(&self.ecs);
        // Keep the player and the surviving inventory; drop the rest.
        let mut buf = CommandBuffer::new();
        let mut i: usize = 0;
        while i < self.ecs.slots.len()
            invariant
                self.ecs.slots@ == slots0,
                wf_world(slots0),
                p as int == player_slot(slots0),
                player_at(slots0, p as int),
                i <= slots0.len(),
                forall|m: int|
                    0 <= m < buf.commands@.len() ==> (#[trigger] buf.commands@[m]) is RemoveEntity
                        && !player_at(slots0, buf.commands@[m]->RemoveEntity_0.id as int)
                        && !keeps(slots0, buf.commands@[m]->RemoveEntity_0.id as int),
                buf.commands@ == removals_upto(slots0, p as int, i as int),
            decreases slots0.len() - i,
        {
            let keep = i == p || match self.ecs.slots[i].as_ref() {
                Some(d) => {
                    let attached_to_player = match (&d.carried, &d.equipped) {
                        (Some(c), _) => c.by.id == p,
                        (_, Some(q)) => q.by.id == p,
                        _ => false,
                    };
                    attached_to_player && d.provides_destruction_on_level_progress.is_none()
                },
                None => true,
            };
            if !keep {
                proof {
                    if player_at(slots0, i as int) {
                        assert(i as int == p as int);
                    }
                }
                buf.push(Command::RemoveEntity(Entity { id: i }));
            }
            proof {
                assert(buf.commands@ =~= removals_upto(slots0, p as int, i as int + 1));
            }
            i += 1;
        }
        proof {
            lemma_apply_removals_preserves_wf(slots0, buf.commands@);
            lemma_removals_keep(slots0, p as int, slots0.len() as int);
        }
        buf.flush(&mut self.ecs);
        let ghost after_removals = self.ecs.slots@;
        // Every surviving view must be recomputed on the new level.
        let mut j: usize = 0;
        while j < self.ecs.slots.len()
            invariant
                wf_world(after_removals),
                j <= self.ecs.slots@.len(),
                self.ecs.slots@.len() == after_removals.len(),
                same_except_fov(after_removals, self.ecs.slots@),
                forall|x: int|
                    0 <= x < j && live(after_removals, x) && data(self.ecs.slots@, x).fov is Some
                        ==> (#[trigger] data(self.ecs.slots@, x).fov)->0.is_dirty,
                forall|x: int|
                    j <= x < after_removals.len() ==> self.ecs.slots@[x] == after_removals[x],
            decreases self.ecs.slots@.len() - j,
        {
            let ghost pre = self.ecs.slots@;
            let slot = &mut self.ecs.slots[j];
            if let Some(d) = slot.as_mut() {
                if let Some(f) = d.fov.as_mut() {
                    f.is_dirty = true;
                }
            }
            proof {
                assert forall|x: int|
                    0 <= x < j + 1 && live(after_removals, x) && data(self.ecs.slots@, x).fov
                        is Some implies (#[trigger] data(self.ecs.slots@, x).fov)->0.is_dirty by {
                    if x != j as int {
                        assert(self.ecs.slots@[x] == pre[x]);
                    }
                }
                assert forall|x: int| 0 <= x < self.ecs.slots@.len() implies (#[trigger] live(
                    after_removals,
                    x,
                ) <==> live(self.ecs.slots@, x)) by {
                    if x != j as int {
                        assert(self.ecs.slots@[x] == pre[x]);
                    }
                }
                assert forall|x: int|
                    #[trigger] live(after_removals, x) && live(self.ecs.slots@, x) implies data(
                    self.ecs.slots@,
                    x,
                ) == (crate::store::EntityData {
                    fov: data(self.ecs.slots@, x).fov,
                    ..data(after_removals, x)
                }) by {
                    if x != j as int {
                        assert(self.ecs.slots@[x] == pre[x]);
                    }
                }
            }
            j += 1;
        }
        proof {
            lemma_wf_transfer_except_fov(after_removals, self.ecs.slots@);
        }
        let ghost after_dirty = self.ecs.slots@;
        // Raise the depth and move the player to the new start.
        let new_level: u32 = {
            let slot = &mut self.ecs.slots[p];
            match slot.as_mut() {
                Some(d) => match d.player.as_mut() {
                    Some(pl) => {
                        if pl.map_level < u32::MAX {
                            pl.map_level = pl.map_level + 1;
                        }
                        pl.map_level
                    },
                    None => 0,
                },
                None => 0,
            }
        };
        let ghost after_bump = self.ecs.slots@;
        proof {
            lemma_wf_after_level_bump(after_dirty, after_bump, p as int);
            assert(data(after_bump, p as int).player->0.map_level == new_level);
            assert(after_removals[p as int] == slots0[p as int]);
            assert(live(after_removals, p as int));
            assert(data(after_dirty, p as int).player == data(after_removals, p as int).player);
            if data(slots0, p as int).player->0.map_level < u32::MAX {
                assert(new_level == data(slots0, p as int).player->0.map_level + 1);
            }
        }
        let mb = MapBuilder::new(&mut self.rng);
        let player_start = mb.player_start;
        proof {
            lemma_point_of_idx_of(player_start.x as int, player_start.y as int);
        }
        // Put the player on the new start.
        let ghost before_move = self.ecs.slots@;
        {
            let slot = &mut self.ecs.slots[p];
            if let Some(d) = slot.as_mut() {
                d.pos = Some(player_start);
            }
        }
        proof {
            lemma_wf_after_player_move(before_move, self.ecs.slots@, p as int, player_start);
        }
        let ghost after_move = self.ecs.slots@;
        let (map, camera, theme) = finish_level(
            &mut self.ecs,
            &self.templates,
            &mut self.rng,
            mb,
            new_level,
            new_level == 2,
        );
        proof {
            assert forall|i: int|
                0 <= i < slots0.len() && i != p as int implies (live(self.ecs.slots@, i) <==> keeps(
                slots0,
                i,
            )) by {
                assert(self.ecs.slots@[i] == after_move[i]);
                if live(after_removals, i) {
                    assert(live(after_dirty, i));
                }
                if live(after_dirty, i) {
                    assert(live(after_removals, i));
                }
            }
            assert(player_at(self.ecs.slots@, p as int)) by {
                assert(self.ecs.slots@[p as int] == after_move[p as int]);
            }
            assert forall|i: int|
                0 <= i < slots0.len() && i != p as int && keeps(slots0, i) implies {
                &&& data(self.ecs.slots@, i).carried == data(slots0, i).carried
                &&& data(self.ecs.slots@, i).equipped == data(slots0, i).equipped
                &&& data(self.ecs.slots@, i).weapon == data(slots0, i).weapon
                &&& data(self.ecs.slots@, i).damage == data(slots0, i).damage
                &&& (data(self.ecs.slots@, i).fov is Some ==> data(self.ecs.slots@, i).fov->0.is_dirty)
            } by {
                assert(self.ecs.slots@[i] == after_move[i]);
                assert(live(after_removals, i));
                assert(data(after_removals, i) == data(slots0, i));
                assert(live(after_dirty, i));
            }
            assert(data(self.ecs.slots@, p as int).player->0.map_level == new_level) by {
                assert(self.ecs.slots@[p as int] == after_move[p as int]);
            }
            assert forall|i: int|
                #[trigger] live(self.ecs.slots@, i) && data(self.ecs.slots@, i).pos is Some
                implies map.spec_can_enter(data(self.ecs.slots@, i).pos->0) by {
                if i < after_move.len() {
                    assert(self.ecs.slots@[i] == after_move[i]);
                    if i == p as int {
                        assert(data(after_move, p as int).pos == Some(player_start));
                        assert(map.spec_can_enter(player_start));
                    } else {
                        assert(live(slots0, i) ==> true);
                        assert(keeps(slots0, i));
                        assert(data(self.ecs.slots@, i).carried is Some || data(
                            self.ecs.slots@,
                            i,
                        ).equipped is Some);
                        assert(data(self.ecs.slots@, i).pos is None);
                    }
                }
            }
            if new_level == 2 {
                let w = choose|i: int|
                    after_move.len() <= i < self.ecs.slots@.len() && live(self.ecs.slots@, i)
                        && data(self.ecs.slots@, i).amulet is Some;
                assert(live(self.ecs.slots@, w) && data(self.ecs.slots@, w).amulet is Some);
                assert(level_spawn_ok(
                    self.templates.entities@,
                    new_level as int,
                    data(self.ecs.slots@, w),
                ));
                assert(data(self.ecs.slots@, w).pos is Some) by {
                    if exists|q: Point| crate::spawner::is_amulet_data(q, data(self.ecs.slots@, w)) {
                        let q = choose|q: Point|
                            crate::spawner::is_amulet_data(q, data(self.ecs.slots@, w));
                    } else {
                        let (t, q) = choose|t: int, q: Point|
                            {
                                &&& 0 <= t < self.templates.entities@.len()
                                &&& #[trigger] crate::spawner::template::level_matches(
                                    self.templates.entities@[t],
                                    new_level as int,
                                )
                                &&& crate::map::in_bounds_xy(q.x as int, #[trigger] q.y as int)
                                &&& crate::spawner::template::instantiated(
                                    self.templates.entities@[t],
                                    q,
                                    data(self.ecs.slots@, w),
                                )
                            };
                        assert(data(self.ecs.slots@, w).pos == Some(q));
                    }
                }
            } else {
                assert(has_exit(map)) by {
                    assert(map.tiles@[idx_of(mb.amulet_start)] == TileType::Exit);
                }
            }
        }
        self.map = map;
        self.camera = camera;
        self.theme = theme;
        self.turn_state = TurnState::AwaitingInput;
        self.moves = Vec::new();
        self.attacks = Vec::new();
        self.activations = Vec::new();
    }
}

impl State {
    /// Run one tick: dispatch the pipeline the current phase selects,
    /// or handle the terminal screens and the level advance. The game
    /// invariant survives every tick.
    pub fn tick(&mut self, key: Option<GameKey>, mouse_pos: Point) -> (frame: Frame)
        requires
            state_wf(*old(self)),
            -1000 <= mouse_pos.x <= 1000,
            -1000 <= mouse_pos.y <= 1000,
        ensures
            state_wf(*final(self)),
            // The turn machine: waiting ends on any key; a player or
            // monster phase ends through the transition table over the
            // world the phase produced; the terminal screens restart
            // only on the restart key; a level advance leaves the game
            // waiting.
            old(self).turn_state == TurnState::AwaitingInput ==> final(self).turn_state == (
            if key is Some {
                TurnState::PlayerTurn
            } else {
                TurnState::AwaitingInput
            }),
            (old(self).turn_state == TurnState::PlayerTurn || old(self).turn_state
                == TurnState::MonsterTurn) ==> final(self).turn_state
                == crate::systems::end_turn::end_turn_transition(
                old(self).turn_state,
                crate::systems::end_turn::player_hp(final(self).ecs.slots@),
                crate::systems::end_turn::player_on_exit(final(self).ecs.slots@, final(self).map),
                crate::systems::end_turn::player_on_amulet(final(self).ecs.slots@),
            ),
            old(self).turn_state == TurnState::GameOver ==> frame.banner == Some(Banner::GameOver)
                && (key != Some(GameKey::Key1) ==> *final(self) == *old(self)) && (key == Some(
                GameKey::Key1,
            ) ==> final(self).turn_state == TurnState::AwaitingInput),
            old(self).turn_state == TurnState::Victory ==> frame.banner == Some(Banner::Victory)
                && (key != Some(GameKey::Key1) ==> *final(self) == *old(self)) && (key == Some(
                GameKey::Key1,
            ) ==> final(self).turn_state == TurnState::AwaitingInput),
            old(self).turn_state == TurnState::NextLevel ==> final(self).turn_state
                == TurnState::AwaitingInput,
            // A radius-zero view that needed recomputation and got one
            // sees exactly its owner's cell afterwards.
            (old(self).turn_state == TurnState::AwaitingInput || old(self).turn_state
                == TurnState::PlayerTurn || old(self).turn_state == TurnState::MonsterTurn)
                ==> forall|i: int|
                live(old(self).ecs.slots@, i) && data(old(self).ecs.slots@, i).fov is Some && data(
                    old(self).ecs.slots@,
                    i,
                ).fov->0.is_dirty && data(old(self).ecs.slots@, i).fov->0.radius == 0
                    && #[trigger] live(final(self).ecs.slots@, i) && data(
                    final(self).ecs.slots@,
                    i,
                ).pos is Some ==> data(final(self).ecs.slots@, i).fov is Some && !data(
                    final(self).ecs.slots@,
                    i,
                ).fov->0.is_dirty && crate::systems::fov::view_of(final(self).ecs.slots@, i)
                    == seq![data(final(self).ecs.slots@, i).pos->0],
            // The three pipelines never touch the tiles; only a level
            // change builds a new grid.
            (old(self).turn_state == TurnState::AwaitingInput || old(self).turn_state
                == TurnState::PlayerTurn || old(self).turn_state == TurnState::MonsterTurn)
                ==> final(self).map.tiles@ == old(self).map.tiles@,
            // A player phase changes the store exactly by the queued
            // activations and then the queued movement intents; the
            // view recomputation afterwards touches views alone.
            old(self).turn_state == TurnState::PlayerTurn ==> same_except_fov(
                crate::systems::moving::moving_fold(
                    crate::systems::use_items::use_items_slots(
                        old(self).ecs.slots@,
                        old(self).activations@,
                    ),
                    old(self).moves@,
                    final(self).map,
                ),
                final(self).ecs.slots@,
            ),
            // Nobody ever ends a tick on a non-enterable tile it was not
            // already standing on.
            forall|i: int|
                #[trigger] live(final(self).ecs.slots@, i) && data(final(self).ecs.slots@, i).pos
                    is Some ==> (live(old(self).ecs.slots@, i) && data(
                    old(self).ecs.slots@,
                    i,
                ).pos == data(final(self).ecs.slots@, i).pos) || final(self).map.spec_can_enter(
                    data(final(self).ecs.slots@, i).pos->0,
                ),
    {
        let ghost s0 = self.ecs.slots@;
        let state_now = self.turn_state;
        match state_now {
            TurnState::AwaitingInput => {
                player_input(
                    &mut self.ecs,
                    key,
                    &mut self.turn_state,
                    &mut self.moves,
                    &mut self.attacks,
                    &mut self.activations,
                );
                let ghost s1 = self.ecs.slots@;
                crate::systems::fov::fov(&mut self.ecs, &mut self.map);
                proof {
                    assert forall|i: int|
                        #[trigger] live(self.ecs.slots@, i) && data(self.ecs.slots@, i).pos
                            is Some implies live(s0, i) && data(s0, i).pos == data(
                        self.ecs.slots@,
                        i,
                    ).pos by {
                        assert(live(s1, i));
                    }
                    assert forall|i: int|
                        live(s0, i) && data(s0, i).fov is Some && data(s0, i).fov->0.is_dirty
                            && data(s0, i).fov->0.radius == 0 && #[trigger] live(
                            self.ecs.slots@,
                            i,
                        ) && data(self.ecs.slots@, i).pos is Some implies data(
                        self.ecs.slots@,
                        i,
                    ).fov is Some && !data(self.ecs.slots@, i).fov->0.is_dirty
                        && crate::systems::fov::view_of(self.ecs.slots@, i) == seq![
                        data(self.ecs.slots@, i).pos->0,
                    ] by {
                        assert(live(s1, i));
                        assert(data(s1, i).fov == data(s0, i).fov);
                        assert(data(s1, i).pos == data(self.ecs.slots@, i).pos);
                        assert(data(s1, i).fov is Some && data(s1, i).fov->0.is_dirty && data(
                            s1,
                            i,
                        ).pos is Some);
                    }
                    assert forall|x: int| player_at(self.ecs.slots@, x) <==> player_at(s1, x) by {
                        if player_at(self.ecs.slots@, x) {
                            assert(live(s1, x));
                        }
                        if player_at(s1, x) {
                            assert(live(self.ecs.slots@, x));
                        }
                    }
                    assert forall|k: int|
                        0 <= k < self.activations@.len() implies player_at(
                        self.ecs.slots@,
                        (#[trigger] self.activations@[k]).used_by.id as int,
                    ) by {
                        if k < old(self).activations@.len() {
                            assert(self.activations@[k] == old(self).activations@[k]);
                            assert(player_at(s0, self.activations@[k].used_by.id as int));
                        } else {
                            assert(player_at(s0, self.activations@[k].used_by.id as int));
                        }
                    }
                }
                let tiles = map_render(&self.ecs, &self.map, &self.camera, self.theme);
                let entities = entity_render(&self.ecs, &self.camera);
                let hud_data = hud(&self.ecs);
                let tips = tooltips(&self.ecs, mouse_pos, &self.camera);
                Frame { tiles, entities, hud: Some(hud_data), tooltips: tips, banner: None }
            },
            TurnState::PlayerTurn => {
                let mut acts: Vec<ActivateItem> = Vec::new();
                core::mem::swap(&mut acts, &mut self.activations);
                use_items(&mut self.ecs, acts, &mut self.map);
                let ghost s1 = self.ecs.slots@;
                let mut mv: Vec<WantsToMove> = Vec::new();
                core::mem::swap(&mut mv, &mut self.moves);
                let ghost cam0 = self.camera;
                let ghost map1 = self.map;
                moving(&mut self.ecs, mv, &self.map, &mut self.camera);
                proof {
                    if self.camera != cam0 {
                        lemma_camera_after_move(self.camera);
                    }
                }
                let ghost s2 = self.ecs.slots@;
                crate::systems::fov::fov(&mut self.ecs, &mut self.map);
                proof {
                    lemma_moving_fold_same_tiles(s1, mv@, map1, self.map);
                    assert(same_except_fov(
                        crate::systems::moving::moving_fold(s1, mv@, self.map),
                        self.ecs.slots@,
                    ));
                    assert forall|i: int|
                        #[trigger] live(self.ecs.slots@, i) && data(self.ecs.slots@, i).pos
                            is Some implies (live(s0, i) && data(s0, i).pos == data(
                        self.ecs.slots@,
                        i,
                    ).pos) || self.map.spec_can_enter(data(self.ecs.slots@, i).pos->0) by {
                        assert(live(s2, i));
                        assert(data(self.ecs.slots@, i) == (crate::store::EntityData {
                            fov: data(self.ecs.slots@, i).fov,
                            ..data(s2, i)
                        }));
                        assert(data(s2, i).pos == data(self.ecs.slots@, i).pos);
                        assert(wf_world(s0));
                        assert(wf_world(s1));
                        if live(s1, i) && data(s1, i).pos == data(s2, i).pos {
                            assert(live(s0, i) && data(s0, i).pos == data(s1, i).pos);
                        } else {
                            assert(map1.spec_can_enter(data(s2, i).pos->0));
                            assert(self.map.tiles@ == map1.tiles@);
                            crate::map::lemma_point_of_idx_of(
                                data(s2, i).pos->0.x as int,
                                data(s2, i).pos->0.y as int,
                            );
                        }
                    }
                    assert forall|i: int|
                        live(s0, i) && data(s0, i).fov is Some && data(s0, i).fov->0.is_dirty
                            && data(s0, i).fov->0.radius == 0 && #[trigger] live(
                            self.ecs.slots@,
                            i,
                        ) && data(self.ecs.slots@, i).pos is Some implies data(
                        self.ecs.slots@,
                        i,
                    ).fov is Some && !data(self.ecs.slots@, i).fov->0.is_dirty
                        && crate::systems::fov::view_of(self.ecs.slots@, i) == seq![
                        data(self.ecs.slots@, i).pos->0,
                    ] by {
                        assert(live(s2, i));
                        assert(live(s1, i));
                        assert(data(s1, i).fov == data(s0, i).fov);
                        assert(data(s2, i).fov is Some);
                        assert(data(s2, i).fov->0.radius == 0);
                        assert(data(s2, i).fov->0.is_dirty);
                        assert(data(s2, i).pos == data(self.ecs.slots@, i).pos);
                        assert(data(s2, i).fov is Some && data(s2, i).fov->0.is_dirty && data(
                            s2,
                            i,
                        ).pos is Some);
                    }
                }
                let tiles = map_render(&self.ecs, &self.map, &self.camera, self.theme);
                let entities = entity_render(&self.ecs, &self.camera);
                let hud_data = hud(&self.ecs);
                end_turn(&self.ecs, &mut self.turn_state, &self.map);
                Frame { tiles, entities, hud: Some(hud_data), tooltips: Vec::new(), banner: None }
            },
            TurnState::MonsterTurn => {
                let mut acts: Vec<ActivateItem> = Vec::new();
                core::mem::swap(&mut acts, &mut self.activations);
                use_items(&mut self.ecs, acts, &mut self.map);
                let ghost s1u = self.ecs.slots@;
                random_move(&self.ecs, &mut self.rng, &mut self.moves, &mut self.attacks);
                roaming_and_chasing(
                    &mut self.ecs,
                    &self.map,
                    &mut self.rng,
                    &mut self.moves,
                    &mut self.attacks,
                );
                let ghost s1m = self.ecs.slots@;
                let mut mv: Vec<WantsToMove> = Vec::new();
                core::mem::swap(&mut mv, &mut self.moves);
                let ghost cam0 = self.camera;
                let ghost map1m = self.map;
                moving(&mut self.ecs, mv, &self.map, &mut self.camera);
                proof {
                    if self.camera != cam0 {
                        lemma_camera_after_move(self.camera);
                    }
                }
                let ghost s2m = self.ecs.slots@;
                let mut ats: Vec<WantsToAttack> = Vec::new();
                core::mem::swap(&mut ats, &mut self.attacks);
                let ghost s3 = self.ecs.slots@;
                if self.ecs.slots.len() <= 0x4000_0000 {
                    crate::systems::combat::combat(&mut self.ecs, ats);
                }
                let ghost s4 = self.ecs.slots@;
                crate::systems::fov::fov(&mut self.ecs, &mut self.map);
                proof {
                    assert forall|i: int|
                        #[trigger] live(self.ecs.slots@, i) && data(self.ecs.slots@, i).pos
                            is Some implies (live(s0, i) && data(s0, i).pos == data(
                        self.ecs.slots@,
                        i,
                    ).pos) || self.map.spec_can_enter(data(self.ecs.slots@, i).pos->0) by {
                        assert(live(s4, i));
                        assert(data(self.ecs.slots@, i) == (crate::store::EntityData {
                            fov: data(self.ecs.slots@, i).fov,
                            ..data(s4, i)
                        }));
                        assert(data(s4, i).pos == data(self.ecs.slots@, i).pos);
                        assert(wf_world(s0));
                        assert(wf_world(s1u));
                        assert(wf_world(s1m));
                        assert(wf_world(s2m));
                        assert(live(s3, i) && data(s3, i).pos == data(s4, i).pos);
                        if live(s1m, i) && data(s1m, i).pos == data(s3, i).pos {
                            assert(live(s1u, i));
                            assert(data(s1m, i) == (crate::store::EntityData {
                                roaming: data(s1m, i).roaming,
                                ..data(s1u, i)
                            }));
                            assert(live(s0, i) && data(s0, i).pos == data(s1u, i).pos);
                        } else {
                            assert(map1m.spec_can_enter(data(s3, i).pos->0));
                            assert(self.map.tiles@ == map1m.tiles@);
                            crate::map::lemma_point_of_idx_of(
                                data(s3, i).pos->0.x as int,
                                data(s3, i).pos->0.y as int,
                            );
                        }
                    }
                    assert forall|i: int|
                        live(s0, i) && data(s0, i).fov is Some && data(s0, i).fov->0.is_dirty
                            && data(s0, i).fov->0.radius == 0 && #[trigger] live(
                            self.ecs.slots@,
                            i,
                        ) && data(self.ecs.slots@, i).pos is Some implies data(
                        self.ecs.slots@,
                        i,
                    ).fov is Some && !data(self.ecs.slots@, i).fov->0.is_dirty
                        && crate::systems::fov::view_of(self.ecs.slots@, i) == seq![
                        data(self.ecs.slots@, i).pos->0,
                    ] by {
                        assert(live(s4, i));
                        assert(live(s3, i) && data(s3, i).fov == data(s4, i).fov);
                        assert(live(s1m, i));
                        assert(live(s1u, i));
                        assert(data(s1u, i).fov == data(s0, i).fov);
                        assert(data(s1m, i) == (crate::store::EntityData {
                            roaming: data(s1m, i).roaming,
                            ..data(s1u, i)
                        }));
                        assert(data(s3, i).fov is Some);
                        assert(data(s3, i).fov->0.radius == 0);
                        assert(data(s3, i).fov->0.is_dirty);
                        assert(data(s4, i).pos == data(self.ecs.slots@, i).pos);
                        assert(data(s4, i).fov is Some && data(s4, i).fov->0.is_dirty && data(
                            s4,
                            i,
                        ).pos is Some);
                    }
                }
                let tiles = map_render(&self.ecs, &self.map, &self.camera, self.theme);
                let entities = entity_render(&self.ecs, &self.camera);
                let hud_data = hud(&self.ecs);
                end_turn(&self.ecs, &mut self.turn_state, &self.map);
                Frame { tiles, entities, hud: Some(hud_data), tooltips: Vec::new(), banner: None }
            },
            TurnState::GameOver => {
                match key {
                    Some(GameKey::Key1) => {
                        self.reset_game_state();
                        proof {
                            assert forall|i: int|
                                #[trigger] live(self.ecs.slots@, i) && data(
                                    self.ecs.slots@,
                                    i,
                                ).pos is Some implies self.map.spec_can_enter(
                                data(self.ecs.slots@, i).pos->0,
                            ) by {}
                        }
                    },
                    _ => {},
                }
                Frame {
                    tiles: Vec::new(),
                    entities: Vec::new(),
                    hud: None,
                    tooltips: Vec::new(),
                    banner: Some(Banner::GameOver),
                }
            },
            TurnState::Victory => {
                match key {
                    Some(GameKey::Key1) => {
                        self.reset_game_state();
                        proof {
                            assert forall|i: int|
                                #[trigger] live(self.ecs.slots@, i) && data(
                                    self.ecs.slots@,
                                    i,
                                ).pos is Some implies self.map.spec_can_enter(
                                data(self.ecs.slots@, i).pos->0,
                            ) by {}
                        }
                    },
                    _ => {},
                }
                Frame {
                    tiles: Vec::new(),
                    entities: Vec::new(),
                    hud: None,
                    tooltips: Vec::new(),
                    banner: Some(Banner::Victory),
                }
            },
            TurnState::NextLevel => {
                self.advance_level();
                Frame {
                    tiles: Vec::new(),
                    entities: Vec::new(),
                    hud: None,
                    tooltips: Vec::new(),
                    banner: None,
                }
            },
        }
    }
}

/// The camera after any applied movement follows some grid cell, so it
/// stays near the grid.
proof fn lemma_camera_after_move(c: Camera)
    requires
        exists|p: Point| #[trigger] c.follows(p),
    ensures
        -1000 <= c.left_x <= 1000,
        -1000 <= c.right_x <= 1000,
        -1000 <= c.top_y <= 1000,
        -1000 <= c.bottom_y <= 1000,
{
    let p = choose|p: Point| #[trigger] c.follows(p);
    lemma_follows_bounded(c, p);
}

/// Whether slot `i` survives a level advance: it is attached to the
/// player and not doomed by the stairs. (The player's own slot is kept
/// separately.)
pub open spec fn keeps(slots: Seq<Option<crate::store::EntityData>>, i: int) -> bool {
    live(slots, i) && ((data(slots, i).carried is Some && data(slots, i).carried->0.by.id as int
        == player_slot(slots)) || (data(slots, i).equipped is Some && data(
        slots,
        i,
    ).equipped->0.by.id as int == player_slot(slots))) && data(
        slots,
        i,
    ).provides_destruction_on_level_progress is None
}

/// The removal commands of a level advance: every live slot, except the
/// player and what it keeps.
pub open spec fn removals_upto(
    slots: Seq<Option<crate::store::EntityData>>,
    p: int,
    n: int,
) -> Seq<Command>
    decreases n,
{
    if n <= 0 {
        Seq::empty()
    } else {
        let prev = removals_upto(slots, p, n - 1);
        if live(slots, n - 1) && n - 1 != p && !keeps(slots, n - 1) {
            prev.push(Command::RemoveEntity(Entity { id: (n - 1) as usize }))
        } else {
            prev
        }
    }
}

/// After flushing the advance removals, a slot below the old length is
/// live exactly when it was kept (the player aside).
proof fn lemma_removals_keep(slots: Seq<Option<crate::store::EntityData>>, p: int, n: int)
    requires
        wf_world(slots),
        p == player_slot(slots),
        n == slots.len(),
        slots.len() <= usize::MAX,
    ensures
        crate::store::apply_commands(slots, removals_upto(slots, p, n)).len() == slots.len(),
        0 <= p < slots.len() ==> crate::store::apply_commands(slots, removals_upto(slots, p, n))[p]
            == slots[p],
        forall|i: int|
            0 <= i < slots.len() && i != p ==> (live(
                crate::store::apply_commands(slots, removals_upto(slots, p, n)),
                i,
            ) <==> keeps(slots, i)),
        forall|i: int|
            0 <= i < slots.len() && i != p && keeps(slots, i) ==> data(
                crate::store::apply_commands(slots, removals_upto(slots, p, n)),
                i,
            ) == data(slots, i),
        player_at(crate::store::apply_commands(slots, removals_upto(slots, p, n)), p),
{
    lemma_removal_fold_effect(slots, slots, p, n);
}

/// Applying a prefix of the removal list removes exactly the dropped
/// slots and touches nothing else.
proof fn lemma_removal_fold_effect(
    orig: Seq<Option<crate::store::EntityData>>,
    slots: Seq<Option<crate::store::EntityData>>,
    p: int,
    n: int,
)
    requires
        wf_world(orig),
        p == player_slot(orig),
        slots == orig,
        0 <= n <= orig.len(),
        orig.len() <= usize::MAX,
    ensures
        ({
            let res = crate::store::apply_commands(orig, removals_upto(orig, p, n));
            &&& res.len() == orig.len()
            &&& forall|i: int|
                0 <= i < orig.len() ==> #[trigger] res[i] == (if 0 <= i < n && live(orig, i) && i
                    != p && !keeps(orig, i) {
                    None
                } else {
                    orig[i]
                })
        }),
    decreases n,
{
    if n > 0 {
        lemma_removal_fold_effect(orig, slots, p, n - 1);
        let prev = crate::store::apply_commands(orig, removals_upto(orig, p, n - 1));
        let cur = removals_upto(orig, p, n);
        if live(orig, n - 1) && n - 1 != p && !keeps(orig, n - 1) {
            assert(cur.drop_last() =~= removals_upto(orig, p, n - 1));
            assert(cur.last() == Command::RemoveEntity(Entity { id: (n - 1) as usize }));
        } else {
            assert(cur =~= removals_upto(orig, p, n - 1));
        }
    }
}

/// Bumping the player's depth keeps the world sound.
proof fn lemma_wf_after_level_bump(
    s1: Seq<Option<crate::store::EntityData>>,
    s2: Seq<Option<crate::store::EntityData>>,
    p: int,
)
    requires
        wf_world(s1),
        s2.len() == s1.len(),
        forall|x: int| 0 <= x < s1.len() && x != p ==> s2[x] == s1[x],
        live(s1, p),
        live(s2, p),
        data(s2, p) == (crate::store::EntityData { player: data(s2, p).player, ..data(s1, p) }),
        data(s2, p).player is Some <==> data(s1, p).player is Some,
    ensures
        wf_world(s2),
{
    assert forall|x: int| player_at(s2, x) <==> player_at(s1, x) by {
        if player_at(s2, x) {
            assert(live(s1, x));
        }
        if player_at(s1, x) {
            assert(live(s2, x));
        }
    }
    let q = choose|q: int|
        #[trigger] player_at(s1, q) && forall|j: int| #[trigger] player_at(s1, j) ==> j == q;
    assert(player_at(s2, q));
    assert forall|j: int| #[trigger] player_at(s2, j) implies j == q by {
        assert(player_at(s1, j));
    }
    assert forall|j: int| #[trigger] live(s2, j) && data(s2, j).equipped is Some implies {
        &&& live(s2, data(s2, j).equipped->0.by.id as int)
        &&& data(s2, data(s2, j).equipped->0.by.id as int).health is Some
        &&& player_at(s2, data(s2, j).equipped->0.by.id as int)
    } by {
        assert(live(s1, j) && data(s1, j).equipped is Some);
        assert(player_at(s1, data(s1, j).equipped->0.by.id as int));
    }
    assert forall|j: int| #[trigger] live(s2, j) implies {
        &&& !(data(s2, j).carried is Some && data(s2, j).equipped is Some)
        &&& ((data(s2, j).carried is Some || data(s2, j).equipped is Some) ==> data(s2, j).pos
            is None)
        &&& (data(s2, j).item is Some ==> data(s2, j).player is None)
        &&& (data(s2, j).pos is Some ==> crate::map::in_bounds_xy(
            data(s2, j).pos->0.x as int,
            data(s2, j).pos->0.y as int,
        ))
    } by {
        assert(live(s1, j));
    }
    assert forall|j: int| #[trigger] player_at(s2, j) implies data(s2, j).health is Some && data(
        s2,
        j,
    ).pos is Some by {
        assert(player_at(s1, j));
    }
}

/// Moving the player onto a grid cell keeps the world sound.
proof fn lemma_wf_after_player_move(
    s1: Seq<Option<crate::store::EntityData>>,
    s2: Seq<Option<crate::store::EntityData>>,
    p: int,
    pos: Point,
)
    requires
        wf_world(s1),
        crate::map::in_bounds_xy(pos.x as int, pos.y as int),
        s2.len() == s1.len(),
        forall|x: int| 0 <= x < s1.len() && x != p ==> s2[x] == s1[x],
        0 <= p < s1.len(),
        live(s1, p) ==> live(s2, p) && data(s2, p) == (crate::store::EntityData {
            pos: Some(pos),
            ..data(s1, p)
        }),
        !live(s1, p) ==> s2[p] == s1[p],
        live(s1, p) ==> data(s1, p).carried is None && data(s1, p).equipped is None,
    ensures
        wf_world(s2),
{
    assert forall|x: int| player_at(s2, x) <==> player_at(s1, x) by {
        if player_at(s2, x) {
            assert(live(s1, x));
        }
        if player_at(s1, x) {
            assert(live(s2, x));
        }
    }
    let q = choose|q: int|
        #[trigger] player_at(s1, q) && forall|j: int| #[trigger] player_at(s1, j) ==> j == q;
    assert(player_at(s2, q));
    assert forall|j: int| #[trigger] player_at(s2, j) implies j == q by {
        assert(player_at(s1, j));
    }
    assert forall|j: int| #[trigger] live(s2, j) && data(s2, j).equipped is Some implies {
        &&& live(s2, data(s2, j).equipped->0.by.id as int)
        &&& data(s2, data(s2, j).equipped->0.by.id as int).health is Some
        &&& player_at(s2, data(s2, j).equipped->0.by.id as int)
    } by {
        assert(live(s1, j) && data(s1, j).equipped is Some);
        assert(player_at(s1, data(s1, j).equipped->0.by.id as int));
    }
    assert forall|j: int| #[trigger] live(s2, j) implies {
        &&& !(data(s2, j).carried is Some && data(s2, j).equipped is Some)
        &&& ((data(s2, j).carried is Some || data(s2, j).equipped is Some) ==> data(s2, j).pos
            is None)
        &&& (data(s2, j).item is Some ==> data(s2, j).player is None)
        &&& (data(s2, j).pos is Some ==> crate::map::in_bounds_xy(
            data(s2, j).pos->0.x as int,
            data(s2, j).pos->0.y as int,
        ))
    } by {
        assert(live(s1, j));
    }
    assert forall|j: int| #[trigger] player_at(s2, j) implies data(s2, j).health is Some && data(
        s2,
        j,
    ).pos is Some by {
        assert(player_at(s1, j));
    }
}

} // verus!
