use vstd::prelude::*;
use crate::camera::Camera;
use crate::components::{FieldOfView, WantsToMove};
use crate::map::GameMap;
use crate::store::{
    attachments_off_grid, carried_equipped_exclusive, data, equippers_alive, live, player_at,
    positions_on_grid, roles_sound, unique_player, wf_world, EntityData, EntityStore,
};

verus! {

/// The store after one movement intent: when the mover is alive, stands
/// on a cell, and the destination is enterable, its position becomes the
/// destination and its view, if it has one, is marked dirty; otherwise
/// nothing changes.
pub open spec fn moving_step(
    slots: Seq<Option<EntityData>>,
    mv: WantsToMove,
    map: GameMap,
) -> Seq<Option<EntityData>> {
    let i = mv.entity.id as int;
    if live(slots, i) && data(slots, i).pos is Some && map.spec_can_enter(mv.destination) {
        let d = data(slots, i);
        let nfov = if d.fov is Some {
            Some(
                FieldOfView {
                    visible_tiles: d.fov->0.visible_tiles,
                    radius: d.fov->0.radius,
                    is_dirty: true,
                },
            )
        } else {
            None
        };
        slots.update(i, Some(EntityData { pos: Some(mv.destination), fov: nfov, ..d }))
    } else {
        slots
    }
}

/// The store after a whole list of movement intents, applied in order.
pub open spec fn moving_fold(
    slots: Seq<Option<EntityData>>,
    moves: Seq<WantsToMove>,
    map: GameMap,
) -> Seq<Option<EntityData>>
    decreases moves.len(),
{
    if moves.len() == 0 {
        slots
    } else {
        moving_step(moving_fold(slots, moves.drop_last(), map), moves.last(), map)
    }
}

proof fn lemma_moving_step_preserves_wf(slots: Seq<Option<EntityData>>, mv: WantsToMove, map: GameMap)
    requires
        wf_world(slots),
    ensures
        wf_world(moving_step(slots, mv, map)),
{
    let s2 = moving_step(slots, mv, map);
    let i = mv.entity.id as int;
    if live(slots, i) && data(slots, i).pos is Some && map.spec_can_enter(mv.destination) {
        assert(data(slots, i).carried is None && data(slots, i).equipped is None);
        let p = choose|p: int|
            #[trigger] player_at(slots, p) && forall|j: int| #[trigger] player_at(slots, j) ==> j == p;
        assert(player_at(s2, p));
        assert forall|j: int| #[trigger] player_at(s2, j) implies j == p by {
            assert(player_at(slots, j));
        }
        assert(unique_player(s2));
        assert forall|j: int| #[trigger] live(s2, j) && data(s2, j).equipped is Some implies {
            let by = data(s2, j).equipped->0.by.id as int;
            live(s2, by) && data(s2, by).health is Some
        } by {
            assert(live(slots, j) && data(slots, j).equipped is Some);
        }
        assert forall|j: int| #[trigger] live(s2, j) implies !(data(s2, j).carried is Some && data(
            s2,
            j,
        ).equipped is Some) by {
            assert(live(slots, j));
        }
        assert forall|j: int| #[trigger] live(s2, j) && data(s2, j).equipped is Some implies player_at(
            s2,
            data(s2, j).equipped->0.by.id as int,
        ) by {
            assert(live(slots, j) && data(slots, j).equipped is Some);
            assert(player_at(slots, data(slots, j).equipped->0.by.id as int));
        }
        assert forall|j: int|
            #[trigger] live(s2, j) && (data(s2, j).carried is Some || data(s2, j).equipped is Some)
            implies data(s2, j).pos is None by {
            assert(live(slots, j));
        }
        assert forall|j: int| #[trigger] live(s2, j) && data(s2, j).item is Some implies data(
            s2,
            j,
        ).player is None by {
            assert(live(slots, j));
        }
        assert forall|j: int| #[trigger] player_at(s2, j) implies data(s2, j).health is Some && data(
            s2,
            j,
        ).pos is Some by {
            assert(player_at(slots, j));
        }
        assert forall|j: int| #[trigger] live(s2, j) && data(s2, j).pos is Some implies crate::map::in_bounds_xy(
            data(s2, j).pos->0.x as int,
            data(s2, j).pos->0.y as int,
        ) by {
            assert(live(slots, j));
        }
    }
}

proof fn lemma_moving_fold_preserves_wf(
    slots: Seq<Option<EntityData>>,
    moves: Seq<WantsToMove>,
    map: GameMap,
)
    requires
        wf_world(slots),
    ensures
        wf_world(moving_fold(slots, moves, map)),
    decreases moves.len(),
{
    if moves.len() > 0 {
        lemma_moving_fold_preserves_wf(slots, moves.drop_last(), map);
        lemma_moving_step_preserves_wf(moving_fold(slots, moves.drop_last(), map), moves.last(), map);
    }
}

/// Consume every movement intent, in order. An intent whose destination
/// is enterable moves its entity there and marks the entity's view
/// dirty; the camera follows the player when the player moves. No
/// intent ever places an entity on a non-enterable tile, and the store
/// invariant survives.
pub fn moving(store: &mut EntityStore, moves: Vec<WantsToMove>, map: &GameMap, camera: &mut Camera)
    requires
        map.wf(),
    ensures
        final(store).slots@ == moving_fold(old(store).slots@, moves@, *map),
        wf_world(old(store).slots@) ==> wf_world(final(store).slots@),
        forall|i: int|
            #[trigger] live(final(store).slots@, i) && data(final(store).slots@, i).pos is Some
                ==> (live(old(store).slots@, i) && data(old(store).slots@, i).pos == data(
                final(store).slots@,
                i,
            ).pos) || map.spec_can_enter(data(final(store).slots@, i).pos->0),
        *final(camera) == *old(camera) || exists|k: int|
            0 <= k < moves@.len() && map.spec_can_enter(#[trigger] moves@[k].destination)
                && final(camera).follows(moves@[k].destination),
        // Movement keeps everyone alive and keeps every view's radius;
        // a dirty view stays dirty.
        forall|i: int|
            #[trigger] live(final(store).slots@, i) ==> live(old(store).slots@, i) && (data(
                final(store).slots@,
                i,
            ).fov is Some <==> data(old(store).slots@, i).fov is Some) && (data(
                old(store).slots@,
                i,
            ).fov is Some ==> data(final(store).slots@, i).fov->0.radius == data(
                old(store).slots@,
                i,
            ).fov->0.radius && (data(old(store).slots@, i).fov->0.is_dirty ==> data(
                final(store).slots@,
                i,
            ).fov->0.is_dirty)),
{
    let ghost slots0 = store.slots@;
    let mut k: usize = 0;
    while k < moves.len()
        invariant
            map.wf(),
            k <= moves@.len(),
            store.slots@ == moving_fold(slots0, moves@.take(k as int), *map),
            forall|i: int|
                #[trigger] live(store.slots@, i) && data(store.slots@, i).pos is Some ==> (live(
                    slots0,
                    i,
                ) && data(slots0, i).pos == data(store.slots@, i).pos) || map.spec_can_enter(
                    data(store.slots@, i).pos->0,
                ),
            *camera == *old(camera) || exists|kk: int|
                0 <= kk < moves@.len() && map.spec_can_enter(#[trigger] moves@[kk].destination)
                    && camera.follows(moves@[kk].destination),
        decreases moves@.len() - k,
    {
        let ghost pre = store.slots@;
        let mv = moves[k];
        let id = mv.entity.id;
        if id < store.slots.len() {
            let (has_pos, is_player) = match store.slots[id].as_ref() {
                Some(d) => (d.pos.is_some(), d.player.is_some()),
                None => (false, false),
            };
            if has_pos && map.can_enter_tile(mv.destination) {
                let slot = &mut store.slots[id];
                if let Some(d) = slot.as_mut() {
                    d.pos = Some(mv.destination);
                    if let Some(f) = d.fov.as_mut() {
                        f.is_dirty = true;
                    }
                }
                if is_player {
                    camera.on_player_move(mv.destination);
                    proof {
                        assert(map.spec_can_enter(moves@[k as int].destination));
                    }
                }
                proof {
                    assert(store.slots@ =~= moving_step(pre, moves@[k as int], *map));
                }
            } else {
                proof {
                    assert(store.slots@ == moving_step(pre, moves@[k as int], *map));
                }
            }
        } else {
            proof {
                assert(store.slots@ == moving_step(pre, moves@[k as int], *map));
            }
        }
        proof {
            assert(moves@.take(k as int + 1).drop_last() =~= moves@.take(k as int));
            assert(moves@.take(k as int + 1).last() == moves@[k as int]);
            assert forall|i: int|
                #[trigger] live(store.slots@, i) && data(store.slots@, i).pos is Some implies (live(
                slots0,
                i,
            ) && data(slots0, i).pos == data(store.slots@, i).pos) || map.spec_can_enter(
                data(store.slots@, i).pos->0,
            ) by {
                if store.slots@ == pre || i != mv.entity.id as int {
                    assert(live(pre, i) && data(pre, i).pos is Some);
                }
            }
        }
        k += 1;
    }
    proof {
        assert(moves@.take(moves@.len() as int) =~= moves@);
        if wf_world(slots0) {
            lemma_moving_fold_preserves_wf(slots0, moves@, *map);
        }
        lemma_moving_fold_keeps_views(slots0, moves@, *map);
    }
}

/// Movement never revives, kills, or re-scopes a view: liveness, the
/// view's presence and radius carry over, and dirtiness only grows.
proof fn lemma_moving_fold_keeps_views(
    slots: Seq<Option<EntityData>>,
    moves: Seq<WantsToMove>,
    map: GameMap,
)
    ensures
        moving_fold(slots, moves, map).len() == slots.len(),
        forall|i: int|
            #[trigger] live(moving_fold(slots, moves, map), i) ==> live(slots, i) && (data(
                moving_fold(slots, moves, map),
                i,
            ).fov is Some <==> data(slots, i).fov is Some) && (data(slots, i).fov is Some ==> data(
                moving_fold(slots, moves, map),
                i,
            ).fov->0.radius == data(slots, i).fov->0.radius && (data(slots, i).fov->0.is_dirty
                ==> data(moving_fold(slots, moves, map), i).fov->0.is_dirty)),
    decreases moves.len(),
{
    if moves.len() > 0 {
        lemma_moving_fold_keeps_views(slots, moves.drop_last(), map);
        let mid = moving_fold(slots, moves.drop_last(), map);
        let s2 = moving_step(mid, moves.last(), map);
        assert forall|i: int| #[trigger] live(s2, i) implies live(mid, i) && (data(s2, i).fov
            is Some <==> data(mid, i).fov is Some) && (data(mid, i).fov is Some ==> data(
            s2,
            i,
        ).fov->0.radius == data(mid, i).fov->0.radius && (data(mid, i).fov->0.is_dirty ==> data(
            s2,
            i,
        ).fov->0.is_dirty)) by {}
    }
}

} // verus!
