use vstd::prelude::*;
use crate::components::{Entity, RoamingAndChasingPlayer, WantsToAttack, WantsToMove};
use crate::fov::sees;
use crate::map::{dijkstra_cache_ok, idx_of, in_bounds_xy, GameMap};
use crate::path::cardinal_adjacent;
use crate::point::Point;
use crate::rng::rng_range;
use crate::store::{
    data, lemma_wf_transfer_except_roaming, live, player_at, same_except_roaming, wf_world,
    EntityData, EntityStore,
};
use crate::systems::end_turn::{find_player, player_pos};
use crate::systems::random_move::player_here;
use crate::NUM_TILES;

verus! {

/// Whether `c` is a wander goal for a roamer standing at `pos`: a grid
/// cell fewer than ten cached steps away.
pub open spec fn wander_ok(map: GameMap, pos: Point, c: Point) -> bool {
    &&& in_bounds_xy(c.x as int, c.y as int)
    &&& map.dijkstra_maps@[idx_of(pos)] is Some
    &&& map.dijkstra_maps@[idx_of(pos)]->0.values@[idx_of(c)] < 10
}

/// How one roamer's goal changes: the player's cell on sight; on
/// arrival (or without a goal) a reroll to home, a nearby wander cell,
/// or nothing; otherwise unchanged.
pub open spec fn goal_updated(
    map: GameMap,
    od: EntityData,
    nd: EntityData,
    ppos: Point,
) -> bool {
    &&& nd.roaming is Some
    &&& nd.roaming->0.home_location == od.roaming->0.home_location
    &&& (sees(od.fov->0.visible_tiles@, ppos) ==> nd.roaming->0.going_to == Some(ppos))
    &&& (!sees(od.fov->0.visible_tiles@, ppos) && (od.roaming->0.going_to is None
        || od.roaming->0.going_to == Some(od.pos->0)) ==> {
        ||| nd.roaming->0.going_to == Some(od.roaming->0.home_location)
        ||| nd.roaming->0.going_to is None
        ||| (nd.roaming->0.going_to is Some && wander_ok(map, od.pos->0, nd.roaming->0.going_to->0))
    })
    &&& (!sees(od.fov->0.visible_tiles@, ppos) && od.roaming->0.going_to is Some
        && od.roaming->0.going_to != Some(od.pos->0) ==> nd.roaming->0.going_to
        == od.roaming->0.going_to)
}

/// Whether a movement intent is a legal roaming step under `map`: to
/// the goal itself when the mover stands within one diagonal of it, or
/// to an enterable neighbor lowest in the field targeted at the goal
/// and strictly below the mover's own cell.
pub open spec fn roam_step_ok(
    map: GameMap,
    slots: Seq<Option<EntityData>>,
    mv: WantsToMove,
) -> bool {
    let m = mv.entity.id as int;
    &&& live(slots, m)
    &&& data(slots, m).roaming is Some
    &&& data(slots, m).roaming->0.going_to is Some
    &&& data(slots, m).pos is Some
    &&& {
        let goal = data(slots, m).roaming->0.going_to->0;
        let mpos = data(slots, m).pos->0;
        ||| (mv.destination == goal && mpos.dist2(goal) <= 1)
        ||| (mpos.dist2(goal) >= 2 && in_bounds_xy(goal.x as int, goal.y as int)
            && map.dijkstra_maps@[idx_of(goal)] is Some && {
            let vals = map.dijkstra_maps@[idx_of(goal)]->0.values@;
            &&& in_bounds_xy(mv.destination.x as int, mv.destination.y as int)
            &&& cardinal_adjacent(idx_of(mpos), idx_of(mv.destination))
            &&& crate::map::tile_enterable(map.tiles@[idx_of(mv.destination)])
            &&& vals[idx_of(mv.destination)] < vals[idx_of(mpos)]
            &&& forall|nb: int|
                cardinal_adjacent(idx_of(mpos), nb) && crate::map::tile_enterable(
                    #[trigger] map.tiles@[nb],
                ) ==> vals[nb] >= vals[idx_of(mv.destination)]
        })
    }
}

/// Update every roamer's goal and step it toward its goal. A roamer
/// that sees the player heads for the player's cell; one without a
/// goal, or arrived, rerolls between home, a nearby cell of the cached
/// fields, and idling. A roamer with a goal steps to a lowest exit of
/// the field targeted at its goal (or onto the goal itself from next
/// door), attacking the player instead of stepping onto it. Only the
/// roaming component of the store changes.
pub fn roaming_and_chasing(
    store: &mut EntityStore,
    map: &GameMap,
    rng: &mut bracket_lib::random::RandomNumberGenerator,
    moves: &mut Vec<WantsToMove>,
    attacks: &mut Vec<WantsToAttack>,
)
    requires
        dijkstra_cache_ok(*map),
        wf_world(old(store).slots@),
    ensures
        same_except_roaming(old(store).slots@, final(store).slots@),
        wf_world(final(store).slots@),
        // The goal discipline, entity by entity.
        forall|i: int|
            #[trigger] live(old(store).slots@, i) ==> if data(old(store).slots@, i).roaming
                is Some && data(old(store).slots@, i).pos is Some && data(old(store).slots@, i).fov
                is Some {
                goal_updated(
                    *map,
                    data(old(store).slots@, i),
                    data(final(store).slots@, i),
                    player_pos(old(store).slots@),
                )
            } else {
                data(final(store).slots@, i).roaming == data(old(store).slots@, i).roaming
            },
        old(moves)@.is_prefix_of(final(moves)@),
        old(attacks)@.is_prefix_of(final(attacks)@),
        // Every appended step obeys the field toward its mover's goal,
        // and never steps onto the player: the player is attacked
        // instead.
        forall|k: int|
            old(moves)@.len() <= k < final(moves)@.len() ==> roam_step_ok(
                *map,
                final(store).slots@,
                #[trigger] final(moves)@[k],
            ) && !player_here(final(store).slots@, final(moves)@[k].destination),
        // Every appended attack is by a goal-bearing roamer on the player.
        forall|k: int|
            old(attacks)@.len() <= k < final(attacks)@.len() ==> player_at(
                final(store).slots@,
                (#[trigger] final(attacks)@[k]).victim.id as int,
            ) && live(final(store).slots@, final(attacks)@[k].attacker.id as int) && data(
                final(store).slots@,
                final(attacks)@[k].attacker.id as int,
            ).roaming is Some,
{
    let ghost slots0 = store.slots@;
    let ppos = {
        let p = find_player(store);
        match &store.slots[p].as_ref().unwrap().pos {
            Some(q) => *q,
            None => {
                proof {
                    assert(false);
                }
                Point { x: 0, y: 0 }
            },
        }
    };
    // First pass: update every roamer's goal.
    let mut i: usize = 0;
    while i < store.slots.len()
        invariant
            dijkstra_cache_ok(*map),
            wf_world(slots0),
            ppos == player_pos(slots0),
            i <= store.slots@.len(),
            store.slots@.len() == slots0.len(),
            same_except_roaming(slots0, store.slots@),
            forall|j: int|
                0 <= j < i && #[trigger] live(slots0, j) ==> if data(slots0, j).roaming is Some
                    && data(slots0, j).pos is Some && data(slots0, j).fov is Some {
                    goal_updated(*map, data(slots0, j), data(store.slots@, j), ppos)
                } else {
                    data(store.slots@, j).roaming == data(slots0, j).roaming
                },
            forall|j: int|
                i <= j < slots0.len() && #[trigger] live(slots0, j) ==> data(store.slots@, j)
                    == data(slots0, j),
        decreases store.slots@.len() - i,
    {
        let ghost pre = store.slots@;
        let (is_roamer, pos, home, going, sees_player) = match store.slots[i].as_ref() {
            Some(d) => match (&d.roaming, &d.pos, &d.fov) {
                (Some(r), Some(p), Some(f)) => (
                    true,
                    *p,
                    r.home_location,
                    r.going_to,
                    crate::systems::map_render::view_contains(&f.visible_tiles, ppos),
                ),
                _ => (false, Point { x: 0, y: 0 }, Point { x: 0, y: 0 }, None, false),
            },
            None => (false, Point { x: 0, y: 0 }, Point { x: 0, y: 0 }, None, false),
        };
        if is_roamer {
            proof {
                assert(live(store.slots@, i as int));
                assert(live(slots0, i as int));
                assert(data(store.slots@, i as int) == data(slots0, i as int));
            }
            let arrived = match going {
                Some(g) => g.x == pos.x && g.y == pos.y,
                None => true,
            };
            let new_going: Option<Point> = if sees_player {
                Some(ppos)
            } else if arrived {
                let roll = rng_range(rng, 1, 50);
                if roll == 1 {
                    Some(home)
                } else if roll >= 2 && roll < 5 {
                    wander_target(map, pos, rng)
                } else {
                    None
                }
            } else {
                going
            };
            let slot = &mut store.slots[i];
            if let Some(d) = slot.as_mut() {
                d.roaming = Some(
                    RoamingAndChasingPlayer { home_location: home, going_to: new_going },
                );
            }
            proof {
                assert(goal_updated(*map, data(slots0, i as int), data(store.slots@, i as int), ppos))
                    by {
                    if going is Some && going->0 == data(slots0, i as int).pos->0 {
                        assert(going == Some(data(slots0, i as int).pos->0));
                    }
                }
                assert forall|j: int| 0 <= j < store.slots@.len() && j != i as int implies store.slots@[j]
                    == pre[j] by {}
                assert forall|x: int| 0 <= x < store.slots@.len() implies (#[trigger] live(
                    slots0,
                    x,
                ) <==> live(store.slots@, x)) by {
                    if x != i as int {
                        assert(store.slots@[x] == pre[x]);
                    }
                }
                assert forall|x: int|
                    #[trigger] live(slots0, x) && live(store.slots@, x) implies data(
                    store.slots@,
                    x,
                ) == (crate::store::EntityData {
                    roaming: data(store.slots@, x).roaming,
                    ..data(slots0, x)
                }) by {
                    if x != i as int {
                        assert(store.slots@[x] == pre[x]);
                    }
                }
            }
        }
        i += 1;
    }
    // Second pass: step every roamer with a goal.
    let ghost mid = store.slots@;
    let mut i2: usize = 0;
    while i2 < store.slots.len()
        invariant
            dijkstra_cache_ok(*map),
            wf_world(slots0),
            same_except_roaming(slots0, store.slots@),
            store.slots@ == mid,
            i2 <= store.slots@.len(),
            old(moves)@.is_prefix_of(moves@),
            old(attacks)@.is_prefix_of(attacks@),
            forall|k: int|
                old(moves)@.len() <= k < moves@.len() ==> roam_step_ok(
                    *map,
                    store.slots@,
                    #[trigger] moves@[k],
                ) && !player_here(store.slots@, moves@[k].destination),
            forall|k: int|
                old(attacks)@.len() <= k < attacks@.len() ==> player_at(
                    store.slots@,
                    (#[trigger] attacks@[k]).victim.id as int,
                ) && live(store.slots@, attacks@[k].attacker.id as int) && data(
                    store.slots@,
                    attacks@[k].attacker.id as int,
                ).roaming is Some,
        decreases store.slots@.len() - i2,
    {
        let (steps, pos, target) = match store.slots[i2].as_ref() {
            Some(d) => match (&d.roaming, &d.pos) {
                (Some(r), Some(p)) => match r.going_to {
                    Some(g) => (true, *p, g),
                    None => (false, Point { x: 0, y: 0 }, Point { x: 0, y: 0 }),
                },
                _ => (false, Point { x: 0, y: 0 }, Point { x: 0, y: 0 }),
            },
            None => (false, Point { x: 0, y: 0 }, Point { x: 0, y: 0 }),
        };
        if steps {
            proof {
                assert(live(store.slots@, i2 as int));
                assert(live(slots0, i2 as int));
            }
            let mover = Entity { id: i2 };
            if let Some(tidx) = GameMap::try_idx(target) {
                let has_field = match &map.dijkstra_maps[tidx] {
                    Some(_) => true,
                    None => false,
                };
                if has_field {
                    let dm = match &map.dijkstra_maps[tidx] {
                        Some(f) => f,
                        None => {
                            proof {
                                assert(false);
                            }
                            unreached()
                        },
                    };
                    let pidx = GameMap::map_idx(pos);
                    match crate::path::sample_lowest_exit(rng, dm, pidx, map) {
                        Some(dest_idx) => {
                            let dx = (pos.x as i64) - (target.x as i64);
                            let dy = (pos.y as i64) - (target.y as i64);
                            proof {
                                assert(0 <= dx * dx <= 0x1_0000_0000_0000_0000i128
                                    && 0 <= dy * dy <= 0x1_0000_0000_0000_0000i128)
                                    by (nonlinear_arith)
                                    requires
                                        -0x1_0000_0000 <= dx <= 0x1_0000_0000,
                                        -0x1_0000_0000 <= dy <= 0x1_0000_0000,
                                ;
                            }
                            let d2 = (dx as i128) * (dx as i128) + (dy as i128) * (dy as i128);
                            let destination = if d2 >= 2 {
                                GameMap::map_point(dest_idx)
                            } else {
                                target
                            };
                            proof {
                                assert(d2 as int == pos.dist2(target));
                            }
                            let mut attacked = false;
                            let mut j: usize = 0;
                            while j < store.slots.len()
                                invariant
                                    store.slots@ == mid,
                                    wf_world(slots0),
                                    same_except_roaming(slots0, store.slots@),
                                    live(store.slots@, i2 as int),
                                    data(store.slots@, i2 as int).roaming is Some,
                                    data(store.slots@, i2 as int).roaming->0.going_to == Some(
                                        target,
                                    ),
                                    data(store.slots@, i2 as int).pos is Some,
                                    data(store.slots@, i2 as int).pos->0 == pos,
                                    roam_step_ok(
                                        *map,
                                        store.slots@,
                                        WantsToMove { entity: mover, destination },
                                    ),
                                    mover.id == i2,
                                    i2 < store.slots@.len(),
                                    j <= store.slots@.len(),
                                    old(moves)@.is_prefix_of(moves@),
                                    old(attacks)@.is_prefix_of(attacks@),
                                    forall|k: int|
                                        old(moves)@.len() <= k < moves@.len() ==> roam_step_ok(
                                            *map,
                                            store.slots@,
                                            #[trigger] moves@[k],
                                        ) && !player_here(store.slots@, moves@[k].destination),
                                    forall|k: int|
                                        old(attacks)@.len() <= k < attacks@.len() ==> player_at(
                                            store.slots@,
                                            (#[trigger] attacks@[k]).victim.id as int,
                                        ) && live(store.slots@, attacks@[k].attacker.id as int)
                                            && data(
                                            store.slots@,
                                            attacks@[k].attacker.id as int,
                                        ).roaming is Some,
                                    !attacked ==> forall|q: int|
                                        0 <= q < j ==> !(#[trigger] player_at(store.slots@, q)
                                            && data(store.slots@, q).pos is Some && data(
                                            store.slots@,
                                            q,
                                        ).pos->0 == destination),
                                decreases store.slots@.len() - j,
                            {
                                let target_here = match store.slots[j].as_ref() {
                                    Some(d) => d.health.is_some() && match &d.pos {
                                        Some(q) => q.x == destination.x && q.y == destination.y,
                                        None => false,
                                    },
                                    None => false,
                                };
                                if target_here {
                                    let is_pl = match store.slots[j].as_ref() {
                                        Some(d) => d.player.is_some(),
                                        None => false,
                                    };
                                    if is_pl {
                                        proof {
                                            assert(live(store.slots@, j as int));
                                        }
                                        attacks.push(
                                            WantsToAttack { attacker: mover, victim: Entity { id: j } },
                                        );
                                        attacked = true;
                                    }
                                }
                                proof {
                                    if !attacked {
                                        lemma_wf_transfer_except_roaming(slots0, store.slots@);
                                        if player_at(store.slots@, j as int) {
                                            assert(data(store.slots@, j as int).health is Some);
                                        }
                                    }
                                }
                                j += 1;
                            }
                            if !attacked {
                                proof {
                                    assert(!player_here(store.slots@, destination)) by {
                                        if player_here(store.slots@, destination) {
                                            let q = choose|q: int|
                                                #[trigger] player_at(store.slots@, q) && data(
                                                    store.slots@,
                                                    q,
                                                ).pos is Some && data(store.slots@, q).pos->0
                                                    == destination;
                                        }
                                    }
                                }
                                moves.push(WantsToMove { entity: mover, destination });
                            }
                        },
                        None => {},
                    }
                }
            }
        }
        i2 += 1;
    }
    proof {
        lemma_wf_transfer_except_roaming(slots0, store.slots@);
        assert forall|i: int| #[trigger] live(slots0, i) implies if data(slots0, i).roaming
            is Some && data(slots0, i).pos is Some && data(slots0, i).fov is Some {
            goal_updated(*map, data(slots0, i), data(store.slots@, i), ppos)
        } else {
            data(store.slots@, i).roaming == data(slots0, i).roaming
        } by {
            assert(0 <= i < slots0.len());
        }
    }
}

/// A random nearby cell: one whose cached distance from `pos` is below
/// ten steps. `None` when the cache holds no field for `pos` or nothing
/// lies that close.
fn wander_target(
    map: &GameMap,
    pos: Point,
    rng: &mut bracket_lib::random::RandomNumberGenerator,
) -> (r: Option<Point>)
    requires
        dijkstra_cache_ok(*map),
        crate::map::in_bounds_xy(pos.x as int, pos.y as int),
    ensures
        r is Some ==> wander_ok(*map, pos, r->0),
{
    let idx = GameMap::map_idx(pos);
    let dm = match &map.dijkstra_maps[idx] {
        Some(f) => f,
        None => {
            return None;
        },
    };
    let mut targets: Vec<usize> = Vec::new();
    let mut c: usize = 0;
    while c < NUM_TILES
        invariant
            dm.wf(),
            dm == map.dijkstra_maps@[idx_of(pos)]->0,
            map.dijkstra_maps@[idx_of(pos)] is Some,
            idx == idx_of(pos),
            c <= NUM_TILES,
            targets@.len() <= c,
            forall|t: int|
                0 <= t < targets@.len() ==> #[trigger] targets@[t] < NUM_TILES && dm.values@[
                    targets@[t] as int
                ] < 10,
        decreases NUM_TILES - c,
    {
        if dm.values[c] < 10 {
            targets.push(c);
        }
        c += 1;
    }
    if targets.len() == 0 {
        return None;
    }
    let pick = rng_range(rng, 0, targets.len() as i32);
    let cell = targets[pick as usize];
    let p = GameMap::map_point(cell);
    proof {
        crate::map::lemma_idx_of_point_of(cell as int);
    }
    Some(p)
}

} // verus!
