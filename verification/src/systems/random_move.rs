use vstd::prelude::*;
use crate::components::{Entity, WantsToAttack, WantsToMove};
use crate::point::Point;
use crate::rng::rng_range;
use crate::store::{data, live, player_at, positions_on_grid, wf_world, EntityData, EntityStore};
use crate::systems::end_turn::player_slot;

verus! {

/// The randomly moving entities with a position, in slot order.
pub open spec fn roamers_upto(slots: Seq<Option<EntityData>>, n: int) -> Seq<int>
    decreases n,
{
    if n <= 0 {
        Seq::empty()
    } else {
        let prev = roamers_upto(slots, n - 1);
        if live(slots, n - 1) && data(slots, n - 1).moving_randomly is Some && data(slots, n - 1).pos
            is Some {
            prev.push(n - 1)
        } else {
            prev
        }
    }
}

/// A unit cardinal offset.
pub open spec fn is_unit_delta(d: (int, int)) -> bool {
    d == (-1int, 0int) || d == (1int, 0int) || d == (0int, -1int) || d == (0int, 1int)
}

/// Whether some live entity stands on `dest`.
pub open spec fn occupied_at(slots: Seq<Option<EntityData>>, dest: Point) -> bool {
    exists|j: int|
        #[trigger] live(slots, j) && data(slots, j).pos is Some && data(slots, j).pos->0 == dest
}

/// Whether the player stands on `dest`.
pub open spec fn player_here(slots: Seq<Option<EntityData>>, dest: Point) -> bool {
    exists|j: int|
        #[trigger] player_at(slots, j) && data(slots, j).pos is Some && data(slots, j).pos->0
            == dest
}

/// What one roamer's drawn step contributes: an attack on the player
/// when the player stands on the destination, nothing when someone else
/// does, and a movement intent when the cell is free.
pub open spec fn rm_step(
    slots: Seq<Option<EntityData>>,
    ms: Seq<WantsToMove>,
    ats: Seq<WantsToAttack>,
    roamer: int,
    d: (int, int),
) -> (Seq<WantsToMove>, Seq<WantsToAttack>) {
    let pos = data(slots, roamer).pos->0;
    let dest = Point { x: (pos.x + d.0) as i32, y: (pos.y + d.1) as i32 };
    if occupied_at(slots, dest) {
        if player_here(slots, dest) {
            (
                ms,
                ats.push(
                    WantsToAttack {
                        attacker: Entity { id: roamer as usize },
                        victim: Entity { id: player_slot(slots) as usize },
                    },
                ),
            )
        } else {
            (ms, ats)
        }
    } else {
        (ms.push(WantsToMove { entity: Entity { id: roamer as usize }, destination: dest }), ats)
    }
}

/// Both queues after every roamer has drawn its step, in slot order.
pub open spec fn rm_fold(
    slots: Seq<Option<EntityData>>,
    roamers: Seq<int>,
    deltas: Seq<(int, int)>,
    ms: Seq<WantsToMove>,
    ats: Seq<WantsToAttack>,
) -> (Seq<WantsToMove>, Seq<WantsToAttack>)
    decreases roamers.len(),
{
    if roamers.len() == 0 || deltas.len() != roamers.len() {
        (ms, ats)
    } else {
        let prev = rm_fold(slots, roamers.drop_last(), deltas.drop_last(), ms, ats);
        rm_step(slots, prev.0, prev.1, roamers.last(), deltas.last())
    }
}

/// Give every randomly moving entity one uniform cardinal step: of
/// whatever the draws were, the queues grow exactly by the fold of one
/// step per roamer — an attack on the player when the player occupies
/// the drawn cell, nothing when another entity does, and a movement
/// intent otherwise.
pub fn random_move(
    store: &EntityStore,
    rng: &mut bracket_lib::random::RandomNumberGenerator,
    moves: &mut Vec<WantsToMove>,
    attacks: &mut Vec<WantsToAttack>,
)
    requires
        wf_world(store.slots@),
    ensures
        exists|deltas: Seq<(int, int)>|
            #![auto]
            {
                &&& deltas.len() == roamers_upto(store.slots@, store.slots@.len() as int).len()
                &&& (forall|m: int| 0 <= m < deltas.len() ==> is_unit_delta(#[trigger] deltas[m]))
                &&& final(moves)@ == rm_fold(
                    store.slots@,
                    roamers_upto(store.slots@, store.slots@.len() as int),
                    deltas,
                    old(moves)@,
                    old(attacks)@,
                ).0
                &&& final(attacks)@ == rm_fold(
                    store.slots@,
                    roamers_upto(store.slots@, store.slots@.len() as int),
                    deltas,
                    old(moves)@,
                    old(attacks)@,
                ).1
            },
{
    let ghost mut deltas: Seq<(int, int)> = Seq::empty();
    let mut i: usize = 0;
    while i < store.slots.len()
        invariant
            wf_world(store.slots@),
            i <= store.slots@.len(),
            deltas.len() == roamers_upto(store.slots@, i as int).len(),
            forall|m: int| 0 <= m < deltas.len() ==> is_unit_delta(#[trigger] deltas[m]),
            moves@ == rm_fold(
                store.slots@,
                roamers_upto(store.slots@, i as int),
                deltas,
                old(moves)@,
                old(attacks)@,
            ).0,
            attacks@ == rm_fold(
                store.slots@,
                roamers_upto(store.slots@, i as int),
                deltas,
                old(moves)@,
                old(attacks)@,
            ).1,
        decreases store.slots@.len() - i,
    {
        let (roams, pos) = match store.slots[i].as_ref() {
            Some(d) => match (&d.moving_randomly, &d.pos) {
                (Some(_), Some(p)) => (true, *p),
                _ => (false, Point { x: 0, y: 0 }),
            },
            None => (false, Point { x: 0, y: 0 }),
        };
        if roams {
            proof {
                assert(live(store.slots@, i as int));
            }
            let roll = rng_range(rng, 0, 4);
            let (dx, dy): (i32, i32) = if roll == 0 {
                (-1, 0)
            } else if roll == 1 {
                (1, 0)
            } else if roll == 2 {
                (0, -1)
            } else {
                (0, 1)
            };
            let destination = Point { x: pos.x + dx, y: pos.y + dy };
            let mover = Entity { id: i };
            let mut occupied = false;
            let mut attacked = false;
            let mut j: usize = 0;
            while j < store.slots.len()
                invariant
                    wf_world(store.slots@),
                    i < store.slots@.len(),
                    j <= store.slots@.len(),
                    mover.id == i,
                    occupied == exists|q: int|
                        0 <= q < j && #[trigger] live(store.slots@, q) && data(store.slots@, q).pos
                            is Some && data(store.slots@, q).pos->0 == destination,
                    attacked ==> player_here(store.slots@, destination),
                    !attacked ==> forall|q: int|
                        0 <= q < j ==> !(#[trigger] player_at(store.slots@, q) && data(
                            store.slots@,
                            q,
                        ).pos is Some && data(store.slots@, q).pos->0 == destination),
                    attacked ==> attacks@ == rm_fold(
                        store.slots@,
                        roamers_upto(store.slots@, i as int),
                        deltas,
                        old(moves)@,
                        old(attacks)@,
                    ).1.push(
                        WantsToAttack {
                            attacker: mover,
                            victim: Entity { id: player_slot(store.slots@) as usize },
                        },
                    ),
                    !attacked ==> attacks@ == rm_fold(
                        store.slots@,
                        roamers_upto(store.slots@, i as int),
                        deltas,
                        old(moves)@,
                        old(attacks)@,
                    ).1,
                    moves@ == rm_fold(
                        store.slots@,
                        roamers_upto(store.slots@, i as int),
                        deltas,
                        old(moves)@,
                        old(attacks)@,
                    ).0,
                decreases store.slots@.len() - j,
            {
                let here = match store.slots[j].as_ref() {
                    Some(d) => match &d.pos {
                        Some(q) => q.x == destination.x && q.y == destination.y,
                        None => false,
                    },
                    None => false,
                };
                if here {
                    occupied = true;
                    proof {
                        assert(live(store.slots@, j as int));
                    }
                    let victim_is_player = match store.slots[j].as_ref() {
                        Some(d) => d.player.is_some(),
                        None => false,
                    };
                    if victim_is_player && !attacked {
                        proof {
                            assert(player_at(store.slots@, j as int));
                            assert(j as int == player_slot(store.slots@)) by {
                                let q = choose|q: int|
                                    #[trigger] player_at(store.slots@, q) && forall|x: int|
                                        #[trigger] player_at(store.slots@, x) ==> x == q;
                                assert(q == j as int);
                            }
                        }
                        attacks.push(
                            WantsToAttack { attacker: mover, victim: Entity { id: j } },
                        );
                        attacked = true;
                    }
                }
                j += 1;
            }
            if !occupied {
                moves.push(WantsToMove { entity: mover, destination });
            }
            proof {
                let d: (int, int) = (dx as int, dy as int);
                let rs = roamers_upto(store.slots@, i as int);
                let rs1 = roamers_upto(store.slots@, i as int + 1);
                assert(rs1 =~= rs.push(i as int));
                let d0 = deltas;
                let prev = rm_fold(store.slots@, rs, d0, old(moves)@, old(attacks)@);
                deltas = deltas.push(d);
                assert(rs1.drop_last() =~= rs);
                assert(deltas.drop_last() =~= d0);
                assert(deltas.last() == d);
                assert(roamers_upto(store.slots@, i as int + 1).last() == i as int);
                assert(destination == (Point {
                    x: (data(store.slots@, i as int).pos->0.x + d.0) as i32,
                    y: (data(store.slots@, i as int).pos->0.y + d.1) as i32,
                }));
                if occupied {
                    assert(occupied_at(store.slots@, destination));
                } else {
                    assert(!occupied_at(store.slots@, destination));
                    assert(!player_here(store.slots@, destination)) by {
                        if player_here(store.slots@, destination) {
                            let q = choose|q: int|
                                #[trigger] player_at(store.slots@, q) && data(store.slots@, q).pos
                                    is Some && data(store.slots@, q).pos->0 == destination;
                            assert(live(store.slots@, q));
                        }
                    }
                }
                if occupied && !attacked {
                    assert(!player_here(store.slots@, destination)) by {
                        if player_here(store.slots@, destination) {
                            let q = choose|q: int|
                                #[trigger] player_at(store.slots@, q) && data(store.slots@, q).pos
                                    is Some && data(store.slots@, q).pos->0 == destination;
                        }
                    }
                }
                assert(moves@ == rm_fold(
                    store.slots@,
                    rs1,
                    deltas,
                    old(moves)@,
                    old(attacks)@,
                ).0 && attacks@ == rm_fold(store.slots@, rs1, deltas, old(moves)@, old(attacks)@).1)
                    by {
                    assert(rm_fold(store.slots@, rs1, deltas, old(moves)@, old(attacks)@)
                        == rm_step(store.slots@, prev.0, prev.1, i as int, d));
                }
            }
        } else {
            proof {
                assert(roamers_upto(store.slots@, i as int + 1) =~= roamers_upto(
                    store.slots@,
                    i as int,
                ));
            }
        }
        i += 1;
    }
}

} // verus!
