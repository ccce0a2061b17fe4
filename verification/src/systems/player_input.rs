use vstd::prelude::*;
use crate::components::{
    ActivateItem, Carried, Entity, WantsToAttack, WantsToMove,
};
use crate::point::Point;
use crate::store::{
    apply_commands, data, lemma_apply_removals_preserves_wf, live, player_at, wf_world, Command,
    CommandBuffer, EntityData, EntityStore,
};
use crate::systems::end_turn::{find_player, player_slot};
use crate::turn_state::{GameKey, TurnState};

verus! {

/// The cardinal offset of a movement key, if the key moves.
pub open spec fn key_delta(key: GameKey) -> Option<(int, int)> {
    match key {
        GameKey::Left => Some((-1int, 0int)),
        GameKey::Right => Some((1int, 0int)),
        GameKey::Up => Some((0int, -1int)),
        GameKey::Down => Some((0int, 1int)),
        _ => None,
    }
}

/// The item-use rank of a digit key.
pub open spec fn key_digit(key: GameKey) -> Option<int> {
    match key {
        GameKey::Key1 => Some(0int),
        GameKey::Key2 => Some(1int),
        GameKey::Key3 => Some(2int),
        GameKey::Key4 => Some(3int),
        GameKey::Key5 => Some(4int),
        GameKey::Key6 => Some(5int),
        GameKey::Key7 => Some(6int),
        GameKey::Key8 => Some(7int),
        GameKey::Key9 => Some(8int),
        GameKey::G => None,
        _ => None,
    }
}

/// The attack intents a player step into `dest` raises: one per live
/// enemy standing there, in slot order.
pub open spec fn attacks_at_upto(
    slots: Seq<Option<EntityData>>,
    pl: Entity,
    dest: Point,
    n: int,
) -> Seq<WantsToAttack>
    decreases n,
{
    if n <= 0 {
        Seq::empty()
    } else {
        let prev = attacks_at_upto(slots, pl, dest, n - 1);
        if live(slots, n - 1) && data(slots, n - 1).enemy is Some && data(slots, n - 1).pos
            is Some && data(slots, n - 1).pos->0 == dest {
            prev.push(WantsToAttack { attacker: pl, victim: Entity { id: (n - 1) as usize } })
        } else {
            prev
        }
    }
}

/// The items lying on cell `ppos`, in slot order.
pub open spec fn picks_upto(slots: Seq<Option<EntityData>>, ppos: Point, n: int) -> Seq<Entity>
    decreases n,
{
    if n <= 0 {
        Seq::empty()
    } else {
        let prev = picks_upto(slots, ppos, n - 1);
        if live(slots, n - 1) && data(slots, n - 1).item is Some && data(slots, n - 1).pos is Some
            && data(slots, n - 1).pos->0 == ppos {
            prev.push(Entity { id: (n - 1) as usize })
        } else {
            prev
        }
    }
}

/// Whether any item picked up from `ppos` is a weapon.
pub open spec fn picks_weapon(slots: Seq<Option<EntityData>>, ppos: Point) -> bool {
    exists|i: int|
        #[trigger] live(slots, i) && data(slots, i).item is Some && data(slots, i).pos is Some
            && data(slots, i).pos->0 == ppos && data(slots, i).weapon is Some
}

/// One pickup applied: the item leaves the grid and enters the player's
/// inventory.
pub open spec fn pickup_step(slots: Seq<Option<EntityData>>, e: Entity, pl: Entity) -> Seq<
    Option<EntityData>,
> {
    let i = e.id as int;
    if live(slots, i) {
        slots.update(
            i,
            Some(EntityData { pos: None, carried: Some(Carried { by: pl }), ..data(slots, i) }),
        )
    } else {
        slots
    }
}

pub open spec fn pickup_fold(slots: Seq<Option<EntityData>>, es: Seq<Entity>, pl: Entity) -> Seq<
    Option<EntityData>,
>
    decreases es.len(),
{
    if es.len() == 0 {
        slots
    } else {
        pickup_step(pickup_fold(slots, es.drop_last(), pl), es.last(), pl)
    }
}

/// The weapons already in the player's inventory, as removal commands:
/// a newly picked-up weapon replaces them.
pub open spec fn old_weapon_removals_upto(
    slots: Seq<Option<EntityData>>,
    pl: Entity,
    n: int,
) -> Seq<Command>
    decreases n,
{
    if n <= 0 {
        Seq::empty()
    } else {
        let prev = old_weapon_removals_upto(slots, pl, n - 1);
        if live(slots, n - 1) && data(slots, n - 1).weapon is Some && data(slots, n - 1).carried
            is Some && data(slots, n - 1).carried->0.by.id == pl.id {
            prev.push(Command::RemoveEntity(Entity { id: (n - 1) as usize }))
        } else {
            prev
        }
    }
}

/// The store after a pickup: every item on the player's cell moves into
/// the inventory; when one of them is a weapon, the weapons the player
/// already carried are removed.
pub open spec fn pickup_result(slots: Seq<Option<EntityData>>, pl: Entity, ppos: Point) -> Seq<
    Option<EntityData>,
> {
    let s1 = pickup_fold(slots, picks_upto(slots, ppos, slots.len() as int), pl);
    if picks_weapon(slots, ppos) {
        apply_commands(s1, old_weapon_removals_upto(slots, pl, slots.len() as int))
    } else {
        s1
    }
}

/// React to the latest key. Movement keys raise an attack on each enemy
/// on the destination cell, or a movement intent when no enemy stands
/// there. The pickup key moves every item on the player's cell into the
/// inventory, a picked-up weapon replacing any carried one. A digit key
/// activates one item the player carries, when it has that many. Any
/// key ends the waiting phase; without a key nothing changes.
pub fn player_input(
    store: &mut EntityStore,
    key: Option<GameKey>,
    turn_state: &mut TurnState,
    moves: &mut Vec<WantsToMove>,
    attacks: &mut Vec<WantsToAttack>,
    activations: &mut Vec<ActivateItem>,
)
    requires
        wf_world(old(store).slots@),
    ensures
        wf_world(final(store).slots@),
        forall|x: int| player_at(final(store).slots@, x) <==> player_at(old(store).slots@, x),
        // Input never moves anyone: an entity either keeps its cell or
        // leaves the grid (a picked-up item).
        forall|i: int|
            #[trigger] live(final(store).slots@, i) ==> live(old(store).slots@, i) && (data(
                final(store).slots@,
                i,
            ).pos == data(old(store).slots@, i).pos || data(final(store).slots@, i).pos is None)
                && data(final(store).slots@, i).fov == data(old(store).slots@, i).fov,
        key is None ==> final(store).slots@ == old(store).slots@ && *final(turn_state) == *old(
            turn_state,
        ) && final(moves)@ == old(moves)@ && final(attacks)@ == old(attacks)@ && final(activations)@
            == old(activations)@,
        key is Some ==> *final(turn_state) == TurnState::PlayerTurn,
        // Movement keys: intents against the computed destination.
        (match key {
            Some(k) => match key_delta(k) {
                Some(d) => {
                    let pl = player_slot(old(store).slots@);
                    let ppos = data(old(store).slots@, pl).pos->0;
                    let dest = Point { x: (ppos.x + d.0) as i32, y: (ppos.y + d.1) as i32 };
                    let ats = attacks_at_upto(
                        old(store).slots@,
                        Entity { id: pl as usize },
                        dest,
                        old(store).slots@.len() as int,
                    );
                    &&& final(store).slots@ == old(store).slots@
                    &&& final(activations)@ == old(activations)@
                    &&& (ats.len() > 0 ==> final(attacks)@ == old(attacks)@ + ats && final(moves)@
                        == old(moves)@)
                    &&& (ats.len() == 0 ==> final(attacks)@ == old(attacks)@ && final(moves)@ == old(
                        moves,
                    )@.push(
                        WantsToMove { entity: Entity { id: pl as usize }, destination: dest },
                    ))
                },
                None => final(moves)@ == old(moves)@ && final(attacks)@ == old(attacks)@,
            },
            None => true,
        }),
        // The pickup key: the exact inventory transfer.
        (match key {
            Some(k) => k is G ==> {
                let pl = player_slot(old(store).slots@);
                let ppos = data(old(store).slots@, pl).pos->0;
                &&& final(store).slots@ == pickup_result(
                    old(store).slots@,
                    Entity { id: pl as usize },
                    ppos,
                )
                &&& final(activations)@ == old(activations)@
            },
            None => true,
        }),
        // Digit keys: at most one activation, of an item the player
        // carries.
        (match key {
            Some(k) => key_digit(k) is Some ==> {
                &&& final(store).slots@ == old(store).slots@
                &&& final(moves)@ == old(moves)@
                &&& final(attacks)@ == old(attacks)@
                &&& (final(activations)@ == old(activations)@ || exists|it: int|
                    {
                        &&& final(activations)@ == old(activations)@.push(
                            ActivateItem {
                                used_by: Entity { id: player_slot(old(store).slots@) as usize },
                                item: Entity { id: it as usize },
                            },
                        )
                        &&& #[trigger] live(old(store).slots@, it)
                        &&& data(old(store).slots@, it).item is Some
                        &&& data(old(store).slots@, it).carried is Some
                        &&& data(old(store).slots@, it).carried->0.by.id == player_slot(
                            old(store).slots@,
                        )
                    })
            },
            None => true,
        }),
{
    let k = match key {
        None => {
            return ;
        },
        Some(k) => k,
    };
    let pl_idx = find_player(store);
    let pl = Entity { id: pl_idx };
    let ppos = match &store.slots[pl_idx].as_ref().unwrap().pos {
        Some(p) => *p,
        None => {
            proof {
                assert(false);
            }
            Point { x: 0, y: 0 }
        },
    };
    proof {
        assert(live(store.slots@, pl_idx as int));
        assert(crate::map::in_bounds_xy(ppos.x as int, ppos.y as int));
    }
    match k {
        GameKey::Left | GameKey::Right | GameKey::Up | GameKey::Down => {
            let (dx, dy): (i32, i32) = match k {
                GameKey::Left => (-1, 0),
                GameKey::Right => (1, 0),
                GameKey::Up => (0, -1),
                _ => (0, 1),
            };
            let dest = Point { x: ppos.x + dx, y: ppos.y + dy };
            let ghost slots0 = store.slots@;
            let mut hit = false;
            let mut i: usize = 0;
            while i < store.slots.len()
                invariant
                    store.slots@ == slots0,
                    i <= slots0.len(),
                    attacks@ == old(attacks)@ + attacks_at_upto(slots0, pl, dest, i as int),
                    hit == (attacks_at_upto(slots0, pl, dest, i as int).len() > 0),
                decreases slots0.len() - i,
            {
                let is_enemy_here = match store.slots[i].as_ref() {
                    Some(d) => d.enemy.is_some() && match &d.pos {
                        Some(q) => q.x == dest.x && q.y == dest.y,
                        None => false,
                    },
                    None => false,
                };
                if is_enemy_here {
                    attacks.push(WantsToAttack { attacker: pl, victim: Entity { id: i } });
                    hit = true;
                }
                proof {
                    if is_enemy_here {
                        assert(data(slots0, i as int).pos->0 == dest);
                    }
                    assert(attacks@ =~= old(attacks)@ + attacks_at_upto(
                        slots0,
                        pl,
                        dest,
                        i as int + 1,
                    ));
                }
                i += 1;
            }
            if !hit {
                moves.push(WantsToMove { entity: pl, destination: dest });
            }
        },
        GameKey::G => {
            pick_up(store, pl, ppos);
        },
        _ => {
            let n: usize = match k {
                GameKey::Key1 => 0,
                GameKey::Key2 => 1,
                GameKey::Key3 => 2,
                GameKey::Key4 => 3,
                GameKey::Key5 => 4,
                GameKey::Key6 => 5,
                GameKey::Key7 => 6,
                GameKey::Key8 => 7,
                _ => 8,
            };
            match nth_carried_item(store, pl, n) {
                Some(item) => {
                    activations.push(ActivateItem { used_by: pl, item });
                },
                None => {},
            }
        },
    }
    *turn_state = TurnState::PlayerTurn;
}

/// Move every item on the player's cell into the player's inventory; a
/// picked-up weapon sends the previously carried weapons away.
fn pick_up(store: &mut EntityStore, pl: Entity, ppos: Point)
    requires
        wf_world(old(store).slots@),
        player_at(old(store).slots@, pl.id as int),
    ensures
        final(store).slots@ == pickup_result(old(store).slots@, pl, ppos),
        wf_world(final(store).slots@),
        forall|x: int| player_at(final(store).slots@, x) <==> player_at(old(store).slots@, x),
        forall|i: int|
            #[trigger] live(final(store).slots@, i) ==> live(old(store).slots@, i) && (data(
                final(store).slots@,
                i,
            ).pos == data(old(store).slots@, i).pos || data(final(store).slots@, i).pos is None)
                && data(final(store).slots@, i).fov == data(old(store).slots@, i).fov,
{
    let ghost slots0 = store.slots@;
    let mut picks: Vec<Entity> = Vec::new();
    let mut removals = CommandBuffer::new();
    let mut weapon_picked = false;
    let mut i: usize = 0;
    while i < store.slots.len()
        invariant
            store.slots@ == slots0,
            i <= slots0.len(),
            picks@ == picks_upto(slots0, ppos, i as int),
            removals.commands@ == old_weapon_removals_upto(slots0, pl, i as int),
            weapon_picked ==> picks_weapon(slots0, ppos),
            !weapon_picked ==> forall|j: int|
                0 <= j < i ==> !(#[trigger] live(slots0, j) && data(slots0, j).item is Some && data(
                    slots0,
                    j,
                ).pos is Some && data(slots0, j).pos->0 == ppos && data(slots0, j).weapon is Some),
        decreases slots0.len() - i,
    {
        let (is_pick, is_weapon_pick, is_old_weapon) = match store.slots[i].as_ref() {
            Some(d) => {
                let here = d.item.is_some() && match &d.pos {
                    Some(q) => q.x == ppos.x && q.y == ppos.y,
                    None => false,
                };
                let old_w = d.weapon.is_some() && match &d.carried {
                    Some(c) => c.by.id == pl.id,
                    None => false,
                };
                (here, here && d.weapon.is_some(), old_w)
            },
            None => (false, false, false),
        };
        if is_pick {
            picks.push(Entity { id: i });
            proof {
                assert(data(slots0, i as int).pos->0 == ppos);
            }
        }
        if is_weapon_pick {
            weapon_picked = true;
            proof {
                assert(live(slots0, i as int));
                assert(picks_weapon(slots0, ppos));
            }
        }
        if is_old_weapon {
            removals.push(Command::RemoveEntity(Entity { id: i }));
        }
        proof {
            assert(picks@ =~= picks_upto(slots0, ppos, i as int + 1));
            assert(removals.commands@ =~= old_weapon_removals_upto(slots0, pl, i as int + 1));
        }
        i += 1;
    }
    // Pick everything up.
    let ghost picks_list = picks@;
    let mut e: usize = 0;
    while e < picks.len()
        invariant
            e <= picks@.len(),
            picks@ == picks_list,
            store.slots@ == pickup_fold(slots0, picks_list.take(e as int), pl),
        decreases picks@.len() - e,
    {
        let ghost pre = store.slots@;
        let target = picks[e];
        if target.id < store.slots.len() {
            let slot = &mut store.slots[target.id];
            if let Some(d) = slot.as_mut() {
                d.pos = None;
                d.carried = Some(Carried { by: pl });
            }
            proof {
                assert(store.slots@ =~= pickup_step(pre, picks_list[e as int], pl));
            }
        } else {
            proof {
                assert(store.slots@ == pickup_step(pre, picks_list[e as int], pl));
            }
        }
        proof {
            assert(picks_list.take(e as int + 1).drop_last() =~= picks_list.take(e as int));
            assert(picks_list.take(e as int + 1).last() == picks_list[e as int]);
        }
        e += 1;
    }
    proof {
        assert(picks_list.take(picks_list.len() as int) =~= picks_list);
    }
    // Replace the old weapons.
    if weapon_picked {
        proof {
            lemma_picks_not_equipped(slots0, ppos, slots0.len() as int);
            lemma_pickup_fold_wf(slots0, picks_upto(slots0, ppos, slots0.len() as int), pl, ppos);
            lemma_pick_removals_ok(slots0, pl, slots0.len() as int);
            assert forall|m: int|
                0 <= m < removals.commands@.len() implies (#[trigger] removals.commands@[m])
                is RemoveEntity && !player_at(
                store.slots@,
                removals.commands@[m]->RemoveEntity_0.id as int,
            ) by {
                assert(!player_at(slots0, removals.commands@[m]->RemoveEntity_0.id as int));
            }
        }
        removals.flush(store);
    }
    proof {
        lemma_picks_not_equipped(slots0, ppos, slots0.len() as int);
        lemma_pickup_fold_wf(slots0, picks_upto(slots0, ppos, slots0.len() as int), pl, ppos);
        lemma_pickup_fold_keeps_cells(slots0, picks_upto(slots0, ppos, slots0.len() as int), pl);
        if picks_weapon(slots0, ppos) {
            let s1 = pickup_fold(slots0, picks_upto(slots0, ppos, slots0.len() as int), pl);
            lemma_pick_removals_ok(slots0, pl, slots0.len() as int);
            assert forall|m: int|
                0 <= m < old_weapon_removals_upto(slots0, pl, slots0.len() as int).len() implies (
            #[trigger] old_weapon_removals_upto(slots0, pl, slots0.len() as int)[m]) is RemoveEntity
                && !player_at(
                s1,
                old_weapon_removals_upto(slots0, pl, slots0.len() as int)[m]->RemoveEntity_0.id as int,
            ) by {
                assert(!player_at(
                    slots0,
                    old_weapon_removals_upto(slots0, pl, slots0.len() as int)[m]->RemoveEntity_0.id as int,
                ));
            }
            lemma_apply_removals_preserves_wf(
                s1,
                old_weapon_removals_upto(slots0, pl, slots0.len() as int),
            );
        }
    }
}

/// Picked-up items sit on a cell, so they are neither carried nor
/// equipped; moving them into the inventory keeps the invariant, the
/// player set, and everyone's equipment.
proof fn lemma_pickup_fold_wf(
    slots: Seq<Option<EntityData>>,
    es: Seq<Entity>,
    pl: Entity,
    ppos: Point,
)
    requires
        wf_world(slots),
        forall|j: int|
            0 <= j < es.len() ==> live(slots, (#[trigger] es[j]).id as int) && data(
                slots,
                es[j].id as int,
            ).equipped is None && data(slots, es[j].id as int).player is None,
    ensures
        wf_world(pickup_fold(slots, es, pl)),
        forall|x: int| player_at(pickup_fold(slots, es, pl), x) <==> player_at(slots, x),
        forall|x: int| live(pickup_fold(slots, es, pl), x) <==> live(slots, x),
        forall|x: int|
            live(slots, x) ==> data(pickup_fold(slots, es, pl), x).equipped == data(
                slots,
                x,
            ).equipped && data(pickup_fold(slots, es, pl), x).player == data(slots, x).player,
    decreases es.len(),
{
    if es.len() > 0 {
        lemma_pickup_fold_wf(slots, es.drop_last(), pl, ppos);
        let mid = pickup_fold(slots, es.drop_last(), pl);
        let t = es.last();
        let s2 = pickup_step(mid, t, pl);
        assert(es[es.len() - 1] == t);
        assert(live(mid, t.id as int));
        assert(data(mid, t.id as int).equipped is None);
        assert(data(slots, t.id as int).player is None);
        assert(data(mid, t.id as int).player is None);
        assert forall|x: int| player_at(s2, x) <==> player_at(mid, x) by {
            if player_at(s2, x) {
                assert(live(mid, x));
            }
            if player_at(mid, x) {
                assert(live(s2, x));
            }
        }
        let p = choose|p: int|
            #[trigger] player_at(mid, p) && forall|j: int| #[trigger] player_at(mid, j) ==> j == p;
        assert(player_at(s2, p));
        assert forall|j: int| #[trigger] player_at(s2, j) implies j == p by {
            assert(player_at(mid, j));
        }
        assert forall|j: int| #[trigger] live(s2, j) && data(s2, j).equipped is Some implies {
            &&& live(s2, data(s2, j).equipped->0.by.id as int)
            &&& data(s2, data(s2, j).equipped->0.by.id as int).health is Some
            &&& player_at(s2, data(s2, j).equipped->0.by.id as int)
        } by {
            assert(live(mid, j) && data(mid, j).equipped is Some);
            assert(player_at(mid, data(mid, j).equipped->0.by.id as int));
        }
        assert forall|j: int| #[trigger] live(s2, j) implies {
            &&& !(data(s2, j).carried is Some && data(s2, j).equipped is Some)
            &&& ((data(s2, j).carried is Some || data(s2, j).equipped is Some) ==> data(s2, j).pos
                is None)
            &&& (data(s2, j).item is Some ==> data(s2, j).player is None)
            &&& (data(s2, j).pos is Some ==> crate::map::in_bounds_xy(
                data(s2, j).pos->0.x as int,
                data(s2, j).pos->0.y as int,
            ))
        } by {
            assert(live(mid, j));
        }
        assert forall|j: int| #[trigger] player_at(s2, j) implies data(s2, j).health is Some && data(
            s2,
            j,
        ).pos is Some by {
            assert(player_at(mid, j));
        }
    }
}

proof fn lemma_pickup_fold_keeps_cells(slots: Seq<Option<EntityData>>, es: Seq<Entity>, pl: Entity)
    ensures
        pickup_fold(slots, es, pl).len() == slots.len(),
        forall|i: int|
            #[trigger] live(pickup_fold(slots, es, pl), i) ==> live(slots, i) && (data(
                pickup_fold(slots, es, pl),
                i,
            ).pos == data(slots, i).pos || data(pickup_fold(slots, es, pl), i).pos is None) && data(
                pickup_fold(slots, es, pl),
                i,
            ).fov == data(slots, i).fov,
    decreases es.len(),
{
    if es.len() > 0 {
        lemma_pickup_fold_keeps_cells(slots, es.drop_last(), pl);
        let mid = pickup_fold(slots, es.drop_last(), pl);
        let s2 = pickup_step(mid, es.last(), pl);
        assert forall|i: int| #[trigger] live(s2, i) implies live(mid, i) && (data(s2, i).pos
            == data(mid, i).pos || data(s2, i).pos is None) && data(s2, i).fov == data(
            mid,
            i,
        ).fov by {}
    }
}

/// Carried weapons are never the player.
proof fn lemma_pick_removals_ok(slots: Seq<Option<EntityData>>, pl: Entity, n: int)
    requires
        wf_world(slots),
        n <= slots.len(),
        slots.len() <= usize::MAX,
    ensures
        forall|m: int|
            0 <= m < old_weapon_removals_upto(slots, pl, n).len() ==> (
            #[trigger] old_weapon_removals_upto(slots, pl, n)[m]) is RemoveEntity && !player_at(
                slots,
                old_weapon_removals_upto(slots, pl, n)[m]->RemoveEntity_0.id as int,
            ),
    decreases n,
{
    if n > 0 {
        lemma_pick_removals_ok(slots, pl, n - 1);
        let cur = old_weapon_removals_upto(slots, pl, n);
        let prev = old_weapon_removals_upto(slots, pl, n - 1);
        assert forall|m: int| 0 <= m < cur.len() implies (#[trigger] cur[m]) is RemoveEntity
            && !player_at(slots, cur[m]->RemoveEntity_0.id as int) by {
            if m < prev.len() {
                assert(cur[m] == prev[m]);
            } else {
                assert(live(slots, n - 1));
                assert(data(slots, n - 1).pos is None);
                if player_at(slots, n - 1) {
                    assert(data(slots, n - 1).pos is Some);
                }
            }
        }
    }
}

/// Whether the picked items' precondition for the fold lemma holds: an
/// item lying on a cell is not equipped.
proof fn lemma_picks_not_equipped(slots: Seq<Option<EntityData>>, ppos: Point, n: int)
    requires
        wf_world(slots),
        n <= slots.len(),
        slots.len() <= usize::MAX,
    ensures
        forall|j: int|
            0 <= j < picks_upto(slots, ppos, n).len() ==> live(
                slots,
                (#[trigger] picks_upto(slots, ppos, n)[j]).id as int,
            ) && data(slots, picks_upto(slots, ppos, n)[j].id as int).equipped is None && data(
                slots,
                picks_upto(slots, ppos, n)[j].id as int,
            ).player is None,
    decreases n,
{
    if n > 0 {
        lemma_picks_not_equipped(slots, ppos, n - 1);
        let cur = picks_upto(slots, ppos, n);
        let prev = picks_upto(slots, ppos, n - 1);
        assert forall|j: int| 0 <= j < cur.len() implies live(
            slots,
            (#[trigger] cur[j]).id as int,
        ) && data(slots, cur[j].id as int).equipped is None && data(slots, cur[j].id as int).player
            is None by {
            if j < prev.len() {
                assert(cur[j] == prev[j]);
            } else {
                assert(cur[j].id as int == n - 1);
                assert(live(slots, n - 1));
            }
        }
    }
}

/// A live item entity carried by this player, with a name.
pub open spec fn carried_named(slots: Seq<Option<EntityData>>, pl: Entity, j: int) -> bool {
    &&& live(slots, j)
    &&& data(slots, j).item is Some
    &&& data(slots, j).carried is Some
    &&& data(slots, j).carried->0.by.id == pl.id
    &&& data(slots, j).name is Some
}

/// Each entry names a carried item slot, and no later scanned slot
/// carries an item of the same name: the last slot wins.
pub open spec fn entries_ok(
    slots: Seq<Option<EntityData>>,
    pl: Entity,
    entries: Seq<(String, usize)>,
    upto: int,
) -> bool {
    forall|m: int|
        0 <= m < entries.len() ==> {
            let it = (#[trigger] entries[m]).1 as int;
            &&& carried_named(slots, pl, it)
            &&& data(slots, it).name->0.name@ == entries[m].0@
            &&& it < upto
            &&& forall|j: int|
                it < j < upto && #[trigger] carried_named(slots, pl, j) ==> data(
                    slots,
                    j,
                ).name->0.name@ != entries[m].0@
        }
}

/// The entry names are pairwise distinct.
pub open spec fn entries_distinct(entries: Seq<(String, usize)>) -> bool {
    forall|p: int, q: int|
        0 <= p < q < entries.len() ==> (#[trigger] entries[p]).0@ != (#[trigger] entries[q]).0@
}

/// The item at rank `n` among the distinct names the player carries, in
/// ascending name order; for a repeated name the last slot wins.
fn nth_carried_item(store: &EntityStore, pl: Entity, n: usize) -> (r: Option<Entity>)
    requires
        n <= 8,
    ensures
        match r {
            Some(it) => {
                &&& carried_named(store.slots@, pl, it.id as int)
                &&& forall|j: int|
                    it.id < j < store.slots@.len() && #[trigger] carried_named(
                        store.slots@,
                        pl,
                        j,
                    ) ==> data(store.slots@, j).name->0.name@ != data(
                        store.slots@,
                        it.id as int,
                    ).name->0.name@
            },
            None => true,
        },
{
    let mut entries: Vec<(String, usize)> = Vec::new();
    let mut i: usize = 0;
    while i < store.slots.len()
        invariant
            i <= store.slots@.len(),
            entries_ok(store.slots@, pl, entries@, i as int),
            entries_distinct(entries@),
        decreases store.slots@.len() - i,
    {
        let keep = match store.slots[i].as_ref() {
            Some(d) => d.item.is_some() && d.name.is_some() && match &d.carried {
                Some(c) => c.by.id == pl.id,
                None => false,
            },
            None => false,
        };
        if keep {
            let nm = match store.slots[i].as_ref() {
                Some(d) => match &d.name {
                    Some(q) => crate::store::clone_string(&q.name),
                    None => String::new(),
                },
                None => String::new(),
            };
            assert(carried_named(store.slots@, pl, i as int));
            assert(data(store.slots@, i as int).name->0.name@ == nm@);
            // Keep the last slot for a repeated name.
            let mut found = false;
            let mut m: usize = 0;
            while m < entries.len()
                invariant
                    m <= entries@.len(),
                    i < store.slots@.len(),
                    carried_named(store.slots@, pl, i as int),
                    data(store.slots@, i as int).name->0.name@ == nm@,
                    entries_distinct(entries@),
                    !found ==> forall|q: int|
                        0 <= q < m ==> (#[trigger] entries@[q]).0@ != nm@,
                    forall|q: int|
                        0 <= q < m && (#[trigger] entries@[q]).1 < i ==> entries@[q].0@ != nm@,
                    forall|q: int|
                        0 <= q < entries@.len() ==> {
                            let it = (#[trigger] entries@[q]).1 as int;
                            &&& carried_named(store.slots@, pl, it)
                            &&& data(store.slots@, it).name->0.name@ == entries@[q].0@
                            &&& it <= i
                            &&& (it < i ==> forall|j: int|
                                it < j < i && #[trigger] carried_named(store.slots@, pl, j)
                                    ==> data(store.slots@, j).name->0.name@ != entries@[q].0@)
                            &&& (it == i as int ==> entries@[q].0@ == nm@)
                        },
                decreases entries@.len() - m,
            {
                if entries[m].0 == nm {
                    let old_name = crate::store::clone_string(&entries[m].0);
                    entries.set(m, (old_name, i));
                    found = true;
                }
                m += 1;
            }
            if !found {
                entries.push((nm, i));
                proof {
                    assert forall|p: int, q: int| 0 <= p < q < entries@.len() implies (
                    #[trigger] entries@[p]).0@ != (#[trigger] entries@[q]).0@ by {
                        if q == entries@.len() - 1 {
                            assert(entries@[p].0@ != nm@);
                        }
                    }
                }
            }
            proof {
                assert forall|q: int| 0 <= q < entries@.len() implies {
                    let it = (#[trigger] entries@[q]).1 as int;
                    &&& carried_named(store.slots@, pl, it)
                    &&& data(store.slots@, it).name->0.name@ == entries@[q].0@
                    &&& it < i + 1
                    &&& forall|j: int|
                        it < j < i + 1 && #[trigger] carried_named(store.slots@, pl, j) ==> data(
                            store.slots@,
                            j,
                        ).name->0.name@ != entries@[q].0@
                } by {
                    let it = entries@[q].1 as int;
                    assert forall|j: int|
                        it < j < i + 1 && #[trigger] carried_named(store.slots@, pl, j) implies data(
                        store.slots@,
                        j,
                    ).name->0.name@ != entries@[q].0@ by {
                        if j == i as int {
                            assert(it < i as int);
                        }
                    }
                }
            }
        } else {
            proof {
                assert forall|q: int| 0 <= q < entries@.len() implies {
                    let it = (#[trigger] entries@[q]).1 as int;
                    forall|j: int|
                        it < j < i + 1 && #[trigger] carried_named(store.slots@, pl, j) ==> data(
                            store.slots@,
                            j,
                        ).name->0.name@ != entries@[q].0@
                } by {
                    let it = entries@[q].1 as int;
                    assert forall|j: int|
                        it < j < i + 1 && #[trigger] carried_named(store.slots@, pl, j) implies data(
                        store.slots@,
                        j,
                    ).name->0.name@ != entries@[q].0@ by {
                        if j == i as int {
                            assert(!carried_named(store.slots@, pl, i as int));
                        }
                    }
                }
            }
        }
        i += 1;
    }
    // Select the (n+1)-smallest name.
    let mut taken: Vec<bool> = Vec::new();
    let mut t: usize = 0;
    while t < entries.len()
        invariant
            taken@.len() == t,
            t <= entries@.len(),
            entries_ok(store.slots@, pl, entries@, store.slots@.len() as int),
        decreases entries@.len() - t,
    {
        taken.push(false);
        t += 1;
    }
    let mut rank: usize = 0;
    let mut result: Option<usize> = None;
    while rank <= n
        invariant
            n <= 8,
            taken@.len() == entries@.len(),
            rank <= n + 1,
            entries_ok(store.slots@, pl, entries@, store.slots@.len() as int),
            match result {
                Some(m) => m < entries@.len(),
                None => true,
            },
        decreases n - rank + 1,
    {
        let mut best: Option<usize> = None;
        let mut m: usize = 0;
        while m < entries.len()
            invariant
                taken@.len() == entries@.len(),
                m <= entries@.len(),
                match best {
                    Some(b) => b < entries@.len(),
                    None => true,
                },
            decreases entries@.len() - m,
        {
            if !taken[m] {
                best = match best {
                    None => Some(m),
                    Some(b) => if str_lt(&entries[m].0, &entries[b].0) {
                        Some(m)
                    } else {
                        Some(b)
                    },
                };
            }
            m += 1;
        }
        match best {
            None => {
                return None;
            },
            Some(b) => {
                taken.set(b, true);
                result = Some(b);
            },
        }
        rank += 1;
    }
    match result {
        None => None,
        Some(m) => {
            proof {
                let it = entries@[m as int].1 as int;
                assert(carried_named(store.slots@, pl, it));
                assert forall|j: int|
                    it < j < store.slots@.len() && #[trigger] carried_named(
                        store.slots@,
                        pl,
                        j,
                    ) implies data(store.slots@, j).name->0.name@ != data(
                    store.slots@,
                    it,
                ).name->0.name@ by {
                    assert(data(store.slots@, j).name->0.name@ != entries@[m as int].0@);
                }
            }
            Some(Entity { id: entries[m].1 })
        },
    }
}

/// Lexicographic order on names, by character code; a proper prefix
/// comes first.
pub open spec fn name_lt(a: Seq<char>, b: Seq<char>) -> bool
    decreases b.len(),
{
    if b.len() == 0 {
        false
    } else if a.len() == 0 {
        true
    } else if a[0] == b[0] {
        name_lt(a.drop_first(), b.drop_first())
    } else {
        (a[0] as u32) < (b[0] as u32)
    }
}

/// The order is decided at the first difference: equal prefixes can be
/// dropped.
proof fn lemma_name_lt_skip(a: Seq<char>, b: Seq<char>, k: int)
    requires
        0 <= k <= a.len(),
        k <= b.len(),
        forall|m: int| 0 <= m < k ==> a[m] == b[m],
    ensures
        name_lt(a, b) == name_lt(a.skip(k), b.skip(k)),
    decreases k,
{
    if k > 0 {
        assert(a.len() > 0 && b.len() > 0);
        assert(a[0] == b[0]);
        lemma_name_lt_skip(a.drop_first(), b.drop_first(), k - 1);
        assert(a.drop_first().skip(k - 1) =~= a.skip(k));
        assert(b.drop_first().skip(k - 1) =~= b.skip(k));
    } else {
        assert(a.skip(0) =~= a);
        assert(b.skip(0) =~= b);
    }
}

/// Whether `a` orders strictly before `b`, character by character.
pub(crate) fn str_lt(a: &String, b: &String) -> (r: bool)
    ensures
        r == name_lt(a@, b@),
{
    let la = a.as_str().unicode_len();
    let lb = b.as_str().unicode_len();
    let mut k: usize = 0;
    while k < la && k < lb
        invariant
            la == a@.len(),
            lb == b@.len(),
            k <= la,
            k <= lb,
            forall|m: int| 0 <= m < k ==> a@[m] == b@[m],
        decreases la - k,
    {
        let ca = a.as_str().get_char(k);
        let cb = b.as_str().get_char(k);
        if ca != cb {
            proof {
                lemma_name_lt_skip(a@, b@, k as int);
                assert(a@.skip(k as int)[0] == a@[k as int]);
                assert(b@.skip(k as int)[0] == b@[k as int]);
            }
            return (ca as u32) < (cb as u32);
        }
        k += 1;
    }
    proof {
        lemma_name_lt_skip(a@, b@, if la < lb {
            la as int
        } else {
            lb as int
        });
    }
    la < lb
}

} // verus!
