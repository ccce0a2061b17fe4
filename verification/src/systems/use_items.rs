use vstd::prelude::*;
use crate::components::{ActivateItem, Carried, Entity, Equipped, Health};
use crate::map::{GameMap, Revealed};
use crate::store::{
    apply_commands, data, lemma_apply_removals_preserves_wf, live, player_at, wf_world, Command,
    CommandBuffer, EntityData, EntityStore,
};
use crate::NUM_TILES;

verus! {

/// Whether intent `k` heals: its item is alive and provides healing.
pub open spec fn heal_intent(slots: Seq<Option<EntityData>>, at: ActivateItem) -> bool {
    live(slots, at.item.id as int) && data(slots, at.item.id as int).provides_healing is Some
}

/// The healing orders the first `n` intents produce: who is healed and
/// by how much.
pub open spec fn heals_upto(
    slots: Seq<Option<EntityData>>,
    ats: Seq<ActivateItem>,
    n: int,
) -> Seq<(Entity, i32)>
    decreases n,
{
    if n <= 0 {
        Seq::empty()
    } else {
        let prev = heals_upto(slots, ats, n - 1);
        if heal_intent(slots, ats[n - 1]) {
            prev.push(
                (ats[n - 1].used_by, data(slots, ats[n - 1].item.id as int).provides_healing->0.amount),
            )
        } else {
            prev
        }
    }
}

/// Whether intent `k` equips: its item is alive, carried, and provides
/// equipment, and its user is alive with health (so the wearer the
/// item ends on exists and can bleed).
pub open spec fn equip_intent(slots: Seq<Option<EntityData>>, at: ActivateItem) -> bool {
    &&& live(slots, at.item.id as int)
    &&& data(slots, at.item.id as int).carried is Some
    &&& data(slots, at.item.id as int).provides_equipment is Some
    &&& live(slots, at.used_by.id as int)
    &&& data(slots, at.used_by.id as int).health is Some
}

/// Whether every activation is the player's own. The game's pipelines
/// only ever queue the player's activations; under that discipline the
/// whole store invariant survives the system.
pub open spec fn activations_by_player(
    slots: Seq<Option<EntityData>>,
    ats: Seq<ActivateItem>,
) -> bool {
    forall|k: int| 0 <= k < ats.len() ==> player_at(slots, (#[trigger] ats[k]).used_by.id as int)
}

/// The equip orders of the first `n` intents: which item moves onto
/// which wearer.
pub open spec fn equips_upto(
    slots: Seq<Option<EntityData>>,
    ats: Seq<ActivateItem>,
    n: int,
) -> Seq<(Entity, Entity)>
    decreases n,
{
    if n <= 0 {
        Seq::empty()
    } else {
        let prev = equips_upto(slots, ats, n - 1);
        if equip_intent(slots, ats[n - 1]) {
            prev.push((ats[n - 1].item, ats[n - 1].used_by))
        } else {
            prev
        }
    }
}

/// The removal commands of the first `n` intents: depleting items
/// vanish once activated.
pub open spec fn removals_upto(
    slots: Seq<Option<EntityData>>,
    ats: Seq<ActivateItem>,
    n: int,
) -> Seq<Command>
    decreases n,
{
    if n <= 0 {
        Seq::empty()
    } else {
        let prev = removals_upto(slots, ats, n - 1);
        if live(slots, ats[n - 1].item.id as int) && data(slots, ats[n - 1].item.id as int).provides_depletion
            is Some && data(slots, ats[n - 1].item.id as int).player is None {
            prev.push(Command::RemoveEntity(ats[n - 1].item))
        } else {
            prev
        }
    }
}

/// Whether any of the first `n` intents activates a dungeon map.
pub open spec fn reveal_upto(slots: Seq<Option<EntityData>>, ats: Seq<ActivateItem>, n: int) -> bool
    decreases n,
{
    if n <= 0 {
        false
    } else {
        reveal_upto(slots, ats, n - 1) || (live(slots, ats[n - 1].item.id as int) && data(
            slots,
            ats[n - 1].item.id as int,
        ).provides_dungeon_map is Some)
    }
}

/// Whether user `u` equips a weapon through one of the intents, so that
/// the weapons it already wears must come off.
pub open spec fn user_rearms(slots: Seq<Option<EntityData>>, ats: Seq<ActivateItem>, u: int) -> bool {
    exists|k: int|
        0 <= k < ats.len() && equip_intent(slots, #[trigger] ats[k]) && data(
            slots,
            ats[k].item.id as int,
        ).weapon is Some && ats[k].used_by.id as int == u
}

/// The weapons among the first `n` slots that must come off: equipped
/// weapons whose wearer equips a new weapon this turn.
pub open spec fn demotes_upto(
    slots: Seq<Option<EntityData>>,
    ats: Seq<ActivateItem>,
    n: int,
) -> Seq<Entity>
    decreases n,
{
    if n <= 0 {
        Seq::empty()
    } else {
        let prev = demotes_upto(slots, ats, n - 1);
        if live(slots, n - 1) && data(slots, n - 1).weapon is Some && data(slots, n - 1).equipped
            is Some && user_rearms(slots, ats, data(slots, n - 1).equipped->0.by.id as int) {
            prev.push(Entity { id: (n - 1) as usize })
        } else {
            prev
        }
    }
}

/// One equip order applied: the item leaves the inventory and sits
/// equipped on its wearer.
pub open spec fn equip_step(slots: Seq<Option<EntityData>>, e: (Entity, Entity)) -> Seq<
    Option<EntityData>,
> {
    let i = e.0.id as int;
    if live(slots, i) {
        slots.update(
            i,
            Some(
                EntityData { carried: None, equipped: Some(Equipped { by: e.1 }), ..data(slots, i) },
            ),
        )
    } else {
        slots
    }
}

pub open spec fn equip_fold(slots: Seq<Option<EntityData>>, es: Seq<(Entity, Entity)>) -> Seq<
    Option<EntityData>,
>
    decreases es.len(),
{
    if es.len() == 0 {
        slots
    } else {
        equip_step(equip_fold(slots, es.drop_last()), es.last())
    }
}

/// One weapon taken off: it drops back into the inventory of whoever
/// wore it.
pub open spec fn demote_step(slots: Seq<Option<EntityData>>, w: Entity) -> Seq<Option<EntityData>> {
    let i = w.id as int;
    if live(slots, i) && data(slots, i).equipped is Some {
        slots.update(
            i,
            Some(
                EntityData {
                    equipped: None,
                    carried: Some(Carried { by: data(slots, i).equipped->0.by }),
                    ..data(slots, i)
                },
            ),
        )
    } else {
        slots
    }
}

pub open spec fn demote_fold(slots: Seq<Option<EntityData>>, ws: Seq<Entity>) -> Seq<
    Option<EntityData>,
>
    decreases ws.len(),
{
    if ws.len() == 0 {
        slots
    } else {
        demote_step(demote_fold(slots, ws.drop_last()), ws.last())
    }
}

/// One healing order applied: the target's health rises by the amount,
/// clamped to its maximum.
pub open spec fn heal_step(slots: Seq<Option<EntityData>>, h: (Entity, i32)) -> Seq<
    Option<EntityData>,
> {
    let i = h.0.id as int;
    if live(slots, i) && data(slots, i).health is Some {
        let d = data(slots, i);
        let hp = d.health->0;
        let raw = if hp.current + h.1 < hp.max {
            hp.current + h.1
        } else {
            hp.max as int
        };
        let nh = crate::systems::combat::clamp_to_i32(raw);
        slots.update(
            i,
            Some(EntityData { health: Some(Health { current: nh as i32, max: hp.max }), ..d }),
        )
    } else {
        slots
    }
}

pub open spec fn heal_fold(slots: Seq<Option<EntityData>>, hs: Seq<(Entity, i32)>) -> Seq<
    Option<EntityData>,
>
    decreases hs.len(),
{
    if hs.len() == 0 {
        slots
    } else {
        heal_step(heal_fold(slots, hs.drop_last()), hs.last())
    }
}

/// Every cell that was waiting to be revealed is known from the map.
pub open spec fn promote_unrevealed(revealed: Seq<Revealed>) -> Seq<Revealed> {
    Seq::new(
        revealed.len(),
        |i: int|
            if revealed[i] == Revealed::Unrevealed {
                Revealed::FromMap
            } else {
                revealed[i]
            },
    )
}

/// The store after a whole activation phase: items are equipped, the
/// displaced weapons come off, depleted items vanish, and the healing
/// is applied.
pub open spec fn use_items_slots(slots: Seq<Option<EntityData>>, ats: Seq<ActivateItem>) -> Seq<
    Option<EntityData>,
> {
    let n = ats.len() as int;
    let s1 = equip_fold(slots, equips_upto(slots, ats, n));
    let s2 = demote_fold(s1, demotes_upto(slots, ats, slots.len() as int));
    let s3 = apply_commands(s2, removals_upto(slots, ats, n));
    heal_fold(s3, heals_upto(slots, ats, n))
}

/// Consume every activation intent. Healing items restore their user's
/// health up to its maximum; a dungeon map promotes every unrevealed
/// cell to known-from-map; equipment moves from the inventory onto the
/// user, displacing any weapon the user already wears back into the
/// inventory; depleting items are removed. A cell once seen stays seen.
pub fn use_items(store: &mut EntityStore, activations: Vec<ActivateItem>, map: &mut GameMap)
    requires
        old(map).wf(),
    ensures
        final(store).slots@ == use_items_slots(old(store).slots@, activations@),
        wf_world(old(store).slots@) && activations_by_player(old(store).slots@, activations@)
            ==> wf_world(final(store).slots@),
        // Activation never moves anyone: a surviving entity keeps its
        // cell.
        forall|i: int|
            #[trigger] live(final(store).slots@, i) ==> live(old(store).slots@, i) && data(
                final(store).slots@,
                i,
            ).pos == data(old(store).slots@, i).pos && data(final(store).slots@, i).fov == data(
                old(store).slots@,
                i,
            ).fov,
        final(map).wf(),
        final(map).tiles@ == old(map).tiles@,
        final(map).dijkstra_maps@ == old(map).dijkstra_maps@,
        final(map).revealed_tiles@ == if reveal_upto(
            old(store).slots@,
            activations@,
            activations@.len() as int,
        ) {
            promote_unrevealed(old(map).revealed_tiles@)
        } else {
            old(map).revealed_tiles@
        },
        forall|i: int|
            0 <= i < NUM_TILES && old(map).revealed_tiles@[i] == Revealed::Seen
                ==> final(map).revealed_tiles@[i] == Revealed::Seen,
{
    let ghost slots0 = store.slots@;
    let mut heals: Vec<(Entity, i32)> = Vec::new();
    let mut equips: Vec<(Entity, Entity)> = Vec::new();
    let mut removals = CommandBuffer::new();
    let mut reveals_map = false;
    let mut k: usize = 0;
    while k < activations.len()
        invariant
            store.slots@ == slots0,
            k <= activations@.len(),
            heals@ == heals_upto(slots0, activations@, k as int),
            equips@ == equips_upto(slots0, activations@, k as int),
            removals.commands@ == removals_upto(slots0, activations@, k as int),
            reveals_map == reveal_upto(slots0, activations@, k as int),
        decreases activations@.len() - k,
    {
        let at = activations[k];
        let item = at.item.id;
        if item < store.slots.len() {
            if let Some(d) = store.slots[item].as_ref() {
                if let Some(h) = &d.provides_healing {
                    heals.push((at.used_by, h.amount));
                }
                if d.provides_dungeon_map.is_some() {
                    reveals_map = true;
                }
                if d.provides_equipment.is_some() && d.carried.is_some() && has_health(
                    store,
                    at.used_by,
                ) {
                    equips.push((at.item, at.used_by));
                }
                if d.provides_depletion.is_some() && d.player.is_none() {
                    removals.push(Command::RemoveEntity(at.item));
                }
            }
        }
        k += 1;
    }
    let mut demotes: Vec<Entity> = Vec::new();
    let mut i: usize = 0;
    while i < store.slots.len()
        invariant
            store.slots@ == slots0,
            i <= slots0.len(),
            equips@ == equips_upto(slots0, activations@, activations@.len() as int),
            demotes@ == demotes_upto(slots0, activations@, i as int),
        decreases slots0.len() - i,
    {
        let rearm = match store.slots[i].as_ref() {
            Some(d) => match (&d.weapon, &d.equipped) {
                (Some(_), Some(q)) => user_rearms_exec(store, &activations, q.by),
                _ => false,
            },
            None => false,
        };
        if rearm {
            demotes.push(Entity { id: i });
        }
        i += 1;
    }
    // Equip phase.
    let ghost equips_list = equips@;
    let mut e: usize = 0;
    while e < equips.len()
        invariant
            e <= equips@.len(),
            equips@ == equips_list,
            store.slots@ == equip_fold(slots0, equips_list.take(e as int)),
        decreases equips@.len() - e,
    {
        let ghost pre = store.slots@;
        let (item, user) = equips[e];
        if item.id < store.slots.len() {
            let slot = &mut store.slots[item.id];
            if let Some(d) = slot.as_mut() {
                d.carried = None;
                d.equipped = Some(Equipped { by: user });
            }
            proof {
                assert(store.slots@ =~= equip_step(pre, equips_list[e as int]));
            }
        } else {
            proof {
                assert(store.slots@ == equip_step(pre, equips_list[e as int]));
            }
        }
        proof {
            assert(equips_list.take(e as int + 1).drop_last() =~= equips_list.take(e as int));
            assert(equips_list.take(e as int + 1).last() == equips_list[e as int]);
        }
        e += 1;
    }
    proof {
        assert(equips_list.take(equips_list.len() as int) =~= equips_list);
    }
    // Weapon demotion phase.
    let ghost s1 = store.slots@;
    let ghost demotes_list = demotes@;
    let mut w: usize = 0;
    while w < demotes.len()
        invariant
            w <= demotes@.len(),
            demotes@ == demotes_list,
            store.slots@ == demote_fold(s1, demotes_list.take(w as int)),
        decreases demotes@.len() - w,
    {
        let ghost pre = store.slots@;
        let target = demotes[w];
        if target.id < store.slots.len() {
            let (was_equipped, by) = match store.slots[target.id].as_ref() {
                Some(d) => match &d.equipped {
                    Some(q) => (true, q.by),
                    None => (false, Entity { id: 0 }),
                },
                None => (false, Entity { id: 0 }),
            };
            if was_equipped {
                let slot = &mut store.slots[target.id];
                if let Some(d) = slot.as_mut() {
                    d.equipped = None;
                    d.carried = Some(Carried { by });
                }
                proof {
                    assert(store.slots@ =~= demote_step(pre, demotes_list[w as int]));
                }
            } else {
                proof {
                    assert(store.slots@ == demote_step(pre, demotes_list[w as int]));
                }
            }
        } else {
            proof {
                assert(store.slots@ == demote_step(pre, demotes_list[w as int]));
            }
        }
        proof {
            assert(demotes_list.take(w as int + 1).drop_last() =~= demotes_list.take(w as int));
            assert(demotes_list.take(w as int + 1).last() == demotes_list[w as int]);
        }
        w += 1;
    }
    proof {
        assert(demotes_list.take(demotes_list.len() as int) =~= demotes_list);
    }
    // Depletion phase.
    removals.flush(store);
    // Healing phase.
    let ghost s3 = store.slots@;
    let ghost heals_list = heals@;
    let mut h: usize = 0;
    while h < heals.len()
        invariant
            h <= heals@.len(),
            heals@ == heals_list,
            store.slots@ == heal_fold(s3, heals_list.take(h as int)),
        decreases heals@.len() - h,
    {
        let ghost pre = store.slots@;
        let (target, amount) = heals[h];
        if target.id < store.slots.len() {
            let (has_health, cur, maxhp) = match store.slots[target.id].as_ref() {
                Some(d) => match &d.health {
                    Some(hp) => (true, hp.current, hp.max),
                    None => (false, 0, 0),
                },
                None => (false, 0, 0),
            };
            if has_health {
                let raw: i64 = if (cur as i64) + (amount as i64) < maxhp as i64 {
                    cur as i64 + amount as i64
                } else {
                    maxhp as i64
                };
                let nh: i32 = if raw < i32::MIN as i64 {
                    i32::MIN
                } else if raw > i32::MAX as i64 {
                    i32::MAX
                } else {
                    raw as i32
                };
                let slot = &mut store.slots[target.id];
                if let Some(d) = slot.as_mut() {
                    d.health = Some(Health { current: nh, max: maxhp });
                }
                proof {
                    assert(store.slots@ =~= heal_step(pre, heals_list[h as int]));
                }
            } else {
                proof {
                    assert(store.slots@ == heal_step(pre, heals_list[h as int]));
                }
            }
        } else {
            proof {
                assert(store.slots@ == heal_step(pre, heals_list[h as int]));
            }
        }
        proof {
            assert(heals_list.take(h as int + 1).drop_last() =~= heals_list.take(h as int));
            assert(heals_list.take(h as int + 1).last() == heals_list[h as int]);
        }
        h += 1;
    }
    proof {
        assert(heals_list.take(heals_list.len() as int) =~= heals_list);
    }
    // Map revelation phase.
    if reveals_map {
        let ghost rev0 = map.revealed_tiles@;
        let mut t: usize = 0;
        while t < NUM_TILES
            invariant
                map.wf(),
                map.tiles@ == old(map).tiles@,
                map.dijkstra_maps@ == old(map).dijkstra_maps@,
                rev0 == old(map).revealed_tiles@,
                rev0.len() == NUM_TILES,
                t <= NUM_TILES,
                forall|j: int| 0 <= j < t ==> map.revealed_tiles@[j] == promote_unrevealed(rev0)[j],
                forall|j: int| t <= j < NUM_TILES ==> map.revealed_tiles@[j] == rev0[j],
            decreases NUM_TILES - t,
        {
            if map.revealed_tiles[t] == Revealed::Unrevealed {
                map.revealed_tiles.set(t, Revealed::FromMap);
            }
            t += 1;
        }
        proof {
            assert(map.revealed_tiles@ =~= promote_unrevealed(rev0));
        }
    }
    proof {
        if wf_world(slots0) && activations_by_player(slots0, activations@) {
            lemma_use_items_preserves_wf(slots0, activations@);
        }
        lemma_use_items_keeps_cells(slots0, activations@);
    }
}

/// Whether `e` is alive and can bleed.
fn has_health(store: &EntityStore, e: Entity) -> (r: bool)
    ensures
        r == (live(store.slots@, e.id as int) && data(store.slots@, e.id as int).health is Some),
{
    if e.id < store.slots.len() {
        match store.slots[e.id].as_ref() {
            Some(d) => d.health.is_some(),
            None => false,
        }
    } else {
        false
    }
}

/// Whether user `u` equips a weapon through one of the intents.
fn user_rearms_exec(store: &EntityStore, activations: &Vec<ActivateItem>, u: Entity) -> (r: bool)
    ensures
        r == user_rearms(store.slots@, activations@, u.id as int),
{
    let mut k: usize = 0;
    while k < activations.len()
        invariant
            k <= activations@.len(),
            forall|j: int|
                0 <= j < k ==> !(equip_intent(store.slots@, #[trigger] activations@[j]) && data(
                    store.slots@,
                    activations@[j].item.id as int,
                ).weapon is Some && activations@[j].used_by.id as int == u.id as int),
        decreases activations@.len() - k,
    {
        let at = activations[k];
        if at.used_by.id == u.id && at.item.id < store.slots.len() {
            let hit = match store.slots[at.item.id].as_ref() {
                Some(d) => d.carried.is_some() && d.provides_equipment.is_some()
                    && d.weapon.is_some(),
                None => false,
            };
            if hit && has_health(store, at.used_by) {
                proof {
                    assert(equip_intent(store.slots@, activations@[k as int]));
                }
                return true;
            }
        }
        k += 1;
    }
    false
}

proof fn lemma_equip_fold_wf(slots: Seq<Option<EntityData>>, es: Seq<(Entity, Entity)>)
    requires
        wf_world(slots),
        forall|j: int|
            0 <= j < es.len() ==> live(slots, (#[trigger] es[j]).0.id as int) && data(
                slots,
                es[j].0.id as int,
            ).pos is None && player_at(slots, es[j].1.id as int),
    ensures
        wf_world(equip_fold(slots, es)),
        forall|x: int| player_at(equip_fold(slots, es), x) <==> player_at(slots, x),
        forall|x: int| live(equip_fold(slots, es), x) <==> live(slots, x),
        forall|x: int|
            live(slots, x) ==> data(equip_fold(slots, es), x).pos == data(slots, x).pos,
    decreases es.len(),
{
    if es.len() > 0 {
        lemma_equip_fold_wf(slots, es.drop_last());
        let mid = equip_fold(slots, es.drop_last());
        let e = es.last();
        let s2 = equip_step(mid, e);
        assert(es[es.len() - 1] == e);
        assert(live(mid, e.0.id as int));
        assert(data(mid, e.0.id as int).pos is None);
        assert(player_at(mid, e.1.id as int));
        assert forall|x: int| player_at(s2, x) <==> player_at(mid, x) by {
            if player_at(s2, x) {
                assert(live(mid, x));
            }
            if player_at(mid, x) {
                assert(live(s2, x));
            }
        }
        let p = choose|p: int|
            #[trigger] player_at(mid, p) && forall|j: int| #[trigger] player_at(mid, j) ==> j == p;
        assert(player_at(s2, p));
        assert forall|j: int| #[trigger] player_at(s2, j) implies j == p by {
            assert(player_at(mid, j));
        }
        assert forall|j: int| #[trigger] live(s2, j) && data(s2, j).equipped is Some implies {
            &&& live(s2, data(s2, j).equipped->0.by.id as int)
            &&& data(s2, data(s2, j).equipped->0.by.id as int).health is Some
            &&& player_at(s2, data(s2, j).equipped->0.by.id as int)
        } by {
            assert(live(mid, j));
            if j == e.0.id as int {
                assert(player_at(mid, e.1.id as int));
                assert(data(mid, e.1.id as int).health is Some);
            } else {
                assert(data(mid, j).equipped is Some);
                assert(player_at(mid, data(mid, j).equipped->0.by.id as int));
            }
        }
        assert forall|j: int| #[trigger] live(s2, j) implies {
            &&& !(data(s2, j).carried is Some && data(s2, j).equipped is Some)
            &&& ((data(s2, j).carried is Some || data(s2, j).equipped is Some) ==> data(s2, j).pos
                is None)
            &&& (data(s2, j).item is Some ==> data(s2, j).player is None)
            &&& (data(s2, j).pos is Some ==> crate::map::in_bounds_xy(
                data(s2, j).pos->0.x as int,
                data(s2, j).pos->0.y as int,
            ))
        } by {
            assert(live(mid, j));
        }
        assert forall|j: int| #[trigger] player_at(s2, j) implies data(s2, j).health is Some && data(
            s2,
            j,
        ).pos is Some by {
            assert(player_at(mid, j));
        }
    }
}

proof fn lemma_demote_fold_wf(slots: Seq<Option<EntityData>>, ws: Seq<Entity>)
    requires
        wf_world(slots),
    ensures
        wf_world(demote_fold(slots, ws)),
        forall|x: int| player_at(demote_fold(slots, ws), x) <==> player_at(slots, x),
    decreases ws.len(),
{
    if ws.len() > 0 {
        lemma_demote_fold_wf(slots, ws.drop_last());
        let mid = demote_fold(slots, ws.drop_last());
        let e = ws.last().id as int;
        let s2 = demote_step(mid, ws.last());
        assert forall|x: int| player_at(s2, x) <==> player_at(mid, x) by {
            if player_at(s2, x) {
                assert(live(mid, x));
            }
            if player_at(mid, x) {
                assert(live(s2, x));
            }
        }
        if live(mid, e) && data(mid, e).equipped is Some {
            let p = choose|p: int|
                #[trigger] player_at(mid, p) && forall|j: int| #[trigger] player_at(mid, j) ==> j == p;
            assert(player_at(s2, p));
            assert forall|j: int| #[trigger] player_at(s2, j) implies j == p by {
                assert(player_at(mid, j));
            }
            assert forall|j: int| #[trigger] live(s2, j) && data(s2, j).equipped is Some implies {
                &&& live(s2, data(s2, j).equipped->0.by.id as int)
                &&& data(s2, data(s2, j).equipped->0.by.id as int).health is Some
                &&& player_at(s2, data(s2, j).equipped->0.by.id as int)
            } by {
                assert(live(mid, j) && data(mid, j).equipped is Some);
                assert(player_at(mid, data(mid, j).equipped->0.by.id as int));
            }
            assert forall|j: int| #[trigger] live(s2, j) implies {
                &&& !(data(s2, j).carried is Some && data(s2, j).equipped is Some)
                &&& ((data(s2, j).carried is Some || data(s2, j).equipped is Some) ==> data(
                    s2,
                    j,
                ).pos is None)
                &&& (data(s2, j).item is Some ==> data(s2, j).player is None)
                &&& (data(s2, j).pos is Some ==> crate::map::in_bounds_xy(
                    data(s2, j).pos->0.x as int,
                    data(s2, j).pos->0.y as int,
                ))
            } by {
                assert(live(mid, j));
            }
            assert forall|j: int| #[trigger] player_at(s2, j) implies data(s2, j).health is Some
                && data(s2, j).pos is Some by {
                assert(player_at(mid, j));
            }
        }
    }
}

proof fn lemma_heal_fold_wf(slots: Seq<Option<EntityData>>, hs: Seq<(Entity, i32)>)
    requires
        wf_world(slots),
    ensures
        wf_world(heal_fold(slots, hs)),
    decreases hs.len(),
{
    if hs.len() > 0 {
        lemma_heal_fold_wf(slots, hs.drop_last());
        let mid = heal_fold(slots, hs.drop_last());
        let e = hs.last().0.id as int;
        let s2 = heal_step(mid, hs.last());
        if live(mid, e) && data(mid, e).health is Some {
            let p = choose|p: int|
                #[trigger] player_at(mid, p) && forall|j: int| #[trigger] player_at(mid, j) ==> j == p;
            assert(player_at(s2, p));
            assert forall|j: int| #[trigger] player_at(s2, j) implies j == p by {
                assert(player_at(mid, j));
            }
            assert forall|j: int| #[trigger] live(s2, j) && data(s2, j).equipped is Some implies {
                &&& live(s2, data(s2, j).equipped->0.by.id as int)
                &&& data(s2, data(s2, j).equipped->0.by.id as int).health is Some
                &&& player_at(s2, data(s2, j).equipped->0.by.id as int)
            } by {
                assert(live(mid, j) && data(mid, j).equipped is Some);
                assert(player_at(mid, data(mid, j).equipped->0.by.id as int));
            }
            assert forall|j: int| #[trigger] live(s2, j) implies {
                &&& !(data(s2, j).carried is Some && data(s2, j).equipped is Some)
                &&& ((data(s2, j).carried is Some || data(s2, j).equipped is Some) ==> data(
                    s2,
                    j,
                ).pos is None)
                &&& (data(s2, j).item is Some ==> data(s2, j).player is None)
                &&& (data(s2, j).pos is Some ==> crate::map::in_bounds_xy(
                    data(s2, j).pos->0.x as int,
                    data(s2, j).pos->0.y as int,
                ))
            } by {
                assert(live(mid, j));
            }
            assert forall|j: int| #[trigger] player_at(s2, j) implies data(s2, j).health is Some
                && data(s2, j).pos is Some by {
                assert(player_at(mid, j));
            }
        }
    }
}

/// The equip orders built from a well-formed store under the player's
/// own activations satisfy the equip lemma's hypotheses.
proof fn lemma_equips_ok(slots: Seq<Option<EntityData>>, ats: Seq<ActivateItem>, n: int)
    requires
        wf_world(slots),
        activations_by_player(slots, ats),
        n <= ats.len(),
    ensures
        forall|j: int|
            0 <= j < equips_upto(slots, ats, n).len() ==> live(
                slots,
                (#[trigger] equips_upto(slots, ats, n)[j]).0.id as int,
            ) && data(slots, equips_upto(slots, ats, n)[j].0.id as int).pos is None && player_at(
                slots,
                equips_upto(slots, ats, n)[j].1.id as int,
            ),
    decreases n,
{
    if n > 0 {
        lemma_equips_ok(slots, ats, n - 1);
        if equip_intent(slots, ats[n - 1]) {
            assert(data(slots, ats[n - 1].item.id as int).carried is Some);
            assert(data(slots, ats[n - 1].item.id as int).pos is None);
            assert(player_at(slots, ats[n - 1].used_by.id as int));
        }
    }
}

/// The removal commands built from a well-formed store all target
/// non-players.
proof fn lemma_removals_ok(slots: Seq<Option<EntityData>>, ats: Seq<ActivateItem>, n: int)
    requires
        n <= ats.len(),
    ensures
        forall|m: int|
            0 <= m < removals_upto(slots, ats, n).len() ==> (#[trigger] removals_upto(slots, ats, n)[m])
                is RemoveEntity && !player_at(
                slots,
                removals_upto(slots, ats, n)[m]->RemoveEntity_0.id as int,
            ),
    decreases n,
{
    if n > 0 {
        lemma_removals_ok(slots, ats, n - 1);
    }
}

proof fn lemma_use_items_preserves_wf(slots: Seq<Option<EntityData>>, ats: Seq<ActivateItem>)
    requires
        wf_world(slots),
        activations_by_player(slots, ats),
    ensures
        wf_world(use_items_slots(slots, ats)),
{
    let n = ats.len() as int;
    lemma_equips_ok(slots, ats, n);
    lemma_equip_fold_wf(slots, equips_upto(slots, ats, n));
    let s1 = equip_fold(slots, equips_upto(slots, ats, n));
    lemma_demote_fold_wf(s1, demotes_upto(slots, ats, slots.len() as int));
    let s2 = demote_fold(s1, demotes_upto(slots, ats, slots.len() as int));
    lemma_removals_ok(slots, ats, n);
    assert forall|m: int|
        0 <= m < removals_upto(slots, ats, n).len() implies (#[trigger] removals_upto(slots, ats, n)[m])
        is RemoveEntity && !player_at(s2, removals_upto(slots, ats, n)[m]->RemoveEntity_0.id as int) by {
        assert(!player_at(slots, removals_upto(slots, ats, n)[m]->RemoveEntity_0.id as int));
    }
    lemma_apply_removals_preserves_wf(s2, removals_upto(slots, ats, n));
    let s3 = apply_commands(s2, removals_upto(slots, ats, n));
    lemma_heal_fold_wf(s3, heals_upto(slots, ats, n));
}

proof fn lemma_equip_fold_keeps_cells(slots: Seq<Option<EntityData>>, es: Seq<(Entity, Entity)>)
    ensures
        equip_fold(slots, es).len() == slots.len(),
        forall|i: int|
            #[trigger] live(equip_fold(slots, es), i) ==> live(slots, i) && data(
                equip_fold(slots, es),
                i,
            ).pos == data(slots, i).pos && data(equip_fold(slots, es), i).fov == data(
                slots,
                i,
            ).fov && data(equip_fold(slots, es), i).health == data(slots, i).health,
    decreases es.len(),
{
    if es.len() > 0 {
        lemma_equip_fold_keeps_cells(slots, es.drop_last());
        let mid = equip_fold(slots, es.drop_last());
        let s2 = equip_step(mid, es.last());
        assert forall|i: int| #[trigger] live(s2, i) implies live(mid, i) && data(s2, i).pos
            == data(mid, i).pos && data(s2, i).fov == data(mid, i).fov && data(s2, i).health
            == data(mid, i).health by {}
    }
}

proof fn lemma_demote_fold_keeps_cells(slots: Seq<Option<EntityData>>, ws: Seq<Entity>)
    ensures
        demote_fold(slots, ws).len() == slots.len(),
        forall|i: int|
            #[trigger] live(demote_fold(slots, ws), i) ==> live(slots, i) && data(
                demote_fold(slots, ws),
                i,
            ).pos == data(slots, i).pos && data(demote_fold(slots, ws), i).fov == data(
                slots,
                i,
            ).fov && data(demote_fold(slots, ws), i).health == data(slots, i).health,
    decreases ws.len(),
{
    if ws.len() > 0 {
        lemma_demote_fold_keeps_cells(slots, ws.drop_last());
        let mid = demote_fold(slots, ws.drop_last());
        let s2 = demote_step(mid, ws.last());
        assert forall|i: int| #[trigger] live(s2, i) implies live(mid, i) && data(s2, i).pos
            == data(mid, i).pos && data(s2, i).fov == data(mid, i).fov && data(s2, i).health
            == data(mid, i).health by {}
    }
}

proof fn lemma_heal_fold_keeps_cells(slots: Seq<Option<EntityData>>, hs: Seq<(Entity, i32)>)
    ensures
        heal_fold(slots, hs).len() == slots.len(),
        forall|i: int|
            #[trigger] live(heal_fold(slots, hs), i) ==> live(slots, i) && data(
                heal_fold(slots, hs),
                i,
            ).pos == data(slots, i).pos && data(heal_fold(slots, hs), i).fov == data(slots, i).fov,
    decreases hs.len(),
{
    if hs.len() > 0 {
        lemma_heal_fold_keeps_cells(slots, hs.drop_last());
        let mid = heal_fold(slots, hs.drop_last());
        let s2 = heal_step(mid, hs.last());
        assert forall|i: int| #[trigger] live(s2, i) implies live(mid, i) && data(s2, i).pos
            == data(mid, i).pos && data(s2, i).fov == data(mid, i).fov by {}
    }
}

/// An entity that survives the whole activation phase keeps its cell
/// and its view.
proof fn lemma_use_items_keeps_cells(slots: Seq<Option<EntityData>>, ats: Seq<ActivateItem>)
    ensures
        forall|i: int|
            #[trigger] live(use_items_slots(slots, ats), i) ==> live(slots, i) && data(
                use_items_slots(slots, ats),
                i,
            ).pos == data(slots, i).pos && data(use_items_slots(slots, ats), i).fov == data(
                slots,
                i,
            ).fov,
{
    let n = ats.len() as int;
    lemma_equip_fold_keeps_cells(slots, equips_upto(slots, ats, n));
    let s1 = equip_fold(slots, equips_upto(slots, ats, n));
    lemma_demote_fold_keeps_cells(s1, demotes_upto(slots, ats, slots.len() as int));
    let s2 = demote_fold(s1, demotes_upto(slots, ats, slots.len() as int));
    lemma_removals_ok(slots, ats, n);
    crate::store::lemma_removals_keep_cells(s2, removals_upto(slots, ats, n));
    let s3 = apply_commands(s2, removals_upto(slots, ats, n));
    lemma_heal_fold_keeps_cells(s3, heals_upto(slots, ats, n));
}

} // verus!
