use vstd::prelude::*;
use crate::components::{Health, WantsToAttack};
use crate::store::{
    apply_command, apply_commands, data, lemma_apply_removals_preserves_wf, live, player_at,
    wf_world, Command, CommandBuffer,
    EntityData, EntityStore,
};

verus! {

/// The attacker's own attack bonus; zero when it is dead or unarmed.
pub open spec fn base_damage(slots: Seq<Option<EntityData>>, a: int) -> int {
    if live(slots, a) && data(slots, a).damage is Some {
        data(slots, a).damage->0.damage as int
    } else {
        0
    }
}

/// The bonus entity `i` contributes to attacker `a`: its damage when it
/// is equipped by `a`.
pub open spec fn equip_bonus(slots: Seq<Option<EntityData>>, a: int, i: int) -> int {
    if live(slots, i) && data(slots, i).equipped is Some && data(slots, i).equipped->0.by.id as int
        == a && data(slots, i).damage is Some {
        data(slots, i).damage->0.damage as int
    } else {
        0
    }
}

/// Sum of the equipment bonuses of the first `n` slots.
pub open spec fn weapon_damage_upto(slots: Seq<Option<EntityData>>, a: int, n: int) -> int
    decreases n,
{
    if n <= 0 {
        0
    } else {
        weapon_damage_upto(slots, a, n - 1) + equip_bonus(slots, a, n - 1)
    }
}

/// Total damage attacker `a` deals: its own bonus plus everything
/// equipped by it.
pub open spec fn attack_damage(slots: Seq<Option<EntityData>>, a: int) -> int {
    base_damage(slots, a) + weapon_damage_upto(slots, a, slots.len() as int)
}

/// Clamp an unbounded result into the machine integer holding health.
pub open spec fn clamp_to_i32(v: int) -> int {
    if v < i32::MIN {
        i32::MIN as int
    } else if v > i32::MAX {
        i32::MAX as int
    } else {
        v
    }
}

/// The victim's health after one attack intent; a victim that is gone
/// or has no health is left alone.
pub open spec fn combat_hp_step(
    slots: Seq<Option<EntityData>>,
    at: WantsToAttack,
) -> Seq<Option<EntityData>> {
    let v = at.victim.id as int;
    if live(slots, v) && data(slots, v).health is Some {
        let d = data(slots, v);
        let nh = clamp_to_i32(d.health->0.current - attack_damage(slots, at.attacker.id as int));
        slots.update(
            v,
            Some(EntityData { health: Some(Health { current: nh as i32, max: d.health->0.max }), ..d }),
        )
    } else {
        slots
    }
}

/// Whether the intent leaves its victim below one hit point while the
/// victim is not the player, so that the victim is removed at the flush.
pub open spec fn combat_removes(slots: Seq<Option<EntityData>>, at: WantsToAttack) -> bool {
    let v = at.victim.id as int;
    live(slots, v) && data(slots, v).health is Some && clamp_to_i32(
        data(slots, v).health->0.current - attack_damage(slots, at.attacker.id as int),
    ) < 1 && data(slots, v).player is None
}

/// Folding a list of attack intents: the health updates applied in
/// order, and the removal commands they enqueue for the flush.
pub open spec fn combat_fold(slots: Seq<Option<EntityData>>, ats: Seq<WantsToAttack>) -> (
    Seq<Option<EntityData>>,
    Seq<Command>,
)
    decreases ats.len(),
{
    if ats.len() == 0 {
        (slots, Seq::<Command>::empty())
    } else {
        let prev = combat_fold(slots, ats.drop_last());
        let at = ats.last();
        (
            combat_hp_step(prev.0, at),
            if combat_removes(prev.0, at) {
                prev.1.push(Command::RemoveEntity(at.victim))
            } else {
                prev.1
            },
        )
    }
}

/// The store after a whole combat phase: the health updates, then the
/// flush of the removal commands.
pub open spec fn combat_result(
    slots: Seq<Option<EntityData>>,
    ats: Seq<WantsToAttack>,
) -> Seq<Option<EntityData>> {
    apply_commands(combat_fold(slots, ats).0, combat_fold(slots, ats).1)
}

/// Consume every attack intent, in order. Each subtracts the attacker's
/// total damage from its victim's health; victims other than the player
/// that drop below one hit point are removed when the buffered commands
/// flush. The store invariant survives.
pub fn combat(store: &mut EntityStore, attacks: Vec<WantsToAttack>)
    requires
        old(store).slots@.len() <= 0x4000_0000,
    ensures
        final(store).slots@ == combat_result(old(store).slots@, attacks@),
        wf_world(old(store).slots@) ==> wf_world(final(store).slots@),
        // Combat never moves anyone: a surviving entity keeps its cell
        // and its view.
        wf_world(old(store).slots@) ==> forall|i: int|
            #[trigger] live(final(store).slots@, i) ==> live(old(store).slots@, i) && data(
                final(store).slots@,
                i,
            ).pos == data(old(store).slots@, i).pos && data(final(store).slots@, i).fov == data(
                old(store).slots@,
                i,
            ).fov,
{
    let ghost slots0 = store.slots@;
    let mut buf = CommandBuffer::new();
    let mut k: usize = 0;
    while k < attacks.len()
        invariant
            store.slots@.len() == slots0.len(),
            slots0.len() <= 0x4000_0000,
            k <= attacks@.len(),
            store.slots@ == combat_fold(slots0, attacks@.take(k as int)).0,
            buf.commands@ == combat_fold(slots0, attacks@.take(k as int)).1,
        decreases attacks@.len() - k,
    {
        let ghost pre = store.slots@;
        let at = attacks[k];
        let total = damage_of(store, at.attacker);
        let v = at.victim.id;
        if v < store.slots.len() {
            let (has_health, cur, maxhp, is_player) = match store.slots[v].as_ref() {
                Some(d) => match &d.health {
                    Some(h) => (true, h.current, h.max, d.player.is_some()),
                    None => (false, 0, 0, false),
                },
                None => (false, 0, 0, false),
            };
            if has_health {
                let nh64: i64 = cur as i64 - total;
                let nh: i32 = if nh64 < i32::MIN as i64 {
                    i32::MIN
                } else if nh64 > i32::MAX as i64 {
                    i32::MAX
                } else {
                    nh64 as i32
                };
                let slot = &mut store.slots[v];
                if let Some(d) = slot.as_mut() {
                    d.health = Some(Health { current: nh, max: maxhp });
                }
                if nh < 1 && !is_player {
                    buf.push(Command::RemoveEntity(at.victim));
                }
                proof {
                    assert(store.slots@ =~= combat_hp_step(pre, attacks@[k as int]));
                }
            } else {
                proof {
                    assert(store.slots@ == combat_hp_step(pre, attacks@[k as int]));
                }
            }
        } else {
            proof {
                assert(store.slots@ == combat_hp_step(pre, attacks@[k as int]));
            }
        }
        proof {
            assert(attacks@.take(k as int + 1).drop_last() =~= attacks@.take(k as int));
            assert(attacks@.take(k as int + 1).last() == attacks@[k as int]);
        }
        k += 1;
    }
    proof {
        assert(attacks@.take(attacks@.len() as int) =~= attacks@);
    }
    buf.flush(store);
    proof {
        if wf_world(slots0) {
            lemma_combat_preserves_wf(slots0, attacks@);
            lemma_combat_keeps_cells(slots0, attacks@);
        }
    }
}

proof fn lemma_hp_fold_keeps_cells(slots: Seq<Option<EntityData>>, ats: Seq<WantsToAttack>)
    ensures
        combat_fold(slots, ats).0.len() == slots.len(),
        forall|i: int|
            #[trigger] live(combat_fold(slots, ats).0, i) ==> live(slots, i) && data(
                combat_fold(slots, ats).0,
                i,
            ).pos == data(slots, i).pos && data(combat_fold(slots, ats).0, i).fov == data(
                slots,
                i,
            ).fov,
    decreases ats.len(),
{
    if ats.len() > 0 {
        lemma_hp_fold_keeps_cells(slots, ats.drop_last());
        let mid = combat_fold(slots, ats.drop_last()).0;
        let s2 = combat_hp_step(mid, ats.last());
        assert forall|i: int| #[trigger] live(s2, i) implies live(mid, i) && data(s2, i).pos
            == data(mid, i).pos && data(s2, i).fov == data(mid, i).fov by {}
    }
}

/// An entity that survives a combat phase keeps its cell and its view.
proof fn lemma_combat_keeps_cells(slots: Seq<Option<EntityData>>, ats: Seq<WantsToAttack>)
    requires
        wf_world(slots),
    ensures
        forall|i: int|
            #[trigger] live(combat_result(slots, ats), i) ==> live(slots, i) && data(
                combat_result(slots, ats),
                i,
            ).pos == data(slots, i).pos && data(combat_result(slots, ats), i).fov == data(
                slots,
                i,
            ).fov,
{
    lemma_hp_fold_keeps_cells(slots, ats);
    lemma_combat_fold_removals(slots, ats);
    let f = combat_fold(slots, ats);
    assert forall|m: int|
        0 <= m < f.1.len() implies (#[trigger] f.1[m]) is RemoveEntity && !player_at(
        f.0,
        f.1[m]->RemoveEntity_0.id as int,
    ) by {
    }
    lemma_apply_removals_preserves_wf(f.0, f.1);
}

/// The attacker's total damage against the current store, as a machine
/// integer.
fn damage_of(store: &EntityStore, attacker: crate::components::Entity) -> (r: i64)
    requires
        store.slots@.len() <= 0x4000_0000,
    ensures
        r as int == attack_damage(store.slots@, attacker.id as int),
        -0x4000_0000_0000_0000 <= r <= 0x4000_0000_0000_0000,
{
    let a = attacker.id;
    let base: i32 = if a < store.slots.len() {
        match store.slots[a].as_ref() {
            Some(d) => match &d.damage {
                Some(dm) => dm.damage,
                None => 0,
            },
            None => 0,
        }
    } else {
        0
    };
    let mut sum: i64 = 0;
    let mut i: usize = 0;
    while i < store.slots.len()
        invariant
            store.slots@.len() <= 0x4000_0000,
            i <= store.slots@.len(),
            sum as int == weapon_damage_upto(store.slots@, a as int, i as int),
            -0x4000_0000i64 * 0x8000_0000i64 <= sum <= 0x4000_0000i64 * 0x8000_0000i64,
            sum as int >= -(i as int) * 0x8000_0000 && sum as int <= (i as int) * 0x8000_0000,
        decreases store.slots@.len() - i,
    {
        let bonus: i32 = match store.slots[i].as_ref() {
            Some(d) => match (&d.equipped, &d.damage) {
                (Some(q), Some(dm)) => if q.by.id == a {
                    dm.damage
                } else {
                    0
                },
                _ => 0,
            },
            None => 0,
        };
        proof {
            assert(bonus as int == equip_bonus(store.slots@, a as int, i as int));
        }
        sum = sum + bonus as i64;
        i += 1;
    }
    base as i64 + sum
}

proof fn lemma_hp_step_preserves_wf(slots: Seq<Option<EntityData>>, at: WantsToAttack)
    requires
        wf_world(slots),
    ensures
        wf_world(combat_hp_step(slots, at)),
        forall|x: int| player_at(combat_hp_step(slots, at), x) <==> player_at(slots, x),
{
    let s2 = combat_hp_step(slots, at);
    assert forall|x: int| player_at(s2, x) <==> player_at(slots, x) by {
        if player_at(s2, x) {
            assert(live(slots, x));
        }
        if player_at(slots, x) {
            assert(live(s2, x));
        }
    }
    let v = at.victim.id as int;
    if live(slots, v) && data(slots, v).health is Some {
        let p = choose|p: int|
            #[trigger] player_at(slots, p) && forall|j: int| #[trigger] player_at(slots, j) ==> j == p;
        assert(player_at(s2, p));
        assert forall|j: int| #[trigger] player_at(s2, j) implies j == p by {
            assert(player_at(slots, j));
        }
        assert forall|j: int| #[trigger] live(s2, j) && data(s2, j).equipped is Some implies {
            &&& live(s2, data(s2, j).equipped->0.by.id as int)
            &&& data(s2, data(s2, j).equipped->0.by.id as int).health is Some
            &&& player_at(s2, data(s2, j).equipped->0.by.id as int)
        } by {
            assert(live(slots, j) && data(slots, j).equipped is Some);
            assert(player_at(slots, data(slots, j).equipped->0.by.id as int));
        }
        assert forall|j: int| #[trigger] live(s2, j) implies {
            &&& !(data(s2, j).carried is Some && data(s2, j).equipped is Some)
            &&& ((data(s2, j).carried is Some || data(s2, j).equipped is Some) ==> data(s2, j).pos
                is None)
            &&& (data(s2, j).item is Some ==> data(s2, j).player is None)
            &&& (data(s2, j).pos is Some ==> crate::map::in_bounds_xy(
                data(s2, j).pos->0.x as int,
                data(s2, j).pos->0.y as int,
            ))
        } by {
            assert(live(slots, j));
        }
        assert forall|j: int| #[trigger] player_at(s2, j) implies data(s2, j).health is Some && data(
            s2,
            j,
        ).pos is Some by {
            assert(player_at(slots, j));
        }
    }
}

/// Every removal the fold enqueues targets a non-player.
proof fn lemma_combat_fold_removals(slots: Seq<Option<EntityData>>, ats: Seq<WantsToAttack>)
    requires
        wf_world(slots),
    ensures
        wf_world(combat_fold(slots, ats).0),
        forall|x: int| player_at(combat_fold(slots, ats).0, x) <==> player_at(slots, x),
        forall|m: int|
            0 <= m < combat_fold(slots, ats).1.len() ==> (#[trigger] combat_fold(slots, ats).1[m])
                is RemoveEntity && !player_at(slots, combat_fold(slots, ats).1[m]->RemoveEntity_0.id as int),
    decreases ats.len(),
{
    if ats.len() > 0 {
        lemma_combat_fold_removals(slots, ats.drop_last());
        let prev = combat_fold(slots, ats.drop_last());
        lemma_hp_step_preserves_wf(prev.0, ats.last());
    }
}

/// A whole combat phase keeps the store invariant.
proof fn lemma_combat_preserves_wf(slots: Seq<Option<EntityData>>, ats: Seq<WantsToAttack>)
    requires
        wf_world(slots),
    ensures
        wf_world(combat_result(slots, ats)),
{
    lemma_combat_fold_removals(slots, ats);
    let f = combat_fold(slots, ats);
    assert forall|m: int|
        0 <= m < f.1.len() implies (#[trigger] f.1[m]) is RemoveEntity && !player_at(
        f.0,
        f.1[m]->RemoveEntity_0.id as int,
    ) by {
    }
    lemma_apply_removals_preserves_wf(f.0, f.1);
}

} // verus!
