use vstd::prelude::*;
use crate::store::{clone_string, data, live, wf_world, EntityStore};
use crate::systems::end_turn::{find_player, player_slot};

verus! {

/// What the status display shows: the player's health, the dungeon
/// depth, and the carried and equipped item names (carried ones grouped
/// and counted, in name order).
pub struct HudData {
    pub health_current: i32,
    pub health_max: i32,
    pub map_level: u32,
    pub carried: Vec<(String, u32)>,
    pub equipped: Vec<String>,
}

/// Every listed label names an item the player wears.
pub open spec fn equipped_lines_ok(
    slots: Seq<Option<crate::store::EntityData>>,
    lines: Seq<String>,
) -> bool {
    forall|m: int|
        0 <= m < lines.len() ==> exists|i: int|
            {
                &&& #[trigger] live(slots, i)
                &&& data(slots, i).item is Some
                &&& data(slots, i).name is Some
                &&& data(slots, i).equipped is Some
                &&& data(slots, i).equipped->0.by.id as int == player_slot(slots)
                &&& (#[trigger] lines[m])@ == data(slots, i).name->0.name@
            }
}

/// Gather the status display's content. The health and depth come from
/// the player entity.
pub fn hud(store: &EntityStore) -> (r: HudData)
    requires
        wf_world(store.slots@),
    ensures
        ({
            let pl = player_slot(store.slots@);
            &&& r.health_current == data(store.slots@, pl).health->0.current
            &&& r.health_max == data(store.slots@, pl).health->0.max
            &&& r.map_level == data(store.slots@, pl).player->0.map_level
        }),
        // Every equipped line names an item the player wears.
        equipped_lines_ok(store.slots@, r.equipped@),
{
    let p = find_player(store);
    let d = store.slots[p].as_ref().unwrap();
    let (hc, hm) = match &d.health {
        Some(h) => (h.current, h.max),
        None => {
            proof {
                assert(false);
            }
            (0, 0)
        },
    };
    let level = match &d.player {
        Some(pl) => pl.map_level,
        None => {
            proof {
                assert(false);
            }
            0
        },
    };
    let mut carried: Vec<(String, u32)> = Vec::new();
    let mut equipped: Vec<String> = Vec::new();
    let mut i: usize = 0;
    while i < store.slots.len()
        invariant
            wf_world(store.slots@),
            p as int == player_slot(store.slots@),
            i <= store.slots@.len(),
            equipped_lines_ok(store.slots@, equipped@),
        decreases store.slots@.len() - i,
    {
        let ghost eq_iter = equipped@;
        match store.slots[i].as_ref() {
            Some(e) => {
                let carried_by_player = e.item.is_some() && e.name.is_some() && match &e.carried {
                    Some(c) => c.by.id == p,
                    None => false,
                };
                let equipped_by_player = e.item.is_some() && e.name.is_some() && match &e.equipped
                    {
                    Some(q) => q.by.id == p,
                    None => false,
                };
                if carried_by_player {
                    let nm = match &e.name {
                        Some(n) => clone_string(&n.name),
                        None => String::new(),
                    };
                    let mut found = false;
                    let mut m: usize = 0;
                    while m < carried.len()
                        invariant
                            m <= carried@.len(),
                            equipped@ == eq_iter,
                        decreases carried@.len() - m,
                    {
                        if carried[m].0 == nm {
                            let cnt = carried[m].1;
                            let key = clone_string(&carried[m].0);
                            if cnt < u32::MAX {
                                carried.set(m, (key, cnt + 1));
                            } else {
                                carried.set(m, (key, cnt));
                            }
                            found = true;
                        }
                        m += 1;
                    }
                    if !found {
                        carried.push((nm, 1));
                    }
                } else if equipped_by_player {
                    let nm = match &e.name {
                        Some(n) => clone_string(&n.name),
                        None => String::new(),
                    };
                    let ghost nmv = nm@;
                    let ghost eq0 = equipped@;
                    equipped.push(nm);
                    proof {
                        assert(live(store.slots@, i as int));
                        assert(equipped@[equipped@.len() - 1]@ == nmv);
                        assert(equipped_lines_ok(store.slots@, equipped@)) by {
                            assert forall|m: int|
                                0 <= m < equipped@.len() implies exists|ii: int|
                                {
                                    &&& #[trigger] live(store.slots@, ii)
                                    &&& data(store.slots@, ii).item is Some
                                    &&& data(store.slots@, ii).name is Some
                                    &&& data(store.slots@, ii).equipped is Some
                                    &&& data(store.slots@, ii).equipped->0.by.id as int
                                        == player_slot(store.slots@)
                                    &&& (#[trigger] equipped@[m])@ == data(
                                        store.slots@,
                                        ii,
                                    ).name->0.name@
                                } by {
                                if m < eq0.len() {
                                    assert(equipped@[m] == eq0[m]);
                                    assert(equipped_lines_ok(store.slots@, eq0));
                                    let ii = choose|ii: int|
                                        {
                                            &&& #[trigger] live(store.slots@, ii)
                                            &&& data(store.slots@, ii).item is Some
                                            &&& data(store.slots@, ii).name is Some
                                            &&& data(store.slots@, ii).equipped is Some
                                            &&& data(store.slots@, ii).equipped->0.by.id as int
                                                == player_slot(store.slots@)
                                            &&& (#[trigger] eq0[m])@ == data(
                                                store.slots@,
                                                ii,
                                            ).name->0.name@
                                        };
                                    assert(live(store.slots@, ii));
                                } else {
                                    assert(live(store.slots@, i as int));
                                }
                            }
                        }
                    }
                }
            },
            None => {},
        }
        i += 1;
    }
    sort_by_name(&mut carried);
    HudData { health_current: hc, health_max: hm, map_level: level, carried, equipped }
}

/// Order the grouped item names alphabetically (by byte order), as the
/// display lists them.
fn sort_by_name(v: &mut Vec<(String, u32)>)
{
    let ghost n0 = v@.len();
    let mut i: usize = 1;
    while i < v.len()
        invariant
            v@.len() == n0,
            1 <= i,
        decreases v@.len() - i,
    {
        let mut j: usize = i;
        while j > 0
            invariant
                v@.len() == n0,
                j <= i < v@.len(),
            decreases j,
        {
            if crate::systems::player_input::str_lt(&v[j].0, &v[j - 1].0) {
                let a = (clone_string(&v[j - 1].0), v[j - 1].1);
                let b = (clone_string(&v[j].0), v[j].1);
                v.set(j - 1, b);
                v.set(j, a);
            }
            j -= 1;
        }
        i += 1;
    }
}

} // verus!
