use vstd::prelude::*;
use crate::components::{
    Damage, Enemy, FieldOfView, Health, Item, Name, ProvidesDepletion,
    ProvidesDestructionOnLevelProgress, ProvidesDungeonMap, ProvidesEquipment, ProvidesHealing,
    Render, RoamingAndChasingPlayer, Weapon,
};
use crate::point::Point;
use crate::rng::rng_range;
use crate::store::{
    data, lemma_spawn_preserves_wf, live, player_at, wf_world, EntityData, EntityStore,
};

verus! {

/// What kind of entity a template produces.
#[derive(Clone, Copy, PartialEq, Eq, Structural, Debug)]
pub enum EntityType {
    Enemy,
    Item,
}

/// How often one template may spawn on a level.
#[derive(Clone, Copy, PartialEq, Eq, Structural, Debug)]
pub enum Frequency {
    Repeated(u32),
    Once,
}

/// One declarative entity template: what it spawns, on which dungeon
/// levels, how often, and with which capabilities.
pub struct Template {
    pub entity_type: EntityType,
    pub levels: Vec<u32>,
    pub frequency: Frequency,
    pub name: String,
    pub glyph: char,
    pub provides: Option<Vec<(String, i32)>>,
    pub hp: Option<i32>,
    pub base_damage: Option<i32>,
}

/// The loaded template set.
pub struct Templates {
    pub entities: Vec<Template>,
}

/// Whether a template may spawn on dungeon level `level`.
pub open spec fn level_matches(tpl: Template, level: int) -> bool {
    exists|k: int| 0 <= k < tpl.levels@.len() && #[trigger] tpl.levels@[k] == level
}

/// Whether `name` occurs in the list of names already spawned.
pub open spec fn in_names(names: Seq<String>, name: Seq<char>) -> bool {
    exists|m: int| 0 <= m < names.len() && (#[trigger] names[m])@ == name
}

/// Whether every template of the set that may spawn on `level` under
/// `name` is a one-off.
pub open spec fn once_only(entities: Seq<Template>, level: int, name: Seq<char>) -> bool {
    forall|u: int|
        0 <= u < entities.len() && level_matches(#[trigger] entities[u], level) && entities[u].name@
            == name ==> entities[u].frequency is Once
}

impl Templates {
    /// Spawn one entity per spawn point, sampling uniformly from the
    /// multiset that repeats each matching template by its frequency.
    /// Every spawned entity is instantiated from a template matching
    /// the level at its own point; whenever some repeatable template
    /// matches the level, every point receives exactly one entity; and
    /// a name that only one-off templates may spawn appears at most
    /// once per call. Spawned entities are never players, so the store
    /// invariant survives.
    #[verifier::rlimit(60)]
    #[verifier::spinoff_prover]
    pub fn spawn_entities(
        &self,
        store: &mut EntityStore,
        rng: &mut bracket_lib::random::RandomNumberGenerator,
        level: usize,
        spawn_points: &Vec<Point>,
    )
        requires
            forall|k: int|
                0 <= k < spawn_points@.len() ==> crate::map::in_bounds_xy(
                    (#[trigger] spawn_points@[k]).x as int,
                    spawn_points@[k].y as int,
                ),
        ensures
            old(store).slots@.len() <= final(store).slots@.len(),
            final(store).slots@.len() <= old(store).slots@.len() + spawn_points@.len(),
            forall|i: int|
                0 <= i < old(store).slots@.len() ==> final(store).slots@[i] == old(store).slots@[i],
            wf_world(old(store).slots@) ==> wf_world(final(store).slots@),
            forall|i: int|
                old(store).slots@.len() <= i < final(store).slots@.len() ==> !player_at(
                    final(store).slots@,
                    i,
                ),
            // Every spawned entity realizes a level-matching template at
            // one of the points.
            forall|i: int|
                old(store).slots@.len() <= i < final(store).slots@.len() ==> live(
                    final(store).slots@,
                    i,
                ) && exists|t: int, k: int|
                    {
                        &&& 0 <= t < self.entities@.len()
                        &&& #[trigger] level_matches(self.entities@[t], level as int)
                        &&& 0 <= k < spawn_points@.len()
                        &&& instantiated(
                            self.entities@[t],
                            #[trigger] spawn_points@[k],
                            data(final(store).slots@, i),
                        )
                    },
            // A repeatable match guarantees one entity per point.
            (exists|t: int|
                0 <= t < self.entities@.len() && #[trigger] level_matches(
                    self.entities@[t],
                    level as int,
                ) && self.entities@[t].frequency is Repeated && self.entities@[t].frequency->0
                    >= 1) ==> final(store).slots@.len() == old(store).slots@.len()
                + spawn_points@.len(),
            // A name only one-off templates may spawn appears at most once.
            forall|i: int, j: int|
                old(store).slots@.len() <= i < final(store).slots@.len() && old(
                    store,
                ).slots@.len() <= j < final(store).slots@.len() && i != j && once_only(
                    self.entities@,
                    level as int,
                    data(final(store).slots@, i).name->0.name@,
                ) ==> data(final(store).slots@, i).name->0.name@ != data(
                    final(store).slots@,
                    j,
                ).name->0.name@,
    {
        let ghost slots0 = store.slots@;
        // The candidate multiset, as indices into the template list.
        let mut candidates: Vec<usize> = Vec::new();
        let mut t: usize = 0;
        while t < self.entities.len()
            invariant
                t <= self.entities@.len(),
                candidates@.len() <= 100000,
                forall|k: int|
                    0 <= k < candidates@.len() ==> #[trigger] candidates@[k]
                        < self.entities@.len() && level_matches(
                        self.entities@[candidates@[k] as int],
                        level as int,
                    ),
            decreases self.entities@.len() - t,
        {
            let matches = self.template_matches(t, level);
            if matches {
                match self.entities[t].frequency {
                    Frequency::Repeated(n) => {
                        let mut c: u32 = 0;
                        while c < n
                            invariant
                                t < self.entities@.len(),
                                level_matches(self.entities@[t as int], level as int),
                                candidates@.len() <= 100000,
                                forall|k: int|
                                    0 <= k < candidates@.len() ==> #[trigger] candidates@[k]
                                        < self.entities@.len() && level_matches(
                                        self.entities@[candidates@[k] as int],
                                        level as int,
                                    ),
                            decreases n - c,
                        {
                            if candidates.len() < 100000 {
                                candidates.push(t);
                            }
                            c += 1;
                        }
                    },
                    Frequency::Once => {
                        if candidates.len() < 100000 {
                            candidates.push(t);
                        }
                    },
                }
            }
            t += 1;
        }
        let mut spawned_names: Vec<String> = Vec::new();
        let mut p: usize = 0;
        while p < spawn_points.len()
            invariant
                forall|k: int|
                    0 <= k < spawn_points@.len() ==> crate::map::in_bounds_xy(
                        (#[trigger] spawn_points@[k]).x as int,
                        spawn_points@[k].y as int,
                    ),
                p <= spawn_points@.len(),
                candidates@.len() <= 100000,
                forall|k: int|
                    0 <= k < candidates@.len() ==> #[trigger] candidates@[k]
                        < self.entities@.len() && level_matches(
                        self.entities@[candidates@[k] as int],
                        level as int,
                    ),
                slots0.len() <= store.slots@.len(),
                store.slots@.len() <= slots0.len() + p,
                forall|i: int| 0 <= i < slots0.len() ==> store.slots@[i] == slots0[i],
                wf_world(slots0) ==> wf_world(store.slots@),
                forall|i: int|
                    slots0.len() <= i < store.slots@.len() ==> !player_at(store.slots@, i),
                forall|i: int|
                    slots0.len() <= i < store.slots@.len() ==> live(store.slots@, i) && exists|
                        tt: int,
                        k: int,
                    |
                        {
                            &&& 0 <= tt < self.entities@.len()
                            &&& #[trigger] level_matches(self.entities@[tt], level as int)
                            &&& 0 <= k < spawn_points@.len()
                            &&& instantiated(
                                self.entities@[tt],
                                #[trigger] spawn_points@[k],
                                data(store.slots@, i),
                            )
                        },
                (exists|tt: int|
                    0 <= tt < self.entities@.len() && #[trigger] level_matches(
                        self.entities@[tt],
                        level as int,
                    ) && self.entities@[tt].frequency is Repeated && self.entities@[tt].frequency->0
                        >= 1) ==> store.slots@.len() == slots0.len() + p,
                // Every spawned once-only name is recorded.
                forall|i: int|
                    slots0.len() <= i < store.slots@.len() && once_only(
                        self.entities@,
                        level as int,
                        data(store.slots@, i).name->0.name@,
                    ) ==> in_names(spawned_names@, data(store.slots@, i).name->0.name@),
                forall|i: int, j: int|
                    slots0.len() <= i < store.slots@.len() && slots0.len() <= j
                        < store.slots@.len() && i != j && once_only(
                        self.entities@,
                        level as int,
                        data(store.slots@, i).name->0.name@,
                    ) ==> data(store.slots@, i).name->0.name@ != data(store.slots@, j).name->0.name@,
            decreases spawn_points@.len() - p,
        {
            let point = spawn_points[p];
            let ghost names0 = spawned_names@;
            let chosen = self.choose_template(&candidates, &mut spawned_names, rng, level);
            let ghost pre = store.slots@;
            match chosen {
                Some(c) => {
                    self.spawn_entity(point, c, store);
                    proof {
                        let newi = pre.len() as int;
                        assert(data(store.slots@, newi).name->0.name@ == self.entities@[c as int].name@);
                        assert forall|i: int|
                            slots0.len() <= i < store.slots@.len() implies !player_at(
                            store.slots@,
                            i,
                        ) by {
                            if i < pre.len() {
                                assert(store.slots@[i] == pre[i]);
                                assert(!player_at(pre, i));
                            }
                        }
                        assert forall|i: int|
                            slots0.len() <= i < store.slots@.len() implies live(store.slots@, i)
                            && exists|tt: int, k: int|
                            {
                                &&& 0 <= tt < self.entities@.len()
                                &&& #[trigger] level_matches(self.entities@[tt], level as int)
                                &&& 0 <= k < spawn_points@.len()
                                &&& instantiated(
                                    self.entities@[tt],
                                    #[trigger] spawn_points@[k],
                                    data(store.slots@, i),
                                )
                            } by {
                            if i < pre.len() {
                                assert(store.slots@[i] == pre[i]);
                                assert(live(pre, i));
                            } else {
                                assert(level_matches(self.entities@[c as int], level as int));
                                assert(spawn_points@[p as int] == point);
                                assert(instantiated(
                                    self.entities@[c as int],
                                    spawn_points@[p as int],
                                    data(store.slots@, i),
                                ));
                            }
                        }
                        assert forall|i: int|
                            slots0.len() <= i < store.slots@.len() && once_only(
                                self.entities@,
                                level as int,
                                data(store.slots@, i).name->0.name@,
                            ) implies in_names(spawned_names@, data(store.slots@, i).name->0.name@) by {
                            if i < pre.len() {
                                assert(store.slots@[i] == pre[i]);
                                lemma_in_names_extend(names0, spawned_names@, data(pre, i).name->0.name@);
                            } else {
                                if once_only(self.entities@, level as int, self.entities@[c as int].name@) {
                                    assert(self.entities@[c as int].frequency is Once);
                                }
                            }
                        }
                        assert forall|i: int, j: int|
                            slots0.len() <= i < store.slots@.len() && slots0.len() <= j
                                < store.slots@.len() && i != j && once_only(
                                self.entities@,
                                level as int,
                                data(store.slots@, i).name->0.name@,
                            ) implies data(store.slots@, i).name->0.name@ != data(
                            store.slots@,
                            j,
                        ).name->0.name@ by {
                            if i < pre.len() && j < pre.len() {
                                assert(store.slots@[i] == pre[i] && store.slots@[j] == pre[j]);
                            } else if i < pre.len() && j == pre.len() as int {
                                if data(store.slots@, i).name->0.name@ == data(store.slots@, j).name->0.name@ {
                                    assert(in_names(names0, data(pre, i).name->0.name@));
                                    assert(self.entities@[c as int].frequency is Once);
                                    assert(false);
                                }
                            } else if j < pre.len() && i == pre.len() as int {
                                if data(store.slots@, i).name->0.name@ == data(store.slots@, j).name->0.name@ {
                                    assert(once_only(
                                        self.entities@,
                                        level as int,
                                        data(pre, j).name->0.name@,
                                    ));
                                    assert(in_names(names0, data(pre, j).name->0.name@));
                                    assert(self.entities@[c as int].frequency is Once);
                                    assert(false);
                                }
                            }
                        }
                    }
                },
                None => {},
            }
            p += 1;
        }
    }

    /// Whether template `t` may spawn on `level`.
    fn template_matches(&self, t: usize, level: usize) -> (r: bool)
        requires
            t < self.entities@.len(),
        ensures
            r == level_matches(self.entities@[t as int], level as int),
    {
        let lv = &self.entities[t].levels;
        let mut m: usize = 0;
        while m < lv.len()
            invariant
                t < self.entities@.len(),
                lv@ == self.entities@[t as int].levels@,
                m <= lv@.len(),
                forall|q: int| 0 <= q < m ==> #[trigger] lv@[q] != level as int,
            decreases lv@.len() - m,
        {
            if lv[m] as usize == level {
                proof {
                    assert(self.entities@[t as int].levels@[m as int] == level as int);
                }
                return true;
            }
            m += 1;
        }
        false
    }

    /// Draw a template for one point: sample the multiset, skipping a
    /// one-off whose name has already spawned; when the draws find
    /// nothing, fall back to the first repeatable match. A one-off
    /// choice records its name.
    fn choose_template(
        &self,
        candidates: &Vec<usize>,
        spawned_names: &mut Vec<String>,
        rng: &mut bracket_lib::random::RandomNumberGenerator,
        level: usize,
    ) -> (r: Option<usize>)
        requires
            candidates@.len() <= 100000,
            forall|k: int|
                0 <= k < candidates@.len() ==> #[trigger] candidates@[k] < self.entities@.len()
                    && level_matches(self.entities@[candidates@[k] as int], level as int),
        ensures
            match r {
                Some(c) => {
                    &&& c < self.entities@.len()
                    &&& level_matches(self.entities@[c as int], level as int)
                    &&& (self.entities@[c as int].frequency is Once ==> !in_names(
                        old(spawned_names)@,
                        self.entities@[c as int].name@,
                    ) && final(spawned_names)@ == old(spawned_names)@.push(
                        final(spawned_names)@.last(),
                    ) && final(spawned_names)@.last()@ == self.entities@[c as int].name@)
                    &&& (self.entities@[c as int].frequency is Repeated ==> final(spawned_names)@
                        == old(spawned_names)@)
                },
                None => final(spawned_names)@ == old(spawned_names)@,
            },
            (exists|tt: int|
                0 <= tt < self.entities@.len() && #[trigger] level_matches(
                    self.entities@[tt],
                    level as int,
                ) && self.entities@[tt].frequency is Repeated && self.entities@[tt].frequency->0
                    >= 1) ==> r is Some,
    {
        if candidates.len() > 0 {
            let mut attempts: usize = 0;
            while attempts < 100
                invariant
                    candidates@.len() > 0,
                    candidates@.len() <= 100000,
                    forall|k: int|
                        0 <= k < candidates@.len() ==> #[trigger] candidates@[k]
                            < self.entities@.len() && level_matches(
                            self.entities@[candidates@[k] as int],
                            level as int,
                        ),
                    attempts <= 100,
                    spawned_names@ == old(spawned_names)@,
                decreases 100 - attempts,
            {
                let pick = candidates[rng_range(rng, 0, candidates.len() as i32) as usize];
                let is_once = match self.entities[pick].frequency {
                    Frequency::Once => true,
                    Frequency::Repeated(_) => false,
                };
                if is_once {
                    if !self.name_spawned(spawned_names, pick) {
                        let nm = crate::store::clone_string(&self.entities[pick].name);
                        spawned_names.push(nm);
                        return Some(pick);
                    }
                } else {
                    return Some(pick);
                }
                attempts += 1;
            }
        }
        // The draws found nothing usable: take the first repeatable
        // match, so a level with one never goes unpopulated.
        let mut t: usize = 0;
        while t < self.entities.len()
            invariant
                t <= self.entities@.len(),
                spawned_names@ == old(spawned_names)@,
                forall|q: int|
                    0 <= q < t ==> !(level_matches(#[trigger] self.entities@[q], level as int)
                        && self.entities@[q].frequency is Repeated && self.entities@[q].frequency->0
                        >= 1),
            decreases self.entities@.len() - t,
        {
            let repeats = match self.entities[t].frequency {
                Frequency::Repeated(n) => n >= 1,
                Frequency::Once => false,
            };
            if repeats && self.template_matches(t, level) {
                return Some(t);
            }
            t += 1;
        }
        None
    }

    /// Whether template `pick`'s name has already spawned.
    fn name_spawned(&self, spawned_names: &Vec<String>, pick: usize) -> (r: bool)
        requires
            pick < self.entities@.len(),
        ensures
            r == in_names(spawned_names@, self.entities@[pick as int].name@),
    {
        let mut q: usize = 0;
        while q < spawned_names.len()
            invariant
                pick < self.entities@.len(),
                q <= spawned_names@.len(),
                forall|m: int|
                    0 <= m < q ==> (#[trigger] spawned_names@[m])@
                        != self.entities@[pick as int].name@,
            decreases spawned_names@.len() - q,
        {
            if spawned_names[q] == self.entities[pick].name {
                proof {
                    assert((spawned_names@[q as int])@ == self.entities@[pick as int].name@);
                }
                return true;
            }
            q += 1;
        }
        false
    }

    /// Instantiate template number `which` at `point`. The new slot holds
    /// exactly the components §the template dictates: position, glyph and
    /// name always; damage (and, for items, a weapon) when the template
    /// carries a base damage; enemies get sight, roaming and health;
    /// items get one capability marker per recognized tag. The new
    /// entity is never a player.
    pub fn spawn_entity(&self, point: Point, which: usize, store: &mut EntityStore)
        requires
            which < self.entities@.len(),
            crate::map::in_bounds_xy(point.x as int, point.y as int),
        ensures
            final(store).slots@.len() == old(store).slots@.len() + 1,
            forall|i: int|
                0 <= i < old(store).slots@.len() ==> final(store).slots@[i] == old(store).slots@[i],
            wf_world(old(store).slots@) ==> wf_world(final(store).slots@),
            live(final(store).slots@, old(store).slots@.len() as int),
            instantiated(
                self.entities@[which as int],
                point,
                data(final(store).slots@, old(store).slots@.len() as int),
            ),
            !player_at(final(store).slots@, old(store).slots@.len() as int),
    {
        let tpl = &self.entities[which];
        let mut d = EntityData::empty();
        d.pos = Some(point);
        d.render = Some(
            Render {
                color: crate::components::ColorPair {
                    fg: crate::components::Rgb::white(),
                    bg: crate::components::Rgb::black(),
                },
                glyph: tpl.glyph,
            },
        );
        d.name = Some(Name { name: crate::store::clone_string(&tpl.name) });
        match &tpl.base_damage {
            Some(dmg) => {
                d.damage = Some(Damage { damage: *dmg });
                match tpl.entity_type {
                    EntityType::Item => {
                        d.weapon = Some(Weapon);
                    },
                    EntityType::Enemy => {},
                }
            },
            None => {},
        }
        match tpl.entity_type {
            EntityType::Item => {
                d.item = Some(Item);
                match &tpl.provides {
                    Some(effects) => {
                        let healing: String = "Healing".to_owned();
                        let depletion: String = "Depletion".to_owned();
                        let destruction: String = "DestructionOnLevelProgress".to_owned();
                        let equipment: String = "Equipment".to_owned();
                        let magic_map: String = "MagicMap".to_owned();
                        let mut e: usize = 0;
                        while e < effects.len()
                            invariant
                                e <= effects@.len(),
                                healing@ == "Healing"@,
                                depletion@ == "Depletion"@,
                                destruction@ == "DestructionOnLevelProgress"@,
                                equipment@ == "Equipment"@,
                                magic_map@ == "MagicMap"@,
                                d.player is None,
                                d.carried is None,
                                d.equipped is None,
                                d.pos == Some(point),
                                d.render == (tpl_render(self.entities@[which as int])),
                                d.name is Some && d.name->0.name@
                                    == self.entities@[which as int].name@,
                                d.damage == spec_damage(self.entities@[which as int]),
                                d.weapon == spec_weapon(self.entities@[which as int]),
                                d.item == Some(Item),
                                d.enemy is None,
                                d.fov is None,
                                d.roaming is None,
                                d.health is None,
                                d.amulet is None,
                                d.moving_randomly is None,
                                d.provides_healing == spec_healing_upto(effects@, e as int),
                                d.provides_depletion == spec_marker_upto::<ProvidesDepletion>(
                                    effects@,
                                    "Depletion"@,
                                    e as int,
                                    ProvidesDepletion,
                                ),
                                d.provides_destruction_on_level_progress == spec_marker_upto::<
                                    ProvidesDestructionOnLevelProgress,
                                >(
                                    effects@,
                                    "DestructionOnLevelProgress"@,
                                    e as int,
                                    ProvidesDestructionOnLevelProgress,
                                ),
                                d.provides_equipment == spec_marker_upto::<ProvidesEquipment>(
                                    effects@,
                                    "Equipment"@,
                                    e as int,
                                    ProvidesEquipment,
                                ),
                                d.provides_dungeon_map == spec_marker_upto::<ProvidesDungeonMap>(
                                    effects@,
                                    "MagicMap"@,
                                    e as int,
                                    ProvidesDungeonMap,
                                ),
                            decreases effects@.len() - e,
                        {
                            proof {
                                lemma_tag_literals_distinct();
                            }
                            let tag = &effects[e].0;
                            let n = effects[e].1;
                            if *tag == healing {
                                d.provides_healing = Some(ProvidesHealing { amount: n });
                            } else if *tag == depletion {
                                d.provides_depletion = Some(ProvidesDepletion);
                            } else if *tag == destruction {
                                d.provides_destruction_on_level_progress = Some(
                                    ProvidesDestructionOnLevelProgress,
                                );
                            } else if *tag == equipment {
                                d.provides_equipment = Some(ProvidesEquipment);
                            } else if *tag == magic_map {
                                d.provides_dungeon_map = Some(ProvidesDungeonMap);
                            }
                            e += 1;
                        }
                    },
                    None => {},
                }
            },
            EntityType::Enemy => {
                d.enemy = Some(Enemy);
                d.fov = Some(FieldOfView::new(6));
                d.roaming = Some(
                    RoamingAndChasingPlayer { home_location: point, going_to: None },
                );
                let hp = match &tpl.hp {
                    Some(h) => *h,
                    None => 1,
                };
                d.health = Some(Health { current: hp, max: hp });
            },
        }
        proof {
            if wf_world(store.slots@) {
                lemma_spawn_preserves_wf(store.slots@, d);
            }
        }
        let e = store.push(d);
        proof {
            assert(data(store.slots@, e.id as int).player is None);
        }
    }
}

/// A name found in a list of names is still found after a push.
proof fn lemma_in_names_extend(names0: Seq<String>, names1: Seq<String>, name: Seq<char>)
    requires
        in_names(names0, name),
        names1 == names0 || (names1.len() == names0.len() + 1 && forall|m: int|
            0 <= m < names0.len() ==> names1[m] == names0[m]),
    ensures
        in_names(names1, name),
{
    let m = choose|m: int| 0 <= m < names0.len() && (#[trigger] names0[m])@ == name;
    assert((names1[m])@ == name);
}

/// The renderable the spawner gives every template instance.
pub open spec fn tpl_render(tpl: Template) -> Option<Render> {
    Some(
        Render {
            color: crate::components::ColorPair {
                fg: crate::components::Rgb { r: 255, g: 255, b: 255 },
                bg: crate::components::Rgb { r: 0, g: 0, b: 0 },
            },
            glyph: tpl.glyph,
        },
    )
}

/// The damage component a template dictates.
pub open spec fn spec_damage(tpl: Template) -> Option<Damage> {
    match tpl.base_damage {
        Some(n) => Some(Damage { damage: n }),
        None => None,
    }
}

/// The weapon marker a template dictates: items with a base damage.
pub open spec fn spec_weapon(tpl: Template) -> Option<Weapon> {
    if tpl.entity_type is Item && tpl.base_damage is Some {
        Some(Weapon)
    } else {
        None
    }
}

/// The healing marker after the first `n` capability tags: the last
/// `Healing` tag wins.
pub open spec fn spec_healing_upto(tags: Seq<(String, i32)>, n: int) -> Option<ProvidesHealing>
    decreases n,
{
    if n <= 0 {
        None
    } else if tags[n - 1].0@ == "Healing"@ {
        Some(ProvidesHealing { amount: tags[n - 1].1 })
    } else {
        spec_healing_upto(tags, n - 1)
    }
}

/// A unit capability marker after the first `n` tags: present exactly
/// when some tag reads `name`.
pub open spec fn spec_marker_upto<M>(
    tags: Seq<(String, i32)>,
    name: Seq<char>,
    n: int,
    marker: M,
) -> Option<M>
    decreases n,
{
    if n <= 0 {
        None
    } else if tags[n - 1].0@ == name {
        Some(marker)
    } else {
        spec_marker_upto(tags, name, n - 1, marker)
    }
}

/// The enemy health a template dictates: its hit points, or one when it
/// names none.
pub open spec fn spec_hp(tpl: Template) -> i32 {
    match tpl.hp {
        Some(h) => h,
        None => 1,
    }
}

/// The exact component bag template `tpl` produces at `point`.
pub open spec fn instantiated(tpl: Template, point: Point, d: EntityData) -> bool {
    &&& d.pos == Some(point)
    &&& d.render == tpl_render(tpl)
    &&& d.name is Some && d.name->0.name@ == tpl.name@
    &&& d.damage == spec_damage(tpl)
    &&& d.weapon == spec_weapon(tpl)
    &&& d.player is None
    &&& d.carried is None
    &&& d.equipped is None
    &&& d.amulet is None
    &&& d.moving_randomly is None
    &&& match tpl.entity_type {
        EntityType::Enemy => {
            &&& d.enemy == Some(Enemy)
            &&& d.item is None
            &&& d.fov is Some && d.fov->0.radius == 6 && d.fov->0.is_dirty
                && d.fov->0.visible_tiles@.len() == 0
            &&& d.roaming == Some(RoamingAndChasingPlayer { home_location: point, going_to: None })
            &&& d.health == Some(Health { current: spec_hp(tpl), max: spec_hp(tpl) })
            &&& d.provides_healing is None
            &&& d.provides_depletion is None
            &&& d.provides_destruction_on_level_progress is None
            &&& d.provides_equipment is None
            &&& d.provides_dungeon_map is None
        },
        EntityType::Item => {
            &&& d.item == Some(Item)
            &&& d.enemy is None
            &&& d.fov is None
            &&& d.roaming is None
            &&& d.health is None
            &&& match tpl.provides {
                Some(tags) => {
                    &&& d.provides_healing == spec_healing_upto(tags@, tags@.len() as int)
                    &&& d.provides_depletion == spec_marker_upto::<ProvidesDepletion>(
                        tags@,
                        "Depletion"@,
                        tags@.len() as int,
                        ProvidesDepletion,
                    )
                    &&& d.provides_destruction_on_level_progress == spec_marker_upto::<
                        ProvidesDestructionOnLevelProgress,
                    >(
                        tags@,
                        "DestructionOnLevelProgress"@,
                        tags@.len() as int,
                        ProvidesDestructionOnLevelProgress,
                    )
                    &&& d.provides_equipment == spec_marker_upto::<ProvidesEquipment>(
                        tags@,
                        "Equipment"@,
                        tags@.len() as int,
                        ProvidesEquipment,
                    )
                    &&& d.provides_dungeon_map == spec_marker_upto::<ProvidesDungeonMap>(
                        tags@,
                        "MagicMap"@,
                        tags@.len() as int,
                        ProvidesDungeonMap,
                    )
                },
                None => {
                    &&& d.provides_healing is None
                    &&& d.provides_depletion is None
                    &&& d.provides_destruction_on_level_progress is None
                    &&& d.provides_equipment is None
                    &&& d.provides_dungeon_map is None
                },
            }
        },
    }
}

/// The five recognized capability tags read differently.
proof fn lemma_tag_literals_distinct()
    ensures
        "Healing"@ != "Depletion"@,
        "Healing"@ != "DestructionOnLevelProgress"@,
        "Healing"@ != "Equipment"@,
        "Healing"@ != "MagicMap"@,
        "Depletion"@ != "DestructionOnLevelProgress"@,
        "Depletion"@ != "Equipment"@,
        "Depletion"@ != "MagicMap"@,
        "DestructionOnLevelProgress"@ != "Equipment"@,
        "DestructionOnLevelProgress"@ != "MagicMap"@,
        "Equipment"@ != "MagicMap"@,
{
    reveal_strlit("Healing");
    reveal_strlit("Depletion");
    reveal_strlit("DestructionOnLevelProgress");
    reveal_strlit("Equipment");
    reveal_strlit("MagicMap");
    assert("Healing"@.len() == 7);
    assert("Depletion"@.len() == 9);
    assert("DestructionOnLevelProgress"@.len() == 26);
    assert("Equipment"@.len() == 9);
    assert("MagicMap"@.len() == 8);
    assert("Depletion"@ != "Equipment"@) by {
        assert("Depletion"@[0] == 'D');
        assert("Equipment"@[0] == 'E');
    }
}

} // verus!
