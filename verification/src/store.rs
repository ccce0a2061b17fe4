use vstd::prelude::*;
use crate::components::{
    AmuletOfYala, Carried, Damage, Enemy, Entity, Equipped, FieldOfView, Health, Item,
    MovingRandomly, Name, Player, ProvidesDepletion, ProvidesDestructionOnLevelProgress,
    ProvidesDungeonMap, ProvidesEquipment, ProvidesHealing, Render, RoamingAndChasingPlayer, Weapon,
};
use crate::point::Point;

verus! {

/// The component bag of one entity. A `None` field means the entity does
/// not carry that component.
pub struct EntityData {
    pub pos: Option<Point>,
    pub render: Option<Render>,
    pub health: Option<Health>,
    pub damage: Option<Damage>,
    pub fov: Option<FieldOfView>,
    pub player: Option<Player>,
    pub enemy: Option<Enemy>,
    pub item: Option<Item>,
    pub weapon: Option<Weapon>,
    pub amulet: Option<AmuletOfYala>,
    pub moving_randomly: Option<MovingRandomly>,
    pub roaming: Option<RoamingAndChasingPlayer>,
    pub carried: Option<Carried>,
    pub equipped: Option<Equipped>,
    pub name: Option<Name>,
    pub provides_healing: Option<ProvidesHealing>,
    pub provides_dungeon_map: Option<ProvidesDungeonMap>,
    pub provides_depletion: Option<ProvidesDepletion>,
    pub provides_destruction_on_level_progress: Option<ProvidesDestructionOnLevelProgress>,
    pub provides_equipment: Option<ProvidesEquipment>,
}

impl EntityData {
    /// A bag with no components.
    pub fn empty() -> (r: EntityData)
        ensures
            r == spec_empty_data(),
    {
        EntityData {
            pos: None,
            render: None,
            health: None,
            damage: None,
            fov: None,
            player: None,
            enemy: None,
            item: None,
            weapon: None,
            amulet: None,
            moving_randomly: None,
            roaming: None,
            carried: None,
            equipped: None,
            name: None,
            provides_healing: None,
            provides_dungeon_map: None,
            provides_depletion: None,
            provides_destruction_on_level_progress: None,
            provides_equipment: None,
        }
    }
}

pub open spec fn spec_empty_data() -> EntityData {
    EntityData {
        pos: None,
        render: None,
        health: None,
        damage: None,
        fov: None,
        player: None,
        enemy: None,
        item: None,
        weapon: None,
        amulet: None,
        moving_randomly: None,
        roaming: None,
        carried: None,
        equipped: None,
        name: None,
        provides_healing: None,
        provides_dungeon_map: None,
        provides_depletion: None,
        provides_destruction_on_level_progress: None,
        provides_equipment: None,
    }
}

/// Component-set storage: one slot per entity ever created. A removed
/// entity leaves a `None` slot behind, so slot indices are stable
/// handles.
pub struct EntityStore {
    pub slots: Vec<Option<EntityData>>,
}

/// Whether slot `i` holds a live entity.
pub open spec fn live(slots: Seq<Option<EntityData>>, i: int) -> bool {
    0 <= i < slots.len() && slots[i] is Some
}

/// The component bag in slot `i`.
pub open spec fn data(slots: Seq<Option<EntityData>>, i: int) -> EntityData {
    slots[i]->0
}

/// Whether slot `i` holds the player.
pub open spec fn player_at(slots: Seq<Option<EntityData>>, i: int) -> bool {
    live(slots, i) && data(slots, i).player is Some
}

impl EntityStore {
    pub fn new() -> (r: EntityStore)
        ensures
            r.slots@.len() == 0,
    {
        EntityStore { slots: Vec::new() }
    }

    pub open spec fn spec_alive(self, e: Entity) -> bool {
        live(self.slots@, e.id as int)
    }

    pub fn alive(&self, e: Entity) -> (r: bool)
        ensures
            r == self.spec_alive(e),
    {
        e.id < self.slots.len() && self.slots[e.id].is_some()
    }

    /// Create an entity holding the given components and hand back its
    /// handle.
    pub fn push(&mut self, d: EntityData) -> (e: Entity)
        ensures
            final(self).slots@ == old(self).slots@.push(Some(d)),
            e.id == old(self).slots@.len(),
    {
        let id = self.slots.len();
        self.slots.push(Some(d));
        Entity { id }
    }
}

/// One deferred structural mutation.
pub enum Command {
    RemoveEntity(Entity),
    RemovePoint(Entity),
    AddCarried(Entity, Carried),
    RemoveCarried(Entity),
    AddEquipped(Entity, Equipped),
    RemoveEquipped(Entity),
}

/// What one command does to the slots. A command aimed at a dead or
/// out-of-range entity does nothing.
pub open spec fn apply_command(slots: Seq<Option<EntityData>>, c: Command) -> Seq<
    Option<EntityData>,
> {
    match c {
        Command::RemoveEntity(e) => if live(slots, e.id as int) {
            slots.update(e.id as int, None)
        } else {
            slots
        },
        Command::RemovePoint(e) => if live(slots, e.id as int) {
            slots.update(e.id as int, Some(EntityData { pos: None, ..data(slots, e.id as int) }))
        } else {
            slots
        },
        Command::AddCarried(e, c) => if live(slots, e.id as int) {
            slots.update(
                e.id as int,
                Some(EntityData { carried: Some(c), ..data(slots, e.id as int) }),
            )
        } else {
            slots
        },
        Command::RemoveCarried(e) => if live(slots, e.id as int) {
            slots.update(
                e.id as int,
                Some(EntityData { carried: None, ..data(slots, e.id as int) }),
            )
        } else {
            slots
        },
        Command::AddEquipped(e, q) => if live(slots, e.id as int) {
            slots.update(
                e.id as int,
                Some(EntityData { equipped: Some(q), ..data(slots, e.id as int) }),
            )
        } else {
            slots
        },
        Command::RemoveEquipped(e) => if live(slots, e.id as int) {
            slots.update(
                e.id as int,
                Some(EntityData { equipped: None, ..data(slots, e.id as int) }),
            )
        } else {
            slots
        },
    }
}

/// What a whole command list does to the slots, applied in order.
pub open spec fn apply_commands(slots: Seq<Option<EntityData>>, cs: Seq<Command>) -> Seq<
    Option<EntityData>,
>
    decreases cs.len(),
{
    if cs.len() == 0 {
        slots
    } else {
        apply_command(apply_commands(slots, cs.drop_last()), cs.last())
    }
}

/// Deferred mutations enqueued by a system and flushed at its boundary.
pub struct CommandBuffer {
    pub commands: Vec<Command>,
}

impl CommandBuffer {
    pub fn new() -> (r: CommandBuffer)
        ensures
            r.commands@.len() == 0,
    {
        CommandBuffer { commands: Vec::new() }
    }

    pub fn push(&mut self, c: Command)
        ensures
            final(self).commands@ == old(self).commands@.push(c),
    {
        self.commands.push(c);
    }

    /// Apply every queued command to the store, in order, and leave the
    /// buffer empty.
    pub fn flush(&mut self, store: &mut EntityStore)
        ensures
            final(store).slots@ == apply_commands(old(store).slots@, old(self).commands@),
            final(self).commands@.len() == 0,
    {
        let ghost all = self.commands@;
        let ghost slots0 = store.slots@;
        let mut k: usize = 0;
        while k < self.commands.len()
            invariant
                k <= self.commands@.len(),
                self.commands@ == all,
                store.slots@ == apply_commands(slots0, all.take(k as int)),
            decreases self.commands@.len() - k,
        {
            let ghost pre = store.slots@;
            apply_one(store, &self.commands[k]);
            proof {
                assert(all.take(k as int + 1).drop_last() =~= all.take(k as int));
                assert(all.take(k as int + 1).last() == all[k as int]);
            }
            k += 1;
        }
        proof {
            assert(all.take(all.len() as int) =~= all);
        }
        self.commands.clear();
    }
}

/// Applying an empty command buffer leaves the store exactly as it was.
pub proof fn lemma_flush_empty_is_noop(slots: Seq<Option<EntityData>>, cs: Seq<Command>)
    requires
        cs.len() == 0,
    ensures
        apply_commands(slots, cs) == slots,
{
}

fn apply_one(store: &mut EntityStore, c: &Command)
    ensures
        final(store).slots@ == apply_command(old(store).slots@, *c),
{
    let ghost pre = store.slots@;
    match c {
        Command::RemoveEntity(e) => {
            if e.id < store.slots.len() && store.slots[e.id].is_some() {
                store.slots.set(e.id, None);
            } else {
                proof {
                    assert(store.slots@ =~= apply_command(pre, *c));
                }
            }
        },
        Command::RemovePoint(e) => {
            if e.id < store.slots.len() {
                let slot = &mut store.slots[e.id];
                if let Some(d) = slot.as_mut() {
                    d.pos = None;
                }
            }
            proof {
                assert(store.slots@ =~= apply_command(pre, *c));
            }
        },
        Command::AddCarried(e, car) => {
            if e.id < store.slots.len() {
                let slot = &mut store.slots[e.id];
                if let Some(d) = slot.as_mut() {
                    d.carried = Some(*car);
                }
            }
            proof {
                assert(store.slots@ =~= apply_command(pre, *c));
            }
        },
        Command::RemoveCarried(e) => {
            if e.id < store.slots.len() {
                let slot = &mut store.slots[e.id];
                if let Some(d) = slot.as_mut() {
                    d.carried = None;
                }
            }
            proof {
                assert(store.slots@ =~= apply_command(pre, *c));
            }
        },
        Command::AddEquipped(e, q) => {
            if e.id < store.slots.len() {
                let slot = &mut store.slots[e.id];
                if let Some(d) = slot.as_mut() {
                    d.equipped = Some(*q);
                }
            }
            proof {
                assert(store.slots@ =~= apply_command(pre, *c));
            }
        },
        Command::RemoveEquipped(e) => {
            if e.id < store.slots.len() {
                let slot = &mut store.slots[e.id];
                if let Some(d) = slot.as_mut() {
                    d.equipped = None;
                }
            }
            proof {
                assert(store.slots@ =~= apply_command(pre, *c));
            }
        },
    }
}

/// An exact copy of a string.
pub fn clone_string(s: &String) -> (r: String)
    ensures
        r@ == s@,
{
    s.clone()
}

/// Exactly one live entity carries the player marker.
pub open spec fn unique_player(slots: Seq<Option<EntityData>>) -> bool {
    exists|p: int|
        #[trigger] player_at(slots, p) && forall|i: int| #[trigger] player_at(slots, i) ==> i == p
}

/// No entity is both carried and equipped.
pub open spec fn carried_equipped_exclusive(slots: Seq<Option<EntityData>>) -> bool {
    forall|i: int|
        #[trigger] live(slots, i) ==> !(data(slots, i).carried is Some && data(slots, i).equipped
            is Some)
}

/// Whoever equips an item is a live entity with health.
pub open spec fn equippers_alive(slots: Seq<Option<EntityData>>) -> bool {
    forall|i: int|
        #[trigger] live(slots, i) && data(slots, i).equipped is Some ==> {
            let by = data(slots, i).equipped->0.by.id as int;
            live(slots, by) && data(slots, by).health is Some
        }
}

/// Carried or equipped entities stand on no grid cell.
pub open spec fn attachments_off_grid(slots: Seq<Option<EntityData>>) -> bool {
    forall|i: int|
        #[trigger] live(slots, i) && (data(slots, i).carried is Some || data(slots, i).equipped
            is Some) ==> data(slots, i).pos is None
}

/// Items are never the player, and the player has health and a position.
pub open spec fn roles_sound(slots: Seq<Option<EntityData>>) -> bool {
    &&& forall|i: int|
        #[trigger] live(slots, i) && data(slots, i).item is Some ==> data(slots, i).player is None
    &&& forall|i: int|
        #[trigger] player_at(slots, i) ==> data(slots, i).health is Some && data(slots, i).pos
            is Some
}

/// Whatever is equipped is equipped by the player.
pub open spec fn only_player_equips(slots: Seq<Option<EntityData>>) -> bool {
    forall|i: int|
        #[trigger] live(slots, i) && data(slots, i).equipped is Some ==> player_at(
            slots,
            data(slots, i).equipped->0.by.id as int,
        )
}

/// Every entity with a position stands on a grid cell.
pub open spec fn positions_on_grid(slots: Seq<Option<EntityData>>) -> bool {
    forall|i: int|
        #[trigger] live(slots, i) && data(slots, i).pos is Some ==> crate::map::in_bounds_xy(
            data(slots, i).pos->0.x as int,
            data(slots, i).pos->0.y as int,
        )
}

/// The store invariant every system preserves: one player, exclusive
/// inventory attachment, live equippers, attached entities off the grid,
/// sound role markers, and every position on the grid.
pub open spec fn wf_world(slots: Seq<Option<EntityData>>) -> bool {
    &&& unique_player(slots)
    &&& carried_equipped_exclusive(slots)
    &&& equippers_alive(slots)
    &&& only_player_equips(slots)
    &&& attachments_off_grid(slots)
    &&& roles_sound(slots)
    &&& positions_on_grid(slots)
}

/// Removing a non-player entity keeps the store invariant.
pub proof fn lemma_remove_nonplayer_preserves_wf(slots: Seq<Option<EntityData>>, c: Command)
    requires
        wf_world(slots),
        c is RemoveEntity,
        !player_at(slots, c->RemoveEntity_0.id as int),
    ensures
        wf_world(apply_command(slots, c)),
        forall|x: int| player_at(apply_command(slots, c), x) <==> player_at(slots, x),
{
    let s2 = apply_command(slots, c);
    let e = c->RemoveEntity_0.id as int;
    assert forall|x: int| player_at(s2, x) <==> player_at(slots, x) by {
        if player_at(s2, x) {
            assert(live(slots, x));
        }
        if player_at(slots, x) {
            assert(x != e);
            assert(live(s2, x));
        }
    }
    if live(slots, e) {
        let p = choose|p: int|
            #[trigger] player_at(slots, p) && forall|j: int| #[trigger] player_at(slots, j) ==> j == p;
        assert(player_at(s2, p));
        assert forall|j: int| #[trigger] player_at(s2, j) implies j == p by {
            assert(player_at(slots, j));
        }
        assert forall|j: int| #[trigger] live(s2, j) && data(s2, j).equipped is Some implies {
            &&& live(s2, data(s2, j).equipped->0.by.id as int)
            &&& data(s2, data(s2, j).equipped->0.by.id as int).health is Some
            &&& player_at(s2, data(s2, j).equipped->0.by.id as int)
        } by {
            assert(live(slots, j) && data(slots, j).equipped is Some);
            assert(player_at(slots, data(slots, j).equipped->0.by.id as int));
            assert(data(slots, j).equipped->0.by.id as int != e);
        }
        assert forall|j: int| #[trigger] live(s2, j) implies {
            &&& !(data(s2, j).carried is Some && data(s2, j).equipped is Some)
            &&& ((data(s2, j).carried is Some || data(s2, j).equipped is Some) ==> data(s2, j).pos
                is None)
            &&& (data(s2, j).item is Some ==> data(s2, j).player is None)
            &&& (data(s2, j).pos is Some ==> crate::map::in_bounds_xy(
                data(s2, j).pos->0.x as int,
                data(s2, j).pos->0.y as int,
            ))
        } by {
            assert(live(slots, j));
        }
        assert forall|j: int| #[trigger] player_at(s2, j) implies data(s2, j).health is Some && data(
            s2,
            j,
        ).pos is Some by {
            assert(player_at(slots, j));
        }
    }
}


/// Flushing a list of removals that all target non-players keeps the
/// invariant.
pub proof fn lemma_apply_removals_preserves_wf(slots: Seq<Option<EntityData>>, cs: Seq<Command>)
    requires
        wf_world(slots),
        forall|m: int|
            0 <= m < cs.len() ==> (#[trigger] cs[m]) is RemoveEntity && !player_at(
                slots,
                cs[m]->RemoveEntity_0.id as int,
            ),
    ensures
        wf_world(apply_commands(slots, cs)),
        forall|x: int| player_at(apply_commands(slots, cs), x) <==> player_at(slots, x),
        apply_commands(slots, cs).len() == slots.len(),
        forall|x: int|
            #[trigger] live(apply_commands(slots, cs), x) ==> live(slots, x) && apply_commands(
                slots,
                cs,
            )[x] == slots[x],
    decreases cs.len(),
{
    if cs.len() > 0 {
        lemma_apply_removals_preserves_wf(slots, cs.drop_last());
        let mid = apply_commands(slots, cs.drop_last());
        assert(cs.last() == cs[cs.len() - 1]);
        lemma_remove_nonplayer_preserves_wf(mid, cs.last());
        assert forall|x: int| #[trigger] live(apply_commands(slots, cs), x) implies live(slots, x)
            && apply_commands(slots, cs)[x] == slots[x] by {
            assert(live(mid, x));
        }
    }
}

/// Two stores that agree on everything but the view component satisfy
/// the invariant together.
pub open spec fn same_except_fov(s1: Seq<Option<EntityData>>, s2: Seq<Option<EntityData>>) -> bool {
    &&& s1.len() == s2.len()
    &&& forall|i: int| 0 <= i < s1.len() ==> (#[trigger] live(s1, i) <==> live(s2, i))
    &&& forall|i: int|
        #[trigger] live(s1, i) && live(s2, i) ==> data(s2, i) == EntityData {
            fov: data(s2, i).fov,
            ..data(s1, i)
        }
}

pub proof fn lemma_wf_transfer_except_fov(s1: Seq<Option<EntityData>>, s2: Seq<Option<EntityData>>)
    requires
        wf_world(s1),
        same_except_fov(s1, s2),
    ensures
        wf_world(s2),
{
    assert forall|x: int| player_at(s2, x) implies player_at(s1, x) by {
        assert(live(s1, x));
    }
    assert forall|x: int| player_at(s1, x) implies player_at(s2, x) by {
        assert(live(s1, x));
    }
    let p = choose|p: int|
        #[trigger] player_at(s1, p) && forall|j: int| #[trigger] player_at(s1, j) ==> j == p;
    assert(player_at(s2, p));
    assert forall|j: int| #[trigger] player_at(s2, j) implies j == p by {
        assert(player_at(s1, j));
    }
    assert forall|j: int| #[trigger] live(s2, j) && data(s2, j).equipped is Some implies {
        &&& live(s2, data(s2, j).equipped->0.by.id as int)
        &&& data(s2, data(s2, j).equipped->0.by.id as int).health is Some
        &&& player_at(s2, data(s2, j).equipped->0.by.id as int)
    } by {
        assert(live(s1, j) && data(s1, j).equipped is Some);
        assert(player_at(s1, data(s1, j).equipped->0.by.id as int));
        assert(live(s1, data(s1, j).equipped->0.by.id as int));
    }
    assert forall|j: int| #[trigger] live(s2, j) implies {
        &&& !(data(s2, j).carried is Some && data(s2, j).equipped is Some)
        &&& ((data(s2, j).carried is Some || data(s2, j).equipped is Some) ==> data(s2, j).pos
            is None)
        &&& (data(s2, j).item is Some ==> data(s2, j).player is None)
        &&& (data(s2, j).pos is Some ==> crate::map::in_bounds_xy(
            data(s2, j).pos->0.x as int,
            data(s2, j).pos->0.y as int,
        ))
    } by {
        assert(live(s1, j));
    }
    assert forall|j: int| #[trigger] player_at(s2, j) implies data(s2, j).health is Some && data(
        s2,
        j,
    ).pos is Some by {
        assert(player_at(s1, j));
    }
}

/// Two stores that agree on everything but the roaming component
/// satisfy the invariant together.
pub open spec fn same_except_roaming(
    s1: Seq<Option<EntityData>>,
    s2: Seq<Option<EntityData>>,
) -> bool {
    &&& s1.len() == s2.len()
    &&& forall|i: int| 0 <= i < s1.len() ==> (#[trigger] live(s1, i) <==> live(s2, i))
    &&& forall|i: int|
        #[trigger] live(s1, i) && live(s2, i) ==> data(s2, i) == EntityData {
            roaming: data(s2, i).roaming,
            ..data(s1, i)
        }
}

pub proof fn lemma_wf_transfer_except_roaming(
    s1: Seq<Option<EntityData>>,
    s2: Seq<Option<EntityData>>,
)
    requires
        wf_world(s1),
        same_except_roaming(s1, s2),
    ensures
        wf_world(s2),
{
    assert forall|x: int| player_at(s2, x) implies player_at(s1, x) by {
        assert(live(s1, x));
    }
    assert forall|x: int| player_at(s1, x) implies player_at(s2, x) by {
        assert(live(s1, x));
    }
    let p = choose|p: int|
        #[trigger] player_at(s1, p) && forall|j: int| #[trigger] player_at(s1, j) ==> j == p;
    assert(player_at(s2, p));
    assert forall|j: int| #[trigger] player_at(s2, j) implies j == p by {
        assert(player_at(s1, j));
    }
    assert forall|j: int| #[trigger] live(s2, j) && data(s2, j).equipped is Some implies {
        &&& live(s2, data(s2, j).equipped->0.by.id as int)
        &&& data(s2, data(s2, j).equipped->0.by.id as int).health is Some
        &&& player_at(s2, data(s2, j).equipped->0.by.id as int)
    } by {
        assert(live(s1, j) && data(s1, j).equipped is Some);
        assert(player_at(s1, data(s1, j).equipped->0.by.id as int));
        assert(live(s1, data(s1, j).equipped->0.by.id as int));
    }
    assert forall|j: int| #[trigger] live(s2, j) implies {
        &&& !(data(s2, j).carried is Some && data(s2, j).equipped is Some)
        &&& ((data(s2, j).carried is Some || data(s2, j).equipped is Some) ==> data(s2, j).pos
            is None)
        &&& (data(s2, j).item is Some ==> data(s2, j).player is None)
        &&& (data(s2, j).pos is Some ==> crate::map::in_bounds_xy(
            data(s2, j).pos->0.x as int,
            data(s2, j).pos->0.y as int,
        ))
    } by {
        assert(live(s1, j));
    }
    assert forall|j: int| #[trigger] player_at(s2, j) implies data(s2, j).health is Some && data(
        s2,
        j,
    ).pos is Some by {
        assert(player_at(s1, j));
    }
}

/// Creating an entity that is no player, is attached to nobody, and
/// stands on a grid cell (or nowhere) keeps the store invariant.
pub proof fn lemma_spawn_preserves_wf(slots: Seq<Option<EntityData>>, d: EntityData)
    requires
        wf_world(slots),
        d.player is None,
        d.carried is None,
        d.equipped is None,
        d.pos is Some ==> crate::map::in_bounds_xy(d.pos->0.x as int, d.pos->0.y as int),
    ensures
        wf_world(slots.push(Some(d))),
        forall|x: int| player_at(slots.push(Some(d)), x) <==> player_at(slots, x),
{
    let s2 = slots.push(Some(d));
    assert forall|x: int| player_at(s2, x) <==> player_at(slots, x) by {
        if player_at(s2, x) {
            if x < slots.len() {
                assert(live(slots, x));
            } else {
                assert(data(s2, x) == d);
            }
        }
        if player_at(slots, x) {
            assert(live(s2, x));
        }
    }
    let p = choose|p: int|
        #[trigger] player_at(slots, p) && forall|j: int| #[trigger] player_at(slots, j) ==> j == p;
    assert(player_at(s2, p));
    assert forall|j: int| #[trigger] player_at(s2, j) implies j == p by {
        assert(player_at(slots, j));
    }
    assert forall|j: int| #[trigger] live(s2, j) && data(s2, j).equipped is Some implies {
        &&& live(s2, data(s2, j).equipped->0.by.id as int)
        &&& data(s2, data(s2, j).equipped->0.by.id as int).health is Some
        &&& player_at(s2, data(s2, j).equipped->0.by.id as int)
    } by {
        if j < slots.len() {
            assert(live(slots, j) && data(slots, j).equipped is Some);
            assert(player_at(slots, data(slots, j).equipped->0.by.id as int));
        } else {
            assert(data(s2, j) == d);
        }
    }
    assert forall|j: int| #[trigger] live(s2, j) implies {
        &&& !(data(s2, j).carried is Some && data(s2, j).equipped is Some)
        &&& ((data(s2, j).carried is Some || data(s2, j).equipped is Some) ==> data(s2, j).pos
            is None)
        &&& (data(s2, j).item is Some ==> data(s2, j).player is None)
        &&& (data(s2, j).pos is Some ==> crate::map::in_bounds_xy(
            data(s2, j).pos->0.x as int,
            data(s2, j).pos->0.y as int,
        ))
    } by {
        if j < slots.len() {
            assert(live(slots, j));
        } else {
            assert(data(s2, j) == d);
        }
    }
    assert forall|j: int| #[trigger] player_at(s2, j) implies data(s2, j).health is Some && data(
        s2,
        j,
    ).pos is Some by {
        assert(player_at(slots, j));
    }
}

/// In a sound world no entity is ever both carried and equipped.
pub proof fn lemma_carried_equipped_never_coexist(slots: Seq<Option<EntityData>>, i: int)
    requires
        wf_world(slots),
        live(slots, i),
    ensures
        !(data(slots, i).carried is Some && data(slots, i).equipped is Some),
{
}

/// In a sound world whoever equips an item exists and has health.
pub proof fn lemma_equippers_exist_with_health(slots: Seq<Option<EntityData>>, i: int)
    requires
        wf_world(slots),
        live(slots, i),
        data(slots, i).equipped is Some,
    ensures
        live(slots, data(slots, i).equipped->0.by.id as int),
        data(slots, data(slots, i).equipped->0.by.id as int).health is Some,
{
}

/// In a sound world exactly one entity carries the player marker.
pub proof fn lemma_exactly_one_player(slots: Seq<Option<EntityData>>)
    requires
        wf_world(slots),
    ensures
        exists|p: int|
            #[trigger] player_at(slots, p) && forall|i: int| #[trigger] player_at(slots, i) ==> i
                == p,
{
}

/// Applying a list of plain removals never changes a surviving slot.
pub proof fn lemma_removals_keep_cells(slots: Seq<Option<EntityData>>, cs: Seq<Command>)
    requires
        forall|m: int| 0 <= m < cs.len() ==> (#[trigger] cs[m]) is RemoveEntity,
    ensures
        apply_commands(slots, cs).len() == slots.len(),
        forall|x: int|
            #[trigger] live(apply_commands(slots, cs), x) ==> live(slots, x) && apply_commands(
                slots,
                cs,
            )[x] == slots[x],
    decreases cs.len(),
{
    if cs.len() > 0 {
        lemma_removals_keep_cells(slots, cs.drop_last());
        let mid = apply_commands(slots, cs.drop_last());
        assert(cs.last() == cs[cs.len() - 1]);
        assert forall|x: int| #[trigger] live(apply_commands(slots, cs), x) implies live(slots, x)
            && apply_commands(slots, cs)[x] == slots[x] by {
            assert(live(mid, x));
        }
    }
}

} // verus!
