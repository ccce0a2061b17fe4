use vstd::prelude::*;
use crate::point::Point;

verus! {

/// Handle to one entity of the store: its slot index. Slots are never
/// reused, so a handle stays valid until its entity is removed.
#[derive(Clone, Copy, PartialEq, Eq, Structural, Debug, Hash)]
pub struct Entity {
    pub id: usize,
}

/// An eight-bit color channel triple.
#[derive(Clone, Copy, PartialEq, Eq, Structural, Debug)]
pub struct Rgb {
    pub r: u8,
    pub g: u8,
    pub b: u8,
}

impl Rgb {
    pub fn white() -> (c: Rgb)
        ensures
            c == (Rgb { r: 255, g: 255, b: 255 }),
    {
        Rgb { r: 255, g: 255, b: 255 }
    }

    pub fn black() -> (c: Rgb)
        ensures
            c == (Rgb { r: 0, g: 0, b: 0 }),
    {
        Rgb { r: 0, g: 0, b: 0 }
    }
}

/// A foreground and background color.
#[derive(Clone, Copy, PartialEq, Eq, Structural, Debug)]
pub struct ColorPair {
    pub fg: Rgb,
    pub bg: Rgb,
}

/// Intent: `used_by` activates the item `item` this turn.
#[derive(Clone, Copy, PartialEq, Eq, Structural, Debug)]
pub struct ActivateItem {
    pub used_by: Entity,
    pub item: Entity,
}

/// Marker: the victory item.
#[derive(Clone, Copy, PartialEq, Eq, Structural, Debug)]
pub struct AmuletOfYala;

/// The entity sits in the inventory of `by`.
#[derive(Clone, Copy, PartialEq, Eq, Structural, Debug)]
pub struct Carried {
    pub by: Entity,
}

/// Attack bonus when held by the attacker, or when equipped by them.
#[derive(Clone, Copy, PartialEq, Eq, Structural, Debug)]
pub struct Damage {
    pub damage: i32,
}

/// Marker: a hostile entity.
#[derive(Clone, Copy, PartialEq, Eq, Structural, Debug)]
pub struct Enemy;

/// The entity is worn or wielded by `by`.
#[derive(Clone, Copy, PartialEq, Eq, Structural, Debug)]
pub struct Equipped {
    pub by: Entity,
}

/// Recomputable visibility: the cells in view, the view radius, and
/// whether the set must be recomputed.
#[derive(Clone, Debug)]
#[verifier::ext_equal]
pub struct FieldOfView {
    pub visible_tiles: Vec<Point>,
    pub radius: i32,
    pub is_dirty: bool,
}

impl FieldOfView {
    pub fn new(radius: i32) -> (r: FieldOfView)
        ensures
            r.visible_tiles@.len() == 0,
            r.radius == radius,
            r.is_dirty,
    {
        FieldOfView { visible_tiles: Vec::new(), radius, is_dirty: true }
    }

    /// A copy with the same radius whose visible set is forgotten and
    /// marked for recomputation.
    pub fn clone_dirty(&self) -> (r: FieldOfView)
        ensures
            r.visible_tiles@.len() == 0,
            r.radius == self.radius,
            r.is_dirty,
    {
        FieldOfView { visible_tiles: Vec::new(), radius: self.radius, is_dirty: true }
    }
}

/// Hit points; healing never raises `current` past `max`.
#[derive(Clone, Copy, PartialEq, Eq, Structural, Debug)]
pub struct Health {
    pub current: i32,
    pub max: i32,
}

/// Marker: can lie on the floor and be picked up.
#[derive(Clone, Copy, PartialEq, Eq, Structural, Debug)]
pub struct Item;

/// Marker of the one player entity, with the dungeon depth reached.
#[derive(Clone, Copy, PartialEq, Eq, Structural, Debug)]
pub struct Player {
    pub map_level: u32,
}

/// AI mode: drift one random cardinal step per monster turn.
#[derive(Clone, Copy, PartialEq, Eq, Structural, Debug)]
pub struct MovingRandomly;

/// Display name.
#[derive(Clone, Debug)]
#[verifier::ext_equal]
pub struct Name {
    pub name: String,
}

/// Marker: activating the item reveals the whole dungeon.
#[derive(Clone, Copy, PartialEq, Eq, Structural, Debug)]
pub struct ProvidesDungeonMap;

/// Activating the item restores `amount` hit points, clamped to `max`.
#[derive(Clone, Copy, PartialEq, Eq, Structural, Debug)]
pub struct ProvidesHealing {
    pub amount: i32,
}

/// Marker: the item is consumed by activation.
#[derive(Clone, Copy, PartialEq, Eq, Structural, Debug)]
pub struct ProvidesDepletion;

/// Marker: the item does not survive a level advance.
#[derive(Clone, Copy, PartialEq, Eq, Structural, Debug)]
pub struct ProvidesDestructionOnLevelProgress;

/// Marker: activating the item equips it.
#[derive(Clone, Copy, PartialEq, Eq, Structural, Debug)]
pub struct ProvidesEquipment;

/// How the entity is drawn: a color pair and a glyph.
#[derive(Clone, Copy, PartialEq, Eq, Structural, Debug)]
pub struct Render {
    pub color: ColorPair,
    pub glyph: char,
}

/// AI mode: roam around `home_location`, chase the player on sight.
#[derive(Clone, Copy, PartialEq, Eq, Structural, Debug)]
pub struct RoamingAndChasingPlayer {
    pub home_location: Point,
    pub going_to: Option<Point>,
}

/// Intent: `attacker` strikes `victim` this turn.
#[derive(Clone, Copy, PartialEq, Eq, Structural, Debug)]
pub struct WantsToAttack {
    pub attacker: Entity,
    pub victim: Entity,
}

/// Intent: `entity` steps to `destination` this turn.
#[derive(Clone, Copy, PartialEq, Eq, Structural, Debug)]
pub struct WantsToMove {
    pub entity: Entity,
    pub destination: Point,
}

/// Marker: the item adds its `Damage` while equipped.
#[derive(Clone, Copy, PartialEq, Eq, Structural, Debug)]
pub struct Weapon;

} // verus!
