use vstd::prelude::*;

pub mod combat;
pub mod player_input;
pub mod entity_renders;
pub mod hud;
pub mod tooltips;
pub mod map_render;
pub mod random_move;
pub mod roaming_and_chasing;
pub mod end_turn;
pub mod fov;
pub mod moving;
pub mod use_items;

verus! {

/// One system of the three pipelines, named so a schedule can list them
/// in order.
#[derive(Clone, Copy, PartialEq, Eq, Structural, Debug)]
pub enum SystemName {
    PlayerInput,
    UseItems,
    Moving,
    RandomMove,
    RoamingAndChasing,
    Combat,
    Fov,
    MapRender,
    EntityRender,
    Hud,
    Tooltips,
    EndTurn,
}

/// The three ordered pipelines, assembled once at startup: one per
/// waiting, player and monster phase.
pub struct Schedule {
    pub input: Vec<SystemName>,
    pub player: Vec<SystemName>,
    pub monster: Vec<SystemName>,
}

/// Build the three pipelines in their declared order: input handling
/// first, rendering before the turn ends, and the monster phase running
/// the two AI systems before movement and combat.
pub fn build_scheduler() -> (r: Schedule)
    ensures
        r.input@ == seq![
            SystemName::PlayerInput,
            SystemName::Fov,
            SystemName::MapRender,
            SystemName::EntityRender,
            SystemName::Hud,
            SystemName::Tooltips,
        ],
        r.player@ == seq![
            SystemName::UseItems,
            SystemName::Moving,
            SystemName::Fov,
            SystemName::MapRender,
            SystemName::EntityRender,
            SystemName::Hud,
            SystemName::EndTurn,
        ],
        r.monster@ == seq![
            SystemName::UseItems,
            SystemName::RandomMove,
            SystemName::RoamingAndChasing,
            SystemName::Moving,
            SystemName::Combat,
            SystemName::Fov,
            SystemName::MapRender,
            SystemName::EntityRender,
            SystemName::Hud,
            SystemName::EndTurn,
        ],
{
    let mut input: Vec<SystemName> = Vec::new();
    input.push(SystemName::PlayerInput);
    input.push(SystemName::Fov);
    input.push(SystemName::MapRender);
    input.push(SystemName::EntityRender);
    input.push(SystemName::Hud);
    input.push(SystemName::Tooltips);
    let mut player: Vec<SystemName> = Vec::new();
    player.push(SystemName::UseItems);
    player.push(SystemName::Moving);
    player.push(SystemName::Fov);
    player.push(SystemName::MapRender);
    player.push(SystemName::EntityRender);
    player.push(SystemName::Hud);
    player.push(SystemName::EndTurn);
    let mut monster: Vec<SystemName> = Vec::new();
    monster.push(SystemName::UseItems);
    monster.push(SystemName::RandomMove);
    monster.push(SystemName::RoamingAndChasing);
    monster.push(SystemName::Moving);
    monster.push(SystemName::Combat);
    monster.push(SystemName::Fov);
    monster.push(SystemName::MapRender);
    monster.push(SystemName::EntityRender);
    monster.push(SystemName::Hud);
    monster.push(SystemName::EndTurn);
    let r = Schedule { input, player, monster };
    proof {
        assert(r.input@ =~= seq![
            SystemName::PlayerInput,
            SystemName::Fov,
            SystemName::MapRender,
            SystemName::EntityRender,
            SystemName::Hud,
            SystemName::Tooltips,
        ]);
        assert(r.player@ =~= seq![
            SystemName::UseItems,
            SystemName::Moving,
            SystemName::Fov,
            SystemName::MapRender,
            SystemName::EntityRender,
            SystemName::Hud,
            SystemName::EndTurn,
        ]);
        assert(r.monster@ =~= seq![
            SystemName::UseItems,
            SystemName::RandomMove,
            SystemName::RoamingAndChasing,
            SystemName::Moving,
            SystemName::Combat,
            SystemName::Fov,
            SystemName::MapRender,
            SystemName::EntityRender,
            SystemName::Hud,
            SystemName::EndTurn,
        ]);
    }
    r
}

} // verus!
