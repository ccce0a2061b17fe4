use vstd::prelude::*;
use crate::map::{idx_of, GameMap, TileType};
use crate::store::{data, live, player_at, wf_world, EntityStore};
use crate::turn_state::TurnState;

verus! {

/// The slot of the player entity.
pub open spec fn player_slot(slots: Seq<Option<crate::store::EntityData>>) -> int {
    choose|p: int| player_at(slots, p)
}

/// The player's current hit points.
pub open spec fn player_hp(slots: Seq<Option<crate::store::EntityData>>) -> int {
    data(slots, player_slot(slots)).health->0.current as int
}

/// The player's current cell.
pub open spec fn player_pos(slots: Seq<Option<crate::store::EntityData>>) -> crate::point::Point {
    data(slots, player_slot(slots)).pos->0
}

/// Whether the player stands on the exit tile.
pub open spec fn player_on_exit(slots: Seq<Option<crate::store::EntityData>>, map: GameMap) -> bool {
    map.tiles@[idx_of(player_pos(slots))] == TileType::Exit
}

/// Whether some amulet lies on the player's cell.
pub open spec fn player_on_amulet(slots: Seq<Option<crate::store::EntityData>>) -> bool {
    exists|i: int|
        #[trigger] live(slots, i) && data(slots, i).amulet is Some && data(slots, i).pos is Some
            && data(slots, i).pos->0 == player_pos(slots)
}

/// The transition table of the turn machine. It is total: every state
/// maps somewhere. The waiting and terminal states are fixed; after a
/// player or monster phase the default next phase can be overridden by
/// standing on the amulet, standing on the exit, or running out of
/// health, in that order of precedence.
pub open spec fn end_turn_transition(
    current: TurnState,
    hp: int,
    on_exit: bool,
    on_amulet: bool,
) -> TurnState {
    match current {
        TurnState::AwaitingInput => TurnState::AwaitingInput,
        TurnState::PlayerTurn | TurnState::MonsterTurn => {
            let default = if current is PlayerTurn {
                TurnState::MonsterTurn
            } else {
                TurnState::AwaitingInput
            };
            if on_amulet {
                TurnState::Victory
            } else if on_exit {
                TurnState::NextLevel
            } else if hp < 1 {
                TurnState::GameOver
            } else {
                default
            }
        },
        TurnState::GameOver => TurnState::GameOver,
        TurnState::Victory => TurnState::Victory,
        TurnState::NextLevel => TurnState::NextLevel,
    }
}

/// Applying the transition again does not move the state further, except
/// from the one state whose default successor is another live phase: a
/// player phase that ended without any override.
pub proof fn lemma_end_turn_idempotent(current: TurnState, hp: int, on_exit: bool, on_amulet: bool)
    requires
        end_turn_transition(current, hp, on_exit, on_amulet) != TurnState::MonsterTurn,
    ensures
        end_turn_transition(end_turn_transition(current, hp, on_exit, on_amulet), hp, on_exit, on_amulet)
            == end_turn_transition(current, hp, on_exit, on_amulet),
{
}

/// Evaluate the transition table on the live world and store the next
/// state.
pub fn end_turn(store: &EntityStore, turn_state: &mut TurnState, map: &GameMap)
    requires
        map.wf(),
        wf_world(store.slots@),
    ensures
        *final(turn_state) == end_turn_transition(
            *old(turn_state),
            player_hp(store.slots@),
            player_on_exit(store.slots@, *map),
            player_on_amulet(store.slots@),
        ),
{
    let current = *turn_state;
    match current {
        TurnState::AwaitingInput => {
            return ;
        },
        TurnState::GameOver | TurnState::Victory | TurnState::NextLevel => {
            return ;
        },
        _ => {},
    }
    let p = find_player(store);
    let hp = match &store.slots[p].as_ref().unwrap().health {
        Some(h) => h.current,
        None => {
            proof {
                assert(false);
            }
            0
        },
    };
    let pos = match &store.slots[p].as_ref().unwrap().pos {
        Some(q) => *q,
        None => {
            proof {
                assert(false);
            }
            crate::point::Point { x: 0, y: 0 }
        },
    };
    let on_exit = map.tiles[GameMap::map_idx(pos)] == TileType::Exit;
    let mut on_amulet = false;
    let mut i: usize = 0;
    while i < store.slots.len()
        invariant
            i <= store.slots@.len(),
            pos == player_pos(store.slots@),
            on_amulet ==> player_on_amulet(store.slots@),
            !on_amulet ==> forall|j: int|
                0 <= j < i && #[trigger] live(store.slots@, j) ==> !(data(store.slots@, j).amulet
                    is Some && data(store.slots@, j).pos is Some && data(store.slots@, j).pos->0
                    == player_pos(store.slots@)),
        decreases store.slots@.len() - i,
    {
        if let Some(d) = store.slots[i].as_ref() {
            if d.amulet.is_some() {
                if let Some(q) = &d.pos {
                    if q.x == pos.x && q.y == pos.y {
                        on_amulet = true;
                        proof {
                            assert(live(store.slots@, i as int));
                        }
                    }
                }
            }
        }
        i += 1;
    }
    let default = match current {
        TurnState::PlayerTurn => TurnState::MonsterTurn,
        _ => TurnState::AwaitingInput,
    };
    let new_state = if on_amulet {
        TurnState::Victory
    } else if on_exit {
        TurnState::NextLevel
    } else if hp < 1 {
        TurnState::GameOver
    } else {
        default
    };
    *turn_state = new_state;
}

/// The slot index of the player entity.
pub fn find_player(store: &EntityStore) -> (p: usize)
    requires
        wf_world(store.slots@),
    ensures
        p as int == player_slot(store.slots@),
        player_at(store.slots@, p as int),
        data(store.slots@, p as int).health is Some,
        data(store.slots@, p as int).pos is Some,
{
    let mut i: usize = 0;
    proof {
        assert(crate::store::unique_player(store.slots@));
    }
    while i < store.slots.len()
        invariant
            wf_world(store.slots@),
            i <= store.slots@.len(),
            forall|j: int| 0 <= j < i ==> !player_at(store.slots@, j),
        decreases store.slots@.len() - i,
    {
        if let Some(d) = store.slots[i].as_ref() {
            if d.player.is_some() {
                proof {
                    assert(player_at(store.slots@, i as int));
                    let q = choose|q: int|
                        player_at(store.slots@, q) && forall|j: int|
                            #[trigger] player_at(store.slots@, j) ==> j == q;
                    assert(q == i as int);
                    assert(player_slot(store.slots@) == i as int);
                }
                return i;
            }
        }
        i += 1;
    }
    proof {
        let q = choose|q: int|
            player_at(store.slots@, q) && forall|j: int|
                #[trigger] player_at(store.slots@, j) ==> j == q;
        assert(!player_at(store.slots@, q));
        assert(false);
    }
    0
}

} // verus!
