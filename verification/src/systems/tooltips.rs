use vstd::prelude::*;
use crate::camera::Camera;
use crate::point::Point;
use crate::store::{clone_string, data, live, wf_world, EntityStore};
use crate::systems::end_turn::{find_player, player_slot};
use crate::systems::fov::view_of;
use crate::systems::map_render::view_contains;
use crate::fov::sees;

verus! {

/// One hover label: a named entity under the mouse, with its health if
/// it has any.
pub struct Tooltip {
    pub screen_pos: Point,
    pub label: String,
    pub hp: Option<i32>,
}

/// Label every named entity the player sees on the hovered cell.
pub fn tooltips(store: &EntityStore, mouse_pos: Point, camera: &Camera) -> (r: Vec<Tooltip>)
    requires
        wf_world(store.slots@),
        -1000 <= camera.left_x <= 1000,
        -1000 <= camera.top_y <= 1000,
        -1000 <= mouse_pos.x <= 1000,
        -1000 <= mouse_pos.y <= 1000,
    ensures
        forall|k: int|
            0 <= k < r@.len() ==> exists|i: int|
                {
                    &&& #[trigger] live(store.slots@, i)
                    &&& data(store.slots@, i).name is Some
                    &&& data(store.slots@, i).pos is Some
                    &&& data(store.slots@, i).pos->0.x == mouse_pos.x + camera.left_x
                    &&& data(store.slots@, i).pos->0.y == mouse_pos.y + camera.top_y
                    &&& (#[trigger] r@[k]).label@ == data(store.slots@, i).name->0.name@
                    &&& sees(
                        view_of(store.slots@, player_slot(store.slots@)),
                        data(store.slots@, i).pos->0,
                    )
                },
        // Completeness: every named, visible entity under the mouse gets
        // a label.
        data(store.slots@, player_slot(store.slots@)).fov is Some ==> forall|i: int|
            #[trigger] live(store.slots@, i) && data(store.slots@, i).name is Some && data(
                store.slots@,
                i,
            ).pos is Some && data(store.slots@, i).pos->0.x == mouse_pos.x + camera.left_x && data(
                store.slots@,
                i,
            ).pos->0.y == mouse_pos.y + camera.top_y && sees(
                view_of(store.slots@, player_slot(store.slots@)),
                data(store.slots@, i).pos->0,
            ) ==> exists|k: int|
                0 <= k < r@.len() && (#[trigger] r@[k]).label@ == data(store.slots@, i).name->0.name@,
{
    let p = find_player(store);
    if store.slots[p].as_ref().unwrap().fov.is_none() {
        return Vec::new();
    }
    let map_pos = Point { x: mouse_pos.x + camera.left_x, y: mouse_pos.y + camera.top_y };
    let mut r: Vec<Tooltip> = Vec::new();
    let mut i: usize = 0;
    while i < store.slots.len()
        invariant
            wf_world(store.slots@),
            p as int == player_slot(store.slots@),
            data(store.slots@, p as int).fov is Some,
            map_pos.x == mouse_pos.x + camera.left_x,
            forall|ii: int|
                0 <= ii < i && #[trigger] live(store.slots@, ii) && data(store.slots@, ii).name
                    is Some && data(store.slots@, ii).pos is Some && data(store.slots@, ii).pos->0
                    == map_pos && sees(
                    view_of(store.slots@, p as int),
                    data(store.slots@, ii).pos->0,
                ) ==> exists|k: int|
                    0 <= k < r@.len() && (#[trigger] r@[k]).label@ == data(
                        store.slots@,
                        ii,
                    ).name->0.name@,
            map_pos.y == mouse_pos.y + camera.top_y,
            -1000 <= mouse_pos.x <= 1000,
            -1000 <= mouse_pos.y <= 1000,
            i <= store.slots@.len(),
            forall|k: int|
                0 <= k < r@.len() ==> exists|ii: int|
                    {
                        &&& #[trigger] live(store.slots@, ii)
                        &&& data(store.slots@, ii).name is Some
                        &&& data(store.slots@, ii).pos is Some
                        &&& data(store.slots@, ii).pos->0.x == mouse_pos.x + camera.left_x
                        &&& data(store.slots@, ii).pos->0.y == mouse_pos.y + camera.top_y
                        &&& (#[trigger] r@[k]).label@ == data(store.slots@, ii).name->0.name@
                        &&& sees(view_of(store.slots@, p as int), data(store.slots@, ii).pos->0)
                    },
        decreases store.slots@.len() - i,
    {
        let (here, nm, hp) = match store.slots[i].as_ref() {
            Some(d) => {
                let at = d.name.is_some() && match &d.pos {
                    Some(q) => q.x == map_pos.x && q.y == map_pos.y,
                    None => false,
                };
                if at {
                    let nm = match &d.name {
                        Some(n) => clone_string(&n.name),
                        None => String::new(),
                    };
                    let hp = match &d.health {
                        Some(h) => Some(h.current),
                        None => None,
                    };
                    (true, nm, hp)
                } else {
                    (false, String::new(), None)
                }
            },
            None => (false, String::new(), None),
        };
        if here {
            let seen = {
                let d = store.slots[p].as_ref().unwrap();
                match &d.fov {
                    Some(f) => view_contains(&f.visible_tiles, map_pos),
                    None => false,
                }
            };
            if seen {
                proof {
                    assert(live(store.slots@, i as int));
                    assert(data(store.slots@, i as int).pos->0 == map_pos);
                }
                let sx = mouse_pos.x * 4;
                let sy = mouse_pos.y * 4;
                let ghost r0 = r@;
                let ghost nmv = nm@;
                r.push(Tooltip { screen_pos: Point { x: sx, y: sy }, label: nm, hp });
                proof {
                    assert(r@[r@.len() - 1].label@ == nmv);
                    assert forall|ii: int|
                        0 <= ii < i + 1 && #[trigger] live(store.slots@, ii) && data(
                            store.slots@,
                            ii,
                        ).name is Some && data(store.slots@, ii).pos is Some && data(
                            store.slots@,
                            ii,
                        ).pos->0 == map_pos && sees(
                            view_of(store.slots@, p as int),
                            data(store.slots@, ii).pos->0,
                        ) implies exists|k: int|
                        0 <= k < r@.len() && (#[trigger] r@[k]).label@ == data(
                            store.slots@,
                            ii,
                        ).name->0.name@ by {
                        if ii < i as int {
                            let k = choose|k: int|
                                0 <= k < r0.len() && (#[trigger] r0[k]).label@ == data(
                                    store.slots@,
                                    ii,
                                ).name->0.name@;
                            assert(r@[k] == r0[k]);
                        } else {
                            assert(r@[r@.len() - 1].label@ == data(store.slots@, ii).name->0.name@);
                        }
                    }
                }
            }
        }
        i += 1;
    }
    r
}

} // verus!
