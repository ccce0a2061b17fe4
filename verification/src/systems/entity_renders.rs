use vstd::prelude::*;
use crate::camera::Camera;
use crate::components::Render;
use crate::fov::sees;
use crate::point::Point;
use crate::store::{data, live, wf_world, EntityStore};
use crate::systems::end_turn::{find_player, player_slot};
use crate::systems::fov::view_of;
use crate::systems::map_render::view_contains;

verus! {

/// One drawn entity, in window coordinates.
pub struct EntityDraw {
    pub screen_pos: Point,
    pub render: Render,
    pub dist2: i64,
    pub radius: i32,
}

/// Draw every positioned, drawable entity the player currently sees —
/// all of them, each from its own grid cell.
pub fn entity_render(store: &EntityStore, camera: &Camera) -> (r: Vec<EntityDraw>)
    requires
        wf_world(store.slots@),
        -1000 <= camera.left_x <= 1000,
        -1000 <= camera.top_y <= 1000,
    ensures
        forall|k: int|
            0 <= k < r@.len() ==> exists|i: int|
                {
                    &&& #[trigger] live(store.slots@, i)
                    &&& data(store.slots@, i).pos is Some
                    &&& data(store.slots@, i).render == Some((#[trigger] r@[k]).render)
                    &&& sees(
                        view_of(store.slots@, player_slot(store.slots@)),
                        data(store.slots@, i).pos->0,
                    )
                    &&& r@[k].screen_pos.x == data(store.slots@, i).pos->0.x - camera.left_x
                    &&& r@[k].screen_pos.y == data(store.slots@, i).pos->0.y - camera.top_y
                },
        // Completeness: every drawable entity in view is drawn.
        data(store.slots@, player_slot(store.slots@)).fov is Some ==> forall|i: int|
            #[trigger] live(store.slots@, i) && data(store.slots@, i).pos is Some && data(
                store.slots@,
                i,
            ).render is Some && sees(
                view_of(store.slots@, player_slot(store.slots@)),
                data(store.slots@, i).pos->0,
            ) ==> exists|k: int|
                0 <= k < r@.len() && (#[trigger] r@[k]).render == data(store.slots@, i).render->0
                    && r@[k].screen_pos.x == data(store.slots@, i).pos->0.x - camera.left_x
                    && r@[k].screen_pos.y == data(store.slots@, i).pos->0.y - camera.top_y,
{
    let p = find_player(store);
    if store.slots[p].as_ref().unwrap().fov.is_none() {
        return Vec::new();
    }
    let pradius = match &store.slots[p].as_ref().unwrap().fov {
        Some(f) => f.radius,
        None => 0,
    };
    let ppos = match &store.slots[p].as_ref().unwrap().pos {
        Some(q) => *q,
        None => {
            proof {
                assert(false);
            }
            Point { x: 0, y: 0 }
        },
    };
    let mut r: Vec<EntityDraw> = Vec::new();
    let mut i: usize = 0;
    while i < store.slots.len()
        invariant
            wf_world(store.slots@),
            p as int == player_slot(store.slots@),
            data(store.slots@, p as int).fov is Some,
            -1000 <= camera.left_x <= 1000,
            -1000 <= camera.top_y <= 1000,
            i <= store.slots@.len(),
            forall|k: int|
                0 <= k < r@.len() ==> exists|ii: int|
                    {
                        &&& #[trigger] live(store.slots@, ii)
                        &&& data(store.slots@, ii).pos is Some
                        &&& data(store.slots@, ii).render == Some((#[trigger] r@[k]).render)
                        &&& sees(view_of(store.slots@, p as int), data(store.slots@, ii).pos->0)
                        &&& r@[k].screen_pos.x == data(store.slots@, ii).pos->0.x - camera.left_x
                        &&& r@[k].screen_pos.y == data(store.slots@, ii).pos->0.y - camera.top_y
                    },
            forall|ii: int|
                0 <= ii < i && #[trigger] live(store.slots@, ii) && data(store.slots@, ii).pos
                    is Some && data(store.slots@, ii).render is Some && sees(
                    view_of(store.slots@, p as int),
                    data(store.slots@, ii).pos->0,
                ) ==> exists|k: int|
                    0 <= k < r@.len() && (#[trigger] r@[k]).render == data(store.slots@, ii).render->0
                        && r@[k].screen_pos.x == data(store.slots@, ii).pos->0.x - camera.left_x
                        && r@[k].screen_pos.y == data(store.slots@, ii).pos->0.y - camera.top_y,
        decreases store.slots@.len() - i,
    {
        let (drawable, pos, render) = match store.slots[i].as_ref() {
            Some(d) => match (&d.pos, &d.render) {
                (Some(q), Some(rr)) => (true, *q, *rr),
                _ => (false, Point { x: 0, y: 0 }, Render {
                    color: crate::components::ColorPair {
                        fg: crate::components::Rgb::black(),
                        bg: crate::components::Rgb::black(),
                    },
                    glyph: ' ',
                }),
            },
            None => (false, Point { x: 0, y: 0 }, Render {
                color: crate::components::ColorPair {
                    fg: crate::components::Rgb::black(),
                    bg: crate::components::Rgb::black(),
                },
                glyph: ' ',
            }),
        };
        if drawable {
            let seen = {
                let d = store.slots[p].as_ref().unwrap();
                match &d.fov {
                    Some(f) => view_contains(&f.visible_tiles, pos),
                    None => false,
                }
            };
            if seen {
                proof {
                    assert(live(store.slots@, i as int));
                    assert(data(store.slots@, i as int).pos == Some(pos));
                    assert(crate::map::in_bounds_xy(pos.x as int, pos.y as int));
                }
                let sx = wrapping_sub(pos.x, camera.left_x);
                let sy = wrapping_sub(pos.y, camera.top_y);
                proof {
                    assert(sx.0 && sy.0);
                }
                if sx.0 && sy.0 {
                    let dx = (pos.x as i64) - (ppos.x as i64);
                    let dy = (pos.y as i64) - (ppos.y as i64);
                    proof {
                        assert(0 <= dx * dx <= 0x1_0000_0000_0000_0000i128 && 0 <= dy * dy
                            <= 0x1_0000_0000_0000_0000i128) by (nonlinear_arith)
                            requires
                                -0x1_0000_0000 <= dx <= 0x1_0000_0000,
                                -0x1_0000_0000 <= dy <= 0x1_0000_0000,
                        ;
                    }
                    let d2 = (dx as i128) * (dx as i128) + (dy as i128) * (dy as i128);
                    let d2c: i64 = if d2 > i64::MAX as i128 {
                        i64::MAX
                    } else {
                        d2 as i64
                    };
                    let draw = EntityDraw {
                        screen_pos: Point { x: sx.1, y: sy.1 },
                        render,
                        dist2: d2c,
                        radius: pradius,
                    };
                    proof {
                        assert(live(store.slots@, i as int));
                        assert(sees(view_of(store.slots@, p as int), pos));
                    }
                    let ghost r0 = r@;
                    r.push(draw);
                    proof {
                        assert(r@[r@.len() - 1] == draw);
                        assert forall|ii: int|
                            0 <= ii < i + 1 && #[trigger] live(store.slots@, ii) && data(
                                store.slots@,
                                ii,
                            ).pos is Some && data(store.slots@, ii).render is Some && sees(
                                view_of(store.slots@, p as int),
                                data(store.slots@, ii).pos->0,
                            ) implies exists|k: int|
                            0 <= k < r@.len() && (#[trigger] r@[k]).render == data(
                                store.slots@,
                                ii,
                            ).render->0 && r@[k].screen_pos.x == data(store.slots@, ii).pos->0.x
                                - camera.left_x && r@[k].screen_pos.y == data(
                                store.slots@,
                                ii,
                            ).pos->0.y - camera.top_y by {
                            if ii < i as int {
                                let k = choose|k: int|
                                    0 <= k < r0.len() && (#[trigger] r0[k]).render == data(
                                        store.slots@,
                                        ii,
                                    ).render->0 && r0[k].screen_pos.x == data(
                                        store.slots@,
                                        ii,
                                    ).pos->0.x - camera.left_x && r0[k].screen_pos.y == data(
                                        store.slots@,
                                        ii,
                                    ).pos->0.y - camera.top_y;
                                assert(r@[k] == r0[k]);
                            } else {
                                assert(r@[r@.len() - 1].render == render);
                            }
                        }
                    }
                }
            }
        }
        i += 1;
    }
    r
}

/// Subtraction that reports instead of overflowing; the flag is true
/// when the exact difference fits.
fn wrapping_sub(a: i32, b: i32) -> (r: (bool, i32))
    ensures
        r.0 <==> i32::MIN <= a - b <= i32::MAX,
        r.0 ==> r.1 == a - b,
{
    let wide = (a as i64) - (b as i64);
    if wide >= i32::MIN as i64 && wide <= i32::MAX as i64 {
        (true, wide as i32)
    } else {
        (false, 0)
    }
}

} // verus!
