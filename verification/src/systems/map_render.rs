use vstd::prelude::*;
use crate::camera::Camera;
use crate::fov::sees;
use crate::map::{idx_xy, in_bounds_xy, lemma_point_of_idx_of, GameMap, Revealed};
use crate::map_builder::{spec_theme_glyph, theme_glyph, MapTheme};
use crate::point::Point;
use crate::store::{data, wf_world, EntityStore};
use crate::systems::end_turn::{find_player, player_slot};
use crate::systems::fov::view_of;

verus! {

/// How one drawn tile is lit.
#[derive(Clone, Copy, PartialEq, Eq, Structural, Debug)]
pub enum Shade {
    Visible { dist2: i64, radius: i32 },
    Remembered,
    FromMap,
}

/// One tile of the view window, in window coordinates.
pub struct TileDraw {
    pub screen_pos: Point,
    pub glyph: char,
    pub shade: Shade,
}

/// Draw every camera-window cell the player can see or remembers: its
/// themed glyph, placed in window coordinates, lit by visibility,
/// memory, or the magic map.
pub fn map_render(
    store: &EntityStore,
    map: &GameMap,
    camera: &Camera,
    theme: MapTheme,
) -> (r: Vec<TileDraw>)
    requires
        map.wf(),
        wf_world(store.slots@),
        -1000 <= camera.left_x <= 1000,
        -1000 <= camera.right_x <= 1000,
        -1000 <= camera.top_y <= 1000,
        -1000 <= camera.bottom_y <= 1000,
    ensures
        forall|k: int|
            0 <= k < r@.len() ==> {
                let d = #[trigger] r@[k];
                let gx = d.screen_pos.x + camera.left_x;
                let gy = d.screen_pos.y + camera.top_y;
                &&& 0 <= d.screen_pos.x < camera.right_x - camera.left_x
                &&& 0 <= d.screen_pos.y < camera.bottom_y - camera.top_y
                &&& in_bounds_xy(gx as int, gy as int)
                &&& d.glyph == spec_theme_glyph(theme, map.tiles@[idx_xy(gx as int, gy as int)])
                &&& (sees(
                    view_of(store.slots@, player_slot(store.slots@)),
                    Point { x: gx as i32, y: gy as i32 },
                ) || map.revealed_tiles@[idx_xy(gx as int, gy as int)] == Revealed::Seen
                    || map.revealed_tiles@[idx_xy(gx as int, gy as int)] == Revealed::FromMap)
            },
        // Completeness: every window cell the player sees or remembers
        // is drawn, and no screen cell twice.
        data(store.slots@, player_slot(store.slots@)).fov is Some ==> forall|gx: int, gy: int|
            camera.left_x <= gx < camera.right_x && camera.top_y <= gy < camera.bottom_y
                && #[trigger] in_bounds_xy(gx, gy) && (sees(
                view_of(store.slots@, player_slot(store.slots@)),
                Point { x: gx as i32, y: gy as i32 },
            ) || map.revealed_tiles@[idx_xy(gx, gy)] == Revealed::Seen || map.revealed_tiles@[idx_xy(
                gx,
                gy,
            )] == Revealed::FromMap) ==> exists|k: int|
                0 <= k < r@.len() && (#[trigger] r@[k].screen_pos) == (Point {
                    x: (gx - camera.left_x) as i32,
                    y: (gy - camera.top_y) as i32,
                }),
        forall|k: int, m: int|
            0 <= k < m < r@.len() ==> (#[trigger] r@[k]).screen_pos != (#[trigger] r@[m]).screen_pos,
{
    let p = find_player(store);
    if store.slots[p].as_ref().unwrap().fov.is_none() {
        return Vec::new();
    }
    let (ppos, pradius) = {
        let d = store.slots[p].as_ref().unwrap();
        let ppos = match &d.pos {
            Some(q) => *q,
            None => {
                proof {
                    assert(false);
                }
                Point { x: 0, y: 0 }
            },
        };
        let rr = match &d.fov {
            Some(f) => f.radius,
            None => 0,
        };
        (ppos, rr)
    };
    let mut r: Vec<TileDraw> = Vec::new();
    let mut y = camera.top_y;
    while y < camera.bottom_y
        invariant
            map.wf(),
            wf_world(store.slots@),
            p as int == player_slot(store.slots@),
            data(store.slots@, p as int).fov is Some,
            -1000 <= camera.left_x <= 1000,
            -1000 <= camera.right_x <= 1000,
            -1000 <= camera.top_y <= 1000,
            -1000 <= camera.bottom_y <= 1000,
            camera.top_y <= y,
            data(store.slots@, p as int).fov is Some,
            forall|k: int|
                0 <= k < r@.len() ==> {
                    let d = #[trigger] r@[k];
                    let gx = d.screen_pos.x + camera.left_x;
                    let gy = d.screen_pos.y + camera.top_y;
                    &&& 0 <= d.screen_pos.x < camera.right_x - camera.left_x
                    &&& 0 <= d.screen_pos.y < camera.bottom_y - camera.top_y
                    &&& in_bounds_xy(gx as int, gy as int)
                    &&& d.glyph == spec_theme_glyph(theme, map.tiles@[idx_xy(gx as int, gy as int)])
                    &&& (sees(
                        view_of(store.slots@, p as int),
                        Point { x: gx as i32, y: gy as i32 },
                    ) || map.revealed_tiles@[idx_xy(gx as int, gy as int)] == Revealed::Seen
                        || map.revealed_tiles@[idx_xy(gx as int, gy as int)] == Revealed::FromMap)
                },
            forall|k: int| 0 <= k < r@.len() ==> (#[trigger] r@[k]).screen_pos.y + camera.top_y < y,
            forall|k: int, m: int|
                0 <= k < m < r@.len() ==> (#[trigger] r@[k]).screen_pos != (
                #[trigger] r@[m]).screen_pos,
            forall|gx: int, gy: int|
                camera.left_x <= gx < camera.right_x && camera.top_y <= gy < y
                    && #[trigger] in_bounds_xy(gx, gy) && (sees(
                    view_of(store.slots@, p as int),
                    Point { x: gx as i32, y: gy as i32 },
                ) || map.revealed_tiles@[idx_xy(gx, gy)] == Revealed::Seen
                    || map.revealed_tiles@[idx_xy(gx, gy)] == Revealed::FromMap) ==> exists|k: int|
                    0 <= k < r@.len() && (#[trigger] r@[k].screen_pos) == (Point {
                        x: (gx - camera.left_x) as i32,
                        y: (gy - camera.top_y) as i32,
                    }),
        decreases camera.bottom_y - y,
    {
        let mut x = camera.left_x;
        while x < camera.right_x
            invariant
                map.wf(),
                wf_world(store.slots@),
                p as int == player_slot(store.slots@),
                data(store.slots@, p as int).fov is Some,
                -1000 <= camera.left_x <= 1000,
                -1000 <= camera.right_x <= 1000,
                -1000 <= camera.top_y <= 1000,
                -1000 <= camera.bottom_y <= 1000,
                camera.top_y <= y < camera.bottom_y,
                camera.left_x <= x,
                data(store.slots@, p as int).fov is Some,
                forall|k: int|
                    0 <= k < r@.len() ==> {
                        let d = #[trigger] r@[k];
                        let gx = d.screen_pos.x + camera.left_x;
                        let gy = d.screen_pos.y + camera.top_y;
                        &&& 0 <= d.screen_pos.x < camera.right_x - camera.left_x
                        &&& 0 <= d.screen_pos.y < camera.bottom_y - camera.top_y
                        &&& in_bounds_xy(gx as int, gy as int)
                        &&& d.glyph == spec_theme_glyph(
                            theme,
                            map.tiles@[idx_xy(gx as int, gy as int)],
                        )
                        &&& (sees(
                            view_of(store.slots@, p as int),
                            Point { x: gx as i32, y: gy as i32 },
                        ) || map.revealed_tiles@[idx_xy(gx as int, gy as int)] == Revealed::Seen
                            || map.revealed_tiles@[idx_xy(gx as int, gy as int)]
                            == Revealed::FromMap)
                    },
                forall|k: int|
                    0 <= k < r@.len() ==> (#[trigger] r@[k]).screen_pos.y + camera.top_y < y || (
                    r@[k].screen_pos.y + camera.top_y == y && r@[k].screen_pos.x + camera.left_x
                        < x),
                forall|k: int, m: int|
                    0 <= k < m < r@.len() ==> (#[trigger] r@[k]).screen_pos != (
                    #[trigger] r@[m]).screen_pos,
                forall|gx: int, gy: int|
                    camera.left_x <= gx < camera.right_x && camera.top_y <= gy < y
                        && #[trigger] in_bounds_xy(gx, gy) && (sees(
                        view_of(store.slots@, p as int),
                        Point { x: gx as i32, y: gy as i32 },
                    ) || map.revealed_tiles@[idx_xy(gx, gy)] == Revealed::Seen
                        || map.revealed_tiles@[idx_xy(gx, gy)] == Revealed::FromMap) ==> exists|
                        k: int,
                    |
                        0 <= k < r@.len() && (#[trigger] r@[k].screen_pos) == (Point {
                            x: (gx - camera.left_x) as i32,
                            y: (gy - camera.top_y) as i32,
                        }),
                forall|gx: int|
                    camera.left_x <= gx < x && #[trigger] in_bounds_xy(gx, y as int) && (sees(
                        view_of(store.slots@, p as int),
                        Point { x: gx as i32, y: y },
                    ) || map.revealed_tiles@[idx_xy(gx, y as int)] == Revealed::Seen
                        || map.revealed_tiles@[idx_xy(gx, y as int)] == Revealed::FromMap)
                        ==> exists|k: int|
                        0 <= k < r@.len() && (#[trigger] r@[k].screen_pos) == (Point {
                            x: (gx - camera.left_x) as i32,
                            y: (y - camera.top_y) as i32,
                        }),
                forall|gx: int, gy: int|
                    camera.left_x <= gx < camera.right_x && camera.top_y <= gy < y
                        && #[trigger] in_bounds_xy(gx, gy) && (sees(
                        view_of(store.slots@, p as int),
                        Point { x: gx as i32, y: gy as i32 },
                    ) || map.revealed_tiles@[idx_xy(gx, gy)] == Revealed::Seen
                        || map.revealed_tiles@[idx_xy(gx, gy)] == Revealed::FromMap) ==> exists|
                        k: int,
                    |
                        0 <= k < r@.len() && (#[trigger] r@[k].screen_pos) == (Point {
                            x: (gx - camera.left_x) as i32,
                            y: (gy - camera.top_y) as i32,
                        }),
            decreases camera.right_x - x,
        {
            let pt = Point { x, y };
            if GameMap::in_bounds(pt) {
                proof {
                    lemma_point_of_idx_of(x as int, y as int);
                }
                let idx = GameMap::map_idx(pt);
                let visible = {
                    let d = store.slots[p].as_ref().unwrap();
                    match &d.fov {
                        Some(f) => view_contains(&f.visible_tiles, pt),
                        None => false,
                    }
                };
                let rev = map.revealed_tiles[idx];
                if visible || rev == Revealed::Seen || rev == Revealed::FromMap {
                    let shade = if visible {
                        let dx = (pt.x as i64) - (ppos.x as i64);
                        let dy = (pt.y as i64) - (ppos.y as i64);
                        proof {
                            assert(0 <= dx * dx <= 0x1_0000_0000_0000_0000i128 && 0 <= dy * dy
                                <= 0x1_0000_0000_0000_0000i128) by (nonlinear_arith)
                                requires
                                    -0x1_0000_0000 <= dx <= 0x1_0000_0000,
                                    -0x1_0000_0000 <= dy <= 0x1_0000_0000,
                            ;
                        }
                        let d2 = (dx as i128) * (dx as i128) + (dy as i128) * (dy as i128);
                        let d2c: i64 = if d2 > i64::MAX as i128 {
                            i64::MAX
                        } else {
                            d2 as i64
                        };
                        Shade::Visible { dist2: d2c, radius: pradius }
                    } else if rev == Revealed::Seen {
                        Shade::Remembered
                    } else {
                        Shade::FromMap
                    };
                    let glyph = theme_glyph(theme, map.tiles[idx]);
                    let draw = TileDraw {
                        screen_pos: Point { x: x - camera.left_x, y: y - camera.top_y },
                        glyph,
                        shade,
                    };
                    proof {
                        if visible {
                            assert(sees(view_of(store.slots@, p as int), pt));
                        }
                    }
                    let ghost r0 = r@;
                    r.push(draw);
                    proof {
                        assert(r@[r@.len() - 1] == draw);
                        assert forall|gx: int, gy: int|
                            camera.left_x <= gx < camera.right_x && camera.top_y <= gy < y
                                && #[trigger] in_bounds_xy(gx, gy) && (sees(
                                view_of(store.slots@, p as int),
                                Point { x: gx as i32, y: gy as i32 },
                            ) || map.revealed_tiles@[idx_xy(gx, gy)] == Revealed::Seen
                                || map.revealed_tiles@[idx_xy(gx, gy)] == Revealed::FromMap)
                            implies exists|k: int|
                            0 <= k < r@.len() && (#[trigger] r@[k].screen_pos) == (Point {
                                x: (gx - camera.left_x) as i32,
                                y: (gy - camera.top_y) as i32,
                            }) by {
                            lemma_draws_extend(
                                r0,
                                r@,
                                Point { x: (gx - camera.left_x) as i32, y: (gy - camera.top_y) as i32 },
                            );
                        }
                        assert forall|gx: int|
                            camera.left_x <= gx < x + 1 && #[trigger] in_bounds_xy(gx, y as int)
                                && (sees(
                                view_of(store.slots@, p as int),
                                Point { x: gx as i32, y: y },
                            ) || map.revealed_tiles@[idx_xy(gx, y as int)] == Revealed::Seen
                                || map.revealed_tiles@[idx_xy(gx, y as int)] == Revealed::FromMap)
                            implies exists|k: int|
                            0 <= k < r@.len() && (#[trigger] r@[k].screen_pos) == (Point {
                                x: (gx - camera.left_x) as i32,
                                y: (y - camera.top_y) as i32,
                            }) by {
                            if gx < x {
                                lemma_draws_extend(
                                    r0,
                                    r@,
                                    Point {
                                        x: (gx - camera.left_x) as i32,
                                        y: (y - camera.top_y) as i32,
                                    },
                                );
                            } else {
                                assert(r@[r@.len() - 1].screen_pos == (Point {
                                    x: (gx - camera.left_x) as i32,
                                    y: (y - camera.top_y) as i32,
                                }));
                            }
                        }
                    }
                }
            }
            x += 1;
        }
        proof {
            assert forall|gx: int, gy: int|
                camera.left_x <= gx < camera.right_x && camera.top_y <= gy < y + 1
                    && #[trigger] in_bounds_xy(gx, gy) && (sees(
                    view_of(store.slots@, p as int),
                    Point { x: gx as i32, y: gy as i32 },
                ) || map.revealed_tiles@[idx_xy(gx, gy)] == Revealed::Seen
                    || map.revealed_tiles@[idx_xy(gx, gy)] == Revealed::FromMap) implies exists|
                    k: int,
                |
                    0 <= k < r@.len() && (#[trigger] r@[k].screen_pos) == (Point {
                        x: (gx - camera.left_x) as i32,
                        y: (gy - camera.top_y) as i32,
                    }) by {
                if gy == y as int {
                    assert(camera.left_x <= gx < x);
                }
            }
        }
        y += 1;
    }
    r
}

/// A drawn cell stays drawn when the batch grows.
proof fn lemma_draws_extend(r0: Seq<TileDraw>, r1: Seq<TileDraw>, sp: Point)
    requires
        exists|k: int| 0 <= k < r0.len() && (#[trigger] r0[k].screen_pos) == sp,
        r0.len() <= r1.len(),
        forall|k: int| 0 <= k < r0.len() ==> r1[k] == r0[k],
    ensures
        exists|k: int| 0 <= k < r1.len() && (#[trigger] r1[k].screen_pos) == sp,
{
    let k = choose|k: int| 0 <= k < r0.len() && (#[trigger] r0[k].screen_pos) == sp;
    assert(r1[k].screen_pos == sp);
}

/// Whether the view list holds `p`, phrased against `sees`.
pub fn view_contains(v: &Vec<Point>, p: Point) -> (r: bool)
    ensures
        r == sees(v@, p),
{
    let mut k: usize = 0;
    while k < v.len()
        invariant
            k <= v@.len(),
            forall|m: int| 0 <= m < k ==> v@[m] != p,
        decreases v@.len() - k,
    {
        if v[k].x == p.x && v[k].y == p.y {
            proof {
                assert(v@[k as int] == p);
            }
            return true;
        }
        k += 1;
    }
    false
}

} // verus!
