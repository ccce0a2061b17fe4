use vstd::prelude::*;
use crate::fov::{field_of_view, sees, visible_ok, MAX_FOV_RADIUS};
use crate::map::{idx_of, lemma_idx_of_point_of, point_of, GameMap, Revealed};
use crate::point::Point;
use crate::store::{
    data, lemma_wf_transfer_except_fov, live, player_at, same_except_fov, wf_world, EntityData,
    EntityStore,
};
use crate::NUM_TILES;

verus! {

/// The radius the recomputation actually uses: held to the grid's
/// supported range.
pub open spec fn clamped_radius(r: int) -> int {
    if r < 0 {
        0
    } else if r > MAX_FOV_RADIUS {
        MAX_FOV_RADIUS as int
    } else {
        r
    }
}

/// The view component of slot `i` in the final store, for contracts that
/// speak of what an entity now sees.
pub open spec fn view_of(slots: Seq<Option<EntityData>>, i: int) -> Seq<Point> {
    data(slots, i).fov->0.visible_tiles@
}

/// Recompute every dirty field of view from its owner's position and
/// clear the dirty mark; everything else of the store stays as it was.
/// When the player's view is recomputed, every unrevealed cell in the
/// new view becomes seen. A cell once seen stays seen, and a cell can
/// only become seen by standing in the player's new view.
pub fn fov(store: &mut EntityStore, map: &mut GameMap)
    requires
        old(map).wf(),
        crate::store::positions_on_grid(old(store).slots@),
    ensures
        final(map).wf(),
        final(map).tiles@ == old(map).tiles@,
        final(map).dijkstra_maps@ == old(map).dijkstra_maps@,
        same_except_fov(old(store).slots@, final(store).slots@),
        wf_world(old(store).slots@) ==> wf_world(final(store).slots@),
        // Views: exactly the dirty ones with a position are recomputed
        // and cleaned; every other view stays as it was.
        forall|i: int|
            #[trigger] live(final(store).slots@, i) ==> if data(old(store).slots@, i).fov is Some
                && data(old(store).slots@, i).fov->0.is_dirty && data(old(store).slots@, i).pos
                is Some {
                &&& data(final(store).slots@, i).fov is Some
                &&& !data(final(store).slots@, i).fov->0.is_dirty
                &&& data(final(store).slots@, i).fov->0.radius == data(old(store).slots@, i).fov->0.radius
                &&& sees(view_of(final(store).slots@, i), data(old(store).slots@, i).pos->0)
                &&& (forall|p: Point|
                    #[trigger] sees(view_of(final(store).slots@, i), p) <==> visible_ok(
                        old(map).tiles@,
                        data(old(store).slots@, i).pos->0,
                        clamped_radius(data(old(store).slots@, i).fov->0.radius as int),
                        p,
                    ))
                &&& (data(old(store).slots@, i).fov->0.radius == 0 ==> view_of(
                    final(store).slots@,
                    i,
                ) == seq![data(old(store).slots@, i).pos->0])
                &&& forall|k: int|
                    0 <= k < view_of(final(store).slots@, i).len()
                        ==> crate::map::in_bounds_xy(
                        (#[trigger] view_of(final(store).slots@, i)[k]).x as int,
                        view_of(final(store).slots@, i)[k].y as int,
                    )
            } else {
                data(final(store).slots@, i).fov == data(old(store).slots@, i).fov
            },
        // Revelation: seen is absorbing; nothing else than unrevealed
        // cells in the player's fresh view is promoted.
        forall|c: int|
            0 <= c < NUM_TILES ==> final(map).revealed_tiles@[c] == old(map).revealed_tiles@[c]
                || (old(map).revealed_tiles@[c] == Revealed::Unrevealed && final(map).revealed_tiles@[c] == Revealed::Seen),
        forall|c: int|
            0 <= c < NUM_TILES && old(map).revealed_tiles@[c] == Revealed::Seen ==> final(map).revealed_tiles@[c] == Revealed::Seen,
        forall|c: int|
            0 <= c < NUM_TILES && final(map).revealed_tiles@[c] == Revealed::Seen && old(map).revealed_tiles@[c] != Revealed::Seen ==> exists|p: int|
                player_at(final(store).slots@, p) && sees(view_of(final(store).slots@, p), point_of(c)),
{
    let ghost slots0 = store.slots@;
    let mut i: usize = 0;
    while i < store.slots.len()
        invariant
            map.wf(),
            map.tiles@ == old(map).tiles@,
            map.dijkstra_maps@ == old(map).dijkstra_maps@,
            i <= store.slots@.len(),
            store.slots@.len() == slots0.len(),
            crate::store::positions_on_grid(slots0),
            same_except_fov(slots0, store.slots@),
            forall|j: int|
                0 <= j < i && #[trigger] live(store.slots@, j) ==> if data(slots0, j).fov is Some
                    && data(slots0, j).fov->0.is_dirty && data(slots0, j).pos is Some {
                    &&& data(store.slots@, j).fov is Some
                    &&& !data(store.slots@, j).fov->0.is_dirty
                    &&& data(store.slots@, j).fov->0.radius == data(slots0, j).fov->0.radius
                    &&& sees(view_of(store.slots@, j), data(slots0, j).pos->0)
                    &&& (forall|p: Point|
                        #[trigger] sees(view_of(store.slots@, j), p) <==> visible_ok(
                            old(map).tiles@,
                            data(slots0, j).pos->0,
                            clamped_radius(data(slots0, j).fov->0.radius as int),
                            p,
                        ))
                    &&& (data(slots0, j).fov->0.radius == 0 ==> view_of(store.slots@, j) == seq![
                        data(slots0, j).pos->0,
                    ])
                    &&& forall|k: int|
                        0 <= k < view_of(store.slots@, j).len() ==> crate::map::in_bounds_xy(
                            (#[trigger] view_of(store.slots@, j)[k]).x as int,
                            view_of(store.slots@, j)[k].y as int,
                        )
                } else {
                    data(store.slots@, j).fov == data(slots0, j).fov
                },
            forall|j: int|
                i <= j < slots0.len() && #[trigger] live(store.slots@, j) ==> data(
                    store.slots@,
                    j,
                ).fov == data(slots0, j).fov,
            forall|c: int|
                0 <= c < NUM_TILES ==> map.revealed_tiles@[c] == old(map).revealed_tiles@[c] || (old(map).revealed_tiles@[c] == Revealed::Unrevealed && map.revealed_tiles@[c]
                    == Revealed::Seen),
            forall|c: int|
                0 <= c < NUM_TILES && map.revealed_tiles@[c] == Revealed::Seen && old(map).revealed_tiles@[c] != Revealed::Seen ==> exists|p: int|
                    0 <= p < i && player_at(store.slots@, p) && sees(
                        view_of(store.slots@, p),
                        point_of(c),
                    ),
        decreases store.slots@.len() - i,
    {
        let ghost pre = store.slots@;
        let ghost rev_iter0 = map.revealed_tiles@;
        let (dirty, pos, radius, is_player) = match store.slots[i].as_ref() {
            Some(d) => match (&d.fov, &d.pos) {
                (Some(f), Some(p)) => (f.is_dirty, *p, f.radius, d.player.is_some()),
                _ => (false, Point { x: 0, y: 0 }, 0, false),
            },
            None => (false, Point { x: 0, y: 0 }, 0, false),
        };
        if dirty {
            proof {
                assert(live(store.slots@, i as int));
                assert(live(slots0, i as int));
                assert(data(store.slots@, i as int).pos == data(slots0, i as int).pos);
                assert(data(slots0, i as int).pos is Some);
            }
            let clamped = if radius < 0 {
                0
            } else if radius > MAX_FOV_RADIUS {
                MAX_FOV_RADIUS
            } else {
                radius
            };
            let view = field_of_view(map, pos, clamped);
            let view_copy = copy_points(&view);
            {
                let slot = &mut store.slots[i];
                if let Some(d) = slot.as_mut() {
                    d.fov = Some(
                        crate::components::FieldOfView {
                            visible_tiles: view,
                            radius,
                            is_dirty: false,
                        },
                    );
                }
            }
            proof {
                assert(live(store.slots@, i as int));
                assert(view_of(store.slots@, i as int) == view_copy@);
                assert(sees(view_of(store.slots@, i as int), pos));
                assert forall|j: int|
                    #[trigger] live(store.slots@, j) && j != i as int implies data(store.slots@, j)
                    == data(pre, j) by {
                    assert(live(pre, j));
                }
            }
            if is_player {
                let ghost rev_pre = map.revealed_tiles@;
                let ghost slots_mid = store.slots@;
                let mut k: usize = 0;
                while k < view_copy.len()
                    invariant
                        store.slots@ == slots_mid,
                        map.wf(),
                        map.tiles@ == old(map).tiles@,
                        map.dijkstra_maps@ == old(map).dijkstra_maps@,
                        k <= view_copy@.len(),
                        view_copy@ == view_of(store.slots@, i as int),
                        player_at(store.slots@, i as int),
                        forall|m: int|
                            0 <= m < view_copy@.len() ==> crate::map::in_bounds_xy(
                                (#[trigger] view_copy@[m]).x as int,
                                view_copy@[m].y as int,
                            ),
                        forall|c: int|
                            0 <= c < NUM_TILES ==> map.revealed_tiles@[c] == rev_pre[c] || (
                            rev_pre[c] == Revealed::Unrevealed && map.revealed_tiles@[c]
                                == Revealed::Seen && sees(view_copy@, point_of(c))),
                    decreases view_copy@.len() - k,
                {
                    let q = view_copy[k];
                    let idx = GameMap::map_idx(q);
                    if map.revealed_tiles[idx] == Revealed::Unrevealed {
                        map.revealed_tiles.set(idx, Revealed::Seen);
                        proof {
                            lemma_idx_of_point_of(idx as int);
                            assert(point_of(idx as int) == q);
                            assert(view_copy@[k as int] == q);
                            assert(sees(view_copy@, q));
                        }
                    }
                    k += 1;
                }
            }
            proof {
                assert forall|j: int| 0 <= j < i + 1 && #[trigger] live(store.slots@, j) implies if data(
                    slots0,
                    j,
                ).fov is Some && data(slots0, j).fov->0.is_dirty && data(slots0, j).pos is Some {
                    &&& data(store.slots@, j).fov is Some
                    &&& !data(store.slots@, j).fov->0.is_dirty
                    &&& data(store.slots@, j).fov->0.radius == data(slots0, j).fov->0.radius
                    &&& sees(view_of(store.slots@, j), data(slots0, j).pos->0)
                    &&& (forall|p: Point|
                        #[trigger] sees(view_of(store.slots@, j), p) <==> visible_ok(
                            old(map).tiles@,
                            data(slots0, j).pos->0,
                            clamped_radius(data(slots0, j).fov->0.radius as int),
                            p,
                        ))
                    &&& (data(slots0, j).fov->0.radius == 0 ==> view_of(store.slots@, j) == seq![
                        data(slots0, j).pos->0,
                    ])
                    &&& forall|k: int|
                        0 <= k < view_of(store.slots@, j).len() ==> crate::map::in_bounds_xy(
                            (#[trigger] view_of(store.slots@, j)[k]).x as int,
                            view_of(store.slots@, j)[k].y as int,
                        )
                } else {
                    data(store.slots@, j).fov == data(slots0, j).fov
                } by {
                    assert(live(pre, j));
                    if j != i as int {
                        assert(data(store.slots@, j) == data(pre, j));
                    } else {
                        if data(slots0, j).fov->0.radius == 0 {
                            assert(view_of(store.slots@, j) =~= seq![data(slots0, j).pos->0]);
                        }
                        assert(clamped as int == clamped_radius(
                            data(slots0, j).fov->0.radius as int,
                        ));
                    }
                }
                assert forall|j: int|
                    i + 1 <= j < slots0.len() && #[trigger] live(store.slots@, j) implies data(
                    store.slots@,
                    j,
                ).fov == data(slots0, j).fov by {
                    assert(live(pre, j));
                    assert(data(store.slots@, j) == data(pre, j));
                }
            }
        } else {
            proof {
                assert(data(store.slots@, i as int) == data(pre, i as int));
                if live(store.slots@, i as int) {
                    assert(live(slots0, i as int));
                    assert(data(pre, i as int).fov == data(slots0, i as int).fov);
                    assert(data(pre, i as int).pos == data(slots0, i as int).pos);
                    assert(!(data(slots0, i as int).fov is Some && data(
                        slots0,
                        i as int,
                    ).fov->0.is_dirty && data(slots0, i as int).pos is Some));
                }
            }
        }
        proof {
            assert forall|c: int|
                0 <= c < NUM_TILES && map.revealed_tiles@[c] == Revealed::Seen && old(map).revealed_tiles@[c] != Revealed::Seen implies exists|p: int|
                0 <= p < i + 1 && player_at(store.slots@, p) && sees(
                    view_of(store.slots@, p),
                    point_of(c),
                ) by {
                if rev_iter0[c] == Revealed::Seen {
                    let p = choose|p: int|
                        0 <= p < i && player_at(pre, p) && sees(view_of(pre, p), point_of(c));
                    assert(live(pre, p));
                    if p != i as int {
                        assert(data(store.slots@, p) == data(pre, p));
                        assert(player_at(store.slots@, p) && sees(view_of(store.slots@, p), point_of(c)));
                    } else {
                        assert(player_at(store.slots@, p) && sees(view_of(store.slots@, p), point_of(c)));
                    }
                } else {
                    assert(player_at(store.slots@, i as int) && sees(
                        view_of(store.slots@, i as int),
                        point_of(c),
                    ));
                }
            }
        }
        i += 1;
    }
    proof {
        if wf_world(slots0) {
            lemma_wf_transfer_except_fov(slots0, store.slots@);
        }
    }
}

/// An exact copy of a list of points.
fn copy_points(v: &Vec<Point>) -> (r: Vec<Point>)
    ensures
        r@ == v@,
{
    let mut r: Vec<Point> = Vec::new();
    let mut k: usize = 0;
    while k < v.len()
        invariant
            k <= v@.len(),
            r@ == v@.take(k as int),
        decreases v@.len() - k,
    {
        r.push(v[k]);
        proof {
            assert(r@ =~= v@.take(k as int + 1));
        }
        k += 1;
    }
    proof {
        assert(r@ =~= v@);
    }
    r
}

} // verus!
