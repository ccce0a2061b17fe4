use vstd::prelude::*;
use crate::map::{boundary_walls, idx_of, idx_xy, in_bounds_xy, lemma_point_of_idx_of, GameMap, TileType};
use crate::point::Point;
use crate::rng::rng_range;
use crate::{NUM_TILES, SCREEN_HEIGHT, SCREEN_WIDTH};

verus! {

/// Width of the stamped vault.
pub const PREFAB_WIDTH: i32 = 12;

/// Height of the stamped vault.
pub const PREFAB_HEIGHT: i32 = 11;

/// Try a bounded number of times to stamp a fixed small vault — a
/// walled rectangle with a gap in its top and bottom wall — into the
/// map's interior, away from the player start; give up silently when no
/// placement fits. Only cells inside the stamped region change.
pub fn apply_prefab(
    map: &mut GameMap,
    player_start: Point,
    rng: &mut bracket_lib::random::RandomNumberGenerator,
)
    requires
        old(map).wf(),
    ensures
        final(map).wf(),
        final(map).revealed_tiles@ == old(map).revealed_tiles@,
        final(map).dijkstra_maps@ == old(map).dijkstra_maps@,
        boundary_walls(old(map).tiles@) ==> boundary_walls(final(map).tiles@),
        in_bounds_xy(player_start.x as int, player_start.y as int) ==> final(map).tiles@[idx_of(
            player_start,
        )] == old(map).tiles@[idx_of(player_start)],
{
    let mut tries: usize = 0;
    while tries < 10
        invariant
            map.wf(),
            map.revealed_tiles@ == old(map).revealed_tiles@,
            map.dijkstra_maps@ == old(map).dijkstra_maps@,
            boundary_walls(old(map).tiles@) ==> boundary_walls(map.tiles@),
            in_bounds_xy(player_start.x as int, player_start.y as int) ==> map.tiles@[idx_of(
                player_start,
            )] == old(map).tiles@[idx_of(player_start)],
            tries <= 10,
        decreases 10 - tries,
    {
        let x0 = rng_range(rng, 1, SCREEN_WIDTH - PREFAB_WIDTH - 1);
        let y0 = rng_range(rng, 1, SCREEN_HEIGHT - PREFAB_HEIGHT - 1);
        let inside_region = player_start.x >= x0 && player_start.x < x0 + PREFAB_WIDTH
            && player_start.y >= y0 && player_start.y < y0 + PREFAB_HEIGHT;
        if !inside_region {
            let ghost pre = map.tiles@;
            let mut dy: i32 = 0;
            while dy < PREFAB_HEIGHT
                invariant
                    map.wf(),
                    map.revealed_tiles@ == old(map).revealed_tiles@,
                    map.dijkstra_maps@ == old(map).dijkstra_maps@,
                    1 <= x0 < SCREEN_WIDTH - PREFAB_WIDTH - 1 + 1,
                    1 <= y0 < SCREEN_HEIGHT - PREFAB_HEIGHT - 1 + 1,
                    0 <= dy <= PREFAB_HEIGHT,
                    boundary_walls(pre) ==> boundary_walls(map.tiles@),
                    forall|i: int|
                        0 <= i < NUM_TILES && !(x0 <= crate::map::x_of(i) < x0 + PREFAB_WIDTH && y0
                            <= crate::map::y_of(i) < y0 + PREFAB_HEIGHT) ==> map.tiles@[i] == pre[i],
                decreases PREFAB_HEIGHT - dy,
            {
                let mut dx: i32 = 0;
                while dx < PREFAB_WIDTH
                    invariant
                        map.wf(),
                        map.revealed_tiles@ == old(map).revealed_tiles@,
                        map.dijkstra_maps@ == old(map).dijkstra_maps@,
                        1 <= x0 < SCREEN_WIDTH - PREFAB_WIDTH - 1 + 1,
                        1 <= y0 < SCREEN_HEIGHT - PREFAB_HEIGHT - 1 + 1,
                        0 <= dy < PREFAB_HEIGHT,
                        0 <= dx <= PREFAB_WIDTH,
                        boundary_walls(pre) ==> boundary_walls(map.tiles@),
                        forall|i: int|
                            0 <= i < NUM_TILES && !(x0 <= crate::map::x_of(i) < x0 + PREFAB_WIDTH
                                && y0 <= crate::map::y_of(i) < y0 + PREFAB_HEIGHT) ==> map.tiles@[i]
                                == pre[i],
                    decreases PREFAB_WIDTH - dx,
                {
                    let x = x0 + dx;
                    let y = y0 + dy;
                    let on_border = dx == 0 || dx == PREFAB_WIDTH - 1 || dy == 0 || dy
                        == PREFAB_HEIGHT - 1;
                    let on_gap = dx == PREFAB_WIDTH / 2 && (dy == 0 || dy == PREFAB_HEIGHT - 1);
                    let tile = if on_border && !on_gap {
                        TileType::Wall
                    } else {
                        TileType::Floor
                    };
                    proof {
                        lemma_point_of_idx_of(x as int, y as int);
                    }
                    let idx = GameMap::map_idx(Point { x, y });
                    map.tiles.set(idx, tile);
                    proof {
                        if boundary_walls(pre) {
                            assert forall|xx: int, yy: int|
                                in_bounds_xy(xx, yy) && (xx == 0 || xx == SCREEN_WIDTH - 1 || yy
                                    == 0 || yy == SCREEN_HEIGHT - 1) implies #[trigger] map.tiles@[idx_xy(
                                xx,
                                yy,
                            )] == TileType::Wall by {
                                lemma_point_of_idx_of(xx, yy);
                            }
                        }
                        assert forall|i: int|
                            0 <= i < NUM_TILES && !(x0 <= crate::map::x_of(i) < x0 + PREFAB_WIDTH
                                && y0 <= crate::map::y_of(i) < y0 + PREFAB_HEIGHT) implies map.tiles@[i]
                            == pre[i] by {
                            crate::map::lemma_idx_of_point_of(i);
                        }
                    }
                    dx += 1;
                }
                dy += 1;
            }
            proof {
                if in_bounds_xy(player_start.x as int, player_start.y as int) {
                    lemma_point_of_idx_of(player_start.x as int, player_start.y as int);
                    assert(map.tiles@[idx_of(player_start)] == pre[idx_of(player_start)]);
                }
            }
            return ;
        }
        tries += 1;
    }
}

} // verus!
