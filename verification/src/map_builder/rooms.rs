use vstd::prelude::*;
use crate::map::{boundary_walls, idx_of, idx_xy, tile_enterable, GameMap, TileType};
use crate::map_builder::prefab::apply_prefab;
use crate::map_builder::{
    builder_ok, carve_room, fill, fill_unreachable, find_most_distant, horizontal_tunnel,
    random_theme, spawn_monsters, vertical_tunnel, MapBuilder, Rect,
};
use crate::point::Point;
use crate::rng::rng_range;
use crate::{NUM_TILES, SCREEN_HEIGHT, SCREEN_WIDTH};

verus! {

/// Carves randomly placed rectangular rooms joined by L-shaped
/// corridors.
pub struct RoomsArchitect {}

/// How many rooms the architect aims for.
pub const NUM_ROOMS: usize = 20;

impl RoomsArchitect {
    /// Build a level: fill with wall, carve rooms and corridors, stamp
    /// the optional vault, prune what cannot be walked to from the
    /// first room's center, and pick the spawn cells and the farthest
    /// cell.
    pub fn new(rng: &mut bracket_lib::random::RandomNumberGenerator) -> (mb: MapBuilder)
        ensures
            builder_ok(mb),
    {
        let mut map = GameMap::new();
        fill(&mut map, TileType::Wall);
        let rooms = build_random_rooms(&mut map, rng);
        build_corridors(&mut map, &rooms, rng);
        let player_start = rooms[0].center();
        proof {
            crate::map::lemma_point_of_idx_of(player_start.x as int, player_start.y as int);
        }
        apply_prefab(&mut map, player_start, rng);
        fill_unreachable(&mut map, player_start);
        let amulet_start = find_most_distant(&map, player_start);
        let entity_spawns = spawn_monsters(&map, player_start, rng);
        proof {
            assert(map.revealed_tiles@ =~= Seq::new(
                crate::NUM_TILES as nat,
                |i: int| crate::map::Revealed::Unrevealable,
            ));
        }
        map.update_revealability();
        MapBuilder { map, rooms, entity_spawns, player_start, amulet_start, theme: random_theme(rng) }
    }
}

/// Place up to `NUM_ROOMS` random interior rooms that overlap nothing,
/// carving each to floor; at least one room is always placed.
fn build_random_rooms(
    map: &mut GameMap,
    rng: &mut bracket_lib::random::RandomNumberGenerator,
) -> (rooms: Vec<Rect>)
    requires
        old(map).wf(),
    ensures
        final(map).wf(),
        final(map).revealed_tiles@ == old(map).revealed_tiles@,
        final(map).dijkstra_maps@ == old(map).dijkstra_maps@,
        boundary_walls(old(map).tiles@) ==> boundary_walls(final(map).tiles@),
        rooms@.len() >= 1,
        forall|k: int| 0 <= k < rooms@.len() ==> (#[trigger] rooms@[k]).interior(),
        forall|k: int, x: int, y: int|
            0 <= k < rooms@.len() && (#[trigger] rooms@[k]).spec_contains(x, y) ==> final(map).tiles@[#[trigger] idx_xy(x, y)] == TileType::Floor,
{
    let mut rooms: Vec<Rect> = Vec::new();
    let mut attempts: usize = 0;
    while attempts < 400 && rooms.len() < NUM_ROOMS
        invariant
            map.wf(),
            map.revealed_tiles@ == old(map).revealed_tiles@,
            map.dijkstra_maps@ == old(map).dijkstra_maps@,
            boundary_walls(old(map).tiles@) ==> boundary_walls(map.tiles@),
            attempts <= 400,
            attempts > 0 ==> rooms@.len() >= 1,
            forall|k: int| 0 <= k < rooms@.len() ==> (#[trigger] rooms@[k]).interior(),
            forall|k: int, x: int, y: int|
                0 <= k < rooms@.len() && (#[trigger] rooms@[k]).spec_contains(x, y)
                    ==> map.tiles@[#[trigger] idx_xy(x, y)] == TileType::Floor,
        decreases 400 - attempts,
    {
        let x1 = rng_range(rng, 1, SCREEN_WIDTH - 10);
        let y1 = rng_range(rng, 1, SCREEN_HEIGHT - 10);
        let w = rng_range(rng, 2, 10);
        let h = rng_range(rng, 2, 10);
        let room = Rect { x1, y1, x2: x1 + w, y2: y1 + h };
        let mut overlap = false;
        let mut k: usize = 0;
        while k < rooms.len()
            invariant
                k <= rooms@.len(),
                rooms@.len() == 0 ==> !overlap,
            decreases rooms@.len() - k,
        {
            if room.intersect(&rooms[k]) {
                overlap = true;
            }
            k += 1;
        }
        if !overlap {
            carve_room(map, room);
            proof {
                assert forall|kk: int, x: int, y: int|
                    0 <= kk < rooms@.len() + 1 && (#[trigger] rooms@.push(room)[kk]).spec_contains(
                        x,
                        y,
                    ) implies map.tiles@[#[trigger] idx_xy(x, y)] == TileType::Floor by {
                    if kk < rooms@.len() {
                        assert(rooms@.push(room)[kk] == rooms@[kk]);
                        assert(rooms@[kk].interior());
                        if !room.spec_contains(x, y) {
                            crate::map::lemma_point_of_idx_of(x, y);
                        }
                    } else {
                        assert(rooms@.push(room)[kk] == room);
                    }
                }
            }
            rooms.push(room);
        }
        attempts += 1;
    }
    rooms
}

/// Join each pair of successive rooms' centers with one L-shaped
/// corridor, its bend chosen at random.
fn build_corridors(
    map: &mut GameMap,
    rooms: &Vec<Rect>,
    rng: &mut bracket_lib::random::RandomNumberGenerator,
)
    requires
        old(map).wf(),
        forall|k: int| 0 <= k < rooms@.len() ==> (#[trigger] rooms@[k]).interior(),
    ensures
        final(map).wf(),
        final(map).revealed_tiles@ == old(map).revealed_tiles@,
        final(map).dijkstra_maps@ == old(map).dijkstra_maps@,
        boundary_walls(old(map).tiles@) ==> boundary_walls(final(map).tiles@),
        forall|i: int|
            0 <= i < NUM_TILES ==> final(map).tiles@[i] == old(map).tiles@[i] || final(map).tiles@[i] == TileType::Floor,
{
    let mut k: usize = 1;
    while k < rooms.len()
        invariant
            map.wf(),
            map.revealed_tiles@ == old(map).revealed_tiles@,
            map.dijkstra_maps@ == old(map).dijkstra_maps@,
            boundary_walls(old(map).tiles@) ==> boundary_walls(map.tiles@),
            forall|j: int| 0 <= j < rooms@.len() ==> (#[trigger] rooms@[j]).interior(),
            1 <= k,
            forall|i: int|
                0 <= i < NUM_TILES ==> map.tiles@[i] == old(map).tiles@[i] || map.tiles@[i]
                    == TileType::Floor,
        decreases rooms@.len() - k,
    {
        let prev = rooms[k - 1].center();
        let new = rooms[k].center();
        if rng_range(rng, 0, 2) == 1 {
            horizontal_tunnel(map, prev.x, new.x, prev.y);
            vertical_tunnel(map, prev.y, new.y, new.x);
        } else {
            vertical_tunnel(map, prev.y, new.y, prev.x);
            horizontal_tunnel(map, prev.x, new.x, new.y);
        }
        k += 1;
    }
}

} // verus!
