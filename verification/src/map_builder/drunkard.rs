use vstd::prelude::*;
use crate::map::{boundary_walls, idx_xy, lemma_point_of_idx_of, tile_enterable, GameMap, TileType};
use crate::map_builder::{
    builder_ok, carve, fill, fill_unreachable, find_most_distant, random_theme, spawn_monsters,
    MapBuilder,
};
use crate::point::Point;
use crate::rng::rng_range;
use crate::{NUM_TILES, SCREEN_HEIGHT, SCREEN_WIDTH};

verus! {

/// Carves caves by repeatedly sending a drunken walker through the
/// rock.
pub struct DrunkardsWalkArchitect {}

/// Steps a single walk may take before it gives up.
pub const STAGGER_DISTANCE: u32 = 400;

/// Floor cells the architect aims for: half the grid.
pub const DESIRED_FLOOR: usize = 2000;

/// Walks the architect launches before settling for what it has.
pub const MAX_LAUNCHES: u32 = 10000;

/// How many of the first `n` cells hold floor.
pub open spec fn floors_upto(tiles: Seq<TileType>, n: int) -> int
    decreases n,
{
    if n <= 0 {
        0
    } else {
        floors_upto(tiles, n - 1) + (if tiles[n - 1] == TileType::Floor {
            1int
        } else {
            0int
        })
    }
}

impl DrunkardsWalkArchitect {
    /// Build a level: walk from the center, then from random interior
    /// cells, until half the grid is floor and reachable from the
    /// center (or the launch budget runs out), prune the unreachable
    /// part, and pick the spawn cells and the farthest cell.
    pub fn new(rng: &mut bracket_lib::random::RandomNumberGenerator) -> (mb: MapBuilder)
        ensures
            builder_ok(mb),
            mb.player_start == crate::map_builder::automata::grid_center(),
            floors_upto(mb.map.tiles@, NUM_TILES as int) >= DESIRED_FLOOR,
    {
        let mut map = GameMap::new();
        fill(&mut map, TileType::Wall);
        let center = Point { x: SCREEN_WIDTH / 2, y: SCREEN_HEIGHT / 2 };
        Self::drunkard(center, rng, &mut map);
        proof {
            lemma_point_of_idx_of(center.x as int, center.y as int);
        }
        let mut launches: u32 = 0;
        let mut done = false;
        while launches < MAX_LAUNCHES && !done
            invariant
                map.wf(),
                boundary_walls(map.tiles@),
                map.spec_can_enter(center),
                forall|i: int|
                    0 <= i < NUM_TILES ==> map.revealed_tiles@[i]
                        == crate::map::Revealed::Unrevealable,
                launches <= MAX_LAUNCHES,
                done ==> floors_upto(map.tiles@, NUM_TILES as int) >= DESIRED_FLOOR,
            decreases MAX_LAUNCHES - launches,
        {
            let start = Point {
                x: rng_range(rng, 1, SCREEN_WIDTH - 1),
                y: rng_range(rng, 1, SCREEN_HEIGHT - 1),
            };
            Self::drunkard(start, rng, &mut map);
            if Self::map_completed(&map) {
                fill_unreachable(&mut map, center);
                done = Self::map_completed(&map);
            }
            launches += 1;
        }
        if !done {
            // The launch budget ran out below the quota: carve a solid
            // connected block around the center instead, so the level
            // still offers half a grid of floor.
            Self::carve_block(&mut map);
            let ghost blocked = map.tiles@;
            fill_unreachable(&mut map, center);
            proof {
                assert forall|i: int| 0 <= i < NUM_TILES implies map.tiles@[i] == blocked[i] by {
                    if crate::map::tile_enterable(blocked[i]) {
                        assert(crate::map::idx_of(center) == idx_xy(40, 25));
                        assert(crate::path::reachable(blocked, idx_xy(40, 25), i));
                    }
                }
                assert(map.tiles@ =~= blocked);
            }
        }
        let player_start = center;
        let amulet_start = find_most_distant(&map, player_start);
        let entity_spawns = spawn_monsters(&map, player_start, rng);
        proof {
            assert(map.revealed_tiles@ =~= Seq::new(
                crate::NUM_TILES as nat,
                |i: int| crate::map::Revealed::Unrevealable,
            ));
        }
        map.update_revealability();
        MapBuilder {
            map,
            rooms: Vec::new(),
            entity_spawns,
            player_start,
            amulet_start,
            theme: random_theme(rng),
        }
    }

    /// The fallback block: the rectangle of columns 1..=78 and rows 1..=26.
pub open spec fn in_block(i: int) -> bool {
    1 <= crate::map::x_of(i) <= 78 && 1 <= crate::map::y_of(i) <= 26
}

/// A map whose floor is exactly the fallback block, all else wall.
pub open spec fn block_shape(tiles: Seq<TileType>) -> bool {
    &&& tiles.len() == NUM_TILES
    &&& forall|i: int|
        0 <= i < NUM_TILES ==> ((#[trigger] tiles[i]) == TileType::Floor <==> Self::in_block(i))
    &&& forall|i: int|
        0 <= i < NUM_TILES ==> (#[trigger] tiles[i]) == TileType::Floor || tiles[i]
            == TileType::Wall
}

/// An all-wall map holds no floor.
proof fn lemma_floors_none(tiles: Seq<TileType>, n: int)
    requires
        0 <= n <= tiles.len(),
        forall|i: int| 0 <= i < tiles.len() ==> #[trigger] tiles[i] == TileType::Wall,
    ensures
        floors_upto(tiles, n) == 0,
    decreases n,
{
    if n > 0 {
        Self::lemma_floors_none(tiles, n - 1);
    }
}

/// Every cell of the block's own column 40 is reachable from the
/// center.
proof fn lemma_block_col(tiles: Seq<TileType>, y: int)
    requires
        Self::block_shape(tiles),
        1 <= y <= 26,
    ensures
        crate::path::reachable(tiles, idx_xy(40, 25), idx_xy(40, y)),
    decreases
            (if y <= 25 {
                25 - y
            } else {
                y - 25
            }),
{
    lemma_point_of_idx_of(40, 25);
    lemma_point_of_idx_of(40, y);
    if y == 25 {
        crate::path::lemma_reachable_refl(tiles, idx_xy(40, 25));
    } else if y < 25 {
        Self::lemma_block_col(tiles, y + 1);
        lemma_point_of_idx_of(40, y + 1);
        crate::path::lemma_adjacent_xy(40, y + 1, 40, y);
        crate::path::lemma_reachable_step(tiles, idx_xy(40, 25), idx_xy(40, y + 1), idx_xy(40, y));
    } else {
        Self::lemma_block_col(tiles, y - 1);
        lemma_point_of_idx_of(40, y - 1);
        crate::path::lemma_adjacent_xy(40, y - 1, 40, y);
        crate::path::lemma_reachable_step(tiles, idx_xy(40, 25), idx_xy(40, y - 1), idx_xy(40, y));
    }
}

/// Every block cell is reachable from the center: down its row from
/// column 40.
proof fn lemma_block_cell(tiles: Seq<TileType>, x: int, y: int)
    requires
        Self::block_shape(tiles),
        1 <= x <= 78,
        1 <= y <= 26,
    ensures
        crate::path::reachable(tiles, idx_xy(40, 25), idx_xy(x, y)),
    decreases
            (if x <= 40 {
                40 - x
            } else {
                x - 40
            }),
{
    lemma_point_of_idx_of(x, y);
    if x == 40 {
        Self::lemma_block_col(tiles, y);
    } else if x < 40 {
        Self::lemma_block_cell(tiles, x + 1, y);
        lemma_point_of_idx_of(x + 1, y);
        crate::path::lemma_adjacent_xy(x + 1, y, x, y);
        crate::path::lemma_reachable_step(tiles, idx_xy(40, 25), idx_xy(x + 1, y), idx_xy(x, y));
    } else {
        Self::lemma_block_cell(tiles, x - 1, y);
        lemma_point_of_idx_of(x - 1, y);
        crate::path::lemma_adjacent_xy(x - 1, y, x, y);
        crate::path::lemma_reachable_step(tiles, idx_xy(40, 25), idx_xy(x - 1, y), idx_xy(x, y));
    }
}

/// In the block-shaped map every enterable cell is reachable from the
/// center.
proof fn lemma_block_reachable(tiles: Seq<TileType>)
    requires
        Self::block_shape(tiles),
    ensures
        forall|i: int|
            0 <= i < NUM_TILES && crate::map::tile_enterable(#[trigger] tiles[i])
                ==> crate::path::reachable(tiles, idx_xy(40, 25), i),
{
    assert forall|i: int|
        0 <= i < NUM_TILES && crate::map::tile_enterable(#[trigger] tiles[i]) implies crate::path::reachable(
        tiles,
        idx_xy(40, 25),
        i,
    ) by {
        assert(tiles[i] == TileType::Floor);
        crate::map::lemma_idx_of_point_of(i);
        Self::lemma_block_cell(tiles, crate::map::x_of(i), crate::map::y_of(i));
        assert(idx_xy(crate::map::x_of(i), crate::map::y_of(i)) == i);
    }
}

/// Carving one cell to floor raises the floor count by one exactly
/// when the cell held something else.
proof fn lemma_floors_update(tiles: Seq<TileType>, i: int, n: int)
    requires
        0 <= i < tiles.len(),
        0 <= n <= tiles.len(),
    ensures
        floors_upto(tiles.update(i, TileType::Floor), n) == floors_upto(tiles, n) + (if i < n
            && tiles[i] != TileType::Floor {
            1int
        } else {
            0int
        }),
    decreases n,
{
    if n > 0 {
        Self::lemma_floors_update(tiles, i, n - 1);
    }
}

/// Carve a solid rectangle of floor around the center, big enough
    /// to meet the floor quota, and nothing else: the map is refilled
    /// with wall first, so afterwards the floor is exactly the block —
    /// connected, so pruning from the center keeps all of it.
    fn carve_block(map: &mut GameMap)
        requires
            old(map).wf(),
        ensures
            final(map).wf(),
            final(map).revealed_tiles@ == old(map).revealed_tiles@,
            final(map).dijkstra_maps@ == old(map).dijkstra_maps@,
            boundary_walls(final(map).tiles@),
            final(map).spec_can_enter(Point { x: 40, y: 25 }),
            floors_upto(final(map).tiles@, NUM_TILES as int) >= DESIRED_FLOOR,
            forall|i: int|
                0 <= i < NUM_TILES && crate::map::tile_enterable(#[trigger] final(map).tiles@[i])
                    ==> crate::path::reachable(final(map).tiles@, idx_xy(40, 25), i),
    {
        fill(map, TileType::Wall);
        proof {
            Self::lemma_floors_none(map.tiles@, NUM_TILES as int);
        }
        let mut carved: u32 = 0;
        let mut y: i32 = 1;
        while y <= 26
            invariant
                map.wf(),
                map.revealed_tiles@ == old(map).revealed_tiles@,
                map.dijkstra_maps@ == old(map).dijkstra_maps@,
                1 <= y <= 27,
                carved == (y - 1) * 78,
                floors_upto(map.tiles@, NUM_TILES as int) == carved,
                forall|i: int|
                    0 <= i < NUM_TILES ==> (#[trigger] map.tiles@[i] == TileType::Floor <==> (1
                        <= crate::map::x_of(i) <= 78 && 1 <= crate::map::y_of(i) < y)),
                forall|i: int|
                    0 <= i < NUM_TILES ==> (#[trigger] map.tiles@[i]) == TileType::Floor
                        || map.tiles@[i] == TileType::Wall,
            decreases 27 - y,
        {
            let mut x: i32 = 1;
            while x <= 78
                invariant
                    map.wf(),
                    map.revealed_tiles@ == old(map).revealed_tiles@,
                    map.dijkstra_maps@ == old(map).dijkstra_maps@,
                    1 <= y <= 26,
                    1 <= x <= 79,
                    carved == (y - 1) * 78 + (x - 1),
                    floors_upto(map.tiles@, NUM_TILES as int) == carved,
                    forall|i: int|
                        0 <= i < NUM_TILES ==> (#[trigger] map.tiles@[i] == TileType::Floor <==> (
                        (1 <= crate::map::x_of(i) <= 78 && 1 <= crate::map::y_of(i) < y) || (
                        crate::map::y_of(i) == y && 1 <= crate::map::x_of(i) < x))),
                    forall|i: int|
                        0 <= i < NUM_TILES ==> (#[trigger] map.tiles@[i]) == TileType::Floor
                            || map.tiles@[i] == TileType::Wall,
                decreases 79 - x,
            {
                proof {
                    lemma_point_of_idx_of(x as int, y as int);
                    Self::lemma_floors_update(map.tiles@, idx_xy(x as int, y as int), NUM_TILES as int);
                }
                carve(map, x, y);
                carved += 1;
                proof {
                    assert forall|i: int|
                        0 <= i < NUM_TILES implies (#[trigger] map.tiles@[i] == TileType::Floor
                        <==> ((1 <= crate::map::x_of(i) <= 78 && 1 <= crate::map::y_of(i) < y) || (
                        crate::map::y_of(i) == y && 1 <= crate::map::x_of(i) < x + 1))) by {
                        crate::map::lemma_idx_of_point_of(i);
                    }
                }
                x += 1;
            }
            y += 1;
        }
        proof {
            assert(Self::block_shape(map.tiles@));
            Self::lemma_block_reachable(map.tiles@);
            assert(boundary_walls(map.tiles@)) by {
                assert forall|xx: int, yy: int|
                    crate::map::in_bounds_xy(xx, yy) && (xx == 0 || xx == SCREEN_WIDTH - 1 || yy
                        == 0 || yy == SCREEN_HEIGHT - 1) implies #[trigger] map.tiles@[idx_xy(
                    xx,
                    yy,
                )] == TileType::Wall by {
                    lemma_point_of_idx_of(xx, yy);
                    assert(!Self::in_block(idx_xy(xx, yy)));
                }
            }
            lemma_point_of_idx_of(40, 25);
        }
    }

    /// Whether enough of the grid has become floor: at least half of
    /// its cells.
    pub fn map_completed(map: &GameMap) -> (r: bool)
        requires
            map.wf(),
        ensures
            r == (floors_upto(map.tiles@, NUM_TILES as int) >= DESIRED_FLOOR),
    {
        let mut floors: usize = 0;
        let mut c: usize = 0;
        while c < NUM_TILES
            invariant
                map.wf(),
                c <= NUM_TILES,
                floors <= c,
                floors as int == floors_upto(map.tiles@, c as int),
            decreases NUM_TILES - c,
        {
            if map.tiles[c] == TileType::Floor {
                floors += 1;
            }
            c += 1;
        }
        floors >= DESIRED_FLOOR
    }

    /// Whether a cell lies strictly inside the outer ring.
    pub fn in_inner_bounds(point: Point) -> (r: bool)
        ensures
            r == (1 <= point.x <= SCREEN_WIDTH - 2 && 1 <= point.y <= SCREEN_HEIGHT - 2),
    {
        point.x >= 1 && point.x <= SCREEN_WIDTH - 2 && point.y >= 1 && point.y <= SCREEN_HEIGHT - 2
    }

    /// One walk: carve floor under the walker, step in a uniform
    /// cardinal direction, and stop on leaving the inner grid or after
    /// `STAGGER_DISTANCE` steps. The walk always terminates within that
    /// budget, and never touches the outer ring.
    pub fn drunkard(
        start: Point,
        rng: &mut bracket_lib::random::RandomNumberGenerator,
        map: &mut GameMap,
    )
        requires
            old(map).wf(),
            1 <= start.x <= SCREEN_WIDTH - 2,
            1 <= start.y <= SCREEN_HEIGHT - 2,
        ensures
            final(map).wf(),
            final(map).revealed_tiles@ == old(map).revealed_tiles@,
            final(map).dijkstra_maps@ == old(map).dijkstra_maps@,
            boundary_walls(old(map).tiles@) ==> boundary_walls(final(map).tiles@),
            final(map).spec_can_enter(start),
            forall|i: int|
                0 <= i < NUM_TILES ==> final(map).tiles@[i] == old(map).tiles@[i] || final(map).tiles@[i] == TileType::Floor,
    {
        let mut pos = start;
        let mut staggered: u32 = 0;
        loop
            invariant_except_break
                staggered <= STAGGER_DISTANCE,
            invariant
                map.wf(),
                map.revealed_tiles@ == old(map).revealed_tiles@,
                map.dijkstra_maps@ == old(map).dijkstra_maps@,
                boundary_walls(old(map).tiles@) ==> boundary_walls(map.tiles@),
                1 <= pos.x <= SCREEN_WIDTH - 2,
                1 <= pos.y <= SCREEN_HEIGHT - 2,
                1 <= start.x <= SCREEN_WIDTH - 2,
                1 <= start.y <= SCREEN_HEIGHT - 2,
                staggered == 0 ==> pos == start,
                forall|i: int|
                    0 <= i < NUM_TILES ==> map.tiles@[i] == old(map).tiles@[i] || map.tiles@[i]
                        == TileType::Floor,
                staggered > 0 ==> map.spec_can_enter(start),
            ensures
                map.wf(),
                map.revealed_tiles@ == old(map).revealed_tiles@,
                map.dijkstra_maps@ == old(map).dijkstra_maps@,
                boundary_walls(old(map).tiles@) ==> boundary_walls(map.tiles@),
                map.spec_can_enter(start),
                forall|i: int|
                    0 <= i < NUM_TILES ==> map.tiles@[i] == old(map).tiles@[i] || map.tiles@[i]
                        == TileType::Floor,
            decreases STAGGER_DISTANCE + 1 - staggered,
        {
            carve(map, pos.x, pos.y);
            proof {
                lemma_point_of_idx_of(pos.x as int, pos.y as int);
                lemma_point_of_idx_of(start.x as int, start.y as int);
                assert(map.spec_can_enter(start));
            }
            let roll = rng_range(rng, 0, 4);
            let next = if roll == 0 {
                Point { x: pos.x + 1, y: pos.y }
            } else if roll == 1 {
                Point { x: pos.x, y: pos.y + 1 }
            } else if roll == 2 {
                Point { x: pos.x - 1, y: pos.y }
            } else {
                Point { x: pos.x, y: pos.y - 1 }
            };
            if !Self::in_inner_bounds(next) {
                break ;
            }
            pos = next;
            staggered += 1;
            if staggered > STAGGER_DISTANCE {
                break ;
            }
        }
    }
}

} // verus!
