use vstd::prelude::*;
use crate::map::{
    boundary_walls, idx_of, idx_xy, in_bounds_xy, lemma_point_of_idx_of, GameMap, TileType,
};
use crate::map_builder::prefab::apply_prefab;
use crate::map_builder::{
    builder_ok, carve, fill, fill_unreachable, find_most_distant, random_theme, spawn_monsters,
    MapBuilder,
};
use crate::point::Point;
use crate::rng::rng_range;
use crate::{NUM_TILES, SCREEN_HEIGHT, SCREEN_WIDTH};

verus! {

/// Whether cell `i` lies strictly inside the outer ring.
pub open spec fn interior_cell(i: int) -> bool {
    &&& 0 <= i < NUM_TILES
    &&& 1 <= crate::map::x_of(i) < SCREEN_WIDTH - 1
    &&& 1 <= crate::map::y_of(i) < SCREEN_HEIGHT - 1
}

/// One when `(x, y)` holds wall, zero otherwise.
pub open spec fn wall_at(tiles: Seq<TileType>, x: int, y: int) -> int {
    if tiles[idx_xy(x, y)] == TileType::Wall {
        1
    } else {
        0
    }
}

/// How many of the eight neighbors of `(x, y)` hold wall.
pub open spec fn wall_neighbors(tiles: Seq<TileType>, x: int, y: int) -> int {
    wall_at(tiles, x - 1, y - 1) + wall_at(tiles, x, y - 1) + wall_at(tiles, x + 1, y - 1)
        + wall_at(tiles, x - 1, y) + wall_at(tiles, x + 1, y) + wall_at(tiles, x - 1, y + 1)
        + wall_at(tiles, x, y + 1) + wall_at(tiles, x + 1, y + 1)
}

/// The automaton's rule: a cell becomes wall exactly when it has more
/// than four wall neighbors or none at all.
pub open spec fn automaton_rule(tiles: Seq<TileType>, x: int, y: int) -> TileType {
    if wall_neighbors(tiles, x, y) > 4 || wall_neighbors(tiles, x, y) == 0 {
        TileType::Wall
    } else {
        TileType::Floor
    }
}

/// Grows caves by smoothing random noise with a cellular automaton.
pub struct CellularAutomataArchitect {}

impl CellularAutomataArchitect {
    /// Build a level: seed the interior with noise, smooth it ten
    /// times, start from the interior floor closest to the grid center,
    /// stamp the optional vault, prune the unreachable part, and pick
    /// the spawn cells and the farthest cell.
    pub fn new(rng: &mut bracket_lib::random::RandomNumberGenerator) -> (mb: MapBuilder)
        ensures
            builder_ok(mb),
    {
        let mut map = GameMap::new();
        fill(&mut map, TileType::Wall);
        Self::random_noise_map(rng, &mut map);
        let mut round: usize = 0;
        while round < 10
            invariant
                map.wf(),
                boundary_walls(map.tiles@),
                forall|i: int|
                    0 <= i < NUM_TILES ==> map.revealed_tiles@[i]
                        == crate::map::Revealed::Unrevealable,
                round <= 10,
            decreases 10 - round,
        {
            Self::iteration(&mut map);
            round += 1;
        }
        let player_start = match Self::find_start(&map) {
            Some(p) => p,
            None => {
                // A degenerate automaton left no floor: open the center.
                let center = Point { x: SCREEN_WIDTH / 2, y: SCREEN_HEIGHT / 2 };
                carve(&mut map, center.x, center.y);
                proof {
                    lemma_point_of_idx_of(center.x as int, center.y as int);
                }
                center
            },
        };
        apply_prefab(&mut map, player_start, rng);
        fill_unreachable(&mut map, player_start);
        let amulet_start = find_most_distant(&map, player_start);
        let entity_spawns = spawn_monsters(&map, player_start, rng);
        proof {
            assert(map.revealed_tiles@ =~= Seq::new(
                crate::NUM_TILES as nat,
                |i: int| crate::map::Revealed::Unrevealable,
            ));
        }
        map.update_revealability();
        MapBuilder {
            map,
            rooms: Vec::new(),
            entity_spawns,
            player_start,
            amulet_start,
            theme: random_theme(rng),
        }
    }

    /// Seed every interior cell with floor at roughly a 45% rate; no
    /// other cell is touched.
    pub fn random_noise_map(rng: &mut bracket_lib::random::RandomNumberGenerator, map: &mut GameMap)
        requires
            old(map).wf(),
        ensures
            final(map).wf(),
            final(map).revealed_tiles@ == old(map).revealed_tiles@,
            final(map).dijkstra_maps@ == old(map).dijkstra_maps@,
            boundary_walls(old(map).tiles@) ==> boundary_walls(final(map).tiles@),
            forall|i: int|
                0 <= i < NUM_TILES && !interior_cell(i) ==> final(map).tiles@[i] == old(map).tiles@[i],
    {
        let mut y: i32 = 1;
        while y < SCREEN_HEIGHT - 1
            invariant
                map.wf(),
                map.revealed_tiles@ == old(map).revealed_tiles@,
                map.dijkstra_maps@ == old(map).dijkstra_maps@,
                boundary_walls(old(map).tiles@) ==> boundary_walls(map.tiles@),
                forall|i: int|
                    0 <= i < NUM_TILES && !interior_cell(i) ==> map.tiles@[i] == old(map).tiles@[i],
                1 <= y <= SCREEN_HEIGHT - 1,
            decreases SCREEN_HEIGHT - 1 - y,
        {
            let mut x: i32 = 1;
            while x < SCREEN_WIDTH - 1
                invariant
                    map.wf(),
                    map.revealed_tiles@ == old(map).revealed_tiles@,
                    map.dijkstra_maps@ == old(map).dijkstra_maps@,
                    boundary_walls(old(map).tiles@) ==> boundary_walls(map.tiles@),
                    forall|i: int|
                        0 <= i < NUM_TILES && !interior_cell(i) ==> map.tiles@[i] == old(
                            map,
                        ).tiles@[i],
                    1 <= y < SCREEN_HEIGHT - 1,
                    1 <= x <= SCREEN_WIDTH - 1,
                decreases SCREEN_WIDTH - 1 - x,
            {
                let roll = rng_range(rng, 0, 100);
                proof {
                    lemma_point_of_idx_of(x as int, y as int);
                }
                let idx = GameMap::map_idx(Point { x, y });
                if roll > 54 {
                    map.tiles.set(idx, TileType::Floor);
                } else {
                    map.tiles.set(idx, TileType::Wall);
                }
                proof {
                    if boundary_walls(old(map).tiles@) {
                        assert forall|xx: int, yy: int|
                            in_bounds_xy(xx, yy) && (xx == 0 || xx == SCREEN_WIDTH - 1 || yy == 0
                                || yy == SCREEN_HEIGHT - 1) implies #[trigger] map.tiles@[idx_xy(
                            xx,
                            yy,
                        )] == TileType::Wall by {
                            lemma_point_of_idx_of(xx, yy);
                        }
                    }
                    assert forall|i: int|
                        0 <= i < NUM_TILES && !interior_cell(i) implies map.tiles@[i] == old(
                        map,
                    ).tiles@[i] by {
                        crate::map::lemma_idx_of_point_of(i);
                    }
                }
                x += 1;
            }
            y += 1;
        }
    }

    /// How many of a cell's eight neighbors hold wall.
    pub fn count_neighbors(point: Point, map: &GameMap) -> (r: u32)
        requires
            map.wf(),
            1 <= point.x < SCREEN_WIDTH - 1,
            1 <= point.y < SCREEN_HEIGHT - 1,
        ensures
            r == wall_neighbors(map.tiles@, point.x as int, point.y as int),
    {
        let mut neighbors: u32 = 0;
        if Self::wall_there(map, point.x - 1, point.y - 1) {
            neighbors += 1;
        }
        if Self::wall_there(map, point.x, point.y - 1) {
            neighbors += 1;
        }
        if Self::wall_there(map, point.x + 1, point.y - 1) {
            neighbors += 1;
        }
        if Self::wall_there(map, point.x - 1, point.y) {
            neighbors += 1;
        }
        if Self::wall_there(map, point.x + 1, point.y) {
            neighbors += 1;
        }
        if Self::wall_there(map, point.x - 1, point.y + 1) {
            neighbors += 1;
        }
        if Self::wall_there(map, point.x, point.y + 1) {
            neighbors += 1;
        }
        if Self::wall_there(map, point.x + 1, point.y + 1) {
            neighbors += 1;
        }
        neighbors
    }

    /// Whether `(x, y)` holds wall.
    fn wall_there(map: &GameMap, x: i32, y: i32) -> (r: bool)
        requires
            map.wf(),
            in_bounds_xy(x as int, y as int),
        ensures
            r == (wall_at(map.tiles@, x as int, y as int) == 1),
            r == (map.tiles@[idx_xy(x as int, y as int)] == TileType::Wall),
    {
        proof {
            lemma_point_of_idx_of(x as int, y as int);
        }
        let idx = GameMap::map_idx(Point { x, y });
        map.tiles[idx] == TileType::Wall
    }

    /// One smoothing round: an interior cell becomes wall exactly when
    /// it has more than four wall neighbors (counted on the previous
    /// round) or none at all; every other cell keeps its tile.
    pub fn iteration(map: &mut GameMap)
        requires
            old(map).wf(),
        ensures
            final(map).wf(),
            final(map).revealed_tiles@ == old(map).revealed_tiles@,
            final(map).dijkstra_maps@ == old(map).dijkstra_maps@,
            boundary_walls(old(map).tiles@) ==> boundary_walls(final(map).tiles@),
            forall|i: int|
                0 <= i < NUM_TILES ==> final(map).tiles@[i] == (if interior_cell(i) {
                    automaton_rule(old(map).tiles@, crate::map::x_of(i), crate::map::y_of(i))
                } else {
                    old(map).tiles@[i]
                }),
    {
        let mut new_tiles: Vec<TileType> = Vec::new();
        let mut k: usize = 0;
        while k < NUM_TILES
            invariant
                map.wf(),
                k <= NUM_TILES,
                new_tiles@.len() == k,
                forall|j: int| 0 <= j < k ==> new_tiles@[j] == map.tiles@[j],
            decreases NUM_TILES - k,
        {
            new_tiles.push(map.tiles[k]);
            k += 1;
        }
        let mut y: i32 = 1;
        while y < SCREEN_HEIGHT - 1
            invariant
                map.wf(),
                new_tiles@.len() == NUM_TILES,
                1 <= y <= SCREEN_HEIGHT - 1,
                forall|i: int|
                    0 <= i < NUM_TILES && !interior_cell(i) ==> new_tiles@[i] == map.tiles@[i],
                forall|i: int|
                    interior_cell(i) && crate::map::y_of(i) < y ==> new_tiles@[i] == automaton_rule(
                        map.tiles@,
                        crate::map::x_of(i),
                        crate::map::y_of(i),
                    ),
                forall|i: int|
                    interior_cell(i) && crate::map::y_of(i) >= y ==> new_tiles@[i] == map.tiles@[i],
            decreases SCREEN_HEIGHT - 1 - y,
        {
            let mut x: i32 = 1;
            while x < SCREEN_WIDTH - 1
                invariant
                    map.wf(),
                    new_tiles@.len() == NUM_TILES,
                    1 <= y < SCREEN_HEIGHT - 1,
                    1 <= x <= SCREEN_WIDTH - 1,
                    forall|i: int|
                        0 <= i < NUM_TILES && !interior_cell(i) ==> new_tiles@[i] == map.tiles@[i],
                    forall|i: int|
                        interior_cell(i) && crate::map::y_of(i) < y ==> new_tiles@[i]
                            == automaton_rule(
                            map.tiles@,
                            crate::map::x_of(i),
                            crate::map::y_of(i),
                        ),
                    forall|i: int|
                        interior_cell(i) && crate::map::y_of(i) == y && crate::map::x_of(i) < x
                            ==> new_tiles@[i] == automaton_rule(
                            map.tiles@,
                            crate::map::x_of(i),
                            crate::map::y_of(i),
                        ),
                    forall|i: int|
                        interior_cell(i) && (crate::map::y_of(i) > y || (crate::map::y_of(i) == y
                            && crate::map::x_of(i) >= x)) ==> new_tiles@[i] == map.tiles@[i],
                decreases SCREEN_WIDTH - 1 - x,
            {
                let point = Point { x, y };
                let neighbors = Self::count_neighbors(point, map);
                proof {
                    lemma_point_of_idx_of(x as int, y as int);
                }
                let idx = GameMap::map_idx(point);
                let tile = if neighbors > 4 || neighbors == 0 {
                    TileType::Wall
                } else {
                    TileType::Floor
                };
                new_tiles.set(idx, tile);
                proof {
                    assert(tile == automaton_rule(map.tiles@, x as int, y as int));
                    assert forall|i: int|
                        0 <= i < NUM_TILES && i != idx as int implies new_tiles@[i] == new_tiles@[i]
                        by {}
                    assert forall|i: int|
                        0 <= i < NUM_TILES && !interior_cell(i) implies new_tiles@[i]
                        == map.tiles@[i] by {
                        crate::map::lemma_idx_of_point_of(i);
                    }
                    assert forall|i: int|
                        interior_cell(i) && crate::map::y_of(i) == y && crate::map::x_of(i) < x + 1
                        implies new_tiles@[i] == automaton_rule(
                        map.tiles@,
                        crate::map::x_of(i),
                        crate::map::y_of(i),
                    ) by {
                        crate::map::lemma_idx_of_point_of(i);
                    }
                    assert forall|i: int|
                        interior_cell(i) && crate::map::y_of(i) < y implies new_tiles@[i]
                        == automaton_rule(map.tiles@, crate::map::x_of(i), crate::map::y_of(i)) by {
                        crate::map::lemma_idx_of_point_of(i);
                    }
                    assert forall|i: int|
                        interior_cell(i) && (crate::map::y_of(i) > y || (crate::map::y_of(i) == y
                            && crate::map::x_of(i) >= x + 1)) implies new_tiles@[i]
                        == map.tiles@[i] by {
                        crate::map::lemma_idx_of_point_of(i);
                    }
                }
                x += 1;
            }
            y += 1;
        }
        map.tiles = new_tiles;
        proof {
            if boundary_walls(old(map).tiles@) {
                assert forall|xx: int, yy: int|
                    in_bounds_xy(xx, yy) && (xx == 0 || xx == SCREEN_WIDTH - 1 || yy == 0 || yy
                        == SCREEN_HEIGHT - 1) implies #[trigger] map.tiles@[idx_xy(xx, yy)]
                    == TileType::Wall by {
                    lemma_point_of_idx_of(xx, yy);
                    assert(!interior_cell(idx_xy(xx, yy)));
                }
            }
        }
    }

    /// The floor cell closest (by straight-line distance) to the grid
    /// center; ties fall to the lowest index. `None` exactly when the
    /// automaton left no floor at all.
    pub fn find_start(map: &GameMap) -> (r: Option<Point>)
        requires
            map.wf(),
        ensures
            r is None <==> forall|c: int|
                0 <= c < NUM_TILES ==> #[trigger] map.tiles@[c] != TileType::Floor,
            match r {
                Some(p) => {
                    &&& map.spec_can_enter(p)
                    &&& map.tiles@[idx_of(p)] == TileType::Floor
                    &&& forall|c: int|
                        0 <= c < NUM_TILES && #[trigger] map.tiles@[c] == TileType::Floor
                            ==> p.dist2(grid_center()) <= crate::map::point_of(c).dist2(
                            grid_center(),
                        )
                    &&& forall|c: int|
                        0 <= c < idx_of(p) && #[trigger] map.tiles@[c] == TileType::Floor
                            ==> crate::map::point_of(c).dist2(grid_center()) > p.dist2(
                            grid_center(),
                        )
                },
                None => true,
            },
    {
        let cx: i32 = SCREEN_WIDTH / 2;
        let cy: i32 = SCREEN_HEIGHT / 2;
        let mut best: usize = 0;
        let mut found = false;
        let mut best_d2: i64 = 0;
        let mut c: usize = 0;
        while c < NUM_TILES
            invariant
                map.wf(),
                c <= NUM_TILES,
                cx == SCREEN_WIDTH / 2,
                cy == SCREEN_HEIGHT / 2,
                !found ==> forall|j: int|
                    0 <= j < c ==> #[trigger] map.tiles@[j] != TileType::Floor,
                found ==> {
                    &&& best < c
                    &&& map.tiles@[best as int] == TileType::Floor
                    &&& best_d2 as int == crate::map::point_of(best as int).dist2(grid_center())
                    &&& forall|j: int|
                        0 <= j < c && #[trigger] map.tiles@[j] == TileType::Floor
                            ==> best_d2 as int <= crate::map::point_of(j).dist2(grid_center())
                    &&& forall|j: int|
                        0 <= j < best && #[trigger] map.tiles@[j] == TileType::Floor
                            ==> crate::map::point_of(j).dist2(grid_center()) > best_d2 as int
                },
            decreases NUM_TILES - c,
        {
            if map.tiles[c] == TileType::Floor {
                let p = GameMap::map_point(c);
                let dx = (p.x as i64) - (cx as i64);
                let dy = (p.y as i64) - (cy as i64);
                proof {
                    assert(0 <= dx * dx <= 128 * 128 && 0 <= dy * dy <= 128 * 128)
                        by (nonlinear_arith)
                        requires
                            -128 <= dx <= 128,
                            -128 <= dy <= 128,
                    ;
                }
                let d2 = dx * dx + dy * dy;
                proof {
                    assert(d2 as int == crate::map::point_of(c as int).dist2(grid_center()));
                }
                let better = !found || d2 < best_d2;
                if better {
                    best = c;
                    best_d2 = d2;
                    found = true;
                }
            }
            c += 1;
        }
        if !found {
            return None;
        }
        let p = GameMap::map_point(best);
        proof {
            crate::map::lemma_idx_of_point_of(best as int);
        }
        Some(p)
    }
}

/// The grid's central cell.
pub open spec fn grid_center() -> Point {
    Point { x: 40, y: 25 }
}

} // verus!
