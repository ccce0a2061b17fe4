use vstd::prelude::*;
use crate::map::{
    boundary_walls, idx_of, idx_xy, in_bounds_xy, lemma_point_of_idx_of, tile_enterable, GameMap,
    TileType,
};
use crate::path::{
    in_targets, is_path, lemma_dijkstra_reaches_target, lemma_reachable_refl,
    lemma_reachable_symmetric, reachable, reachable_mask, DijkstraField, DIJKSTRA_SENTINEL,
};
use crate::point::Point;
use crate::rng::rng_range;
use crate::{NUM_TILES, SCREEN_HEIGHT, SCREEN_WIDTH};

pub mod automata;
pub mod drunkard;
pub mod prefab;
pub mod rooms;

verus! {

/// How the tiles of a level are drawn.
#[derive(Clone, Copy, PartialEq, Eq, Structural, Debug)]
pub enum MapTheme {
    Dungeon,
    Forest,
}

/// The glyph a theme gives one tile.
pub open spec fn spec_theme_glyph(theme: MapTheme, tile: TileType) -> char {
    match theme {
        MapTheme::Dungeon => match tile {
            TileType::Wall => '#',
            TileType::Floor => '.',
            TileType::Exit => '>',
        },
        MapTheme::Forest => match tile {
            TileType::Wall => '"',
            TileType::Floor => ';',
            TileType::Exit => '>',
        },
    }
}

pub fn theme_glyph(theme: MapTheme, tile: TileType) -> (r: char)
    ensures
        r == spec_theme_glyph(theme, tile),
{
    match theme {
        MapTheme::Dungeon => match tile {
            TileType::Wall => '#',
            TileType::Floor => '.',
            TileType::Exit => '>',
        },
        MapTheme::Forest => match tile {
            TileType::Wall => '"',
            TileType::Floor => ';',
            TileType::Exit => '>',
        },
    }
}

/// A theme drawn at random.
pub fn random_theme(rng: &mut bracket_lib::random::RandomNumberGenerator) -> MapTheme {
    if rng_range(rng, 0, 2) == 0 {
        MapTheme::Dungeon
    } else {
        MapTheme::Forest
    }
}

/// An axis-aligned room: cells with `x1 <= x < x2` and `y1 <= y < y2`.
#[derive(Clone, Copy, PartialEq, Eq, Structural, Debug)]
pub struct Rect {
    pub x1: i32,
    pub y1: i32,
    pub x2: i32,
    pub y2: i32,
}

impl Rect {
    /// A room lying strictly inside the grid's outer ring.
    pub open spec fn interior(self) -> bool {
        1 <= self.x1 < self.x2 <= SCREEN_WIDTH - 1 && 1 <= self.y1 < self.y2 <= SCREEN_HEIGHT - 1
    }

    pub open spec fn spec_contains(self, x: int, y: int) -> bool {
        self.x1 <= x < self.x2 && self.y1 <= y < self.y2
    }

    pub open spec fn spec_center(self) -> Point {
        Point { x: ((self.x1 + self.x2) / 2) as i32, y: ((self.y1 + self.y2) / 2) as i32 }
    }

    pub fn center(&self) -> (r: Point)
        requires
            self.interior(),
        ensures
            r == self.spec_center(),
            in_bounds_xy(r.x as int, r.y as int),
            self.spec_contains(r.x as int, r.y as int),
            1 <= r.x < SCREEN_WIDTH - 1,
            1 <= r.y < SCREEN_HEIGHT - 1,
    {
        Point { x: (self.x1 + self.x2) / 2, y: (self.y1 + self.y2) / 2 }
    }

    /// Whether the two rooms share a cell.
    pub fn intersect(&self, other: &Rect) -> (r: bool)
        ensures
            r == (self.x1 <= other.x2 && self.x2 >= other.x1 && self.y1 <= other.y2 && self.y2
                >= other.y1),
    {
        self.x1 <= other.x2 && self.x2 >= other.x1 && self.y1 <= other.y2 && self.y2 >= other.y1
    }
}

/// What an architect produces: a carved map, its rooms if any, the
/// monster spawn cells, where the player starts, where the amulet (or
/// the exit) goes, and how the level looks.
pub struct MapBuilder {
    pub map: GameMap,
    pub rooms: Vec<Rect>,
    pub entity_spawns: Vec<Point>,
    pub player_start: Point,
    pub amulet_start: Point,
    pub theme: MapTheme,
}

/// What every architect guarantees: the grid is whole, its outer ring
/// is wall, the player start and the amulet cell are enterable, the
/// amulet cell and every spawn cell can be walked to from the player
/// start over enterable tiles, and the revelation map is rebuilt from
/// scratch over the fresh tiles.
pub open spec fn builder_ok(mb: MapBuilder) -> bool {
    &&& mb.map.wf()
    &&& mb.map.revealed_tiles@ == crate::map::reveal_update(
        mb.map.tiles@,
        Seq::new(NUM_TILES as nat, |i: int| crate::map::Revealed::Unrevealable),
    )
    &&& boundary_walls(mb.map.tiles@)
    &&& mb.map.spec_can_enter(mb.player_start)
    &&& mb.map.spec_can_enter(mb.amulet_start)
    &&& reachable(mb.map.tiles@, idx_of(mb.player_start), idx_of(mb.amulet_start))
    &&& forall|k: int|
        0 <= k < mb.entity_spawns@.len() ==> mb.map.spec_can_enter(#[trigger] mb.entity_spawns@[k])
            && reachable(mb.map.tiles@, idx_of(mb.player_start), idx_of(mb.entity_spawns@[k]))
            && mb.entity_spawns@[k] != mb.player_start
    &&& forall|a: int, b: int|
        0 <= a < b < mb.entity_spawns@.len() ==> mb.entity_spawns@[a] != mb.entity_spawns@[b]
    &&& mb.entity_spawns@.len() <= 50
}

/// Overwrite every cell of the grid with one tile.
pub fn fill(map: &mut GameMap, tile: TileType)
    requires
        old(map).wf(),
    ensures
        final(map).wf(),
        final(map).revealed_tiles@ == old(map).revealed_tiles@,
        final(map).dijkstra_maps@ == old(map).dijkstra_maps@,
        forall|i: int| 0 <= i < NUM_TILES ==> final(map).tiles@[i] == tile,
{
    let mut i: usize = 0;
    while i < NUM_TILES
        invariant
            map.wf(),
            map.revealed_tiles@ == old(map).revealed_tiles@,
            map.dijkstra_maps@ == old(map).dijkstra_maps@,
            i <= NUM_TILES,
            forall|j: int| 0 <= j < i ==> map.tiles@[j] == tile,
        decreases NUM_TILES - i,
    {
        map.tiles.set(i, tile);
        i += 1;
    }
}

/// Carve one cell to floor; interior cells keep the outer ring walled.
pub fn carve(map: &mut GameMap, x: i32, y: i32)
    requires
        old(map).wf(),
        1 <= x < SCREEN_WIDTH - 1,
        1 <= y < SCREEN_HEIGHT - 1,
    ensures
        final(map).wf(),
        final(map).revealed_tiles@ == old(map).revealed_tiles@,
        final(map).dijkstra_maps@ == old(map).dijkstra_maps@,
        final(map).tiles@ == old(map).tiles@.update(idx_xy(x as int, y as int), TileType::Floor),
        boundary_walls(old(map).tiles@) ==> boundary_walls(final(map).tiles@),
{
    proof {
        lemma_point_of_idx_of(x as int, y as int);
    }
    let idx = GameMap::map_idx(Point { x, y });
    map.tiles.set(idx, TileType::Floor);
    proof {
        if boundary_walls(old(map).tiles@) {
            assert forall|xx: int, yy: int|
                in_bounds_xy(xx, yy) && (xx == 0 || xx == SCREEN_WIDTH - 1 || yy == 0 || yy
                    == SCREEN_HEIGHT - 1) implies #[trigger] map.tiles@[idx_xy(xx, yy)]
                == TileType::Wall by {
                lemma_point_of_idx_of(xx, yy);
            }
        }
    }
}

/// Carve a room into floors.
pub fn carve_room(map: &mut GameMap, room: Rect)
    requires
        old(map).wf(),
        room.interior(),
    ensures
        final(map).wf(),
        final(map).revealed_tiles@ == old(map).revealed_tiles@,
        final(map).dijkstra_maps@ == old(map).dijkstra_maps@,
        forall|x: int, y: int|
            room.spec_contains(x, y) ==> final(map).tiles@[#[trigger] idx_xy(x, y)]
                == TileType::Floor,
        forall|i: int|
            0 <= i < NUM_TILES && !room.spec_contains(crate::map::x_of(i), crate::map::y_of(i))
                ==> final(map).tiles@[i] == old(map).tiles@[i],
        boundary_walls(old(map).tiles@) ==> boundary_walls(final(map).tiles@),
{
    let mut y = room.y1;
    while y < room.y2
        invariant
            map.wf(),
            room.interior(),
            map.revealed_tiles@ == old(map).revealed_tiles@,
            map.dijkstra_maps@ == old(map).dijkstra_maps@,
            room.y1 <= y <= room.y2,
            forall|xx: int, yy: int|
                room.spec_contains(xx, yy) && yy < y ==> map.tiles@[#[trigger] idx_xy(xx, yy)]
                    == TileType::Floor,
            forall|i: int|
                0 <= i < NUM_TILES && !room.spec_contains(crate::map::x_of(i), crate::map::y_of(i))
                    ==> map.tiles@[i] == old(map).tiles@[i],
            boundary_walls(old(map).tiles@) ==> boundary_walls(map.tiles@),
        decreases room.y2 - y,
    {
        let mut x = room.x1;
        while x < room.x2
            invariant
                map.wf(),
                room.interior(),
                room.y1 <= y < room.y2,
                map.revealed_tiles@ == old(map).revealed_tiles@,
                map.dijkstra_maps@ == old(map).dijkstra_maps@,
                room.x1 <= x <= room.x2,
                forall|xx: int, yy: int|
                    room.spec_contains(xx, yy) && yy < y ==> map.tiles@[#[trigger] idx_xy(xx, yy)]
                        == TileType::Floor,
                forall|xx: int|
                    room.x1 <= xx < x ==> map.tiles@[#[trigger] idx_xy(xx, y as int)]
                        == TileType::Floor,
                forall|i: int|
                    0 <= i < NUM_TILES && !room.spec_contains(
                        crate::map::x_of(i),
                        crate::map::y_of(i),
                    ) ==> map.tiles@[i] == old(map).tiles@[i],
                boundary_walls(old(map).tiles@) ==> boundary_walls(map.tiles@),
            decreases room.x2 - x,
        {
            carve(map, x, y);
            proof {
                lemma_point_of_idx_of(x as int, y as int);
                assert forall|xx: int, yy: int|
                    room.spec_contains(xx, yy) && yy < y implies map.tiles@[#[trigger] idx_xy(xx, yy)]
                    == TileType::Floor by {
                    lemma_point_of_idx_of(xx, yy);
                }
                assert forall|xx: int|
                    room.x1 <= xx < x + 1 implies map.tiles@[#[trigger] idx_xy(xx, y as int)]
                    == TileType::Floor by {
                    lemma_point_of_idx_of(xx, y as int);
                }
                assert forall|i: int|
                    0 <= i < NUM_TILES && !room.spec_contains(
                        crate::map::x_of(i),
                        crate::map::y_of(i),
                    ) implies map.tiles@[i] == old(map).tiles@[i] by {
                    crate::map::lemma_idx_of_point_of(i);
                }
            }
            x += 1;
        }
        proof {
            assert forall|xx: int, yy: int|
                room.spec_contains(xx, yy) && yy < y + 1 implies map.tiles@[#[trigger] idx_xy(xx, yy)]
                == TileType::Floor by {
            }
        }
        y += 1;
    }
}

/// Carve a horizontal corridor between two columns at row `y`.
pub fn horizontal_tunnel(map: &mut GameMap, x1: i32, x2: i32, y: i32)
    requires
        old(map).wf(),
        1 <= y < SCREEN_HEIGHT - 1,
        1 <= x1 < SCREEN_WIDTH - 1,
        1 <= x2 < SCREEN_WIDTH - 1,
    ensures
        final(map).wf(),
        final(map).revealed_tiles@ == old(map).revealed_tiles@,
        final(map).dijkstra_maps@ == old(map).dijkstra_maps@,
        boundary_walls(old(map).tiles@) ==> boundary_walls(final(map).tiles@),
        forall|i: int|
            0 <= i < NUM_TILES ==> final(map).tiles@[i] == old(map).tiles@[i] || final(map).tiles@[i] == TileType::Floor,
{
    let lo = if x1 < x2 { x1 } else { x2 };
    let hi = if x1 < x2 { x2 } else { x1 };
    let mut x = lo;
    while x <= hi
        invariant
            map.wf(),
            1 <= y < SCREEN_HEIGHT - 1,
            1 <= lo <= x,
            hi < SCREEN_WIDTH - 1,
            map.revealed_tiles@ == old(map).revealed_tiles@,
            map.dijkstra_maps@ == old(map).dijkstra_maps@,
            boundary_walls(old(map).tiles@) ==> boundary_walls(map.tiles@),
            forall|i: int|
                0 <= i < NUM_TILES ==> map.tiles@[i] == old(map).tiles@[i] || map.tiles@[i]
                    == TileType::Floor,
        decreases hi + 1 - x,
    {
        carve(map, x, y);
        x += 1;
    }
}

/// Carve a vertical corridor between two rows at column `x`.
pub fn vertical_tunnel(map: &mut GameMap, y1: i32, y2: i32, x: i32)
    requires
        old(map).wf(),
        1 <= x < SCREEN_WIDTH - 1,
        1 <= y1 < SCREEN_HEIGHT - 1,
        1 <= y2 < SCREEN_HEIGHT - 1,
    ensures
        final(map).wf(),
        final(map).revealed_tiles@ == old(map).revealed_tiles@,
        final(map).dijkstra_maps@ == old(map).dijkstra_maps@,
        boundary_walls(old(map).tiles@) ==> boundary_walls(final(map).tiles@),
        forall|i: int|
            0 <= i < NUM_TILES ==> final(map).tiles@[i] == old(map).tiles@[i] || final(map).tiles@[i] == TileType::Floor,
{
    let lo = if y1 < y2 { y1 } else { y2 };
    let hi = if y1 < y2 { y2 } else { y1 };
    let mut y = lo;
    while y <= hi
        invariant
            map.wf(),
            1 <= x < SCREEN_WIDTH - 1,
            1 <= lo <= y,
            hi < SCREEN_HEIGHT - 1,
            map.revealed_tiles@ == old(map).revealed_tiles@,
            map.dijkstra_maps@ == old(map).dijkstra_maps@,
            boundary_walls(old(map).tiles@) ==> boundary_walls(map.tiles@),
            forall|i: int|
                0 <= i < NUM_TILES ==> map.tiles@[i] == old(map).tiles@[i] || map.tiles@[i]
                    == TileType::Floor,
        decreases hi + 1 - y,
    {
        carve(map, x, y);
        y += 1;
    }
}

/// Every cell of a path from `from` is itself reachable from `from`.
proof fn lemma_path_prefix_reachable(tiles: Seq<TileType>, p: Seq<int>, k: int)
    requires
        is_path(tiles, p),
        0 <= k < p.len(),
    ensures
        reachable(tiles, p.first(), p[k]),
{
    let q = p.take(k + 1);
    assert(q.len() == k + 1);
    assert forall|m: int| 0 <= m < q.len() implies 0 <= #[trigger] q[m] < NUM_TILES
        && tile_enterable(tiles[q[m]]) by {
        assert(q[m] == p[m]);
    }
    assert forall|m: int| 0 < m < q.len() implies crate::path::cardinal_adjacent(
        q[m - 1],
        #[trigger] q[m],
    ) by {
        assert(q[m] == p[m] && q[m - 1] == p[m - 1]);
    }
    assert(is_path(tiles, q));
    assert(q.first() == p.first() && q.last() == p[k]);
}

/// Convert every enterable cell that cannot be walked to from `from`
/// into wall. Afterwards every enterable cell is reachable from `from`,
/// and whatever was reachable stays reachable.
pub fn fill_unreachable(map: &mut GameMap, from: Point)
    requires
        old(map).wf(),
        old(map).spec_can_enter(from),
    ensures
        final(map).wf(),
        final(map).revealed_tiles@ == old(map).revealed_tiles@,
        final(map).dijkstra_maps@ == old(map).dijkstra_maps@,
        boundary_walls(old(map).tiles@) ==> boundary_walls(final(map).tiles@),
        final(map).spec_can_enter(from),
        forall|i: int|
            0 <= i < NUM_TILES ==> #[trigger] final(map).tiles@[i] == (if tile_enterable(
                old(map).tiles@[i],
            ) && !reachable(old(map).tiles@, idx_of(from), i) {
                TileType::Wall
            } else {
                old(map).tiles@[i]
            }),
        forall|i: int|
            0 <= i < NUM_TILES ==> (tile_enterable(#[trigger] final(map).tiles@[i]) <==> (
            tile_enterable(old(map).tiles@[i]) && reachable(old(map).tiles@, idx_of(from), i))),
        forall|i: int|
            0 <= i < NUM_TILES && tile_enterable(#[trigger] final(map).tiles@[i]) ==> reachable(
                final(map).tiles@,
                idx_of(from),
                i,
            ),
{
    proof {
        lemma_point_of_idx_of(from.x as int, from.y as int);
    }
    let start = GameMap::map_idx(from);
    let mask = reachable_mask(&map.tiles, start);
    let ghost tiles0 = map.tiles@;
    let mut i: usize = 0;
    while i < NUM_TILES
        invariant
            map.wf(),
            map.revealed_tiles@ == old(map).revealed_tiles@,
            map.dijkstra_maps@ == old(map).dijkstra_maps@,
            i <= NUM_TILES,
            tiles0 == old(map).tiles@,
            start == idx_of(from),
            mask@.len() == NUM_TILES,
            forall|c: int| 0 <= c < NUM_TILES ==> (mask@[c] <==> reachable(tiles0, start as int, c)),
            forall|c: int|
                0 <= c < i ==> #[trigger] map.tiles@[c] == (if tile_enterable(tiles0[c])
                    && !mask@[c] {
                    TileType::Wall
                } else {
                    tiles0[c]
                }),
            forall|c: int| i <= c < NUM_TILES ==> #[trigger] map.tiles@[c] == tiles0[c],
        decreases NUM_TILES - i,
    {
        let t = map.tiles[i];
        if (t == TileType::Floor || t == TileType::Exit) && !mask[i] {
            map.tiles.set(i, TileType::Wall);
        }
        i += 1;
    }
    proof {
        lemma_reachable_refl(tiles0, start as int);
        assert(tile_enterable(map.tiles@[start as int]));
        assert(final(map).spec_can_enter(from)) by {
            assert(map.tiles@[idx_of(from)] == map.tiles@[start as int]);
        }
        if boundary_walls(tiles0) {
            assert forall|xx: int, yy: int|
                in_bounds_xy(xx, yy) && (xx == 0 || xx == SCREEN_WIDTH - 1 || yy == 0 || yy
                    == SCREEN_HEIGHT - 1) implies #[trigger] map.tiles@[idx_xy(xx, yy)]
                == TileType::Wall by {
                lemma_point_of_idx_of(xx, yy);
                assert(tiles0[idx_xy(xx, yy)] == TileType::Wall);
            }
        }
        assert forall|c: int|
            0 <= c < NUM_TILES && tile_enterable(#[trigger] map.tiles@[c]) implies reachable(
            map.tiles@,
            start as int,
            c,
        ) by {
            assert(tile_enterable(tiles0[c]) && mask@[c]);
            let p = choose|p: Seq<int>|
                #[trigger] is_path(tiles0, p) && p.first() == start as int && p.last() == c;
            assert forall|m: int| 0 <= m < p.len() implies 0 <= #[trigger] p[m] < NUM_TILES
                && tile_enterable(map.tiles@[p[m]]) by {
                lemma_path_prefix_reachable(tiles0, p, m);
                assert(mask@[p[m]]);
            }
            assert(is_path(map.tiles@, p));
        }
    }
}

/// The reachable in-range cell whose distance field value from
/// `player_start` is greatest; ties fall to the lowest index. The
/// result maximizes a distance field of the start, and is always
/// reachable from it.
pub fn find_most_distant(map: &GameMap, player_start: Point) -> (r: Point)
    requires
        map.wf(),
        map.spec_can_enter(player_start),
    ensures
        in_bounds_xy(r.x as int, r.y as int),
        map.spec_can_enter(r),
        reachable(map.tiles@, idx_of(player_start), idx_of(r)),
        exists|values: Seq<u32>|
            #[trigger] crate::path::dijkstra_ok(
                map.tiles@,
                values,
                seq![idx_of(player_start) as usize],
            ) && values[idx_of(r)] != DIJKSTRA_SENTINEL && (forall|c: int|
                0 <= c < NUM_TILES && #[trigger] values[c] != DIJKSTRA_SENTINEL ==> values[c]
                    <= values[idx_of(r)]) && (forall|c: int|
                0 <= c < idx_of(r) ==> #[trigger] values[c] == DIJKSTRA_SENTINEL || values[c]
                    < values[idx_of(r)]),
{
    proof {
        lemma_point_of_idx_of(player_start.x as int, player_start.y as int);
    }
    let start = GameMap::map_idx(player_start);
    let mut targets: Vec<usize> = Vec::new();
    targets.push(start);
    proof {
        assert(targets@ =~= seq![start]);
    }
    let dm = DijkstraField::new(&map.tiles, &targets);
    let mut best: usize = 0;
    let mut found = false;
    let mut c: usize = 0;
    proof {
        assert(targets@[0] == start);
        assert(dm.values@[start as int] == 0);
    }
    while c < NUM_TILES
        invariant
            map.wf(),
            dm.wf(),
            start == idx_of(player_start),
            start < NUM_TILES,
            c <= NUM_TILES,
            dm.values@[start as int] == 0,
            crate::path::dijkstra_ok(map.tiles@, dm.values@, seq![start]),
            !found ==> forall|k: int| 0 <= k < c ==> #[trigger] dm.values@[k] == DIJKSTRA_SENTINEL,
            found ==> {
                &&& best < c
                &&& dm.values@[best as int] != DIJKSTRA_SENTINEL
                &&& forall|k: int|
                    0 <= k < c && #[trigger] dm.values@[k] != DIJKSTRA_SENTINEL ==> dm.values@[k]
                        <= dm.values@[best as int]
                &&& forall|k: int|
                    0 <= k < best ==> #[trigger] dm.values@[k] == DIJKSTRA_SENTINEL
                        || dm.values@[k] < dm.values@[best as int]
            },
        decreases NUM_TILES - c,
    {
        if dm.values[c] != DIJKSTRA_SENTINEL && (!found || dm.values[c] > dm.values[best]) {
            best = c;
            found = true;
        }
        c += 1;
    }
    proof {
        assert(found) by {
            if !found {
                assert(dm.values@[start as int] == DIJKSTRA_SENTINEL);
            }
        }
        if dm.values@[best as int] == 0 {
            assert(in_targets(seq![start], best as int));
            let s = choose|s: int|
                0 <= s < seq![start].len() && #[trigger] seq![start][s] as int == best as int;
            assert(best == start);
            lemma_reachable_refl(map.tiles@, start as int);
        } else {
            assert(tile_enterable(map.tiles@[best as int]));
            assert forall|s: int|
                0 <= s < seq![start].len() implies tile_enterable(
                map.tiles@[#[trigger] seq![start][s] as int],
            ) by {
                assert(seq![start][s] == start);
            }
            lemma_dijkstra_reaches_target(map.tiles@, dm.values@, seq![start], best as int);
            let t = choose|t: int|
                #[trigger] in_targets(seq![start], t) && reachable(map.tiles@, best as int, t);
            let s = choose|s: int|
                0 <= s < seq![start].len() && #[trigger] seq![start][s] as int == t;
            assert(t == start as int);
            lemma_reachable_symmetric(map.tiles@, best as int, start as int);
        }
        crate::map::lemma_idx_of_point_of(best as int);
    }
    let r = GameMap::map_point(best);
    proof {
        if dm.values@[best as int] == 0 {
        } else {
            assert(tile_enterable(map.tiles@[best as int]));
        }
        assert(tile_enterable(map.tiles@[idx_of(r)]));
        assert(seq![idx_of(player_start) as usize] =~= seq![start]);
    }
    r
}

/// Up to fifty spawn cells drawn at random from the cells reachable
/// from `around`, never `around` itself and never the same cell twice.
pub fn spawn_monsters(
    map: &GameMap,
    around: Point,
    rng: &mut bracket_lib::random::RandomNumberGenerator,
) -> (r: Vec<Point>)
    requires
        map.wf(),
        map.spec_can_enter(around),
    ensures
        forall|k: int|
            0 <= k < r@.len() ==> map.spec_can_enter(#[trigger] r@[k]) && reachable(
                map.tiles@,
                idx_of(around),
                idx_of(r@[k]),
            ) && r@[k] != around,
        forall|a: int, b: int| 0 <= a < b < r@.len() ==> r@[a] != r@[b],
        r@.len() <= 50,
{
    proof {
        lemma_point_of_idx_of(around.x as int, around.y as int);
    }
    let start = GameMap::map_idx(around);
    let mask = reachable_mask(&map.tiles, start);
    let mut candidates: Vec<usize> = Vec::new();
    let mut c: usize = 0;
    while c < NUM_TILES
        invariant
            map.wf(),
            start == idx_of(around),
            start < NUM_TILES,
            c <= NUM_TILES,
            mask@.len() == NUM_TILES,
            forall|i: int|
                0 <= i < NUM_TILES ==> (mask@[i] <==> reachable(map.tiles@, start as int, i)),
            candidates@.len() <= c,
            forall|k: int|
                0 <= k < candidates@.len() ==> #[trigger] candidates@[k] < NUM_TILES
                    && candidates@[k] != start && mask@[candidates@[k] as int] && tile_enterable(
                    map.tiles@[candidates@[k] as int],
                ),
            forall|a: int, b: int|
                0 <= a < b < candidates@.len() ==> candidates@[a] != candidates@[b],
            forall|k: int| 0 <= k < candidates@.len() ==> c > #[trigger] candidates@[k],
        decreases NUM_TILES - c,
    {
        let t = map.tiles[c];
        if (t == TileType::Floor || t == TileType::Exit) && c != start && mask[c] {
            candidates.push(c);
        }
        c += 1;
    }
    let mut spawns: Vec<Point> = Vec::new();
    let mut n: usize = 0;
    while n < 50 && candidates.len() > 0
        invariant
            map.wf(),
            start == idx_of(around),
            n <= 50,
            spawns@.len() <= n,
            candidates@.len() <= NUM_TILES,
            forall|k: int|
                0 <= k < candidates@.len() ==> #[trigger] candidates@[k] < NUM_TILES
                    && candidates@[k] != start && reachable(
                    map.tiles@,
                    start as int,
                    candidates@[k] as int,
                ) && tile_enterable(map.tiles@[candidates@[k] as int]),
            forall|a: int, b: int|
                0 <= a < b < candidates@.len() ==> candidates@[a] != candidates@[b],
            forall|k: int|
                0 <= k < spawns@.len() ==> map.spec_can_enter(#[trigger] spawns@[k]) && reachable(
                    map.tiles@,
                    idx_of(around),
                    idx_of(spawns@[k]),
                ) && spawns@[k] != around,
            forall|a: int, b: int| 0 <= a < b < spawns@.len() ==> spawns@[a] != spawns@[b],
            forall|k: int, m: int|
                0 <= k < spawns@.len() && 0 <= m < candidates@.len() ==> idx_of(#[trigger] spawns@[k])
                    != #[trigger] candidates@[m] as int,
        decreases 50 - n,
    {
        let pick = rng_range(rng, 0, candidates.len() as i32);
        let cell = candidates.swap_remove(pick as usize);
        let p = GameMap::map_point(cell);
        proof {
            crate::map::lemma_idx_of_point_of(cell as int);
            if p == around {
                assert(idx_of(p) == idx_of(around));
            }
            assert forall|k: int, m: int|
                0 <= k < spawns@.len() + 1 && 0 <= m < candidates@.len() implies idx_of(
                #[trigger] spawns@.push(p)[k],
            ) != #[trigger] candidates@[m] as int by {
                if k < spawns@.len() {
                    assert(spawns@.push(p)[k] == spawns@[k]);
                }
            }
            assert forall|a: int, b: int|
                0 <= a < b < spawns@.len() + 1 implies spawns@.push(p)[a] != spawns@.push(p)[b] by {
                if b < spawns@.len() {
                } else {
                    assert(spawns@.push(p)[b] == p);
                    if a < spawns@.len() {
                        assert(idx_of(spawns@[a]) != cell as int);
                    }
                }
            }
        }
        spawns.push(p);
        n += 1;
    }
    spawns
}

impl MapBuilder {
    /// Build a level with an architect chosen at random.
    pub fn new(rng: &mut bracket_lib::random::RandomNumberGenerator) -> (mb: MapBuilder)
        ensures
            builder_ok(mb),
    {
        let pick = rng_range(rng, 0, 3);
        if pick == 0 {
            rooms::RoomsArchitect::new(rng)
        } else if pick == 1 {
            automata::CellularAutomataArchitect::new(rng)
        } else {
            drunkard::DrunkardsWalkArchitect::new(rng)
        }
    }
}

} // verus!
