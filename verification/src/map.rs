use vstd::prelude::*;
use crate::point::Point;
use crate::path::DijkstraField;
use crate::{NUM_TILES, SCREEN_HEIGHT, SCREEN_WIDTH};

verus! {

/// One cell of the grid.
#[derive(Clone, Copy, PartialEq, Eq, Structural, Debug)]
pub enum TileType {
    Wall,
    Floor,
    Exit,
}

/// What the player knows of one cell.
#[derive(Clone, Copy, PartialEq, Eq, Structural, Debug)]
pub enum Revealed {
    Unrevealable,
    Unrevealed,
    Seen,
    FromMap,
}

/// Whether `(x, y)` lies on the grid.
pub open spec fn in_bounds_xy(x: int, y: int) -> bool {
    0 <= x < SCREEN_WIDTH && 0 <= y < SCREEN_HEIGHT
}

/// The row-major index of `(x, y)`.
pub open spec fn idx_xy(x: int, y: int) -> int {
    y * SCREEN_WIDTH + x
}

/// The column of cell `idx`.
pub open spec fn x_of(idx: int) -> int {
    idx % (SCREEN_WIDTH as int)
}

/// The row of cell `idx`.
pub open spec fn y_of(idx: int) -> int {
    idx / (SCREEN_WIDTH as int)
}

/// The cell `idx` as a point.
pub open spec fn point_of(idx: int) -> Point {
    Point { x: x_of(idx) as i32, y: y_of(idx) as i32 }
}

pub open spec fn idx_of(p: Point) -> int {
    idx_xy(p.x as int, p.y as int)
}

pub broadcast proof fn lemma_idx_of_point_of(idx: int)
    requires
        0 <= idx < NUM_TILES,
    ensures
        #[trigger] idx_of(point_of(idx)) == idx,
        in_bounds_xy(point_of(idx).x as int, point_of(idx).y as int),
{
    let w = SCREEN_WIDTH as int;
    assert(idx == w * (idx / w) + idx % w) by {
        vstd::arithmetic::div_mod::lemma_fundamental_div_mod(idx, w);
    }
}

pub broadcast proof fn lemma_point_of_idx_of(x: int, y: int)
    requires
        in_bounds_xy(x, y),
    ensures
        0 <= #[trigger] idx_xy(x, y) < NUM_TILES,
        x_of(idx_xy(x, y)) == x,
        y_of(idx_xy(x, y)) == y,
{
    let w = SCREEN_WIDTH as int;
    assert((y * w + x) / w == y && (y * w + x) % w == x) by {
        vstd::arithmetic::div_mod::lemma_fundamental_div_mod_converse(y * w + x, w, y, x);
    }
}

/// A tile blocks sight exactly when it is a wall.
pub open spec fn tile_opaque(t: TileType) -> bool {
    t == TileType::Wall
}

/// A tile can be stepped onto exactly when it is a floor or the exit.
pub open spec fn tile_enterable(t: TileType) -> bool {
    t == TileType::Floor || t == TileType::Exit
}

/// Whether the cell at offset `(dx, dy)` from cell `idx` lies on the grid
/// and holds a non-opaque tile.
pub open spec fn neighbor_open(tiles: Seq<TileType>, idx: int, dx: int, dy: int) -> bool {
    let nx = x_of(idx) + dx;
    let ny = y_of(idx) + dy;
    in_bounds_xy(nx, ny) && !tile_opaque(tiles[idx_xy(nx, ny)])
}

/// Whether the cell `idx` of `tiles` may ever be revealed: it or one of its
/// eight neighbors is non-opaque.
pub open spec fn revealable(tiles: Seq<TileType>, idx: int) -> bool {
    exists|dx: int, dy: int|
        -1 <= dx <= 1 && -1 <= dy <= 1 && #[trigger] neighbor_open(tiles, idx, dx, dy)
}

/// The revelation map that `update_revealability` produces from `tiles` over
/// the previous revelation map `revealed`.
pub open spec fn reveal_update(tiles: Seq<TileType>, revealed: Seq<Revealed>) -> Seq<Revealed> {
    Seq::new(
        revealed.len(),
        |i: int|
            if revealable(tiles, i) {
                Revealed::Unrevealed
            } else {
                revealed[i]
            },
    )
}

/// Every cell of the outer ring is a wall.
pub open spec fn boundary_walls(tiles: Seq<TileType>) -> bool {
    forall|x: int, y: int|
        in_bounds_xy(x, y) && (x == 0 || x == SCREEN_WIDTH - 1 || y == 0 || y == SCREEN_HEIGHT - 1)
            ==> #[trigger] tiles[idx_xy(x, y)] == TileType::Wall
}

/// The tile grid, the revelation map over it, and the cached distance
/// fields used by the roaming AI.
pub struct GameMap {
    pub tiles: Vec<TileType>,
    pub revealed_tiles: Vec<Revealed>,
    pub dijkstra_maps: Vec<Option<DijkstraField>>,
}

impl GameMap {
    /// The three parallel arrays cover the whole grid.
    pub open spec fn wf(self) -> bool {
        &&& self.tiles@.len() == NUM_TILES
        &&& self.revealed_tiles@.len() == NUM_TILES
        &&& self.dijkstra_maps@.len() == NUM_TILES
    }

    /// Whether an entity may stand on `p`.
    pub open spec fn spec_can_enter(self, p: Point) -> bool {
        in_bounds_xy(p.x as int, p.y as int) && tile_enterable(self.tiles@[idx_of(p)])
    }

    pub fn new() -> (r: GameMap)
        ensures
            r.wf(),
            forall|i: int| 0 <= i < NUM_TILES ==> r.tiles@[i] == TileType::Floor,
            forall|i: int| 0 <= i < NUM_TILES ==> r.revealed_tiles@[i] == Revealed::Unrevealable,
            forall|i: int| 0 <= i < NUM_TILES ==> r.dijkstra_maps@[i] is None,
    {
        let mut tiles: Vec<TileType> = Vec::new();
        let mut revealed: Vec<Revealed> = Vec::new();
        let mut dijkstra: Vec<Option<DijkstraField>> = Vec::new();
        let mut i: usize = 0;
        while i < NUM_TILES
            invariant
                i <= NUM_TILES,
                tiles@.len() == i,
                revealed@.len() == i,
                dijkstra@.len() == i,
                forall|j: int| 0 <= j < i ==> tiles@[j] == TileType::Floor,
                forall|j: int| 0 <= j < i ==> revealed@[j] == Revealed::Unrevealable,
                forall|j: int| 0 <= j < i ==> dijkstra@[j] is None,
            decreases NUM_TILES - i,
        {
            tiles.push(TileType::Floor);
            revealed.push(Revealed::Unrevealable);
            dijkstra.push(None);
            i += 1;
        }
        GameMap { tiles, revealed_tiles: revealed, dijkstra_maps: dijkstra }
    }

    pub fn in_bounds(point: Point) -> (r: bool)
        ensures
            r == in_bounds_xy(point.x as int, point.y as int),
    {
        point.x >= 0 && point.x < SCREEN_WIDTH && point.y >= 0 && point.y < SCREEN_HEIGHT
    }

    pub fn map_idx(point: Point) -> (r: usize)
        requires
            in_bounds_xy(point.x as int, point.y as int),
        ensures
            r == idx_of(point),
            r < NUM_TILES,
    {
        proof {
            lemma_point_of_idx_of(point.x as int, point.y as int);
        }
        (point.y * SCREEN_WIDTH + point.x) as usize
    }

    pub fn map_point(idx: usize) -> (r: Point)
        requires
            idx < NUM_TILES,
        ensures
            r == point_of(idx as int),
            in_bounds_xy(r.x as int, r.y as int),
            idx_of(r) == idx,
    {
        proof {
            lemma_idx_of_point_of(idx as int);
        }
        Point::new((idx % SCREEN_WIDTH as usize) as i32, (idx / SCREEN_WIDTH as usize) as i32)
    }

    pub fn try_idx(point: Point) -> (r: Option<usize>)
        ensures
            r is Some <==> in_bounds_xy(point.x as int, point.y as int),
            r is Some ==> r.unwrap() == idx_of(point) && r.unwrap() < NUM_TILES,
    {
        if !Self::in_bounds(point) {
            None
        } else {
            Some(Self::map_idx(point))
        }
    }

    pub fn is_opaque(tile_type: TileType) -> (r: bool)
        ensures
            r == tile_opaque(tile_type),
    {
        tile_type == TileType::Wall
    }

    pub fn can_enter_tile(&self, point: Point) -> (r: bool)
        requires
            self.wf(),
        ensures
            r == self.spec_can_enter(point),
    {
        if !Self::in_bounds(point) {
            false
        } else {
            let tile_type = self.tiles[Self::map_idx(point)];
            tile_type == TileType::Floor || tile_type == TileType::Exit
        }
    }

    /// Whether the cell `idx` or one of its eight neighbors holds a
    /// non-opaque tile.
    fn cell_revealable(&self, idx: usize) -> (r: bool)
        requires
            self.wf(),
            idx < NUM_TILES,
        ensures
            r == revealable(self.tiles@, idx as int),
    {
        let p = Self::map_point(idx);
        let mut dy: i32 = -1;
        while dy <= 1
            invariant
                self.wf(),
                idx < NUM_TILES,
                p == point_of(idx as int),
                in_bounds_xy(p.x as int, p.y as int),
                -1 <= dy <= 2,
                forall|ddx: int, ddy: int|
                    -1 <= ddx <= 1 && -1 <= ddy < dy ==> !#[trigger] neighbor_open(
                        self.tiles@,
                        idx as int,
                        ddx,
                        ddy,
                    ),
            decreases 1 - dy + 1,
        {
            let mut dx: i32 = -1;
            while dx <= 1
                invariant
                    self.wf(),
                    idx < NUM_TILES,
                    p == point_of(idx as int),
                    in_bounds_xy(p.x as int, p.y as int),
                    -1 <= dy <= 1,
                    -1 <= dx <= 2,
                    forall|ddx: int, ddy: int|
                        -1 <= ddx <= 1 && -1 <= ddy < dy ==> !#[trigger] neighbor_open(
                            self.tiles@,
                            idx as int,
                            ddx,
                            ddy,
                        ),
                    forall|ddx: int|
                        -1 <= ddx < dx ==> !#[trigger] neighbor_open(self.tiles@, idx as int, ddx, dy as int),
                decreases 1 - dx + 1,
            {
                let np = Point::new(p.x + dx, p.y + dy);
                if Self::in_bounds(np) {
                    let nidx = Self::map_idx(np);
                    if !Self::is_opaque(self.tiles[nidx]) {
                        proof {
                            assert(neighbor_open(self.tiles@, idx as int, dx as int, dy as int));
                            assert(revealable(self.tiles@, idx as int));
                        }
                        return true;
                    }
                }
                proof {
                    assert(!neighbor_open(self.tiles@, idx as int, dx as int, dy as int));
                }
                dx += 1;
            }
            dy += 1;
        }
        proof {
            assert forall|ddx: int, ddy: int|
                -1 <= ddx <= 1 && -1 <= ddy <= 1 implies !#[trigger] neighbor_open(
                self.tiles@,
                idx as int,
                ddx,
                ddy,
            ) by {
                assert(ddy < dy);
            }
        }
        false
    }

    /// Recompute which cells may ever be revealed: each cell with a
    /// non-opaque tile in its own cell or its eight neighbors becomes
    /// `Unrevealed`; every other cell keeps its previous state.
    pub fn update_revealability(&mut self)
        requires
            old(self).wf(),
        ensures
            final(self).wf(),
            final(self).tiles@ == old(self).tiles@,
            final(self).dijkstra_maps@ == old(self).dijkstra_maps@,
            final(self).revealed_tiles@ == reveal_update(old(self).tiles@, old(self).revealed_tiles@),
    {
        let mut idx: usize = 0;
        while idx < NUM_TILES
            invariant
                old(self).wf(),
                self.wf(),
                self.tiles@ == old(self).tiles@,
                self.dijkstra_maps@ == old(self).dijkstra_maps@,
                idx <= NUM_TILES,
                self.revealed_tiles@.len() == NUM_TILES,
                forall|j: int|
                    0 <= j < idx ==> self.revealed_tiles@[j] == reveal_update(
                        old(self).tiles@,
                        old(self).revealed_tiles@,
                    )[j],
                forall|j: int| idx <= j < NUM_TILES ==> self.revealed_tiles@[j] == old(self).revealed_tiles@[j],
            decreases NUM_TILES - idx,
        {
            if self.cell_revealable(idx) {
                self.revealed_tiles.set(idx, Revealed::Unrevealed);
            }
            idx += 1;
        }
        proof {
            assert(self.revealed_tiles@ =~= reveal_update(old(self).tiles@, old(self).revealed_tiles@));
        }
    }
}

impl GameMap {
    /// Rebuild the cached distance fields: one per enterable cell, each
    /// targeted on that cell alone.
    pub fn update_dijkstra_maps(&mut self)
        requires
            old(self).wf(),
        ensures
            final(self).wf(),
            final(self).tiles@ == old(self).tiles@,
            final(self).revealed_tiles@ == old(self).revealed_tiles@,
            forall|i: int|
                0 <= i < NUM_TILES ==> ((#[trigger] final(self).dijkstra_maps@[i]) is Some
                    <==> tile_enterable(final(self).tiles@[i])),
            forall|i: int|
                0 <= i < NUM_TILES && (#[trigger] final(self).dijkstra_maps@[i]) is Some
                    ==> final(self).dijkstra_maps@[i]->0.wf() && crate::path::dijkstra_ok(
                    final(self).tiles@,
                    final(self).dijkstra_maps@[i]->0.values@,
                    seq![i as usize],
                ),
    {
        let mut fields: Vec<Option<DijkstraField>> = Vec::new();
        let mut idx: usize = 0;
        while idx < NUM_TILES
            invariant
                self.wf(),
                self == old(self),
                idx <= NUM_TILES,
                fields@.len() == idx,
                forall|i: int|
                    0 <= i < idx ==> ((#[trigger] fields@[i]) is Some <==> tile_enterable(
                        self.tiles@[i],
                    )),
                forall|i: int|
                    0 <= i < idx && (#[trigger] fields@[i]) is Some ==> fields@[i]->0.wf()
                        && crate::path::dijkstra_ok(
                        self.tiles@,
                        fields@[i]->0.values@,
                        seq![i as usize],
                    ),
            decreases NUM_TILES - idx,
        {
            let p = Self::map_point(idx);
            if self.can_enter_tile(p) {
                let mut targets: Vec<usize> = Vec::new();
                targets.push(idx);
                proof {
                    assert(targets@ =~= seq![idx]);
                }
                let field = DijkstraField::new(&self.tiles, &targets);
                fields.push(Some(field));
            } else {
                fields.push(None);
            }
            idx += 1;
        }
        self.dijkstra_maps = fields;
    }
}

/// Recomputing revealability is idempotent: a second pass over the same
/// tiles leaves the revelation map as the first pass wrote it.
pub proof fn lemma_update_revealability_idempotent(tiles: Seq<TileType>, revealed: Seq<Revealed>)
    ensures
        reveal_update(tiles, reveal_update(tiles, revealed)) == reveal_update(tiles, revealed),
{
    assert(reveal_update(tiles, reveal_update(tiles, revealed)) =~= reveal_update(tiles, revealed));
}

/// The cached distance fields are complete and correct: one per
/// enterable cell, each the breadth-first field targeted on that cell.
pub open spec fn dijkstra_cache_ok(m: GameMap) -> bool {
    &&& m.wf()
    &&& forall|i: int|
        0 <= i < NUM_TILES ==> ((#[trigger] m.dijkstra_maps@[i]) is Some <==> tile_enterable(
            m.tiles@[i],
        ))
    &&& forall|i: int|
        0 <= i < NUM_TILES && (#[trigger] m.dijkstra_maps@[i]) is Some
            ==> m.dijkstra_maps@[i]->0.wf() && crate::path::dijkstra_ok(
            m.tiles@,
            m.dijkstra_maps@[i]->0.values@,
            seq![i as usize],
        )
}

} // verus!
