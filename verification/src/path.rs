use vstd::prelude::*;
use crate::map::{
    idx_xy, in_bounds_xy, lemma_idx_of_point_of, lemma_point_of_idx_of, tile_enterable, x_of, y_of,
    TileType,
};
use crate::NUM_TILES;

verus! {

/// Cap on the cumulative step cost a distance field records.
pub const DIJKSTRA_MAX_DEPTH: u32 = 1024;

/// Value held by cells that no target reaches within the cap.
pub const DIJKSTRA_SENTINEL: u32 = 0xffff_ffff;

/// Whether cells `a` and `b` are one cardinal step apart on the grid.
pub open spec fn cardinal_adjacent(a: int, b: int) -> bool {
    &&& 0 <= a < NUM_TILES
    &&& 0 <= b < NUM_TILES
    &&& {
        ||| (x_of(b) == x_of(a) + 1 && y_of(b) == y_of(a))
        ||| (x_of(b) == x_of(a) - 1 && y_of(b) == y_of(a))
        ||| (x_of(b) == x_of(a) && y_of(b) == y_of(a) + 1)
        ||| (x_of(b) == x_of(a) && y_of(b) == y_of(a) - 1)
    }
}

/// A walk over the grid: every cell enterable, consecutive cells one
/// cardinal step apart.
pub open spec fn is_path(tiles: Seq<TileType>, p: Seq<int>) -> bool {
    &&& p.len() > 0
    &&& forall|k: int|
        0 <= k < p.len() ==> 0 <= #[trigger] p[k] < NUM_TILES && tile_enterable(tiles[p[k]])
    &&& forall|k: int| 0 < k < p.len() ==> cardinal_adjacent(p[k - 1], #[trigger] p[k])
}

/// Whether a walk over enterable cells leads from `from` to `to`.
pub open spec fn reachable(tiles: Seq<TileType>, from: int, to: int) -> bool {
    exists|p: Seq<int>| #[trigger] is_path(tiles, p) && p.first() == from && p.last() == to
}

pub proof fn lemma_reachable_refl(tiles: Seq<TileType>, c: int)
    requires
        0 <= c < NUM_TILES,
        tile_enterable(tiles[c]),
    ensures
        reachable(tiles, c, c),
{
    let p = seq![c];
    assert(is_path(tiles, p));
    assert(p.first() == c && p.last() == c);
}

pub proof fn lemma_reachable_step(tiles: Seq<TileType>, from: int, a: int, b: int)
    requires
        reachable(tiles, from, a),
        cardinal_adjacent(a, b),
        tile_enterable(tiles[b]),
    ensures
        reachable(tiles, from, b),
{
    let p = choose|p: Seq<int>| #[trigger] is_path(tiles, p) && p.first() == from && p.last() == a;
    let q = p.push(b);
    assert forall|k: int| 0 < k < q.len() implies cardinal_adjacent(q[k - 1], #[trigger] q[k]) by {
        if k < q.len() - 1 {
            assert(q[k - 1] == p[k - 1] && q[k] == p[k]);
        } else {
            assert(q[k - 1] == p[p.len() - 1] && q[k] == b);
        }
    }
    assert(is_path(tiles, q));
    assert(q.first() == from && q.last() == b);
}

pub proof fn lemma_reachable_symmetric(tiles: Seq<TileType>, from: int, to: int)
    requires
        reachable(tiles, from, to),
    ensures
        reachable(tiles, to, from),
{
    let p = choose|p: Seq<int>| #[trigger] is_path(tiles, p) && p.first() == from && p.last() == to;
    let q = p.reverse();
    assert forall|k: int| 0 < k < q.len() implies cardinal_adjacent(q[k - 1], #[trigger] q[k]) by {
        let n = p.len();
        assert(q[k - 1] == p[n - k] && q[k] == p[n - 1 - k]);
        assert(cardinal_adjacent(p[n - k - 1], p[n - k]));
    }
    assert(is_path(tiles, q));
    assert(q.first() == to && q.last() == from);
}

/// A set of cells (given as a mask) that contains `from` and is closed
/// under enterable cardinal steps contains every cell reachable from
/// `from`.
pub proof fn lemma_closed_set_contains_reachable(
    tiles: Seq<TileType>,
    mask: Seq<bool>,
    from: int,
    to: int,
)
    requires
        mask.len() == NUM_TILES,
        0 <= from < NUM_TILES,
        mask[from],
        forall|a: int, b: int|
            0 <= a < NUM_TILES && mask[a] && #[trigger] cardinal_adjacent(a, b) && tile_enterable(
                tiles[b],
            ) ==> mask[b],
        reachable(tiles, from, to),
    ensures
        0 <= to < NUM_TILES,
        mask[to],
{
    let p = choose|p: Seq<int>| #[trigger] is_path(tiles, p) && p.first() == from && p.last() == to;
    lemma_path_stays_in_closed_set(tiles, mask, p, p.len() - 1);
}

proof fn lemma_path_stays_in_closed_set(tiles: Seq<TileType>, mask: Seq<bool>, p: Seq<int>, k: int)
    requires
        mask.len() == NUM_TILES,
        is_path(tiles, p),
        0 <= p.first() < NUM_TILES,
        mask[p.first()],
        forall|a: int, b: int|
            0 <= a < NUM_TILES && mask[a] && #[trigger] cardinal_adjacent(a, b) && tile_enterable(
                tiles[b],
            ) ==> mask[b],
        0 <= k < p.len(),
    ensures
        mask[p[k]],
    decreases k,
{
    if k > 0 {
        lemma_path_stays_in_closed_set(tiles, mask, p, k - 1);
        assert(cardinal_adjacent(p[k - 1], p[k]));
        assert(tile_enterable(tiles[p[k]]));
    }
}

/// Cells that lie one cardinal step apart as coordinates are adjacent as
/// indices.
pub proof fn lemma_adjacent_xy(x: int, y: int, nx: int, ny: int)
    requires
        in_bounds_xy(x, y),
        in_bounds_xy(nx, ny),
        (nx == x + 1 && ny == y) || (nx == x - 1 && ny == y) || (nx == x && ny == y + 1) || (nx == x
            && ny == y - 1),
    ensures
        cardinal_adjacent(idx_xy(x, y), idx_xy(nx, ny)),
{
    lemma_point_of_idx_of(x, y);
    lemma_point_of_idx_of(nx, ny);
}

spec fn count_trues(s: Seq<bool>) -> nat
    decreases s.len(),
{
    if s.len() == 0 {
        0
    } else {
        count_trues(s.drop_last()) + if s.last() {
            1nat
        } else {
            0nat
        }
    }
}

proof fn lemma_count_trues_le_len(s: Seq<bool>)
    ensures
        count_trues(s) <= s.len(),
    decreases s.len(),
{
    if s.len() > 0 {
        lemma_count_trues_le_len(s.drop_last());
    }
}

proof fn lemma_count_trues_update(s: Seq<bool>, i: int)
    requires
        0 <= i < s.len(),
        !s[i],
    ensures
        count_trues(s.update(i, true)) == count_trues(s) + 1,
    decreases s.len(),
{
    let t = s.update(i, true);
    if i == s.len() - 1 {
        assert(t.drop_last() =~= s.drop_last());
    } else {
        assert(t.drop_last() =~= s.drop_last().update(i, true));
        lemma_count_trues_update(s.drop_last(), i);
        assert(t.last() == s.last());
    }
}

proof fn lemma_count_trues_all_false(s: Seq<bool>)
    requires
        forall|j: int| 0 <= j < s.len() ==> !s[j],
    ensures
        count_trues(s) == 0,
    decreases s.len(),
{
    if s.len() > 0 {
        lemma_count_trues_all_false(s.drop_last());
    }
}

/// Whether `a` occurs in the stack of pending cells.
spec fn in_stack(stack: Seq<usize>, a: int) -> bool {
    exists|s: int| 0 <= s < stack.len() && #[trigger] stack[s] as int == a
}

proof fn lemma_in_stack_push(stack: Seq<usize>, x: usize, a: int)
    ensures
        in_stack(stack.push(x), a) <==> (in_stack(stack, a) || x as int == a),
{
    let q = stack.push(x);
    if in_stack(q, a) {
        let s = choose|s: int| 0 <= s < q.len() && #[trigger] q[s] as int == a;
        if s < stack.len() {
            assert(stack[s] as int == a);
        } else {
            assert(q[s] == x);
        }
    }
    if in_stack(stack, a) {
        let s = choose|s: int| 0 <= s < stack.len() && #[trigger] stack[s] as int == a;
        assert(q[s] as int == a);
    }
    if x as int == a {
        assert(q[q.len() - 1] as int == a);
    }
}

proof fn lemma_in_stack_drop_last(stack: Seq<usize>, a: int)
    requires
        stack.len() > 0,
    ensures
        in_stack(stack, a) <==> (in_stack(stack.drop_last(), a) || stack.last() as int == a),
{
    let q = stack.drop_last();
    if in_stack(stack, a) {
        let s = choose|s: int| 0 <= s < stack.len() && #[trigger] stack[s] as int == a;
        if s < stack.len() - 1 {
            assert(q[s] as int == a);
        }
    }
    if in_stack(q, a) {
        let s = choose|s: int| 0 <= s < q.len() && #[trigger] q[s] as int == a;
        assert(stack[s] as int == a);
    }
    if stack.last() as int == a {
        assert(stack[stack.len() - 1] as int == a);
    }
}

/// Every marked cell is enterable and reachable from `start`, and every
/// stacked cell is a marked cell of the grid.
spec fn flood_sound(tiles: Seq<TileType>, marked: Seq<bool>, stack: Seq<usize>, start: int) -> bool {
    &&& marked.len() == NUM_TILES
    &&& 0 <= start < NUM_TILES
    &&& marked[start]
    &&& forall|i: int|
        0 <= i < NUM_TILES && #[trigger] marked[i] ==> tile_enterable(tiles[i]) && reachable(
            tiles,
            start,
            i,
        )
    &&& forall|s: int| 0 <= s < stack.len() ==> #[trigger] stack[s] < NUM_TILES && marked[stack[s] as int]
}

/// Every marked cell that is no longer pending has all its enterable
/// cardinal neighbors marked.
spec fn flood_closed(tiles: Seq<TileType>, marked: Seq<bool>, stack: Seq<usize>) -> bool {
    forall|a: int, b: int|
        0 <= a < NUM_TILES && marked[a] && !in_stack(stack, a) && #[trigger] cardinal_adjacent(a, b)
            && tile_enterable(tiles[b]) ==> marked[b]
}

/// The cardinal neighbor of `c` at offset `(dx, dy)`, if it lies on the
/// grid and is enterable, is marked.
spec fn neighbor_done(tiles: Seq<TileType>, marked: Seq<bool>, c: int, dx: int, dy: int) -> bool {
    let nx = x_of(c) + dx;
    let ny = y_of(c) + dy;
    in_bounds_xy(nx, ny) && tile_enterable(tiles[idx_xy(nx, ny)]) ==> marked[idx_xy(nx, ny)]
}

/// The mask of cells reachable from `start` over enterable tiles,
/// computed by flood fill: a cell is marked exactly when a walk over
/// enterable cells leads to it from `start`.
pub fn reachable_mask(tiles: &Vec<TileType>, start: usize) -> (r: Vec<bool>)
    requires
        tiles@.len() == NUM_TILES,
        start < NUM_TILES,
        tile_enterable(tiles@[start as int]),
    ensures
        r@.len() == NUM_TILES,
        forall|i: int| 0 <= i < NUM_TILES ==> (r@[i] <==> reachable(tiles@, start as int, i)),
{
    let mut marked: Vec<bool> = Vec::new();
    let mut k: usize = 0;
    while k < NUM_TILES
        invariant
            k <= NUM_TILES,
            marked@.len() == k,
            forall|j: int| 0 <= j < k ==> !marked@[j],
        decreases NUM_TILES - k,
    {
        marked.push(false);
        k += 1;
    }
    proof {
        lemma_count_trues_all_false(marked@);
        lemma_count_trues_update(marked@, start as int);
        lemma_reachable_refl(tiles@, start as int);
    }
    let mut stack: Vec<usize> = Vec::new();
    marked.set(start, true);
    stack.push(start);
    let mut marked_count: usize = 1;
    proof {
        assert(stack@[0] as int == start as int);
        assert(in_stack(stack@, start as int));
    }
    while stack.len() > 0
        invariant
            tiles@.len() == NUM_TILES,
            start < NUM_TILES,
            tile_enterable(tiles@[start as int]),
            marked_count == count_trues(marked@),
            marked_count <= NUM_TILES,
            flood_sound(tiles@, marked@, stack@, start as int),
            flood_closed(tiles@, marked@, stack@),
        decreases NUM_TILES - marked_count, stack.len(),
    {
        let ghost pre_marked = marked@;
        let ghost pre_count = marked_count as int;
        let ghost pre_stack = stack@;
        let c = stack.pop().unwrap();
        proof {
            assert(c == pre_stack.last());
            assert(stack@ == pre_stack.drop_last());
            assert forall|a: int, b: int|
                0 <= a < NUM_TILES && marked@[a] && a != c as int && !in_stack(stack@, a)
                    && #[trigger] cardinal_adjacent(a, b) && tile_enterable(tiles@[b])
                implies marked@[b] by {
                lemma_in_stack_drop_last(pre_stack, a);
            }
        }
        let p = crate::map::GameMap::map_point(c);
        let dxs: [i32; 4] = [-1, 1, 0, 0];
        let dys: [i32; 4] = [0, 0, -1, 1];
        let mut d: usize = 0;
        let mut pushed = false;
        while d < 4
            invariant
                tiles@.len() == NUM_TILES,
                start < NUM_TILES,
                tile_enterable(tiles@[start as int]),
                c < NUM_TILES,
                p == crate::map::point_of(c as int),
                in_bounds_xy(p.x as int, p.y as int),
                marked@[c as int],
                dxs@ == seq![-1i32, 1i32, 0i32, 0i32],
                dys@ == seq![0i32, 0i32, -1i32, 1i32],
                d <= 4,
                marked_count == count_trues(marked@),
                marked_count <= NUM_TILES,
                pushed ==> marked_count > pre_count,
                !pushed ==> marked@ == pre_marked && marked_count == pre_count && stack@
                    == pre_stack.drop_last(),
                flood_sound(tiles@, marked@, stack@, start as int),
                forall|a: int, b: int|
                    0 <= a < NUM_TILES && marked@[a] && a != c && !in_stack(stack@, a)
                        && #[trigger] cardinal_adjacent(a, b) && tile_enterable(tiles@[b])
                        ==> marked@[b],
                forall|dd: int|
                    0 <= dd < d ==> #[trigger] neighbor_done(
                        tiles@,
                        marked@,
                        c as int,
                        dxs@[dd] as int,
                        dys@[dd] as int,
                    ),
            decreases 4 - d,
        {
            let dx = dxs[d];
            let dy = dys[d];
            let np = crate::point::Point::new(p.x + dx, p.y + dy);
            if crate::map::GameMap::in_bounds(np) {
                let nidx = crate::map::GameMap::map_idx(np);
                let t = tiles[nidx];
                if (t == TileType::Floor || t == TileType::Exit) && !marked[nidx] {
                    let ghost m0 = marked@;
                    let ghost s0 = stack@;
                    proof {
                        lemma_adjacent_xy(p.x as int, p.y as int, np.x as int, np.y as int);
                        lemma_idx_of_point_of(c as int);
                        lemma_count_trues_update(marked@, nidx as int);
                        lemma_reachable_step(tiles@, start as int, c as int, nidx as int);
                    }
                    marked.set(nidx, true);
                    stack.push(nidx);
                    marked_count += 1;
                    pushed = true;
                    proof {
                        lemma_count_trues_le_len(marked@);
                        assert(stack@[stack@.len() - 1] as int == nidx as int);
                        assert(in_stack(stack@, nidx as int));
                        assert forall|dd: int| 0 <= dd < d implies #[trigger] neighbor_done(
                            tiles@,
                            marked@,
                            c as int,
                            dxs@[dd] as int,
                            dys@[dd] as int,
                        ) by {
                            assert(neighbor_done(tiles@, m0, c as int, dxs@[dd] as int, dys@[dd] as int));
                        }
                        assert forall|a: int, b: int|
                            0 <= a < NUM_TILES && marked@[a] && a != c as int && !in_stack(stack@, a)
                                && #[trigger] cardinal_adjacent(a, b) && tile_enterable(tiles@[b])
                            implies marked@[b] by {
                            lemma_in_stack_push(s0, nidx, a);
                            assert(a != nidx as int);
                            assert(m0[a]);
                        }
                    }
                }
            }
            proof {
                assert(neighbor_done(tiles@, marked@, c as int, dx as int, dy as int));
            }
            d += 1;
        }
        proof {
            lemma_idx_of_point_of(c as int);
            assert forall|a: int, b: int|
                0 <= a < NUM_TILES && marked@[a] && !in_stack(stack@, a) && #[trigger] cardinal_adjacent(
                    a,
                    b,
                ) && tile_enterable(tiles@[b]) implies marked@[b] by {
                if a == c {
                    lemma_neighbor_delta(c as int, b);
                    lemma_idx_of_point_of(b);
                    let dd: int = if x_of(b) == x_of(c as int) - 1 {
                        0
                    } else if x_of(b) == x_of(c as int) + 1 {
                        1
                    } else if y_of(b) == y_of(c as int) - 1 {
                        2
                    } else {
                        3
                    };
                    assert(neighbor_done(tiles@, marked@, c as int, dxs@[dd] as int, dys@[dd] as int));
                    assert(b == idx_xy(x_of(b), y_of(b)));
                }
            }
        }
    }
    proof {
        assert forall|i: int| 0 <= i < NUM_TILES && reachable(tiles@, start as int, i) implies marked@[i] by {
            lemma_closed_set_contains_reachable(tiles@, marked@, start as int, i);
        }
    }
    marked
}

/// Any cardinal neighbor of `c` differs from `c` by one of the four unit
/// offsets in coordinates.
proof fn lemma_neighbor_delta(c: int, b: int)
    requires
        cardinal_adjacent(c, b),
    ensures
        (x_of(b) == x_of(c) - 1 && y_of(b) == y_of(c)) || (x_of(b) == x_of(c) + 1 && y_of(b)
            == y_of(c)) || (x_of(b) == x_of(c) && y_of(b) == y_of(c) - 1) || (x_of(b) == x_of(c)
            && y_of(b) == y_of(c) + 1),
{
}

/// A per-cell distance field: for every cell, the minimum number of unit
/// cardinal steps to reach some target cell, capped at
/// `DIJKSTRA_MAX_DEPTH`; cells beyond the cap hold `DIJKSTRA_SENTINEL`.
pub struct DijkstraField {
    pub values: Vec<u32>,
}

/// Whether `a` occurs in the list of target cells.
pub open spec fn in_targets(targets: Seq<usize>, a: int) -> bool {
    exists|s: int| 0 <= s < targets.len() && #[trigger] targets[s] as int == a
}

/// What a computed distance field guarantees over its grid and targets:
/// targets hold zero and zeros stand only on targets; finite values stay
/// within the cap; every cell with a positive finite value is enterable
/// and has a cardinal neighbor exactly one step closer; and no enterable
/// neighbor of a cell below the cap is left unvisited or more than one
/// step further.
pub open spec fn dijkstra_ok(tiles: Seq<TileType>, values: Seq<u32>, targets: Seq<usize>) -> bool {
    &&& values.len() == NUM_TILES
    &&& forall|s: int|
        0 <= s < targets.len() ==> #[trigger] targets[s] < NUM_TILES && values[targets[s] as int] == 0
    &&& forall|i: int| 0 <= i < NUM_TILES && #[trigger] values[i] == 0 ==> in_targets(targets, i)
    &&& forall|i: int|
        0 <= i < NUM_TILES && #[trigger] values[i] != DIJKSTRA_SENTINEL ==> values[i]
            <= DIJKSTRA_MAX_DEPTH
    &&& forall|i: int|
        0 <= i < NUM_TILES && #[trigger] values[i] != DIJKSTRA_SENTINEL && values[i] > 0 ==> {
            &&& tile_enterable(tiles[i])
            &&& exists|j: int|
                #[trigger] cardinal_adjacent(i, j) && values[j] != DIJKSTRA_SENTINEL && values[j]
                    == values[i] - 1
        }
    &&& forall|i: int, j: int|
        0 <= i < NUM_TILES && values[i] != DIJKSTRA_SENTINEL && values[i] < DIJKSTRA_MAX_DEPTH
            && #[trigger] cardinal_adjacent(i, j) && tile_enterable(tiles[j]) ==> values[j]
            != DIJKSTRA_SENTINEL && values[j] <= values[i] + 1
}

impl DijkstraField {
    pub open spec fn wf(self) -> bool {
        self.values@.len() == NUM_TILES
    }

    /// Compute the distance field over `tiles` for the given target
    /// cells by breadth-first expansion with unit step costs. With no
    /// targets, every cell holds the sentinel.
    #[verifier::rlimit(100)]
    pub fn new(tiles: &Vec<TileType>, targets: &Vec<usize>) -> (r: DijkstraField)
        requires
            tiles@.len() == NUM_TILES,
            forall|s: int| 0 <= s < targets@.len() ==> #[trigger] targets@[s] < NUM_TILES,
        ensures
            r.wf(),
            dijkstra_ok(tiles@, r.values@, targets@),
            targets@.len() == 0 ==> forall|i: int|
                0 <= i < NUM_TILES ==> #[trigger] r.values@[i] == DIJKSTRA_SENTINEL,
    {
        let mut values: Vec<u32> = sentinel_values();
        let frontier_init = seed_targets(&mut values, targets);
        let mut frontier: Vec<usize> = frontier_init;
        let mut dist: u32 = 0;
        while frontier.len() > 0 && dist < DIJKSTRA_MAX_DEPTH
            invariant
                tiles@.len() == NUM_TILES,
                values@.len() == NUM_TILES,
                dist <= DIJKSTRA_MAX_DEPTH,
                targets@.len() == 0 ==> frontier@.len() == 0 && forall|i: int|
                    0 <= i < NUM_TILES ==> #[trigger] values@[i] == DIJKSTRA_SENTINEL,
                forall|s: int|
                    0 <= s < targets@.len() ==> #[trigger] targets@[s] < NUM_TILES && values@[targets@[s] as int]
                        == 0,
                forall|i: int| 0 <= i < NUM_TILES && #[trigger] values@[i] == 0 ==> in_targets(targets@, i),
                forall|i: int|
                    0 <= i < NUM_TILES && #[trigger] values@[i] != DIJKSTRA_SENTINEL ==> values@[i]
                        <= dist,
                forall|f: int|
                    0 <= f < frontier@.len() ==> #[trigger] frontier@[f] < NUM_TILES
                        && values@[frontier@[f] as int] == dist,
                forall|i: int|
                    0 <= i < NUM_TILES && #[trigger] values@[i] == dist ==> in_targets(frontier@, i),
                forall|i: int|
                    0 <= i < NUM_TILES && #[trigger] values@[i] != DIJKSTRA_SENTINEL && values@[i]
                        > 0 ==> {
                        &&& tile_enterable(tiles@[i])
                        &&& exists|j: int|
                            #[trigger] cardinal_adjacent(i, j) && values@[j] != DIJKSTRA_SENTINEL
                                && values@[j] == values@[i] - 1
                    },
                forall|i: int, j: int|
                    0 <= i < NUM_TILES && values@[i] != DIJKSTRA_SENTINEL && values@[i] < dist
                        && #[trigger] cardinal_adjacent(i, j) && tile_enterable(tiles@[j])
                        ==> values@[j] != DIJKSTRA_SENTINEL && values@[j] <= values@[i] + 1,
            decreases DIJKSTRA_MAX_DEPTH - dist,
        {
            let mut next: Vec<usize> = Vec::new();
            let mut f: usize = 0;
            while f < frontier.len()
                invariant
                    tiles@.len() == NUM_TILES,
                    values@.len() == NUM_TILES,
                    dist < DIJKSTRA_MAX_DEPTH,
                    f <= frontier@.len(),
                    forall|s: int|
                        0 <= s < targets@.len() ==> #[trigger] targets@[s] < NUM_TILES
                            && values@[targets@[s] as int] == 0,
                    forall|i: int|
                        0 <= i < NUM_TILES && #[trigger] values@[i] == 0 ==> in_targets(targets@, i),
                    forall|i: int|
                        0 <= i < NUM_TILES && #[trigger] values@[i] != DIJKSTRA_SENTINEL
                            ==> values@[i] <= dist + 1,
                    forall|g: int|
                        0 <= g < frontier@.len() ==> #[trigger] frontier@[g] < NUM_TILES
                            && values@[frontier@[g] as int] == dist,
                    forall|g: int|
                        0 <= g < next@.len() ==> #[trigger] next@[g] < NUM_TILES
                            && values@[next@[g] as int] == dist + 1,
                    forall|i: int|
                        0 <= i < NUM_TILES && #[trigger] values@[i] == dist + 1 ==> in_targets(
                            next@,
                            i,
                        ),
                    forall|i: int|
                        0 <= i < NUM_TILES && #[trigger] values@[i] != DIJKSTRA_SENTINEL
                            && values@[i] > 0 ==> {
                            &&& tile_enterable(tiles@[i])
                            &&& exists|j: int|
                                #[trigger] cardinal_adjacent(i, j) && values@[j]
                                    != DIJKSTRA_SENTINEL && values@[j] == values@[i] - 1
                        },
                    forall|i: int, j: int|
                        0 <= i < NUM_TILES && values@[i] != DIJKSTRA_SENTINEL && values@[i] < dist
                            && #[trigger] cardinal_adjacent(i, j) && tile_enterable(tiles@[j])
                            ==> values@[j] != DIJKSTRA_SENTINEL && values@[j] <= values@[i] + 1,
                    forall|i: int|
                        0 <= i < NUM_TILES && #[trigger] values@[i] == dist ==> in_targets(
                            frontier@,
                            i,
                        ),
                    forall|g: int, j: int|
                        0 <= g < f && #[trigger] cardinal_adjacent(frontier@[g] as int, j)
                            && tile_enterable(tiles@[j]) ==> values@[j] != DIJKSTRA_SENTINEL
                            && values@[j] <= dist + 1,
                decreases frontier@.len() - f,
            {
                let c = frontier[f];
                let p = crate::map::GameMap::map_point(c);
                let dxs: [i32; 4] = [-1, 1, 0, 0];
                let dys: [i32; 4] = [0, 0, -1, 1];
                let mut d: usize = 0;
                while d < 4
                    invariant
                        tiles@.len() == NUM_TILES,
                        values@.len() == NUM_TILES,
                        dist < DIJKSTRA_MAX_DEPTH,
                        f < frontier@.len(),
                        c == frontier@[f as int],
                        c < NUM_TILES,
                        values@[c as int] == dist,
                        p == crate::map::point_of(c as int),
                        in_bounds_xy(p.x as int, p.y as int),
                        dxs@ == seq![-1i32, 1i32, 0i32, 0i32],
                        dys@ == seq![0i32, 0i32, -1i32, 1i32],
                        d <= 4,
                        forall|s: int|
                            0 <= s < targets@.len() ==> #[trigger] targets@[s] < NUM_TILES
                                && values@[targets@[s] as int] == 0,
                        forall|i: int|
                            0 <= i < NUM_TILES && #[trigger] values@[i] == 0 ==> in_targets(
                                targets@,
                                i,
                            ),
                        forall|i: int|
                            0 <= i < NUM_TILES && #[trigger] values@[i] != DIJKSTRA_SENTINEL
                                ==> values@[i] <= dist + 1,
                        forall|g: int|
                            0 <= g < frontier@.len() ==> #[trigger] frontier@[g] < NUM_TILES
                                && values@[frontier@[g] as int] == dist,
                        forall|g: int|
                            0 <= g < next@.len() ==> #[trigger] next@[g] < NUM_TILES
                                && values@[next@[g] as int] == dist + 1,
                        forall|i: int|
                            0 <= i < NUM_TILES && #[trigger] values@[i] == dist + 1 ==> in_targets(
                                next@,
                                i,
                            ),
                        forall|i: int|
                            0 <= i < NUM_TILES && #[trigger] values@[i] != DIJKSTRA_SENTINEL
                                && values@[i] > 0 ==> {
                                &&& tile_enterable(tiles@[i])
                                &&& exists|j: int|
                                    #[trigger] cardinal_adjacent(i, j) && values@[j]
                                        != DIJKSTRA_SENTINEL && values@[j] == values@[i] - 1
                            },
                        forall|i: int, j: int|
                            0 <= i < NUM_TILES && values@[i] != DIJKSTRA_SENTINEL && values@[i]
                                < dist && #[trigger] cardinal_adjacent(i, j) && tile_enterable(
                                tiles@[j],
                            ) ==> values@[j] != DIJKSTRA_SENTINEL && values@[j] <= values@[i] + 1,
                        forall|i: int|
                            0 <= i < NUM_TILES && #[trigger] values@[i] == dist ==> in_targets(
                                frontier@,
                                i,
                            ),
                        forall|g: int, j: int|
                            0 <= g < f && #[trigger] cardinal_adjacent(frontier@[g] as int, j)
                                && tile_enterable(tiles@[j]) ==> values@[j] != DIJKSTRA_SENTINEL
                                && values@[j] <= dist + 1,
                        forall|dd: int|
                            0 <= dd < d ==> #[trigger] relax_done(
                                tiles@,
                                values@,
                                c as int,
                                dxs@[dd] as int,
                                dys@[dd] as int,
                                dist as int,
                            ),
                    decreases 4 - d,
                {
                    let dx = dxs[d];
                    let dy = dys[d];
                    let np = crate::point::Point::new(p.x + dx, p.y + dy);
                    if crate::map::GameMap::in_bounds(np) {
                        let nidx = crate::map::GameMap::map_idx(np);
                        let nt = tiles[nidx];
                        if (nt == TileType::Floor || nt == TileType::Exit) && values[nidx]
                            == DIJKSTRA_SENTINEL {
                            let ghost v0 = values@;
                            let ghost n0 = next@;
                            proof {
                                lemma_adjacent_xy(p.x as int, p.y as int, np.x as int, np.y as int);
                                lemma_idx_of_point_of(c as int);
                            }
                            values.set(nidx, dist + 1);
                            next.push(nidx);
                            proof {
                                assert(next@[next@.len() - 1] as int == nidx as int);
                                assert(in_targets(next@, nidx as int));
                                assert(cardinal_adjacent(nidx as int, c as int));
                                assert forall|i: int|
                                    0 <= i < NUM_TILES && #[trigger] values@[i] == dist + 1
                                    implies in_targets(next@, i) by {
                                    if i != nidx as int {
                                        assert(v0[i] == dist + 1);
                                        let s = choose|s: int|
                                            0 <= s < n0.len() && #[trigger] n0[s] as int == i;
                                        assert(next@[s] as int == i);
                                    }
                                }
                                assert forall|i: int|
                                    0 <= i < NUM_TILES && #[trigger] values@[i] == dist
                                    implies in_targets(frontier@, i) by {
                                    assert(v0[i] == dist);
                                }
                                assert forall|i: int|
                                    0 <= i < NUM_TILES && #[trigger] values@[i]
                                        != DIJKSTRA_SENTINEL && values@[i] > 0 implies {
                                    &&& tile_enterable(tiles@[i])
                                    &&& exists|j: int|
                                        #[trigger] cardinal_adjacent(i, j) && values@[j]
                                            != DIJKSTRA_SENTINEL && values@[j] == values@[i] - 1
                                } by {
                                    if i == nidx as int {
                                        assert(cardinal_adjacent(i, c as int));
                                        assert(values@[c as int] != DIJKSTRA_SENTINEL
                                            && values@[c as int] == values@[i] - 1);
                                    } else {
                                        assert(v0[i] != DIJKSTRA_SENTINEL && v0[i] > 0);
                                        let j = choose|j: int|
                                            #[trigger] cardinal_adjacent(i, j) && v0[j]
                                                != DIJKSTRA_SENTINEL && v0[j] == v0[i] - 1;
                                        assert(values@[j] != DIJKSTRA_SENTINEL && values@[j]
                                            == values@[i] - 1);
                                    }
                                }
                                assert forall|dd: int| 0 <= dd < d implies #[trigger] relax_done(
                                    tiles@,
                                    values@,
                                    c as int,
                                    dxs@[dd] as int,
                                    dys@[dd] as int,
                                    dist as int,
                                ) by {
                                    assert(relax_done(
                                        tiles@,
                                        v0,
                                        c as int,
                                        dxs@[dd] as int,
                                        dys@[dd] as int,
                                        dist as int,
                                    ));
                                }
                            }
                        }
                    }
                    proof {
                        assert(relax_done(
                            tiles@,
                            values@,
                            c as int,
                            dx as int,
                            dy as int,
                            dist as int,
                        ));
                    }
                    d += 1;
                }
                proof {
                    lemma_idx_of_point_of(c as int);
                    assert forall|j: int|
                        #[trigger] cardinal_adjacent(c as int, j) && tile_enterable(tiles@[j])
                        implies values@[j] != DIJKSTRA_SENTINEL && values@[j] <= dist + 1 by {
                        lemma_neighbor_delta(c as int, j);
                        lemma_idx_of_point_of(j);
                        let dd: int = if x_of(j) == x_of(c as int) - 1 {
                            0
                        } else if x_of(j) == x_of(c as int) + 1 {
                            1
                        } else if y_of(j) == y_of(c as int) - 1 {
                            2
                        } else {
                            3
                        };
                        assert(relax_done(
                            tiles@,
                            values@,
                            c as int,
                            dxs@[dd] as int,
                            dys@[dd] as int,
                            dist as int,
                        ));
                        assert(j == idx_xy(x_of(j), y_of(j)));
                    }
                }
                f += 1;
            }
            proof {
                assert forall|i: int, j: int|
                    0 <= i < NUM_TILES && values@[i] != DIJKSTRA_SENTINEL && values@[i] < dist + 1
                        && #[trigger] cardinal_adjacent(i, j) && tile_enterable(tiles@[j])
                    implies values@[j] != DIJKSTRA_SENTINEL && values@[j] <= values@[i] + 1 by {
                    if values@[i] == dist {
                        assert(in_targets(frontier@, i));
                        let g = choose|g: int|
                            0 <= g < frontier@.len() && #[trigger] frontier@[g] as int == i;
                        assert(cardinal_adjacent(frontier@[g] as int, j));
                    }
                }
            }
            frontier = next;
            dist = dist + 1;
        }
        proof {
            lemma_bfs_rounds_complete(tiles@, values@, frontier@, dist as int);
        }
        DijkstraField { values }
    }
}

/// When the search stops, every visited cell below the cap has all its
/// enterable neighbors visited at most one step further: cells at the
/// final distance only remain when the frontier was exhausted.
proof fn lemma_bfs_rounds_complete(
    tiles: Seq<TileType>,
    values: Seq<u32>,
    frontier: Seq<usize>,
    dist: int,
)
    requires
        values.len() == NUM_TILES,
        frontier.len() == 0 || dist == DIJKSTRA_MAX_DEPTH,
        forall|i: int|
            0 <= i < NUM_TILES && #[trigger] values[i] != DIJKSTRA_SENTINEL ==> values[i] <= dist,
        forall|i: int| 0 <= i < NUM_TILES && #[trigger] values[i] == dist ==> in_targets(frontier, i),
        forall|i: int, j: int|
            0 <= i < NUM_TILES && values[i] != DIJKSTRA_SENTINEL && values[i] < dist
                && #[trigger] cardinal_adjacent(i, j) && tile_enterable(tiles[j]) ==> values[j]
                != DIJKSTRA_SENTINEL && values[j] <= values[i] + 1,
    ensures
        forall|i: int, j: int|
            0 <= i < NUM_TILES && values[i] != DIJKSTRA_SENTINEL && values[i] < DIJKSTRA_MAX_DEPTH
                && #[trigger] cardinal_adjacent(i, j) && tile_enterable(tiles[j]) ==> values[j]
                != DIJKSTRA_SENTINEL && values[j] <= values[i] + 1,
{
    assert forall|i: int, j: int|
        0 <= i < NUM_TILES && values[i] != DIJKSTRA_SENTINEL && values[i] < DIJKSTRA_MAX_DEPTH
            && #[trigger] cardinal_adjacent(i, j) && tile_enterable(tiles[j]) implies values[j]
        != DIJKSTRA_SENTINEL && values[j] <= values[i] + 1 by {
        if values[i] == dist {
            assert(in_targets(frontier, i));
        }
    }
}

fn sentinel_values() -> (r: Vec<u32>)
    ensures
        r@.len() == NUM_TILES,
        forall|j: int| 0 <= j < NUM_TILES ==> #[trigger] r@[j] == DIJKSTRA_SENTINEL,
{
    let mut values: Vec<u32> = Vec::new();
    let mut k: usize = 0;
    while k < NUM_TILES
        invariant
            k <= NUM_TILES,
            values@.len() == k,
            forall|j: int| 0 <= j < k ==> #[trigger] values@[j] == DIJKSTRA_SENTINEL,
        decreases NUM_TILES - k,
    {
        values.push(DIJKSTRA_SENTINEL);
        k += 1;
    }
    values
}

/// Give every target cell the value zero and return them as the first
/// search frontier.
fn seed_targets(values: &mut Vec<u32>, targets: &Vec<usize>) -> (frontier: Vec<usize>)
    requires
        old(values)@.len() == NUM_TILES,
        forall|j: int| 0 <= j < NUM_TILES ==> #[trigger] old(values)@[j] == DIJKSTRA_SENTINEL,
        forall|s: int| 0 <= s < targets@.len() ==> #[trigger] targets@[s] < NUM_TILES,
    ensures
        final(values)@.len() == NUM_TILES,
        forall|i: int|
            0 <= i < NUM_TILES ==> #[trigger] final(values)@[i] == 0 || final(values)@[i]
                == DIJKSTRA_SENTINEL,
        forall|i: int|
            0 <= i < NUM_TILES && #[trigger] final(values)@[i] == 0 ==> in_targets(targets@, i),
        forall|s: int| 0 <= s < targets@.len() ==> #[trigger] final(values)@[targets@[s] as int] == 0,
        forall|f: int|
            0 <= f < frontier@.len() ==> #[trigger] frontier@[f] < NUM_TILES
                && final(values)@[frontier@[f] as int] == 0,
        forall|i: int|
            0 <= i < NUM_TILES && #[trigger] final(values)@[i] == 0 ==> in_targets(frontier@, i),
        targets@.len() == 0 ==> frontier@.len() == 0 && final(values)@ == old(values)@,
{
    let mut frontier: Vec<usize> = Vec::new();
    let mut t: usize = 0;
    while t < targets.len()
        invariant
            forall|s: int| 0 <= s < targets@.len() ==> #[trigger] targets@[s] < NUM_TILES,
            t <= targets@.len(),
            values@.len() == NUM_TILES,
            t == 0 ==> values@ == old(values)@ && frontier@.len() == 0,
            forall|i: int|
                0 <= i < NUM_TILES ==> #[trigger] values@[i] == 0 || values@[i]
                    == DIJKSTRA_SENTINEL,
            forall|i: int| 0 <= i < NUM_TILES && #[trigger] values@[i] == 0 ==> in_targets(targets@, i),
            forall|s: int| 0 <= s < t ==> #[trigger] values@[targets@[s] as int] == 0,
            forall|f: int|
                0 <= f < frontier@.len() ==> #[trigger] frontier@[f] < NUM_TILES
                    && values@[frontier@[f] as int] == 0,
            forall|i: int|
                0 <= i < NUM_TILES && #[trigger] values@[i] == 0 ==> in_targets(frontier@, i),
        decreases targets@.len() - t,
    {
        let c = targets[t];
        if values[c] == DIJKSTRA_SENTINEL {
            let ghost v0 = values@;
            let ghost f0 = frontier@;
            values.set(c, 0);
            frontier.push(c);
            proof {
                assert(targets@[t as int] as int == c as int);
                assert(in_targets(targets@, c as int));
                assert(frontier@[frontier@.len() - 1] as int == c as int);
                assert(in_targets(frontier@, c as int));
                assert forall|i: int|
                    0 <= i < NUM_TILES && #[trigger] values@[i] == 0 implies in_targets(targets@, i)
                    && in_targets(frontier@, i) by {
                    if i != c as int {
                        assert(v0[i] == 0);
                        let s = choose|s: int| 0 <= s < f0.len() && #[trigger] f0[s] as int == i;
                        assert(frontier@[s] as int == i);
                    }
                }
            }
        } else {
            proof {
                assert(targets@[t as int] as int == c as int);
                assert(in_targets(targets@, c as int));
            }
        }
        t += 1;
    }
    frontier
}

/// The neighbor of `c` at offset `(dx, dy)`, if enterable, has been
/// given a value of at most `dist + 1`.
spec fn relax_done(
    tiles: Seq<TileType>,
    values: Seq<u32>,
    c: int,
    dx: int,
    dy: int,
    dist: int,
) -> bool {
    let nx = x_of(c) + dx;
    let ny = y_of(c) + dy;
    in_bounds_xy(nx, ny) && tile_enterable(tiles[idx_xy(nx, ny)]) ==> values[idx_xy(nx, ny)]
        != DIJKSTRA_SENTINEL && values[idx_xy(nx, ny)] <= dist + 1
}

/// A cell with a finite field value reaches some target by a walk over
/// enterable cells, provided every target is enterable.
pub proof fn lemma_dijkstra_reaches_target(
    tiles: Seq<TileType>,
    values: Seq<u32>,
    targets: Seq<usize>,
    i: int,
)
    requires
        dijkstra_ok(tiles, values, targets),
        forall|s: int|
            0 <= s < targets.len() ==> tile_enterable(tiles[#[trigger] targets[s] as int]),
        0 <= i < NUM_TILES,
        values[i] != DIJKSTRA_SENTINEL,
        tile_enterable(tiles[i]),
    ensures
        exists|t: int| #[trigger] in_targets(targets, t) && reachable(tiles, i, t),
    decreases values[i],
{
    if values[i] == 0 {
        lemma_reachable_refl(tiles, i);
        assert(in_targets(targets, i));
        assert(in_targets(targets, i) && reachable(tiles, i, i));
    } else {
        let j = choose|j: int|
            #[trigger] cardinal_adjacent(i, j) && values[j] != DIJKSTRA_SENTINEL && values[j]
                == values[i] - 1;
        if values[j] == 0 {
            let s = choose|s: int| 0 <= s < targets.len() && #[trigger] targets[s] as int == j;
            assert(tile_enterable(tiles[j]));
        }
        lemma_dijkstra_reaches_target(tiles, values, targets, j);
        let t = choose|t: int| #[trigger] in_targets(targets, t) && reachable(tiles, j, t);
        lemma_reachable_symmetric(tiles, j, t);
        lemma_reachable_step(tiles, t, j, i);
        lemma_reachable_symmetric(tiles, t, i);
        assert(in_targets(targets, t) && reachable(tiles, i, t));
    }
}

/// The enumeration rank of neighbor `j` of cell `c`: west, east, north,
/// south.
pub open spec fn exit_rank(c: int, j: int) -> int {
    if x_of(j) == x_of(c) - 1 {
        0
    } else if x_of(j) == x_of(c) + 1 {
        1
    } else if y_of(j) == y_of(c) - 1 {
        2
    } else {
        3
    }
}

/// The enterable cardinal neighbors of `position`, in enumeration order
/// (west, east, north, south).
pub fn available_exits(map: &crate::map::GameMap, position: usize) -> (r: Vec<usize>)
    requires
        map.wf(),
        position < NUM_TILES,
    ensures
        forall|e: int|
            0 <= e < r@.len() ==> #[trigger] r@[e] < NUM_TILES && cardinal_adjacent(
                position as int,
                r@[e] as int,
            ) && tile_enterable(map.tiles@[r@[e] as int]),
        forall|j: int|
            cardinal_adjacent(position as int, j) && tile_enterable(map.tiles@[j]) ==> in_targets(
                r@,
                j,
            ),
        forall|e: int, g: int|
            0 <= e < g < r@.len() ==> exit_rank(position as int, r@[e] as int) < exit_rank(
                position as int,
                r@[g] as int,
            ),
        r@.len() <= 4,
{
    let p = crate::map::GameMap::map_point(position);
    let dxs: [i32; 4] = [-1, 1, 0, 0];
    let dys: [i32; 4] = [0, 0, -1, 1];
    let mut r: Vec<usize> = Vec::new();
    let mut d: usize = 0;
    while d < 4
        invariant
            map.wf(),
            position < NUM_TILES,
            p == crate::map::point_of(position as int),
            in_bounds_xy(p.x as int, p.y as int),
            dxs@ == seq![-1i32, 1i32, 0i32, 0i32],
            dys@ == seq![0i32, 0i32, -1i32, 1i32],
            d <= 4,
            r@.len() <= d,
            forall|e: int|
                0 <= e < r@.len() ==> #[trigger] r@[e] < NUM_TILES && cardinal_adjacent(
                    position as int,
                    r@[e] as int,
                ) && tile_enterable(map.tiles@[r@[e] as int]) && exit_rank(
                    position as int,
                    r@[e] as int,
                ) < d,
            forall|e: int, g: int|
                0 <= e < g < r@.len() ==> exit_rank(position as int, r@[e] as int) < exit_rank(
                    position as int,
                    r@[g] as int,
                ),
            forall|dd: int|
                0 <= dd < d ==> exit_slot_done(map.tiles@, r@, position as int, dd),
        decreases 4 - d,
    {
        let dx = dxs[d];
        let dy = dys[d];
        let np = crate::point::Point::new(p.x + dx, p.y + dy);
        let ghost r0 = r@;
        if map.can_enter_tile(np) {
            let nidx = crate::map::GameMap::map_idx(np);
            proof {
                lemma_adjacent_xy(p.x as int, p.y as int, np.x as int, np.y as int);
                lemma_idx_of_point_of(position as int);
                lemma_point_of_idx_of(np.x as int, np.y as int);
            }
            r.push(nidx);
            proof {
                assert(r@[r@.len() - 1] as int == nidx as int);
                assert(in_targets(r@, nidx as int));
                assert(exit_rank(position as int, nidx as int) == d);
                assert forall|dd: int| 0 <= dd < d implies exit_slot_done(
                    map.tiles@,
                    r@,
                    position as int,
                    dd,
                ) by {
                    assert(exit_slot_done(map.tiles@, r0, position as int, dd));
                    if exit_slot_filled(map.tiles@, position as int, dd) {
                        let s = choose|s: int|
                            0 <= s < r0.len() && #[trigger] r0[s] as int == exit_slot_cell(
                                position as int,
                                dd,
                            );
                        assert(r@[s] as int == exit_slot_cell(position as int, dd));
                    }
                }
            }
        } else {
            proof {
                assert forall|dd: int| 0 <= dd < d + 1 implies exit_slot_done(
                    map.tiles@,
                    r@,
                    position as int,
                    dd,
                ) by {
                    if dd < d {
                        assert(exit_slot_done(map.tiles@, r0, position as int, dd));
                    } else {
                        assert(!exit_slot_filled(map.tiles@, position as int, dd));
                    }
                }
            }
        }
        d += 1;
    }
    proof {
        lemma_idx_of_point_of(position as int);
        assert forall|j: int|
            cardinal_adjacent(position as int, j) && tile_enterable(map.tiles@[j]) implies in_targets(
            r@,
            j,
        ) by {
            lemma_neighbor_delta(position as int, j);
            lemma_idx_of_point_of(j);
            let dd = exit_rank(position as int, j);
            assert(j == idx_xy(x_of(j), y_of(j)));
            assert(j == exit_slot_cell(position as int, dd));
            assert(exit_slot_filled(map.tiles@, position as int, dd));
            assert(exit_slot_done(map.tiles@, r@, position as int, dd));
        }
    }
    r
}

/// The cell one step from `c` in enumeration direction `dd`.
spec fn exit_slot_cell(c: int, dd: int) -> int {
    if dd == 0 {
        idx_xy(x_of(c) - 1, y_of(c))
    } else if dd == 1 {
        idx_xy(x_of(c) + 1, y_of(c))
    } else if dd == 2 {
        idx_xy(x_of(c), y_of(c) - 1)
    } else {
        idx_xy(x_of(c), y_of(c) + 1)
    }
}

/// Whether the neighbor of `c` in direction `dd` lies on the grid and is
/// enterable.
spec fn exit_slot_filled(tiles: Seq<TileType>, c: int, dd: int) -> bool {
    let nx = if dd == 0 {
        x_of(c) - 1
    } else if dd == 1 {
        x_of(c) + 1
    } else {
        x_of(c)
    };
    let ny = if dd == 2 {
        y_of(c) - 1
    } else if dd == 3 {
        y_of(c) + 1
    } else {
        y_of(c)
    };
    in_bounds_xy(nx, ny) && tile_enterable(tiles[idx_xy(nx, ny)])
}

/// Direction `dd` has been handled: if its neighbor is an exit, it is in
/// the list.
spec fn exit_slot_done(tiles: Seq<TileType>, r: Seq<usize>, c: int, dd: int) -> bool {
    exit_slot_filled(tiles, c, dd) ==> in_targets(r, exit_slot_cell(c, dd))
}

/// The neighbor of `position` with the lowest field value, when one lies
/// strictly below `position`'s own value; ties fall to the first exit in
/// enumeration order. `None` when `position` has no exit or sits at a
/// local minimum of the field.
pub fn find_lowest_exit(
    dm: &DijkstraField,
    position: usize,
    map: &crate::map::GameMap,
) -> (r: Option<usize>)
    requires
        dm.wf(),
        map.wf(),
        position < NUM_TILES,
    ensures
        match r {
            Some(j) => {
                &&& j < NUM_TILES
                &&& cardinal_adjacent(position as int, j as int)
                &&& tile_enterable(map.tiles@[j as int])
                &&& dm.values@[j as int] < dm.values@[position as int]
                &&& forall|k: int|
                    cardinal_adjacent(position as int, k) && tile_enterable(map.tiles@[k])
                        ==> dm.values@[k] >= dm.values@[j as int]
                &&& forall|k: int|
                    cardinal_adjacent(position as int, k) && tile_enterable(map.tiles@[k])
                        && dm.values@[k] == dm.values@[j as int] ==> exit_rank(
                        position as int,
                        j as int,
                    ) <= exit_rank(position as int, k)
            },
            None => forall|k: int|
                cardinal_adjacent(position as int, k) && tile_enterable(map.tiles@[k])
                    ==> dm.values@[k] >= dm.values@[position as int],
        },
{
    let exits = available_exits(map, position);
    if exits.len() == 0 {
        proof {
            assert forall|k: int|
                cardinal_adjacent(position as int, k) && tile_enterable(map.tiles@[k])
                implies dm.values@[k] >= dm.values@[position as int] by {
                assert(in_targets(exits@, k));
                let g = choose|g: int| 0 <= g < exits@.len() && #[trigger] exits@[g] as int == k;
            }
        }
        return None;
    }
    let mut bi: usize = 0;
    let mut e: usize = 1;
    while e < exits.len()
        invariant
            dm.wf(),
            map.wf(),
            position < NUM_TILES,
            exits@.len() > 0,
            e <= exits@.len(),
            bi < e,
            forall|g: int|
                0 <= g < exits@.len() ==> #[trigger] exits@[g] < NUM_TILES && cardinal_adjacent(
                    position as int,
                    exits@[g] as int,
                ) && tile_enterable(map.tiles@[exits@[g] as int]),
            forall|g: int, h: int|
                0 <= g < h < exits@.len() ==> exit_rank(position as int, exits@[g] as int)
                    < exit_rank(position as int, exits@[h] as int),
            forall|g: int|
                0 <= g < e ==> dm.values@[#[trigger] exits@[g] as int] >= dm.values@[exits@[bi as int] as int],
            forall|g: int|
                0 <= g < e && dm.values@[#[trigger] exits@[g] as int] == dm.values@[exits@[bi as int] as int] ==> bi <= g,
        decreases exits@.len() - e,
    {
        let c = exits[e];
        let b = exits[bi];
        if dm.values[c] < dm.values[b] {
            bi = e;
        }
        e += 1;
    }
    let b = exits[bi];
    if dm.values[b] < dm.values[position] {
        proof {
            assert forall|k: int|
                cardinal_adjacent(position as int, k) && tile_enterable(map.tiles@[k])
                implies dm.values@[k] >= dm.values@[b as int] && (dm.values@[k] == dm.values@[b as int] ==> exit_rank(position as int, b as int) <= exit_rank(position as int, k)) by {
                assert(in_targets(exits@, k));
                let g = choose|g: int| 0 <= g < exits@.len() && #[trigger] exits@[g] as int == k;
                if dm.values@[k] == dm.values@[b as int] {
                    assert(bi <= g);
                    if (bi as int) < g {
                        assert(exit_rank(position as int, exits@[bi as int] as int) < exit_rank(
                            position as int,
                            exits@[g] as int,
                        ));
                    }
                }
            }
        }
        Some(b)
    } else {
        proof {
            assert forall|k: int|
                cardinal_adjacent(position as int, k) && tile_enterable(map.tiles@[k])
                implies dm.values@[k] >= dm.values@[position as int] by {
                assert(in_targets(exits@, k));
                let g = choose|g: int| 0 <= g < exits@.len() && #[trigger] exits@[g] as int == k;
            }
        }
        None
    }
}

/// As `find_lowest_exit`, but when several exits tie for the lowest
/// value the returned one is drawn from them at random.
pub fn sample_lowest_exit(
    rng: &mut bracket_lib::random::RandomNumberGenerator,
    dm: &DijkstraField,
    position: usize,
    map: &crate::map::GameMap,
) -> (r: Option<usize>)
    requires
        dm.wf(),
        map.wf(),
        position < NUM_TILES,
    ensures
        match r {
            Some(j) => {
                &&& j < NUM_TILES
                &&& cardinal_adjacent(position as int, j as int)
                &&& tile_enterable(map.tiles@[j as int])
                &&& dm.values@[j as int] < dm.values@[position as int]
                &&& forall|k: int|
                    cardinal_adjacent(position as int, k) && tile_enterable(map.tiles@[k])
                        ==> dm.values@[k] >= dm.values@[j as int]
            },
            None => forall|k: int|
                cardinal_adjacent(position as int, k) && tile_enterable(map.tiles@[k])
                    ==> dm.values@[k] >= dm.values@[position as int],
        },
{
    let lowest = find_lowest_exit(dm, position, map);
    match lowest {
        None => None,
        Some(b) => {
            let exits = available_exits(map, position);
            let low = dm.values[b];
            let mut ties: Vec<usize> = Vec::new();
            let mut e: usize = 0;
            while e < exits.len()
                invariant
                    dm.wf(),
                    map.wf(),
                    position < NUM_TILES,
                    e <= exits@.len(),
                    exits@.len() <= 4,
                    ties@.len() <= e,
                    forall|g: int|
                        0 <= g < exits@.len() ==> #[trigger] exits@[g] < NUM_TILES
                            && cardinal_adjacent(position as int, exits@[g] as int)
                            && tile_enterable(map.tiles@[exits@[g] as int]),
                    forall|t: int|
                        0 <= t < ties@.len() ==> #[trigger] ties@[t] < NUM_TILES
                            && cardinal_adjacent(position as int, ties@[t] as int)
                            && tile_enterable(map.tiles@[ties@[t] as int])
                            && dm.values@[ties@[t] as int] == low,
                decreases exits@.len() - e,
            {
                let c = exits[e];
                if dm.values[c] == low {
                    ties.push(c);
                }
                e += 1;
            }
            if ties.len() == 0 {
                Some(b)
            } else {
                let k = crate::rng::rng_range(rng, 0, ties.len() as i32);
                Some(ties[k as usize])
            }
        },
    }
}

} // verus!
