use vstd::prelude::*;
use crate::map::{in_bounds_xy, GameMap};
use crate::point::Point;

verus! {

/// Largest view radius the computation accepts; any radius used on this
/// grid lies well within it.
pub const MAX_FOV_RADIUS: i32 = 512;

/// Division as the ray sampler performs it: the quotient rounds toward
/// zero, for a positive divisor.
pub open spec fn tdiv(a: int, b: int) -> int {
    if a >= 0 {
        a / b
    } else {
        -((-a) / b)
    }
}

/// How many samples the ray from `a` to `b` takes: the larger axis
/// distance.
pub open spec fn ray_steps(a: Point, b: Point) -> int {
    let adx = if b.x >= a.x {
        b.x - a.x
    } else {
        a.x - b.x
    };
    let ady = if b.y >= a.y {
        b.y - a.y
    } else {
        a.y - b.y
    };
    if adx >= ady {
        adx
    } else {
        ady
    }
}

/// The cell the ray from `a` to `b` samples at step `t`.
pub open spec fn ray_sample(a: Point, b: Point, t: int) -> (int, int) {
    let steps = ray_steps(a, b);
    (
        a.x + tdiv((b.x - a.x) * 2 * t + steps, 2 * steps),
        a.y + tdiv((b.y - a.y) * 2 * t + steps, 2 * steps),
    )
}

/// Whether the sample at step `t` blocks the ray: an opaque grid cell
/// strictly between the endpoints.
pub open spec fn ray_blocked(tiles: Seq<crate::map::TileType>, a: Point, b: Point, t: int) -> bool {
    let s = ray_sample(a, b, t);
    &&& in_bounds_xy(s.0, s.1)
    &&& !(s.0 == a.x as int && s.1 == a.y as int)
    &&& !(s.0 == b.x as int && s.1 == b.y as int)
    &&& crate::map::tile_opaque(tiles[crate::map::idx_xy(s.0, s.1)])
}

/// Whether the sampled ray from `a` to `b` meets no opaque cell
/// strictly between the endpoints.
pub open spec fn ray_clear_spec(tiles: Seq<crate::map::TileType>, a: Point, b: Point) -> bool {
    ray_steps(a, b) <= 1 || forall|t: int| 1 <= t < ray_steps(a, b) ==> !ray_blocked(tiles, a, b, t)
}

/// Whether `p` belongs in the view from `center` at `radius`: a grid
/// cell within the radius whose sampled ray from the center is clear.
pub open spec fn visible_ok(
    tiles: Seq<crate::map::TileType>,
    center: Point,
    radius: int,
    p: Point,
) -> bool {
    &&& in_bounds_xy(p.x as int, p.y as int)
    &&& p.dist2(center) <= radius * radius
    &&& ray_clear_spec(tiles, center, p)
}

/// Whether `p` occurs in a list of visible cells.
pub open spec fn sees(view: Seq<Point>, p: Point) -> bool {
    exists|k: int| 0 <= k < view.len() && view[k] == p
}

proof fn lemma_sees_push(view: Seq<Point>, x: Point, p: Point)
    requires
        sees(view, p),
    ensures
        sees(view.push(x), p),
{
    let k = choose|k: int| 0 <= k < view.len() && view[k] == p;
    assert(view.push(x)[k] == p);
}

/// The set of cells visible from `center` out to `radius`: exactly the
/// grid cells within Euclidean `radius` whose sampled ray from the
/// center meets no opaque tile, the center itself always among them.
/// At radius zero the view is the center alone.
pub fn field_of_view(map: &GameMap, center: Point, radius: i32) -> (r: Vec<Point>)
    requires
        map.wf(),
        in_bounds_xy(center.x as int, center.y as int),
        0 <= radius <= MAX_FOV_RADIUS,
    ensures
        sees(r@, center),
        forall|p: Point|
            #[trigger] sees(r@, p) <==> visible_ok(map.tiles@, center, radius as int, p),
        forall|k: int|
            0 <= k < r@.len() ==> in_bounds_xy(#[trigger] r@[k].x as int, r@[k].y as int)
                && r@[k].dist2(center) <= radius * radius,
        radius == 0 ==> r@.len() == 1 && r@[0] == center,
{
    let mut r: Vec<Point> = Vec::new();
    let mut dy: i32 = -radius;
    while dy <= radius
        invariant
            map.wf(),
            in_bounds_xy(center.x as int, center.y as int),
            0 <= radius <= MAX_FOV_RADIUS,
            -radius <= dy <= radius + 1,
            dy > 0 ==> sees(r@, center),
            radius == 0 && dy == 0 ==> r@.len() == 0,
            radius == 0 && dy == 1 ==> r@.len() == 1 && r@[0] == center,
            forall|k: int|
                0 <= k < r@.len() ==> #[trigger] visible_ok(
                    map.tiles@,
                    center,
                    radius as int,
                    r@[k],
                ) && in_bounds_xy(r@[k].x as int, r@[k].y as int) && r@[k].dist2(center) <= radius
                    * radius,
            forall|ddx: int, ddy: int|
                -radius <= ddx <= radius + 1 && -radius <= ddy < dy && #[trigger] visible_ok(
                    map.tiles@,
                    center,
                    radius as int,
                    Point { x: (center.x + ddx) as i32, y: (center.y + ddy) as i32 },
                ) ==> sees(
                    r@,
                    Point { x: (center.x + ddx) as i32, y: (center.y + ddy) as i32 },
                ),
        decreases radius - dy + 1,
    {
        let mut dx: i32 = -radius;
        while dx <= radius
            invariant
                map.wf(),
                in_bounds_xy(center.x as int, center.y as int),
                0 <= radius <= MAX_FOV_RADIUS,
                -radius <= dy <= radius,
                -radius <= dx <= radius + 1,
                dy > 0 ==> sees(r@, center),
                dy == 0 && dx > 0 ==> sees(r@, center),
                radius == 0 && dy == 0 && dx == 0 ==> r@.len() == 0,
                radius == 0 && dy == 0 && dx == 1 ==> r@.len() == 1 && r@[0] == center,
                forall|k: int|
                    0 <= k < r@.len() ==> #[trigger] visible_ok(
                        map.tiles@,
                        center,
                        radius as int,
                        r@[k],
                    ) && in_bounds_xy(r@[k].x as int, r@[k].y as int) && r@[k].dist2(center)
                        <= radius * radius,
                forall|ddx: int, ddy: int|
                    -radius <= ddx <= radius + 1 && -radius <= ddy < dy && #[trigger] visible_ok(
                        map.tiles@,
                        center,
                        radius as int,
                        Point { x: (center.x + ddx) as i32, y: (center.y + ddy) as i32 },
                    ) ==> sees(
                        r@,
                        Point { x: (center.x + ddx) as i32, y: (center.y + ddy) as i32 },
                    ),
                forall|ddx: int|
                    -radius <= ddx < dx && #[trigger] visible_ok(
                        map.tiles@,
                        center,
                        radius as int,
                        Point { x: (center.x + ddx) as i32, y: (center.y + dy) as i32 },
                    ) ==> sees(
                        r@,
                        Point { x: (center.x + ddx) as i32, y: (center.y + dy) as i32 },
                    ),
            decreases radius - dx + 1,
        {
            proof {
                assert(0 <= dx * dx <= 512 * 512) by (nonlinear_arith)
                    requires
                        -512 <= dx <= 512,
                ;
                assert(0 <= dy * dy <= 512 * 512) by (nonlinear_arith)
                    requires
                        -512 <= dy <= 512,
                ;
                assert(0 <= radius * radius <= 512 * 512) by (nonlinear_arith)
                    requires
                        0 <= radius <= 512,
                ;
            }
            let p = Point::new(center.x + dx, center.y + dy);
            let mut pushed = false;
            if GameMap::in_bounds(p) && dx * dx + dy * dy <= radius * radius {
                if ray_clear(map, center, p) {
                    let ghost r0 = r@;
                    proof {
                        assert(p.dist2(center) == dx * dx + dy * dy);
                        assert(visible_ok(map.tiles@, center, radius as int, p));
                    }
                    r.push(p);
                    pushed = true;
                    proof {
                        assert(r@[r@.len() - 1] == p);
                        if sees(r0, center) {
                            lemma_sees_push(r0, p, center);
                        }
                        assert forall|ddx: int, ddy: int|
                            -radius <= ddx <= radius + 1 && -radius <= ddy < dy
                                && #[trigger] visible_ok(
                                map.tiles@,
                                center,
                                radius as int,
                                Point { x: (center.x + ddx) as i32, y: (center.y + ddy) as i32 },
                            ) implies sees(
                            r@,
                            Point { x: (center.x + ddx) as i32, y: (center.y + ddy) as i32 },
                        ) by {
                            lemma_sees_push(
                                r0,
                                p,
                                Point { x: (center.x + ddx) as i32, y: (center.y + ddy) as i32 },
                            );
                        }
                        assert forall|ddx: int|
                            -radius <= ddx < dx + 1 && #[trigger] visible_ok(
                                map.tiles@,
                                center,
                                radius as int,
                                Point { x: (center.x + ddx) as i32, y: (center.y + dy) as i32 },
                            ) implies sees(
                            r@,
                            Point { x: (center.x + ddx) as i32, y: (center.y + dy) as i32 },
                        ) by {
                            if ddx < dx {
                                lemma_sees_push(
                                    r0,
                                    p,
                                    Point { x: (center.x + ddx) as i32, y: (center.y + dy) as i32 },
                                );
                            } else {
                                assert(Point { x: (center.x + ddx) as i32, y: (center.y + dy) as i32 }
                                    == p);
                            }
                        }
                    }
                }
            }
            proof {
                if dx == 0 && dy == 0 {
                    assert(p == center);
                    if !pushed {
                        assert(in_bounds_xy(p.x as int, p.y as int));
                        assert(false);
                    }
                    assert(sees(r@, center));
                }
                if !pushed {
                    assert forall|ddx: int|
                        -radius <= ddx < dx + 1 && #[trigger] visible_ok(
                            map.tiles@,
                            center,
                            radius as int,
                            Point { x: (center.x + ddx) as i32, y: (center.y + dy) as i32 },
                        ) implies sees(
                        r@,
                        Point { x: (center.x + ddx) as i32, y: (center.y + dy) as i32 },
                    ) by {
                        if ddx == dx as int {
                            assert(Point { x: (center.x + ddx) as i32, y: (center.y + dy) as i32 }
                                == p);
                            assert(p.dist2(center) == dx * dx + dy * dy);
                            assert(!visible_ok(map.tiles@, center, radius as int, p));
                        }
                    }
                }
            }
            dx += 1;
        }
        proof {
            assert forall|ddx: int, ddy: int|
                -radius <= ddx <= radius + 1 && -radius <= ddy < dy + 1 && #[trigger] visible_ok(
                    map.tiles@,
                    center,
                    radius as int,
                    Point { x: (center.x + ddx) as i32, y: (center.y + ddy) as i32 },
                ) implies sees(
                r@,
                Point { x: (center.x + ddx) as i32, y: (center.y + ddy) as i32 },
            ) by {
                if ddy == dy as int {
                    if ddx <= radius {
                        assert(-radius <= ddx < radius + 1);
                    } else {
                        let q = Point { x: (center.x + ddx) as i32, y: (center.y + dy) as i32 };
                        assert(q.dist2(center) > radius * radius) by (nonlinear_arith)
                            requires
                                q.x - center.x == ddx,
                                q.y - center.y == dy as int,
                                ddx == radius + 1,
                                0 <= radius,
                                q.dist2(center) == (q.x - center.x) * (q.x - center.x) + (q.y
                                    - center.y) * (q.y - center.y),
                        ;
                        assert(!visible_ok(map.tiles@, center, radius as int, q));
                    }
                }
            }
        }
        dy += 1;
    }
    proof {
        assert forall|p: Point| #[trigger] sees(r@, p) implies visible_ok(
            map.tiles@,
            center,
            radius as int,
            p,
        ) by {
            let k = choose|k: int| 0 <= k < r@.len() && r@[k] == p;
            assert(visible_ok(map.tiles@, center, radius as int, r@[k]));
        }
        assert forall|p: Point| visible_ok(map.tiles@, center, radius as int, p) implies sees(
            r@,
            p,
        ) by {
            let ddx = p.x - center.x;
            let ddy = p.y - center.y;
            assert(-radius <= ddx <= radius && -radius <= ddy <= radius) by (nonlinear_arith)
                requires
                    0 <= radius,
                    ddx == p.x - center.x,
                    ddy == p.y - center.y,
                    ddx * ddx + ddy * ddy <= radius * radius,
            ;
            assert(p == (Point { x: (center.x + ddx) as i32, y: (center.y + ddy) as i32 }));
        }
        assert forall|k: int|
            0 <= k < r@.len() implies in_bounds_xy(#[trigger] r@[k].x as int, r@[k].y as int)
            && r@[k].dist2(center) <= radius * radius by {
            assert(visible_ok(map.tiles@, center, radius as int, r@[k]));
        }
    }
    r
}

/// Whether the straight ray from `a` to `b` crosses no opaque tile
/// strictly between the two endpoints, sampled one cell per step along
/// the longer axis.
fn ray_clear(map: &GameMap, a: Point, b: Point) -> (r: bool)
    requires
        map.wf(),
        in_bounds_xy(a.x as int, a.y as int),
        in_bounds_xy(b.x as int, b.y as int),
    ensures
        r == ray_clear_spec(map.tiles@, a, b),
        a == b ==> r,
{
    let dx = b.x - a.x;
    let dy = b.y - a.y;
    let adx = if dx >= 0 { dx } else { -dx };
    let ady = if dy >= 0 { dy } else { -dy };
    let steps = if adx >= ady { adx } else { ady };
    if steps <= 1 {
        return true;
    }
    proof {
        assert(a != b);
    }
    let mut t: i32 = 1;
    while t < steps
        invariant
            map.wf(),
            in_bounds_xy(a.x as int, a.y as int),
            in_bounds_xy(b.x as int, b.y as int),
            a != b,
            2 <= steps <= 128,
            steps == ray_steps(a, b),
            dx == b.x - a.x,
            dy == b.y - a.y,
            -128 <= dx <= 128,
            -128 <= dy <= 128,
            1 <= t <= steps,
            forall|u: int| 1 <= u < t ==> !ray_blocked(map.tiles@, a, b, u),
        decreases steps - t,
    {
        proof {
            assert(-32768 <= dx * (2 * t) <= 32768 && -32768 <= dy * (2 * t) <= 32768)
                by (nonlinear_arith)
                requires
                    -128 <= dx <= 128,
                    -128 <= dy <= 128,
                    1 <= t <= 128,
            ;
        }
        let numx = dx * (2 * t) + steps;
        let numy = dy * (2 * t) + steps;
        let den = 2 * steps;
        let qx = trunc_div(numx, den);
        let qy = trunc_div(numy, den);
        proof {
            assert(dx as int * (2 * t as int) == (b.x - a.x) * 2 * (t as int)) by (nonlinear_arith)
                requires
                    dx as int == b.x - a.x,
            ;
            assert(dy as int * (2 * t as int) == (b.y - a.y) * 2 * (t as int)) by (nonlinear_arith)
                requires
                    dy as int == b.y - a.y,
            ;
            assert((a.x + qx) as int == ray_sample(a, b, t as int).0);
            assert((a.y + qy) as int == ray_sample(a, b, t as int).1);
        }
        let sx = a.x + qx;
        let sy = a.y + qy;
        let sp = Point { x: sx, y: sy };
        if GameMap::in_bounds(sp) {
            if !(sp.x == a.x && sp.y == a.y) && !(sp.x == b.x && sp.y == b.y) {
                let idx = GameMap::map_idx(sp);
                if GameMap::is_opaque(map.tiles[idx]) {
                    proof {
                        assert(ray_blocked(map.tiles@, a, b, t as int));
                    }
                    return false;
                }
            }
        }
        proof {
            assert(!ray_blocked(map.tiles@, a, b, t as int));
        }
        t += 1;
    }
    true
}

/// The quotient rounded toward zero, as `tdiv` defines it.
fn trunc_div(a: i32, b: i32) -> (r: i32)
    requires
        -33000 <= a <= 33000,
        2 <= b <= 4000,
    ensures
        r as int == tdiv(a as int, b as int),
        -33000 <= r <= 33000,
{
    if a >= 0 {
        let q = a / b;
        proof {
            assert(0 <= a / b <= a) by (nonlinear_arith)
                requires
                    0 <= a,
                    2 <= b,
            ;
        }
        q
    } else {
        let na = 0 - a;
        let q = na / b;
        proof {
            assert(0 <= na as int / b as int <= na as int) by (nonlinear_arith)
                requires
                    0 < na as int,
                    2 <= b as int,
            ;
        }
        0 - q
    }
}

} // verus!
