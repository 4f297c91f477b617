//! Closed polygon rings. A ring stores its vertices once (first vertex not
//! repeated at the end) and is read cyclically, so it is closed by
//! construction. `is_simple_ring` is the exact, decidable statement that the
//! ring is a simple polygon: no two vertices coincide, no two non-adjacent
//! edges meet, and no edge doubles back over its neighbour.

use vstd::prelude::*;
use crate::pt::{cross3, cross3_of, dot_vec, in_bounds, segs_intersect, segs_intersect_of, Pt,
    WORK_LIMIT};
use crate::polyline::bounded_seq;

verus! {

/// Index of the vertex after `k`, cyclically.
pub open spec fn ring_wrap(q: Seq<Pt>, k: int) -> int {
    if k == q.len() - 1 {
        0
    } else {
        k + 1
    }
}

/// All vertices pairwise distinct; in particular the stored first and last
/// vertices differ, so the closing edge is real.
pub open spec fn ring_verts_distinct(q: Seq<Pt>) -> bool {
    forall|i: int, j: int| #![trigger q[i], q[j]] 0 <= i < j < q.len() ==> q[i] != q[j]
}

/// Edges `i` and `j` (with `i < j`) share a vertex of the ring.
pub open spec fn ring_adjacent(q: Seq<Pt>, i: int, j: int) -> bool {
    j == i + 1 || (i == 0 && j == q.len() - 1)
}

/// No two edges that do not share a vertex touch at all.
pub open spec fn ring_edges_clear(q: Seq<Pt>) -> bool {
    forall|i: int, j: int|
        0 <= i < j < q.len() && !ring_adjacent(q, i, j) ==> !#[trigger] segs_intersect(
            q[i],
            q[ring_wrap(q, i)],
            q[j],
            q[ring_wrap(q, j)],
        )
}

/// At no vertex does the outgoing edge turn straight back along the incoming
/// one (which would make the two adjacent edges overlap).
pub open spec fn ring_corners_ok(q: Seq<Pt>) -> bool {
    forall|k: int|
        0 <= k < q.len() ==> !(cross3(#[trigger] q[k], q[if k == 0 {
            q.len() - 1
        } else {
            k - 1
        }], q[ring_wrap(q, k)]) == 0 && dot_vec(
            q[if k == 0 {
                q.len() - 1
            } else {
                k - 1
            }].x - q[k].x,
            q[if k == 0 {
                q.len() - 1
            } else {
                k - 1
            }].y - q[k].y,
            q[ring_wrap(q, k)].x - q[k].x,
            q[ring_wrap(q, k)].y - q[k].y,
        ) > 0)
}

/// The ring is a simple closed polygon.
pub open spec fn is_simple_ring(q: Seq<Pt>) -> bool {
    &&& 3 <= q.len() <= 500_000
    &&& ring_verts_distinct(q)
    &&& ring_edges_clear(q)
    &&& ring_corners_ok(q)
}

/// Exact decision of `bounded_seq` at run time.
#[verifier::loop_isolation(false)]
pub fn all_in_bounds(pts: &Vec<Pt>, limit: i64) -> (r: bool)
    requires
        0 <= limit,
    ensures
        r == bounded_seq(pts@, limit as int),
{
    let n = pts.len();
    let mut i: usize = 0;
    while i < n
        invariant
            0 <= i <= n,
            n == pts@.len(),
            forall|k: int| 0 <= k < i ==> in_bounds(#[trigger] pts@[k], limit as int),
        decreases n - i,
    {
        let p = pts[i];
        if p.x < -limit || p.x > limit || p.y < -limit || p.y > limit {
            return false;
        }
        i = i + 1;
    }
    true
}

/// Exact decision of `is_simple_ring`.
#[verifier::loop_isolation(false)]
#[verifier::rlimit(50)]
pub fn is_simple_of(pts: &Vec<Pt>) -> (r: bool)
    requires
        bounded_seq(pts@, WORK_LIMIT as int),
    ensures
        r == is_simple_ring(pts@),
{
    let ghost q = pts@;
    let n = pts.len();
    if n < 3 || n > 500_000 {
        return false;
    }
    // vertices pairwise distinct
    let mut i: usize = 0;
    while i < n
        invariant
            0 <= i <= n,
            forall|a: int, b: int| #![trigger q[a], q[b]] 0 <= a < b < n && a < i ==> q[a] != q[b],
        decreases n - i,
    {
        let mut j: usize = i + 1;
        while j < n
            invariant
                i < j <= n,
                forall|b: int| i < b < j ==> q[i as int] != #[trigger] q[b],
            decreases n - j,
        {
            if pts[i].x == pts[j].x && pts[i].y == pts[j].y {
                return false;
            }
            j = j + 1;
        }
        i = i + 1;
    }
    // non-adjacent edges never touch
    let mut i: usize = 0;
    while i < n
        invariant
            0 <= i <= n,
            forall|a: int, b: int|
                0 <= a < b < n && a < i && !ring_adjacent(q, a, b) ==> !#[trigger] segs_intersect(
                    q[a],
                    q[ring_wrap(q, a)],
                    q[b],
                    q[ring_wrap(q, b)],
                ),
        decreases n - i,
    {
        let mut j: usize = i + 1;
        while j < n
            invariant
                i < j <= n,
                forall|b: int|
                    i < b < j && !ring_adjacent(q, i as int, b) ==> !#[trigger] segs_intersect(
                        q[i as int],
                        q[ring_wrap(q, i as int)],
                        q[b],
                        q[ring_wrap(q, b)],
                    ),
            decreases n - j,
        {
            let adjacent = j == i + 1 || (i == 0 && j == n - 1);
            if !adjacent {
                let ie = if i == n - 1 {
                    0
                } else {
                    i + 1
                };
                let je = if j == n - 1 {
                    0
                } else {
                    j + 1
                };
                if segs_intersect_of(&pts[i], &pts[ie], &pts[j], &pts[je]) {
                    return false;
                }
            }
            j = j + 1;
        }
        i = i + 1;
    }
    // no edge doubles back over its neighbour
    let mut k: usize = 0;
    while k < n
        invariant
            0 <= k <= n,
            forall|a: int|
                0 <= a < k ==> !(cross3(#[trigger] q[a], q[if a == 0 {
                    n - 1
                } else {
                    a - 1
                }], q[ring_wrap(q, a)]) == 0 && dot_vec(
                    q[if a == 0 {
                        n - 1
                    } else {
                        a - 1
                    }].x - q[a].x,
                    q[if a == 0 {
                        n - 1
                    } else {
                        a - 1
                    }].y - q[a].y,
                    q[ring_wrap(q, a)].x - q[a].x,
                    q[ring_wrap(q, a)].y - q[a].y,
                ) > 0),
        decreases n - k,
    {
        let kp = if k == 0 {
            n - 1
        } else {
            k - 1
        };
        let kn = if k == n - 1 {
            0
        } else {
            k + 1
        };
        let c = cross3_of(&pts[k], &pts[kp], &pts[kn]);
        if c == 0 {
            let ux = pts[kp].x as i128 - pts[k].x as i128;
            let uy = pts[kp].y as i128 - pts[k].y as i128;
            let vx = pts[kn].x as i128 - pts[k].x as i128;
            let vy = pts[kn].y as i128 - pts[k].y as i128;
            proof {
                assert(-400_000_000_000_000_000i128 <= ux * vx <= 400_000_000_000_000_000i128
                    && -400_000_000_000_000_000i128 <= uy * vy <= 400_000_000_000_000_000i128)
                    by (nonlinear_arith)
                    requires
                        -600_000_000i128 <= ux <= 600_000_000i128,
                        -600_000_000i128 <= vx <= 600_000_000i128,
                        -600_000_000i128 <= uy <= 600_000_000i128,
                        -600_000_000i128 <= vy <= 600_000_000i128,
                ;
            }
            if ux * vx + uy * vy > 0 {
                return false;
            }
        }
        k = k + 1;
    }
    true
}

/// Twice the signed area contributed by the fan triangles from vertex 0,
/// starting at vertex `k`.
pub open spec fn doubled_area_from(q: Seq<Pt>, k: int) -> int
    decreases q.len() - k,
{
    if k >= q.len() - 1 {
        0
    } else {
        cross3(q[0], q[k], q[k + 1]) + doubled_area_from(q, k + 1)
    }
}

/// Twice the signed area of the ring (shoelace formula, fanned from the
/// first vertex). Positive for counterclockwise rings.
pub open spec fn doubled_area(q: Seq<Pt>) -> int {
    doubled_area_from(q, 1)
}

/// The fan sum is bounded by the largest triangle the working box allows.
pub proof fn lemma_area_from_bound(q: Seq<Pt>, k: int)
    requires
        bounded_seq(q, WORK_LIMIT as int),
        1 <= k,
    ensures
        doubled_area_from(q, k) <= (if k < q.len() - 1 {
            q.len() - 1 - k
        } else {
            0
        }) * 800_000_000_000_000_000,
        doubled_area_from(q, k) >= -((if k < q.len() - 1 {
            q.len() - 1 - k
        } else {
            0
        }) * 800_000_000_000_000_000),
    decreases q.len() - k,
{
    if k < q.len() - 1 {
        lemma_area_from_bound(q, k + 1);
        assert(-800_000_000_000_000_000 <= (q[k].x - q[0].x) * (q[k + 1].y - q[0].y) - (q[k].y
            - q[0].y) * (q[k + 1].x - q[0].x) <= 800_000_000_000_000_000) by (nonlinear_arith)
            requires
                -600_000_000 <= q[k].x - q[0].x <= 600_000_000,
                -600_000_000 <= q[k + 1].y - q[0].y <= 600_000_000,
                -600_000_000 <= q[k].y - q[0].y <= 600_000_000,
                -600_000_000 <= q[k + 1].x - q[0].x <= 600_000_000,
        ;
        assert((q.len() - 1 - k) * 800_000_000_000_000_000 == (if k + 1 < q.len() - 1 {
            q.len() - 1 - (k + 1)
        } else {
            0
        }) * 800_000_000_000_000_000 + 800_000_000_000_000_000) by (nonlinear_arith)
            requires
                k < q.len() - 1,
        ;
    } else {
        assert((0int) * 800_000_000_000_000_000 == 0) by (nonlinear_arith);
    }
}

/// Exact evaluation of `doubled_area`.
#[verifier::loop_isolation(false)]
pub fn doubled_area_of(pts: &Vec<Pt>) -> (r: i128)
    requires
        bounded_seq(pts@, WORK_LIMIT as int),
        1 <= pts@.len() <= 500_000,
    ensures
        r == doubled_area(pts@),
{
    let ghost q = pts@;
    let n = pts.len();
    let mut acc: i128 = 0;
    let mut k: usize = 1;
    proof {
        lemma_area_from_bound(q, 1);
    }
    while k < n - 1 || (n >= 2 && k < 1)
        invariant
            1 <= k,
            k <= if n >= 2 {
                n - 1
            } else {
                1
            },
            acc + doubled_area_from(q, k as int) == doubled_area(q),
            -((k - 1) * 800_000_000_000_000_000) <= acc <= (k - 1) * 800_000_000_000_000_000,
        decreases n - k,
    {
        proof {
            lemma_area_from_bound(q, k as int);
            lemma_area_from_bound(q, k + 1);
            assert((k - 1) * 800_000_000_000_000_000 + 800_000_000_000_000_000 == ((k + 1) - 1)
                * 800_000_000_000_000_000) by (nonlinear_arith);
            assert((k - 1) * 800_000_000_000_000_000 <= 400_000_000_000_000_000_000_000int
                && -((k - 1) * 800_000_000_000_000_000) >= -400_000_000_000_000_000_000_000int)
                by (nonlinear_arith)
                requires
                    1 <= k <= 500_000,
            ;
        }
        let c = cross3_of(&pts[0], &pts[k], &pts[k + 1]);
        acc = acc + c as i128;
        k = k + 1;
    }
    acc
}

/// The axis-aligned square of half-side `h` around `c`, counterclockwise.
pub open spec fn square_seq(c: Pt, h: int) -> Seq<Pt> {
    seq![
        Pt { x: (c.x - h) as i64, y: (c.y - h) as i64 },
        Pt { x: (c.x + h) as i64, y: (c.y - h) as i64 },
        Pt { x: (c.x + h) as i64, y: (c.y + h) as i64 },
        Pt { x: (c.x - h) as i64, y: (c.y + h) as i64 },
    ]
}

/// The fallback square is always a simple ring of known area.
pub proof fn lemma_square_simple(c: Pt, h: int)
    requires
        in_bounds(c, 200_000_000),
        1 <= h <= 100_000_000,
    ensures
        is_simple_ring(square_seq(c, h)),
        bounded_seq(square_seq(c, h), WORK_LIMIT as int),
        doubled_area(square_seq(c, h)) == 8 * h * h,
{
    let q = square_seq(c, h);
    let p0 = q[0];
    let p1 = q[1];
    let p2 = q[2];
    let p3 = q[3];
    assert(p0.x == c.x - h && p0.y == c.y - h);
    assert(p1.x == c.x + h && p1.y == c.y - h);
    assert(p2.x == c.x + h && p2.y == c.y + h);
    assert(p3.x == c.x - h && p3.y == c.y + h);
    assert(bounded_seq(q, WORK_LIMIT as int)) by {
        assert(forall|k: int| 0 <= k < 4 ==> q[k] == p0 || q[k] == p1 || #[trigger] q[k] == p2
            || q[k] == p3);
    }
    let g = 2 * h;
    let hh = 4 * h * h;
    assert(hh > 0 && g * g == hh && g * 0 == 0 && 0 * g == 0 && (-g) * (-g) == hh && (-g) * g
        == -hh && g * (-g) == -hh && 0 * (-g) == 0 && (-g) * 0 == 0 && g * g + g * g == 8 * h * h)
        by (nonlinear_arith)
        requires
            h >= 1,
            g == 2 * h,
            hh == 4 * h * h,
    ;
    // every cross product this square can show is one of the products above
    assert(cross3(p0, p1, p2) == g * g - 0 * g);
    assert(cross3(p0, p2, p3) == g * g - g * 0);
    assert(cross3(p0, p1, p3) == g * g - 0 * 0);
    assert(cross3(p2, p3, p0) == (-g) * (-g) - 0 * (-g));
    assert(cross3(p2, p3, p1) == (-g) * (-g) - 0 * 0);
    assert(cross3(p1, p2, p3) == 0 * g - g * (-g));
    assert(cross3(p1, p2, p0) == 0 * 0 - g * (-g));
    assert(cross3(p3, p0, p1) == 0 * (-g) - (-g) * g);
    assert(cross3(p3, p0, p2) == 0 * 0 - (-g) * g);
    assert(cross3(p0, p3, p1) == 0 * 0 - g * g);
    assert(cross3(p1, p0, p2) == (-g) * g - 0 * 0);
    assert(cross3(p2, p1, p3) == 0 * 0 - (-g) * (-g));
    assert(cross3(p3, p2, p0) == g * (-g) - 0 * 0);
    reveal_with_fuel(doubled_area_from, 4);
    assert(doubled_area(q) == cross3(q[0], q[1], q[2]) + (cross3(q[0], q[2], q[3]) + 0));
    assert(doubled_area(q) == 8 * h * h);
    assert(ring_verts_distinct(q)) by {
        assert(forall|i: int, j: int| #![trigger q[i], q[j]] 0 <= i < j < 4 ==> q[i] != q[j]) by {
            assert(p0 != p1 && p0 != p2 && p0 != p3 && p1 != p2 && p1 != p3 && p2 != p3);
        }
    }
    assert(ring_corners_ok(q)) by {
        assert forall|k: int| 0 <= k < 4 implies !(cross3(#[trigger] q[k], q[if k == 0 {
            q.len() - 1
        } else {
            k - 1
        }], q[ring_wrap(q, k)]) == 0 && dot_vec(
            q[if k == 0 {
                q.len() - 1
            } else {
                k - 1
            }].x - q[k].x,
            q[if k == 0 {
                q.len() - 1
            } else {
                k - 1
            }].y - q[k].y,
            q[ring_wrap(q, k)].x - q[k].x,
            q[ring_wrap(q, k)].y - q[k].y,
        ) > 0) by {
            assert(cross3(p0, p3, p1) != 0);
            assert(cross3(p1, p0, p2) != 0);
            assert(cross3(p2, p1, p3) != 0);
            assert(cross3(p3, p2, p0) != 0);
        }
    }
    assert(ring_edges_clear(q)) by {
        assert forall|i: int, j: int|
            0 <= i < j < 4 && !ring_adjacent(q, i, j) implies !#[trigger] segs_intersect(
            q[i],
            q[ring_wrap(q, i)],
            q[j],
            q[ring_wrap(q, j)],
        ) by {
            assert(i == 0 && j == 2 || i == 1 && j == 3);
            assert(cross3(p0, p1, p2) > 0 && cross3(p0, p1, p3) > 0 && cross3(p2, p3, p0) > 0
                && cross3(p2, p3, p1) > 0);
            assert(!segs_intersect(p0, p1, p2, p3));
            assert(cross3(p1, p2, p3) > 0 && cross3(p1, p2, p0) > 0 && cross3(p3, p0, p1) > 0
                && cross3(p3, p0, p2) > 0);
            assert(!segs_intersect(p1, p2, p3, p0));
        }
    }
}

/// Build the fallback square as a vertex vector.
pub fn square_of(c: &Pt, h: i64) -> (r: Vec<Pt>)
    requires
        in_bounds(*c, 200_000_000),
        1 <= h <= 100_000_000,
    ensures
        r@ == square_seq(*c, h as int),
        is_simple_ring(r@),
        bounded_seq(r@, WORK_LIMIT as int),
        doubled_area(r@) == 8 * h * h,
{
    let mut v: Vec<Pt> = Vec::new();
    v.push(Pt { x: c.x - h, y: c.y - h });
    v.push(Pt { x: c.x + h, y: c.y - h });
    v.push(Pt { x: c.x + h, y: c.y + h });
    v.push(Pt { x: c.x - h, y: c.y + h });
    proof {
        assert(v@ =~= square_seq(*c, h as int));
        lemma_square_simple(*c, h as int);
    }
    v
}

/// Points seen in a bounded sequence are bounded.
pub proof fn lemma_contains_bounded(s: Seq<Pt>, p: Pt, b: int)
    requires
        bounded_seq(s, b),
        s.contains(p),
    ensures
        in_bounds(p, b),
{
    let i = choose|i: int| 0 <= i < s.len() && s[i] == p;
    assert(in_bounds(s[i], b));
}

/// Lexicographic order on points, by `x` then `y`.
pub open spec fn lex_le(a: Pt, b: Pt) -> bool {
    a.x < b.x || (a.x == b.x && a.y <= b.y)
}

/// True when `a` comes lexicographically before `b` (or equals it).
fn lex_le_of(a: &Pt, b: &Pt) -> (r: bool)
    ensures
        r == lex_le(*a, *b),
{
    a.x < b.x || (a.x == b.x && a.y <= b.y)
}

/// True when the hull stack must drop its top before `p` is pushed: the top
/// two points and `p` do not make a strict left turn.
fn hull_should_pop(stack: &Vec<Pt>, p: &Pt) -> (r: bool)
    requires
        bounded_seq(stack@, WORK_LIMIT as int),
        in_bounds(*p, WORK_LIMIT as int),
    ensures
        r == (stack@.len() >= 2 && cross3(
            stack@[stack@.len() - 2],
            stack@[stack@.len() - 1],
            *p,
        ) <= 0),
{
    if stack.len() < 2 {
        return false;
    }
    let a = stack[stack.len() - 2];
    let b = stack[stack.len() - 1];
    cross3_of(&a, &b, p) <= 0
}

/// Every cyclic corner of `q` turns strictly left: a convex
/// counterclockwise ring.
pub open spec fn is_convex_ccw(q: Seq<Pt>) -> bool {
    3 <= q.len() && forall|k: int|
        0 <= k < q.len() ==> cross3(
            #[trigger] q[k],
            q[ring_wrap(q, k)],
            q[ring_wrap(q, ring_wrap(q, k))],
        ) > 0
}

/// `p` lies inside or on the convex counterclockwise ring `q`: on or to
/// the left of every edge.
pub open spec fn ring_contains(q: Seq<Pt>, p: Pt) -> bool {
    forall|k: int| 0 <= k < q.len() ==> cross3(#[trigger] q[k], q[ring_wrap(q, k)], p) >= 0
}

/// No point of `pts` lies strictly outside the ring.
pub open spec fn ring_contains_all(q: Seq<Pt>, pts: Seq<Pt>) -> bool {
    forall|t: int| 0 <= t < pts.len() ==> ring_contains(q, #[trigger] pts[t])
}

/// Exact evaluation of `is_convex_ccw`.
#[verifier::loop_isolation(false)]
pub fn is_convex_ccw_of(q: &Vec<Pt>) -> (r: bool)
    requires
        bounded_seq(q@, WORK_LIMIT as int),
    ensures
        r == is_convex_ccw(q@),
{
    let n = q.len();
    if n < 3 {
        return false;
    }
    let mut k: usize = 0;
    while k < n
        invariant
            0 <= k <= n,
            forall|a: int|
                0 <= a < k ==> cross3(
                    #[trigger] q@[a],
                    q@[ring_wrap(q@, a)],
                    q@[ring_wrap(q@, ring_wrap(q@, a))],
                ) > 0,
        decreases n - k,
    {
        let k1 = if k == n - 1 {
            0
        } else {
            k + 1
        };
        let k2 = if k1 == n - 1 {
            0
        } else {
            k1 + 1
        };
        if cross3_of(&q[k], &q[k1], &q[k2]) <= 0 {
            return false;
        }
        k = k + 1;
    }
    true
}

/// Exact evaluation of `ring_contains_all`.
#[verifier::loop_isolation(false)]
#[verifier::rlimit(50)]
pub fn ring_contains_all_of(q: &Vec<Pt>, pts: &Vec<Pt>) -> (r: bool)
    requires
        bounded_seq(q@, WORK_LIMIT as int),
        bounded_seq(pts@, WORK_LIMIT as int),
    ensures
        r == ring_contains_all(q@, pts@),
{
    let m = pts.len();
    let n = q.len();
    let mut t: usize = 0;
    while t < m
        invariant
            0 <= t <= m,
            forall|t2: int| 0 <= t2 < t ==> ring_contains(q@, #[trigger] pts@[t2]),
        decreases m - t,
    {
        let mut k: usize = 0;
        while k < n
            invariant
                0 <= k <= n,
                forall|a: int|
                    0 <= a < k ==> cross3(#[trigger] q@[a], q@[ring_wrap(q@, a)], pts@[t as int])
                        >= 0,
            decreases n - k,
        {
            let k1 = if k == n - 1 {
                0
            } else {
                k + 1
            };
            if cross3_of(&q[k], &q[k1], &pts[t]) < 0 {
                return false;
            }
            k = k + 1;
        }
        t = t + 1;
    }
    true
}

/// The convex hull of a point set (monotone chain), counterclockwise:
/// returned only when the exact checks confirm it — a strictly convex
/// counterclockwise ring of the given points with no given point strictly
/// outside it. `None` when the set is degenerate (fewer than three corners
/// survive, or collinear).
#[verifier::loop_isolation(false)]
pub fn convex_hull(pts: &Vec<Pt>) -> (r: Option<Vec<Pt>>)
    requires
        bounded_seq(pts@, WORK_LIMIT as int),
    ensures
        r is Some ==> ({
            let h = r->0;
            &&& forall|k: int| 0 <= k < h@.len() ==> pts@.contains(#[trigger] h@[k])
            &&& bounded_seq(h@, WORK_LIMIT as int)
            &&& is_convex_ccw(h@)
            &&& ring_contains_all(h@, pts@)
        }),
{
    let n = pts.len();
    let mut sorted: Vec<Pt> = Vec::new();
    let mut i: usize = 0;
    while i < n
        invariant
            0 <= i <= n,
            sorted@.len() == i,
            forall|k: int| 0 <= k < sorted@.len() ==> pts@.contains(#[trigger] sorted@[k]),
        decreases n - i,
    {
        let p = pts[i];
        let mut j: usize = 0;
        while j < sorted.len() && lex_le_of(&sorted[j], &p)
            invariant
                0 <= j <= sorted@.len(),
            decreases sorted@.len() - j,
        {
            j = j + 1;
        }
        let ghost before = sorted@;
        sorted.insert(j, p);
        proof {
            assert(pts@.contains(p));
            assert forall|k: int| 0 <= k < sorted@.len() implies pts@.contains(
                #[trigger] sorted@[k],
            ) by {
                if k < j {
                    assert(sorted@[k] == before[k]);
                } else if k == j {
                    assert(sorted@[k] == p);
                } else {
                    assert(sorted@[k] == before[k - 1]);
                }
            }
        }
        i = i + 1;
    }
    let mut lo: Vec<Pt> = Vec::new();
    let mut i: usize = 0;
    while i < n
        invariant
            0 <= i <= n,
            n == sorted@.len(),
            forall|k: int| 0 <= k < lo@.len() ==> pts@.contains(#[trigger] lo@[k]),
            bounded_seq(lo@, WORK_LIMIT as int),
        decreases n - i,
    {
        let p = sorted[i];
        proof {
            lemma_contains_bounded(pts@, sorted@[i as int], WORK_LIMIT as int);
        }
        while hull_should_pop(&lo, &p)
            invariant
                forall|k: int| 0 <= k < lo@.len() ==> pts@.contains(#[trigger] lo@[k]),
                bounded_seq(lo@, WORK_LIMIT as int),
            decreases lo@.len(),
        {
            lo.pop();
        }
        lo.push(p);
        i = i + 1;
    }
    let mut up: Vec<Pt> = Vec::new();
    let mut i: usize = 0;
    while i < n
        invariant
            0 <= i <= n,
            n == sorted@.len(),
            forall|k: int| 0 <= k < up@.len() ==> pts@.contains(#[trigger] up@[k]),
            bounded_seq(up@, WORK_LIMIT as int),
        decreases n - i,
    {
        let p = sorted[n - 1 - i];
        proof {
            lemma_contains_bounded(pts@, sorted@[n - 1 - i as int], WORK_LIMIT as int);
        }
        while hull_should_pop(&up, &p)
            invariant
                forall|k: int| 0 <= k < up@.len() ==> pts@.contains(#[trigger] up@[k]),
                bounded_seq(up@, WORK_LIMIT as int),
            decreases up@.len(),
        {
            up.pop();
        }
        up.push(p);
        i = i + 1;
    }
    let mut r: Vec<Pt> = Vec::new();
    let lo_n = lo.len();
    let mut i: usize = 0;
    while lo_n > 0 && i < lo_n - 1
        invariant
            lo_n == lo@.len(),
            forall|k: int| 0 <= k < r@.len() ==> pts@.contains(#[trigger] r@[k]),
            0 <= i <= lo@.len(),
        decreases lo@.len() - i,
    {
        r.push(lo[i]);
        i = i + 1;
    }
    let up_n = up.len();
    let mut i: usize = 0;
    while up_n > 0 && i < up_n - 1
        invariant
            up_n == up@.len(),
            forall|k: int| 0 <= k < r@.len() ==> pts@.contains(#[trigger] r@[k]),
            0 <= i <= up@.len(),
        decreases up@.len() - i,
    {
        r.push(up[i]);
        i = i + 1;
    }
    proof {
        assert forall|k: int| 0 <= k < r@.len() implies in_bounds(#[trigger] r@[k],
            WORK_LIMIT as int) by {
            lemma_contains_bounded(pts@, r@[k], WORK_LIMIT as int);
        }
    }
    if is_convex_ccw_of(&r) && ring_contains_all_of(&r, pts) {
        Some(r)
    } else {
        None
    }
}

/// A closed polygon: the paved area of one intersection.
#[derive(Clone, PartialEq, Eq, Debug)]
pub struct Polygon {
    pub points: Vec<Pt>,
}

impl Polygon {
    /// The mathematical view: the cyclic vertex sequence.
    pub open spec fn view(&self) -> Seq<Pt> {
        self.points@
    }

    /// A well-formed polygon is a simple ring within the working box.
    pub open spec fn wf(&self) -> bool {
        is_simple_ring(self.points@) && bounded_seq(self.points@, WORK_LIMIT as int)
    }
}

} // verus!
