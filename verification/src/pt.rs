//! Points and exact predicates on them: cross products, squared distances,
//! point-on-segment and segment-intersection tests, and rounded interpolation
//! along a segment. Coordinates are millimeters in a local planar frame.

use vstd::prelude::*;
use crate::num::{isqrt, lemma_mul_div_le, lemma_sqrt_floor_bounds, sqrt_floor};

verus! {

/// Input coordinates stay within 100 km of the local origin.
pub const COORD_LIMIT: i64 = 100_000_000;

/// Derived points (boundary offsets, crossing points) stay within this larger
/// box; every exact predicate below only asks for this weaker bound.
pub const WORK_LIMIT: i64 = 300_000_000;

/// A point of the local plane, in millimeters.
#[derive(Clone, Copy, PartialEq, Eq, Structural, Debug)]
pub struct Pt {
    pub x: i64,
    pub y: i64,
}

/// Both coordinates of `p` lie within `b` of the origin.
pub open spec fn in_bounds(p: Pt, b: int) -> bool {
    -b <= p.x <= b && -b <= p.y <= b
}

/// Twice the signed area of the triangle `o`, `a`, `b`: positive when walking
/// `o -> a -> b` turns left.
pub open spec fn cross3(o: Pt, a: Pt, b: Pt) -> int {
    (a.x - o.x) * (b.y - o.y) - (a.y - o.y) * (b.x - o.x)
}

/// Cross product of two direction vectors.
pub open spec fn cross_vec(ux: int, uy: int, vx: int, vy: int) -> int {
    ux * vy - uy * vx
}

/// Dot product of two direction vectors.
pub open spec fn dot_vec(ux: int, uy: int, vx: int, vy: int) -> int {
    ux * vx + uy * vy
}

/// Exact squared distance between two points.
pub open spec fn dist2(a: Pt, b: Pt) -> int {
    (b.x - a.x) * (b.x - a.x) + (b.y - a.y) * (b.y - a.y)
}

/// Length of the segment from `a` to `b`, rounded down to whole millimeters.
pub open spec fn seg_len(a: Pt, b: Pt) -> int {
    sqrt_floor(dist2(a, b) as nat) as int
}

/// `p` lies on the closed segment from `a` to `b`.
pub open spec fn on_seg(p: Pt, a: Pt, b: Pt) -> bool {
    cross3(a, b, p) == 0 && dot_vec(p.x - a.x, p.y - a.y, p.x - b.x, p.y - b.y) <= 0
}

/// The open interiors of segments `a..b` and `c..d` cross at a single point.
pub open spec fn proper_cross(a: Pt, b: Pt, c: Pt, d: Pt) -> bool {
    let o1 = cross3(a, b, c);
    let o2 = cross3(a, b, d);
    let o3 = cross3(c, d, a);
    let o4 = cross3(c, d, b);
    ((o1 > 0 && o2 < 0) || (o1 < 0 && o2 > 0)) && ((o3 > 0 && o4 < 0) || (o3 < 0 && o4 > 0))
}

/// The closed segments `a..b` and `c..d` share at least one point.
pub open spec fn segs_intersect(a: Pt, b: Pt, c: Pt, d: Pt) -> bool {
    proper_cross(a, b, c, d) || on_seg(c, a, b) || on_seg(d, a, b) || on_seg(a, c, d) || on_seg(
        b,
        c,
        d,
    )
}

/// Exact cross product of `o -> a` with `o -> b`.
pub fn cross3_of(o: &Pt, a: &Pt, b: &Pt) -> (r: i64)
    requires
        in_bounds(*o, WORK_LIMIT as int),
        in_bounds(*a, WORK_LIMIT as int),
        in_bounds(*b, WORK_LIMIT as int),
    ensures
        r == cross3(*o, *a, *b),
        -800_000_000_000_000_000 <= r <= 800_000_000_000_000_000,
{
    let ax = a.x as i128 - o.x as i128;
    let ay = a.y as i128 - o.y as i128;
    let bx = b.x as i128 - o.x as i128;
    let by = b.y as i128 - o.y as i128;
    proof {
        assert(-400_000_000_000_000_000i128 <= ax * by <= 400_000_000_000_000_000i128
            && -400_000_000_000_000_000i128 <= ay * bx <= 400_000_000_000_000_000i128)
            by (nonlinear_arith)
            requires
                -600_000_000i128 <= ax <= 600_000_000i128,
                -600_000_000i128 <= by <= 600_000_000i128,
                -600_000_000i128 <= ay <= 600_000_000i128,
                -600_000_000i128 <= bx <= 600_000_000i128,
        ;
    }
    let r128 = ax * by - ay * bx;
    r128 as i64
}

/// Exact squared distance between two points.
pub fn dist2_of(a: &Pt, b: &Pt) -> (r: u64)
    requires
        in_bounds(*a, WORK_LIMIT as int),
        in_bounds(*b, WORK_LIMIT as int),
    ensures
        r == dist2(*a, *b),
{
    let dx = b.x as i128 - a.x as i128;
    let dy = b.y as i128 - a.y as i128;
    proof {
        assert(0 <= dx * dx <= 360_000_000_000_000_000i128 && 0 <= dy * dy
            <= 360_000_000_000_000_000i128) by (nonlinear_arith)
            requires
                -600_000_000i128 <= dx <= 600_000_000i128,
                -600_000_000i128 <= dy <= 600_000_000i128,
        ;
    }
    let r128 = dx * dx + dy * dy;
    r128 as u64
}

/// The squared distance is at most what the working bound allows.
pub proof fn lemma_dist2_bound(a: Pt, b: Pt)
    requires
        in_bounds(a, WORK_LIMIT as int),
        in_bounds(b, WORK_LIMIT as int),
    ensures
        0 <= dist2(a, b) <= 720_000_000_000_000_000,
{
    assert(0 <= (b.x - a.x) * (b.x - a.x) + (b.y - a.y) * (b.y - a.y)
        <= 720_000_000_000_000_000) by (nonlinear_arith)
        requires
            -600_000_000 <= b.x - a.x <= 600_000_000,
            -600_000_000 <= b.y - a.y <= 600_000_000,
    ;
}

/// Segment length in whole millimeters; zero exactly for a degenerate segment.
pub fn seg_len_of(a: &Pt, b: &Pt) -> (r: i64)
    requires
        in_bounds(*a, WORK_LIMIT as int),
        in_bounds(*b, WORK_LIMIT as int),
    ensures
        r == seg_len(*a, *b),
        0 <= r <= 900_000_000,
        (r == 0) <==> (*a == *b),
{
    let d2 = dist2_of(a, b);
    let r = isqrt(d2);
    proof {
        lemma_sqrt_floor_bounds(d2 as nat);
        lemma_dist2_bound(*a, *b);
        assert(((b.x - a.x) * (b.x - a.x) + (b.y - a.y) * (b.y - a.y) == 0) <==> (b.x == a.x && b.y
            == a.y)) by (nonlinear_arith);
        let s = sqrt_floor(d2 as nat);
        if d2 > 0 && s == 0 {
            assert(d2 < 1) by (nonlinear_arith)
                requires
                    d2 < (s + 1) * (s + 1),
                    s == 0nat,
            ;
        }
        if d2 == 0 {
            assert(s == 0) by (nonlinear_arith)
                requires
                    s * s <= 0,
            ;
        }
        assert(r <= 900_000_000) by (nonlinear_arith)
            requires
                r * r <= 720_000_000_000_000_000,
                r >= 0,
        ;
    }
    r as i64
}

/// `p` lies in the axis-aligned box spanned by `a` and `b`.
pub open spec fn in_box(p: Pt, a: Pt, b: Pt) -> bool {
    (if a.x <= b.x {
        a.x <= p.x <= b.x
    } else {
        b.x <= p.x <= a.x
    }) && (if a.y <= b.y {
        a.y <= p.y <= b.y
    } else {
        b.y <= p.y <= a.y
    })
}

/// `num / den` of the way from `a` to `b`, each coordinate rounded toward `a`.
pub open spec fn ratio_point(a: Pt, b: Pt, num: int, den: int) -> Pt {
    let qx = ((if b.x >= a.x {
        b.x - a.x
    } else {
        a.x - b.x
    }) * num) / den;
    let qy = ((if b.y >= a.y {
        b.y - a.y
    } else {
        a.y - b.y
    }) * num) / den;
    Pt {
        x: if b.x >= a.x {
            (a.x + qx) as i64
        } else {
            (a.x - qx) as i64
        },
        y: if b.y >= a.y {
            (a.y + qy) as i64
        } else {
            (a.y - qy) as i64
        },
    }
}

/// The rounded fractional point stays inside the box of its endpoints.
pub proof fn lemma_ratio_point_in_box(a: Pt, b: Pt, num: int, den: int)
    requires
        0 <= num <= den,
        0 < den,
    ensures
        in_box(ratio_point(a, b, num, den), a, b),
{
    lemma_mul_div_le(if b.x >= a.x {
        b.x - a.x
    } else {
        a.x - b.x
    }, num, den);
    lemma_mul_div_le(if b.y >= a.y {
        b.y - a.y
    } else {
        a.y - b.y
    }, num, den);
}

/// Exact evaluation of `ratio_point`.
pub fn ratio_point_of(a: &Pt, b: &Pt, num: i64, den: i64) -> (r: Pt)
    requires
        in_bounds(*a, WORK_LIMIT as int),
        in_bounds(*b, WORK_LIMIT as int),
        0 <= num <= den,
        0 < den <= 2_000_000_000_000_000_000,
    ensures
        r == ratio_point(*a, *b, num as int, den as int),
        in_box(r, *a, *b),
        in_bounds(r, WORK_LIMIT as int),
{
    let adx: u128 = if b.x >= a.x {
        (b.x - a.x) as u128
    } else {
        (a.x - b.x) as u128
    };
    let ady: u128 = if b.y >= a.y {
        (b.y - a.y) as u128
    } else {
        (a.y - b.y) as u128
    };
    proof {
        assert(adx * (num as u128) <= 600_000_000u128 * 2_000_000_000_000_000_000u128)
            by (nonlinear_arith)
            requires
                0 <= adx <= 600_000_000u128,
                0 <= num as u128 <= 2_000_000_000_000_000_000u128,
        ;
        assert(ady * (num as u128) <= 600_000_000u128 * 2_000_000_000_000_000_000u128)
            by (nonlinear_arith)
            requires
                0 <= ady <= 600_000_000u128,
                0 <= num as u128 <= 2_000_000_000_000_000_000u128,
        ;
    }
    let qx = (adx * num as u128) / den as u128;
    let qy = (ady * num as u128) / den as u128;
    proof {
        lemma_mul_div_le(adx as int, num as int, den as int);
        lemma_mul_div_le(ady as int, num as int, den as int);
    }
    let r = Pt {
        x: if b.x >= a.x {
            a.x + qx as i64
        } else {
            a.x - qx as i64
        },
        y: if b.y >= a.y {
            a.y + qy as i64
        } else {
            a.y - qy as i64
        },
    };
    proof {
        lemma_ratio_point_in_box(*a, *b, num as int, den as int);
    }
    r
}

/// Exact evaluation of `on_seg`.
pub fn on_seg_of(p: &Pt, a: &Pt, b: &Pt) -> (r: bool)
    requires
        in_bounds(*p, WORK_LIMIT as int),
        in_bounds(*a, WORK_LIMIT as int),
        in_bounds(*b, WORK_LIMIT as int),
    ensures
        r == on_seg(*p, *a, *b),
{
    let c = cross3_of(a, b, p);
    if c != 0 {
        return false;
    }
    let ux = p.x as i128 - a.x as i128;
    let uy = p.y as i128 - a.y as i128;
    let vx = p.x as i128 - b.x as i128;
    let vy = p.y as i128 - b.y as i128;
    proof {
        assert(-400_000_000_000_000_000i128 <= ux * vx <= 400_000_000_000_000_000i128
            && -400_000_000_000_000_000i128 <= uy * vy <= 400_000_000_000_000_000i128)
            by (nonlinear_arith)
            requires
                -600_000_000i128 <= ux <= 600_000_000i128,
                -600_000_000i128 <= vx <= 600_000_000i128,
                -600_000_000i128 <= uy <= 600_000_000i128,
                -600_000_000i128 <= vy <= 600_000_000i128,
        ;
    }
    ux * vx + uy * vy <= 0
}

/// Exact evaluation of `segs_intersect`.
pub fn segs_intersect_of(a: &Pt, b: &Pt, c: &Pt, d: &Pt) -> (r: bool)
    requires
        in_bounds(*a, WORK_LIMIT as int),
        in_bounds(*b, WORK_LIMIT as int),
        in_bounds(*c, WORK_LIMIT as int),
        in_bounds(*d, WORK_LIMIT as int),
    ensures
        r == segs_intersect(*a, *b, *c, *d),
{
    let o1 = cross3_of(a, b, c);
    let o2 = cross3_of(a, b, d);
    let o3 = cross3_of(c, d, a);
    let o4 = cross3_of(c, d, b);
    if ((o1 > 0 && o2 < 0) || (o1 < 0 && o2 > 0)) && ((o3 > 0 && o4 < 0) || (o3 < 0 && o4 > 0)) {
        return true;
    }
    on_seg_of(c, a, b) || on_seg_of(d, a, b) || on_seg_of(a, c, d) || on_seg_of(b, c, d)
}

/// The crossing point of two properly crossing segments, rounded to whole
/// millimeters, as a fraction along `a..b`.
pub open spec fn cross_point(a: Pt, b: Pt, c: Pt, d: Pt) -> Pt {
    let o3 = cross3(c, d, a);
    let o4 = cross3(c, d, b);
    let num = if o3 >= 0 {
        o3
    } else {
        -o3
    };
    let den = if o3 >= 0 {
        o3 - o4
    } else {
        o4 - o3
    };
    ratio_point(a, b, num, den)
}

/// Exact evaluation of `cross_point`.
pub fn cross_point_of(a: &Pt, b: &Pt, c: &Pt, d: &Pt) -> (r: Pt)
    requires
        in_bounds(*a, WORK_LIMIT as int),
        in_bounds(*b, WORK_LIMIT as int),
        in_bounds(*c, WORK_LIMIT as int),
        in_bounds(*d, WORK_LIMIT as int),
        proper_cross(*a, *b, *c, *d),
    ensures
        r == cross_point(*a, *b, *c, *d),
        in_box(r, *a, *b),
        in_bounds(r, WORK_LIMIT as int),
{
    let o3 = cross3_of(c, d, a);
    let o4 = cross3_of(c, d, b);
    let num: i64 = if o3 >= 0 {
        o3
    } else {
        -o3
    };
    let den: i64 = if o3 >= 0 {
        o3 - o4
    } else {
        o4 - o3
    };
    ratio_point_of(a, b, num, den)
}

/// The direction `(dx, dy)` points into the upper half plane, the positive
/// x-axis included: its angle lies in `[0, pi)`.
pub open spec fn upper_dir(dx: int, dy: int) -> bool {
    dy > 0 || (dy == 0 && dx > 0)
}

/// Strict counterclockwise order on nonzero directions, starting at the
/// positive x-axis. Directions on a common ray are not ordered.
pub open spec fn dir_lt(ux: int, uy: int, vx: int, vy: int) -> bool {
    if upper_dir(ux, uy) != upper_dir(vx, vy) {
        upper_dir(ux, uy)
    } else {
        cross_vec(ux, uy, vx, vy) > 0
    }
}

/// Two directions lie on one ray from the origin.
pub open spec fn same_ray(ux: int, uy: int, vx: int, vy: int) -> bool {
    cross_vec(ux, uy, vx, vy) == 0 && dot_vec(ux, uy, vx, vy) > 0
}

/// Exact evaluation of `dir_lt`.
pub fn dir_lt_of(ux: i64, uy: i64, vx: i64, vy: i64) -> (r: bool)
    requires
        -1_200_000_000 <= ux <= 1_200_000_000,
        -1_200_000_000 <= uy <= 1_200_000_000,
        -1_200_000_000 <= vx <= 1_200_000_000,
        -1_200_000_000 <= vy <= 1_200_000_000,
    ensures
        r == dir_lt(ux as int, uy as int, vx as int, vy as int),
{
    let uu = uy > 0 || (uy == 0 && ux > 0);
    let vu = vy > 0 || (vy == 0 && vx > 0);
    if uu != vu {
        uu
    } else {
        proof {
            assert(-1_440_000_000_000_000_000i128 <= (ux as i128) * (vy as i128)
                <= 1_440_000_000_000_000_000i128 && -1_440_000_000_000_000_000i128 <= (uy as i128)
                * (vx as i128) <= 1_440_000_000_000_000_000i128) by (nonlinear_arith)
                requires
                    -1_200_000_000i128 <= ux as i128 <= 1_200_000_000i128,
                    -1_200_000_000i128 <= uy as i128 <= 1_200_000_000i128,
                    -1_200_000_000i128 <= vx as i128 <= 1_200_000_000i128,
                    -1_200_000_000i128 <= vy as i128 <= 1_200_000_000i128,
            ;
        }
        (ux as i128) * (vy as i128) - (uy as i128) * (vx as i128) > 0
    }
}

/// Exact evaluation of `same_ray`.
pub fn same_ray_of(ux: i64, uy: i64, vx: i64, vy: i64) -> (r: bool)
    requires
        -1_200_000_000 <= ux <= 1_200_000_000,
        -1_200_000_000 <= uy <= 1_200_000_000,
        -1_200_000_000 <= vx <= 1_200_000_000,
        -1_200_000_000 <= vy <= 1_200_000_000,
    ensures
        r == same_ray(ux as int, uy as int, vx as int, vy as int),
{
    proof {
        assert(-1_440_000_000_000_000_000i128 <= (ux as i128) * (vy as i128)
            <= 1_440_000_000_000_000_000i128 && -1_440_000_000_000_000_000i128 <= (uy as i128) * (
        vx as i128) <= 1_440_000_000_000_000_000i128 && -1_440_000_000_000_000_000i128 <= (
        ux as i128) * (vx as i128) <= 1_440_000_000_000_000_000i128
            && -1_440_000_000_000_000_000i128 <= (uy as i128) * (vy as i128)
            <= 1_440_000_000_000_000_000i128) by (nonlinear_arith)
            requires
                -1_200_000_000i128 <= ux as i128 <= 1_200_000_000i128,
                -1_200_000_000i128 <= uy as i128 <= 1_200_000_000i128,
                -1_200_000_000i128 <= vx as i128 <= 1_200_000_000i128,
                -1_200_000_000i128 <= vy as i128 <= 1_200_000_000i128,
        ;
    }
    (ux as i128) * (vy as i128) - (uy as i128) * (vx as i128) == 0 && (ux as i128) * (vx as i128)
        + (uy as i128) * (vy as i128) > 0
}

} // verus!
