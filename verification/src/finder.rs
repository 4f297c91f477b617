//! Searching for boundary-curve crossings: the first place two boundary
//! polylines touch, the arc position of a point projected onto a
//! center-line, containment of a point in a road's band, and the miter
//! corner where two boundary lines extended would meet.

use vstd::prelude::*;
use crate::polyline::{seq_length, seq_length_from, PolyLine};
use crate::pt::{
    cross_point, cross_point_of, dist2, dist2_of, dot_vec, in_bounds, on_seg, on_seg_of,
    proper_cross, ratio_point_of, seg_len, seg_len_of, segs_intersect, segs_intersect_of, Pt,
    WORK_LIMIT,
};

verus! {

/// A representative shared point of two closed segments that intersect: the
/// rounded proper crossing where the interiors cross, else an endpoint that
/// lies on the other segment.
pub open spec fn crossing_rep(a: Pt, b: Pt, c: Pt, d: Pt) -> Pt {
    if proper_cross(a, b, c, d) {
        cross_point(a, b, c, d)
    } else if on_seg(c, a, b) {
        c
    } else if on_seg(d, a, b) {
        d
    } else if on_seg(a, c, d) {
        a
    } else {
        b
    }
}

/// Exact evaluation of `crossing_rep`.
pub fn crossing_rep_of(a: &Pt, b: &Pt, c: &Pt, d: &Pt) -> (r: Pt)
    requires
        in_bounds(*a, WORK_LIMIT as int),
        in_bounds(*b, WORK_LIMIT as int),
        in_bounds(*c, WORK_LIMIT as int),
        in_bounds(*d, WORK_LIMIT as int),
        segs_intersect(*a, *b, *c, *d),
    ensures
        r == crossing_rep(*a, *b, *c, *d),
        in_bounds(r, WORK_LIMIT as int),
{
    let o1 = crate::pt::cross3_of(a, b, c);
    let o2 = crate::pt::cross3_of(a, b, d);
    let o3 = crate::pt::cross3_of(c, d, a);
    let o4 = crate::pt::cross3_of(c, d, b);
    if ((o1 > 0 && o2 < 0) || (o1 < 0 && o2 > 0)) && ((o3 > 0 && o4 < 0) || (o3 < 0 && o4 > 0)) {
        cross_point_of(a, b, c, d)
    } else if on_seg_of(c, a, b) {
        *c
    } else if on_seg_of(d, a, b) {
        *d
    } else if on_seg_of(a, c, d) {
        *a
    } else {
        *b
    }
}

/// The first point, walking outward segment by segment along `s` and for
/// each along `t`, where the two polylines touch.
pub open spec fn first_cross_from(s: Seq<Pt>, t: Seq<Pt>, i: int, j: int) -> Option<Pt>
    decreases s.len() - i, t.len() - j,
{
    if i >= s.len() - 1 {
        None
    } else if j >= t.len() - 1 {
        first_cross_from(s, t, i + 1, 0)
    } else if segs_intersect(s[i], s[i + 1], t[j], t[j + 1]) {
        Some(crossing_rep(s[i], s[i + 1], t[j], t[j + 1]))
    } else {
        first_cross_from(s, t, i, j + 1)
    }
}

/// Exact evaluation of `first_cross_from` over whole polylines. `None`
/// means the two boundary curves never touch.
#[verifier::loop_isolation(false)]
pub fn first_crossing(a: &PolyLine, b: &PolyLine) -> (r: Option<Pt>)
    requires
        a.wf_within(WORK_LIMIT as int),
        b.wf_within(WORK_LIMIT as int),
    ensures
        r == first_cross_from(a@, b@, 0, 0),
        r is Some ==> in_bounds(r->0, WORK_LIMIT as int),
{
    let ghost s = a.pts@;
    let ghost t = b.pts@;
    let n = a.pts.len();
    let m = b.pts.len();
    let mut i: usize = 0;
    while i < n - 1
        invariant
            0 <= i <= n - 1,
            first_cross_from(s, t, i as int, 0) == first_cross_from(s, t, 0, 0),
        decreases n - 1 - i,
    {
        let mut j: usize = 0;
        while j < m - 1
            invariant
                0 <= j <= m - 1,
                first_cross_from(s, t, i as int, j as int) == first_cross_from(s, t, 0, 0),
            decreases m - 1 - j,
        {
            if segs_intersect_of(&a.pts[i], &a.pts[i + 1], &b.pts[j], &b.pts[j + 1]) {
                let p = crossing_rep_of(&a.pts[i], &a.pts[i + 1], &b.pts[j], &b.pts[j + 1]);
                return Some(p);
            }
            j = j + 1;
        }
        i = i + 1;
    }
    None
}

/// The clamped, rounded projection offset of `p` onto the segment
/// `a -> b`, measured along the segment from `a` in whole millimeters.
pub open spec fn proj_offset(p: Pt, a: Pt, b: Pt) -> int {
    let l = seg_len(a, b);
    let dot = dot_vec(p.x - a.x, p.y - a.y, b.x - a.x, b.y - a.y);
    if dot <= 0 {
        0
    } else {
        let q = dot / l;
        if q >= l {
            l
        } else {
            q
        }
    }
}

/// The arc position of the point of `s` closest to `p`, scanning segments
/// from `i` onward with the best candidate so far (`best_d2` at position
/// `best_arc`), the earliest position kept on ties; `acc` is the arc length
/// of the segments already scanned. A segment's candidate is the rounded
/// clamped projection of `p` onto it.
pub open spec fn best_arc_from(
    s: Seq<Pt>,
    p: Pt,
    i: int,
    best_d2: int,
    best_arc: int,
    acc: int,
) -> int
    decreases s.len() - i,
{
    if i >= s.len() - 1 {
        best_arc
    } else {
        let l = seg_len(s[i], s[i + 1]);
        let t = proj_offset(p, s[i], s[i + 1]);
        let q = crate::pt::ratio_point(s[i], s[i + 1], t, l);
        let d2 = dist2(p, q);
        if d2 < best_d2 {
            best_arc_from(s, p, i + 1, d2, acc + t, acc + l)
        } else {
            best_arc_from(s, p, i + 1, best_d2, best_arc, acc + l)
        }
    }
}

/// The arc position along `pl` of the point of `pl` closest to `p` among
/// the rounded per-segment projections, the earliest position on ties,
/// between zero and the total length.
#[verifier::loop_isolation(false)]
pub fn arc_project(pl: &PolyLine, p: &Pt) -> (r: i64)
    requires
        pl.wf_within(WORK_LIMIT as int),
        in_bounds(*p, WORK_LIMIT as int),
    ensures
        r == best_arc_from(pl@, *p, 0, dist2(*p, pl@[0]), 0, 0),
        0 <= r <= seq_length(pl@),
        r <= 225_000_000_000_000,
{
    proof {
        crate::polyline::lemma_length_from_bounds(pl.pts@, 0);
        assert((pl.pts@.len() - 1) * 900_000_000 <= 225_000_000_000_000) by (nonlinear_arith)
            requires
                pl.pts@.len() <= 250_000,
        ;
    }
    let ghost s = pl.pts@;
    let n = pl.pts.len();
    let mut best_arc: i64 = 0;
    let mut best_d2: u64 = dist2_of(p, &pl.pts[0]);
    let mut acc: i64 = 0;
    let mut i: usize = 0;
    proof {
        crate::polyline::lemma_length_from_bounds(s, 0);
    }
    while i < n - 1
        invariant
            0 <= i <= n - 1,
            acc + seq_length_from(s, i as int) == seq_length(s),
            0 <= acc <= i * 900_000_000,
            0 <= best_arc <= acc,
            best_arc_from(s, *p, 0, dist2(*p, s[0]), 0, 0) == best_arc_from(
                s,
                *p,
                i as int,
                best_d2 as int,
                best_arc as int,
                acc as int,
            ),
        decreases n - 1 - i,
    {
        proof {
            crate::polyline::lemma_length_from_bounds(s, i as int);
            crate::polyline::lemma_length_from_bounds(s, i + 1);
            crate::polyline::lemma_seg_len_range(s[i as int], s[i + 1]);
            assert(i * 900_000_000 + 900_000_000 == (i + 1) * 900_000_000) by (nonlinear_arith);
        }
        let a = pl.pts[i];
        let b = pl.pts[i + 1];
        let l = seg_len_of(&a, &b);
        proof {
            assert(-400_000_000_000_000_000i128 <= (p.x as i128 - a.x as i128) * (b.x as i128
                - a.x as i128) <= 400_000_000_000_000_000i128 && -400_000_000_000_000_000i128 <= (
            p.y as i128 - a.y as i128) * (b.y as i128 - a.y as i128)
                <= 400_000_000_000_000_000i128) by (nonlinear_arith)
                requires
                    -600_000_000i128 <= p.x as i128 - a.x as i128 <= 600_000_000i128,
                    -600_000_000i128 <= b.x as i128 - a.x as i128 <= 600_000_000i128,
                    -600_000_000i128 <= p.y as i128 - a.y as i128 <= 600_000_000i128,
                    -600_000_000i128 <= b.y as i128 - a.y as i128 <= 600_000_000i128,
            ;
        }
        let dot = (p.x as i128 - a.x as i128) * (b.x as i128 - a.x as i128) + (p.y as i128
            - a.y as i128) * (b.y as i128 - a.y as i128);
        let mut t: i64 = 0;
        if dot > 0 {
            let q128 = dot as u128 / (l as u128);
            if q128 >= l as u128 {
                t = l;
            } else {
                t = q128 as i64;
            }
        }
        let q = ratio_point_of(&a, &b, t, l);
        let d2 = dist2_of(p, &q);
        if d2 < best_d2 {
            best_d2 = d2;
            best_arc = acc + t;
        }
        acc = acc + l;
        i = i + 1;
    }
    best_arc
}

/// Some segment of `s` properly crosses some segment of `t`: their
/// interiors intersect at a point, endpoint touches not counted.
pub open spec fn any_proper_cross(s: Seq<Pt>, t: Seq<Pt>) -> bool {
    exists|i: int, j: int|
        0 <= i < s.len() - 1 && 0 <= j < t.len() - 1 && #[trigger] proper_cross(
            s[i],
            s[i + 1],
            t[j],
            t[j + 1],
        )
}

/// Exact evaluation of `any_proper_cross`.
#[verifier::loop_isolation(false)]
pub fn any_proper_cross_of(a: &PolyLine, b: &PolyLine) -> (r: bool)
    requires
        a.wf_within(WORK_LIMIT as int),
        b.wf_within(WORK_LIMIT as int),
    ensures
        r == any_proper_cross(a@, b@),
{
    let ghost s = a.pts@;
    let ghost t = b.pts@;
    let n = a.pts.len();
    let m = b.pts.len();
    let mut i: usize = 0;
    while i < n - 1
        invariant
            0 <= i <= n - 1,
            forall|i2: int, j2: int|
                0 <= i2 < i && 0 <= j2 < t.len() - 1 ==> !#[trigger] proper_cross(
                    s[i2],
                    s[i2 + 1],
                    t[j2],
                    t[j2 + 1],
                ),
        decreases n - 1 - i,
    {
        let mut j: usize = 0;
        while j < m - 1
            invariant
                0 <= j <= m - 1,
                forall|j2: int|
                    0 <= j2 < j ==> !#[trigger] proper_cross(
                        s[i as int],
                        s[i as int + 1],
                        t[j2],
                        t[j2 + 1],
                    ),
            decreases m - 1 - j,
        {
            let o1 = crate::pt::cross3_of(&a.pts[i], &a.pts[i + 1], &b.pts[j]);
            let o2 = crate::pt::cross3_of(&a.pts[i], &a.pts[i + 1], &b.pts[j + 1]);
            let o3 = crate::pt::cross3_of(&b.pts[j], &b.pts[j + 1], &a.pts[i]);
            let o4 = crate::pt::cross3_of(&b.pts[j], &b.pts[j + 1], &a.pts[i + 1]);
            if ((o1 > 0 && o2 < 0) || (o1 < 0 && o2 > 0)) && ((o3 > 0 && o4 < 0) || (o3 < 0 && o4
                > 0)) {
                proof {
                    assert(proper_cross(s[i as int], s[i as int + 1], t[j as int], t[j as int + 1]));
                }
                return true;
            }
            j = j + 1;
        }
        i = i + 1;
    }
    false
}

/// The squared distance from `p` to the closed segment `a..b` is below `w`:
/// stated exactly over integers, with the interior case cleared of its
/// denominator.
pub open spec fn seg_dist2_lt(p: Pt, a: Pt, b: Pt, w: int) -> bool {
    let l2 = dist2(a, b);
    let t = dot_vec(p.x - a.x, p.y - a.y, b.x - a.x, b.y - a.y);
    if t <= 0 {
        dist2(p, a) < w * w
    } else if t >= l2 {
        dist2(p, b) < w * w
    } else {
        dist2(p, a) * l2 - t * t < w * w * l2
    }
}

/// `p` lies strictly inside the band of half-width `w` around `s`.
pub open spec fn within_band(p: Pt, s: Seq<Pt>, w: int) -> bool {
    exists|i: int| 0 <= i < s.len() - 1 && seg_dist2_lt(p, #[trigger] s[i], s[i + 1], w)
}

/// Exact evaluation of `within_band`.
#[verifier::loop_isolation(false)]
pub fn within_band_of(p: &Pt, pl: &PolyLine, w: i64) -> (r: bool)
    requires
        pl.wf_within(WORK_LIMIT as int),
        in_bounds(*p, WORK_LIMIT as int),
        0 <= w <= 200_000_000,
    ensures
        r == within_band(*p, pl@, w as int),
{
    let ghost s = pl.pts@;
    let n = pl.pts.len();
    let mut i: usize = 0;
    while i < n - 1
        invariant
            0 <= i <= n - 1,
            forall|k: int| 0 <= k < i ==> !seg_dist2_lt(*p, #[trigger] s[k], s[k + 1], w as int),
        decreases n - 1 - i,
    {
        let a = pl.pts[i];
        let b = pl.pts[i + 1];
        let l2 = dist2_of(&a, &b) as i128;
        proof {
            assert(-400_000_000_000_000_000i128 <= (p.x as i128 - a.x as i128) * (b.x as i128
                - a.x as i128) <= 400_000_000_000_000_000i128 && -400_000_000_000_000_000i128 <= (
            p.y as i128 - a.y as i128) * (b.y as i128 - a.y as i128)
                <= 400_000_000_000_000_000i128 && 0 <= (w as i128) * (w as i128)
                <= 40_000_000_000_000_000i128) by (nonlinear_arith)
                requires
                    -600_000_000i128 <= p.x as i128 - a.x as i128 <= 600_000_000i128,
                    -600_000_000i128 <= b.x as i128 - a.x as i128 <= 600_000_000i128,
                    -600_000_000i128 <= p.y as i128 - a.y as i128 <= 600_000_000i128,
                    -600_000_000i128 <= b.y as i128 - a.y as i128 <= 600_000_000i128,
                    0 <= w as i128 <= 200_000_000i128,
            ;
        }
        let t = (p.x as i128 - a.x as i128) * (b.x as i128 - a.x as i128) + (p.y as i128
            - a.y as i128) * (b.y as i128 - a.y as i128);
        let pa2 = dist2_of(p, &a) as i128;
        let pb2 = dist2_of(p, &b) as i128;
        let ww = (w as i128) * (w as i128);
        proof {
            crate::pt::lemma_dist2_bound(*p, a);
            crate::pt::lemma_dist2_bound(*p, b);
            crate::pt::lemma_dist2_bound(a, b);
            assert(0 <= pa2 * l2 <= 800_000_000_000_000_000_000_000_000_000_000_000i128 && 0 <= t
                * t <= 800_000_000_000_000_000_000_000_000_000_000_000i128 && 0 <= ww * l2
                <= 800_000_000_000_000_000_000_000_000_000_000_000i128) by (nonlinear_arith)
                requires
                    0 <= pa2 <= 800_000_000_000_000_000i128,
                    0 <= l2 <= 800_000_000_000_000_000i128,
                    -800_000_000_000_000_000i128 <= t <= 800_000_000_000_000_000i128,
                    0 <= ww <= 40_000_000_000_000_000i128,
            ;
        }
        let hit = if t <= 0 {
            pa2 < ww
        } else if t >= l2 {
            pb2 < ww
        } else {
            pa2 * l2 - t * t < ww * l2
        };
        if hit {
            return true;
        }
        i = i + 1;
    }
    false
}

/// Where the infinite lines through `a -> b` and `c -> d` meet, each
/// coordinate rounded toward `a`: `None` exactly when the lines are
/// parallel or the rounded meeting point leaves the working box.
pub open spec fn line_cross_spec(a: Pt, b: Pt, c: Pt, d: Pt) -> Option<Pt> {
    let ux = b.x - a.x;
    let uy = b.y - a.y;
    let vx = d.x - c.x;
    let vy = d.y - c.y;
    let den = ux * vy - uy * vx;
    if den == 0 {
        None
    } else {
        let tn = (c.x - a.x) * vy - (c.y - a.y) * vx;
        let qx = crate::polyline::abs_val(ux * tn) / crate::polyline::abs_val(den);
        let qy = crate::polyline::abs_val(uy * tn) / crate::polyline::abs_val(den);
        if qx > 1_000_000_000 || qy > 1_000_000_000 {
            None
        } else {
            let px = if (ux * tn >= 0) == (den >= 0) {
                a.x + qx
            } else {
                a.x - qx
            };
            let py = if (uy * tn >= 0) == (den >= 0) {
                a.y + qy
            } else {
                a.y - qy
            };
            if px < -300_000_000 || px > 300_000_000 || py < -300_000_000 || py > 300_000_000 {
                None
            } else {
                Some(Pt { x: px as i64, y: py as i64 })
            }
        }
    }
}

/// Exact evaluation of `line_cross_spec`. Used for the miter corner
/// between two adjacent roads' facing boundaries.
pub fn line_cross_of(a: &Pt, b: &Pt, c: &Pt, d: &Pt) -> (r: Option<Pt>)
    requires
        in_bounds(*a, WORK_LIMIT as int),
        in_bounds(*b, WORK_LIMIT as int),
        in_bounds(*c, WORK_LIMIT as int),
        in_bounds(*d, WORK_LIMIT as int),
    ensures
        r == line_cross_spec(*a, *b, *c, *d),
        r is Some ==> in_bounds(r->0, WORK_LIMIT as int),
{
    let ux = b.x as i128 - a.x as i128;
    let uy = b.y as i128 - a.y as i128;
    let vx = d.x as i128 - c.x as i128;
    let vy = d.y as i128 - c.y as i128;
    proof {
        assert(-400_000_000_000_000_000i128 <= ux * vy <= 400_000_000_000_000_000i128
            && -400_000_000_000_000_000i128 <= uy * vx <= 400_000_000_000_000_000i128
            && -400_000_000_000_000_000i128 <= (c.x as i128 - a.x as i128) * vy
            <= 400_000_000_000_000_000i128 && -400_000_000_000_000_000i128 <= (c.y as i128
            - a.y as i128) * vx <= 400_000_000_000_000_000i128) by (nonlinear_arith)
            requires
                -600_000_000i128 <= ux <= 600_000_000i128,
                -600_000_000i128 <= uy <= 600_000_000i128,
                -600_000_000i128 <= vx <= 600_000_000i128,
                -600_000_000i128 <= vy <= 600_000_000i128,
                -600_000_000i128 <= c.x as i128 - a.x as i128 <= 600_000_000i128,
                -600_000_000i128 <= c.y as i128 - a.y as i128 <= 600_000_000i128,
        ;
    }
    let den = ux * vy - uy * vx;
    if den == 0 {
        return None;
    }
    let tn = (c.x as i128 - a.x as i128) * vy - (c.y as i128 - a.y as i128) * vx;
    // components of the meeting point, rounded toward a
    proof {
        assert(-480_000_000_000_000_000_000_000_000i128 <= ux * tn
            <= 480_000_000_000_000_000_000_000_000i128 && -480_000_000_000_000_000_000_000_000i128
            <= uy * tn <= 480_000_000_000_000_000_000_000_000i128) by (nonlinear_arith)
            requires
                -600_000_000i128 <= ux <= 600_000_000i128,
                -600_000_000i128 <= uy <= 600_000_000i128,
                -800_000_000_000_000_000i128 <= tn <= 800_000_000_000_000_000i128,
        ;
    }
    let numx = ux * tn;
    let numy = uy * tn;
    let ax: u128 = if numx >= 0 {
        numx as u128
    } else {
        (-numx) as u128
    };
    let ay: u128 = if numy >= 0 {
        numy as u128
    } else {
        (-numy) as u128
    };
    let dd: u128 = if den >= 0 {
        den as u128
    } else {
        (-den) as u128
    };
    let qxm = ax / dd;
    let qym = ay / dd;
    if qxm > 1_000_000_000 || qym > 1_000_000_000 {
        return None;
    }
    let qx = qxm as i64;
    let qy = qym as i64;
    let px = if (numx >= 0) == (den >= 0) {
        a.x + qx
    } else {
        a.x - qx
    };
    let py = if (numy >= 0) == (den >= 0) {
        a.y + qy
    } else {
        a.y - qy
    };
    if px < -300_000_000 || px > 300_000_000 || py < -300_000_000 || py > 300_000_000 {
        return None;
    }
    Some(Pt { x: px, y: py })
}

} // verus!
