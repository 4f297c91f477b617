//! Polylines: ordered point chains with no repeated consecutive points.
//! A road's center-line is a polyline; its boundary curves are offset
//! polylines. Lengths are arc lengths in whole millimeters.

use vstd::prelude::*;
use crate::num::{lemma_mul_div_le, lemma_sqrt_floor_bounds};
use crate::pt::{
    cross_point, cross3_of, dist2, in_bounds, in_box, on_seg, proper_cross, ratio_point,
    ratio_point_of, seg_len, seg_len_of, segs_intersect, segs_intersect_of, Pt, COORD_LIMIT,
    WORK_LIMIT,
};

verus! {

/// Every point of `s` lies within `b` of the origin.
pub open spec fn bounded_seq(s: Seq<Pt>, b: int) -> bool {
    forall|i: int| 0 <= i < s.len() ==> in_bounds(#[trigger] s[i], b)
}

/// `s` is a point chain: at least two points, a bounded count, and no two
/// consecutive points equal.
pub open spec fn chain_seq(s: Seq<Pt>) -> bool {
    &&& 2 <= s.len() <= 250_000
    &&& forall|i: int| 0 <= i < s.len() - 1 ==> #[trigger] s[i] != s[i + 1]
}

/// Arc length of `s` from vertex `i` on.
pub open spec fn seq_length_from(s: Seq<Pt>, i: int) -> int
    decreases s.len() - i,
{
    if i >= s.len() - 1 {
        0
    } else {
        seg_len(s[i], s[i + 1]) + seq_length_from(s, i + 1)
    }
}

/// Total arc length of `s`.
pub open spec fn seq_length(s: Seq<Pt>) -> int {
    seq_length_from(s, 0)
}

/// Arc length is bounded below by the number of remaining segments (each
/// segment of a chain is at least one millimeter) and above by the longest
/// segment the working box allows.
pub proof fn lemma_length_from_bounds(s: Seq<Pt>, i: int)
    requires
        chain_seq(s),
        bounded_seq(s, WORK_LIMIT as int),
        0 <= i,
    ensures
        seq_length_from(s, i) >= if i < s.len() - 1 {
            s.len() - 1 - i
        } else {
            0
        },
        seq_length_from(s, i) <= if i < s.len() - 1 {
            (s.len() - 1 - i) * 900_000_000
        } else {
            0
        },
    decreases s.len() - i,
{
    if i < s.len() - 1 {
        lemma_length_from_bounds(s, i + 1);
        lemma_seg_len_range(s[i], s[i + 1]);
        assert((s.len() - 1 - (i + 1)) * 900_000_000 + 900_000_000 == (s.len() - 1 - i)
            * 900_000_000) by (nonlinear_arith);
    }
}

/// A chain segment within the working box has length 1 ..= 900 000 000.
pub proof fn lemma_seg_len_range(a: Pt, b: Pt)
    requires
        in_bounds(a, WORK_LIMIT as int),
        in_bounds(b, WORK_LIMIT as int),
    ensures
        0 <= seg_len(a, b) <= 900_000_000,
        a != b ==> seg_len(a, b) >= 1,
{
    crate::pt::lemma_dist2_bound(a, b);
    let d2 = dist2(a, b);
    lemma_sqrt_floor_bounds(d2 as nat);
    let r = crate::num::sqrt_floor(d2 as nat);
    assert(r <= 900_000_000) by (nonlinear_arith)
        requires
            r * r <= 720_000_000_000_000_000,
            r >= 0,
    ;
    if a != b {
        assert(d2 > 0) by (nonlinear_arith)
            requires
                d2 == (b.x - a.x) * (b.x - a.x) + (b.y - a.y) * (b.y - a.y),
                b.x != a.x || b.y != a.y,
        ;
        if r == 0 {
            assert(d2 < 1) by (nonlinear_arith)
                requires
                    d2 < (r + 1) * (r + 1),
                    r == 0nat,
            ;
        }
    }
}

/// The point `d` millimeters along `s`, measured from vertex `i`; clamps to
/// the last vertex when `d` runs past the end.
pub open spec fn point_at_from(s: Seq<Pt>, i: int, d: int) -> Pt
    decreases s.len() - i,
{
    if i >= s.len() - 1 {
        s[s.len() - 1]
    } else {
        let l = seg_len(s[i], s[i + 1]);
        if d <= l {
            ratio_point(s[i], s[i + 1], d, l)
        } else {
            point_at_from(s, i + 1, d - l)
        }
    }
}

/// What trimming `d` millimeters off the front of `s` leaves, walking from
/// vertex `i`: the vertices inside the trimmed arc are replaced by the single
/// point exactly `d` along the chain.
pub open spec fn trim_from(s: Seq<Pt>, i: int, d: int) -> Seq<Pt>
    decreases s.len() - i,
{
    if i >= s.len() - 1 {
        s.subrange(s.len() - 1, s.len() as int)
    } else {
        let l = seg_len(s[i], s[i + 1]);
        if d < l {
            seq![ratio_point(s[i], s[i + 1], d, l)] + s.skip(i + 1)
        } else if d == l {
            s.skip(i + 1)
        } else {
            trim_from(s, i + 1, d - l)
        }
    }
}

/// The fractional point strictly inside a segment never reaches its far end.
pub proof fn lemma_ratio_point_ne_end(a: Pt, b: Pt, d: int, l: int)
    requires
        in_bounds(a, WORK_LIMIT as int),
        in_bounds(b, WORK_LIMIT as int),
        a != b,
        l == seg_len(a, b),
        0 <= d < l,
    ensures
        ratio_point(a, b, d, l) != b,
{
    lemma_seg_len_range(a, b);
    let adx = if b.x >= a.x {
        b.x - a.x
    } else {
        a.x - b.x
    };
    let ady = if b.y >= a.y {
        b.y - a.y
    } else {
        a.y - b.y
    };
    let d2 = dist2(a, b);
    lemma_sqrt_floor_bounds(d2 as nat);
    assert(adx <= l && ady <= l) by (nonlinear_arith)
        requires
            d2 == (b.x - a.x) * (b.x - a.x) + (b.y - a.y) * (b.y - a.y),
            d2 < (l + 1) * (l + 1),
            adx == if b.x >= a.x {
                b.x - a.x
            } else {
                a.x - b.x
            },
            ady == if b.y >= a.y {
                b.y - a.y
            } else {
                a.y - b.y
            },
            l >= 0,
    ;
    if adx > 0 {
        assert((adx * d) / l < adx) by (nonlinear_arith)
            requires
                0 <= d < l,
                0 < adx,
                0 < l,
        ;
    } else {
        assert(ady > 0);
        assert((ady * d) / l < ady) by (nonlinear_arith)
            requires
                0 <= d < l,
                0 < ady,
                0 < l,
        ;
    }
}

/// Positive remaining arc length means another segment follows.
pub proof fn lemma_length_from_pos(s: Seq<Pt>, i: int)
    requires
        seq_length_from(s, i) > 0,
    ensures
        i < s.len() - 1,
{
}

/// Trimming less than the remaining arc length keeps the chain well formed,
/// keeps every point inside any box that held the original (within the
/// working box), and never touches the far end.
pub proof fn lemma_trim_wf(s: Seq<Pt>, i: int, d: int, b2: int)
    requires
        chain_seq(s),
        bounded_seq(s, WORK_LIMIT as int),
        bounded_seq(s, b2),
        0 <= i,
        0 <= d < seq_length_from(s, i),
    ensures
        chain_seq(trim_from(s, i, d)),
        bounded_seq(trim_from(s, i, d), b2),
        trim_from(s, i, d).len() <= s.len() - i,
        trim_from(s, i, d).last() == s.last(),
    decreases s.len() - i,
{
    lemma_length_from_pos(s, i);
    let l = seg_len(s[i], s[i + 1]);
    lemma_seg_len_range(s[i], s[i + 1]);
    if d < l {
        let p = ratio_point(s[i], s[i + 1], d, l);
        lemma_ratio_point_ne_end(s[i], s[i + 1], d, l);
        crate::pt::lemma_ratio_point_in_box(s[i], s[i + 1], d, l);
        let r = seq![p] + s.skip(i + 1);
        assert(r.len() == s.len() - i);
        assert(forall|k: int| 0 <= k < r.len() - 1 ==> #[trigger] r[k] != r[k + 1]) by {
            assert(forall|k: int| 1 <= k < r.len() ==> r[k] == s[i + k]);
            assert(r[0] != r[1]);
        }
        assert(bounded_seq(r, b2)) by {
            assert(forall|k: int| 1 <= k < r.len() ==> r[k] == s[i + k]);
        }
        assert(r.last() == s.last());
    } else if d == l {
        let r = s.skip(i + 1);
        assert(seq_length_from(s, i + 1) > 0);
        lemma_length_from_pos(s, i + 1);
        assert(r.len() >= 2);
        assert(forall|k: int| 0 <= k < r.len() ==> r[k] == s[i + 1 + k]);
        assert(r.last() == s.last());
    } else {
        lemma_trim_wf(s, i + 1, d - l, b2);
    }
}

/// A bound on every point is also any looser bound.
pub proof fn lemma_bounded_widen(s: Seq<Pt>, b1: int, b2: int)
    requires
        bounded_seq(s, b1),
        b1 <= b2,
    ensures
        bounded_seq(s, b2),
{
    assert forall|i: int| 0 <= i < s.len() implies in_bounds(#[trigger] s[i], b2) by {
        assert(in_bounds(s[i], b1));
    }
}

/// Walking a chain backwards leaves it a chain, within the same bounds.
pub proof fn lemma_reverse_chain(s: Seq<Pt>, b: int)
    requires
        chain_seq(s),
        bounded_seq(s, b),
    ensures
        chain_seq(s.reverse()),
        bounded_seq(s.reverse(), b),
        s.reverse().len() == s.len(),
{
    let r = s.reverse();
    assert(forall|k: int| 0 <= k < r.len() ==> #[trigger] r[k] == s[s.len() - 1 - k]);
    assert forall|k: int| 0 <= k < r.len() - 1 implies #[trigger] r[k] != r[k + 1] by {
        assert(s[s.len() - 2 - k] != s[s.len() - 2 - k + 1]);
    }
    assert forall|k: int| 0 <= k < r.len() implies in_bounds(#[trigger] r[k], b) by {
        assert(in_bounds(s[s.len() - 1 - k], b));
    }
}

/// Trimming nothing changes nothing: the trim of an already-trimmed chain by
/// the distance already removed is the chain itself. This is what makes one
/// committed trim per road end final.
pub proof fn lemma_trim_zero(s: Seq<Pt>)
    requires
        chain_seq(s),
        bounded_seq(s, WORK_LIMIT as int),
    ensures
        trim_from(s, 0, 0) == s,
{
    lemma_seg_len_range(s[0], s[1]);
    let l = seg_len(s[0], s[1]);
    let p = ratio_point(s[0], s[1], 0, l);
    assert((if s[1].x >= s[0].x {
        s[1].x - s[0].x
    } else {
        s[0].x - s[1].x
    }) * 0 == 0 && (if s[1].y >= s[0].y {
        s[1].y - s[0].y
    } else {
        s[0].y - s[1].y
    }) * 0 == 0) by (nonlinear_arith);
    assert(0int / l == 0) by (nonlinear_arith)
        requires
            l >= 1,
    ;
    assert(p == s[0]);
    assert(trim_from(s, 0, 0) =~= s);
}

/// Absolute value of a coordinate difference.
pub open spec fn abs_val(v: int) -> int {
    if v >= 0 {
        v
    } else {
        -v
    }
}

/// Neither coordinate difference of a segment exceeds its rounded length.
pub proof fn lemma_comp_le_len(a: Pt, b: Pt)
    requires
        in_bounds(a, WORK_LIMIT as int),
        in_bounds(b, WORK_LIMIT as int),
    ensures
        abs_val(b.x - a.x) <= seg_len(a, b),
        abs_val(b.y - a.y) <= seg_len(a, b),
{
    let d2 = dist2(a, b);
    crate::pt::lemma_dist2_bound(a, b);
    lemma_sqrt_floor_bounds(d2 as nat);
    let l = seg_len(a, b);
    assert(abs_val(b.x - a.x) <= l && abs_val(b.y - a.y) <= l) by (nonlinear_arith)
        requires
            d2 == (b.x - a.x) * (b.x - a.x) + (b.y - a.y) * (b.y - a.y),
            d2 < (l + 1) * (l + 1),
            l >= 0,
            abs_val(b.x - a.x) == if b.x - a.x >= 0 {
                b.x - a.x
            } else {
                -(b.x - a.x)
            },
            abs_val(b.y - a.y) == if b.y - a.y >= 0 {
                b.y - a.y
            } else {
                -(b.y - a.y)
            },
    ;
}

/// The perpendicular offset, `w` millimeters to the left or right of the
/// segment `a -> b`, each component rounded toward zero.
pub open spec fn offset_vec(a: Pt, b: Pt, w: int, left: bool) -> (int, int) {
    let l = seg_len(a, b);
    let mx = (abs_val(b.y - a.y) * w) / l;
    let my = (abs_val(b.x - a.x) * w) / l;
    let ox = if left == (b.y - a.y >= 0) {
        -mx
    } else {
        mx
    };
    let oy = if left == (b.x - a.x >= 0) {
        my
    } else {
        -my
    };
    (ox, oy)
}

/// `p` displaced by the vector `(ox, oy)`.
pub open spec fn shift_pt(p: Pt, ox: int, oy: int) -> Pt {
    Pt { x: (p.x + ox) as i64, y: (p.y + oy) as i64 }
}

/// The boundary curve `w` millimeters beside the first `i` segments of `s`:
/// each segment displaced sideways, consecutive duplicate joints dropped.
pub open spec fn offset_prefix(s: Seq<Pt>, w: int, left: bool, i: int) -> Seq<Pt>
    decreases i,
{
    if i <= 0 {
        Seq::empty()
    } else if i == 1 {
        let o = offset_vec(s[0], s[1], w, left);
        seq![shift_pt(s[0], o.0, o.1), shift_pt(s[1], o.0, o.1)]
    } else {
        let prev = offset_prefix(s, w, left, i - 1);
        let o = offset_vec(s[i - 1], s[i], w, left);
        let pa = shift_pt(s[i - 1], o.0, o.1);
        let pb = shift_pt(s[i], o.0, o.1);
        if prev.last() == pa {
            prev.push(pb)
        } else {
            prev.push(pa).push(pb)
        }
    }
}

/// The whole boundary curve beside `s`.
pub open spec fn offset_seq(s: Seq<Pt>, w: int, left: bool) -> Seq<Pt> {
    offset_prefix(s, w, left, s.len() - 1)
}

/// The offset vector never exceeds `w` in either component.
pub proof fn lemma_offset_vec_bound(a: Pt, b: Pt, w: int, left: bool)
    requires
        in_bounds(a, WORK_LIMIT as int),
        in_bounds(b, WORK_LIMIT as int),
        a != b,
        1 <= w,
    ensures
        abs_val(offset_vec(a, b, w, left).0) <= w,
        abs_val(offset_vec(a, b, w, left).1) <= w,
{
    lemma_comp_le_len(a, b);
    lemma_seg_len_range(a, b);
    let l = seg_len(a, b);
    lemma_mul_div_le_scaled(abs_val(b.y - a.y), w, l);
    lemma_mul_div_le_scaled(abs_val(b.x - a.x), w, l);
}

/// Scaling `w` by a fraction `num / den <= 1` cannot exceed `w`.
pub proof fn lemma_mul_div_le_scaled(num: int, w: int, den: int)
    requires
        0 <= num <= den,
        0 < den,
        0 <= w,
    ensures
        0 <= (num * w) / den <= w,
{
    assert(0 <= (num * w) / den <= w) by (nonlinear_arith)
        requires
            0 <= num <= den,
            0 < den,
            0 <= w,
    ;
}

/// The boundary curve of a well-formed chain is itself a well-formed chain,
/// stays within the widened box, begins beside the chain's first point, and
/// has at most two points per segment.
pub proof fn lemma_offset_wf(s: Seq<Pt>, w: int, left: bool, i: int, b: int)
    requires
        chain_seq(s),
        bounded_seq(s, b),
        0 <= b,
        1 <= w,
        b + w <= WORK_LIMIT as int,
        1 <= i < s.len(),
    ensures
        ({
            let r = offset_prefix(s, w, left, i);
            &&& 2 <= r.len() <= 2 * i
            &&& bounded_seq(r, b + w)
            &&& forall|k: int| 0 <= k < r.len() - 1 ==> #[trigger] r[k] != r[k + 1]
            &&& r[0] == shift_pt(s[0], offset_vec(s[0], s[1], w, left).0, offset_vec(s[0], s[1], w, left).1)
            &&& r.last() == shift_pt(s[i], offset_vec(s[i - 1], s[i], w, left).0, offset_vec(s[i - 1], s[i], w, left).1)
        }),
    decreases i,
{
    assert(bounded_seq(s, WORK_LIMIT as int)) by {
        assert(forall|k: int| 0 <= k < s.len() ==> in_bounds(#[trigger] s[k], b) ==> in_bounds(
            s[k],
            WORK_LIMIT as int,
        ));
    }
    if i == 1 {
        let o = offset_vec(s[0], s[1], w, left);
        lemma_offset_vec_bound(s[0], s[1], w, left);
        assert(shift_pt(s[0], o.0, o.1) != shift_pt(s[1], o.0, o.1));
    } else {
        lemma_offset_wf(s, w, left, i - 1, b);
        let o = offset_vec(s[i - 1], s[i], w, left);
        lemma_offset_vec_bound(s[i - 1], s[i], w, left);
        assert(shift_pt(s[i - 1], o.0, o.1) != shift_pt(s[i], o.0, o.1));
    }
}

/// Exact evaluation of `offset_vec`.
pub fn offset_vec_of(a: &Pt, b: &Pt, w: i64, left: bool) -> (r: (i64, i64))
    requires
        in_bounds(*a, WORK_LIMIT as int),
        in_bounds(*b, WORK_LIMIT as int),
        *a != *b,
        1 <= w <= COORD_LIMIT,
    ensures
        r.0 == offset_vec(*a, *b, w as int, left).0,
        r.1 == offset_vec(*a, *b, w as int, left).1,
        abs_val(r.0 as int) <= w,
        abs_val(r.1 as int) <= w,
{
    let l = seg_len_of(a, b);
    let adx: u128 = if b.x >= a.x {
        (b.x - a.x) as u128
    } else {
        (a.x - b.x) as u128
    };
    let ady: u128 = if b.y >= a.y {
        (b.y - a.y) as u128
    } else {
        (a.y - b.y) as u128
    };
    proof {
        lemma_comp_le_len(*a, *b);
        lemma_seg_len_range(*a, *b);
        assert(ady * (w as u128) <= 900_000_000u128 * 100_000_000u128 && adx * (w as u128)
            <= 900_000_000u128 * 100_000_000u128) by (nonlinear_arith)
            requires
                0 <= adx <= 900_000_000u128,
                0 <= ady <= 900_000_000u128,
                0 <= w as u128 <= 100_000_000u128,
        ;
        lemma_mul_div_le_scaled(adx as int, w as int, l as int);
        lemma_mul_div_le_scaled(ady as int, w as int, l as int);
    }
    let mx = ((ady * w as u128) / l as u128) as i64;
    let my = ((adx * w as u128) / l as u128) as i64;
    let ox = if left == (b.y >= a.y) {
        -mx
    } else {
        mx
    };
    let oy = if left == (b.x >= a.x) {
        my
    } else {
        -my
    };
    (ox, oy)
}

/// A polyline: the working form of a road center-line or boundary curve.
#[derive(Clone, PartialEq, Eq, Debug)]
pub struct PolyLine {
    pub pts: Vec<Pt>,
}

impl PolyLine {
    /// The mathematical view: the point sequence.
    pub open spec fn view(&self) -> Seq<Pt> {
        self.pts@
    }

    /// Well-formed within coordinate bound `b`.
    pub open spec fn wf_within(&self, b: int) -> bool {
        chain_seq(self.pts@) && bounded_seq(self.pts@, b)
    }

    /// Well-formed as an input center-line.
    pub open spec fn wf(&self) -> bool {
        self.wf_within(COORD_LIMIT as int)
    }

    /// Total arc length; positive for every well-formed polyline.
    pub fn length(&self) -> (r: i64)
        requires
            self.wf_within(WORK_LIMIT as int),
        ensures
            r == seq_length(self@),
            self@.len() - 1 <= r <= (self@.len() - 1) * 900_000_000,
    {
        let ghost s = self.pts@;
        let n = self.pts.len();
        let mut acc: i64 = 0;
        let mut i: usize = 0;
        proof {
            lemma_length_from_bounds(s, 0);
        }
        while i < n - 1
            invariant
                chain_seq(s),
                bounded_seq(s, WORK_LIMIT as int),
                s == self.pts@,
                n == s.len(),
                0 <= i <= n - 1,
                acc + seq_length_from(s, i as int) == seq_length(s),
                i <= acc <= i * 900_000_000,
            decreases n - 1 - i,
        {
            proof {
                lemma_length_from_bounds(s, i as int);
                lemma_length_from_bounds(s, i + 1);
                lemma_seg_len_range(s[i as int], s[i + 1]);
                assert(i * 900_000_000 + 900_000_000 == (i + 1) * 900_000_000) by (nonlinear_arith);
            }
            let l = seg_len_of(&self.pts[i], &self.pts[i + 1]);
            acc = acc + l;
            i = i + 1;
        }
        acc
    }

    /// The point `d` millimeters along the polyline from its first vertex.
    pub fn point_at(&self, d: i64) -> (r: Pt)
        requires
            self.wf_within(WORK_LIMIT as int),
            0 <= d,
        ensures
            r == point_at_from(self@, 0, d as int),
            in_bounds(r, WORK_LIMIT as int),
    {
        let ghost s = self.pts@;
        let n = self.pts.len();
        let mut i: usize = 0;
        let mut rem: i64 = d;
        while i < n - 1
            invariant
                chain_seq(s),
                bounded_seq(s, WORK_LIMIT as int),
                s == self.pts@,
                n == s.len(),
                0 <= i <= n - 1,
                0 <= rem,
                point_at_from(s, i as int, rem as int) == point_at_from(s, 0, d as int),
            decreases n - 1 - i,
        {
            let l = seg_len_of(&self.pts[i], &self.pts[i + 1]);
            if rem <= l {
                let r = ratio_point_of(&self.pts[i], &self.pts[i + 1], rem, l);
                return r;
            }
            rem = rem - l;
            i = i + 1;
        }
        self.pts[n - 1]
    }

    /// Remove the first `d` millimeters of arc: the result starts at the
    /// point exactly `d` along this polyline and keeps every later vertex,
    /// so the far end is untouched.
    #[verifier::loop_isolation(false)]
    pub fn trim_front(&self, d: i64) -> (r: PolyLine)
        requires
            self.wf_within(WORK_LIMIT as int),
            0 <= d < seq_length(self@),
        ensures
            r@ == trim_from(self@, 0, d as int),
            r.wf_within(WORK_LIMIT as int),
            r@.len() <= self@.len(),
            r@.last() == self@.last(),
            forall|b2: int| #[trigger] bounded_seq(self@, b2) ==> bounded_seq(r@, b2),
    {
        proof {
            lemma_trim_wf(self.pts@, 0, d as int, WORK_LIMIT as int);
            assert forall|b2: int| #[trigger] bounded_seq(self.pts@, b2) implies bounded_seq(
                trim_from(self.pts@, 0, d as int),
                b2,
            ) by {
                lemma_trim_wf(self.pts@, 0, d as int, b2);
            }
        }
        let ghost s = self.pts@;
        let n = self.pts.len();
        let mut i: usize = 0;
        let mut rem: i64 = d;
        while i < n - 1
            invariant
                chain_seq(s),
                bounded_seq(s, WORK_LIMIT as int),
                s == self.pts@,
                n == s.len(),
                0 <= i <= n - 1,
                0 <= rem < seq_length_from(s, i as int),
                trim_from(s, i as int, rem as int) == trim_from(s, 0, d as int),
            decreases n - 1 - i,
        {
            let l = seg_len_of(&self.pts[i], &self.pts[i + 1]);
            proof {
                lemma_seg_len_range(s[i as int], s[i + 1]);
            }
            if rem < l {
                let p = ratio_point_of(&self.pts[i], &self.pts[i + 1], rem, l);
                let mut v: Vec<Pt> = Vec::new();
                v.push(p);
                let mut j: usize = i + 1;
                while j < n
                    invariant
                        s == self.pts@,
                        n == s.len(),
                        i + 1 <= j <= n,
                        i + 1 <= n,
                        v@ == seq![p] + s.subrange(i + 1, j as int),
                    decreases n - j,
                {
                    v.push(self.pts[j]);
                    proof {
                        assert(v@ =~= seq![p] + s.subrange(i + 1, j + 1));
                    }
                    j = j + 1;
                }
                proof {
                    assert(v@ =~= seq![p] + s.skip(i + 1));
                }
                return PolyLine { pts: v };
            } else if rem == l {
                let mut v: Vec<Pt> = Vec::new();
                let mut j: usize = i + 1;
                while j < n
                    invariant
                        s == self.pts@,
                        n == s.len(),
                        i + 1 <= j <= n,
                        i + 1 <= n,
                        v@ == s.subrange(i + 1, j as int),
                    decreases n - j,
                {
                    v.push(self.pts[j]);
                    proof {
                        assert(v@ =~= s.subrange(i + 1, j + 1));
                    }
                    j = j + 1;
                }
                proof {
                    assert(v@ =~= s.skip(i + 1));
                }
                return PolyLine { pts: v };
            }
            rem = rem - l;
            i = i + 1;
        }
        proof {
            assert(false);
        }
        PolyLine { pts: Vec::new() }
    }

    /// The boundary curve `w` millimeters to the left or right of this
    /// polyline: every segment displaced along its perpendicular, with
    /// duplicate joint points dropped (a bevel joint at each bend).
    #[verifier::loop_isolation(false)]
    pub fn shifted(&self, w: i64, left: bool) -> (r: PolyLine)
        requires
            self.wf(),
            self@.len() <= 125_000,
            1 <= w <= COORD_LIMIT,
        ensures
            r@ == offset_seq(self@, w as int, left),
            r.wf_within(COORD_LIMIT as int + w as int),
            2 <= r@.len() <= 2 * (self@.len() - 1),
            r@[0] == shift_pt(
                self@[0],
                offset_vec(self@[0], self@[1], w as int, left).0,
                offset_vec(self@[0], self@[1], w as int, left).1,
            ),
    {
        let ghost s = self.pts@;
        let n = self.pts.len();
        proof {
            lemma_offset_wf(s, w as int, left, n - 1, COORD_LIMIT as int);
        }
        let mut v: Vec<Pt> = Vec::new();
        let mut i: usize = 0;
        while i < n - 1
            invariant
                0 <= i <= n - 1,
                v@ == offset_prefix(s, w as int, left, i as int),
            decreases n - 1 - i,
        {
            proof {
                lemma_seg_len_range(s[i as int], s[i + 1]);
                lemma_offset_vec_bound(s[i as int], s[i + 1], w as int, left);
                if i > 0 {
                    lemma_offset_wf(s, w as int, left, i as int, COORD_LIMIT as int);
                }
            }
            let (ox, oy) = offset_vec_of(&self.pts[i], &self.pts[i + 1], w, left);
            let pa = Pt { x: self.pts[i].x + ox, y: self.pts[i].y + oy };
            let pb = Pt { x: self.pts[i + 1].x + ox, y: self.pts[i + 1].y + oy };
            if i == 0 {
                v.push(pa);
                v.push(pb);
                proof {
                    assert(v@ =~= offset_prefix(s, w as int, left, 1));
                }
            } else {
                let last = v[v.len() - 1];
                if last.x == pa.x && last.y == pa.y {
                    v.push(pb);
                } else {
                    v.push(pa);
                    v.push(pb);
                }
                proof {
                    assert(v@ =~= offset_prefix(s, w as int, left, i + 1));
                }
            }
            i = i + 1;
        }
        PolyLine { pts: v }
    }

    /// The same polyline walked in the opposite direction.
    pub fn reversed(&self) -> (r: PolyLine)
        requires
            self.wf_within(WORK_LIMIT as int),
        ensures
            r@ == self@.reverse(),
            r@.len() == self@.len(),
            r.wf_within(WORK_LIMIT as int),
            forall|b2: int| #[trigger] bounded_seq(self@, b2) ==> bounded_seq(r@, b2),
    {
        let ghost s = self.pts@;
        let n = self.pts.len();
        let mut v: Vec<Pt> = Vec::new();
        let mut j: usize = 0;
        while j < n
            invariant
                s == self.pts@,
                n == s.len(),
                0 <= j <= n,
                v@.len() == j,
                forall|k: int| 0 <= k < j ==> v@[k] == s[n - 1 - k],
            decreases n - j,
        {
            v.push(self.pts[n - 1 - j]);
            j = j + 1;
        }
        proof {
            assert(v@ =~= s.reverse());
            assert(forall|k: int| 0 <= k < n - 1 ==> #[trigger] v@[k] != v@[k + 1]) by {
                assert(forall|k: int| 0 <= k < n - 1 ==> #[trigger] v@[k] == s[n - 1 - k] && v@[k
                    + 1] == s[n - 2 - k]);
            }
            assert forall|b2: int| #[trigger] bounded_seq(s, b2) implies bounded_seq(v@, b2) by {
                assert(forall|k: int| 0 <= k < n ==> v@[k] == s[n - 1 - k]);
            }
        }
        PolyLine { pts: v }
    }
}

} // verus!
