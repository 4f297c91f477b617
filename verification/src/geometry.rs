//! The intersection-geometry pipeline: from untrimmed road center-lines that
//! meet at one node to a simple closed intersection polygon and trimmed
//! center-lines, so that adjacent road geometry no longer overlaps at the
//! node.

use vstd::prelude::*;
use vstd::string::StringExecFns;
use crate::polyline::{
    bounded_seq, chain_seq, seq_length, trim_from, PolyLine,
};
use crate::pt::{in_bounds, Pt, COORD_LIMIT};
use crate::ring::Polygon;

verus! {

/// Added to every crossing-derived trim so that whole-millimeter rounding
/// of crossing points and arc positions cannot leave two boundary curves
/// still touching just past the cut.
pub const ROUNDING_GUARD: i64 = 4;

/// How much of a road a trim may consume at one end, beyond what the
/// geometry asks for: never more than nine tenths of its length, and never
/// more than a fixed guard length. The guard is a tunable safety threshold,
/// not a geometric constant, so the pipeline takes it as a parameter; this
/// is the default, 25 meters.
pub const DEFAULT_TRIM_CAP: i64 = 25_000;

/// Identifies a directed road segment between two intersection nodes: the
/// originating way and the two endpoint node identifiers.
#[derive(Clone, Copy, PartialEq, Eq, Structural, Debug, Hash)]
pub struct OriginalRoad {
    pub osm_way_id: i64,
    pub i1: i64,
    pub i2: i64,
}

impl OriginalRoad {
    /// Lexicographic order on (way, first node, second node).
    pub open spec fn lt_spec(self, o: OriginalRoad) -> bool {
        self.osm_way_id < o.osm_way_id || (self.osm_way_id == o.osm_way_id && (self.i1 < o.i1 || (
        self.i1 == o.i1 && self.i2 < o.i2)))
    }

    /// Exact evaluation of `lt_spec`.
    pub fn lt(&self, o: &OriginalRoad) -> (r: bool)
        ensures
            r == self.lt_spec(*o),
    {
        self.osm_way_id < o.osm_way_id || (self.osm_way_id == o.osm_way_id && (self.i1 < o.i1 || (
        self.i1 == o.i1 && self.i2 < o.i2)))
    }
}

/// A road as handed to the algorithm: an untrimmed center-line, oriented
/// from node `id.i1` to node `id.i2`, and a half-width, all in millimeters.
#[derive(Clone, PartialEq, Eq, Debug)]
pub struct InputRoad {
    pub id: OriginalRoad,
    pub center_pts: PolyLine,
    pub half_width: i64,
}

impl InputRoad {
    /// Structurally usable: a well-formed center-line of bounded size and a
    /// positive half-width within the coordinate budget.
    pub open spec fn wf(&self) -> bool {
        &&& self.center_pts.wf()
        &&& self.center_pts@.len() <= 100_000
        &&& 1 <= self.half_width <= COORD_LIMIT
    }
}

/// What one intersection's computation returns: the node, its polygon, the
/// center-lines trimmed at this node (one per input road, sorted ascending
/// by road identifier), and named diagnostic polygons.
#[derive(Clone, Debug)]
pub struct Results {
    pub intersection_id: i64,
    pub intersection_polygon: Polygon,
    pub trimmed_center_pts: Vec<(OriginalRoad, PolyLine)>,
    pub debug: Vec<(String, Polygon)>,
}

/// Structural failures. Geometric difficulties never surface here: they are
/// absorbed by documented fallbacks.
#[derive(Clone, Copy, PartialEq, Eq, Structural, Debug)]
pub enum Error {
    /// A road is unusable: degenerate center-line, non-positive or oversized
    /// half-width, not incident to the node, a loop onto the node, or the
    /// same identifier given twice.
    DegenerateInput { road: OriginalRoad },
    /// No roads were given for the node.
    EmptyIntersection { intersection_id: i64 },
}

/// The center-line of `r`, walked so that the shared node comes first.
pub open spec fn node_first_seq(r: InputRoad, node: int) -> Seq<Pt> {
    if r.id.i1 == node {
        r.center_pts@
    } else {
        r.center_pts@.reverse()
    }
}

/// The most that may be trimmed off `r` at this node: nine tenths of its
/// length or the configured guard, whichever is shorter.
pub open spec fn trim_cap(r: InputRoad, node: int, cap_cfg: int) -> int {
    let len = seq_length(node_first_seq(r, node));
    if len * 9 / 10 <= cap_cfg {
        len * 9 / 10
    } else {
        cap_cfg
    }
}

/// `r`'s center-line with exactly `d` of arc removed at its node end, given
/// back in the road's own orientation.
pub open spec fn oriented_trim(r: InputRoad, node: int, d: int) -> Seq<Pt> {
    if r.id.i1 == node {
        trim_from(r.center_pts@, 0, d)
    } else {
        trim_from(r.center_pts@.reverse(), 0, d).reverse()
    }
}

/// After trimming `a` by `da` and `b` by `db` at the node, the left
/// boundary curve of `a` has no proper crossing with the right boundary
/// curve of `b`: the two roadbeds no longer overlap across that seam.
pub open spec fn pair_clear(a: InputRoad, b: InputRoad, node: int, da: int, db: int) -> bool {
    !crate::finder::any_proper_cross(
        crate::polyline::offset_seq(
            trim_from(node_first_seq(a, node), 0, da),
            a.half_width as int,
            true,
        ),
        crate::polyline::offset_seq(
            trim_from(node_first_seq(b, node), 0, db),
            b.half_width as int,
            false,
        ),
    )
}

/// Every ordered pair of distinct roads is clear after its trims, except
/// where both roads of a pair have already given up their whole caps (the
/// fallback for geometry that trimming cannot disentangle).
pub open spec fn trims_clear(node: int, cap_cfg: int, inputs: Seq<InputRoad>, ds: Seq<int>) -> bool {
    forall|j1: int, j2: int|
        0 <= j1 < inputs.len() && 0 <= j2 < inputs.len() && j1 != j2 ==> #[trigger] pair_clear(
            inputs[j1],
            inputs[j2],
            node,
            ds[j1],
            ds[j2],
        ) || (ds[j1] == trim_cap(inputs[j1], node, cap_cfg) && ds[j2] == trim_cap(
            inputs[j2],
            node,
            cap_cfg,
        ))
}

/// The output rows before sorting: one per input road, in input order,
/// as identifier and trimmed center-line.
pub open spec fn spec_rows(inputs: Seq<InputRoad>, node: int, ds: Seq<int>) -> Seq<(
    OriginalRoad,
    Seq<Pt>,
)> {
    Seq::new(inputs.len(), |j: int| (inputs[j].id, oriented_trim(inputs[j], node, ds[j])))
}

/// The mathematical view of output rows: identifier and point sequence.
pub open spec fn row_views(out: Seq<(OriginalRoad, PolyLine)>) -> Seq<(OriginalRoad, Seq<Pt>)> {
    out.map_values(|r: (OriginalRoad, PolyLine)| (r.0, r.1@))
}

/// Insert a row into a sequence sorted ascending by identifier: before the
/// first row whose identifier is not smaller.
pub open spec fn sorted_insert_row(s: Seq<(OriginalRoad, Seq<Pt>)>, x: (OriginalRoad, Seq<Pt>)) -> Seq<(OriginalRoad, Seq<Pt>)>
    decreases s.len(),
{
    if s.len() == 0 {
        seq![x]
    } else if !s[0].0.lt_spec(x.0) {
        seq![x] + s
    } else {
        seq![s[0]] + sorted_insert_row(s.skip(1), x)
    }
}

/// The rows sorted ascending by identifier, by insertion in order.
pub open spec fn sort_rows_spec(s: Seq<(OriginalRoad, Seq<Pt>)>) -> Seq<(OriginalRoad, Seq<Pt>)>
    decreases s.len(),
{
    if s.len() == 0 {
        Seq::empty()
    } else {
        sorted_insert_row(sort_rows_spec(s.drop_last()), s.last())
    }
}

/// The trims `ds` explain the output rows: each within its cap, every pair
/// of roads clear (or both at cap), and the rows exactly the per-road
/// trimmed center-lines, sorted ascending by identifier.
pub open spec fn trimmed_with(
    node: int,
    cap_cfg: int,
    inputs: Seq<InputRoad>,
    out: Seq<(OriginalRoad, PolyLine)>,
    ds: Seq<int>,
) -> bool {
    &&& ds.len() == inputs.len()
    &&& forall|j: int|
        0 <= j < inputs.len() ==> 0 <= #[trigger] ds[j] <= trim_cap(inputs[j], node, cap_cfg)
    &&& trims_clear(node, cap_cfg, inputs, ds)
    &&& row_views(out) == sort_rows_spec(spec_rows(inputs, node, ds))
}

/// One road is structurally valid at the node: usable in itself, incident to
/// the node with exactly one end.
pub open spec fn road_valid_at(r: InputRoad, node: int) -> bool {
    r.wf() && (r.id.i1 == node || r.id.i2 == node) && !(r.id.i1 == node && r.id.i2 == node)
}

/// The whole input set is usable: non-empty, bounded, every road valid, no
/// identifier repeated.
pub open spec fn inputs_ok(node: int, roads: Seq<InputRoad>) -> bool {
    &&& 1 <= roads.len() <= 10_000
    &&& forall|j: int| 0 <= j < roads.len() ==> road_valid_at(#[trigger] roads[j], node)
    &&& forall|j1: int, j2: int|
        #![trigger roads[j1].id, roads[j2].id]
        0 <= j1 < j2 < roads.len() ==> roads[j1].id != roads[j2].id
}

/// The trimmed output rows correspond to the inputs one for one: sorted
/// ascending by identifier, each row the matching road's center-line with
/// a capped trim at its node end, and the trims jointly leaving every pair
/// of roads clear of each other (or both at cap).
pub open spec fn trimmed_ok(
    node: int,
    cap_cfg: int,
    inputs: Seq<InputRoad>,
    out: Seq<(OriginalRoad, PolyLine)>,
) -> bool {
    &&& out.len() == inputs.len()
    &&& forall|k: int|
        0 <= k < out.len() ==> (#[trigger] out[k]).1.wf() && out[k].1@.len() <= 100_000
    &&& exists|ds: Seq<int>| #[trigger] trimmed_with(node, cap_cfg, inputs, out, ds)
}

/// Exact check that a road is usable in itself.
pub fn check_road_wf(r: &InputRoad) -> (ok: bool)
    ensures
        ok == r.wf(),
{
    if !(r.half_width >= 1 && r.half_width <= COORD_LIMIT) {
        return false;
    }
    let n = r.center_pts.pts.len();
    if n < 2 || n > 100_000 {
        return false;
    }
    if !crate::ring::all_in_bounds(&r.center_pts.pts, COORD_LIMIT) {
        return false;
    }
    let mut i: usize = 0;
    while i < n - 1
        invariant
            0 <= i <= n - 1,
            n == r.center_pts@.len(),
            forall|k: int| 0 <= k < i ==> #[trigger] r.center_pts@[k] != r.center_pts@[k + 1],
        decreases n - 1 - i,
    {
        if r.center_pts.pts[i].x == r.center_pts.pts[i + 1].x && r.center_pts.pts[i].y
            == r.center_pts.pts[i + 1].y {
            return false;
        }
        i = i + 1;
    }
    true
}

/// Exact check of one road's structural validity at a node.
pub fn check_road(r: &InputRoad, node: i64) -> (ok: bool)
    ensures
        ok == road_valid_at(*r, node as int),
{
    if !((r.id.i1 == node || r.id.i2 == node) && !(r.id.i1 == node && r.id.i2 == node)) {
        return false;
    }
    check_road_wf(r)
}

/// The left and right boundary curves of a road: its center-line offset
/// sideways by the half-width, with bevel joints at each bend (a rounded
/// joint degenerated to its chord), so that the offset can never blow up on
/// a tight turn. Fails exactly on a structurally degenerate road.
pub fn boundary_curves(road: &InputRoad) -> (r: Result<(PolyLine, PolyLine), Error>)
    ensures
        r is Ok <==> road.wf(),
        r is Err ==> r == Result::<(PolyLine, PolyLine), Error>::Err(
            Error::DegenerateInput { road: road.id },
        ),
        r is Ok ==> (r->Ok_0).0@ == crate::polyline::offset_seq(
            road.center_pts@,
            road.half_width as int,
            true,
        ),
        r is Ok ==> (r->Ok_0).1@ == crate::polyline::offset_seq(
            road.center_pts@,
            road.half_width as int,
            false,
        ),
        r is Ok ==> (r->Ok_0).0.wf_within(COORD_LIMIT as int + road.half_width as int) && (
        r->Ok_0).1.wf_within(COORD_LIMIT as int + road.half_width as int),
{
    if !check_road_wf(road) {
        return Err(Error::DegenerateInput { road: road.id });
    }
    let left = road.center_pts.shifted(road.half_width, true);
    let right = road.center_pts.shifted(road.half_width, false);
    Ok((left, right))
}

/// Whether the facing boundary curves of two roads stay clear of each
/// other: the left boundary of `a` and the right boundary of `b` never
/// touch. After trimming, adjacent roads' facing boundaries are expected to
/// be clear; this is the exact decision of that property.
pub fn boundaries_clear(a: &PolyLine, wa: i64, b: &PolyLine, wb: i64) -> (r: bool)
    requires
        a.wf(),
        a@.len() <= 125_000,
        b.wf(),
        b@.len() <= 125_000,
        1 <= wa <= COORD_LIMIT,
        1 <= wb <= COORD_LIMIT,
    ensures
        r == (crate::finder::first_cross_from(
            crate::polyline::offset_seq(a@, wa as int, true),
            crate::polyline::offset_seq(b@, wb as int, false),
            0,
            0,
        ) is None),
{
    let la = a.shifted(wa, true);
    let rb = b.shifted(wb, false);
    proof {
        lemma_shift_widen(la, wa as int);
        lemma_shift_widen(rb, wb as int);
    }
    match crate::finder::first_crossing(&la, &rb) {
        None => true,
        Some(_) => false,
    }
}

/// Whether any boundary curve of one road properly crosses any boundary
/// curve of another: the no-overlap statement for a pair of trimmed roads.
/// Touching at a shared junction corner does not count; an interior
/// crossing does.
pub fn boundaries_overlap(a: &PolyLine, wa: i64, b: &PolyLine, wb: i64) -> (r: bool)
    requires
        a.wf(),
        a@.len() <= 125_000,
        b.wf(),
        b@.len() <= 125_000,
        1 <= wa <= COORD_LIMIT,
        1 <= wb <= COORD_LIMIT,
    ensures
        r == ({
            let la = crate::polyline::offset_seq(a@, wa as int, true);
            let ra = crate::polyline::offset_seq(a@, wa as int, false);
            let lb = crate::polyline::offset_seq(b@, wb as int, true);
            let rb = crate::polyline::offset_seq(b@, wb as int, false);
            crate::finder::any_proper_cross(la, lb) || crate::finder::any_proper_cross(la, rb)
                || crate::finder::any_proper_cross(ra, lb) || crate::finder::any_proper_cross(
                ra,
                rb,
            )
        }),
{
    let la = a.shifted(wa, true);
    let ra = a.shifted(wa, false);
    let lb = b.shifted(wb, true);
    let rb = b.shifted(wb, false);
    proof {
        lemma_shift_widen(la, wa as int);
        lemma_shift_widen(ra, wa as int);
        lemma_shift_widen(lb, wb as int);
        lemma_shift_widen(rb, wb as int);
    }
    crate::finder::any_proper_cross_of(&la, &lb) || crate::finder::any_proper_cross_of(&la, &rb)
        || crate::finder::any_proper_cross_of(&ra, &lb) || crate::finder::any_proper_cross_of(
        &ra,
        &rb,
    )
}

/// The index of the first road that is not structurally valid at the node.
pub open spec fn first_invalid_from(node: int, roads: Seq<InputRoad>, j: int) -> Option<int>
    decreases roads.len() - j,
{
    if j >= roads.len() {
        None
    } else if !road_valid_at(roads[j], node) {
        Some(j)
    } else {
        first_invalid_from(node, roads, j + 1)
    }
}

/// The first index after `j1` that repeats the identifier of road `j1`.
pub open spec fn first_dup_inner(roads: Seq<InputRoad>, j1: int, j2: int) -> Option<int>
    decreases roads.len() - j2,
{
    if j2 >= roads.len() {
        None
    } else if roads[j1].id == roads[j2].id {
        Some(j2)
    } else {
        first_dup_inner(roads, j1, j2 + 1)
    }
}

/// The first road, in scan order, whose identifier some later road repeats.
pub open spec fn first_dup_from(roads: Seq<InputRoad>, j1: int) -> Option<int>
    decreases roads.len() - j1,
{
    if j1 >= roads.len() {
        None
    } else if first_dup_inner(roads, j1, j1 + 1) is Some {
        Some(j1)
    } else {
        first_dup_from(roads, j1 + 1)
    }
}

/// The exact error an unusable input set is reported with: the empty set by
/// its node, an oversized set by its first road, otherwise the first
/// invalid road in input order, otherwise the earlier road of the first
/// repeated-identifier pair.
pub open spec fn input_error(node: i64, roads: Seq<InputRoad>) -> Error {
    if roads.len() == 0 {
        Error::EmptyIntersection { intersection_id: node }
    } else if roads.len() > 10_000 {
        Error::DegenerateInput { road: roads[0].id }
    } else if first_invalid_from(node as int, roads, 0) is Some {
        Error::DegenerateInput { road: roads[first_invalid_from(node as int, roads, 0)->0].id }
    } else {
        Error::DegenerateInput { road: roads[first_dup_from(roads, 0)->0].id }
    }
}

/// Exact check of the whole input set: accepts exactly the usable sets and
/// otherwise reports exactly `input_error`.
#[verifier::loop_isolation(false)]
pub fn check_inputs(node: i64, roads: &Vec<InputRoad>) -> (r: Result<(), Error>)
    ensures
        r is Ok <==> inputs_ok(node as int, roads@),
        r is Err ==> r == Result::<(), Error>::Err(input_error(node, roads@)),
{
    let n = roads.len();
    if n == 0 {
        return Err(Error::EmptyIntersection { intersection_id: node });
    }
    if n > 10_000 {
        return Err(Error::DegenerateInput { road: roads[0].id });
    }
    let mut j: usize = 0;
    while j < n
        invariant
            0 <= j <= n,
            forall|k: int| 0 <= k < j ==> road_valid_at(#[trigger] roads@[k], node as int),
            first_invalid_from(node as int, roads@, 0) == first_invalid_from(
                node as int,
                roads@,
                j as int,
            ),
        decreases n - j,
    {
        if !check_road(&roads[j], node) {
            return Err(Error::DegenerateInput { road: roads[j].id });
        }
        j = j + 1;
    }
    let mut j1: usize = 0;
    while j1 < n
        invariant
            0 <= j1 <= n,
            forall|a: int, b: int|
                #![trigger roads@[a].id, roads@[b].id]
                0 <= a < b < n && a < j1 ==> roads@[a].id != roads@[b].id,
            first_dup_from(roads@, 0) == first_dup_from(roads@, j1 as int),
        decreases n - j1,
    {
        let mut j2: usize = j1 + 1;
        while j2 < n
            invariant
                j1 < j2 <= n,
                forall|b: int| j1 < b < j2 ==> roads@[j1 as int].id != #[trigger] roads@[b].id,
                first_dup_inner(roads@, j1 as int, j1 + 1) == first_dup_inner(
                    roads@,
                    j1 as int,
                    j2 as int,
                ),
            decreases n - j2,
        {
            let a = roads[j1].id;
            let b = roads[j2].id;
            if a.osm_way_id == b.osm_way_id && a.i1 == b.i1 && a.i2 == b.i2 {
                return Err(Error::DegenerateInput { road: a });
            }
            j2 = j2 + 1;
        }
        j1 = j1 + 1;
    }
    Ok(())
}

/// An exact copy of a polyline.
fn clone_polyline(p: &PolyLine) -> (r: PolyLine)
    ensures
        r@ == p@,
{
    let n = p.pts.len();
    let mut v: Vec<Pt> = Vec::new();
    let mut i: usize = 0;
    while i < n
        invariant
            0 <= i <= n,
            n == p.pts@.len(),
            v@ == p.pts@.subrange(0, i as int),
        decreases n - i,
    {
        v.push(p.pts[i]);
        proof {
            assert(v@ =~= p.pts@.subrange(0, i + 1));
        }
        i = i + 1;
    }
    proof {
        assert(v@ =~= p.pts@);
    }
    PolyLine { pts: v }
}

/// The road's center-line with the shared node first.
fn orient_node_first(r: &InputRoad, node: i64) -> (nf: PolyLine)
    requires
        r.wf(),
        r.id.i1 == node || r.id.i2 == node,
    ensures
        nf@ == node_first_seq(*r, node as int),
        nf.wf(),
        nf@.len() == r.center_pts@.len(),
{
    proof {
        crate::polyline::lemma_bounded_widen(
            r.center_pts@,
            COORD_LIMIT as int,
            crate::pt::WORK_LIMIT as int,
        );
        crate::polyline::lemma_reverse_chain(r.center_pts@, COORD_LIMIT as int);
    }
    if r.id.i1 == node {
        clone_polyline(&r.center_pts)
    } else {
        r.center_pts.reversed()
    }
}

/// One road prepared for this node's computation.
pub struct WorkRoad {
    pub idx: usize,
    pub id: OriginalRoad,
    pub node_first: PolyLine,
    pub half_width: i64,
    pub cap: i64,
}

/// The prepared road corresponds to input `idx` and its cap is the real cap.
pub open spec fn work_ok(w: WorkRoad, node: int, cap_cfg: int, inputs: Seq<InputRoad>) -> bool {
    &&& w.idx < inputs.len()
    &&& w.id == inputs[w.idx as int].id
    &&& w.half_width == inputs[w.idx as int].half_width
    &&& 1 <= w.half_width <= COORD_LIMIT
    &&& w.node_first@ == node_first_seq(inputs[w.idx as int], node)
    &&& w.node_first.wf()
    &&& 2 <= w.node_first@.len() <= 100_000
    &&& w.cap == trim_cap(inputs[w.idx as int], node, cap_cfg)
    &&& 0 <= w.cap < seq_length(w.node_first@)
}

/// Prepare every road: orient it node-first and fix its trim cap.
#[verifier::loop_isolation(false)]
fn build_work(node: i64, cap_cfg: i64, roads: &Vec<InputRoad>) -> (r: Vec<WorkRoad>)
    requires
        inputs_ok(node as int, roads@),
        1 <= cap_cfg,
    ensures
        r@.len() == roads@.len(),
        forall|k: int|
            0 <= k < r@.len() ==> work_ok(#[trigger] r@[k], node as int, cap_cfg as int, roads@),
{
    let n = roads.len();
    let mut r: Vec<WorkRoad> = Vec::new();
    let mut j: usize = 0;
    while j < n
        invariant
            0 <= j <= n,
            r@.len() == j,
            forall|k: int|
                0 <= k < j ==> work_ok(#[trigger] r@[k], node as int, cap_cfg as int, roads@),
        decreases n - j,
    {
        let rd = &roads[j];
        let nf = orient_node_first(rd, node);
        proof {
            crate::polyline::lemma_bounded_widen(
                nf@,
                COORD_LIMIT as int,
                crate::pt::WORK_LIMIT as int,
            );
        }
        let len = nf.length();
        proof {
            assert((nf@.len() - 1) * 900_000_000 <= 99_999 * 900_000_000) by (nonlinear_arith)
                requires
                    nf@.len() <= 100_000,
            ;
        }
        let nine = (len * 9) / 10;
        let cap = if nine <= cap_cfg {
            nine
        } else {
            cap_cfg
        };
        proof {
            assert(len * 9 / 10 < len && len * 9 / 10 >= 0) by (nonlinear_arith)
                requires
                    len >= 1,
            ;
        }
        r.push(WorkRoad { idx: j, id: rd.id, node_first: nf, half_width: rd.half_width, cap });
        j = j + 1;
    }
    r
}

/// Counterclockwise order of two prepared roads around the node, by the
/// direction each leaves the node in; identifier order breaks exact ties so
/// that the order is total.
fn work_before(u: &WorkRoad, v: &WorkRoad) -> (r: bool)
    requires
        u.node_first.wf(),
        u.node_first@.len() >= 2,
        v.node_first.wf(),
        v.node_first@.len() >= 2,
{
    let ux = u.node_first.pts[1].x - u.node_first.pts[0].x;
    let uy = u.node_first.pts[1].y - u.node_first.pts[0].y;
    let vx = v.node_first.pts[1].x - v.node_first.pts[0].x;
    let vy = v.node_first.pts[1].y - v.node_first.pts[0].y;
    if crate::pt::dir_lt_of(ux, uy, vx, vy) {
        true
    } else if crate::pt::dir_lt_of(vx, vy, ux, uy) {
        false
    } else {
        u.id.lt(&v.id)
    }
}

/// Sort the prepared roads into counterclockwise order around the node
/// (selection sort; the cyclic order decides which boundary pairs face each
/// other).
#[verifier::loop_isolation(false)]
fn sort_work(v: Vec<WorkRoad>, Ghost(node): Ghost<int>, Ghost(cap_cfg): Ghost<int>, Ghost(inputs): Ghost<Seq<InputRoad>>) -> (r: Vec<WorkRoad>)
    requires
        forall|k: int| 0 <= k < v@.len() ==> work_ok(#[trigger] v@[k], node, cap_cfg, inputs),
    ensures
        r@.len() == v@.len(),
        forall|k: int| 0 <= k < r@.len() ==> work_ok(#[trigger] r@[k], node, cap_cfg, inputs),
{
    let mut src = v;
    let mut out: Vec<WorkRoad> = Vec::new();
    let ghost total = src@.len();
    while src.len() > 0
        invariant
            forall|k: int| 0 <= k < src@.len() ==> work_ok(#[trigger] src@[k], node, cap_cfg, inputs),
            forall|k: int| 0 <= k < out@.len() ==> work_ok(#[trigger] out@[k], node, cap_cfg, inputs),
            src@.len() + out@.len() == total,
        decreases src@.len(),
    {
        let mut best: usize = 0;
        let mut c: usize = 1;
        while c < src.len()
            invariant
                0 <= best < src@.len(),
                best < c <= src@.len() || (c <= src@.len() && best == 0),
                forall|k: int| 0 <= k < src@.len() ==> work_ok(#[trigger] src@[k], node, cap_cfg, inputs),
            decreases src@.len() - c,
        {
            if work_before(&src[c], &src[best]) {
                best = c;
            }
            c = c + 1;
        }
        let ghost before = src@;
        let item = src.remove(best);
        proof {
            assert(forall|k: int|
                0 <= k < src@.len() ==> #[trigger] src@[k] == (if k < best {
                    before[k]
                } else {
                    before[k + 1]
                }));
        }
        out.push(item);
    }
    out
}

/// Raise one road's pending trim to `cand`, clamped into `[0, cap]`; a trim
/// already larger stays.
fn raise_trim(trims: &mut Vec<i64>, idx: usize, cap: i64, cand: i64)
    requires
        idx < old(trims)@.len(),
        0 <= cap,
    ensures
        final(trims)@.len() == old(trims)@.len(),
        forall|j: int| 0 <= j < old(trims)@.len() && j != idx ==> final(trims)@[j] == old(trims)@[j],
        old(trims)@[idx as int] <= final(trims)@[idx as int],
        final(trims)@[idx as int] <= old(trims)@[idx as int] || final(trims)@[idx as int] <= cap,
{
    let c = if cand < 0 {
        0
    } else if cand > cap {
        cap
    } else {
        cand
    };
    if c > trims[idx] {
        trims.set(idx, c);
    }
}

/// The trim cap is non-negative and strictly below the road's length, so a
/// capped trim always leaves a usable center-line.
pub proof fn lemma_cap_range(r: InputRoad, node: int, cap_cfg: int)
    requires
        r.wf(),
        1 <= cap_cfg,
    ensures
        0 <= trim_cap(r, node, cap_cfg) < seq_length(node_first_seq(r, node)),
        seq_length(node_first_seq(r, node)) >= 1,
        chain_seq(node_first_seq(r, node)),
        bounded_seq(node_first_seq(r, node), COORD_LIMIT as int),
{
    let s = node_first_seq(r, node);
    if r.id.i1 == node {
    } else {
        crate::polyline::lemma_reverse_chain(r.center_pts@, COORD_LIMIT as int);
    }
    crate::polyline::lemma_bounded_widen(s, COORD_LIMIT as int, crate::pt::WORK_LIMIT as int);
    crate::polyline::lemma_length_from_bounds(s, 0);
    let len = seq_length(s);
    assert(0 <= len * 9 / 10 < len) by (nonlinear_arith)
        requires
            len >= 1,
    ;
}

/// The per-road trim distances at this node: for each cyclically adjacent
/// pair of roads, where the facing boundary curves first cross, projected
/// back onto each center-line; the cap itself when a pair is geometrically
/// inconclusive (a shared ray, or one road's end swallowed by the other's
/// band without a boundary crossing); and each road's own left-right
/// boundary crossing on a sharp turn. Each road takes the largest of its
/// candidates, floored at zero and clamped to its cap.
#[verifier::loop_isolation(false)]
fn compute_trims(sorted: &Vec<WorkRoad>, roads: &Vec<InputRoad>, node: i64, cap_cfg: i64) -> (trims:
    Vec<i64>)
    requires
        inputs_ok(node as int, roads@),
        1 <= cap_cfg,
        sorted@.len() == roads@.len(),
        forall|k: int|
            0 <= k < sorted@.len() ==> work_ok(#[trigger] sorted@[k], node as int, cap_cfg as int, roads@),
    ensures
        trims@.len() == roads@.len(),
        forall|j: int|
            0 <= j < trims@.len() ==> 0 <= #[trigger] trims@[j] <= trim_cap(
                roads@[j],
                node as int,
                cap_cfg as int,
            ),
{
    let n = roads.len();
    let mut trims: Vec<i64> = Vec::new();
    while trims.len() < n
        invariant
            trims@.len() <= n,
            forall|j: int|
                0 <= j < trims@.len() ==> 0 <= #[trigger] trims@[j] <= trim_cap(
                    roads@[j],
                    node as int,
                    cap_cfg as int,
                ),
        decreases n - trims@.len(),
    {
        proof {
            lemma_cap_range(roads@[trims@.len() as int], node as int, cap_cfg as int);
        }
        trims.push(0);
    }
    let m = sorted.len();
    let mut k: usize = 0;
    while k < m
        invariant
            0 <= k <= m,
            trims@.len() == roads@.len(),
            forall|j: int|
                0 <= j < trims@.len() ==> 0 <= #[trigger] trims@[j] <= trim_cap(
                    roads@[j],
                    node as int,
                    cap_cfg as int,
                ),
        decreases m - k,
    {
        let k2 = if k == m - 1 {
            0
        } else {
            k + 1
        };
        if k2 != k {
            let ux = sorted[k].node_first.pts[1].x - sorted[k].node_first.pts[0].x;
            let uy = sorted[k].node_first.pts[1].y - sorted[k].node_first.pts[0].y;
            let vx = sorted[k2].node_first.pts[1].x - sorted[k2].node_first.pts[0].x;
            let vy = sorted[k2].node_first.pts[1].y - sorted[k2].node_first.pts[0].y;
            if crate::pt::same_ray_of(ux, uy, vx, vy) {
                let cap_u = sorted[k].cap;
                let idx_u = sorted[k].idx;
                raise_trim(&mut trims, idx_u, cap_u, cap_u);
                let cap_v = sorted[k2].cap;
                let idx_v = sorted[k2].idx;
                raise_trim(&mut trims, idx_v, cap_v, cap_v);
            } else {
                proof {
                    lemma_work_widen(sorted@[k as int]);
                    lemma_work_widen(sorted@[k2 as int]);
                }
                let left_u = sorted[k].node_first.shifted(sorted[k].half_width, true);
                let right_v = sorted[k2].node_first.shifted(sorted[k2].half_width, false);
                proof {
                    lemma_shift_widen(left_u, sorted@[k as int].half_width as int);
                    lemma_shift_widen(right_v, sorted@[k2 as int].half_width as int);
                }
                match crate::finder::first_crossing(&left_u, &right_v) {
                    Some(x) => {
                        // trim a hair past the crossing so that millimeter
                        // rounding of the crossing point cannot leave the
                        // boundaries still touching across the cut
                        let cu = crate::finder::arc_project(&sorted[k].node_first, &x);
                        raise_trim(&mut trims, sorted[k].idx, sorted[k].cap, cu + ROUNDING_GUARD);
                        let cv = crate::finder::arc_project(&sorted[k2].node_first, &x);
                        raise_trim(&mut trims, sorted[k2].idx, sorted[k2].cap, cv + ROUNDING_GUARD);
                    },
                    None => {
                        // No finite crossing: when the point a road would at
                        // most be trimmed to still sits inside the other
                        // road's band, the pair is inconclusive (a much
                        // wider road swallowing a narrow one nearly head-on)
                        // and the swallowed road falls back to its cap.
                        let pu = sorted[k].node_first.point_at(sorted[k].cap);
                        if crate::finder::within_band_of(
                            &pu,
                            &sorted[k2].node_first,
                            sorted[k2].half_width,
                        ) {
                            raise_trim(&mut trims, sorted[k].idx, sorted[k].cap, sorted[k].cap);
                        }
                        let pv = sorted[k2].node_first.point_at(sorted[k2].cap);
                        if crate::finder::within_band_of(
                            &pv,
                            &sorted[k].node_first,
                            sorted[k].half_width,
                        ) {
                            raise_trim(&mut trims, sorted[k2].idx, sorted[k2].cap, sorted[k2].cap);
                        }
                    },
                }
            }
        }
        k = k + 1;
    }
    let mut k: usize = 0;
    while k < m
        invariant
            0 <= k <= m,
            trims@.len() == roads@.len(),
            forall|j: int|
                0 <= j < trims@.len() ==> 0 <= #[trigger] trims@[j] <= trim_cap(
                    roads@[j],
                    node as int,
                    cap_cfg as int,
                ),
        decreases m - k,
    {
        proof {
            lemma_work_widen(sorted@[k as int]);
        }
        let lu = sorted[k].node_first.shifted(sorted[k].half_width, true);
        let ru = sorted[k].node_first.shifted(sorted[k].half_width, false);
        proof {
            lemma_shift_widen(lu, sorted@[k as int].half_width as int);
            lemma_shift_widen(ru, sorted@[k as int].half_width as int);
        }
        if let Some(x) = crate::finder::first_crossing(&lu, &ru) {
            let c = crate::finder::arc_project(&sorted[k].node_first, &x);
            raise_trim(&mut trims, sorted[k].idx, sorted[k].cap, c + ROUNDING_GUARD);
        }
        k = k + 1;
    }
    trims
}

/// A prepared road's center-line also fits the working box.
proof fn lemma_work_widen(w: WorkRoad)
    requires
        w.node_first.wf(),
    ensures
        w.node_first.wf_within(crate::pt::WORK_LIMIT as int),
{
    crate::polyline::lemma_bounded_widen(
        w.node_first@,
        COORD_LIMIT as int,
        crate::pt::WORK_LIMIT as int,
    );
}

/// A boundary curve beside a road also fits the working box.
proof fn lemma_shift_widen(p: PolyLine, w: int)
    requires
        1 <= w <= COORD_LIMIT,
        p.wf_within(COORD_LIMIT as int + w),
    ensures
        p.wf_within(crate::pt::WORK_LIMIT as int),
{
    crate::polyline::lemma_bounded_widen(p@, COORD_LIMIT as int + w, crate::pt::WORK_LIMIT as int);
}

/// The trim cap of one road, computed from its node-first length.
fn road_cap(r: &InputRoad, node: i64, cap_cfg: i64) -> (c: i64)
    requires
        road_valid_at(*r, node as int),
        1 <= cap_cfg,
    ensures
        c == trim_cap(*r, node as int, cap_cfg as int),
        0 <= c,
{
    let nf = orient_node_first(r, node);
    proof {
        crate::polyline::lemma_bounded_widen(
            nf@,
            COORD_LIMIT as int,
            crate::pt::WORK_LIMIT as int,
        );
        lemma_cap_range(*r, node as int, cap_cfg as int);
    }
    let len = nf.length();
    proof {
        assert((nf@.len() - 1) * 900_000_000 <= 99_999 * 900_000_000) by (nonlinear_arith)
            requires
                nf@.len() <= 100_000,
        ;
    }
    let nine = (len * 9) / 10;
    if nine <= cap_cfg {
        nine
    } else {
        cap_cfg
    }
}

/// The trimming room still unused, summed over the roads from `j` on.
pub open spec fn slack_from(
    node: int,
    cap_cfg: int,
    roads: Seq<InputRoad>,
    ds: Seq<i64>,
    j: int,
) -> int
    decreases roads.len() - j,
{
    if j >= roads.len() {
        0
    } else {
        (trim_cap(roads[j], node, cap_cfg) - ds[j]) + slack_from(node, cap_cfg, roads, ds, j + 1)
    }
}

/// Unused trimming room is never negative while every trim sits in its cap.
proof fn lemma_slack_nonneg(node: int, cap_cfg: int, roads: Seq<InputRoad>, ds: Seq<i64>, j: int)
    requires
        forall|k: int|
            0 <= k < roads.len() ==> 0 <= #[trigger] ds[k] <= trim_cap(roads[k], node, cap_cfg),
        0 <= j,
    ensures
        slack_from(node, cap_cfg, roads, ds, j) >= 0,
    decreases roads.len() - j,
{
    if j < roads.len() {
        lemma_slack_nonneg(node, cap_cfg, roads, ds, j + 1);
    }
}

/// Raising one trim while lowering none strictly shrinks the unused room.
proof fn lemma_slack_decreases(
    node: int,
    cap_cfg: int,
    roads: Seq<InputRoad>,
    d1: Seq<i64>,
    d2: Seq<i64>,
    j: int,
    idx: int,
)
    requires
        forall|k: int| 0 <= k < roads.len() ==> #[trigger] d2[k] >= d1[k],
        j <= idx < roads.len(),
        d2[idx] > d1[idx],
        0 <= j,
    ensures
        slack_from(node, cap_cfg, roads, d2, j) < slack_from(node, cap_cfg, roads, d1, j),
    decreases roads.len() - j,
{
    if j < idx {
        lemma_slack_decreases(node, cap_cfg, roads, d1, d2, j + 1, idx);
    } else {
        lemma_slack_ge(node, cap_cfg, roads, d1, d2, j + 1);
    }
}

/// Raising trims never grows the unused room.
proof fn lemma_slack_ge(
    node: int,
    cap_cfg: int,
    roads: Seq<InputRoad>,
    d1: Seq<i64>,
    d2: Seq<i64>,
    j: int,
)
    requires
        forall|k: int| 0 <= k < roads.len() ==> #[trigger] d2[k] >= d1[k],
        0 <= j,
    ensures
        slack_from(node, cap_cfg, roads, d2, j) <= slack_from(node, cap_cfg, roads, d1, j),
    decreases roads.len() - j,
{
    if j < roads.len() {
        lemma_slack_ge(node, cap_cfg, roads, d1, d2, j + 1);
    }
}

/// Raise one uncapped trim a good step toward its cap.
fn bump_trim(trims: &mut Vec<i64>, idx: usize, cap: i64)
    requires
        idx < old(trims)@.len(),
        0 <= old(trims)@[idx as int] < cap,
        cap <= 1_000_000_000_000,
    ensures
        final(trims)@.len() == old(trims)@.len(),
        forall|j: int| 0 <= j < old(trims)@.len() && j != idx ==> final(trims)@[j] == old(trims)@[j],
        old(trims)@[idx as int] < final(trims)@[idx as int] <= cap,
{
    let step = 1 + cap / 8;
    let nv = if trims[idx] + step > cap {
        cap
    } else {
        trims[idx] + step
    };
    trims.set(idx, nv);
}

/// Decide whether the pair of roads `j1`, `j2` is clear under the current
/// trims: the left boundary of the first trimmed road never properly
/// crosses the right boundary of the second.
fn pair_clear_of(roads: &Vec<InputRoad>, node: i64, trims: &Vec<i64>, j1: usize, j2: usize) -> (r:
    bool)
    requires
        inputs_ok(node as int, roads@),
        trims@.len() == roads@.len(),
        j1 < roads@.len(),
        j2 < roads@.len(),
        forall|j: int|
            0 <= j < roads@.len() ==> 0 <= #[trigger] trims@[j] < seq_length(
                node_first_seq(roads@[j], node as int),
            ),
    ensures
        r == pair_clear(
            roads@[j1 as int],
            roads@[j2 as int],
            node as int,
            trims@[j1 as int] as int,
            trims@[j2 as int] as int,
        ),
{
    let nf1 = orient_node_first(&roads[j1], node);
    proof {
        crate::polyline::lemma_bounded_widen(nf1@, COORD_LIMIT as int, crate::pt::WORK_LIMIT as int);
    }
    let t1 = nf1.trim_front(trims[j1]);
    let l1 = t1.shifted(roads[j1].half_width, true);
    let nf2 = orient_node_first(&roads[j2], node);
    proof {
        crate::polyline::lemma_bounded_widen(nf2@, COORD_LIMIT as int, crate::pt::WORK_LIMIT as int);
    }
    let t2 = nf2.trim_front(trims[j2]);
    let r2 = t2.shifted(roads[j2].half_width, false);
    proof {
        lemma_shift_widen(l1, roads@[j1 as int].half_width as int);
        lemma_shift_widen(r2, roads@[j2 as int].half_width as int);
    }
    !crate::finder::any_proper_cross_of(&l1, &r2)
}

/// Raise trims until every pair of roads is clear of each other or both
/// roads of the pair have given up their caps: the iterative refinement
/// that one round of crossing projections cannot always reach exactly,
/// because crossing points are rounded to whole millimeters.
#[verifier::loop_isolation(false)]
fn enforce_clearance(trims: &mut Vec<i64>, roads: &Vec<InputRoad>, node: i64, cap_cfg: i64)
    requires
        inputs_ok(node as int, roads@),
        1 <= cap_cfg <= 1_000_000_000_000,
        old(trims)@.len() == roads@.len(),
        forall|j: int|
            0 <= j < roads@.len() ==> 0 <= #[trigger] old(trims)@[j] <= trim_cap(
                roads@[j],
                node as int,
                cap_cfg as int,
            ),
    ensures
        final(trims)@.len() == roads@.len(),
        forall|j: int|
            0 <= j < roads@.len() ==> 0 <= #[trigger] final(trims)@[j] <= trim_cap(
                roads@[j],
                node as int,
                cap_cfg as int,
            ),
        trims_clear(
            node as int,
            cap_cfg as int,
            roads@,
            final(trims)@.map_values(|t: i64| t as int),
        ),
{
    let n = roads.len();
    let mut caps: Vec<i64> = Vec::new();
    let mut j: usize = 0;
    while j < n
        invariant
            0 <= j <= n,
            caps@.len() == j,
            forall|k: int|
                0 <= k < j ==> #[trigger] caps@[k] == trim_cap(
                    roads@[k],
                    node as int,
                    cap_cfg as int,
                ),
        decreases n - j,
    {
        caps.push(road_cap(&roads[j], node, cap_cfg));
        j = j + 1;
    }
    let mut done = false;
    while !done
        invariant
            trims@.len() == roads@.len(),
            forall|j2: int|
                0 <= j2 < roads@.len() ==> 0 <= #[trigger] trims@[j2] <= trim_cap(
                    roads@[j2],
                    node as int,
                    cap_cfg as int,
                ),
            done ==> trims_clear(
                node as int,
                cap_cfg as int,
                roads@,
                trims@.map_values(|t: i64| t as int),
            ),
        decreases
                slack_from(node as int, cap_cfg as int, roads@, trims@, 0),
                (if done {
                    0int
                } else {
                    1int
                }),
    {
        proof {
            lemma_slack_nonneg(node as int, cap_cfg as int, roads@, trims@, 0);
        }
        let ghost entry = trims@;
        let mut changed = false;
        let mut j1: usize = 0;
        while j1 < n
            invariant
                trims@.len() == roads@.len(),
                forall|j2: int|
                    0 <= j2 < roads@.len() ==> 0 <= #[trigger] trims@[j2] <= trim_cap(
                        roads@[j2],
                        node as int,
                        cap_cfg as int,
                    ),
                forall|k: int| 0 <= k < roads@.len() ==> #[trigger] trims@[k] >= entry[k],
                changed ==> slack_from(node as int, cap_cfg as int, roads@, trims@, 0)
                    < slack_from(node as int, cap_cfg as int, roads@, entry, 0),
                !changed ==> trims@ == entry,
                0 <= j1 <= n,
                !changed ==> forall|a: int, b: int|
                    0 <= a < j1 && 0 <= b < roads@.len() && a != b ==> #[trigger] pair_clear(
                        roads@[a],
                        roads@[b],
                        node as int,
                        trims@[a] as int,
                        trims@[b] as int,
                    ) || (trims@[a] == trim_cap(roads@[a], node as int, cap_cfg as int)
                        && trims@[b] == trim_cap(roads@[b], node as int, cap_cfg as int)),
            decreases n - j1,
        {
            let mut j2: usize = 0;
            while j2 < n
                invariant
                    trims@.len() == roads@.len(),
                    forall|j3: int|
                        0 <= j3 < roads@.len() ==> 0 <= #[trigger] trims@[j3] <= trim_cap(
                            roads@[j3],
                            node as int,
                            cap_cfg as int,
                        ),
                    forall|k: int| 0 <= k < roads@.len() ==> #[trigger] trims@[k] >= entry[k],
                    changed ==> slack_from(node as int, cap_cfg as int, roads@, trims@, 0)
                        < slack_from(node as int, cap_cfg as int, roads@, entry, 0),
                    !changed ==> trims@ == entry,
                    0 <= j2 <= n,
                    j1 < n,
                    !changed ==> forall|a: int, b: int|
                        0 <= a < j1 && 0 <= b < roads@.len() && a != b ==> #[trigger] pair_clear(
                            roads@[a],
                            roads@[b],
                            node as int,
                            trims@[a] as int,
                            trims@[b] as int,
                        ) || (trims@[a] == trim_cap(roads@[a], node as int, cap_cfg as int)
                            && trims@[b] == trim_cap(roads@[b], node as int, cap_cfg as int)),
                    !changed ==> forall|b: int|
                        0 <= b < j2 && j1 != b ==> #[trigger] pair_clear(
                            roads@[j1 as int],
                            roads@[b],
                            node as int,
                            trims@[j1 as int] as int,
                            trims@[b] as int,
                        ) || (trims@[j1 as int] == trim_cap(
                            roads@[j1 as int],
                            node as int,
                            cap_cfg as int,
                        ) && trims@[b] == trim_cap(roads@[b], node as int, cap_cfg as int)),
                decreases n - j2,
            {
                if j1 != j2 {
                    let both_capped = trims[j1] == caps[j1] && trims[j2] == caps[j2];
                    if !both_capped {
                        proof {
                            assert forall|k: int| 0 <= k < roads@.len() implies 0
                                <= #[trigger] trims@[k] < seq_length(
                                node_first_seq(roads@[k], node as int),
                            ) by {
                                lemma_cap_range(roads@[k], node as int, cap_cfg as int);
                            }
                        }
                        if !pair_clear_of(roads, node, trims, j1, j2) {
                            let ghost before = trims@;
                            if trims[j1] < caps[j1] {
                                bump_trim(trims, j1, caps[j1]);
                                proof {
                                    lemma_slack_decreases(
                                        node as int,
                                        cap_cfg as int,
                                        roads@,
                                        before,
                                        trims@,
                                        0,
                                        j1 as int,
                                    );
                                }
                            }
                            let ghost mid = trims@;
                            if trims[j2] < caps[j2] {
                                bump_trim(trims, j2, caps[j2]);
                                proof {
                                    lemma_slack_decreases(
                                        node as int,
                                        cap_cfg as int,
                                        roads@,
                                        mid,
                                        trims@,
                                        0,
                                        j2 as int,
                                    );
                                }
                            }
                            proof {
                                if changed {
                                    lemma_slack_ge(
                                        node as int,
                                        cap_cfg as int,
                                        roads@,
                                        entry,
                                        before,
                                        0,
                                    );
                                }
                            }
                            changed = true;
                        }
                    }
                }
                j2 = j2 + 1;
            }
            j1 = j1 + 1;
        }
        if !changed {
            proof {
                let ds = trims@.map_values(|t: i64| t as int);
                assert forall|a: int, b: int|
                    0 <= a < roads@.len() && 0 <= b < roads@.len() && a != b implies #[trigger] pair_clear(
                    roads@[a],
                    roads@[b],
                    node as int,
                    ds[a],
                    ds[b],
                ) || (ds[a] == trim_cap(roads@[a], node as int, cap_cfg as int) && ds[b]
                    == trim_cap(roads@[b], node as int, cap_cfg as int)) by {
                    assert(pair_clear(
                        roads@[a],
                        roads@[b],
                        node as int,
                        trims@[a] as int,
                        trims@[b] as int,
                    ) || (trims@[a] == trim_cap(roads@[a], node as int, cap_cfg as int)
                        && trims@[b] == trim_cap(roads@[b], node as int, cap_cfg as int)));
                }
            }
            done = true;
        }
        proof {
            lemma_slack_nonneg(node as int, cap_cfg as int, roads@, trims@, 0);
        }
    }
}

/// Apply each road's trim at its node end: the center-line loses exactly
/// `trims[j]` of arc there and nothing anywhere else. Returns the output
/// rows in the roads' own orientation and the trimmed node-first curves.
#[verifier::loop_isolation(false)]
fn apply_trims(node: i64, cap_cfg: i64, roads: &Vec<InputRoad>, trims: &Vec<i64>) -> (r: (Vec<(
    OriginalRoad,
    PolyLine,
)>, Vec<PolyLine>))
    requires
        inputs_ok(node as int, roads@),
        1 <= cap_cfg,
        trims@.len() == roads@.len(),
        forall|j: int|
            0 <= j < trims@.len() ==> 0 <= #[trigger] trims@[j] <= trim_cap(
                roads@[j],
                node as int,
                cap_cfg as int,
            ),
    ensures
        r.0@.len() == roads@.len(),
        forall|k: int|
            0 <= k < roads@.len() ==> (#[trigger] r.0@[k]).0 == roads@[k].id && r.0@[k].1.wf()
                && r.0@[k].1@.len() <= 100_000 && r.0@[k].1@ == oriented_trim(
                roads@[k],
                node as int,
                trims@[k] as int,
            ),
        r.1@.len() == roads@.len(),
        forall|j: int|
            0 <= j < r.1@.len() ==> (#[trigger] r.1@[j]).wf() && 2 <= r.1@[j]@.len() <= 100_000,
{
    let n = roads.len();
    let mut out: Vec<(OriginalRoad, PolyLine)> = Vec::new();
    let mut nfs: Vec<PolyLine> = Vec::new();
    let mut j: usize = 0;
    while j < n
        invariant
            0 <= j <= n,
            out@.len() == j,
            nfs@.len() == j,
            forall|k: int|
                0 <= k < j ==> (#[trigger] out@[k]).0 == roads@[k].id && out@[k].1.wf()
                    && out@[k].1@.len() <= 100_000 && out@[k].1@ == oriented_trim(
                    roads@[k],
                    node as int,
                    trims@[k] as int,
                ),
            forall|k: int| 0 <= k < j ==> (#[trigger] nfs@[k]).wf() && 2 <= nfs@[k]@.len()
                <= 100_000,
        decreases n - j,
    {
        let rd = &roads[j];
        proof {
            lemma_cap_range(roads@[j as int], node as int, cap_cfg as int);
        }
        let nf = orient_node_first(rd, node);
        proof {
            crate::polyline::lemma_bounded_widen(
                nf@,
                COORD_LIMIT as int,
                crate::pt::WORK_LIMIT as int,
            );
        }
        let d = trims[j];
        let tnf = nf.trim_front(d);
        let out_pl = if rd.id.i1 == node {
            clone_polyline(&tnf)
        } else {
            tnf.reversed()
        };
        proof {
            let ghost s = node_first_seq(roads@[j as int], node as int);
            assert(tnf@ == trim_from(s, 0, d as int));
            assert(bounded_seq(nf@, COORD_LIMIT as int));
            assert(bounded_seq(tnf@, COORD_LIMIT as int));
            if rd.id.i1 != node {
                crate::polyline::lemma_reverse_chain(tnf@, COORD_LIMIT as int);
            }
            assert(out_pl@ == oriented_trim(roads@[j as int], node as int, d as int));
        }
        out.push((rd.id, out_pl));
        nfs.push(tnf);
        j = j + 1;
    }
    (out, nfs)
}

/// Sorted insertion keeps exactly the old rows plus the new one.
proof fn lemma_sorted_insert_contains(s: Seq<(OriginalRoad, Seq<Pt>)>, x: (OriginalRoad, Seq<Pt>))
    ensures
        sorted_insert_row(s, x).len() == s.len() + 1,
        forall|y: (OriginalRoad, Seq<Pt>)|
            #[trigger] sorted_insert_row(s, x).contains(y) <==> (s.contains(y) || y == x),
    decreases s.len(),
{
    if s.len() == 0 {
        assert forall|y: (OriginalRoad, Seq<Pt>)|
            #[trigger] sorted_insert_row(s, x).contains(y) <==> (s.contains(y) || y == x) by {
            assert(sorted_insert_row(s, x) =~= seq![x]);
            if y == x {
                assert(seq![x][0] == y);
            }
        }
    } else if !s[0].0.lt_spec(x.0) {
        assert forall|y: (OriginalRoad, Seq<Pt>)|
            #[trigger] sorted_insert_row(s, x).contains(y) <==> (s.contains(y) || y == x) by {
            let r = seq![x] + s;
            if r.contains(y) {
                let i = choose|i: int| 0 <= i < r.len() && r[i] == y;
                if i > 0 {
                    assert(s[i - 1] == y);
                }
            }
            if s.contains(y) {
                let i = choose|i: int| 0 <= i < s.len() && s[i] == y;
                assert(r[i + 1] == y);
            }
            if y == x {
                assert(r[0] == y);
            }
        }
    } else {
        lemma_sorted_insert_contains(s.skip(1), x);
        assert forall|y: (OriginalRoad, Seq<Pt>)|
            #[trigger] sorted_insert_row(s, x).contains(y) <==> (s.contains(y) || y == x) by {
            let r = seq![s[0]] + sorted_insert_row(s.skip(1), x);
            if r.contains(y) {
                let i = choose|i: int| 0 <= i < r.len() && r[i] == y;
                if i > 0 {
                    assert(sorted_insert_row(s.skip(1), x).contains(y)) by {
                        assert(sorted_insert_row(s.skip(1), x)[i - 1] == y);
                    }
                    if s.skip(1).contains(y) {
                        let t = choose|t: int| 0 <= t < s.skip(1).len() && s.skip(1)[t] == y;
                        assert(s[t + 1] == y);
                    }
                } else {
                    assert(s[0] == y);
                }
            }
            if s.contains(y) {
                let i = choose|i: int| 0 <= i < s.len() && s[i] == y;
                if i == 0 {
                    assert(r[0] == y);
                } else {
                    assert(s.skip(1)[i - 1] == y);
                    assert(sorted_insert_row(s.skip(1), x).contains(y));
                    let t = choose|t: int|
                        0 <= t < sorted_insert_row(s.skip(1), x).len() && sorted_insert_row(
                            s.skip(1),
                            x,
                        )[t] == y;
                    assert(r[t + 1] == y);
                }
            }
            if y == x {
                assert(sorted_insert_row(s.skip(1), x).contains(y));
                let t = choose|t: int|
                    0 <= t < sorted_insert_row(s.skip(1), x).len() && sorted_insert_row(
                        s.skip(1),
                        x,
                    )[t] == y;
                assert(r[t + 1] == y);
            }
        }
    }
}

/// Sorting keeps exactly the given rows.
pub proof fn lemma_sort_rows_contains(s: Seq<(OriginalRoad, Seq<Pt>)>)
    ensures
        sort_rows_spec(s).len() == s.len(),
        forall|y: (OriginalRoad, Seq<Pt>)|
            #[trigger] sort_rows_spec(s).contains(y) ==> s.contains(y),
    decreases s.len(),
{
    if s.len() > 0 {
        lemma_sort_rows_contains(s.drop_last());
        lemma_sorted_insert_contains(sort_rows_spec(s.drop_last()), s.last());
        assert forall|y: (OriginalRoad, Seq<Pt>)|
            #[trigger] sort_rows_spec(s).contains(y) implies s.contains(y) by {
            if sort_rows_spec(s.drop_last()).contains(y) {
                assert(s.drop_last().contains(y));
                let i = choose|i: int| 0 <= i < s.drop_last().len() && s.drop_last()[i] == y;
                assert(s[i] == y);
            } else {
                assert(y == s.last());
            }
        }
    }
}

/// Inserting a row at the first position whose identifier is not smaller
/// is exactly the sorted insertion.
proof fn lemma_insert_at_scan(s: Seq<(OriginalRoad, Seq<Pt>)>, x: (OriginalRoad, Seq<Pt>), j: int)
    requires
        0 <= j <= s.len(),
        forall|k: int| 0 <= k < j ==> (#[trigger] s[k]).0.lt_spec(x.0),
        j == s.len() || !s[j].0.lt_spec(x.0),
    ensures
        s.insert(j, x) == sorted_insert_row(s, x),
    decreases j,
{
    if j == 0 {
        if s.len() == 0 {
            assert(s.insert(0, x) =~= seq![x]);
        } else {
            assert(s.insert(0, x) =~= seq![x] + s);
        }
    } else {
        lemma_insert_at_scan(s.skip(1), x, j - 1);
        assert(s[0].0.lt_spec(x.0));
        assert(s.insert(j, x) =~= seq![s[0]] + s.skip(1).insert(j - 1, x));
    }
}

/// Sort the output rows ascending by road identifier, by insertion in
/// order: exactly `sort_rows_spec` of the given rows' views.
#[verifier::loop_isolation(false)]
fn sort_rows(rows: Vec<(OriginalRoad, PolyLine)>) -> (r: Vec<(OriginalRoad, PolyLine)>)
    ensures
        row_views(r@) == sort_rows_spec(row_views(rows@)),
        r@.len() == rows@.len(),
        forall|k: int|
            0 <= k < r@.len() ==> exists|k0: int|
                0 <= k0 < rows@.len() && #[trigger] r@[k] == rows@[k0],
{
    let ghost orig = rows@;
    let n = rows.len();
    let mut rem = rows;
    let mut out: Vec<(OriginalRoad, PolyLine)> = Vec::new();
    let mut i: usize = 0;
    while i < n
        invariant
            0 <= i <= n,
            rem@ =~= orig.subrange(i as int, n as int),
            out@.len() == i,
            row_views(out@) == sort_rows_spec(row_views(orig.subrange(0, i as int))),
            forall|k: int|
                0 <= k < out@.len() ==> exists|k0: int|
                    0 <= k0 < orig.len() && #[trigger] out@[k] == orig[k0],
        decreases n - i,
    {
        let x = rem.remove(0);
        proof {
            assert(x == orig[i as int]);
            assert(rem@ =~= orig.subrange(i + 1, n as int));
        }
        let mut j: usize = 0;
        while j < out.len() && out[j].0.lt(&x.0)
            invariant
                0 <= j <= out@.len(),
                forall|k: int| 0 <= k < j ==> (#[trigger] out@[k]).0.lt_spec(x.0),
            decreases out@.len() - j,
        {
            j = j + 1;
        }
        let ghost before = out@;
        let ghost bviews = row_views(before);
        out.insert(j, x);
        proof {
            assert(forall|k: int| 0 <= k < bviews.len() ==> #[trigger] bviews[k] == (
            before[k].0,
            before[k].1@,
            ));
            assert(forall|k: int| 0 <= k < j ==> (#[trigger] bviews[k]).0.lt_spec(x.0));
            assert(j == bviews.len() || !bviews[j as int].0.lt_spec(x.0));
            lemma_insert_at_scan(bviews, (x.0, x.1@), j as int);
            assert(row_views(out@) =~= bviews.insert(j as int, (x.0, x.1@))) by {
                assert(out@ =~= before.insert(j as int, x));
                assert(forall|k: int|
                    0 <= k < out@.len() ==> #[trigger] row_views(out@)[k] == (
                    out@[k].0,
                    out@[k].1@,
                    ));
            }
            let ghost sub1 = row_views(orig.subrange(0, i + 1));
            assert(sub1.drop_last() =~= row_views(orig.subrange(0, i as int)));
            assert(sub1.last() == (x.0, x.1@));
            assert(sub1 =~= sub1.drop_last().push(sub1.last()));
            assert(sort_rows_spec(sub1) == sorted_insert_row(
                sort_rows_spec(sub1.drop_last()),
                sub1.last(),
            ));
            assert(forall|k: int|
                0 <= k < out@.len() ==> exists|k0: int|
                    0 <= k0 < orig.len() && #[trigger] out@[k] == orig[k0]) by {
                assert(forall|k: int|
                    0 <= k < out@.len() ==> #[trigger] out@[k] == (if k < j {
                        before[k]
                    } else if k == j {
                        x
                    } else {
                        before[k - 1]
                    }));
            }
        }
        i = i + 1;
    }
    proof {
        assert(orig.subrange(0, n as int) =~= orig);
    }
    out
}

/// The offset that moves a point of the segment `a -> b` backwards along
/// the segment by `w` millimeters (rounded toward zero): used to cap a dead
/// end just beyond the trimmed road end.
fn back_vec_of(a: &Pt, b: &Pt, w: i64) -> (r: (i64, i64))
    requires
        in_bounds(*a, crate::pt::WORK_LIMIT as int),
        in_bounds(*b, crate::pt::WORK_LIMIT as int),
        *a != *b,
        1 <= w <= COORD_LIMIT,
    ensures
        crate::polyline::abs_val(r.0 as int) <= w,
        crate::polyline::abs_val(r.1 as int) <= w,
{
    let l = crate::pt::seg_len_of(a, b);
    let adx: u128 = if b.x >= a.x {
        (b.x - a.x) as u128
    } else {
        (a.x - b.x) as u128
    };
    let ady: u128 = if b.y >= a.y {
        (b.y - a.y) as u128
    } else {
        (a.y - b.y) as u128
    };
    proof {
        crate::polyline::lemma_comp_le_len(*a, *b);
        crate::polyline::lemma_seg_len_range(*a, *b);
        assert(ady * (w as u128) <= 900_000_000u128 * 100_000_000u128 && adx * (w as u128)
            <= 900_000_000u128 * 100_000_000u128) by (nonlinear_arith)
            requires
                0 <= adx <= 900_000_000u128,
                0 <= ady <= 900_000_000u128,
                0 <= w as u128 <= 100_000_000u128,
        ;
        crate::polyline::lemma_mul_div_le_scaled(adx as int, w as int, l as int);
        crate::polyline::lemma_mul_div_le_scaled(ady as int, w as int, l as int);
    }
    let mx = ((adx * w as u128) / l as u128) as i64;
    let my = ((ady * w as u128) / l as u128) as i64;
    let ox = if b.x >= a.x {
        -mx
    } else {
        mx
    };
    let oy = if b.y >= a.y {
        -my
    } else {
        my
    };
    (ox, oy)
}

/// Drop consecutive duplicate vertices, and a final vertex that repeats the
/// first. Every kept vertex is one of the given ones.
fn dedupe_ring(v: &Vec<Pt>) -> (r: Vec<Pt>)
    ensures
        forall|k: int| 0 <= k < r@.len() ==> v@.contains(#[trigger] r@[k]),
{
    let n = v.len();
    let mut r: Vec<Pt> = Vec::new();
    let mut i: usize = 0;
    while i < n
        invariant
            0 <= i <= n,
            n == v@.len(),
            forall|k: int| 0 <= k < r@.len() ==> v@.contains(#[trigger] r@[k]),
        decreases n - i,
    {
        let p = v[i];
        proof {
            assert(v@.contains(v@[i as int]));
        }
        if r.len() == 0 {
            r.push(p);
        } else {
            let last = r[r.len() - 1];
            if !(last.x == p.x && last.y == p.y) {
                r.push(p);
            }
        }
        i = i + 1;
    }
    if r.len() >= 2 {
        let first = r[0];
        let last = r[r.len() - 1];
        if first.x == last.x && first.y == last.y {
            r.pop();
        }
    }
    r
}

/// Build the intersection polygon from the trimmed roads, walking them in
/// counterclockwise order: each road contributes its right and left boundary
/// corner, each adjacent pair the miter corner where their facing boundary
/// lines meet. If the walk is not a simple ring, fall back to the convex
/// hull of its points; if even that fails, to a square around the node. A
/// dead end gets a cap of bounded, positive area just past its trimmed end.
#[verifier::loop_isolation(false)]
#[verifier::rlimit(30)]
fn build_polygon(node_pt: Pt, sorted: &Vec<WorkRoad>, nfs: &Vec<PolyLine>) -> (res: (Polygon, Vec<(
    String,
    Polygon,
)>))
    requires
        in_bounds(node_pt, COORD_LIMIT as int),
        sorted@.len() >= 1,
        forall|k: int|
            0 <= k < sorted@.len() ==> (#[trigger] sorted@[k]).idx < nfs@.len() && 1 <= sorted@[k].half_width <= COORD_LIMIT,
        forall|j: int|
            0 <= j < nfs@.len() ==> (#[trigger] nfs@[j]).wf() && 2 <= nfs@[j]@.len() <= 100_000,
    ensures
        res.0.wf(),
        sorted@.len() == 1 ==> 0 < crate::polyline::abs_val(crate::ring::doubled_area(res.0@)) <= 18
            * sorted@[0].half_width * sorted@[0].half_width,
{
    let m = sorted.len();
    if m == 1 {
        let u = &sorted[0];
        let nf = &nfs[u.idx];
        let w = u.half_width;
        let left = nf.shifted(w, true);
        let right = nf.shifted(w, false);
        proof {
            lemma_shift_widen(left, w as int);
            lemma_shift_widen(right, w as int);
        }
        let l0 = left.pts[0];
        let r0 = right.pts[0];
        let (bx, by) = back_vec_of(&nf.pts[0], &nf.pts[1], w);
        let er = Pt { x: r0.x + bx, y: r0.y + by };
        let el = Pt { x: l0.x + bx, y: l0.y + by };
        let mut cand: Vec<Pt> = Vec::new();
        cand.push(r0);
        cand.push(er);
        cand.push(el);
        cand.push(l0);
        proof {
            assert(18 * (w as i128) * (w as i128) <= 180_000_000_000_000_000i128 && 18 * (
            w as i128) * (w as i128) >= 18i128) by (nonlinear_arith)
                requires
                    1 <= w as i128 <= 100_000_000i128,
            ;
        }
        if crate::ring::all_in_bounds(&cand, crate::pt::WORK_LIMIT) && crate::ring::is_simple_of(
            &cand,
        ) {
            let a2 = crate::ring::doubled_area_of(&cand);
            proof {
                crate::ring::lemma_area_from_bound(cand@, 1);
            }
            let aa = if a2 >= 0 {
                a2
            } else {
                -a2
            };
            if aa > 0 && aa <= 18 * (w as i128) * (w as i128) {
                return (Polygon { points: cand }, Vec::new());
            }
        }
        let sq = crate::ring::square_of(&nf.pts[0], w);
        proof {
            assert(0 < 8 * (w as int) * (w as int) <= 18 * (w as int) * (w as int))
                by (nonlinear_arith)
                requires
                    1 <= w as int,
            ;
        }
        return (Polygon { points: sq }, Vec::new());
    }
    let mut lefts: Vec<PolyLine> = Vec::new();
    let mut rights: Vec<PolyLine> = Vec::new();
    let mut k: usize = 0;
    while k < m
        invariant
            0 <= k <= m,
            m == sorted@.len(),
            lefts@.len() == k,
            rights@.len() == k,
            forall|t: int|
                0 <= t < k ==> (#[trigger] lefts@[t]).wf_within(crate::pt::WORK_LIMIT as int)
                    && lefts@[t]@.len() >= 2,
            forall|t: int|
                0 <= t < k ==> (#[trigger] rights@[t]).wf_within(crate::pt::WORK_LIMIT as int)
                    && rights@[t]@.len() >= 2,
        decreases m - k,
    {
        let u = &sorted[k];
        let nf = &nfs[u.idx];
        let lk = nf.shifted(u.half_width, true);
        let rk = nf.shifted(u.half_width, false);
        proof {
            lemma_shift_widen(lk, sorted@[k as int].half_width as int);
            lemma_shift_widen(rk, sorted@[k as int].half_width as int);
        }
        lefts.push(lk);
        rights.push(rk);
        k = k + 1;
    }
    let mut walk: Vec<Pt> = Vec::new();
    let mut k: usize = 0;
    while k < m
        invariant
            0 <= k <= m,
            m == sorted@.len(),
            lefts@.len() == m,
            rights@.len() == m,
            forall|t: int|
                0 <= t < m ==> (#[trigger] lefts@[t]).wf_within(crate::pt::WORK_LIMIT as int)
                    && lefts@[t]@.len() >= 2,
            forall|t: int|
                0 <= t < m ==> (#[trigger] rights@[t]).wf_within(crate::pt::WORK_LIMIT as int)
                    && rights@[t]@.len() >= 2,
        decreases m - k,
    {
        walk.push(rights[k].pts[0]);
        walk.push(lefts[k].pts[0]);
        let k2 = if k == m - 1 {
            0
        } else {
            k + 1
        };
        if let Some(x) = crate::finder::line_cross_of(
            &lefts[k].pts[1],
            &lefts[k].pts[0],
            &rights[k2].pts[1],
            &rights[k2].pts[0],
        ) {
            let lim = 2 * (sorted[k].half_width + sorted[k2].half_width) + 2_000;
            proof {
                assert((lim as u128) * (lim as u128) <= 200_000_000_000_000_000u128)
                    by (nonlinear_arith)
                    requires
                        0 <= lim as u128 <= 402_000_000u128,
                ;
            }
            let lim2 = (lim as u128) * (lim as u128);
            if (crate::pt::dist2_of(&x, &node_pt) as u128) <= lim2 {
                walk.push(x);
            }
        }
        k = k + 1;
    }
    let ring = dedupe_ring(&walk);
    if ring.len() >= 3 && crate::ring::all_in_bounds(&ring, crate::pt::WORK_LIMIT)
        && crate::ring::is_simple_of(&ring) {
        return (Polygon { points: ring }, Vec::new());
    }
    // The angular walk would self-intersect: keep it as a diagnostic and
    // fall back to the convex hull of its points.
    let mut debug: Vec<(String, Polygon)> = Vec::new();
    let label = String::from_str("self_intersecting_walk");
    debug.push((label, Polygon { points: ring }));
    if crate::ring::all_in_bounds(&walk, crate::pt::WORK_LIMIT) {
        if let Some(hull) = crate::ring::convex_hull(&walk) {
            let hring = dedupe_ring(&hull);
            if hring.len() >= 3 && crate::ring::all_in_bounds(&hring, crate::pt::WORK_LIMIT)
                && crate::ring::is_simple_of(&hring) {
                return (Polygon { points: hring }, debug);
            }
        }
    }
    // Even the hull is degenerate (for instance all corners collinear):
    // a square around the node, sized by the widest road, always stands.
    let mut h: i64 = 1;
    let mut k: usize = 0;
    while k < m
        invariant
            0 <= k <= m,
            m == sorted@.len(),
            1 <= h <= COORD_LIMIT,
        decreases m - k,
    {
        if sorted[k].half_width > h {
            h = sorted[k].half_width;
        }
        k = k + 1;
    }
    let sq = crate::ring::square_of(&node_pt, h);
    (Polygon { points: sq }, debug)
}

/// One intersection's full computation with an explicit trim guard: check
/// the inputs, walk the roads into counterclockwise order, find where
/// adjacent boundary curves cross, raise the trims until every pair of
/// roads is clear of each other (or fully capped), trim each road at its
/// node end, and close the node with a simple polygon. The rows come back
/// sorted ascending by road identifier.
pub fn intersection_polygon_ref(
    intersection_id: i64,
    input_roads: &Vec<InputRoad>,
    trim_guard: i64,
) -> (r: Result<Results, Error>)
    requires
        1 <= trim_guard <= 1_000_000_000_000,
    ensures
        r is Ok <==> inputs_ok(intersection_id as int, input_roads@),
        r is Err ==> r == Result::<Results, Error>::Err(
            input_error(intersection_id, input_roads@),
        ),
        r is Ok ==> (r->Ok_0).intersection_id == intersection_id,
        r is Ok ==> (r->Ok_0).intersection_polygon.wf(),
        r is Ok ==> trimmed_ok(
            intersection_id as int,
            trim_guard as int,
            input_roads@,
            (r->Ok_0).trimmed_center_pts@,
        ),
        r is Ok && input_roads@.len() == 1 ==> 0 < crate::polyline::abs_val(
            crate::ring::doubled_area((r->Ok_0).intersection_polygon@),
        ) <= 18 * input_roads@[0].half_width * input_roads@[0].half_width,
{
    match check_inputs(intersection_id, input_roads) {
        Err(e) => {
            return Err(e);
        },
        Ok(()) => {},
    }
    let node_pt = if input_roads[0].id.i1 == intersection_id {
        input_roads[0].center_pts.pts[0]
    } else {
        input_roads[0].center_pts.pts[input_roads[0].center_pts.pts.len() - 1]
    };
    let work = build_work(intersection_id, trim_guard, input_roads);
    let sorted = sort_work(
        work,
        Ghost(intersection_id as int),
        Ghost(trim_guard as int),
        Ghost(input_roads@),
    );
    let mut trims = compute_trims(&sorted, input_roads, intersection_id, trim_guard);
    enforce_clearance(&mut trims, input_roads, intersection_id, trim_guard);
    let (trimmed, nfs) = apply_trims(intersection_id, trim_guard, input_roads, &trims);
    let ghost rows0 = trimmed@;
    let sorted_rows = sort_rows(trimmed);
    proof {
        if sorted@.len() == 1 {
            assert(sorted@[0].half_width == input_roads@[0].half_width);
        }
        let ds = trims@.map_values(|t: i64| t as int);
        assert(ds.len() == input_roads@.len());
        assert(forall|j: int|
            0 <= j < input_roads@.len() ==> 0 <= #[trigger] ds[j] <= trim_cap(
                input_roads@[j],
                intersection_id as int,
                trim_guard as int,
            ));
        assert(spec_rows(input_roads@, intersection_id as int, ds) =~= row_views(rows0)) by {
            assert(forall|k: int|
                0 <= k < rows0.len() ==> #[trigger] row_views(rows0)[k] == (
                rows0[k].0,
                rows0[k].1@,
                ));
        }
        assert(trimmed_with(
            intersection_id as int,
            trim_guard as int,
            input_roads@,
            sorted_rows@,
            ds,
        ));
        assert forall|k: int| 0 <= k < sorted_rows@.len() implies (#[trigger] sorted_rows@[k]).1.wf()
            && sorted_rows@[k].1@.len() <= 100_000 by {
            let k0 = choose|k0: int| 0 <= k0 < rows0.len() && sorted_rows@[k] == rows0[k0];
            assert(rows0[k0].1.wf());
        }
    }
    let (polygon, debug) = build_polygon(node_pt, &sorted, &nfs);
    Ok(
        Results {
            intersection_id,
            intersection_polygon: polygon,
            trimmed_center_pts: sorted_rows,
            debug,
        },
    )
}

/// One intersection's full computation with the default trim guard.
pub fn intersection_polygon_v2(intersection_id: i64, input_roads: Vec<InputRoad>) -> (r: Result<
    Results,
    Error,
>)
    ensures
        r is Ok <==> inputs_ok(intersection_id as int, input_roads@),
        r is Err ==> r == Result::<Results, Error>::Err(
            input_error(intersection_id, input_roads@),
        ),
        r is Ok ==> (r->Ok_0).intersection_id == intersection_id,
        r is Ok ==> (r->Ok_0).intersection_polygon.wf(),
        r is Ok ==> trimmed_ok(
            intersection_id as int,
            DEFAULT_TRIM_CAP as int,
            input_roads@,
            (r->Ok_0).trimmed_center_pts@,
        ),
        r is Ok && input_roads@.len() == 1 ==> 0 < crate::polyline::abs_val(
            crate::ring::doubled_area((r->Ok_0).intersection_polygon@),
        ) <= 18 * input_roads@[0].half_width * input_roads@[0].half_width,
{
    intersection_polygon_ref(intersection_id, &input_roads, DEFAULT_TRIM_CAP)
}

/// `intersection_polygon_ref` with the roads passed by value.
pub fn intersection_polygon_with_cap(
    intersection_id: i64,
    input_roads: Vec<InputRoad>,
    trim_guard: i64,
) -> (r: Result<Results, Error>)
    requires
        1 <= trim_guard <= 1_000_000_000_000,
    ensures
        r is Ok <==> inputs_ok(intersection_id as int, input_roads@),
        r is Err ==> r == Result::<Results, Error>::Err(
            input_error(intersection_id, input_roads@),
        ),
        r is Ok ==> (r->Ok_0).intersection_id == intersection_id,
        r is Ok ==> (r->Ok_0).intersection_polygon.wf(),
        r is Ok ==> trimmed_ok(
            intersection_id as int,
            trim_guard as int,
            input_roads@,
            (r->Ok_0).trimmed_center_pts@,
        ),
        r is Ok && input_roads@.len() == 1 ==> 0 < crate::polyline::abs_val(
            crate::ring::doubled_area((r->Ok_0).intersection_polygon@),
        ) <= 18 * input_roads@[0].half_width * input_roads@[0].half_width,
{
    intersection_polygon_ref(intersection_id, &input_roads, trim_guard)
}

} // verus!
