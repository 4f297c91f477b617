//! The interchange adapter: reading roads from, and writing trimmed roads
//! to, the geographic feature format, reduced here to plain values. A raw
//! record carries what one feature may carry — three identifying numbers, a
//! half-width, and a line geometry — each possibly absent or unusable; the
//! reader skips malformed records and reports them one by one, and the
//! writer emits one complete record per trimmed road. Reading back what was
//! written reconstructs the roads exactly.

use vstd::prelude::*;
use crate::geometry::{InputRoad, OriginalRoad};
use crate::polyline::PolyLine;
use crate::pt::{Pt, COORD_LIMIT};

verus! {

/// One feature of the interchange format, as plain values. `None` stands
/// for a missing or unparsable property.
#[derive(Clone, PartialEq, Eq, Debug)]
pub struct RawRecord {
    pub osm_way_id: Option<i64>,
    pub src_i: Option<i64>,
    pub dst_i: Option<i64>,
    pub half_width: Option<i64>,
    pub center: Option<Vec<Pt>>,
}

/// Why one record was rejected.
#[derive(Clone, Copy, PartialEq, Eq, Structural, Debug)]
pub enum RecordError {
    /// A required property is missing or unparsable.
    MissingProperty,
    /// The half-width is not positive or beyond the coordinate budget.
    BadWidth,
    /// The line geometry is degenerate, oversized or out of the local frame.
    BadGeometry,
}

/// What a record decodes to: a road when every field is present and usable.
pub open spec fn spec_decode(rec: RawRecord) -> Option<InputRoad> {
    if rec.osm_way_id is Some && rec.src_i is Some && rec.dst_i is Some && rec.half_width is Some
        && rec.center is Some {
        let road = InputRoad {
            id: OriginalRoad {
                osm_way_id: rec.osm_way_id->0,
                i1: rec.src_i->0,
                i2: rec.dst_i->0,
            },
            center_pts: PolyLine { pts: rec.center->0 },
            half_width: rec.half_width->0,
        };
        if road.wf() {
            Some(road)
        } else {
            None
        }
    } else {
        None
    }
}

/// The reason a record fails to decode.
pub open spec fn spec_decode_err(rec: RawRecord) -> RecordError {
    if !(rec.osm_way_id is Some && rec.src_i is Some && rec.dst_i is Some && rec.half_width is Some
        && rec.center is Some) {
        RecordError::MissingProperty
    } else if !(1 <= rec.half_width->0 <= COORD_LIMIT) {
        RecordError::BadWidth
    } else {
        RecordError::BadGeometry
    }
}

/// The roads decoded from the first `i` records, in order, skipping the
/// malformed ones.
pub open spec fn decoded_roads(recs: Seq<RawRecord>, i: int) -> Seq<InputRoad>
    decreases i,
{
    if i <= 0 {
        Seq::empty()
    } else {
        let prev = decoded_roads(recs, i - 1);
        match spec_decode(recs[i - 1]) {
            Some(road) => prev.push(road),
            None => prev,
        }
    }
}

/// The per-record errors among the first `i` records, each with its index.
pub open spec fn record_errors(recs: Seq<RawRecord>, i: int) -> Seq<(usize, RecordError)>
    decreases i,
{
    if i <= 0 {
        Seq::empty()
    } else {
        let prev = record_errors(recs, i - 1);
        match spec_decode(recs[i - 1]) {
            Some(road) => prev,
            None => prev.push((((i - 1) as usize), spec_decode_err(recs[i - 1]))),
        }
    }
}

/// Read the interchange records: the usable roads in order, and one error
/// per malformed record — a few bad upstream features never abort a batch.
#[verifier::loop_isolation(false)]
pub fn read_geojson_input(records: Vec<RawRecord>) -> (r: (Vec<InputRoad>, Vec<(
    usize,
    RecordError,
)>))
    ensures
        r.0@ == decoded_roads(records@, records@.len() as int),
        r.1@ == record_errors(records@, records@.len() as int),
{
    let ghost orig = records@;
    let n = records.len();
    let mut rem = records;
    let mut roads: Vec<InputRoad> = Vec::new();
    let mut errs: Vec<(usize, RecordError)> = Vec::new();
    let mut i: usize = 0;
    while i < n
        invariant
            0 <= i <= n,
            n == orig.len(),
            rem@ =~= orig.subrange(i as int, n as int),
            roads@ == decoded_roads(orig, i as int),
            errs@ == record_errors(orig, i as int),
        decreases n - i,
    {
        let rec = rem.remove(0);
        proof {
            assert(rec == orig[i as int]);
            assert(rem@ =~= orig.subrange(i + 1, n as int));
        }
        let RawRecord { osm_way_id, src_i, dst_i, half_width, center } = rec;
        if osm_way_id.is_none() || src_i.is_none() || dst_i.is_none() || half_width.is_none()
            || center.is_none() {
            errs.push((i, RecordError::MissingProperty));
        } else {
            let w = half_width.unwrap();
            if !(1 <= w && w <= COORD_LIMIT) {
                errs.push((i, RecordError::BadWidth));
            } else {
                let road = InputRoad {
                    id: OriginalRoad {
                        osm_way_id: osm_way_id.unwrap(),
                        i1: src_i.unwrap(),
                        i2: dst_i.unwrap(),
                    },
                    center_pts: PolyLine { pts: center.unwrap() },
                    half_width: w,
                };
                if crate::geometry::check_road_wf(&road) {
                    roads.push(road);
                } else {
                    errs.push((i, RecordError::BadGeometry));
                }
            }
        }
        i = i + 1;
    }
    (roads, errs)
}

/// One complete record for a trimmed road.
pub open spec fn encode_row(id: OriginalRoad, pl: PolyLine, w: i64) -> RawRecord {
    RawRecord {
        osm_way_id: Some(id.osm_way_id),
        src_i: Some(id.i1),
        dst_i: Some(id.i2),
        half_width: Some(w),
        center: Some(pl.pts),
    }
}

/// Writing a road and reading it back reconstructs it exactly.
pub proof fn lemma_row_round_trip(id: OriginalRoad, pl: PolyLine, w: i64)
    requires
        pl.wf(),
        pl@.len() <= 100_000,
        1 <= w <= COORD_LIMIT,
    ensures
        spec_decode(encode_row(id, pl, w)) == Some(
            InputRoad { id, center_pts: pl, half_width: w },
        ),
{
}

/// The half-width of the road with this identifier, scanning the inputs in
/// order; zero when no road carries it.
pub open spec fn width_by_id(inputs: Seq<InputRoad>, id: OriginalRoad) -> i64
    decreases inputs.len(),
{
    if inputs.len() == 0 {
        0
    } else if inputs[0].id == id {
        inputs[0].half_width
    } else {
        width_by_id(inputs.skip(1), id)
    }
}

/// When no earlier road shares road `j`'s identifier, the lookup finds
/// exactly road `j`.
pub proof fn lemma_width_of_member(inputs: Seq<InputRoad>, j: int)
    requires
        0 <= j < inputs.len(),
        forall|t: int| 0 <= t < j ==> (#[trigger] inputs[t]).id != inputs[j].id,
    ensures
        width_by_id(inputs, inputs[j].id) == inputs[j].half_width,
    decreases j,
{
    if j > 0 {
        assert(inputs[0].id != inputs[j].id);
        assert(inputs.skip(1)[j - 1] == inputs[j]);
        assert(forall|t: int| 0 <= t < j - 1 ==> (#[trigger] inputs.skip(1)[t]).id == inputs[t
            + 1].id);
        lemma_width_of_member(inputs.skip(1), j - 1);
    }
}

/// Exact evaluation of `width_by_id`.
#[verifier::loop_isolation(false)]
fn find_width(inputs: &Vec<InputRoad>, id: &OriginalRoad) -> (w: i64)
    ensures
        w == width_by_id(inputs@, *id),
{
    let n = inputs.len();
    proof {
        assert(inputs@.skip(0) =~= inputs@);
    }
    let mut i: usize = 0;
    while i < n
        invariant
            0 <= i <= n,
            width_by_id(inputs@, *id) == width_by_id(inputs@.skip(i as int), *id),
        decreases n - i,
    {
        proof {
            assert(inputs@.skip(i as int)[0] == inputs@[i as int]);
            assert(inputs@.skip(i as int).skip(1) =~= inputs@.skip(i + 1));
        }
        let cand = inputs[i].id;
        if cand.osm_way_id == id.osm_way_id && cand.i1 == id.i1 && cand.i2 == id.i2 {
            return inputs[i].half_width;
        }
        i = i + 1;
    }
    proof {
        assert(inputs@.skip(n as int).len() == 0);
    }
    0
}

/// The records for the trimmed roads of one intersection, with each road's
/// half-width looked up from the input road with the same identifier.
#[verifier::loop_isolation(false)]
pub fn write_geojson_output(rows: Vec<(OriginalRoad, PolyLine)>, inputs: &Vec<InputRoad>) -> (r:
    Vec<RawRecord>)
    ensures
        r@.len() == rows@.len(),
        forall|k: int|
            0 <= k < r@.len() ==> #[trigger] r@[k] == encode_row(
                rows@[k].0,
                rows@[k].1,
                width_by_id(inputs@, rows@[k].0),
            ),
{
    let ghost orig = rows@;
    let n = rows.len();
    let mut rem = rows;
    let mut out: Vec<RawRecord> = Vec::new();
    let mut k: usize = 0;
    while k < n
        invariant
            0 <= k <= n,
            rem@ =~= orig.subrange(k as int, n as int),
            out@.len() == k,
            forall|t: int|
                0 <= t < k ==> #[trigger] out@[t] == encode_row(
                    orig[t].0,
                    orig[t].1,
                    width_by_id(inputs@, orig[t].0),
                ),
        decreases n - k,
    {
        let (id, pl) = rem.remove(0);
        proof {
            assert((id, pl) == orig[k as int]);
            assert(rem@ =~= orig.subrange(k + 1, n as int));
        }
        let w = find_width(inputs, &id);
        out.push(
            RawRecord {
                osm_way_id: Some(id.osm_way_id),
                src_i: Some(id.i1),
                dst_i: Some(id.i2),
                half_width: Some(w),
                center: Some(pl.pts),
            },
        );
        k = k + 1;
    }
    out
}

/// Decoding a sequence of written records gives back one road per row,
/// with the row's identifier and center-line and the looked-up half-width.
proof fn lemma_decode_encoded(
    out: Seq<RawRecord>,
    rows: Seq<(OriginalRoad, PolyLine)>,
    inputs: Seq<InputRoad>,
    i: int,
)
    requires
        out.len() == rows.len(),
        forall|k: int|
            0 <= k < out.len() ==> #[trigger] out[k] == encode_row(
                rows[k].0,
                rows[k].1,
                width_by_id(inputs, rows[k].0),
            ),
        forall|k: int|
            0 <= k < rows.len() ==> (#[trigger] rows[k]).1.wf() && rows[k].1@.len() <= 100_000,
        forall|k: int|
            0 <= k < rows.len() ==> 1 <= width_by_id(inputs, (#[trigger] rows[k]).0)
                <= COORD_LIMIT,
        0 <= i <= out.len(),
    ensures
        decoded_roads(out, i).len() == i,
        forall|k: int|
            0 <= k < i ==> #[trigger] decoded_roads(out, i)[k] == (InputRoad {
                id: rows[k].0,
                center_pts: rows[k].1,
                half_width: width_by_id(inputs, rows[k].0),
            }),
    decreases i,
{
    if i > 0 {
        lemma_decode_encoded(out, rows, inputs, i - 1);
        lemma_row_round_trip(rows[i - 1].0, rows[i - 1].1, width_by_id(inputs, rows[i - 1].0));
    }
}

/// Run one intersection through the whole pipeline at the interchange
/// level: decode the records (skipping malformed ones), compute the
/// polygon and trims, and encode the trimmed roads again. Reading the
/// returned records back gives one road per decoded input road, sorted by
/// identifier, with the half-width of the matching input road and the
/// center-line trimmed at this node under the pipeline's own trim
/// guarantees.
pub fn roundtrip_geojson(intersection_id: i64, records: Vec<RawRecord>) -> (r: Result<
    Vec<RawRecord>,
    crate::geometry::Error,
>)
    ensures
        r is Ok <==> crate::geometry::inputs_ok(
            intersection_id as int,
            decoded_roads(records@, records@.len() as int),
        ),
        r is Err ==> r == Result::<Vec<RawRecord>, crate::geometry::Error>::Err(
            crate::geometry::input_error(
                intersection_id,
                decoded_roads(records@, records@.len() as int),
            ),
        ),
        r is Ok ==> ({
            let din = decoded_roads(records@, records@.len() as int);
            let dout = decoded_roads((r->Ok_0)@, (r->Ok_0)@.len() as int);
            &&& dout.len() == din.len()
            &&& forall|k: int|
                0 <= k < dout.len() ==> (#[trigger] dout[k]).half_width == width_by_id(
                    din,
                    dout[k].id,
                )
            &&& crate::geometry::trimmed_ok(
                intersection_id as int,
                crate::geometry::DEFAULT_TRIM_CAP as int,
                din,
                dout.map_values(|rd: InputRoad| (rd.id, rd.center_pts)),
            )
        }),
{
    let (roads, _errs) = read_geojson_input(records);
    let ghost din = roads@;
    let results = match crate::geometry::intersection_polygon_ref(
        intersection_id,
        &roads,
        crate::geometry::DEFAULT_TRIM_CAP,
    ) {
        Ok(res) => res,
        Err(e) => {
            return Err(e);
        },
    };
    let ghost rows = results.trimmed_center_pts@;
    let out = write_geojson_output(results.trimmed_center_pts, &roads);
    proof {
        let ghost node = intersection_id as int;
        let ghost cap = crate::geometry::DEFAULT_TRIM_CAP as int;
        let ds = choose|ds: Seq<int>|
            #[trigger] crate::geometry::trimmed_with(node, cap, din, rows, ds);
        let srows = crate::geometry::spec_rows(din, node, ds);
        crate::geometry::lemma_sort_rows_contains(srows);
        assert forall|k: int| 0 <= k < rows.len() implies 1 <= width_by_id(
            din,
            (#[trigger] rows[k]).0,
        ) <= COORD_LIMIT by {
            assert(crate::geometry::row_views(rows)[k] == (rows[k].0, rows[k].1@));
            assert(crate::geometry::sort_rows_spec(srows).contains((rows[k].0, rows[k].1@)));
            assert(srows.contains((rows[k].0, rows[k].1@)));
            let j = choose|j: int| 0 <= j < srows.len() && srows[j] == (rows[k].0, rows[k].1@);
            assert(srows[j].0 == din[j].id);
            assert(crate::geometry::road_valid_at(din[j], node));
            lemma_width_of_member(din, j);
        }
        lemma_decode_encoded(out@, rows, din, out@.len() as int);
        let dout = decoded_roads(out@, out@.len() as int);
        let mapped = dout.map_values(|rd: InputRoad| (rd.id, rd.center_pts));
        assert(crate::geometry::row_views(mapped) =~= crate::geometry::row_views(rows)) by {
            assert(forall|k: int|
                0 <= k < mapped.len() ==> #[trigger] crate::geometry::row_views(mapped)[k] == (
                mapped[k].0,
                mapped[k].1@,
                ));
            assert(forall|k: int|
                0 <= k < rows.len() ==> #[trigger] crate::geometry::row_views(rows)[k] == (
                rows[k].0,
                rows[k].1@,
                ));
            assert(forall|k: int|
                0 <= k < dout.len() ==> (#[trigger] mapped[k]) == (rows[k].0, rows[k].1));
        }
        assert(crate::geometry::trimmed_with(node, cap, din, mapped, ds));
        assert forall|k: int| 0 <= k < mapped.len() implies (#[trigger] mapped[k]).1.wf()
            && mapped[k].1@.len() <= 100_000 by {
            assert(mapped[k].1 == rows[k].1);
        }
    }
    Ok(out)
}

} // verus!
