//! The interchange adapter: malformed records are skipped and reported one
//! by one, and writing trimmed results then reading them back reconstructs
//! the center-lines exactly.

use raw_map::geojson::{
    read_geojson_input, roundtrip_geojson, write_geojson_output, RawRecord, RecordError,
};
use raw_map::geometry::intersection_polygon_v2;
use raw_map::pt::Pt;

fn rec(way: i64, src: i64, dst: i64, w: i64, pts: Vec<(i64, i64)>) -> RawRecord {
    RawRecord {
        osm_way_id: Some(way),
        src_i: Some(src),
        dst_i: Some(dst),
        half_width: Some(w),
        center: Some(pts.into_iter().map(|(x, y)| Pt { x, y }).collect()),
    }
}

#[test]
fn malformed_records_are_skipped_and_reported() {
    let good = rec(1, 10, 99, 5_000, vec![(-50_000, 0), (0, 0)]);
    let missing = RawRecord {
        osm_way_id: None,
        src_i: Some(20),
        dst_i: Some(99),
        half_width: Some(5_000),
        center: Some(vec![Pt { x: 0, y: -50_000 }, Pt { x: 0, y: 0 }]),
    };
    let bad_width = rec(2, 20, 99, 0, vec![(0, -50_000), (0, 0)]);
    let bad_geometry = rec(3, 30, 99, 5_000, vec![(0, 0)]);
    let (roads, errs) = read_geojson_input(vec![good, missing, bad_width, bad_geometry]);
    assert_eq!(roads.len(), 1);
    assert_eq!(roads[0].id.osm_way_id, 1);
    assert_eq!(
        errs,
        vec![
            (1, RecordError::MissingProperty),
            (2, RecordError::BadWidth),
            (3, RecordError::BadGeometry),
        ]
    );
}

#[test]
fn write_then_read_reconstructs_roads_exactly() {
    let a = rec(1, 10, 99, 5_000, vec![(-50_000, 0), (0, 0)]);
    let b = rec(2, 20, 99, 5_000, vec![(0, -50_000), (0, 0)]);
    let (roads, errs) = read_geojson_input(vec![a, b]);
    assert!(errs.is_empty());
    let res = intersection_polygon_v2(99, roads.clone()).unwrap();
    let written = write_geojson_output(res.trimmed_center_pts.clone(), &roads);
    let (back, back_errs) = read_geojson_input(written);
    assert!(back_errs.is_empty());
    assert_eq!(back.len(), 2);
    for k in 0..2 {
        assert_eq!(back[k].id, roads[k].id);
        assert_eq!(back[k].half_width, roads[k].half_width);
        assert_eq!(back[k].center_pts.pts, res.trimmed_center_pts[k].1.pts);
    }
}

#[test]
fn roundtrip_matches_direct_pipeline() {
    let a = rec(1, 10, 99, 5_000, vec![(-50_000, 0), (0, 0)]);
    let b = rec(2, 20, 99, 5_000, vec![(0, -50_000), (0, 0)]);
    let out = roundtrip_geojson(99, vec![a.clone(), b.clone()]).unwrap();
    assert_eq!(out.len(), 2);
    let (back, errs) = read_geojson_input(out);
    assert!(errs.is_empty());
    assert_eq!(
        back[0].center_pts.pts,
        vec![Pt { x: -50_000, y: 0 }, Pt { x: -5_004, y: 0 }]
    );
    assert_eq!(
        back[1].center_pts.pts,
        vec![Pt { x: 0, y: -50_000 }, Pt { x: 0, y: -5_004 }]
    );
    // a structurally unusable set is surfaced
    let err = roundtrip_geojson(99, Vec::new()).unwrap_err();
    assert!(matches!(err, raw_map::geometry::Error::EmptyIntersection { .. }));
}
