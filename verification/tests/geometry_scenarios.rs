//! Whole-pipeline scenarios: perpendicular roads, a symmetric three-way
//! junction, a narrow road meeting a wide one, dead ends, and the
//! structural error cases.

use raw_map::geometry::{
    boundaries_clear, boundaries_overlap, boundary_curves, intersection_polygon_v2, Error,
    InputRoad, OriginalRoad,
};
use raw_map::polyline::PolyLine;
use raw_map::pt::Pt;
use raw_map::ring::doubled_area_of;

fn pl(pts: Vec<(i64, i64)>) -> PolyLine {
    PolyLine { pts: pts.into_iter().map(|(x, y)| Pt { x, y }).collect() }
}

fn road(way: i64, i1: i64, i2: i64, pts: Vec<(i64, i64)>, w: i64) -> InputRoad {
    InputRoad { id: OriginalRoad { osm_way_id: way, i1, i2 }, center_pts: pl(pts), half_width: w }
}

/// Two 50 m roads of half-width 5 m meeting at a right angle: each is
/// trimmed by 5 m (plus the rounding guard) and the polygon spans the
/// junction with about 100 square meters.
#[test]
fn two_roads_right_angle() {
    let a = road(1, 10, 99, vec![(-50_000, 0), (0, 0)], 5_000);
    let b = road(2, 20, 99, vec![(0, -50_000), (0, 0)], 5_000);
    let res = intersection_polygon_v2(99, vec![a, b]).unwrap();
    assert_eq!(res.intersection_id, 99);
    // each road trimmed by 5 m from the node end, far end untouched
    assert_eq!(res.trimmed_center_pts.len(), 2);
    assert_eq!(res.trimmed_center_pts[0].0, OriginalRoad { osm_way_id: 1, i1: 10, i2: 99 });
    assert_eq!(
        res.trimmed_center_pts[0].1.pts,
        vec![Pt { x: -50_000, y: 0 }, Pt { x: -5_004, y: 0 }]
    );
    assert_eq!(
        res.trimmed_center_pts[1].1.pts,
        vec![Pt { x: 0, y: -50_000 }, Pt { x: 0, y: -5_004 }]
    );
    // the polygon spans the junction: about 100 square meters
    let poly = &res.intersection_polygon.points;
    assert!(poly.len() >= 4);
    assert!(poly.contains(&Pt { x: 5_000, y: 5_000 }));
    let area2 = doubled_area_of(poly).abs();
    assert!((198_000_000..=202_000_000).contains(&area2)); // about twice 100 m^2, in mm^2
    // after trimming, the boundary curves of the two roads no longer cross
    // inside the trimmed region; they only touch at the junction corner
    let ta = &res.trimmed_center_pts[0].1;
    let tb = &res.trimmed_center_pts[1].1;
    assert!(!boundaries_overlap(ta, 5_000, tb, 5_000));
    // re-running the whole pipeline on the same inputs is bit-identical
    let a2 = road(1, 10, 99, vec![(-50_000, 0), (0, 0)], 5_000);
    let b2 = road(2, 20, 99, vec![(0, -50_000), (0, 0)], 5_000);
    let res2 = intersection_polygon_v2(99, vec![a2, b2]).unwrap();
    assert_eq!(res.intersection_polygon.points, res2.intersection_polygon.points);
    for k in 0..2 {
        assert_eq!(res.trimmed_center_pts[k].1.pts, res2.trimmed_center_pts[k].1.pts);
    }
}

/// Three roads at 120 degrees with equal half-widths: all three trims agree
/// up to rounding and the polygon is a hexagon-like simple ring.
#[test]
fn three_roads_symmetric() {
    let r1 = road(1, 11, 7, vec![(50_000, 0), (0, 0)], 4_000);
    let r2 = road(2, 12, 7, vec![(-25_000, 43_301), (0, 0)], 4_000);
    let r3 = road(3, 13, 7, vec![(-25_000, -43_301), (0, 0)], 4_000);
    let res = intersection_polygon_v2(7, vec![r1, r2, r3]).unwrap();
    let mut trims = Vec::new();
    for k in 0..3 {
        let t = &res.trimmed_center_pts[k].1;
        assert_eq!(t.pts.len(), 2);
        // arc removed at the node end
        let kept = t.pts[1];
        let trimmed_len =
            (((kept.x as f64).powi(2) + (kept.y as f64).powi(2)) as f64).sqrt() as i64;
        trims.push(trimmed_len);
    }
    // w / tan(60 deg) is about 2309 mm; symmetry up to integer rounding
    for t in &trims {
        assert!((2_200..=2_450).contains(t), "trim {t} out of range");
    }
    assert!((trims[0] - trims[1]).abs() <= 20);
    assert!((trims[1] - trims[2]).abs() <= 20);
    assert!(res.intersection_polygon.points.len() >= 6);
    // no pair of trimmed roads keeps overlapping boundary curves
    for (p, q) in [(0, 1), (1, 2), (0, 2)] {
        assert!(!boundaries_overlap(
            &res.trimmed_center_pts[p].1,
            4_000,
            &res.trimmed_center_pts[q].1,
            4_000
        ));
    }
    let area2 = doubled_area_of(&res.intersection_polygon.points);
    assert!(area2 != 0);
}

/// A 1 m half-width road meeting a 20 m half-width road nearly head-on:
/// the narrow road is trimmed to its length-based cap, not to nothing.
#[test]
fn narrow_road_capped() {
    let narrow = road(1, 10, 99, vec![(-20_000, 0), (0, 0)], 1_000);
    let wide = road(2, 99, 20, vec![(0, 0), (50_000, 10_000)], 20_000);
    let res = intersection_polygon_v2(99, vec![narrow, wide]).unwrap();
    // cap = nine tenths of 20 m = 18 m of trim, so 2 m of center-line remain
    assert_eq!(
        res.trimmed_center_pts[0].1.pts,
        vec![Pt { x: -20_000, y: 0 }, Pt { x: -18_000, y: 0 }]
    );
    // the wide road is not trimmed at all
    assert_eq!(
        res.trimmed_center_pts[1].1.pts,
        vec![Pt { x: 0, y: 0 }, Pt { x: 50_000, y: 10_000 }]
    );
    // what is left of the narrow road lies clear of the wide road's edges
    assert!(!boundaries_overlap(
        &res.trimmed_center_pts[0].1,
        1_000,
        &res.trimmed_center_pts[1].1,
        20_000
    ));
}

/// A dead end of half-width 3 m: a positive-area cap, no bigger than the
/// bound the half-width allows.
#[test]
fn dead_end_cap() {
    let only = road(5, 7, 8, vec![(0, 0), (0, 30_000)], 3_000);
    let res = intersection_polygon_v2(7, vec![only]).unwrap();
    // untrimmed: nothing constrains a dead end
    assert_eq!(
        res.trimmed_center_pts[0].1.pts,
        vec![Pt { x: 0, y: 0 }, Pt { x: 0, y: 30_000 }]
    );
    let poly = &res.intersection_polygon.points;
    let area2 = doubled_area_of(poly).abs();
    assert!(area2 > 0);
    assert!(area2 <= 18 * 3_000 * 3_000);
    // the cap rectangle spans the roadbed width just past the end
    assert_eq!(poly.len(), 4);
    assert!(poly.contains(&Pt { x: 3_000, y: 0 }));
    assert!(poly.contains(&Pt { x: -3_000, y: 0 }));
    assert!(poly.contains(&Pt { x: 3_000, y: -3_000 }));
    assert!(poly.contains(&Pt { x: -3_000, y: -3_000 }));
}

/// The boundary curves of a single road, and the boundary-clearance check
/// on two far-apart roads.
#[test]
fn boundaries() {
    let r = road(1, 10, 99, vec![(-50_000, 0), (0, 0)], 5_000);
    let (left, right) = boundary_curves(&r).unwrap();
    assert_eq!(left.pts, vec![Pt { x: -50_000, y: 5_000 }, Pt { x: 0, y: 5_000 }]);
    assert_eq!(right.pts, vec![Pt { x: -50_000, y: -5_000 }, Pt { x: 0, y: -5_000 }]);
    // two parallel roads far apart never touch
    let a = pl(vec![(0, 0), (10_000, 0)]);
    let b = pl(vec![(0, 50_000), (10_000, 50_000)]);
    assert!(boundaries_clear(&a, 1_000, &b, 1_000));
    // a road cutting across the first one touches it
    let c = pl(vec![(5_000, -10_000), (5_000, 10_000)]);
    assert!(!boundaries_clear(&a, 1_000, &c, 1_000));
}

/// A degenerate road fails the computation for its whole node.
#[test]
fn degenerate_road_rejected() {
    let bad = road(1, 10, 99, vec![(-50_000, 0), (0, 0)], 0);
    let err = intersection_polygon_v2(99, vec![bad]).unwrap_err();
    assert_eq!(err, Error::DegenerateInput { road: OriginalRoad { osm_way_id: 1, i1: 10, i2: 99 } });
}

/// An empty road set is structurally unusable.
#[test]
fn empty_intersection_rejected() {
    let err = intersection_polygon_v2(42, Vec::new()).unwrap_err();
    assert_eq!(err, Error::EmptyIntersection { intersection_id: 42 });
}

/// A road not incident to the node, a loop onto the node, and a repeated
/// identifier are all structural failures.
#[test]
fn structural_failures() {
    let stray = road(1, 10, 20, vec![(-50_000, 0), (0, 0)], 5_000);
    assert!(matches!(
        intersection_polygon_v2(99, vec![stray]),
        Err(Error::DegenerateInput { .. })
    ));
    let lasso = road(1, 99, 99, vec![(-50_000, 0), (0, 0)], 5_000);
    assert!(matches!(
        intersection_polygon_v2(99, vec![lasso]),
        Err(Error::DegenerateInput { .. })
    ));
    let a = road(1, 10, 99, vec![(-50_000, 0), (0, 0)], 5_000);
    let b = road(1, 10, 99, vec![(0, -50_000), (0, 0)], 5_000);
    assert!(matches!(
        intersection_polygon_v2(99, vec![a, b]),
        Err(Error::DegenerateInput { .. })
    ));
    let short = road(1, 10, 99, vec![(0, 0)], 5_000);
    assert!(matches!(
        intersection_polygon_v2(99, vec![short]),
        Err(Error::DegenerateInput { .. })
    ));
}

/// A straight pass-through (two opposite roads): the facing boundaries
/// only touch at the node corners, so each side gives up just the rounding
/// guard, and the junction closes with a thin seam polygon.
#[test]
fn pass_through_keeps_roads() {
    let west = road(1, 10, 99, vec![(-50_000, 0), (0, 0)], 5_000);
    let east = road(2, 99, 20, vec![(0, 0), (50_000, 0)], 5_000);
    let res = intersection_polygon_v2(99, vec![west, east]).unwrap();
    assert_eq!(
        res.trimmed_center_pts[0].1.pts,
        vec![Pt { x: -50_000, y: 0 }, Pt { x: -4, y: 0 }]
    );
    assert_eq!(
        res.trimmed_center_pts[1].1.pts,
        vec![Pt { x: 4, y: 0 }, Pt { x: 50_000, y: 0 }]
    );
    let poly = &res.intersection_polygon.points;
    assert!(poly.len() >= 3);
    let area2 = doubled_area_of(poly).abs();
    assert!(area2 > 0);
    assert!(!boundaries_overlap(
        &res.trimmed_center_pts[0].1,
        5_000,
        &res.trimmed_center_pts[1].1,
        5_000
    ));
}

/// Two roads leaving the node on the same ray: no finite boundary crossing
/// exists, so both fall back to their caps.
#[test]
fn shared_ray_is_inconclusive() {
    let long = road(1, 99, 10, vec![(0, 0), (-50_000, 0)], 5_000);
    let short = road(2, 99, 20, vec![(0, 0), (-30_000, 0)], 5_000);
    let res = intersection_polygon_v2(99, vec![long, short]).unwrap();
    // both trimmed by the guard, 25 m
    assert_eq!(
        res.trimmed_center_pts[0].1.pts,
        vec![Pt { x: -25_000, y: 0 }, Pt { x: -50_000, y: 0 }]
    );
    assert_eq!(
        res.trimmed_center_pts[1].1.pts,
        vec![Pt { x: -25_000, y: 0 }, Pt { x: -30_000, y: 0 }]
    );
}

/// A dead-end hairpin: the road's own left and right boundaries cross near
/// the bend, which forces a trim even with no sibling roads.
#[test]
fn hairpin_self_intersection_trims() {
    let hairpin = road(1, 7, 8, vec![(0, 0), (20_000, 0), (0, 1)], 2_000);
    let res = intersection_polygon_v2(7, vec![hairpin]).unwrap();
    let out = &res.trimmed_center_pts[0].1;
    // something was trimmed at the node end
    assert!(out.pts[0] != Pt { x: 0, y: 0 });
    // and the far end is untouched
    assert_eq!(*out.pts.last().unwrap(), Pt { x: 0, y: 1 });
}

/// A four-way crossing of equal widths: all four trims agree and the
/// polygon is a simple ring around the node.
#[test]
fn four_way_crossing() {
    let n = road(1, 11, 9, vec![(0, 50_000), (0, 0)], 5_000);
    let s = road(2, 12, 9, vec![(0, -50_000), (0, 0)], 5_000);
    let e = road(3, 13, 9, vec![(50_000, 0), (0, 0)], 5_000);
    let w = road(4, 14, 9, vec![(-50_000, 0), (0, 0)], 5_000);
    let res = intersection_polygon_v2(9, vec![n, s, e, w]).unwrap();
    for k in 0..4 {
        let kept = res.trimmed_center_pts[k].1.pts[1];
        let dist = kept.x.abs() + kept.y.abs();
        assert_eq!(dist, 5_004, "road {k} trimmed to {dist}");
    }
    let poly = &res.intersection_polygon.points;
    assert!(poly.len() >= 4);
    let area2 = doubled_area_of(poly).abs();
    assert!(area2 > 0);
}

/// Roads given in descending identifier order come back sorted ascending.
#[test]
fn rows_sorted_by_id() {
    let b = road(9, 20, 99, vec![(0, -50_000), (0, 0)], 5_000);
    let a = road(2, 10, 99, vec![(-50_000, 0), (0, 0)], 5_000);
    let res = intersection_polygon_v2(99, vec![b, a]).unwrap();
    assert_eq!(res.trimmed_center_pts[0].0, OriginalRoad { osm_way_id: 2, i1: 10, i2: 99 });
    assert_eq!(res.trimmed_center_pts[1].0, OriginalRoad { osm_way_id: 9, i1: 20, i2: 99 });
    assert_eq!(
        res.trimmed_center_pts[0].1.pts,
        vec![Pt { x: -50_000, y: 0 }, Pt { x: -5_004, y: 0 }]
    );
    assert_eq!(
        res.trimmed_center_pts[1].1.pts,
        vec![Pt { x: 0, y: -50_000 }, Pt { x: 0, y: -5_004 }]
    );
}
