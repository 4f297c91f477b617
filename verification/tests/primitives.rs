//! Geometric primitives: integer square roots, polyline arc operations,
//! simple-ring checking, areas and hulls.

use raw_map::num::isqrt;
use raw_map::polyline::PolyLine;
use raw_map::pt::{cross3_of, seg_len_of, segs_intersect_of, Pt};
use raw_map::ring::{all_in_bounds, convex_hull, doubled_area_of, is_simple_of, square_of};

fn pl(pts: Vec<(i64, i64)>) -> PolyLine {
    PolyLine { pts: pts.into_iter().map(|(x, y)| Pt { x, y }).collect() }
}

#[test]
fn isqrt_floors() {
    assert_eq!(isqrt(0), 0);
    assert_eq!(isqrt(1), 1);
    assert_eq!(isqrt(3), 1);
    assert_eq!(isqrt(4), 2);
    assert_eq!(isqrt(99), 9);
    assert_eq!(isqrt(100), 10);
    assert_eq!(isqrt(u64::MAX), 0xffff_ffff);
}

#[test]
fn polyline_lengths_and_points() {
    let p = pl(vec![(0, 0), (3_000, 4_000), (3_000, 14_000)]);
    assert_eq!(p.length(), 15_000);
    assert_eq!(seg_len_of(&Pt { x: 0, y: 0 }, &Pt { x: 3_000, y: 4_000 }), 5_000);
    assert_eq!(p.point_at(0), Pt { x: 0, y: 0 });
    assert_eq!(p.point_at(5_000), Pt { x: 3_000, y: 4_000 });
    assert_eq!(p.point_at(10_000), Pt { x: 3_000, y: 9_000 });
    // past the end it clamps to the last vertex
    assert_eq!(p.point_at(99_000), Pt { x: 3_000, y: 14_000 });
}

#[test]
fn trim_front_removes_exact_arc() {
    let p = pl(vec![(0, 0), (3_000, 4_000), (3_000, 14_000)]);
    let t = p.trim_front(5_000);
    assert_eq!(t.pts, vec![Pt { x: 3_000, y: 4_000 }, Pt { x: 3_000, y: 14_000 }]);
    let t2 = p.trim_front(7_000);
    assert_eq!(
        t2.pts,
        vec![Pt { x: 3_000, y: 6_000 }, Pt { x: 3_000, y: 14_000 }]
    );
    let t0 = p.trim_front(0);
    assert_eq!(t0.pts, p.pts);
    let r = p.reversed();
    assert_eq!(
        r.pts,
        vec![Pt { x: 3_000, y: 14_000 }, Pt { x: 3_000, y: 4_000 }, Pt { x: 0, y: 0 }]
    );
}

#[test]
fn simple_ring_checks() {
    let square = vec![
        Pt { x: 0, y: 0 },
        Pt { x: 1_000, y: 0 },
        Pt { x: 1_000, y: 1_000 },
        Pt { x: 0, y: 1_000 },
    ];
    assert!(is_simple_of(&square));
    assert_eq!(doubled_area_of(&square), 2_000_000);
    let bowtie = vec![
        Pt { x: 0, y: 0 },
        Pt { x: 1_000, y: 1_000 },
        Pt { x: 1_000, y: 0 },
        Pt { x: 0, y: 1_000 },
    ];
    assert!(!is_simple_of(&bowtie));
    let repeated = vec![
        Pt { x: 0, y: 0 },
        Pt { x: 1_000, y: 0 },
        Pt { x: 0, y: 0 },
    ];
    assert!(!is_simple_of(&repeated));
}

#[test]
fn squares_and_hulls() {
    let sq = square_of(&Pt { x: 10, y: -10 }, 500);
    assert!(is_simple_of(&sq));
    assert_eq!(doubled_area_of(&sq), 8 * 500 * 500);
    assert!(all_in_bounds(&sq, 1_000));
    let cloud = vec![
        Pt { x: 0, y: 0 },
        Pt { x: 2_000, y: 100 },
        Pt { x: 900, y: 300 },
        Pt { x: 1_000, y: 2_000 },
        Pt { x: 100, y: 1_000 },
    ];
    let hull = convex_hull(&cloud).unwrap();
    assert!(is_simple_of(&hull));
    // the interior point is gone
    assert!(!hull.contains(&Pt { x: 900, y: 300 }));
    assert_eq!(hull.len(), 4);
}

#[test]
fn segment_predicates() {
    let o = Pt { x: 0, y: 0 };
    let a = Pt { x: 1_000, y: 0 };
    let b = Pt { x: 0, y: 1_000 };
    assert_eq!(cross3_of(&o, &a, &b), 1_000_000);
    assert_eq!(cross3_of(&o, &b, &a), -1_000_000);
    assert!(segs_intersect_of(
        &Pt { x: -500, y: -500 },
        &Pt { x: 500, y: 500 },
        &Pt { x: -500, y: 500 },
        &Pt { x: 500, y: -500 }
    ));
    assert!(!segs_intersect_of(
        &Pt { x: 0, y: 0 },
        &Pt { x: 1_000, y: 0 },
        &Pt { x: 0, y: 100 },
        &Pt { x: 1_000, y: 100 }
    ));
}
