//! Color scales: bucket selection and interpolation in parts per million,
//! and sampling a colorous gradient.

use raw_map::colors::{Color, ColorScale};

const BLACK: Color = Color { r: 0, g: 0, b: 0, a: 255 };
const WHITE: Color = Color { r: 255, g: 255, b: 255, a: 255 };
const RED: Color = Color { r: 255, g: 0, b: 0, a: 255 };

#[test]
fn test_scale() {
    let two = ColorScale(vec![BLACK, WHITE]);
    assert_eq!(two.inner_eval(0), (0, 0));
    assert_eq!(two.inner_eval(500_000), (0, 500_000));
    assert_eq!(two.inner_eval(1_000_000), (0, 1_000_000));

    let three = ColorScale(vec![BLACK, RED, WHITE]);
    assert_eq!(three.inner_eval(0), (0, 0));
    assert_eq!(three.inner_eval(200_000), (0, 400_000));
    assert_eq!(three.inner_eval(500_000), (1, 0));
    assert_eq!(three.inner_eval(700_000), (1, 400_000));
    assert_eq!(three.inner_eval(1_000_000), (1, 1_000_000));

    // just below a bucket boundary stays in the earlier bucket
    let four = ColorScale(vec![BLACK, RED, RED, WHITE]);
    assert_eq!(four.inner_eval(333_333), (0, 999_999));
    assert_eq!(four.inner_eval(333_334), (1, 2));
}

#[test]
fn eval_interpolates_channels() {
    let two = ColorScale(vec![BLACK, WHITE]);
    assert_eq!(two.eval(0), BLACK);
    assert_eq!(two.eval(1_000_000), WHITE);
    let mid = two.eval(500_000);
    assert_eq!((mid.r, mid.g, mid.b, mid.a), (127, 127, 127, 255));
    let three = ColorScale(vec![BLACK, RED, WHITE]);
    let q = three.eval(250_000);
    assert_eq!((q.r, q.g, q.b), (127, 0, 0));
}

#[test]
fn from_colorous_samples_the_gradient() {
    let scale = ColorScale::from_colorous(colorous::VIRIDIS);
    assert_eq!(scale.0.len(), 7);
    // the scale really samples the gradient: its ends match colorous
    let first = colorous::VIRIDIS.eval_rational(0, 7);
    let last = colorous::VIRIDIS.eval_rational(6, 7);
    assert_eq!((scale.0[0].r, scale.0[0].g, scale.0[0].b), (first.r, first.g, first.b));
    assert_eq!((scale.0[6].r, scale.0[6].g, scale.0[6].b), (last.r, last.g, last.b));
    assert_ne!(scale.0[0], scale.0[6]);
    // another gradient gives other stops
    let other = ColorScale::from_colorous(colorous::TURBO);
    assert_ne!(scale.0, other.0);
}
