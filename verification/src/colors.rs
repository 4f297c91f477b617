//! Color scales: evenly spaced color stops sampled by a position given in
//! parts per million of the scale's span, so that picking a bucket and
//! interpolating inside it are exact integer operations.

use vstd::prelude::*;

verus! {

/// A color as four 8-bit channels.
#[derive(Clone, Copy, PartialEq, Eq, Structural, Debug)]
pub struct Color {
    pub r: u8,
    pub g: u8,
    pub b: u8,
    pub a: u8,
}

impl Color {
    /// An opaque color from its three channels.
    pub fn rgb(r: u8, g: u8, b: u8) -> (c: Color)
        ensures
            c == (Color { r, g, b, a: 255u8 }),
    {
        Color { r, g, b, a: 255 }
    }

    /// The same color with another alpha channel.
    pub fn alpha(self, a: u8) -> (c: Color)
        ensures
            c == (Color { a, ..self }),
    {
        Color { a, ..self }
    }
}

/// A position along a scale: parts per million, from 0 to 1_000_000.
pub const SCALE_ONE: i64 = 1_000_000;

/// Which bucket of an `n`-stop scale the position `pct` falls in, and how
/// far through it, in parts per million of the bucket's width: bucket
/// `floor(pct * (n - 1))` with the fractional part as the position, the
/// last stop folding into the bucket before it, fully traversed.
pub open spec fn inner_eval_spec(n: int, pct: int) -> (int, int) {
    let t: int = pct * (n - 1);
    let low: int = t / 1_000_000;
    if low >= n - 1 {
        (n - 2, 1_000_000)
    } else {
        ((low), (t % 1_000_000))
    }
}

/// One channel linearly interpolated between two stops.
pub open spec fn lerp_channel(c1: int, c2: int, f: int) -> int {
    (c1 * (1_000_000 - f) + c2 * f) / 1_000_000
}

/// A scale of evenly spaced color stops.
#[derive(Clone, PartialEq, Eq, Debug)]
pub struct ColorScale(pub Vec<Color>);

impl ColorScale {
    /// Exact evaluation of `inner_eval_spec`: the bucket and the position
    /// inside it.
    pub fn inner_eval(&self, pct: i64) -> (r: (usize, i64))
        requires
            2 <= self.0@.len() <= 1_000_000,
            0 <= pct <= SCALE_ONE,
        ensures
            r.0 as int == inner_eval_spec(self.0@.len() as int, pct as int).0,
            r.1 as int == inner_eval_spec(self.0@.len() as int, pct as int).1,
            r.0 < self.0@.len() - 1,
            0 <= r.1 <= SCALE_ONE,
    {
        let n = self.0.len();
        proof {
            assert(0 <= (pct as int) * (n as int - 1) <= 1_000_000_000_000int)
                by (nonlinear_arith)
                requires
                    0 <= pct <= 1_000_000,
                    2 <= n <= 1_000_000,
            ;
            assert(0 <= ((pct as int) * (n as int - 1)) / 1_000_000 && ((pct as int) * (n as int
                - 1)) / 1_000_000 <= n as int - 1 && 0 <= ((pct as int) * (n as int - 1))
                % 1_000_000 < 1_000_000) by (nonlinear_arith)
                requires
                    0 <= pct <= 1_000_000,
                    2 <= n <= 1_000_000,
            ;
        }
        let t = pct * (n as i64 - 1);
        let low = t / 1_000_000;
        if low >= n as i64 - 1 {
            (n - 2, 1_000_000)
        } else {
            ((low as usize), t % 1_000_000)
        }
    }

    /// The color at position `pct` along the scale: the two stops around it
    /// interpolated channel by channel.
    pub fn eval(&self, pct: i64) -> (c: Color)
        requires
            2 <= self.0@.len() <= 1_000_000,
            0 <= pct <= SCALE_ONE,
        ensures
            ({
                let (low, f) = inner_eval_spec(self.0@.len() as int, pct as int);
                &&& c.r as int == lerp_channel(self.0@[low].r as int, self.0@[low + 1].r as int, f)
                &&& c.g as int == lerp_channel(self.0@[low].g as int, self.0@[low + 1].g as int, f)
                &&& c.b as int == lerp_channel(self.0@[low].b as int, self.0@[low + 1].b as int, f)
                &&& c.a as int == lerp_channel(self.0@[low].a as int, self.0@[low + 1].a as int, f)
            }),
    {
        let (low, f) = self.inner_eval(pct);
        let c1 = self.0[low];
        let c2 = self.0[low + 1];
        Color {
            r: lerp_channel_of(c1.r, c2.r, f),
            g: lerp_channel_of(c1.g, c2.g, f),
            b: lerp_channel_of(c1.b, c2.b, f),
            a: lerp_channel_of(c1.a, c2.a, f),
        }
    }

    /// A seven-stop scale sampled from one of the colorous gradients.
    pub fn from_colorous(gradient: colorous::Gradient) -> (r: ColorScale)
        ensures
            r.0@.len() == 7,
            forall|k: int|
                0 <= k < 7 ==> #[trigger] r.0@[k] == (Color {
                    r: gradient_sample(gradient, k, 7).0,
                    g: gradient_sample(gradient, k, 7).1,
                    b: gradient_sample(gradient, k, 7).2,
                    a: 255u8,
                }),
    {
        let mut v: Vec<Color> = Vec::new();
        let mut i: usize = 0;
        while i < 7
            invariant
                0 <= i <= 7,
                v@.len() == i,
                forall|k: int|
                    0 <= k < i ==> #[trigger] v@[k] == (Color {
                        r: gradient_sample(gradient, k, 7).0,
                        g: gradient_sample(gradient, k, 7).1,
                        b: gradient_sample(gradient, k, 7).2,
                        a: 255u8,
                    }),
            decreases 7 - i,
        {
            let (cr, cg, cb) = sample_gradient(&gradient, i, 7);
            v.push(Color { r: cr, g: cg, b: cb, a: 255 });
            i = i + 1;
        }
        ColorScale(v)
    }
}

/// Exact evaluation of `lerp_channel`.
fn lerp_channel_of(c1: u8, c2: u8, f: i64) -> (r: u8)
    requires
        0 <= f <= SCALE_ONE,
    ensures
        r as int == lerp_channel(c1 as int, c2 as int, f as int),
{
    proof {
        assert(0 <= (c1 as int) * (1_000_000 - f as int) + (c2 as int) * (f as int)
            <= 255_000_000int && ((c1 as int) * (1_000_000 - f as int) + (c2 as int) * (f as int))
            / 1_000_000 <= 255) by (nonlinear_arith)
            requires
                0 <= c1 as int <= 255,
                0 <= c2 as int <= 255,
                0 <= f as int <= 1_000_000,
        ;
    }
    (((c1 as i64) * (1_000_000 - f) + (c2 as i64) * f) / 1_000_000) as u8
}

#[verifier::external_type_specification]
#[verifier::external_body]
pub struct ExGradient(colorous::Gradient);

/// The color that a colorous gradient yields at rational position `i / n`:
/// a pure table lookup with interpolation, fixed by the gradient and the
/// two indices alone.
pub uninterp spec fn gradient_sample(g: colorous::Gradient, i: int, n: int) -> (u8, u8, u8);

/// Relies on colorous::Gradient::eval_rational: samples the gradient at
/// position `i / n` (`i` clamped below `n`), a result computed from the
/// arguments alone; panics only when `n` is zero, which the precondition
/// rules out.
#[verifier::external_body]
fn sample_gradient(g: &colorous::Gradient, i: usize, n: usize) -> (r: (u8, u8, u8))
    requires
        n >= 1,
    ensures
        r == gradient_sample(*g, i as int, n as int),
{
    let c = g.eval_rational(i, n);
    (c.r, c.g, c.b)
}

} // verus!
