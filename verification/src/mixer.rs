use vstd::prelude::*;
use crate::color::Color;
use crate::arith::{mix1d, spec_mix1d, lemma_mix1d_endpoints, MIX_W_BOUND};
use crate::convert::{
    Lab, SCALE, lab_of, rgb_of_lab, xyz_y_of, ln_scaled_of, exp_scaled_of, lab_l_of_y,
    lab_from_rgb, rgb_from_lab, xyz_y_from_rgb, ln_scaled, exp_scaled, lab_l_from_y,
};

verus! {

/// The luminance contrast of a color, in micro-units: ln(Y + 0.05), the log
/// form that keeps the value finite as Y approaches 0.
pub open spec fn contrast_of_color(c: Color) -> int {
    ln_scaled_of(xyz_y_of(c.r, c.g, c.b) + 50_000)
}

/// The channels the mixer returns at weight w permille: contrast is
/// interpolated linearly and inverted to a luminance, only L* is derived
/// from that luminance, a* and b* are interpolated directly, and the
/// composed Lab value is converted back to clamped sRGB.
pub open spec fn mix_model(c1: Color, c2: Color, w: int) -> (u8, u8, u8) {
    let ct = spec_mix1d(contrast_of_color(c1), contrast_of_color(c2), w);
    let y3 = exp_scaled_of(ct) - 50_000;
    let lab1 = lab_of(c1.r, c1.g, c1.b);
    let lab2 = lab_of(c2.r, c2.g, c2.b);
    rgb_of_lab(
        lab_l_of_y(y3),
        spec_mix1d(lab1.1, lab2.1, w),
        spec_mix1d(lab1.2, lab2.2, w),
    )
}

/// The channels the mixer returns when interpolation is degenerate: the
/// endpoint itself, sent once through the contrast pipeline. Up to float
/// rounding this is the endpoint unchanged (exercised by tests); the
/// boundary law below reduces the mixer's endpoints to this form.
pub open spec fn remix(c: Color) -> (u8, u8, u8) {
    let lab = lab_of(c.r, c.g, c.b);
    rgb_of_lab(lab_l_of_y(exp_scaled_of(contrast_of_color(c)) - 50_000), lab.1, lab.2)
}

/// Mixer boundary law: at weight 0 the mix is the first color sent through
/// the degenerate pipeline, at weight 1000 (one) the second, and a color
/// mixed with itself stays on the degenerate pipeline at every weight.
pub proof fn lemma_mix_model_boundary(c1: Color, c2: Color, w: int)
    ensures
        mix_model(c1, c2, 0) == remix(c1),
        mix_model(c1, c2, 1000) == remix(c2),
        mix_model(c1, c1, w) == remix(c1),
{
    let lab1 = lab_of(c1.r, c1.g, c1.b);
    let lab2 = lab_of(c2.r, c2.g, c2.b);
    lemma_mix1d_endpoints(contrast_of_color(c1), contrast_of_color(c2), w);
    lemma_mix1d_endpoints(lab1.1, lab2.1, w);
    lemma_mix1d_endpoints(lab1.2, lab2.2, w);
}

/// Blends two colors at a permille ratio with contrast-preserving
/// interpolation: relative luminance contrast varies linearly in the
/// weight. Weights outside [0, 1000] extrapolate and are not rejected.
pub fn mix(c1: &Color, c2: &Color, w: i64) -> (c: Color)
    requires
        -MIX_W_BOUND <= w <= MIX_W_BOUND,
    ensures
        (c.r, c.g, c.b) == mix_model(*c1, *c2, w as int),
{
    let y1 = xyz_y_from_rgb(c1);
    let y2 = xyz_y_from_rgb(c2);
    let ct1 = ln_scaled(y1 + 50_000);
    let ct2 = ln_scaled(y2 + 50_000);
    let ct3 = mix1d(ct1, ct2, w);
    let y3 = exp_scaled(ct3) - 50_000;
    let l3 = lab_l_from_y(y3);
    let lab1 = lab_from_rgb(c1);
    let lab2 = lab_from_rgb(c2);
    let a3 = mix1d(lab1.a, lab2.a, w);
    let b3 = mix1d(lab1.b, lab2.b, w);
    rgb_from_lab(&Lab { l: l3, a: a3, b: b3 })
}

} // verus!
