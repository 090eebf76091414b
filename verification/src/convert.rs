use vstd::prelude::*;
use crate::color::Color;
use palette::IntoColor;
use palette::convert::IntoColorUnclamped;
use num_traits::cast::cast;
use num_traits::cast::ToPrimitive;
use num_traits::zero;

verus! {

/// Fixed-point scale: one unit of a color coordinate (an L*, a* or b* step,
/// or the whole of the XYZ luminance range) is `SCALE` micro-units.
pub const SCALE: i64 = 1_000_000;

/// A full circle of hue angle, in angle units (one unit is a millidegree).
pub const TURN: u32 = 3_600_000;

/// Bound within which every Lab coordinate of the generator's pipeline stays,
/// in micro-units.
pub const LAB_BOUND: i64 = 1_000 * SCALE;

/// A CIE Lab coordinate triple in micro-units: `l` is 1e6 times L*, and so on.
/// Lab values carry conversion rounding error and are working data, never
/// compared for exact equality across different derivations.
#[derive(Clone, Copy, Debug, PartialEq, Eq, Structural)]
pub struct Lab {
    pub l: i64,
    pub a: i64,
    pub b: i64,
}

/// All coordinates within the pipeline bound.
pub open spec fn lab_wf(v: Lab) -> bool {
    &&& -LAB_BOUND <= v.l <= LAB_BOUND
    &&& -LAB_BOUND <= v.a <= LAB_BOUND
    &&& -LAB_BOUND <= v.b <= LAB_BOUND
}

/// The micro-unit Lab triple that the sRGB color (r, g, b) converts to.
pub uninterp spec fn lab_of(r: u8, g: u8, b: u8) -> (int, int, int);

/// Relies on palette's sRGB -> CIE Lab (D65) conversion: the result is a
/// function of the three channels alone; L* lies in [0, 100] and a*, b*
/// within the documented [-128, 127] axes (sRGB stays well inside), stated
/// here with rounding slack. Like every named float result here, equal
/// arguments give equal results within any one build; float rounding may
/// differ between platforms.
#[verifier::external_body]
pub fn lab_from_rgb(c: &Color) -> (v: Lab)
    ensures
        (v.l as int, v.a as int, v.b as int) == lab_of(c.r, c.g, c.b),
        -SCALE <= v.l <= 101 * SCALE,
        -129 * SCALE <= v.a <= 129 * SCALE,
        -129 * SCALE <= v.b <= 129 * SCALE,
{
    let pin: palette::Lab = palette::Lab::new(cast(SCALE).unwrap_or(zero()), zero(), zero());
    let srgb: palette::Srgb = palette::Srgb::new(c.r, c.g, c.b).into_format();
    let lab: palette::Lab = srgb.into_color();
    Lab {
        l: (lab.l * pin.l).to_i64().unwrap_or(0),
        a: (lab.a * pin.l).to_i64().unwrap_or(0),
        b: (lab.b * pin.l).to_i64().unwrap_or(0),
    }
}

/// The sRGB channels that the micro-unit Lab triple (l, a, b) converts to.
pub uninterp spec fn rgb_of_lab(l: int, a: int, b: int) -> (u8, u8, u8);

/// Relies on palette's clamped CIE Lab -> sRGB conversion and its rounding
/// u8 component cast: out-of-gamut coordinates are clamped component-wise.
#[verifier::external_body]
pub fn rgb_from_lab(v: &Lab) -> (c: Color)
    ensures
        (c.r, c.g, c.b) == rgb_of_lab(v.l as int, v.a as int, v.b as int),
{
    let pin: palette::Lab = palette::Lab::new(cast(SCALE).unwrap_or(zero()), zero(), zero());
    let vv: palette::Lab = palette::Lab::new(
        cast(v.l).unwrap_or(zero()),
        cast(v.a).unwrap_or(zero()),
        cast(v.b).unwrap_or(zero()),
    );
    let lab: palette::Lab = palette::Lab::new(vv.l / pin.l, vv.a / pin.l, vv.b / pin.l);
    let srgb: palette::Srgb = lab.into_color();
    let out: palette::Srgb<u8> = srgb.into_format();
    Color { r: out.red, g: out.green, b: out.blue }
}

/// The micro-unit XYZ luminance (Y) of the sRGB color (r, g, b).
pub uninterp spec fn xyz_y_of(r: u8, g: u8, b: u8) -> int;

/// Relies on palette's sRGB -> XYZ (D65) conversion: Y is the relative
/// luminance, 0 for black and 1 for white, stated with rounding slack.
#[verifier::external_body]
pub fn xyz_y_from_rgb(c: &Color) -> (y: i64)
    ensures
        y == xyz_y_of(c.r, c.g, c.b),
        0 <= y <= SCALE + 1000,
{
    let pin: palette::Lab = palette::Lab::new(cast(SCALE).unwrap_or(zero()), zero(), zero());
    let srgb: palette::Srgb = palette::Srgb::new(c.r, c.g, c.b).into_format();
    let xyz: palette::Xyz = srgb.into_color();
    (xyz.y * pin.l).to_i64().unwrap_or(0)
}

/// The micro-unit natural logarithm of v micro-units: ln(v / SCALE) * SCALE.
pub uninterp spec fn ln_scaled_of(v: int) -> int;

/// Relies on f32::ln, in and out in micro-units; a fixed function of its
/// argument within any one build. The bound is ln's value range over the
/// stated input window.
#[verifier::external_body]
pub fn ln_scaled(v: i64) -> (r: i64)
    requires
        1 <= v,
    ensures
        r == ln_scaled_of(v as int),
        SCALE / 100 <= v <= 2 * SCALE ==> -5 * SCALE <= r <= SCALE,
{
    let pin: palette::Lab = palette::Lab::new(cast(SCALE).unwrap_or(zero()), zero(), zero());
    let vv: palette::Lab = palette::Lab::new(cast(v).unwrap_or(zero()), zero(), zero());
    let x = vv.l / pin.l;
    (x.ln() * pin.l).to_i64().unwrap_or(0)
}

/// The micro-unit exponential of v micro-units: exp(v / SCALE) * SCALE.
pub uninterp spec fn exp_scaled_of(v: int) -> int;

/// Relies on f32::exp, in and out in micro-units; a fixed function of its
/// argument within any one build. The exponential is never negative (an
/// infinite float falls to 0 in the integer cast).
#[verifier::external_body]
pub fn exp_scaled(v: i64) -> (r: i64)
    ensures
        r == exp_scaled_of(v as int),
        0 <= r,
{
    let pin: palette::Lab = palette::Lab::new(cast(SCALE).unwrap_or(zero()), zero(), zero());
    let vv: palette::Lab = palette::Lab::new(cast(v).unwrap_or(zero()), zero(), zero());
    let x = vv.l / pin.l;
    (x.exp() * pin.l).to_i64().unwrap_or(0)
}

/// The micro-unit L* of the XYZ color (0, y / SCALE, 0).
pub uninterp spec fn lab_l_of_y(y: int) -> int;

/// Relies on palette's unclamped XYZ -> CIE Lab conversion applied to
/// (0, y, 0): only L* is read.
#[verifier::external_body]
pub fn lab_l_from_y(y: i64) -> (r: i64)
    ensures
        r == lab_l_of_y(y as int),
{
    let pin: palette::Lab = palette::Lab::new(cast(SCALE).unwrap_or(zero()), zero(), zero());
    let yy: palette::Lab = palette::Lab::new(cast(y).unwrap_or(zero()), zero(), zero());
    let xyz: palette::Xyz = palette::Xyz::new(pin.l - pin.l, yy.l / pin.l, pin.l - pin.l);
    let lab: palette::Lab = xyz.into_color_unclamped();
    (lab.l * pin.l).to_i64().unwrap_or(0)
}

/// The hue angle, in angle units, of the Lab plane offset (da, db) in
/// micro-units.
pub uninterp spec fn angle_of(da: int, db: int) -> int;

/// Relies on f32::atan2 called as atan2(da, db), the decomposition the
/// generator uses, brought from (-pi, pi] to at most one full circle of
/// angle units; a result of exactly TURN can arise from float rounding.
/// A fixed function of its arguments within any one build.
#[verifier::external_body]
pub fn angle_from_offsets(da: i64, db: i64) -> (t: u32)
    ensures
        t == angle_of(da as int, db as int),
        t <= TURN,
{
    let pin: palette::Lab = palette::Lab::new(cast(SCALE).unwrap_or(zero()), zero(), zero());
    let off: palette::Lab = palette::Lab::new(
        cast(da).unwrap_or(zero()),
        cast(db).unwrap_or(zero()),
        cast(TURN as i64).unwrap_or(zero()),
    );
    let one = pin.l / pin.l;
    let pi = (one - one).atan2(-one);
    let turns = (off.l / pin.l).atan2(off.a / pin.l).rem_euclid(pi + pi) / (pi + pi);
    (turns * off.b).to_u32().unwrap_or(0)
}

/// The micro-unit cosine of the angle of t angle units.
pub uninterp spec fn cos_of(t: int) -> int;

/// The micro-unit sine of the angle of t angle units.
pub uninterp spec fn sin_of(t: int) -> int;

/// Relies on f32::cos over the angle t / TURN of a full circle; a cosine
/// never exceeds 1 in magnitude. A fixed function of its argument within
/// any one build.
#[verifier::external_body]
pub fn cos_from_turn(t: u32) -> (r: i64)
    ensures
        r == cos_of(t as int),
        -SCALE <= r <= SCALE,
{
    let pin: palette::Lab = palette::Lab::new(cast(SCALE).unwrap_or(zero()), zero(), zero());
    let tt: palette::Lab = palette::Lab::new(
        cast(t as i64).unwrap_or(zero()),
        cast(TURN as i64).unwrap_or(zero()),
        zero(),
    );
    let one = pin.l / pin.l;
    let pi = (one - one).atan2(-one);
    ((tt.l / tt.a * (pi + pi)).cos() * pin.l).to_i64().unwrap_or(0)
}

/// Relies on f32::sin over the angle t / TURN of a full circle; a sine
/// never exceeds 1 in magnitude. A fixed function of its argument within
/// any one build.
#[verifier::external_body]
pub fn sin_from_turn(t: u32) -> (r: i64)
    ensures
        r == sin_of(t as int),
        -SCALE <= r <= SCALE,
{
    let pin: palette::Lab = palette::Lab::new(cast(SCALE).unwrap_or(zero()), zero(), zero());
    let tt: palette::Lab = palette::Lab::new(
        cast(t as i64).unwrap_or(zero()),
        cast(TURN as i64).unwrap_or(zero()),
        zero(),
    );
    let one = pin.l / pin.l;
    let pi = (one - one).atan2(-one);
    ((tt.l / tt.a * (pi + pi)).sin() * pin.l).to_i64().unwrap_or(0)
}

} // verus!
