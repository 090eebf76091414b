use vstd::prelude::*;
use crate::color::Color;
use crate::convert::{
    Lab, SCALE, TURN, LAB_BOUND, lab_wf, lab_of, rgb_of_lab, lab_from_rgb, rgb_from_lab,
    angle_of, cos_of, sin_of, angle_from_offsets, cos_from_turn, sin_from_turn,
};
use vstd::multiset::Multiset;
use crate::arith::{
    tdiv, tdiv_s, div_trunc, div_trunc_s, isqrt64, floor_sqrt, lemma_tdiv_bound,
    lemma_tdiv_quotient_bound,
};
use crate::angles::{get_new_angles, packed_angles_ok};
use crate::rng::{rng_between, rng_flip};
use crate::palette::{Palette, PaletteOption};

verus! {

broadcast use vstd::seq_lib::group_to_multiset_ensures;

/// A color counts as dark when its L* sits below the midpoint of the
/// lightness axis.
pub fn is_dark(c: &Lab) -> (r: bool)
    ensures
        r == (c.l < 50 * SCALE),
{
    c.l < 50 * SCALE
}

/// The lightness-indexed spine between background and foreground: at a
/// lightness strictly between theirs, a* and b* are interpolated weighted
/// by inverse distance on the L* axis; anywhere else the spine is neutral
/// gray at that lightness.
pub open spec fn spec_interpolate(bg: Lab, fg: Lab, l: int) -> (int, int, int) {
    if (bg.l < l) != (fg.l < l) {
        (
            l,
            tdiv_s(fg.a * (l - bg.l), fg.l - bg.l) + tdiv_s(bg.a * (l - fg.l), bg.l - fg.l),
            tdiv_s(fg.b * (l - bg.l), fg.l - bg.l) + tdiv_s(bg.b * (l - fg.l), bg.l - fg.l),
        )
    } else {
        (l, 0, 0)
    }
}

/// Computes the spine point at lightness l, exactly as `spec_interpolate`.
pub fn interpolate(bg: &Lab, fg: &Lab, l: i64) -> (c: Lab)
    requires
        lab_wf(*bg),
        lab_wf(*fg),
        -LAB_BOUND <= l <= LAB_BOUND,
    ensures
        (c.l as int, c.a as int, c.b as int) == spec_interpolate(*bg, *fg, l as int),
        c.l == l,
        -2 * LAB_BOUND <= c.a <= 2 * LAB_BOUND,
        -2 * LAB_BOUND <= c.b <= 2 * LAB_BOUND,
{
    let between = (bg.l < l) != (fg.l < l);
    if !between {
        return Lab { l, a: 0, b: 0 };
    }
    let d = fg.l - bg.l;
    proof {
        assert(d != 0);
        assert(-4 * LAB_BOUND * LAB_BOUND <= fg.a * (l - bg.l) <= 4 * LAB_BOUND * LAB_BOUND
            && -4 * LAB_BOUND * LAB_BOUND <= bg.a * (l - fg.l) <= 4 * LAB_BOUND * LAB_BOUND
            && -4 * LAB_BOUND * LAB_BOUND <= fg.b * (l - bg.l) <= 4 * LAB_BOUND * LAB_BOUND
            && -4 * LAB_BOUND * LAB_BOUND <= bg.b * (l - fg.l) <= 4 * LAB_BOUND * LAB_BOUND)
            by (nonlinear_arith)
            requires
                lab_wf(*bg),
                lab_wf(*fg),
                -LAB_BOUND <= l <= LAB_BOUND,
                LAB_BOUND == 1_000_000_000,
        ;
    }
    let na1 = fg.a * (l - bg.l);
    let na2 = bg.a * (l - fg.l);
    let nb1 = fg.b * (l - bg.l);
    let nb2 = bg.b * (l - fg.l);
    let t_a1 = div_trunc_s(na1, d);
    let t_a2 = div_trunc_s(na2, -d);
    let t_b1 = div_trunc_s(nb1, d);
    let t_b2 = div_trunc_s(nb2, -d);
    proof {
        lemma_interp_term_bound(fg.a as int, l as int, bg.l as int, fg.l as int);
        lemma_interp_term_bound(fg.b as int, l as int, bg.l as int, fg.l as int);
        lemma_interp_term_bound(bg.a as int, l as int, fg.l as int, bg.l as int);
        lemma_interp_term_bound(bg.b as int, l as int, fg.l as int, bg.l as int);
    }
    Lab { l, a: t_a1 + t_a2, b: t_b1 + t_b2 }
}

/// One interpolation term stays within the magnitude of its a*/b* factor:
/// the lightness l lies between lo and hi, so the weight is at most one.
proof fn lemma_interp_term_bound(a: int, l: int, lo: int, hi: int)
    requires
        -LAB_BOUND <= a <= LAB_BOUND,
        hi != lo,
        (lo < l) == !(hi < l) || (lo < l) == (l <= hi),
        lo < l && l <= hi || hi <= l && l < lo || hi < l && l <= lo || lo <= l && l < hi,
    ensures
        -LAB_BOUND <= tdiv_s(a * (l - lo), hi - lo) <= LAB_BOUND,
{
    let num = a * (l - lo);
    let d = hi - lo;
    if d > 0 {
        assert(-(LAB_BOUND * d) <= num <= LAB_BOUND * d) by (nonlinear_arith)
            requires
                -LAB_BOUND <= a <= LAB_BOUND,
                d == hi - lo,
                d > 0,
                num == a * (l - lo),
                0 <= l - lo <= d || -d <= l - lo <= 0 || 0 <= l - lo <= d,
                lo < l && l <= hi || hi <= l && l < lo || hi < l && l <= lo || lo <= l && l < hi,
        ;
        lemma_tdiv_quotient_bound(num, d, LAB_BOUND as int);
    } else {
        assert(-(LAB_BOUND * (-d)) <= -num <= LAB_BOUND * (-d)) by (nonlinear_arith)
            requires
                -LAB_BOUND <= a <= LAB_BOUND,
                d == hi - lo,
                d < 0,
                num == a * (l - lo),
                lo < l && l <= hi || hi <= l && l < lo || hi < l && l <= lo || lo <= l && l < hi,
        ;
        lemma_tdiv_quotient_bound(-num, -d, LAB_BOUND as int);
    }
}

/// Squared distance in the a*/b* plane.
pub open spec fn dist2_of(lab: Lab, base: Lab) -> int {
    (lab.a - base.a) * (lab.a - base.a) + (lab.b - base.b) * (lab.b - base.b)
}

/// The a*/b* offset of a Lab point from a base point, as polar data: the
/// rounded-down Euclidean distance, and the hue angle of the offset.
pub fn length_and_angle(lab: &Lab, base: &Lab) -> (r: (u64, u32))
    requires
        lab_wf(*lab),
        -2 * LAB_BOUND <= base.a <= 2 * LAB_BOUND,
        -2 * LAB_BOUND <= base.b <= 2 * LAB_BOUND,
    ensures
        r.0 == floor_sqrt(dist2_of(*lab, *base)),
        (r.0 * r.0) <= dist2_of(*lab, *base) < (r.0 + 1) * (r.0 + 1),
        r.0 <= 5_000_000_000,
        r.1 == (if angle_of(lab.a - base.a, lab.b - base.b) == TURN {
            0int
        } else {
            angle_of(lab.a - base.a, lab.b - base.b)
        }),
        r.1 < TURN,
{
    let x = lab.a - base.a;
    let y = lab.b - base.b;
    proof {
        assert(0 <= x * x <= 9_000_000_000_000_000_000 && 0 <= y * y
            <= 9_000_000_000_000_000_000) by (nonlinear_arith)
            requires
                -3_000_000_000 <= x <= 3_000_000_000,
                -3_000_000_000 <= y <= 3_000_000_000,
        ;
    }
    let xx = x * x;
    let yy = y * y;
    let d2: u64 = (xx as u64) + (yy as u64);
    let d = isqrt64(d2);
    proof {
        assert(d2 as int == dist2_of(*lab, *base));
        assert(d <= 5_000_000_000) by (nonlinear_arith)
            requires
                d * d <= d2,
                d2 <= 18_000_000_000_000_000_000,
        ;
    }
    let t = angle_from_offsets(x, y);
    let t2: u32 = if t == TURN {
        0
    } else {
        t
    };
    (d, t2)
}

/// Sum and count of the Lab values of the set slots.
pub open spec fn lab_opt_sum(s: Seq<Option<Color>>) -> (int, int, int, int)
    decreases s.len(),
{
    if s.len() == 0 {
        (0, 0, 0, 0)
    } else {
        let p = lab_opt_sum(s.drop_last());
        match s.last() {
            Some(c) => {
                let l = lab_of(c.r, c.g, c.b);
                (p.0 + l.0, p.1 + l.1, p.2 + l.2, p.3 + 1)
            },
            None => p,
        }
    }
}

/// The Lab centroid of the set slots, or nothing when no slot is set.
pub fn get_average_hue(po: &PaletteOption) -> (r: Option<Lab>)
    ensures
        (r is Some) == (lab_opt_sum(po.colors@).3 > 0),
        r matches Some(v) ==> {
            let s = lab_opt_sum(po.colors@);
            &&& v.l == tdiv(s.0, s.3)
            &&& v.a == tdiv(s.1, s.3)
            &&& v.b == tdiv(s.2, s.3)
            &&& lab_wf(v)
        },
{
    let mut sl: i64 = 0;
    let mut sa: i64 = 0;
    let mut sb: i64 = 0;
    let mut count: i64 = 0;
    for i in 0..9usize
        invariant
            po.colors@.len() == 9,
            (sl as int, sa as int, sb as int, count as int) == lab_opt_sum(
                po.colors@.take(i as int),
            ),
            0 <= count <= i,
            -129 * SCALE * count <= sl <= 129 * SCALE * count,
            -129 * SCALE * count <= sa <= 129 * SCALE * count,
            -129 * SCALE * count <= sb <= 129 * SCALE * count,
            -2_000_000_000 <= sl <= 2_000_000_000,
            -2_000_000_000 <= sa <= 2_000_000_000,
            -2_000_000_000 <= sb <= 2_000_000_000,
    {
        proof {
            assert(po.colors@.take(i + 1).drop_last() =~= po.colors@.take(i as int));
            assert(po.colors@.take(i + 1).last() == po.colors@[i as int]);
        }
        match po.colors[i] {
            Some(c) => {
                let v = lab_from_rgb(&c);
                proof {
                    assert(-129 * SCALE * (count + 1) <= sl + v.l <= 129 * SCALE * (count + 1)
                        && -129 * SCALE * (count + 1) <= sa + v.a <= 129 * SCALE * (count + 1)
                        && -129 * SCALE * (count + 1) <= sb + v.b <= 129 * SCALE * (count + 1))
                        by (nonlinear_arith)
                        requires
                            0 <= count,
                            SCALE == 1_000_000,
                            -129 * SCALE * count <= sl <= 129 * SCALE * count,
                            -129 * SCALE * count <= sa <= 129 * SCALE * count,
                            -129 * SCALE * count <= sb <= 129 * SCALE * count,
                            -SCALE <= v.l <= 101 * SCALE,
                            -129 * SCALE <= v.a <= 129 * SCALE,
                            -129 * SCALE <= v.b <= 129 * SCALE,
                    ;
                    assert(129 * SCALE * (count + 1) <= 2_000_000_000) by (nonlinear_arith)
                        requires
                            0 <= count <= 8,
                            SCALE == 1_000_000,
                    ;
                }
                sl = sl + v.l;
                sa = sa + v.a;
                sb = sb + v.b;
                count = count + 1;
            },
            None => {},
        }
    }
    proof {
        assert(po.colors@.take(9) =~= po.colors@);
    }
    if count == 0 {
        return None;
    }
    proof {
        assert(-(129 * SCALE * count) <= sl <= (129 * SCALE) * count && -((129 * SCALE) * count)
            <= sl) by (nonlinear_arith)
            requires
                -129 * SCALE * count <= sl <= 129 * SCALE * count,
        ;
        assert(-((129 * SCALE) * count) <= sa <= (129 * SCALE) * count) by (nonlinear_arith)
            requires
                -129 * SCALE * count <= sa <= 129 * SCALE * count,
        ;
        assert(-((129 * SCALE) * count) <= sb <= (129 * SCALE) * count) by (nonlinear_arith)
            requires
                -129 * SCALE * count <= sb <= 129 * SCALE * count,
        ;
        lemma_tdiv_quotient_bound(sl as int, count as int, 129 * SCALE);
        lemma_tdiv_quotient_bound(sa as int, count as int, 129 * SCALE);
        lemma_tdiv_quotient_bound(sb as int, count as int, 129 * SCALE);
    }
    Some(Lab { l: div_trunc(sl, count), a: div_trunc(sa, count), b: div_trunc(sb, count) })
}

/// The three dark corner colors: a deep blue, a dark green, a dark red.
pub open spec fn dark_corners() -> (Lab, Lab, Lab) {
    (
        lab_triple(lab_of(0x10, 0x00, 0x9c)),
        lab_triple(lab_of(0x00, 0x30, 0x00)),
        lab_triple(lab_of(0x5a, 0x00, 0x00)),
    )
}

/// The light corner colors: white, plus a cyan, a green and a pink.
pub open spec fn light_corners() -> (Lab, Lab, Lab, Lab) {
    (
        lab_triple(lab_of(0xff, 0xff, 0xff)),
        lab_triple(lab_of(0x00, 0xe2, 0xff)),
        lab_triple(lab_of(0x00, 0xef, 0x00)),
        lab_triple(lab_of(0xff, 0xad, 0xff)),
    )
}

pub open spec fn lab_triple(t: (int, int, int)) -> Lab {
    Lab { l: t.0 as i64, a: t.1 as i64, b: t.2 as i64 }
}

/// The corner weights drawn from three unit draws: when the two plane
/// draws together pass one whole, both reflect around it; the remainder
/// weight takes what is left, and all three then scale by the lightness
/// draw.
pub open spec fn corner_weights(rl: int, rx: int, ry: int) -> (int, int, int) {
    let rx2 = if rx + ry > SCALE {
        SCALE - rx
    } else {
        rx as int
    };
    let ry2 = if rx + ry > SCALE {
        SCALE - ry
    } else {
        ry as int
    };
    let r0 = SCALE - rx2 - ry2;
    (tdiv(r0 * rl, SCALE as int), tdiv(rx2 * rl, SCALE as int), tdiv(ry2 * rl, SCALE as int))
}

/// The stochastic dark corner blend at the given unit draws.
pub open spec fn dark_combo(rl: int, rx: int, ry: int) -> (int, int, int) {
    let (c0, cx, cy) = dark_corners();
    let (w0, wx, wy) = corner_weights(rl, rx, ry);
    (
        tdiv(c0.l * w0 + cx.l * wx + cy.l * wy, SCALE as int),
        tdiv(c0.a * w0 + cx.a * wx + cy.a * wy, SCALE as int),
        tdiv(c0.b * w0 + cx.b * wx + cy.b * wy, SCALE as int),
    )
}

/// The stochastic light corner blend: as the dark one, with the white
/// corner taking the lightness left over on the L* axis alone.
pub open spec fn light_combo(rl: int, rx: int, ry: int) -> (int, int, int) {
    let (cw, c0, cx, cy) = light_corners();
    let (w0, wx, wy) = corner_weights(rl, rx, ry);
    let ww = SCALE - rl;
    (
        tdiv(cw.l * ww + c0.l * w0 + cx.l * wx + cy.l * wy, SCALE as int),
        tdiv(c0.a * w0 + cx.a * wx + cy.a * wy, SCALE as int),
        tdiv(c0.b * w0 + cx.b * wx + cy.b * wy, SCALE as int),
    )
}

/// Draws the three unit weights and blends the corner colors.
fn corner_draws(rng: &mut rand::rngs::SmallRng) -> (r: (i64, i64, i64))
    ensures
        0 <= r.0 < SCALE,
        0 <= r.1 < SCALE,
        0 <= r.2 < SCALE,
{
    let rl = rng_between(rng, 0, SCALE - 1);
    let rx = rng_between(rng, 0, SCALE - 1);
    let ry = rng_between(rng, 0, SCALE - 1);
    (rl, rx, ry)
}

/// The exec corner weights, exactly as `corner_weights`.
fn corner_weights_exec(rl: i64, rx: i64, ry: i64) -> (r: (i64, i64, i64))
    requires
        0 <= rl < SCALE,
        0 <= rx < SCALE,
        0 <= ry < SCALE,
    ensures
        (r.0 as int, r.1 as int, r.2 as int) == corner_weights(rl as int, rx as int, ry as int),
        0 <= r.0 <= SCALE,
        0 <= r.1 <= SCALE,
        0 <= r.2 <= SCALE,
{
    let mut rx2 = rx;
    let mut ry2 = ry;
    if rx + ry > SCALE {
        rx2 = SCALE - rx;
        ry2 = SCALE - ry;
    }
    let r0 = SCALE - rx2 - ry2;
    proof {
        assert(0 <= r0 * rl <= SCALE * SCALE && 0 <= rx2 * rl <= SCALE * SCALE && 0 <= ry2 * rl
            <= SCALE * SCALE) by (nonlinear_arith)
            requires
                0 <= r0 <= SCALE,
                0 <= rx2 <= SCALE,
                0 <= ry2 <= SCALE,
                0 <= rl < SCALE,
        ;
        lemma_tdiv_quotient_bound((r0 * rl) as int, SCALE as int, SCALE as int);
        lemma_tdiv_quotient_bound((rx2 * rl) as int, SCALE as int, SCALE as int);
        lemma_tdiv_quotient_bound((ry2 * rl) as int, SCALE as int, SCALE as int);
        lemma_tdiv_bound((r0 * rl) as int, SCALE as int);
        lemma_tdiv_bound((rx2 * rl) as int, SCALE as int);
        lemma_tdiv_bound((ry2 * rl) as int, SCALE as int);
    }
    (
        div_trunc(r0 * rl, SCALE),
        div_trunc(rx2 * rl, SCALE),
        div_trunc(ry2 * rl, SCALE),
    )
}

/// Bound on a corner color coordinate from `lab_from_rgb`.
pub open spec fn corner_wf(v: Lab) -> bool {
    &&& -SCALE <= v.l <= 101 * SCALE
    &&& -129 * SCALE <= v.a <= 129 * SCALE
    &&& -129 * SCALE <= v.b <= 129 * SCALE
}

/// Blends three corner Lab values by three weights, over micro-units.
fn blend3(c0: &Lab, cx: &Lab, cy: &Lab, w0: i64, wx: i64, wy: i64) -> (r: Lab)
    requires
        corner_wf(*c0),
        corner_wf(*cx),
        corner_wf(*cy),
        0 <= w0 <= SCALE,
        0 <= wx <= SCALE,
        0 <= wy <= SCALE,
    ensures
        r.l == tdiv(c0.l * w0 + cx.l * wx + cy.l * wy, SCALE as int),
        r.a == tdiv(c0.a * w0 + cx.a * wx + cy.a * wy, SCALE as int),
        r.b == tdiv(c0.b * w0 + cx.b * wx + cy.b * wy, SCALE as int),
        lab_wf(r),
{
    proof {
        lemma_blend3_bounds(*c0, *cx, *cy, w0 as int, wx as int, wy as int);
    }
    let l = div_trunc(c0.l * w0 + cx.l * wx + cy.l * wy, SCALE);
    let a = div_trunc(c0.a * w0 + cx.a * wx + cy.a * wy, SCALE);
    let b = div_trunc(c0.b * w0 + cx.b * wx + cy.b * wy, SCALE);
    Lab { l, a, b }
}

proof fn lemma_blend3_bounds(c0: Lab, cx: Lab, cy: Lab, w0: int, wx: int, wy: int)
    requires
        corner_wf(c0),
        corner_wf(cx),
        corner_wf(cy),
        0 <= w0 <= SCALE,
        0 <= wx <= SCALE,
        0 <= wy <= SCALE,
    ensures
        -(LAB_BOUND * SCALE) <= c0.l * w0 + cx.l * wx + cy.l * wy <= LAB_BOUND * SCALE,
        -(LAB_BOUND * SCALE) <= c0.a * w0 + cx.a * wx + cy.a * wy <= LAB_BOUND * SCALE,
        -(LAB_BOUND * SCALE) <= c0.b * w0 + cx.b * wx + cy.b * wy <= LAB_BOUND * SCALE,
        -LAB_BOUND <= tdiv(c0.l * w0 + cx.l * wx + cy.l * wy, SCALE as int) <= LAB_BOUND,
        -LAB_BOUND <= tdiv(c0.a * w0 + cx.a * wx + cy.a * wy, SCALE as int) <= LAB_BOUND,
        -LAB_BOUND <= tdiv(c0.b * w0 + cx.b * wx + cy.b * wy, SCALE as int) <= LAB_BOUND,
        -(200 * SCALE * SCALE) <= c0.l * w0 <= 200 * SCALE * SCALE,
        -(200 * SCALE * SCALE) <= cx.l * wx <= 200 * SCALE * SCALE,
        -(200 * SCALE * SCALE) <= cy.l * wy <= 200 * SCALE * SCALE,
        -(200 * SCALE * SCALE) <= c0.a * w0 <= 200 * SCALE * SCALE,
        -(200 * SCALE * SCALE) <= cx.a * wx <= 200 * SCALE * SCALE,
        -(200 * SCALE * SCALE) <= cy.a * wy <= 200 * SCALE * SCALE,
        -(200 * SCALE * SCALE) <= c0.b * w0 <= 200 * SCALE * SCALE,
        -(200 * SCALE * SCALE) <= cx.b * wx <= 200 * SCALE * SCALE,
        -(200 * SCALE * SCALE) <= cy.b * wy <= 200 * SCALE * SCALE,
{
    assert(-(LAB_BOUND * SCALE) <= c0.l * w0 + cx.l * wx + cy.l * wy <= LAB_BOUND * SCALE
        && -(LAB_BOUND * SCALE) <= c0.a * w0 + cx.a * wx + cy.a * wy <= LAB_BOUND * SCALE
        && -(LAB_BOUND * SCALE) <= c0.b * w0 + cx.b * wx + cy.b * wy <= LAB_BOUND * SCALE
        && -(200 * SCALE * SCALE) <= c0.l * w0 <= 200 * SCALE * SCALE
        && -(200 * SCALE * SCALE) <= cx.l * wx <= 200 * SCALE * SCALE
        && -(200 * SCALE * SCALE) <= cy.l * wy <= 200 * SCALE * SCALE
        && -(200 * SCALE * SCALE) <= c0.a * w0 <= 200 * SCALE * SCALE
        && -(200 * SCALE * SCALE) <= cx.a * wx <= 200 * SCALE * SCALE
        && -(200 * SCALE * SCALE) <= cy.a * wy <= 200 * SCALE * SCALE
        && -(200 * SCALE * SCALE) <= c0.b * w0 <= 200 * SCALE * SCALE
        && -(200 * SCALE * SCALE) <= cx.b * wx <= 200 * SCALE * SCALE
        && -(200 * SCALE * SCALE) <= cy.b * wy <= 200 * SCALE * SCALE)
        by (nonlinear_arith)
        requires
            corner_wf(c0),
            corner_wf(cx),
            corner_wf(cy),
            0 <= w0 <= SCALE,
            0 <= wx <= SCALE,
            0 <= wy <= SCALE,
            SCALE == 1_000_000,
            LAB_BOUND == 1_000_000_000,
    ;
    lemma_tdiv_quotient_bound(
        c0.l * w0 + cx.l * wx + cy.l * wy,
        SCALE as int,
        LAB_BOUND as int,
    );
    lemma_tdiv_quotient_bound(
        c0.a * w0 + cx.a * wx + cy.a * wy,
        SCALE as int,
        LAB_BOUND as int,
    );
    lemma_tdiv_quotient_bound(
        c0.b * w0 + cx.b * wx + cy.b * wy,
        SCALE as int,
        LAB_BOUND as int,
    );
}

/// A random dark color: a stochastic convex blend of the dark corners.
pub fn get_dark_color(rng: &mut rand::rngs::SmallRng) -> (r: Lab)
    ensures
        lab_wf(r),
        exists|rl: int, rx: int, ry: int|
            0 <= rl < SCALE && 0 <= rx < SCALE && 0 <= ry < SCALE && (
            r.l as int,
            r.a as int,
            r.b as int,
            ) == dark_combo(rl, rx, ry),
{
    let c0 = lab_from_rgb(&Color::new(0x10, 0x00, 0x9c));
    let cx = lab_from_rgb(&Color::new(0x00, 0x30, 0x00));
    let cy = lab_from_rgb(&Color::new(0x5a, 0x00, 0x00));
    let (rl, rx, ry) = corner_draws(rng);
    let (w0, wx, wy) = corner_weights_exec(rl, rx, ry);
    let r = blend3(&c0, &cx, &cy, w0, wx, wy);
    proof {
        assert(0 <= rl < SCALE && 0 <= rx < SCALE && 0 <= ry < SCALE && (
        r.l as int,
        r.a as int,
        r.b as int,
        ) == dark_combo(rl as int, rx as int, ry as int));
    }
    r
}

/// A random light color: a stochastic blend of white and the light
/// corners, white taking the remaining lightness on the L* axis.
pub fn get_light_color(rng: &mut rand::rngs::SmallRng) -> (r: Lab)
    ensures
        lab_wf(r),
        exists|rl: int, rx: int, ry: int|
            0 <= rl < SCALE && 0 <= rx < SCALE && 0 <= ry < SCALE && (
            r.l as int,
            r.a as int,
            r.b as int,
            ) == light_combo(rl, rx, ry),
{
    let cw = lab_from_rgb(&Color::new(0xff, 0xff, 0xff));
    let c0 = lab_from_rgb(&Color::new(0x00, 0xe2, 0xff));
    let cx = lab_from_rgb(&Color::new(0x00, 0xef, 0x00));
    let cy = lab_from_rgb(&Color::new(0xff, 0xad, 0xff));
    let (rl, rx, ry) = corner_draws(rng);
    let (w0, wx, wy) = corner_weights_exec(rl, rx, ry);
    let b = blend3(&c0, &cx, &cy, w0, wx, wy);
    let ww = SCALE - rl;
    proof {
        assert(-(LAB_BOUND * SCALE) <= cw.l * ww + (c0.l * w0 + cx.l * wx + cy.l * wy)
            <= LAB_BOUND * SCALE
            && -(200 * SCALE * SCALE) <= cw.l * ww <= 200 * SCALE * SCALE
            && -(200 * SCALE * SCALE) <= c0.l * w0 <= 200 * SCALE * SCALE
            && -(200 * SCALE * SCALE) <= cx.l * wx <= 200 * SCALE * SCALE
            && -(200 * SCALE * SCALE) <= cy.l * wy <= 200 * SCALE * SCALE) by (nonlinear_arith)
            requires
                -SCALE <= cw.l <= 101 * SCALE,
                corner_wf(c0),
                corner_wf(cx),
                corner_wf(cy),
                0 <= ww <= SCALE,
                0 <= w0 <= SCALE,
                0 <= wx <= SCALE,
                0 <= wy <= SCALE,
                SCALE == 1_000_000,
                LAB_BOUND == 1_000_000_000,
        ;
        lemma_tdiv_quotient_bound(
            cw.l * ww + (c0.l * w0 + cx.l * wx + cy.l * wy),
            SCALE as int,
            LAB_BOUND as int,
        );
    }
    let num_l = cw.l * ww + (c0.l * w0 + cx.l * wx + cy.l * wy);
    let l2 = div_trunc(num_l, SCALE);
    let r = Lab { l: l2, a: b.a, b: b.b };
    proof {
        assert((r.l as int, r.a as int, r.b as int) == light_combo(
            rl as int,
            rx as int,
            ry as int,
        ));
    }
    r
}

/// The corner blend a slot draws from: the dark corner set or the light
/// one, at the given unit draws.
pub open spec fn corner_blend(use_dark: bool, rl: int, rx: int, ry: int) -> (int, int, int) {
    if use_dark {
        dark_combo(rl, rx, ry)
    } else {
        light_combo(rl, rx, ry)
    }
}

/// A value drawn as some stochastic blend of the chosen corner set.
pub open spec fn is_corner_draw(v: Lab, use_dark: bool) -> bool {
    exists|rl: int, rx: int, ry: int|
        0 <= rl < SCALE && 0 <= rx < SCALE && 0 <= ry < SCALE && (
        v.l as int,
        v.a as int,
        v.b as int,
        ) == corner_blend(use_dark, rl, rx, ry)
}

/// Fills the background slot when it is unset: a blend of the dark corner
/// set for a dark palette, else of the light one.
fn generate_bg(rng: &mut rand::rngs::SmallRng, labs: &mut Vec<Option<Lab>>, dark: bool)
    requires
        old(labs)@.len() == 9,
    ensures
        final(labs)@.len() == 9,
        old(labs)@[0] is Some ==> final(labs)@ == old(labs)@,
        old(labs)@[0] is None ==> exists|v: Lab|
            #[trigger] lab_wf(v) && is_corner_draw(v, dark) && final(labs)@ == old(labs)@.update(
                0,
                Some(v),
            ),
{
    if labs[0].is_some() {
        return ;
    }
    let v = if dark {
        get_dark_color(rng)
    } else {
        get_light_color(rng)
    };
    proof {
        if dark {
            let (rl, rx, ry) = choose|rl: int, rx: int, ry: int|
                0 <= rl < SCALE && 0 <= rx < SCALE && 0 <= ry < SCALE && (
                v.l as int,
                v.a as int,
                v.b as int,
                ) == dark_combo(rl, rx, ry);
            assert(corner_blend(true, rl, rx, ry) == dark_combo(rl, rx, ry));
            assert(is_corner_draw(v, true));
        } else {
            let (rl, rx, ry) = choose|rl: int, rx: int, ry: int|
                0 <= rl < SCALE && 0 <= rx < SCALE && 0 <= ry < SCALE && (
                v.l as int,
                v.a as int,
                v.b as int,
                ) == light_combo(rl, rx, ry);
            assert(corner_blend(false, rl, rx, ry) == light_combo(rl, rx, ry));
            assert(is_corner_draw(v, false));
        }
    }
    labs[0] = Some(v);
}

/// Fills the foreground slot when it is unset, from the corner set
/// opposite to the background's.
fn generate_fg(rng: &mut rand::rngs::SmallRng, labs: &mut Vec<Option<Lab>>, dark: bool)
    requires
        old(labs)@.len() == 9,
    ensures
        final(labs)@.len() == 9,
        old(labs)@[1] is Some ==> final(labs)@ == old(labs)@,
        old(labs)@[1] is None ==> exists|v: Lab|
            #[trigger] lab_wf(v) && is_corner_draw(v, !dark) && final(labs)@ == old(
                labs,
            )@.update(1, Some(v)),
{
    if labs[1].is_some() {
        return ;
    }
    let v = if dark {
        get_light_color(rng)
    } else {
        get_dark_color(rng)
    };
    proof {
        if !dark {
            let (rl, rx, ry) = choose|rl: int, rx: int, ry: int|
                0 <= rl < SCALE && 0 <= rx < SCALE && 0 <= ry < SCALE && (
                v.l as int,
                v.a as int,
                v.b as int,
                ) == dark_combo(rl, rx, ry);
            assert(corner_blend(true, rl, rx, ry) == dark_combo(rl, rx, ry));
            assert(is_corner_draw(v, true));
        } else {
            let (rl, rx, ry) = choose|rl: int, rx: int, ry: int|
                0 <= rl < SCALE && 0 <= rx < SCALE && 0 <= ry < SCALE && (
                v.l as int,
                v.a as int,
                v.b as int,
                ) == light_combo(rl, rx, ry);
            assert(corner_blend(false, rl, rx, ry) == light_combo(rl, rx, ry));
            assert(is_corner_draw(v, false));
        }
    }
    labs[1] = Some(v);
}

/// How many slots from `from` on are still unset.
pub open spec fn none_count(s: Seq<Option<Lab>>, from: int) -> int
    decreases s.len() - from,
{
    if from < 0 || from >= s.len() {
        0
    } else {
        (if s[from] is None {
            1int
        } else {
            0int
        }) + none_count(s, from + 1)
    }
}

proof fn lemma_none_count_nonneg(s: Seq<Option<Lab>>, from: int)
    ensures
        none_count(s, from) >= 0,
    decreases s.len() - from,
{
    if 0 <= from < s.len() {
        lemma_none_count_nonneg(s, from + 1);
    }
}

/// An update below `from` does not change the count from `from` on.
proof fn lemma_none_count_update(s: Seq<Option<Lab>>, i: int, v: Option<Lab>, from: int)
    requires
        0 <= i < from,
        i < s.len(),
    ensures
        none_count(s.update(i, v), from) == none_count(s, from),
    decreases s.len() - from,
{
    if from < s.len() {
        lemma_none_count_update(s, i, v, from + 1);
    }
}

/// The lightness of a color once converted to Lab, in micro-units.
pub open spec fn lab_l_of_color(c: Color) -> int {
    lab_of(c.r, c.g, c.b).0
}

/// The accent sample at lightness l: the spine point there, offset in the
/// a*/b* plane by chroma distance d at hue angle th.
pub open spec fn accent_sample(bg: Lab, fg: Lab, l: int, d: int, th: int) -> (int, int, int) {
    let c = spec_interpolate(bg, fg, l);
    (c.0, c.1 + tdiv(cos_of(th) * d, SCALE as int), c.2 + tdiv(sin_of(th) * d, SCALE as int))
}

/// The value v is an accent sample at hue angle th, for some lightness
/// and chroma distance inside the given windows.
pub open spec fn is_accent_draw(
    v: Lab,
    bg: Lab,
    fg: Lab,
    lo_l: int,
    hi_l: int,
    lo_c: int,
    hi_c: int,
    th: int,
) -> bool {
    exists|l: int, d: int|
        lo_l <= l <= hi_l && lo_c <= d <= hi_c && (v.l as int, v.a as int, v.b as int)
            == accent_sample(bg, fg, l, d, th)
}

/// The hue angle of an existing accent's offset from the spine, with the
/// full-circle rounding case brought back to zero.
pub open spec fn accent_angle(bg: Lab, fg: Lab, v: Lab) -> int {
    let c = spec_interpolate(bg, fg, v.l as int);
    let t = angle_of(v.a - c.1, v.b - c.2);
    if t == TURN {
        0
    } else {
        t
    }
}

/// The rounded-down chroma distance of an existing accent from the spine.
pub open spec fn accent_dist(bg: Lab, fg: Lab, v: Lab) -> int {
    let c = spec_interpolate(bg, fg, v.l as int);
    floor_sqrt((v.a - c.1) * (v.a - c.1) + (v.b - c.2) * (v.b - c.2))
}

/// The existing accents' hue angles among the first i slots, in slot
/// order.
pub open spec fn accent_angles(bg: Lab, fg: Lab, s: Seq<Option<Lab>>, i: int) -> Seq<u32>
    decreases i,
{
    if i <= 2 {
        Seq::empty()
    } else {
        let p = accent_angles(bg, fg, s, i - 1);
        match s[i - 1] {
            Some(v) => p.push(accent_angle(bg, fg, v) as u32),
            None => p,
        }
    }
}

/// The tracked lightness range over the set accents of the first i slots:
/// the running (minimum, maximum) from the search's starting values.
pub open spec fn l_range_upto(s: Seq<Option<Lab>>, i: int) -> (int, int)
    decreases i,
{
    if i <= 2 {
        (100 * SCALE as int, 0int)
    } else {
        let p = l_range_upto(s, i - 1);
        match s[i - 1] {
            Some(v) => (
                if v.l < p.0 {
                    v.l as int
                } else {
                    p.0
                },
                if v.l > p.1 {
                    v.l as int
                } else {
                    p.1
                },
            ),
            None => p,
        }
    }
}

/// The tracked chroma range over the set accents of the first i slots.
pub open spec fn c_range_upto(bg: Lab, fg: Lab, s: Seq<Option<Lab>>, i: int) -> (int, int)
    decreases i,
{
    if i <= 2 {
        (300 * SCALE as int, 0int)
    } else {
        let p = c_range_upto(bg, fg, s, i - 1);
        match s[i - 1] {
            Some(v) => {
                let d = accent_dist(bg, fg, v);
                (
                    if d < p.0 {
                        d
                    } else {
                        p.0
                    },
                    if d > p.1 {
                        d
                    } else {
                        p.1
                    },
                )
            },
            None => p,
        }
    }
}

/// The single fallback lightness used when no accent is set: most of the
/// way toward the foreground's lightness, from black for a dark palette
/// and from white for a light one.
pub open spec fn fallback_l(fg: Lab, dark: bool) -> int {
    if dark {
        tdiv(fg.l * 8, 10)
    } else {
        20 * SCALE + tdiv(fg.l * 8, 10)
    }
}

/// The lightness and chroma windows the accent sampling draws from: the
/// tracked ranges of the existing accents, or, when no accent is set, the
/// single fallback lightness and one chroma value drawn once from the
/// fixed window for the palette's darkness.
pub open spec fn hue_ranges(
    s: Seq<Option<Lab>>,
    bg: Lab,
    fg: Lab,
    dark: bool,
    lo_l: int,
    hi_l: int,
    lo_c: int,
    hi_c: int,
) -> bool {
    if none_count(s, 2) < 7 {
        (lo_l, hi_l) == l_range_upto(s, 9) && (lo_c, hi_c) == c_range_upto(bg, fg, s, 9)
    } else {
        &&& lo_l == fallback_l(fg, dark)
        &&& hi_l == lo_l
        &&& lo_c == hi_c
        &&& (if dark {
            10 * SCALE <= lo_c <= 50 * SCALE - 1
        } else {
            20 * SCALE <= lo_c <= 50 * SCALE - 1
        })
    }
}

/// The multiset of hue angles handed to the unset slots among the first
/// i slots.
pub open spec fn unset_angles(s: Seq<Option<Lab>>, th: Seq<u32>, i: int) -> Multiset<u32>
    decreases i,
{
    if i <= 0 {
        Multiset::empty()
    } else {
        let p = unset_angles(s, th, i - 1);
        if s[i - 1] is None {
            p.insert(th[i - 1])
        } else {
            p
        }
    }
}

/// Angles already handed out do not change when a later slot's entry is
/// written.
proof fn lemma_unset_angles_update(s: Seq<Option<Lab>>, th: Seq<u32>, j: int, v: u32, i: int)
    requires
        i <= j < th.len(),
    ensures
        unset_angles(s, th.update(j, v), i) == unset_angles(s, th, i),
    decreases i,
{
    if i > 0 {
        lemma_unset_angles_update(s, th, j, v, i - 1);
        assert(th.update(j, v)[i - 1] == th[i - 1]);
    }
}

/// Everything the accent filling promises: set slots persist, every slot
/// ends set, and each previously unset slot holds an accent sample whose
/// lightness and chroma come from the promised windows and whose hue
/// angles, taken together, are exactly one packed angle set over the
/// existing accents' angles.
pub open spec fn hue_filled(pre: Seq<Option<Lab>>, post: Seq<Option<Lab>>, dark: bool) -> bool {
    let bg = pre[0]->0;
    let fg = pre[1]->0;
    &&& pre.len() == 9
    &&& post.len() == 9
    &&& (forall|i: int| 0 <= i < 9 && pre[i] is Some ==> post[i] == pre[i])
    &&& (forall|i: int| 0 <= i < 9 ==> post[i] is Some)
    &&& exists|lo_l: int, hi_l: int, lo_c: int, hi_c: int, na: Seq<u32>, th: Seq<u32>|
        #![trigger hue_ranges(pre, bg, fg, dark, lo_l, hi_l, lo_c, hi_c), packed_angles_ok(accent_angles(bg, fg, pre, 9), na), unset_angles(pre, th, 9)]
        {
            &&& hue_ranges(pre, bg, fg, dark, lo_l, hi_l, lo_c, hi_c)
            &&& packed_angles_ok(accent_angles(bg, fg, pre, 9), na)
            &&& th.len() == 9
            &&& unset_angles(pre, th, 9) == na.to_multiset()
            &&& (forall|i: int|
                0 <= i < 9 && pre[i] is None ==> is_accent_draw(
                    (#[trigger] post[i])->0,
                    bg,
                    fg,
                    lo_l,
                    hi_l,
                    lo_c,
                    hi_c,
                    th[i] as int,
                ))
        }
}

/// Fills every unset accent slot. Existing accents are decomposed into
/// (distance, angle) offsets from the spine and set the lightness and
/// chroma ranges; with no existing accent, heuristic ranges apply. New
/// hue angles come from the circular gap packing, and each unset slot is
/// sampled at a random lightness and chroma on its angle.
fn generate_hue(rng: &mut rand::rngs::SmallRng, labs: &mut Vec<Option<Lab>>, dark: bool)
    requires
        old(labs)@.len() == 9,
        old(labs)@[0] is Some,
        old(labs)@[1] is Some,
        forall|i: int|
            0 <= i < 9 ==> ((#[trigger] old(labs)@[i]) matches Some(v) ==> lab_wf(v)),
    ensures
        final(labs)@.len() == 9,
        forall|i: int|
            0 <= i < 9 && old(labs)@[i] is Some ==> final(labs)@[i] == old(labs)@[i],
        forall|i: int| 0 <= i < 9 ==> final(labs)@[i] is Some,
        hue_filled(old(labs)@, final(labs)@, dark),
{
    let bg = labs[0].unwrap();
    let fg = labs[1].unwrap();
    let mut angles: Vec<u32> = Vec::new();
    let mut count: usize = 0;
    let mut nones: usize = 0;
    let mut max_l: i64 = 0;
    let mut min_l: i64 = 100 * SCALE;
    let mut max_c: i64 = 0;
    let mut min_c: i64 = 300 * SCALE;
    for i in 2..9usize
        invariant
            labs@ == old(labs)@,
            labs@.len() == 9,
            bg == old(labs)@[0]->0,
            fg == old(labs)@[1]->0,
            lab_wf(bg),
            lab_wf(fg),
            forall|j: int|
                0 <= j < 9 ==> ((#[trigger] labs@[j]) matches Some(v) ==> lab_wf(v)),
            count == angles@.len(),
            count + nones == i - 2,
            none_count(labs@, 2) == nones + none_count(labs@, i as int),
            forall|j: int| 0 <= j < angles@.len() ==> (#[trigger] angles@[j]) < TURN,
            angles@ == accent_angles(bg, fg, labs@, i as int),
            min_l == l_range_upto(labs@, i as int).0,
            max_l == l_range_upto(labs@, i as int).1,
            min_c == c_range_upto(bg, fg, labs@, i as int).0,
            max_c == c_range_upto(bg, fg, labs@, i as int).1,
            count == 0 ==> min_l == 100 * SCALE && max_l == 0 && max_c == 0 && min_c == 300
                * SCALE,
            count > 0 ==> min_l <= max_l && min_c <= max_c,
            -LAB_BOUND <= max_l <= LAB_BOUND,
            -LAB_BOUND <= min_l <= LAB_BOUND,
            0 <= max_c <= 5_000_000_000,
            0 <= min_c <= 5_000_000_000,
    {
        match labs[i] {
            Some(lab) => {
                let center = interpolate(&bg, &fg, lab.l);
                let (d, th) = length_and_angle(&lab, &center);
                let di = d as i64;
                proof {
                    assert(di as int == accent_dist(bg, fg, lab));
                    assert(th as int == accent_angle(bg, fg, lab));
                    assert(accent_angles(bg, fg, labs@, i as int + 1) =~= accent_angles(
                        bg,
                        fg,
                        labs@,
                        i as int,
                    ).push(th));
                }
                if di > max_c {
                    max_c = di;
                }
                if di < min_c {
                    min_c = di;
                }
                if lab.l > max_l {
                    max_l = lab.l;
                }
                if lab.l < min_l {
                    min_l = lab.l;
                }
                angles.push(th);
                count = count + 1;
            },
            None => {
                nones = nones + 1;
            },
        }
    }
    if count == 0 {
        proof {
            lemma_tdiv_quotient_bound(fg.l * 8, 10, LAB_BOUND as int);
        }
        let scaled = div_trunc(fg.l * 8, 10);
        if dark {
            max_l = scaled;
        } else {
            max_l = 20 * SCALE + scaled;
        }
        min_l = max_l;
        if dark {
            max_c = rng_between(rng, 10 * SCALE, 50 * SCALE - 1);
        } else {
            max_c = rng_between(rng, 20 * SCALE, 50 * SCALE - 1);
        }
        min_c = max_c;
    }
    proof {
        assert(hue_ranges(
            labs@,
            bg,
            fg,
            dark,
            min_l as int,
            max_l as int,
            min_c as int,
            max_c as int,
        ));
    }
    let new_angles = get_new_angles(rng, &angles);
    let mut na = new_angles;
    proof {
        assert(none_count(labs@, 1) == none_count(labs@, 2));
        assert(none_count(labs@, 0) == none_count(labs@, 1));
        assert(na@.len() == none_count(labs@, 0));
    }
    let ghost labs0 = labs@;
    let ghost na0 = na@;
    let ghost mut ths: Seq<u32> = Seq::new(9, |_j: int| 0u32);
    proof {
        assert(unset_angles(labs0, ths, 0).add(na@.to_multiset()) =~= na0.to_multiset());
    }
    for i in 0..9usize
        invariant
            labs@.len() == 9,
            lab_wf(bg),
            lab_wf(fg),
            bg == labs0[0]->0,
            fg == labs0[1]->0,
            na@.len() == none_count(labs@, i as int),
            forall|j: int|
                0 <= j < 9 && labs0[j] is Some ==> labs@[j] == labs0[j],
            forall|j: int| 0 <= j < i ==> labs@[j] is Some,
            forall|j: int| i <= j < 9 ==> labs@[j] == labs0[j],
            hue_ranges(labs0, bg, fg, dark, min_l as int, max_l as int, min_c as int, max_c as int),
            packed_angles_ok(accent_angles(bg, fg, labs0, 9), na0),
            ths.len() == 9,
            na0.to_multiset() == unset_angles(labs0, ths, i as int).add(na@.to_multiset()),
            forall|j: int|
                0 <= j < i && labs0[j] is None ==> is_accent_draw(
                    (#[trigger] labs@[j])->0,
                    bg,
                    fg,
                    min_l as int,
                    max_l as int,
                    min_c as int,
                    max_c as int,
                    ths[j] as int,
                ),
            count == 0 ==> min_l == max_l && min_c == max_c,
            count > 0 ==> min_l <= max_l && min_c <= max_c,
            -2 * LAB_BOUND <= min_l <= 2 * LAB_BOUND,
            -2 * LAB_BOUND <= max_l <= 2 * LAB_BOUND,
            0 <= min_c <= 5_000_000_000,
            0 <= max_c <= 5_000_000_000,
            -LAB_BOUND <= min_l,
            max_l <= LAB_BOUND,
            -LAB_BOUND <= max_l,
            min_l <= LAB_BOUND,
    {
        match labs[i] {
            Some(_) => {},
            None => {
                let ghost na_pre = na@;
                let angle = match na.pop() {
                    Some(a) => a,
                    None => {
                        proof {
                            lemma_none_count_nonneg(labs@, i as int + 1);
                            assert(none_count(labs@, i as int) >= 1);
                            assert(false);
                        }
                        0
                    },
                };
                proof {
                    assert(na_pre =~= na@.push(angle));
                    assert(na_pre.to_multiset() == na@.to_multiset().insert(angle));
                }
                let l = rng_between(rng, min_l, max_l);
                let hue_distance = rng_between(rng, min_c, max_c);
                let mut lab = interpolate(&bg, &fg, l);
                let ca = cos_from_turn(angle);
                let sa = sin_from_turn(angle);
                proof {
                    assert(-(5_000_000_000_000_000 as i64) <= ca * hue_distance
                        <= 5_000_000_000_000_000 && -(5_000_000_000_000_000 as i64) <= sa
                        * hue_distance <= 5_000_000_000_000_000) by (nonlinear_arith)
                        requires
                            -SCALE <= ca <= SCALE,
                            -SCALE <= sa <= SCALE,
                            0 <= hue_distance <= 5_000_000_000,
                            SCALE == 1_000_000,
                    ;
                    lemma_tdiv_bound((ca * hue_distance) as int, SCALE as int);
                    lemma_tdiv_bound((sa * hue_distance) as int, SCALE as int);
                }
                lab.a = lab.a + div_trunc(ca * hue_distance, SCALE);
                lab.b = lab.b + div_trunc(sa * hue_distance, SCALE);
                let ghost pre = labs@;
                let ghost ths_pre = ths;
                labs[i] = Some(lab);
                proof {
                    ths = ths.update(i as int, angle);
                    assert(none_count(pre, i as int) == 1 + none_count(pre, i as int + 1));
                    lemma_none_count_update(pre, i as int, Some(lab), i as int + 1);
                    lemma_unset_angles_update(labs0, ths_pre, i as int, angle, i as int);
                    assert(unset_angles(labs0, ths, i as int + 1) == unset_angles(
                        labs0,
                        ths,
                        i as int,
                    ).insert(angle));
                    assert(na0.to_multiset() =~= unset_angles(labs0, ths, i as int + 1).add(
                        na@.to_multiset(),
                    ));
                    assert((lab.l as int, lab.a as int, lab.b as int) == accent_sample(
                        bg,
                        fg,
                        l as int,
                        hue_distance as int,
                        angle as int,
                    ));
                    assert(is_accent_draw(
                        lab,
                        bg,
                        fg,
                        min_l as int,
                        max_l as int,
                        min_c as int,
                        max_c as int,
                        angle as int,
                    ));
                }
            },
        }
        proof {
            assert(none_count(labs@, i as int) == none_count(labs@, i as int + 1));
        }
    }
    proof {
        assert(na@.to_multiset().len() == 0);
        assert(na@.to_multiset() =~= Multiset::empty());
        assert(unset_angles(labs0, ths, 9).add(na@.to_multiset()) =~= unset_angles(
            labs0,
            ths,
            9,
        ));
        assert(unset_angles(labs0, ths, 9) == na0.to_multiset());
        assert(hue_filled(labs0, labs@, dark));
    }
}

/// The Lab working vector generation starts from: each set slot converted
/// to Lab, each unset slot still empty.
pub open spec fn labs_of_palette(po: Seq<Option<Color>>) -> Seq<Option<Lab>> {
    Seq::new(
        9,
        |i: int|
            match po[i] {
                Some(c) => Some(lab_triple(lab_of(c.r, c.g, c.b))),
                None => None,
            },
    )
}

/// The darkness decision, wherever the input decides it: the background's
/// own darkness when fixed, the foreground's inverted when only it is,
/// the inverted darkness of the set slots' Lab centroid when any slot is
/// set; with nothing set the coin toss is free.
pub open spec fn dark_rule_ok(po: Seq<Option<Color>>, dark: bool) -> bool {
    &&& (po[0] matches Some(c) ==> dark == (lab_l_of_color(c) < 50 * SCALE))
    &&& (po[0] is None ==> (po[1] matches Some(c) ==> dark == !(lab_l_of_color(c) < 50 * SCALE)))
    &&& (po[0] is None && po[1] is None && lab_opt_sum(po).3 > 0 ==> dark == !(tdiv(
        lab_opt_sum(po).0,
        lab_opt_sum(po).3,
    ) < 50 * SCALE))
}

/// The background and foreground slots filled: each either kept, or
/// given a well-formed blend of its corner set, the background's chosen
/// by the darkness decision and the foreground's the opposite.
pub open spec fn bgfg_filled(s0: Seq<Option<Lab>>, s2: Seq<Option<Lab>>, dark: bool) -> bool {
    exists|s1: Seq<Option<Lab>>|
        {
            &&& #[trigger] s1.len() == 9
            &&& (s0[0] is Some ==> s1 == s0)
            &&& (s0[0] is None ==> exists|v: Lab|
                #[trigger] lab_wf(v) && is_corner_draw(v, dark) && s1 == s0.update(0, Some(v)))
            &&& (s1[1] is Some ==> s2 == s1)
            &&& (s1[1] is None ==> exists|v: Lab|
                #[trigger] lab_wf(v) && is_corner_draw(v, !dark) && s2 == s1.update(1, Some(v)))
        }
}

/// Everything generation promises of the slots it synthesizes: a darkness
/// decision following the rule, background and foreground from the corner
/// blends, the accents from spine-and-angle sampling over the packed
/// angles, and each unset slot's output color converted back from its
/// synthesized Lab value.
pub open spec fn synthesized_ok(po: Seq<Option<Color>>, out: Seq<Color>) -> bool {
    exists|dark: bool, mid: Seq<Option<Lab>>, fin: Seq<Option<Lab>>|
        #![trigger dark_rule_ok(po, dark), bgfg_filled(labs_of_palette(po), mid, dark), hue_filled(mid, fin, dark)]
        {
            &&& dark_rule_ok(po, dark)
            &&& bgfg_filled(labs_of_palette(po), mid, dark)
            &&& hue_filled(mid, fin, dark)
            &&& (forall|i: int|
                0 <= i < 9 && po[i] is None ==> fin[i] is Some && ((#[trigger] out[i]).r,
                out[i].g,
                out[i].b,
                ) == rgb_of_lab(fin[i]->0.l as int, fin[i]->0.a as int, fin[i]->0.b as int))
        }
}

/// Completes a partial palette: colors that are set stay exactly as they
/// are; unset slots are synthesized, background and foreground from the
/// corner blends and accents along the packed hue angles. Generation is
/// total: it never fails on a well-formed partial palette, and a fully
/// specified palette comes back unchanged.
pub fn generate(po: &PaletteOption, rng: &mut rand::rngs::SmallRng) -> (p: Palette)
    ensures
        forall|i: int|
            0 <= i < 9 && po.colors@[i] is Some ==> p.colors@[i] == po.colors@[i]->0,
        (exists|i: int| 0 <= i < 9 && (#[trigger] po.colors@[i]) is None) ==> synthesized_ok(
            po.colors@,
            p.colors@,
        ),
{
    let mut arr: [Color; 9] = [Color { r: 0, g: 0, b: 0 }; 9];
    let mut all_set = true;
    for i in 0..9usize
        invariant
            po.colors@.len() == 9,
            all_set == (forall|j: int| 0 <= j < i ==> po.colors@[j] is Some),
    {
        if po.colors[i].is_none() {
            all_set = false;
        }
    }
    if all_set {
        for i in 0..9usize
            invariant
                po.colors@.len() == 9,
                arr@.len() == 9,
                forall|j: int| 0 <= j < 9 ==> po.colors@[j] is Some,
                forall|j: int| 0 <= j < i ==> arr@[j] == po.colors@[j]->0,
        {
            arr[i] = po.colors[i].unwrap();
        }
        return Palette { colors: arr };
    }
    let mut labs: Vec<Option<Lab>> = Vec::new();
    for i in 0..9usize
        invariant
            po.colors@.len() == 9,
            labs@.len() == i,
            forall|j: int| 0 <= j < i ==> (labs@[j] is Some) == (po.colors@[j] is Some),
            forall|j: int|
                0 <= j < i ==> ((#[trigger] labs@[j]) matches Some(v) ==> lab_wf(v)),
            forall|j: int| 0 <= j < i ==> #[trigger] labs@[j] == labs_of_palette(po.colors@)[j],
            forall|j: int|
                0 <= j < i ==> ((#[trigger] po.colors@[j]) matches Some(c) ==> -SCALE
                    <= lab_l_of_color(c) <= 101 * SCALE),
    {
        match po.colors[i] {
            Some(c) => {
                labs.push(Some(lab_from_rgb(&c)));
            },
            None => {
                labs.push(None);
            },
        }
    }
    proof {
        assert(labs@ =~= labs_of_palette(po.colors@));
    }
    let ghost s0 = labs@;
    let dark: bool;
    if labs[0].is_some() {
        dark = is_dark(&labs[0].unwrap());
    } else if labs[1].is_some() {
        dark = !is_dark(&labs[1].unwrap());
    } else {
        match get_average_hue(po) {
            Some(avg) => {
                dark = !is_dark(&avg);
            },
            None => {
                dark = rng_flip(rng);
            },
        }
    }
    proof {
        assert(dark_rule_ok(po.colors@, dark));
    }
    generate_bg(rng, &mut labs, dark);
    let ghost s1 = labs@;
    generate_fg(rng, &mut labs, dark);
    let ghost s2 = labs@;
    proof {
        assert(bgfg_filled(s0, s2, dark));
        assert(labs@.len() == 9);
        assert(labs@[0] is Some && labs@[1] is Some);
        assert(forall|i: int| 0 <= i < 9 ==> ((#[trigger] labs@[i]) matches Some(v) ==> lab_wf(
            v,
        )));
    }
    generate_hue(rng, &mut labs, dark);
    let ghost fin = labs@;
    for i in 0..9usize
        invariant
            po.colors@.len() == 9,
            labs@.len() == 9,
            labs@ == fin,
            arr@.len() == 9,
            forall|j: int| 0 <= j < 9 ==> labs@[j] is Some,
            forall|j: int|
                0 <= j < i && po.colors@[j] is Some ==> arr@[j] == po.colors@[j]->0,
            forall|j: int|
                0 <= j < i && po.colors@[j] is None ==> ((#[trigger] arr@[j]).r,
                arr@[j].g,
                arr@[j].b,
                ) == rgb_of_lab(fin[j]->0.l as int, fin[j]->0.a as int, fin[j]->0.b as int),
    {
        match po.colors[i] {
            Some(c) => {
                arr[i] = c;
            },
            None => {
                arr[i] = rgb_from_lab(&labs[i].unwrap());
            },
        }
    }
    proof {
        assert(hue_filled(s2, fin, dark));
        assert(synthesized_ok(po.colors@, arr@));
    }
    Palette { colors: arr }
}

/// Completes a partial palette reproducibly: the same seed and input
/// give the same palette on every run.
pub fn generate_seeded(po: &PaletteOption, seed: u64) -> (p: Palette)
    ensures
        forall|i: int|
            0 <= i < 9 && po.colors@[i] is Some ==> p.colors@[i] == po.colors@[i]->0,
        (exists|i: int| 0 <= i < 9 && (#[trigger] po.colors@[i]) is None) ==> synthesized_ok(
            po.colors@,
            p.colors@,
        ),
{
    let mut rng = crate::rng::rng_from_seed(seed);
    generate(po, &mut rng)
}

} // verus!
