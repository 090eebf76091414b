use vstd::prelude::*;
use crate::color::Color;
use crate::convert::{Lab, SCALE, lab_of, lab_from_rgb, lab_wf};
use crate::arith::{tdiv, div_trunc};

verus! {

/// One canonical terminal color: its name, the pure reference hue chosen
/// for it, and its relative importance in the matcher's cost.
pub struct ColorNameWeight {
    pub color: Color,
    pub name: String,
    pub weight: u32,
}

/// The six canonical reference colors with their weights, in the fixed
/// caller-visible order red, yellow, green, cyan, blue, magenta. The three
/// primary hues carry a materially higher weight: viewers judge their
/// fidelity more strictly.
pub open spec fn canonical_refs() -> Seq<(Color, u32)> {
    seq![
        (Color { r: 255, g: 0, b: 0 }, 9u32),
        (Color { r: 255, g: 255, b: 0 }, 9u32),
        (Color { r: 0, g: 255, b: 0 }, 9u32),
        (Color { r: 0, g: 255, b: 255 }, 1u32),
        (Color { r: 0, g: 0, b: 255 }, 1u32),
        (Color { r: 255, g: 0, b: 255 }, 1u32),
    ]
}

/// The canonical color names, in the same fixed order.
pub open spec fn canonical_name(j: int) -> Seq<char>
    recommends
        0 <= j < 6,
{
    if j == 0 {
        "red"@
    } else if j == 1 {
        "yellow"@
    } else if j == 2 {
        "green"@
    } else if j == 3 {
        "cyan"@
    } else if j == 4 {
        "blue"@
    } else {
        "magenta"@
    }
}

/// Component-wise sum of sRGB channels over a sequence of colors.
pub open spec fn rgb_sum(s: Seq<Color>) -> (int, int, int)
    decreases s.len(),
{
    if s.len() == 0 {
        (0, 0, 0)
    } else {
        let p = rgb_sum(s.drop_last());
        (p.0 + s.last().r, p.1 + s.last().g, p.2 + s.last().b)
    }
}

/// Component-wise sum of sRGB channels over the reference colors of a
/// weighted target sequence.
pub open spec fn target_rgb_sum(s: Seq<(Color, u32)>) -> (int, int, int)
    decreases s.len(),
{
    if s.len() == 0 {
        (0, 0, 0)
    } else {
        let p = target_rgb_sum(s.drop_last());
        (p.0 + s.last().0.r, p.1 + s.last().0.g, p.2 + s.last().0.b)
    }
}

/// The offset of candidate i from the candidate centroid, in sRGB channel
/// space, scaled by 6 times the candidate count so that it stays an exact
/// integer. Scaling every cost by one positive constant moves no minimum
/// and breaks no tie.
pub open spec fn cand_off(cands: Seq<Color>, i: int) -> (int, int, int)
    recommends
        0 <= i < cands.len(),
{
    let n = cands.len() as int;
    let s = rgb_sum(cands);
    (
        6 * (n * cands[i].r - s.0),
        6 * (n * cands[i].g - s.1),
        6 * (n * cands[i].b - s.2),
    )
}

/// The offset of reference j from the reference centroid, scaled the same
/// way (by 6 times the reference count times the candidate count over 6).
pub open spec fn ref_off(target: Seq<(Color, u32)>, n: int, j: int) -> (int, int, int)
    recommends
        0 <= j < target.len(),
{
    let s = target_rgb_sum(target);
    (
        n * (6 * target[j].0.r - s.0),
        n * (6 * target[j].0.g - s.1),
        n * (6 * target[j].0.b - s.2),
    )
}

pub open spec fn sq(x: int) -> int {
    x * x
}

/// The cost of assigning candidate i to reference j: the squared Euclidean
/// distance between the two centered offsets, weighted by the reference's
/// importance.
pub open spec fn pair_cost(cands: Seq<Color>, target: Seq<(Color, u32)>, j: int, i: int) -> int {
    let u = cand_off(cands, i);
    let v = ref_off(target, cands.len() as int, j);
    (target[j].1) * (sq(u.0 - v.0) + sq(u.1 - v.1) + sq(u.2 - v.2))
}

/// The cost of the first j pairs of an ordered selection t.
pub open spec fn cost_upto(
    cands: Seq<Color>,
    target: Seq<(Color, u32)>,
    t: Seq<int>,
    j: int,
) -> int
    decreases j,
{
    if j <= 0 {
        0
    } else {
        cost_upto(cands, target, t, j - 1) + pair_cost(cands, target, j - 1, t[j - 1])
    }
}

/// The total cost of an ordered selection of six candidates.
pub open spec fn perm_cost(cands: Seq<Color>, target: Seq<(Color, u32)>, t: Seq<int>) -> int {
    cost_upto(cands, target, t, 6)
}

/// The ordered selection that counter mm enumerates: the six base-n digits
/// of mm, most significant first. Counter order is exactly lexicographic
/// order of the selections.
pub open spec fn npow(b: int, e: nat) -> int
    decreases e,
{
    if e == 0 {
        1
    } else {
        b * npow(b, (e - 1) as nat)
    }
}

pub open spec fn sel_tuple(mm: int, n: int) -> Seq<int> {
    Seq::new(6, |j: int| (mm / npow(n, (5 - j) as nat)) % n)
}

/// No candidate picked twice.
pub open spec fn distinct_seq(t: Seq<int>) -> bool {
    forall|i: int, j: int| 0 <= i < j < t.len() ==> t[i] != t[j]
}

/// Counter mm enumerates a valid selection: within range and distinct.
pub open spec fn valid_sel(cands: Seq<Color>, mm: int) -> bool {
    let n = cands.len() as int;
    &&& 0 <= mm < npow(n, 6)
    &&& distinct_seq(sel_tuple(mm, n))
}

/// Counter mm is the first one that reaches the minimum total cost: the
/// selection is optimal over all valid selections, and among equally cheap
/// ones it is the first in enumeration order. Exactly one counter
/// satisfies this, so the matcher's answer is deterministic, ties
/// included.
pub open spec fn is_first_best(cands: Seq<Color>, target: Seq<(Color, u32)>, mm: int) -> bool {
    &&& valid_sel(cands, mm)
    &&& forall|m2: int|
        valid_sel(cands, m2) ==> perm_cost(cands, target, sel_tuple(mm, cands.len() as int))
            <= perm_cost(cands, target, #[trigger] sel_tuple(m2, cands.len() as int))
    &&& forall|m2: int|
        valid_sel(cands, m2) && perm_cost(cands, target, #[trigger] sel_tuple(m2, cands.len() as int))
            == perm_cost(cands, target, sel_tuple(mm, cands.len() as int)) ==> mm <= m2
}

/// Matcher determinism, ties included: only one enumeration counter can
/// be the first to reach the minimum cost, so the assignment the search
/// returns is the same on every run, even when distinct orderings tie
/// exactly.
pub proof fn lemma_first_best_unique(
    cands: Seq<Color>,
    target: Seq<(Color, u32)>,
    m1: int,
    m2: int,
)
    requires
        is_first_best(cands, target, m1),
        is_first_best(cands, target, m2),
    ensures
        m1 == m2,
{
    let n = cands.len() as int;
    assert(perm_cost(cands, target, sel_tuple(m1, n)) <= perm_cost(cands, target, sel_tuple(m2, n)));
    assert(perm_cost(cands, target, sel_tuple(m2, n)) <= perm_cost(cands, target, sel_tuple(m1, n)));
    assert(m1 <= m2 && m2 <= m1);
}

/// Component-wise sum of the colors' Lab triples.
pub open spec fn lab_sum(s: Seq<Color>) -> (int, int, int)
    decreases s.len(),
{
    if s.len() == 0 {
        (0, 0, 0)
    } else {
        let p = lab_sum(s.drop_last());
        let l = lab_of(s.last().r, s.last().g, s.last().b);
        (p.0 + l.0, p.1 + l.1, p.2 + l.2)
    }
}

/// The component-wise mean of the colors in Lab space, in micro-units,
/// with truncated division.
pub fn average_color(colors: &[Color]) -> (r: Lab)
    requires
        1 <= colors@.len() <= 100,
    ensures
        r.l == tdiv(lab_sum(colors@).0, colors@.len() as int),
        r.a == tdiv(lab_sum(colors@).1, colors@.len() as int),
        r.b == tdiv(lab_sum(colors@).2, colors@.len() as int),
        lab_wf(r),
{
    let mut sl: i64 = 0;
    let mut sa: i64 = 0;
    let mut sb: i64 = 0;
    let n = colors.len();
    for i in 0..n
        invariant
            1 <= n == colors@.len() <= 100,
            (sl as int, sa as int, sb as int) == lab_sum(colors@.take(i as int)),
            -129 * SCALE * i <= sl <= 129 * SCALE * i,
            -129 * SCALE * i <= sa <= 129 * SCALE * i,
            -129 * SCALE * i <= sb <= 129 * SCALE * i,
    {
        proof {
            assert(colors@.take(i + 1).drop_last() =~= colors@.take(i as int));
            assert(colors@.take(i + 1).last() == colors@[i as int]);
        }
        let v = lab_from_rgb(&colors[i]);
        proof {
            assert(-129 * SCALE * (i + 1) <= sl + v.l <= 129 * SCALE * (i + 1) && -129 * SCALE * (
            i + 1) <= sa + v.a <= 129 * SCALE * (i + 1) && -129 * SCALE * (i + 1) <= sb + v.b
                <= 129 * SCALE * (i + 1) && -12_900_000_000_000 <= sl + v.l <= 12_900_000_000_000
                && -12_900_000_000_000 <= sa + v.a <= 12_900_000_000_000 && -12_900_000_000_000
                <= sb + v.b <= 12_900_000_000_000) by (nonlinear_arith)
                requires
                    0 <= i <= 99,
                    SCALE == 1_000_000,
                    -129 * SCALE * i <= sl <= 129 * SCALE * i,
                    -129 * SCALE * i <= sa <= 129 * SCALE * i,
                    -129 * SCALE * i <= sb <= 129 * SCALE * i,
                    -SCALE <= v.l <= 101 * SCALE,
                    -129 * SCALE <= v.a <= 129 * SCALE,
                    -129 * SCALE <= v.b <= 129 * SCALE,
            ;
        }
        sl = sl + v.l;
        sa = sa + v.a;
        sb = sb + v.b;
    }
    proof {
        assert(colors@.take(n as int) =~= colors@);
        assert(-12_900_000_000_000 <= sl <= 12_900_000_000_000 && -12_900_000_000_000 <= sa
            <= 12_900_000_000_000 && -12_900_000_000_000 <= sb <= 12_900_000_000_000)
            by (nonlinear_arith)
            requires
                -129 * SCALE * n <= sl <= 129 * SCALE * n,
                -129 * SCALE * n <= sa <= 129 * SCALE * n,
                -129 * SCALE * n <= sb <= 129 * SCALE * n,
                1 <= n <= 100,
                SCALE == 1_000_000,
        ;
    }
    let nl = n as i64;
    proof {
        assert(nl as int == n as int);
        assert(-((129 * SCALE) * (n as int)) == -129 * SCALE * (n as int)) by (nonlinear_arith);
        assert(-129 * SCALE * (n as int) <= sl <= 129 * SCALE * (n as int));
        assert(-((129 * SCALE) * (n as int)) <= sl as int <= (129 * SCALE) * (n as int));
        assert(-129 * SCALE * (n as int) <= sa <= 129 * SCALE * (n as int));
        assert(-((129 * SCALE) * (n as int)) <= sa as int <= (129 * SCALE) * (n as int));
        assert(-129 * SCALE * (n as int) <= sb <= 129 * SCALE * (n as int));
        assert(-((129 * SCALE) * (n as int)) <= sb as int <= (129 * SCALE) * (n as int));
        crate::arith::lemma_tdiv_quotient_bound(sl as int, n as int, 129 * SCALE);
        crate::arith::lemma_tdiv_quotient_bound(sa as int, n as int, 129 * SCALE);
        crate::arith::lemma_tdiv_quotient_bound(sb as int, n as int, 129 * SCALE);
    }
    let rl = div_trunc(sl, nl);
    let ra = div_trunc(sa, nl);
    let rb = div_trunc(sb, nl);
    Lab { l: rl, a: ra, b: rb }
}

/// The component-wise mean of the colors in sRGB channel space, channels
/// in micro-units, with truncated division.
pub fn average_color2(colors: &[Color]) -> (r: (i64, i64, i64))
    requires
        1 <= colors@.len() <= 7,
    ensures
        r.0 == tdiv(SCALE * rgb_sum(colors@).0, colors@.len() as int),
        r.1 == tdiv(SCALE * rgb_sum(colors@).1, colors@.len() as int),
        r.2 == tdiv(SCALE * rgb_sum(colors@).2, colors@.len() as int),
{
    let s = sum_channels(colors);
    let nl = colors.len() as i64;
    (div_trunc(SCALE * s.0, nl), div_trunc(SCALE * s.1, nl), div_trunc(SCALE * s.2, nl))
}

/// Each color's Lab offset from the given average, component-wise.
pub fn minus_colors(colors: &[Color], average: &Lab) -> (r: Vec<Lab>)
    requires
        colors@.len() == 7,
        lab_wf(*average),
    ensures
        r@.len() == 7,
        forall|i: int|
            0 <= i < 7 ==> {
                let l = lab_of(colors@[i].r, colors@[i].g, colors@[i].b);
                (#[trigger] r@[i]).l == l.0 - average.l && r@[i].a == l.1 - average.a && r@[i].b
                    == l.2 - average.b
            },
{
    let mut out: Vec<Lab> = Vec::new();
    let n = colors.len();
    for i in 0..n
        invariant
            n == colors@.len() == 7,
            lab_wf(*average),
            out@.len() == i,
            forall|k: int|
                0 <= k < i ==> {
                    let l = lab_of(colors@[k].r, colors@[k].g, colors@[k].b);
                    (#[trigger] out@[k]).l == l.0 - average.l && out@[k].a == l.1 - average.a
                        && out@[k].b == l.2 - average.b
                },
    {
        let v = lab_from_rgb(&colors[i]);
        out.push(Lab { l: v.l - average.l, a: v.a - average.a, b: v.b - average.b });
    }
    out
}

/// Sum of all colors' channels, exactly as `rgb_sum`.
fn sum_channels(colors: &[Color]) -> (s: (i64, i64, i64))
    requires
        colors@.len() <= 7,
    ensures
        (s.0 as int, s.1 as int, s.2 as int) == rgb_sum(colors@),
        0 <= s.0 <= 255 * colors@.len(),
        0 <= s.1 <= 255 * colors@.len(),
        0 <= s.2 <= 255 * colors@.len(),
{
    let mut sr: i64 = 0;
    let mut sg: i64 = 0;
    let mut sb: i64 = 0;
    let n = colors.len();
    for i in 0..n
        invariant
            n == colors@.len() <= 7,
            (sr as int, sg as int, sb as int) == rgb_sum(colors@.take(i as int)),
            0 <= sr <= 255 * i,
            0 <= sg <= 255 * i,
            0 <= sb <= 255 * i,
    {
        proof {
            assert(colors@.take(i + 1).drop_last() =~= colors@.take(i as int));
            assert(colors@.take(i + 1).last() == colors@[i as int]);
        }
        sr = sr + colors[i].r as i64;
        sg = sg + colors[i].g as i64;
        sb = sb + colors[i].b as i64;
    }
    proof {
        assert(colors@.take(n as int) =~= colors@);
    }
    (sr, sg, sb)
}

/// Sum of the reference colors' channels, exactly as `target_rgb_sum`.
fn sum_target_channels(target: &[(Color, u32)]) -> (s: (i64, i64, i64))
    requires
        target@.len() <= 7,
    ensures
        (s.0 as int, s.1 as int, s.2 as int) == target_rgb_sum(target@),
        0 <= s.0 <= 255 * target@.len(),
        0 <= s.1 <= 255 * target@.len(),
        0 <= s.2 <= 255 * target@.len(),
{
    let mut sr: i64 = 0;
    let mut sg: i64 = 0;
    let mut sb: i64 = 0;
    let n = target.len();
    for i in 0..n
        invariant
            n == target@.len() <= 7,
            (sr as int, sg as int, sb as int) == target_rgb_sum(target@.take(i as int)),
            0 <= sr <= 255 * i,
            0 <= sg <= 255 * i,
            0 <= sb <= 255 * i,
    {
        proof {
            assert(target@.take(i + 1).drop_last() =~= target@.take(i as int));
            assert(target@.take(i + 1).last() == target@[i as int]);
        }
        sr = sr + target[i].0.r as i64;
        sg = sg + target[i].0.g as i64;
        sb = sb + target[i].0.b as i64;
    }
    proof {
        assert(target@.take(n as int) =~= target@);
    }
    (sr, sg, sb)
}

/// The weighted squared distance between two scaled offsets.
fn pair_cost_exec(u: (i64, i64, i64), v: (i64, i64, i64), w: u32) -> (c: i64)
    requires
        -11000 <= u.0 <= 11000,
        -11000 <= u.1 <= 11000,
        -11000 <= u.2 <= 11000,
        -11000 <= v.0 <= 11000,
        -11000 <= v.1 <= 11000,
        -11000 <= v.2 <= 11000,
        w <= 1000,
    ensures
        c == (w as int) * (sq(u.0 - v.0) + sq(u.1 - v.1) + sq(u.2 - v.2)),
        0 <= c <= 1_452_000_000_000,
{
    let dr = u.0 - v.0;
    let dg = u.1 - v.1;
    let db = u.2 - v.2;
    proof {
        assert(0 <= dr * dr <= 484_000_000 && 0 <= dg * dg <= 484_000_000 && 0 <= db * db
            <= 484_000_000) by (nonlinear_arith)
            requires
                -22000 <= dr <= 22000,
                -22000 <= dg <= 22000,
                -22000 <= db <= 22000,
        ;
    }
    let ss = dr * dr + dg * dg + db * db;
    proof {
        assert(0 <= (w as i64) * ss <= 1_452_000_000_000) by (nonlinear_arith)
            requires
                0 <= ss <= 1_452_000_000,
                0 <= w <= 1000,
        ;
    }
    (w as i64) * ss
}

/// Finds the ordered selection of six candidates that minimizes the
/// weighted, centered squared-distance cost against the six-entry target,
/// by exhaustive enumeration of all orderings; the first ordering reaching
/// the minimum, in lexicographic enumeration order, is kept, so ties
/// resolve the same way on every run.
pub fn closest_order(colors: &[Color], target: &[(Color, u32)]) -> (r: Vec<Color>)
    requires
        6 <= colors@.len() <= 7,
        target@.len() == 6,
        forall|j: int| 0 <= j < 6 ==> (#[trigger] target@[j]).1 <= 1000,
    ensures
        r@.len() == 6,
        exists|mm: int|
            #[trigger] is_first_best(colors@, target@, mm) && (forall|j: int|
                0 <= j < 6 ==> r@[j] == colors@[sel_tuple(mm, colors@.len() as int)[j]]),
{
    let n = colors.len();
    let nn = n as i64;
    let cs = sum_channels(colors);
    let ts = sum_target_channels(target);

    // Scaled centered offsets of every candidate and every reference.
    let mut coff: Vec<(i64, i64, i64)> = Vec::new();
    for i in 0..n
        invariant
            n == colors@.len(),
            6 <= n <= 7,
            nn == n,
            (cs.0 as int, cs.1 as int, cs.2 as int) == rgb_sum(colors@),
            0 <= cs.0 <= 255 * n,
            0 <= cs.1 <= 255 * n,
            0 <= cs.2 <= 255 * n,
            coff@.len() == i,
            forall|k: int|
                0 <= k < i ==> ((#[trigger] coff@[k]).0 as int, coff@[k].1 as int, coff@[k].2 as int)
                    == cand_off(colors@, k),
            forall|k: int|
                0 <= k < i ==> -11000 <= (#[trigger] coff@[k]).0 <= 11000 && -11000 <= coff@[k].1
                    <= 11000 && -11000 <= coff@[k].2 <= 11000,
    {
        let c = colors[i];
        proof {
            assert(-1785 <= nn * (c.r as i64) - cs.0 <= 1785 && -1785 <= nn * (c.g as i64) - cs.1
                <= 1785 && -1785 <= nn * (c.b as i64) - cs.2 <= 1785) by (nonlinear_arith)
                requires
                    6 <= nn <= 7,
                    0 <= c.r <= 255,
                    0 <= c.g <= 255,
                    0 <= c.b <= 255,
                    0 <= cs.0 <= 255 * nn,
                    0 <= cs.1 <= 255 * nn,
                    0 <= cs.2 <= 255 * nn,
            ;
        }
        let ur = 6 * (nn * (c.r as i64) - cs.0);
        let ug = 6 * (nn * (c.g as i64) - cs.1);
        let ub = 6 * (nn * (c.b as i64) - cs.2);
        coff.push((ur, ug, ub));
    }

    let mut roff: Vec<(i64, i64, i64)> = Vec::new();
    for j in 0..6usize
        invariant
            n == colors@.len(),
            6 <= n <= 7,
            nn == n,
            target@.len() == 6,
            (ts.0 as int, ts.1 as int, ts.2 as int) == target_rgb_sum(target@),
            0 <= ts.0 <= 1530,
            0 <= ts.1 <= 1530,
            0 <= ts.2 <= 1530,
            roff@.len() == j,
            forall|k: int|
                0 <= k < j ==> ((#[trigger] roff@[k]).0 as int, roff@[k].1 as int, roff@[k].2 as int)
                    == ref_off(target@, n as int, k),
            forall|k: int|
                0 <= k < j ==> -11000 <= (#[trigger] roff@[k]).0 <= 11000 && -11000 <= roff@[k].1
                    <= 11000 && -11000 <= roff@[k].2 <= 11000,
    {
        let t = target[j].0;
        proof {
            assert(-11000 <= nn * (6 * (t.r as i64) - ts.0) <= 11000 && -11000 <= nn * (6 * (t.g
                as i64) - ts.1) <= 11000 && -11000 <= nn * (6 * (t.b as i64) - ts.2) <= 11000)
                by (nonlinear_arith)
                requires
                    6 <= nn <= 7,
                    0 <= t.r <= 255,
                    0 <= t.g <= 255,
                    0 <= t.b <= 255,
                    0 <= ts.0 <= 1530,
                    0 <= ts.1 <= 1530,
                    0 <= ts.2 <= 1530,
            ;
        }
        let vr = nn * (6 * (t.r as i64) - ts.0);
        let vg = nn * (6 * (t.g as i64) - ts.1);
        let vb = nn * (6 * (t.b as i64) - ts.2);
        roff.push((vr, vg, vb));
    }

    // Powers of n for decoding enumeration counters into selections.
    let nu = n as u64;
    let p5: u64 = 1;
    let p4: u64 = nu;
    proof {
        assert(36 <= nu * p4 <= 49) by (nonlinear_arith)
            requires
                6 <= nu <= 7 && p4 == nu,
        ;
    }
    let p3: u64 = nu * p4;
    proof {
        assert(216 <= nu * p3 <= 343) by (nonlinear_arith)
            requires
                6 <= nu <= 7 && 36 <= p3 <= 49,
        ;
    }
    let p2: u64 = nu * p3;
    proof {
        assert(1296 <= nu * p2 <= 2401) by (nonlinear_arith)
            requires
                6 <= nu <= 7 && 216 <= p2 <= 343,
        ;
    }
    let p1: u64 = nu * p2;
    proof {
        assert(7776 <= nu * p1 <= 16807) by (nonlinear_arith)
            requires
                6 <= nu <= 7 && 1296 <= p1 <= 2401,
        ;
    }
    let p0: u64 = nu * p1;
    proof {
        assert(46656 <= nu * p0 <= 117649) by (nonlinear_arith)
            requires
                6 <= nu <= 7 && 7776 <= p0 <= 16807,
        ;
    }
    let total: u64 = nu * p0;
    proof {
        assert(npow(nu as int, 0) == 1);
        assert(npow(nu as int, 1) == nu * npow(nu as int, 0));
        assert(npow(nu as int, 2) == nu * npow(nu as int, 1));
        assert(npow(nu as int, 3) == nu * npow(nu as int, 2));
        assert(npow(nu as int, 4) == nu * npow(nu as int, 3));
        assert(npow(nu as int, 5) == nu * npow(nu as int, 4));
        assert(npow(nu as int, 6) == nu * npow(nu as int, 5));
    }

    let mut found: bool = false;
    let mut best_m: u64 = 0;
    let mut best_cost: i64 = 0;
    let mut best_t: [usize; 6] = [0, 0, 0, 0, 0, 0];
    let mut mm: u64 = 0;
    while mm < total
        invariant
            n == colors@.len(),
            6 <= n <= 7,
            nn == n,
            nu == n,
            target@.len() == 6,
            forall|j: int| 0 <= j < 6 ==> (#[trigger] target@[j]).1 <= 1000,
            coff@.len() == n,
            forall|k: int|
                0 <= k < n ==> ((#[trigger] coff@[k]).0 as int, coff@[k].1 as int, coff@[k].2 as int)
                    == cand_off(colors@, k),
            forall|k: int|
                0 <= k < n ==> -11000 <= (#[trigger] coff@[k]).0 <= 11000 && -11000 <= coff@[k].1
                    <= 11000 && -11000 <= coff@[k].2 <= 11000,
            roff@.len() == 6,
            forall|k: int|
                0 <= k < 6 ==> ((#[trigger] roff@[k]).0 as int, roff@[k].1 as int, roff@[k].2 as int)
                    == ref_off(target@, n as int, k),
            forall|k: int|
                0 <= k < 6 ==> -11000 <= (#[trigger] roff@[k]).0 <= 11000 && -11000 <= roff@[k].1
                    <= 11000 && -11000 <= roff@[k].2 <= 11000,
            p5 == npow(n as int, 0),
            p4 == npow(n as int, 1),
            p3 == npow(n as int, 2),
            p2 == npow(n as int, 3),
            p1 == npow(n as int, 4),
            p0 == npow(n as int, 5),
            total == npow(n as int, 6),
            p5 == 1 && 6 <= p4 <= 7 && 36 <= p3 <= 49 && 216 <= p2 <= 343,
            1296 <= p1 <= 2401 && 7776 <= p0 <= 16807,
            total <= 117649,
            mm <= total,
            !found ==> forall|m2: int| 0 <= m2 < mm ==> !valid_sel(colors@, m2),
            found ==> valid_sel(colors@, best_m as int) && best_m < mm,
            found ==> best_cost == perm_cost(colors@, target@, sel_tuple(best_m as int, n as int)),
            found ==> (forall|j: int|
                0 <= j < 6 ==> best_t@[j] == sel_tuple(best_m as int, n as int)[j] && best_t@[j]
                    < n),
            found ==> (forall|m2: int|
                0 <= m2 < mm && valid_sel(colors@, m2) ==> best_cost <= perm_cost(
                    colors@,
                    target@,
                    #[trigger] sel_tuple(m2, n as int),
                )),
            found ==> (forall|m2: int|
                0 <= m2 < mm && valid_sel(colors@, m2) && perm_cost(
                    colors@,
                    target@,
                    #[trigger] sel_tuple(m2, n as int),
                ) == best_cost ==> best_m <= m2),
        decreases total - mm,
    {
        let t0 = ((mm / p0) % nu) as usize;
        let t1 = ((mm / p1) % nu) as usize;
        let t2 = ((mm / p2) % nu) as usize;
        let t3 = ((mm / p3) % nu) as usize;
        let t4 = ((mm / p4) % nu) as usize;
        let t5 = ((mm / p5) % nu) as usize;
        let ghost tsq = sel_tuple(mm as int, n as int);
        proof {
            assert(tsq[0] == t0 && tsq[1] == t1 && tsq[2] == t2 && tsq[3] == t3 && tsq[4] == t4
                && tsq[5] == t5);
            assert(t0 < n && t1 < n && t2 < n && t3 < n && t4 < n && t5 < n);
        }
        let dis = t0 != t1 && t0 != t2 && t0 != t3 && t0 != t4 && t0 != t5 && t1 != t2 && t1 != t3
            && t1 != t4 && t1 != t5 && t2 != t3 && t2 != t4 && t2 != t5 && t3 != t4 && t3 != t5
            && t4 != t5;
        proof {
            if dis {
                assert forall|i: int, j: int| 0 <= i < j < 6 implies tsq[i] != tsq[j] by {
                    assert(tsq.len() == 6);
                }
                assert(distinct_seq(tsq));
            } else {
                assert(!distinct_seq(tsq));
            }
        }
        if dis {
            let c0 = pair_cost_exec(coff[t0], roff[0], target[0].1);
            let c1 = pair_cost_exec(coff[t1], roff[1], target[1].1);
            let c2 = pair_cost_exec(coff[t2], roff[2], target[2].1);
            let c3 = pair_cost_exec(coff[t3], roff[3], target[3].1);
            let c4 = pair_cost_exec(coff[t4], roff[4], target[4].1);
            let c5 = pair_cost_exec(coff[t5], roff[5], target[5].1);
            let cost = c0 + c1 + c2 + c3 + c4 + c5;
            proof {
                assert(c0 == pair_cost(colors@, target@, 0, tsq[0]));
                assert(c1 == pair_cost(colors@, target@, 1, tsq[1]));
                assert(c2 == pair_cost(colors@, target@, 2, tsq[2]));
                assert(c3 == pair_cost(colors@, target@, 3, tsq[3]));
                assert(c4 == pair_cost(colors@, target@, 4, tsq[4]));
                assert(c5 == pair_cost(colors@, target@, 5, tsq[5]));
                assert(cost_upto(colors@, target@, tsq, 0) == 0);
                assert(cost_upto(colors@, target@, tsq, 1) == c0);
                assert(cost_upto(colors@, target@, tsq, 2) == c0 + c1);
                assert(cost_upto(colors@, target@, tsq, 3) == c0 + c1 + c2);
                assert(cost_upto(colors@, target@, tsq, 4) == c0 + c1 + c2 + c3);
                assert(cost_upto(colors@, target@, tsq, 5) == c0 + c1 + c2 + c3 + c4);
                assert(cost == perm_cost(colors@, target@, tsq));
            }
            if !found || cost < best_cost {
                found = true;
                best_m = mm;
                best_cost = cost;
                best_t = [t0, t1, t2, t3, t4, t5];
            }
        }
        mm = mm + 1;
    }

    // A valid selection always exists: picking the first six candidates in
    // order is one, so the search cannot have come up empty.
    proof {
        if !found {
            if n == 6 {
                assert(npow(6, 0) == 1);
                assert(npow(6, 1) == 6);
                assert(npow(6, 2) == 36);
                assert(npow(6, 3) == 216);
                assert(npow(6, 4) == 1296);
                assert(npow(6, 5) == 7776);
                assert(npow(6, 6) == 46656);
                let s = sel_tuple(1865, 6);
                assert(s[0] == (1865 as int / 7776) % 6);
                assert(s[1] == (1865 as int / 1296) % 6);
                assert(s[2] == (1865 as int / 216) % 6);
                assert(s[3] == (1865 as int / 36) % 6);
                assert(s[4] == (1865 as int / 6) % 6);
                assert(s[5] == (1865 as int / 1) % 6);
                assert(s[0] == 0 && s[1] == 1 && s[2] == 2 && s[3] == 3 && s[4] == 4 && s[5]
                    == 5);
                assert forall|i: int, j: int| 0 <= i < j < 6 implies s[i] != s[j] by {
                    assert(s.len() == 6);
                }
                assert(valid_sel(colors@, 1865));
            } else {
                assert(npow(7, 0) == 1);
                assert(npow(7, 1) == 7);
                assert(npow(7, 2) == 49);
                assert(npow(7, 3) == 343);
                assert(npow(7, 4) == 2401);
                assert(npow(7, 5) == 16807);
                assert(npow(7, 6) == 117649);
                let s = sel_tuple(3267, 7);
                assert(s[0] == (3267 as int / 16807) % 7);
                assert(s[1] == (3267 as int / 2401) % 7);
                assert(s[2] == (3267 as int / 343) % 7);
                assert(s[3] == (3267 as int / 49) % 7);
                assert(s[4] == (3267 as int / 7) % 7);
                assert(s[5] == (3267 as int / 1) % 7);
                assert(s[0] == 0 && s[1] == 1 && s[2] == 2 && s[3] == 3 && s[4] == 4 && s[5]
                    == 5);
                assert forall|i: int, j: int| 0 <= i < j < 6 implies s[i] != s[j] by {
                    assert(s.len() == 6);
                }
                assert(valid_sel(colors@, 3267));
            }
            assert(false);
        }
    }

    let mut out: Vec<Color> = Vec::new();
    for j in 0..6usize
        invariant
            n == colors@.len(),
            6 <= n <= 7,
            forall|k: int|
                0 <= k < 6 ==> best_t@[k] == sel_tuple(best_m as int, n as int)[k] && best_t@[k]
                    < n,
            out@.len() == j,
            forall|k: int|
                0 <= k < j ==> out@[k] == colors@[sel_tuple(best_m as int, n as int)[k]],
    {
        out.push(colors[best_t[j]]);
    }
    proof {
        assert(is_first_best(colors@, target@, best_m as int));
    }
    out
}

/// Assigns six of the candidate hues to the six canonical terminal color
/// identities, minimizing the weighted centered squared-distance cost by
/// exhaustive search, and returns the canonical (name, color, weight)
/// records in the fixed order red, yellow, green, cyan, blue, magenta.
pub fn get_matching_absolute_color(colors: &[Color]) -> (r: Vec<ColorNameWeight>)
    requires
        6 <= colors@.len() <= 7,
    ensures
        r@.len() == 6,
        exists|mm: int|
            #[trigger] is_first_best(colors@, canonical_refs(), mm) && (forall|j: int|
                0 <= j < 6 ==> (#[trigger] r@[j]).color == colors@[sel_tuple(
                    mm,
                    colors@.len() as int,
                )[j]]),
        forall|j: int| 0 <= j < 6 ==> (#[trigger] r@[j]).name@ == canonical_name(j),
        forall|j: int| 0 <= j < 6 ==> (#[trigger] r@[j]).weight == canonical_refs()[j].1,
{
    let mut target: Vec<(Color, u32)> = Vec::new();
    target.push((Color::new(255, 0, 0), 9));
    target.push((Color::new(255, 255, 0), 9));
    target.push((Color::new(0, 255, 0), 9));
    target.push((Color::new(0, 255, 255), 1));
    target.push((Color::new(0, 0, 255), 1));
    target.push((Color::new(255, 0, 255), 1));
    proof {
        assert(target@ =~= canonical_refs());
    }
    let sel = closest_order(colors, target.as_slice());
    let mut out: Vec<ColorNameWeight> = Vec::new();
    out.push(ColorNameWeight { color: sel[0], name: String::from_str("red"), weight: 9 });
    out.push(ColorNameWeight { color: sel[1], name: String::from_str("yellow"), weight: 9 });
    out.push(ColorNameWeight { color: sel[2], name: String::from_str("green"), weight: 9 });
    out.push(ColorNameWeight { color: sel[3], name: String::from_str("cyan"), weight: 1 });
    out.push(ColorNameWeight { color: sel[4], name: String::from_str("blue"), weight: 1 });
    out.push(ColorNameWeight { color: sel[5], name: String::from_str("magenta"), weight: 1 });
    proof {
        let mm = choose|mm: int|
            #[trigger] is_first_best(colors@, canonical_refs(), mm) && (forall|j: int|
                0 <= j < 6 ==> sel@[j] == colors@[sel_tuple(mm, colors@.len() as int)[j]]);
        assert(is_first_best(colors@, canonical_refs(), mm) && (forall|j: int|
            0 <= j < 6 ==> (#[trigger] out@[j]).color == colors@[sel_tuple(
                mm,
                colors@.len() as int,
            )[j]]));
    }
    out
}

} // verus!
