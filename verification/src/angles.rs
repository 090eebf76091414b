use vstd::prelude::*;
use crate::convert::TURN;
use crate::rng::{rng_between, shuffle_angles};

verus! {

broadcast use vstd::seq_lib::group_to_multiset_ensures;

/// Angles sorted ascending.
pub open spec fn sorted_u32(s: Seq<u32>) -> bool {
    forall|i: int, j: int| 0 <= i <= j < s.len() ==> s[i] <= s[j]
}

/// The i-th of k angles distributed evenly around the circle from `start`.
pub open spec fn even_pos(start: int, k: int, i: int) -> u32
    recommends
        k > 0,
{
    (((start + i * (TURN as int) / k)) % (TURN as int)) as u32
}

/// k angles distributed evenly around the circle from `start`.
pub open spec fn even_seq(start: int, k: int) -> Seq<u32>
    recommends
        k > 0,
{
    Seq::new(k as nat, |i: int| even_pos(start, k, i))
}

/// The circular gap after sorted angle i: the distance, modulo a full
/// circle, to the next sorted angle.
pub open spec fn gap_at(ds: Seq<u32>, i: int) -> u32
    recommends
        0 <= i < ds.len(),
{
    (((ds[(i + 1) % (ds.len() as int)] + (TURN as int) - ds[i])) % (TURN as int)) as u32
}

pub open spec fn gaps_of(ds: Seq<u32>) -> Seq<u32> {
    Seq::new(ds.len(), |i: int| gap_at(ds, i))
}

/// Gap i with c1 assigned angles offers a strictly fairer next spot than
/// gap j with c2 assigned: its gap size divided by one more than its count
/// is larger. Compared by cross-multiplication, which is exact.
pub open spec fn fairer(g1: u32, c1: u32, g2: u32, c2: u32) -> bool {
    (g1 as int) * (c2 as int + 1) > (g2 as int) * (c1 as int + 1)
}

/// Index i is the gap the round-robin rule assigns the next angle to: no
/// gap is strictly fairer, and every later gap is strictly less fair (on
/// exact ties the last gap wins, matching a maximum scan that replaces on
/// equality).
pub open spec fn is_pick(gs: Seq<u32>, cs: Seq<u32>, i: int) -> bool {
    &&& 0 <= i < gs.len()
    &&& forall|j: int| 0 <= j < gs.len() ==> !fairer(gs[j], cs[j], gs[i], cs[i])
    &&& forall|j: int| i < j < gs.len() ==> fairer(gs[i], cs[i], gs[j], cs[j])
}

/// At most one index can be the pick.
pub proof fn lemma_pick_unique(gs: Seq<u32>, cs: Seq<u32>, i1: int, i2: int)
    requires
        is_pick(gs, cs, i1),
        is_pick(gs, cs, i2),
    ensures
        i1 == i2,
{
    if i1 < i2 {
        assert(fairer(gs[i1], cs[i1], gs[i2], cs[i2]));
        assert(!fairer(gs[i1], cs[i1], gs[i2], cs[i2]));
    }
    if i2 < i1 {
        assert(fairer(gs[i2], cs[i2], gs[i1], cs[i1]));
        assert(!fairer(gs[i2], cs[i2], gs[i1], cs[i1]));
    }
}

/// The per-gap assignment counts after k rounds of the round-robin rule.
pub open spec fn counts_after(gs: Seq<u32>, k: nat) -> Seq<u32>
    decreases k,
{
    if k == 0 {
        Seq::new(gs.len(), |i: int| 0u32)
    } else {
        let prev = counts_after(gs, (k - 1) as nat);
        let i = choose|i: int| is_pick(gs, prev, i);
        prev.update(i, (prev[i] + 1) as u32)
    }
}

/// The angles placed evenly inside gap i, between its sorted angle and the
/// next: the j-th new angle sits (j+1) shares of the way into the gap.
pub open spec fn slot_positions(ds: Seq<u32>, cs: Seq<u32>, i: int) -> Seq<u32>
    recommends
        0 <= i < ds.len(),
        ds.len() == cs.len(),
{
    Seq::new(
        cs[i] as nat,
        |j: int| (((ds[i] + (j + 1) * (gap_at(ds, i) as int) / (cs[i] as int + 1))) % (
        TURN as int)) as u32,
    )
}

/// All new angles of the first `upto` gaps, in slot order.
pub open spec fn packed_seq(ds: Seq<u32>, cs: Seq<u32>, upto: int) -> Seq<u32>
    decreases upto,
{
    if upto <= 0 {
        Seq::empty()
    } else {
        packed_seq(ds, cs, upto - 1) + slot_positions(ds, cs, upto - 1)
    }
}

/// Sum of the first `upto` counts.
pub open spec fn cnt_sum(cs: Seq<u32>, upto: int) -> int
    decreases upto,
{
    if upto <= 0 {
        0
    } else {
        cnt_sum(cs, upto - 1) + cs[upto - 1]
    }
}

proof fn lemma_cnt_sum_update(cs: Seq<u32>, i: int, v: u32, upto: int)
    requires
        0 <= i < cs.len(),
        upto <= cs.len(),
    ensures
        cnt_sum(cs.update(i, v), upto) == if i < upto {
            cnt_sum(cs, upto) + v - cs[i]
        } else {
            cnt_sum(cs, upto)
        },
    decreases upto,
{
    if upto > 0 {
        lemma_cnt_sum_update(cs, i, v, upto - 1);
    }
}

proof fn lemma_packed_len(ds: Seq<u32>, cs: Seq<u32>, upto: int)
    requires
        upto <= cs.len(),
    ensures
        packed_seq(ds, cs, upto).len() == cnt_sum(cs, upto),
    decreases upto,
{
    if upto > 0 {
        lemma_packed_len(ds, cs, upto - 1);
    }
}

/// Strict fairness orders consistently: cross-multiplied ratio comparison
/// is transitive for non-negative sizes and counts.
proof fn lemma_fairness_trans(g1: u32, c1: u32, g2: u32, c2: u32, g3: u32, c3: u32)
    requires
        !fairer(g1, c1, g2, c2),
        !fairer(g2, c2, g3, c3),
    ensures
        !fairer(g1, c1, g3, c3),
{
    assert((g1 as int) * (c2 as int + 1) <= (g2 as int) * (c1 as int + 1));
    assert((g2 as int) * (c3 as int + 1) <= (g3 as int) * (c2 as int + 1));
    assert((g1 as int) * (c3 as int + 1) <= (g3 as int) * (c1 as int + 1)) by (nonlinear_arith)
        requires
            (g1 as int) * (c2 as int + 1) <= (g2 as int) * (c1 as int + 1),
            (g2 as int) * (c3 as int + 1) <= (g3 as int) * (c2 as int + 1),
            g1 as int >= 0 && g2 as int >= 0 && g3 as int >= 0,
            c1 as int >= 0 && c2 as int >= 0 && c3 as int >= 0,
    ;
}

/// Insertion sort: a sorted copy of the angle values.
fn sort_angles(v: &Vec<u32>) -> (out: Vec<u32>)
    ensures
        out@.len() == v@.len(),
        out@.to_multiset() == v@.to_multiset(),
        sorted_u32(out@),
{
    let mut out: Vec<u32> = Vec::new();
    let n = v.len();
    for i in 0..n
        invariant
            n == v@.len(),
            out@.len() == i,
            sorted_u32(out@),
            out@.to_multiset() == v@.take(i as int).to_multiset(),
    {
        let x = v[i];
        let mut p: usize = 0;
        while p < out.len() && out[p] <= x
            invariant
                0 <= p <= out@.len(),
                forall|q: int| 0 <= q < p ==> out@[q] <= x,
            decreases out@.len() - p,
        {
            p = p + 1;
        }
        let ghost pre = out@;
        out.insert(p, x);
        proof {
            pre.insert_ensures(p as int, x);
            assert(sorted_u32(out@)) by {
                assert forall|a: int, b: int| 0 <= a <= b < out@.len() implies out@[a] <= out@[b]
                    by {
                    if a < p && b > p {
                        assert(out@[a] == pre[a] && out@[b] == pre[b - 1]);
                    }
                }
            }
            assert(v@.take(i + 1).drop_last() =~= v@.take(i as int));
            assert(v@.take(i + 1) =~= v@.take(i as int).push(x));
            assert(out@.to_multiset() =~= v@.take(i + 1).to_multiset());
        }
    }
    proof {
        assert(v@.take(n as int) =~= v@);
    }
    out
}

/// What the packing promises of its result: one new angle per missing
/// accent, all within the circle; with no existing angles an exactly even
/// spread from some random start, otherwise the round-robin subdivision
/// of the sorted angles' circular gaps.
pub open spec fn packed_angles_ok(angles: Seq<u32>, r: Seq<u32>) -> bool {
    &&& r.len() == 7 - angles.len()
    &&& forall|i: int| 0 <= i < r.len() ==> r[i] < TURN
    &&& (angles.len() == 0 ==> exists|start: int|
        0 <= start < TURN && r.to_multiset() == even_seq(start, 7).to_multiset())
    &&& (1 <= angles.len() < 7 ==> exists|ds: Seq<u32>|
        sorted_u32(ds) && ds.to_multiset() == angles.to_multiset() && r.to_multiset()
            == packed_seq(
            ds,
            counts_after(gaps_of(ds), (7 - angles.len()) as nat),
            ds.len() as int,
        ).to_multiset())
}

/// Chooses hue angles for the unset accent slots. With no existing angles,
/// the new ones are spread exactly evenly from a random start. Otherwise
/// the existing angles' circular gaps are filled round-robin, each next
/// angle going to the gap with the largest size per assigned angle, and
/// the angles of each gap are placed evenly inside it. The result is
/// shuffled so that slot order carries no angular pattern.
pub fn get_new_angles(rng: &mut rand::rngs::SmallRng, angles: &Vec<u32>) -> (r: Vec<u32>)
    requires
        angles@.len() <= 7,
        forall|i: int| 0 <= i < angles@.len() ==> angles@[i] < TURN,
    ensures
        packed_angles_ok(angles@, r@),
{
    let remaining: usize = 7 - angles.len();
    let mut rtn: Vec<u32> = Vec::new();
    if remaining == 0 {
        return rtn;
    }
    if angles.len() == 0 {
        let start_draw = rng_between(rng, 0, (TURN - 1) as i64);
        let start = start_draw as u32;
        proof {
            vstd::arithmetic::div_mod::lemma_small_mod(start as nat, TURN as nat);
            assert(even_pos(start as int, 7, 0) == start);
        }
        rtn.push(start);
        for i in 1..7usize
            invariant
                start < TURN,
                rtn@.len() == i,
                forall|j: int| 0 <= j < i ==> rtn@[j] == even_pos(start as int, 7, j),
        {
            let pos = (((start as u64) + (i as u64) * (TURN as u64) / 7) % (TURN as u64)) as u32;
            rtn.push(pos);
        }
        proof {
            assert(rtn@ =~= even_seq(start as int, 7));
        }
        shuffle_angles(rng, &mut rtn);
        proof {
            assert forall|i: int| 0 <= i < rtn@.len() implies rtn@[i] < TURN by {
                assert(rtn@.to_multiset().count(rtn@[i]) > 0);
                assert(even_seq(start as int, 7).contains(rtn@[i]));
            }
        }
        return rtn;
    }

    let ds = sort_angles(angles);
    proof {
        assert forall|i: int| 0 <= i < ds@.len() implies ds@[i] < TURN by {
            assert(ds@.to_multiset().count(ds@[i]) > 0);
            assert(angles@.contains(ds@[i]));
        }
    }
    let ll = ds.len();

    let mut gaps: Vec<u32> = Vec::new();
    for i in 0..ll
        invariant
            1 <= ll == ds@.len() <= 7,
            forall|k: int| 0 <= k < ll ==> ds@[k] < TURN,
            gaps@.len() == i,
            forall|k: int| 0 <= k < i ==> gaps@[k] == gap_at(ds@, k) && gaps@[k] < TURN,
    {
        let nxt = ds[(i + 1) % ll];
        let g = (((nxt as u64) + (TURN as u64) - (ds[i] as u64)) % (TURN as u64)) as u32;
        gaps.push(g);
    }
    proof {
        assert(gaps@ =~= gaps_of(ds@));
    }

    let mut cnt: Vec<u32> = Vec::new();
    for i in 0..ll
        invariant
            cnt@.len() == i,
            forall|k: int| 0 <= k < i ==> cnt@[k] == 0,
    {
        cnt.push(0);
    }
    proof {
        assert(cnt@ =~= counts_after(gaps@, 0));
        assert(cnt_sum(cnt@, ll as int) == 0) by {
            assert forall|u: int| 0 <= u <= ll implies cnt_sum(counts_after(gaps@, 0), u) == 0 by {
                lemma_cnt_sum_zero(gaps@, u);
            }
        }
    }

    let mut step: usize = 0;
    while step < remaining
        invariant
            1 <= ll == ds@.len() <= 7,
            gaps@.len() == ll,
            cnt@.len() == ll,
            step <= remaining <= 6,
            gaps@ == gaps_of(ds@),
            forall|k: int| 0 <= k < ll ==> gaps@[k] < TURN,
            cnt@ == counts_after(gaps@, step as nat),
            cnt_sum(cnt@, ll as int) == step,
            forall|k: int| 0 <= k < ll ==> cnt@[k] <= step,
        decreases remaining - step,
    {
        let mut best: usize = 0;
        let mut j: usize = 1;
        while j < ll
            invariant
                1 <= ll == gaps@.len() == cnt@.len(),
                best < j <= ll,
                forall|k: int| 0 <= k < ll ==> gaps@[k] < TURN,
                forall|k: int| 0 <= k < ll ==> cnt@[k] <= 6,
                forall|q: int|
                    0 <= q < j ==> !fairer(
                        gaps@[q],
                        cnt@[q],
                        gaps@[best as int],
                        cnt@[best as int],
                    ),
                forall|q: int|
                    best < q < j ==> fairer(
                        gaps@[best as int],
                        cnt@[best as int],
                        gaps@[q],
                        cnt@[q],
                    ),
            decreases ll - j,
        {
            let gj = gaps[j] as u64;
            let cj = cnt[j] as u64;
            let gb = gaps[best] as u64;
            let cb = cnt[best] as u64;
            proof {
                assert(gb * (cj + 1) <= 25_200_000 && gj * (cb + 1) <= 25_200_000)
                    by (nonlinear_arith)
                    requires
                        0 <= gb <= 3_600_000,
                        0 <= gj <= 3_600_000,
                        0 <= cb <= 6,
                        0 <= cj <= 6,
                ;
            }
            if gb * (cj + 1) <= gj * (cb + 1) {
                proof {
                    assert forall|q: int| 0 <= q < j implies !fairer(
                        gaps@[q],
                        cnt@[q],
                        gaps@[j as int],
                        cnt@[j as int],
                    ) by {
                        lemma_fairness_trans(
                            gaps@[q],
                            cnt@[q],
                            gaps@[best as int],
                            cnt@[best as int],
                            gaps@[j as int],
                            cnt@[j as int],
                        );
                    }
                }
                best = j;
            }
            j = j + 1;
        }
        proof {
            assert(is_pick(gaps@, cnt@, best as int));
        }
        let ghost prev = cnt@;
        let c = cnt[best];
        cnt[best] = c + 1;
        proof {
            let ch = choose|i: int| is_pick(gaps@, prev, i);
            assert(is_pick(gaps@, prev, best as int));
            lemma_pick_unique(gaps@, prev, ch, best as int);
            assert(cnt@ =~= counts_after(gaps@, (step + 1) as nat));
            lemma_cnt_sum_update(prev, best as int, (c + 1) as u32, ll as int);
        }
        step = step + 1;
    }

    for i in 0..ll
        invariant
            1 <= ll == ds@.len() <= 7,
            gaps@.len() == ll,
            cnt@.len() == ll,
            remaining <= 6,
            forall|k: int| 0 <= k < ll ==> ds@[k] < TURN,
            forall|k: int| 0 <= k < ll ==> gaps@[k] == gap_at(ds@, k) && gaps@[k] < TURN,
            forall|k: int| 0 <= k < ll ==> cnt@[k] <= remaining,
            gaps@ == gaps_of(ds@),
            cnt@ == counts_after(gaps@, remaining as nat),
            cnt_sum(cnt@, ll as int) == remaining,
            rtn@ == packed_seq(ds@, cnt@, i as int),
    {
        let c = cnt[i];
        let mut j: u32 = 0;
        while j < c
            invariant
                0 <= i < ll == ds@.len() == gaps@.len() == cnt@.len(),
                j <= c == cnt@[i as int] <= 6,
                forall|k: int| 0 <= k < ll ==> ds@[k] < TURN,
                forall|k: int| 0 <= k < ll ==> gaps@[k] == gap_at(ds@, k) && gaps@[k] < TURN,
                rtn@ == packed_seq(ds@, cnt@, i as int) + slot_positions(ds@, cnt@, i as int).take(
                    j as int,
                ),
            decreases c - j,
        {
            let g = gaps[i] as u64;
            proof {
                assert(((j as u64) + 1) * g <= 25_200_000) by (nonlinear_arith)
                    requires
                        0 <= j <= 6,
                        0 <= g <= 3_600_000,
                ;
            }
            let pos = (((ds[i] as u64) + ((j as u64) + 1) * g / ((c as u64) + 1)) % (
            TURN as u64)) as u32;
            proof {
                let sp = slot_positions(ds@, cnt@, i as int);
                assert(sp[j as int] == pos);
                assert(sp.take(j + 1) =~= sp.take(j as int).push(sp[j as int]));
            }
            rtn.push(pos);
            j = j + 1;
        }
        proof {
            let sp = slot_positions(ds@, cnt@, i as int);
            assert(sp.take(c as int) =~= sp);
            assert(rtn@ =~= packed_seq(ds@, cnt@, i + 1));
        }
    }
    proof {
        lemma_packed_len(ds@, cnt@, ll as int);
        assert forall|i: int| 0 <= i < rtn@.len() implies rtn@[i] < TURN by {
            lemma_packed_elems(ds@, cnt@, ll as int, i);
        }
    }
    shuffle_angles(rng, &mut rtn);
    proof {
        let ghost packed = packed_seq(ds@, counts_after(gaps_of(ds@), remaining as nat), ll as int);
        assert forall|i: int| 0 <= i < rtn@.len() implies rtn@[i] < TURN by {
            assert(rtn@.to_multiset().count(rtn@[i]) > 0);
            assert(packed.contains(rtn@[i]));
            let k = choose|k: int| 0 <= k < packed.len() && packed[k] == rtn@[i];
            lemma_packed_elems(ds@, counts_after(gaps_of(ds@), remaining as nat), ll as int, k);
        }
    }
    rtn
}

proof fn lemma_cnt_sum_zero(gs: Seq<u32>, upto: int)
    requires
        0 <= upto <= gs.len(),
    ensures
        cnt_sum(counts_after(gs, 0), upto) == 0,
    decreases upto,
{
    if upto > 0 {
        lemma_cnt_sum_zero(gs, upto - 1);
    }
}

/// A sum's quotient is the quotients' sum, or one more.
proof fn lemma_div_of_sum(a: int, b: int, k: int)
    requires
        k > 0,
        a >= 0,
        b >= 0,
    ensures
        a / k + b / k <= (a + b) / k <= a / k + b / k + 1,
{
    vstd::arithmetic::div_mod::lemma_fundamental_div_mod(a, k);
    vstd::arithmetic::div_mod::lemma_fundamental_div_mod(b, k);
    let qa = a / k;
    let ra = a % k;
    let qb = b / k;
    let rb = b % k;
    assert(k * qa + k * qb == k * (qa + qb) && (qa + qb) * k == k * (qa + qb) && (qa + qb + 1) * k
        == k * (qa + qb) + k) by (nonlinear_arith);
    if ra + rb < k {
        vstd::arithmetic::div_mod::lemma_fundamental_div_mod_converse(a + b, k, qa + qb, ra + rb);
    } else {
        vstd::arithmetic::div_mod::lemma_fundamental_div_mod_converse(
            a + b,
            k,
            qa + qb + 1,
            ra + rb - k,
        );
    }
}

/// Angle packing coverage: with no existing accents, any two angles at
/// neighbouring indices of the even spread sit exactly one k-th of the
/// circle apart, up to the one unit the integer division may round away.
pub proof fn lemma_even_seq_spacing(start: int, k: int, i: int)
    requires
        0 <= start < TURN,
        1 <= k <= 7,
        0 <= i < k - 1,
    ensures
        ({
            let t = TURN as int;
            let d = (even_seq(start, k)[i + 1] - even_seq(start, k)[i]) % t;
            t / k <= d <= t / k + 1
        }),
{
    let t = TURN as int;
    let qi = i * t / k;
    let qj = (i + 1) * t / k;
    assert((i + 1) * t == i * t + t) by (nonlinear_arith);
    assert(0 <= i * t) by (nonlinear_arith)
        requires
            0 <= i && t > 0,
    ;
    lemma_div_of_sum(i * t, t, k);
    vstd::arithmetic::div_mod::lemma_div_multiples_vanish(t, k);
    assert(t * k == k * t && i * t <= (k - 1) * t && (k - 1) * t == k * t - t) by (nonlinear_arith)
        requires
            i < k - 1 && t > 0 && k >= 1,
    ;
    assert((i + 1) * t <= (k - 1) * t) by (nonlinear_arith)
        requires
            i + 1 <= k - 1 && t > 0,
    ;
    vstd::arithmetic::div_mod::lemma_div_is_ordered(i * t, (k - 1) * t, k);
    vstd::arithmetic::div_mod::lemma_div_is_ordered((i + 1) * t, (k - 1) * t, k);
    vstd::arithmetic::div_mod::lemma_div_pos_is_pos(i * t, k);
    vstd::arithmetic::div_mod::lemma_div_pos_is_pos((i + 1) * t, k);
    assert((k * t - t) / k == t + (-t) / k) by {
        vstd::arithmetic::div_mod::lemma_hoist_over_denominator(-t, t as int, k as nat);
        assert(t * k + -t == k * t - t) by (nonlinear_arith);
    }
    assert((-1) / k == -1) by {
        assert(-1 == (-1) * k + (k - 1)) by (nonlinear_arith);
        vstd::arithmetic::div_mod::lemma_fundamental_div_mod_converse(-1, k, -1, k - 1);
    }
    vstd::arithmetic::div_mod::lemma_div_is_ordered(-t, -1, k);
    assert(qi <= t + (-t) / k <= t - 1);
    assert(0 <= qj <= t - 1);
    let delta = qj - qi;
    assert(t / k <= delta <= t / k + 1);
    assert(1 <= t / k) by {
        vstd::arithmetic::div_mod::lemma_div_is_ordered(k, t, k);
        vstd::arithmetic::div_mod::lemma_div_by_self(k);
    }
    let u = start + qi;
    let v = start + qj;
    let pu = u % t;
    let pv = v % t;
    assert(even_seq(start, k)[i] == pu && even_seq(start, k)[i + 1] == pv);
    vstd::arithmetic::div_mod::lemma_mod_bound(u, t);
    vstd::arithmetic::div_mod::lemma_mod_bound(v, t);
    vstd::arithmetic::div_mod::lemma_fundamental_div_mod(u, t);
    vstd::arithmetic::div_mod::lemma_fundamental_div_mod(v, t);
    assert(0 <= u < 2 * t && 0 <= v < 2 * t);
    assert(u / t == 0 || u / t == 1) by {
        if u < t {
            vstd::arithmetic::div_mod::lemma_basic_div(u, t);
        } else {
            vstd::arithmetic::div_mod::lemma_fundamental_div_mod_converse(u, t, 1, u - t);
        }
    }
    assert(v / t == 0 || v / t == 1) by {
        if v < t {
            vstd::arithmetic::div_mod::lemma_basic_div(v, t);
        } else {
            vstd::arithmetic::div_mod::lemma_fundamental_div_mod_converse(v, t, 1, v - t);
        }
    }
    assert(pv - pu == delta || pv - pu == delta - t || pv - pu == delta + t);
    assert((pv - pu) % t == delta) by {
        if pv - pu == delta {
            vstd::arithmetic::div_mod::lemma_small_mod(delta as nat, t as nat);
        } else if pv - pu == delta - t {
            vstd::arithmetic::div_mod::lemma_mod_add_multiples_vanish(delta - t, t);
            vstd::arithmetic::div_mod::lemma_small_mod(delta as nat, t as nat);
        } else {
            vstd::arithmetic::div_mod::lemma_sub_mod_noop(delta + t, t, t);
            vstd::arithmetic::div_mod::lemma_mod_sub_multiples_vanish(delta + t, t);
            vstd::arithmetic::div_mod::lemma_small_mod(delta as nat, t as nat);
        }
    }
}

/// Every packed position is a remainder modulo the full circle.
proof fn lemma_packed_elems(ds: Seq<u32>, cs: Seq<u32>, upto: int, i: int)
    requires
        0 <= i < packed_seq(ds, cs, upto).len(),
    ensures
        packed_seq(ds, cs, upto)[i] < TURN,
    decreases upto,
{
    if upto > 0 {
        let pre = packed_seq(ds, cs, upto - 1);
        if i < pre.len() {
            lemma_packed_elems(ds, cs, upto - 1, i);
        }
    }
}

} // verus!
