//! What the buckets say of durations, in whole milliseconds.

use crate::bounds;
use crate::compare::buckets;
use crate::compare::group_laws;
use crate::compare::laws;
use crate::double::Double;
use crate::float::{self, Format};
use crate::visual::VideoSignature;
use vstd::arithmetic::power2;
use vstd::prelude::*;

verus! {

/// The units of the number one.
pub open spec fn unit() -> int {
    power2::pow2(1074) as int
}

/// The units of a number that is not negative.
pub open spec fn units_of(x: Double) -> int {
    float::units(Format::Double, float::magnitude(Format::Double, x.pattern())) as int
}

/// Whether a percentage is a number that is not negative.
pub open spec fn is_percentage(pct: Double) -> bool {
    pct.is_finite() && pct.place() >= 0
}

/// A rounded quotient is near to the quotient.
pub proof fn lemma_near(num: nat, den: nat, most: nat) -> (p: nat)
    requires
        den > 0,
        most < Format::Double.top(),
        num <= float::units(Format::Double, most) * den,
    ensures
        p == float::nearest(Format::Double, num, den),
        p <= most,
        ({
            let u = float::units(Format::Double, p) as int;
            let k = 0x10_0000_0000_0000int;
            &&& 2 * k * num <= (2 * k * u + u + k) * den
            &&& 2 * k * num >= (2 * k * u - u - k) * den
        }),
{
    let f = Format::Double;
    let p = float::nearest(f, num, den);
    float::lemma_nearest_exists(f, num, den);
    let limit = float::units(f, most);
    float::lemma_exact(f, most, limit * den, den);
    assert(num * den <= (limit * den) * den) by (nonlinear_arith)
        requires
            num <= limit * den,
    ;
    float::lemma_rounding_is_monotone(f, p, num, den, most, limit * den, den);
    let u = float::units(f, p) as int;
    let k = 0x10_0000_0000_0000int;
    float::lemma_next(f, p);
    lemma_gap(p);
    let gap = power2::pow2(float::power(f, p)) as int;
    assert(2 * k * num <= (2 * k * u + u + k) * den) by (nonlinear_arith)
        requires
            2 * num <= (2 * u + gap) * den,
            gap * k <= u + k,
            den > 0,
            k > 0,
    ;
    if p > 0 {
        let before = (p - 1) as nat;
        float::lemma_next(f, before);
        lemma_gap(before);
        float::lemma_units_increase(f, before, p);
        let less = power2::pow2(float::power(f, before)) as int;
        assert(2 * k * num >= (2 * k * u - u - k) * den) by (nonlinear_arith)
            requires
                2 * num >= (2 * u - less) * den,
                less * k <= u + k,
                den > 0,
                k > 0,
        ;
    } else {
        float::lemma_zero_is_nearest(f, 1);
        assert(2 * k * num >= (2 * k * u - u - k) * den) by (nonlinear_arith)
            requires
                u == 0,
                num >= 0,
                den > 0,
                k > 0,
        ;
    }
    p
}

/// A number is far larger than its distance to the next one, or has the smallest such distance.
proof fn lemma_gap(p: nat)
    ensures
        power2::pow2(float::power(Format::Double, p)) * 0x10_0000_0000_0000 <= float::units(
            Format::Double,
            p,
        ) + 0x10_0000_0000_0000,
{
    let f = Format::Double;
    let gap = power2::pow2(float::power(f, p)) as int;
    power2::lemma2_to64();
    let m = float::significant(f, p) as int;
    if p >= 0x10_0000_0000_0000 {
        assert(m * gap >= 0x10_0000_0000_0000 * gap) by (nonlinear_arith)
            requires
                m >= 0x10_0000_0000_0000,
                gap >= 0,
        ;
    } else {
        assert(m * gap >= 0) by (nonlinear_arith)
            requires
                m >= 0,
                gap >= 0,
        ;
    }
}

/// The deviation of a duration is the rounded quotient of whole numbers.
proof fn lemma_deviation(duration: nat, center: nat)
    requires
        center <= duration <= 0x20_0000_0000_0000,
    ensures
        ({
            let base = bounds::larger(center as int, 1) as nat;
            buckets::deviation(duration, center).pattern() == float::nearest(
                Format::Double,
                ((duration - center) * unit() * unit()) as nat,
                (base * unit()) as nat,
            )
        }),
        buckets::deviation(duration, center).pattern() <= Format::Double.top(),
{
    let f = Format::Double;
    let base = bounds::larger(center as int, 1) as nat;
    let away = (duration - center) as nat;
    power2::lemma_pow2_pos(1074);
    float::lemma_count_is_exact(duration);
    float::lemma_count_is_exact(center);
    float::lemma_count_is_exact(away);
    float::lemma_count_is_exact(base);
    float::lemma_count_is_exact(1);
    float::lemma_count_is_monotone(f, center, base);
    float::lemma_count_is_monotone(f, 1, base);
    lemma_one();
    let (x, y) = (Double::counted(duration), Double::counted(center));
    let u = unit();
    assert(duration * u - center * u == away * u) by (nonlinear_arith)
        requires
            away == duration - center,
    ;
    float::lemma_zero_is_nearest(f, 1);
    let apart = x.subtracted(y).unsigned();
    assert(away * u >= 0) by (nonlinear_arith)
        requires
            away >= 0,
            u > 0,
    ;
    assert(away > 0 ==> away * u > 0) by (nonlinear_arith)
        requires
            u > 0,
    ;
    assert(apart == Double::counted(away)) by {
        if away == 0 {
            assert(0 * u == 0) by (nonlinear_arith);
            float::lemma_count_of_nothing(f);
        }
    }
    let bottom = y.larger((Double { bits: buckets::ONE }));
    assert(bottom == Double::counted(base)) by {
        if center == 0 {
            float::lemma_count_of_nothing(f);
        }
    }
    assert((away * u) * u == (duration - center) * unit() * unit());
    float::lemma_nearest_exists(f, ((away * u) * u) as nat, (base * u) as nat);
}

/// The number one is the first count.
proof fn lemma_one()
    ensures
        float::counted(Format::Double, 1) == buckets::ONE,
        float::units(Format::Double, buckets::HUNDRED as nat) == 100 * power2::pow2(1074),
{
    let f = Format::Double;
    let one = buckets::ONE as nat;
    power2::lemma2_to64();
    power2::lemma2_to64_rest();
    power2::lemma_pow2_adds(52, 1022);
    power2::lemma_pow2_adds(46, 1028);
    assert(float::power(f, one) == 1022);
    assert(float::significant(f, one) == 0x10_0000_0000_0000);
    assert(1 * power2::pow2(1074) == power2::pow2(1074)) by (nonlinear_arith);
    assert(float::units(f, one) * 1 == float::units(f, one)) by (nonlinear_arith);
    float::lemma_exact(f, one, power2::pow2(1074), 1);
    let hundred = buckets::HUNDRED as nat;
    assert(float::power(f, hundred) == 1028);
    assert(float::significant(f, hundred) == 0x19_0000_0000_0000);
    assert(0x19_0000_0000_0000 * power2::pow2(1028) == 100 * (0x4000_0000_0000 * power2::pow2(
        1028,
    ))) by (nonlinear_arith);
}

/// A hundredth of a percentage is a rounded quotient, too.
proof fn lemma_hundredth(pct: Double)
    requires
        is_percentage(pct),
    ensures
        float::magnitude(
            Format::Double,
            pct.divided((Double { bits: buckets::HUNDRED })).pattern(),
        ) == float::nearest(
            Format::Double,
            (units_of(pct) * unit()) as nat,
            (100 * unit()) as nat,
        ),
        pct.divided((Double { bits: buckets::HUNDRED })).place() >= 0,
        !pct.divided((Double { bits: buckets::HUNDRED })).is_nan(),
        float::nearest(
            Format::Double,
            (units_of(pct) * unit()) as nat,
            (100 * unit()) as nat,
        ) < Format::Double.top(),
{
    let f = Format::Double;
    let u = unit();
    lemma_one();
    power2::lemma_pow2_pos(1074);
    let p = float::magnitude(f, pct.pattern());
    let units = units_of(pct);
    assert(0 <= units * u <= units * (100 * u)) by (nonlinear_arith)
        requires
            units >= 0,
            u > 0,
    ;
    let q = lemma_near((units * u) as nat, (100 * u) as nat, p);
    if float::is_negative(f, pct.pattern()) {
        float::lemma_zero_is_nearest(f, (100 * u) as nat);
        assert(0 * u == 0) by (nonlinear_arith);
    }
}

/// A longer duration is within a percentage of a shorter one where their difference is at most that
/// percentage of the shorter one, in exact numbers; and it is not where the difference is more, but
/// for what rounding leaves.
pub proof fn law_durations_within_a_percentage(duration: nat, center: nat, pct: Double)
    requires
        center <= duration <= 0x20_0000_0000_0000,
        is_percentage(pct),
    ensures
        ({
            let base = bounds::larger(center as int, 1);
            let gap = 100 * (duration - center) * unit();
            &&& gap <= units_of(pct) * base ==> buckets::within_bucket(duration, center, pct)
            &&& buckets::within_bucket(duration, center, pct) ==> gap * 0x4_0000_0000_0000 <= (
            units_of(pct) * 0x4_0000_0000_0001 + 0x200_0000_0000_0000) * base
        }),
{
    let f = Format::Double;
    let u = unit();
    let base = bounds::larger(center as int, 1);
    let away = duration - center;
    let units = units_of(pct);
    power2::lemma_pow2_pos(1074);
    lemma_deviation(duration, center);
    lemma_hundredth(pct);
    let (n1, d1) = ((away * u * u) as nat, (base * u) as nat);
    let (n2, d2) = ((units * u) as nat, (100 * u) as nat);
    assert(away * u * u >= 0 && base * u > 0 && units * u >= 0) by (nonlinear_arith)
        requires
            away >= 0,
            base > 0,
            units >= 0,
            u > 0,
    ;
    float::lemma_nearest_exists(f, n1, d1);
    float::lemma_nearest_exists(f, n2, d2);
    let (p, q) = (float::nearest(f, n1, d1), float::nearest(f, n2, d2));
    if 100 * away * u <= units * base {
        assert(n1 * d2 <= n2 * d1) by (nonlinear_arith)
            requires
                100 * away * u <= units * base,
                n1 == away * u * u,
                d1 == base * u,
                n2 == units * u,
                d2 == 100 * u,
                u > 0,
        ;
        float::lemma_rounding_is_monotone(f, p, n1, d1, q, n2, d2);
        assert(buckets::within_bucket(duration, center, pct));
    }
    if buckets::within_bucket(duration, center, pct) {
        assert(p <= q);
        if p < q {
            float::lemma_units_increase(f, p, q);
        }
        let far: nat = 0x4340_0000_0000_0000;
        power2::lemma2_to64();
        power2::lemma2_to64_rest();
        power2::lemma_pow2_adds(53, 1074);
        power2::lemma_pow2_adds(52, 1075);
        assert(float::power(f, far) == 1075);
        assert(float::units(f, far) == 0x20_0000_0000_0000 * u);
        assert(n1 <= float::units(f, far) * d1) by (nonlinear_arith)
            requires
                n1 == away * u * u,
                d1 == base * u,
                float::units(f, far) == 0x20_0000_0000_0000 * u,
                0 <= away <= 0x20_0000_0000_0000,
                base >= 1,
                u > 0,
        ;
        let p1 = lemma_near(n1, d1, far);
        assert(n2 <= units * d2) by (nonlinear_arith)
            requires
                n2 == units * u,
                d2 == 100 * u,
                units >= 0,
                u > 0,
        ;
        let q1 = lemma_near(n2, d2, float::magnitude(f, pct.pattern()));
        let (a, b) = (float::units(f, p) as int, float::units(f, q) as int);
        lemma_slack(away, base, units, a, b, u);
    }
}

/// The arithmetic of two rounded quotients of which the first is not larger.
proof fn lemma_slack(away: int, base: int, units: int, a: int, b: int, u: int)
    requires
        away >= 0,
        base >= 1,
        units >= 0,
        u > 0,
        0 <= a <= b,
        2 * 0x10_0000_0000_0000 * (away * u * u) <= (2 * 0x10_0000_0000_0000 * a + a
            + 0x10_0000_0000_0000) * (base * u),
        2 * 0x10_0000_0000_0000 * (units * u) >= (2 * 0x10_0000_0000_0000 * b - b
            - 0x10_0000_0000_0000) * (100 * u),
    ensures
        100 * away * u * 0x4_0000_0000_0000 <= (units * 0x4_0000_0000_0001 + 0x200_0000_0000_0000)
            * base,
{
    let k = 0x10_0000_0000_0000int;
    // Without the common factor.
    assert(2 * k * (away * u) <= (2 * k * a + a + k) * base) by (nonlinear_arith)
        requires
            2 * k * (away * u * u) <= (2 * k * a + a + k) * (base * u),
            u > 0,
    ;
    assert(2 * k * units >= (2 * k * b - b - k) * 100) by (nonlinear_arith)
        requires
            2 * k * (units * u) >= (2 * k * b - b - k) * (100 * u),
            u > 0,
    ;
    assert((2 * k * a + a + k) * base <= (2 * k * b + b + k) * base) by (nonlinear_arith)
        requires
            0 <= a <= b,
            base >= 1,
            k > 0,
    ;
    // The larger quotient is at most 2 k (units + 100) / (100 (2 k - 1)).
    let w = away * u;
    assert(2 * k * w <= (2 * k * b + b + k) * base);
    let t = 0x4_0000_0000_0001 * units + 0x200_0000_0000_0000;
    assert(100 * (2 * k * b + b + k) * 0x4_0000_0000_0000 <= 2 * k * t) by {
        assert(50 * b <= units + 100);
    }
    assert(100 * (2 * k * w) * 0x4_0000_0000_0000 <= 2 * k * t * base) by (nonlinear_arith)
        requires
            2 * k * w <= (2 * k * b + b + k) * base,
            100 * (2 * k * b + b + k) * 0x4_0000_0000_0000 <= 2 * k * t,
            base >= 1,
    ;
    assert(100 * w * 0x4_0000_0000_0000 <= t * base) by (nonlinear_arith)
        requires
            100 * (2 * k * w) * 0x4_0000_0000_0000 <= 2 * k * t * base,
            k > 0,
    ;
    assert(100 * away * u == 100 * w) by (nonlinear_arith)
        requires
            w == away * u,
    ;
}

/// In a bucket, every duration exceeds the shortest one by no more than the percentage of it, but
/// for what rounding leaves; and the first duration of the next bucket exceeds it by more.
pub proof fn law_buckets_keep_to_the_percentage(
    sigs: Seq<VideoSignature>,
    pct: Double,
    k: int,
    p: int,
)
    requires
        sigs.len() <= usize::MAX,
        is_percentage(pct),
        forall|i: int|
            0 <= i < sigs.len() ==> (#[trigger] sigs[i]).duration_ms <= 0x20_0000_0000_0000,
        0 <= k < buckets::duration_buckets(sigs, pct).len(),
        0 <= p < buckets::duration_buckets(sigs, pct)[k].len(),
    ensures
        ({
            let list = buckets::duration_buckets(sigs, pct)[k];
            let shortest = sigs[list[0] as int].duration_ms as int;
            let other = sigs[list[p] as int].duration_ms as int;
            let base = bounds::larger(shortest, 1);
            &&& shortest <= other
            &&& 100 * (other - shortest) * unit() * 0x4_0000_0000_0000 <= (units_of(pct)
                * 0x4_0000_0000_0001 + 0x200_0000_0000_0000) * base
        }),
        k + 1 < buckets::duration_buckets(sigs, pct).len() ==> {
            let shortest = sigs[buckets::duration_buckets(sigs, pct)[k][0] as int].duration_ms as int;
            let next = sigs[buckets::duration_buckets(sigs, pct)[k
                + 1][0] as int].duration_ms as int;
            100 * (next - shortest) * unit() > units_of(pct) * bounds::larger(shortest, 1)
        },
{
    let lists = buckets::duration_buckets(sigs, pct);
    laws::law_buckets_split_by_duration(sigs, pct);
    group_laws::lemma_buckets_disjoint(sigs, pct);
    assert(lists[k][0] < sigs.len() && lists[k][p] < sigs.len());
    let shortest = sigs[lists[k][0] as int].duration_ms as nat;
    let other = sigs[lists[k][p] as int].duration_ms as nat;
    lemma_bucket_order(sigs, pct, k, 0, k, p);
    law_durations_within_a_percentage(other, shortest, pct);
    if p == 0 {
        law_durations_within_a_percentage(shortest, shortest, pct);
        assert(0 * unit() == 0) by (nonlinear_arith);
        assert(units_of(pct) * bounds::larger(shortest as int, 1) >= 0) by (nonlinear_arith)
            requires
                units_of(pct) >= 0,
                bounds::larger(shortest as int, 1) >= 0,
        ;
    }
    if k + 1 < lists.len() {
        assert(lists[k + 1].len() > 0);
        assert(lists[k + 1][0] < sigs.len());
        let next = sigs[lists[k + 1][0] as int].duration_ms as nat;
        lemma_bucket_order(sigs, pct, k, 0, k + 1, 0);
        law_durations_within_a_percentage(next, shortest, pct);
    }
}

/// Durations do not decrease within a bucket, nor from one bucket to a later one.
proof fn lemma_bucket_order(sigs: Seq<VideoSignature>, pct: Double, k: int, p: int, l: int, q: int)
    requires
        sigs.len() <= usize::MAX,
        0 <= k <= l < buckets::duration_buckets(sigs, pct).len(),
        0 <= p < buckets::duration_buckets(sigs, pct)[k].len(),
        0 <= q < buckets::duration_buckets(sigs, pct)[l].len(),
        k < l || p <= q,
    ensures
        sigs[buckets::duration_buckets(sigs, pct)[k][p] as int].duration_ms
            <= sigs[buckets::duration_buckets(sigs, pct)[l][q] as int].duration_ms,
{
    let lists = buckets::duration_buckets(sigs, pct);
    let order = buckets::duration_order(sigs, sigs.len());
    laws::law_buckets_split_by_duration(sigs, pct);
    lemma_flat(lists, k, p);
    lemma_flat(lists, l, q);
    let (i, j) = (start_of(lists, k) + p, start_of(lists, l) + q);
    assert(i <= j) by {
        if k < l {
            lemma_starts(lists, k + 1, l);
        }
    }
    assert(order[i] == lists[k][p] && order[j] == lists[l][q]);
}

/// Where a list starts in the lists joined together.
spec fn start_of(lists: Seq<Seq<usize>>, k: int) -> int
    decreases k,
{
    if k <= 0 {
        0
    } else {
        start_of(lists, k - 1) + lists[k - 1].len()
    }
}

proof fn lemma_starts(lists: Seq<Seq<usize>>, k: int, l: int)
    requires
        0 <= k <= l,
    ensures
        start_of(lists, k) <= start_of(lists, l),
    decreases l,
{
    if k < l {
        lemma_starts(lists, k, l - 1);
    }
}

proof fn lemma_flat(lists: Seq<Seq<usize>>, k: int, p: int)
    requires
        0 <= k < lists.len(),
        0 <= p < lists[k].len(),
    ensures
        0 <= start_of(lists, k) + p < lists.flatten().len(),
        lists.flatten()[start_of(lists, k) + p] == lists[k][p],
{
    lemma_flat_len(lists);
    lists.lemma_flatten_and_flatten_alt_are_equivalent();
    lemma_flat_alt(lists, k, p);
}

proof fn lemma_flat_len(lists: Seq<Seq<usize>>)
    ensures
        lists.flatten_alt().len() == start_of(lists, lists.len() as int),
    decreases lists.len(),
{
    if lists.len() > 0 {
        lemma_flat_len(lists.drop_last());
        lemma_same_starts(lists.drop_last(), lists, lists.len() - 1);
    }
}

proof fn lemma_same_starts(front: Seq<Seq<usize>>, lists: Seq<Seq<usize>>, k: int)
    requires
        0 <= k <= front.len() <= lists.len(),
        forall|i: int| 0 <= i < front.len() ==> front[i] == #[trigger] lists[i],
    ensures
        start_of(front, k) == start_of(lists, k),
    decreases k,
{
    if k > 0 {
        lemma_same_starts(front, lists, k - 1);
        assert(front[k - 1] == lists[k - 1]);
    }
}

proof fn lemma_flat_alt(lists: Seq<Seq<usize>>, k: int, p: int)
    requires
        0 <= k < lists.len(),
        0 <= p < lists[k].len(),
    ensures
        0 <= start_of(lists, k) + p < lists.flatten_alt().len(),
        lists.flatten_alt()[start_of(lists, k) + p] == lists[k][p],
    decreases lists.len(),
{
    let front = lists.drop_last();
    lemma_flat_len(front);
    lemma_same_starts(front, lists, lists.len() - 1);
    lemma_starts(lists, 0, k);
    if k < lists.len() - 1 {
        lemma_flat_alt(front, k, p);
        lemma_same_starts(front, lists, k);
    }
}

/// With a whole number of per cent, the durations of a bucket are within it in whole numbers: each
/// exceeds the shortest one by no more, and the first one of the next bucket by more.
pub proof fn law_buckets_keep_to_whole_per_cent(
    sigs: Seq<VideoSignature>,
    per_cent: nat,
    k: int,
    p: int,
)
    requires
        sigs.len() <= usize::MAX,
        per_cent <= 1000,
        forall|i: int| 0 <= i < sigs.len() ==> (#[trigger] sigs[i]).duration_ms <= 0x40_0000_0000,
        0 <= k < buckets::duration_buckets(sigs, Double::counted(per_cent)).len(),
        0 <= p < buckets::duration_buckets(sigs, Double::counted(per_cent))[k].len(),
    ensures
        ({
            let lists = buckets::duration_buckets(sigs, Double::counted(per_cent));
            let shortest = sigs[lists[k][0] as int].duration_ms as int;
            let other = sigs[lists[k][p] as int].duration_ms as int;
            &&& shortest <= other
            &&& 100 * (other - shortest) <= per_cent * bounds::larger(shortest, 1)
            &&& k + 1 < lists.len() ==> 100 * (sigs[lists[k + 1][0] as int].duration_ms - shortest)
                > per_cent * bounds::larger(shortest, 1)
        }),
{
    let pct = Double::counted(per_cent);
    let u = unit();
    power2::lemma_pow2_pos(1074);
    power2::lemma2_to64();
    power2::lemma2_to64_rest();
    power2::lemma_pow2_strictly_increases(64, 1074);
    float::lemma_count_is_exact(per_cent);
    let lists = buckets::duration_buckets(sigs, pct);
    group_laws::lemma_buckets_disjoint(sigs, pct);
    assert(lists[k][0] < sigs.len() && lists[k][p] < sigs.len());
    law_buckets_keep_to_the_percentage(sigs, pct, k, p);
    let shortest = sigs[lists[k][0] as int].duration_ms as int;
    let other = sigs[lists[k][p] as int].duration_ms as int;
    let base = bounds::larger(shortest, 1);
    lemma_whole(100 * (other - shortest), per_cent as int, base, u);
    if k + 1 < lists.len() {
        let next = sigs[lists[k + 1][0] as int].duration_ms as int;
        let away = 100 * (next - shortest);
        assert(away > per_cent * base) by (nonlinear_arith)
            requires
                away * u > (per_cent * u) * base,
                u > 0,
        ;
    }
}

proof fn lemma_whole(away: int, per_cent: int, base: int, u: int)
    requires
        0 <= per_cent <= 1000,
        1 <= base <= 0x40_0000_0000,
        u > 0x1_0000_0000_0000_0000,
        away * u * 0x4_0000_0000_0000 <= (per_cent * u * 0x4_0000_0000_0001 + 0x200_0000_0000_0000)
            * base,
    ensures
        away <= per_cent * base,
{
    if away > per_cent * base {
        let t = per_cent * base;
        assert(away * u * 0x4_0000_0000_0000 >= (t + 1) * u * 0x4_0000_0000_0000)
            by (nonlinear_arith)
            requires
                away >= t + 1,
                u > 0,
        ;
        assert((t + 1) * u == t * u + u) by (nonlinear_arith);
        assert((per_cent * u * 0x4_0000_0000_0001 + 0x200_0000_0000_0000) * base == (t * u)
            * 0x4_0000_0000_0001 + 0x200_0000_0000_0000 * base) by (nonlinear_arith)
            requires
                t == per_cent * base,
        ;
        assert(0 <= t <= 1000 * 0x40_0000_0000) by (nonlinear_arith)
            requires
                t == per_cent * base,
                0 <= per_cent <= 1000,
                1 <= base <= 0x40_0000_0000,
        ;
        let x = t * u;
        assert(x <= 1000 * 0x40_0000_0000 * u) by (nonlinear_arith)
            requires
                x == t * u,
                t <= 1000 * 0x40_0000_0000,
                u > 0,
        ;
        assert((x + u) * 0x4_0000_0000_0000 <= x * 0x4_0000_0000_0001 + 0x200_0000_0000_0000
            * base);
        assert(u * 0x4_0000_0000_0000 <= x + 0x200_0000_0000_0000 * base);
        assert(x <= 274_877_906_944_000 * u);
        assert(u * 0x4_0000_0000_0000 > 274_877_906_944_000 * u + 0x200_0000_0000_0000 * base);
    }
}

} // verus!
