//! What matches by sound say of the segments in which two fingerprints agree.

use crate::audio;
use crate::compare::bucket_laws;
use crate::compare::match_laws;
use crate::compare::pair;
use crate::compare::scores;
use crate::compare::{CompareConfig, SimilarityKind};
use crate::double::Double;
use crate::float::{self, Format};
use crate::single::Single;
use crate::visual::VideoSignature;
use vstd::arithmetic::power2;
use vstd::prelude::*;

verus! {

/// A segment lasts for 1365 samples an item, of which there are 11025 in a second, but for rounding.
pub proof fn law_segments_last_as_long_as_their_items(items: u64)
    requires
        0 < items <= 0x10_0000,
    ensures
        ({
            let apart = 11025 * match_laws::value(audio::segment_duration(items)) - 1365 * items
                * match_laws::unit();
            -8000 * items * match_laws::unit() <= 0x100_0000 * apart <= 8000 * items
                * match_laws::unit()
        }),
        float::is_finite(Format::Single, audio::segment_duration(items).pattern()),
        audio::segment_duration(items).place() >= 0,
{
    let f = Format::Single;
    let u = match_laws::unit();
    let n = items as int;
    match_laws::lemma_one();
    scores::lemma_count_is_exact(1365);
    scores::lemma_count_is_exact(11025);
    scores::lemma_count_is_exact(items as nat);
    let num = 1365 * u * u;
    assert(0 <= num && num <= (0x100_0000 * u) * (11025 * u)) by (nonlinear_arith)
        requires
            num == 1365 * u * u,
            u > 0,
    ;
    let p = match_laws::lemma_near(num as nat, (11025 * u) as nat);
    let item = Single::counted(1365).divided(Single::counted(11025));
    let i = float::units(f, p) as int;
    assert((1365 * u) * u == num);
    assert(item.pattern() == p);
    let k = 0x80_0000int;
    assert(2 * k * (1365 * u) <= (2 * k * i + i + k) * 11025) by (nonlinear_arith)
        requires
            2 * k * num <= (2 * k * i + i + k) * (11025 * u),
            num == 1365 * u * u,
            u > 0,
    ;
    assert(2 * k * (1365 * u) >= (2 * k * i - i - k) * 11025) by (nonlinear_arith)
        requires
            2 * k * num >= (2 * k * i - i - k) * (11025 * u),
            num == 1365 * u * u,
            u > 0,
    ;
    assert(5 * i <= u);
    let whole = i * (n * u);
    assert(0 <= whole && whole <= (0x100_0000 * u) * u) by (nonlinear_arith)
        requires
            whole == i * (n * u),
            0 <= i,
            5 * i <= u,
            0 < n <= 0x10_0000,
            u > 0,
    ;
    let q = match_laws::lemma_near(whole as nat, u as nat);
    let d = float::units(f, q) as int;
    let lasts = audio::segment_duration(items);
    assert(lasts.pattern() == q);
    assert(match_laws::value(lasts) == d);
    assert(2 * k * (i * n) <= 2 * k * d + d + k) by (nonlinear_arith)
        requires
            2 * k * whole <= (2 * k * d + d + k) * u,
            whole == i * (n * u),
            u > 0,
    ;
    assert(2 * k * (i * n) >= 2 * k * d - d - k) by (nonlinear_arith)
        requires
            2 * k * whole >= (2 * k * d - d - k) * u,
            whole == i * (n * u),
            u > 0,
    ;
    assert(5 * (i * n) <= n * u) by (nonlinear_arith)
        requires
            5 * i <= u,
            n > 0,
    ;
    assert(n * u >= u) by (nonlinear_arith)
        requires
            n >= 1,
            u > 0,
    ;
    assert(4 * d <= n * u);
    // All items together.
    let t = i * n;
    assert(2 * k * (1365 * (n * u)) <= (2 * k * t + t + k * n) * 11025) by (nonlinear_arith)
        requires
            2 * k * (1365 * u) <= (2 * k * i + i + k) * 11025,
            t == i * n,
            n > 0,
    ;
    assert(2 * k * (1365 * (n * u)) >= (2 * k * t - t - k * n) * 11025) by (nonlinear_arith)
        requires
            2 * k * (1365 * u) >= (2 * k * i - i - k) * 11025,
            t == i * n,
            n > 0,
    ;
    assert(k * n <= u);
    assert(1365 * n * u == 1365 * (n * u) && 8000 * n * u == 8000 * (n * u)) by (nonlinear_arith);
    assert(-8000 * n * u == -(8000 * (n * u))) by (nonlinear_arith);
}

/// The score of a match by sound is what the best segment leaves of the largest difference: one
/// minus the fraction that its own difference is of it, but for rounding. It is positive where it
/// is not rounded to nothing, and from 0.95 on the sound is identical.
pub proof fn law_sound_score_is_what_is_left(best: Double, max: Double)
    requires
        best.is_finite(),
        max.is_finite(),
        best.place() >= 0,
        best.is_less(max),
    ensures
        ({
            let score = match_laws::value(pair::audio_score(best, max));
            let (a, b) = (bucket_laws::units_of(best), bucket_laws::units_of(max));
            let apart = score * b - match_laws::unit() * (b - a);
            -(match_laws::unit() * b) <= 0x40_0000 * apart <= match_laws::unit() * b
        }),
        match pair::audio_verdict(Some(best), max) {
            Some(found) => found.visual_score == pair::audio_score(best, max)
                && Single::zero().is_less(found.visual_score) && found.kind == (
            if (Single { bits: 0x3f73_3333 }).is_at_most(found.visual_score) {
                SimilarityKind::Identical
            } else {
                SimilarityKind::SameContent
            }),
            None => pair::audio_score(best, max).place() <= 0,
        },
{
    let f = Format::Double;
    let g = Format::Single;
    let w = bucket_laws::unit();
    let u = match_laws::unit();
    match_laws::lemma_one();
    lemma_wide_one();
    let (a, b) = (bucket_laws::units_of(best), bucket_laws::units_of(max));
    float::lemma_zero_is_nearest(f, 1);
    let (pa, pb) = (float::magnitude(f, best.pattern()), float::magnitude(f, max.pattern()));
    float::lemma_units_increase(f, pa, pb);
    // The fraction.
    let one: nat = 0x3ff0_0000_0000_0000;
    assert(0 <= a * w && a * w <= w * b) by (nonlinear_arith)
        requires
            0 <= a <= b,
            w > 0,
    ;
    let p = bucket_laws::lemma_near((a * w) as nat, b as nat, one);
    let q = float::units(f, p) as int;
    let fraction = best.divided(max);
    assert(float::magnitude(f, fraction.pattern()) == p);
    if p < one {
        float::lemma_units_increase(f, p, one);
    }
    assert(q <= w);
    if float::is_negative(f, best.pattern()) {
        assert(a == 0);
        assert(0 * w == 0) by (nonlinear_arith);
        float::lemma_zero_is_nearest(f, b as nat);
    }
    let wide = Double { bits: pair::WIDE_ONE };
    let capped = fraction.smaller(wide);
    assert(capped.pattern() == fraction.pattern() || (p == one && capped == wide));
    let minus = float::negated(f, capped.pattern());
    assert(float::value(f, minus) == -q);
    // What is left.
    let left = wide.subtracted(capped);
    let rest = w - q;
    assert(rest <= float::units(f, one) * 1);
    let r = bucket_laws::lemma_near(rest as nat, 1, one);
    let d = float::units(f, r) as int;
    float::lemma_added_range(f, wide.pattern(), minus);
    assert(float::magnitude(f, left.pattern()) == r && !float::is_negative(f, left.pattern())) by {
        if rest == 0 {
            assert(!float::is_negative(f, wide.pattern()));
        }
    }
    if r < one {
        float::lemma_units_increase(f, r, one);
    }
    assert(d <= w);
    // In single precision.
    let num = d * u;
    assert(0 <= num && num <= (0x100_0000 * u) * w) by (nonlinear_arith)
        requires
            num == d * u,
            0 <= d <= w,
            u > 0,
    ;
    let t = match_laws::lemma_near(num as nat, w as nat);
    let s = float::units(g, t) as int;
    let score = pair::audio_score(best, max);
    assert(score == left.narrowed());
    assert(score.pattern() == t);
    assert(match_laws::value(score) == s);
    lemma_left(a, b, q, d, s, u, w);
}

proof fn lemma_wide_one()
    ensures
        float::units(Format::Double, 0x3ff0_0000_0000_0000) == bucket_laws::unit(),
        bucket_laws::unit() > 0x1_0000_0000_0000_0000,
{
    let f = Format::Double;
    power2::lemma2_to64();
    power2::lemma2_to64_rest();
    power2::lemma_pow2_adds(52, 1022);
    power2::lemma_pow2_strictly_increases(64, 1074);
    assert(float::power(f, 0x3ff0_0000_0000_0000) == 1022);
    assert(float::significant(f, 0x3ff0_0000_0000_0000) == 0x10_0000_0000_0000);
}

/// The arithmetic of the three roundings.
proof fn lemma_left(a: int, b: int, q: int, d: int, s: int, u: int, w: int)
    requires
        0 <= a <= b,
        b > 0,
        0 <= q <= w,
        0 <= d <= w,
        s >= 0,
        u > 0x1_0000_0000_0000_0000,
        w > 0x1_0000_0000_0000_0000,
        2 * 0x10_0000_0000_0000 * (a * w) <= (2 * 0x10_0000_0000_0000 * q + q
            + 0x10_0000_0000_0000) * b,
        2 * 0x10_0000_0000_0000 * (a * w) >= (2 * 0x10_0000_0000_0000 * q - q
            - 0x10_0000_0000_0000) * b,
        2 * 0x10_0000_0000_0000 * (w - q) <= (2 * 0x10_0000_0000_0000 * d + d
            + 0x10_0000_0000_0000) * 1,
        2 * 0x10_0000_0000_0000 * (w - q) >= (2 * 0x10_0000_0000_0000 * d - d
            - 0x10_0000_0000_0000) * 1,
        2 * 0x80_0000 * (d * u) <= (2 * 0x80_0000 * s + s + 0x80_0000) * w,
        2 * 0x80_0000 * (d * u) >= (2 * 0x80_0000 * s - s - 0x80_0000) * w,
    ensures
        -(u * b) <= 0x40_0000 * (s * b - u * (b - a)) <= u * b,
{
    let k = 0x10_0000_0000_0000int;
    let h = 0x80_0000int;
    // The fraction is off by little.
    assert((q + k) * b <= 2 * (w * b)) by (nonlinear_arith)
        requires
            q <= w,
            k <= w,
            b > 0,
    ;
    assert((2 * k * q + q + k) * b == 2 * k * (q * b) + (q + k) * b) by (nonlinear_arith);
    assert((2 * k * q - q - k) * b == 2 * k * (q * b) - (q + k) * b) by (nonlinear_arith);
    let x = a * w - q * b;
    assert(2 * k * x == 2 * k * (a * w) - 2 * k * (q * b)) by (nonlinear_arith)
        requires
            x == a * w - q * b,
    ;
    assert(2 * (k * x) == 2 * k * x) by (nonlinear_arith);
    assert(-(w * b) <= k * x <= w * b);
    // So is what is left.
    let y = (w - q) - d;
    assert(2 * k * y == 2 * k * (w - q) - 2 * k * d) by (nonlinear_arith)
        requires
            y == (w - q) - d,
    ;
    assert(2 * (k * y) == 2 * k * y) by (nonlinear_arith);
    assert((2 * k * d + d + k) * 1 == 2 * k * d + (d + k)) by (nonlinear_arith);
    assert((2 * k * d - d - k) * 1 == 2 * k * d - (d + k)) by (nonlinear_arith);
    assert(-w <= k * y <= w);
    assert(-(w * b) <= k * (y * b) <= w * b) by (nonlinear_arith)
        requires
            -w <= k * y <= w,
            b > 0,
    ;
    // And what single precision makes of it.
    assert(s <= 2 * u) by (nonlinear_arith)
        requires
            2 * h * (d * u) >= (2 * h * s - s - h) * w,
            0 <= d <= w,
            u > h,
            w > 0,
            h == 0x80_0000int,
    ;
    assert((s + h) * w <= 3 * (u * w)) by (nonlinear_arith)
        requires
            s <= 2 * u,
            h <= u,
            w > 0,
    ;
    assert((2 * h * s + s + h) * w == 2 * h * (s * w) + (s + h) * w) by (nonlinear_arith);
    assert((2 * h * s - s - h) * w == 2 * h * (s * w) - (s + h) * w) by (nonlinear_arith);
    let z = d * u - s * w;
    assert(2 * h * z == 2 * h * (d * u) - 2 * h * (s * w)) by (nonlinear_arith)
        requires
            z == d * u - s * w,
    ;
    let (t, v) = (s * w, d * u);
    assert(2 * h * v <= 2 * h * t + (s + h) * w);
    assert(2 * h * v >= 2 * h * t - (s + h) * w);
    assert(2 * h * z <= 3 * (u * w));
    assert(2 * h * z >= -(3 * (u * w)));
    assert(-(3 * (u * w * b)) <= 2 * h * (z * b) <= 3 * (u * w * b)) by (nonlinear_arith)
        requires
            -(3 * (u * w)) <= 2 * h * z <= 3 * (u * w),
            b > 0,
    ;
    // All together: s b w - u (b - a) w = -(z b) - u (y b) + u x.
    let all = s * b - u * (b - a);
    assert(all * w == -(z * b) - u * (y * b) + u * x) by (nonlinear_arith)
        requires
            all == s * b - u * (b - a),
            z == d * u - s * w,
            y == (w - q) - d,
            x == a * w - q * b,
    ;
    assert(-(u * w * b) <= k * (u * (y * b)) <= u * w * b) by (nonlinear_arith)
        requires
            -(w * b) <= k * (y * b) <= w * b,
            u > 0,
    ;
    assert(-(u * w * b) <= k * (u * x) <= u * w * b) by (nonlinear_arith)
        requires
            -(w * b) <= k * x <= w * b,
            u > 0,
    ;
    assert(u * w * b >= 0) by (nonlinear_arith)
        requires
            u > 0,
            w > 0,
            b > 0,
    ;
    assert(-(u * w * b) <= 0x40_0000 * (all * w) <= u * w * b);
    assert(-(u * b) <= 0x40_0000 * all <= u * b) by (nonlinear_arith)
        requires
            -(u * w * b) <= 0x40_0000 * (all * w) <= u * w * b,
            w > 0,
    ;
}

/// Files match by sound exactly where both have a fingerprint that is neither empty nor too long, a
/// segment in which these agree lasts long enough and differs little enough, and the best one of
/// those leaves a score. The pictures do not matter.
pub proof fn law_sound_alone_decides(a: VideoSignature, b: VideoSignature, cfg: CompareConfig, i: int)
    requires
        cfg.use_audio,
    ensures
        a.audio_fingerprint is None || b.audio_fingerprint is None ==> pair::pair_match(
            a,
            b,
            cfg,
        ) is None,
        a.audio_fingerprint matches Some(fa) ==> (b.audio_fingerprint matches Some(fb) ==> {
            let segments = audio::matching_segments(fa@, fb@);
            &&& fa@.len() == 0 || fb@.len() == 0 || fa@.len() >= 524_286 || fb@.len() >= 524_286
                ==> pair::pair_match(a, b, cfg) is None
            &&& 0 < fa@.len() < 524_286 && 0 < fb@.len() < 524_286 && 0 <= i < segments.len()
                && is_match(segments[i], cfg) ==> exists|k: int|
                0 <= k < segments.len() && is_match(#[trigger] segments[k], cfg)
                    && segments[k].1.is_at_most(segments[i].1) && pair::pair_match(a, b, cfg)
                    == pair::audio_verdict(Some(segments[k].1), cfg.audio_max_difference)
            &&& (forall|k: int|
                0 <= k < segments.len() ==> !is_match(#[trigger] segments[k], cfg))
                ==> pair::pair_match(a, b, cfg) is None
        }),
{
    reveal(pair::audio_match);
    if let Some(fa) = a.audio_fingerprint {
        if let Some(fb) = b.audio_fingerprint {
            let segments = audio::matching_segments(fa@, fb@);
            let (min, max) = (cfg.audio_min_segment_duration, cfg.audio_max_difference);
            audio::law_best_score_is_least(segments, min, max);
            assert forall|k: int| 0 <= k < segments.len() implies is_match(
                #[trigger] segments[k],
                cfg,
            ) == audio::segment_counts(segments[k], min, max) by {}
            match audio::best_segment_score(segments, min, max) {
                Some(best) => {
                    let k = choose|k: int|
                        0 <= k < segments.len() && #[trigger] audio::segment_counts(
                            segments[k],
                            min,
                            max,
                        ) && segments[k].1 == best;
                    assert(is_match(segments[k], cfg));
                    if 0 <= i < segments.len() && is_match(segments[i], cfg) {
                        assert(audio::segment_counts(segments[i], min, max));
                    }
                },
                None => {
                    if 0 <= i < segments.len() && is_match(segments[i], cfg) {
                        assert(!audio::segment_counts(segments[i], min, max));
                    }
                },
            }
        }
    }
}

/// Whether a segment lasts longer than is asked for and differs less than is allowed.
pub open spec fn is_match(segment: (u64, Double), cfg: CompareConfig) -> bool {
    &&& cfg.audio_min_segment_duration.is_less(audio::segment_duration(segment.0))
    &&& segment.1.is_less(cfg.audio_max_difference)
}

} // verus!
