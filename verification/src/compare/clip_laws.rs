//! When two files match, and how: in terms of which windows agree, and of durations in whole
//! milliseconds.

use crate::bounds;
use crate::compare::match_laws;
use crate::compare::pair;
use crate::compare::scores;
use crate::compare::{CompareConfig, SimilarityKind, WhichFile};
use crate::double::Double;
use crate::float::{self, Format};
use crate::single::Single;
use crate::tally;
use crate::visual::{self, TemporalHash, VideoSignature};
use vstd::arithmetic::power2;
use vstd::prelude::*;

verus! {

// ---- Agreement ----

/// Whether two windows agree: the fraction of the bits in which they differ is within the
/// tolerance.
pub open spec fn agrees(x: TemporalHash, y: TemporalHash, tolerance: Single) -> bool {
    match_laws::fraction(x, y).is_at_most(tolerance)
}

/// How many windows of `clip` agree with those of `source` that start at `offset`.
pub open spec fn agreeing(
    clip: Seq<TemporalHash>,
    source: Seq<TemporalHash>,
    offset: int,
    tolerance: Single,
) -> nat {
    tally::tally(clip.len() as int, |i: int| agrees(clip[i], source[offset + i], tolerance))
}

/// Whether the fraction of windows that agree is large enough.
pub open spec fn enough_agree(
    clip: Seq<TemporalHash>,
    source: Seq<TemporalHash>,
    offset: int,
    tolerance: Single,
    min: Single,
) -> bool {
    min.is_at_most(
        Single::counted(agreeing(clip, source, offset, tolerance)).divided(
            Single::counted(clip.len()),
        ),
    )
}

/// Whether the windows at an offset are alike on the whole: the mean number of bits in which they
/// differ is below 1000, by so much that rounding does not matter.
pub open spec fn surely_alike(
    clip: Seq<TemporalHash>,
    source: Seq<TemporalHash>,
    offset: int,
) -> bool {
    let n = clip.len() as int;
    0x100_0000 * (1000 * n - match_laws::total_distance(clip, source, offset, clip.len())) > 1000
        * (n * (n + 9))
}

proof fn lemma_agreeing(
    clip: Seq<TemporalHash>,
    source: Seq<TemporalHash>,
    offset: int,
    tolerance: Single,
    n: nat,
)
    ensures
        pair::matching_windows(clip, source, offset, tolerance, n) == tally::tally(
            n as int,
            |i: int| agrees(clip[i], source[offset + i], tolerance),
        ),
    decreases n,
{
    if n > 0 {
        lemma_agreeing(clip, source, offset, tolerance, (n - 1) as nat);
    }
}

/// A place counts exactly if enough windows agree there and the score is positive.
proof fn lemma_aligned(
    clip: Seq<TemporalHash>,
    source: Seq<TemporalHash>,
    tolerance: Single,
    min: Single,
    offset: int,
)
    ensures
        pair::aligned(clip, source, tolerance, min, offset) <==> 0 <= offset <= source.len()
            - clip.len() && enough_agree(clip, source, offset, tolerance, min)
            && Single::zero().is_less(pair::mean_similarity(clip, source, offset)),
{
    lemma_agreeing(clip, source, offset, tolerance, clip.len());
}

/// Windows that are surely alike have a positive score.
proof fn lemma_positive(clip: Seq<TemporalHash>, source: Seq<TemporalHash>, offset: int)
    requires
        0 < clip.len() <= scores::MAX_WINDOWS,
        scores::within(clip, source, offset, clip.len(), 1024),
        surely_alike(clip, source, offset),
    ensures
        Single::zero().is_less(pair::mean_similarity(clip, source, offset)),
{
    let f = Format::Single;
    let u = match_laws::unit();
    power2::lemma_pow2_pos(149);
    match_laws::law_score_is_the_agreeing_fraction(clip, source, offset);
    let n = clip.len() as int;
    let left = 1000 * n - match_laws::total_distance(clip, source, offset, clip.len());
    let mean = pair::mean_similarity(clip, source, offset);
    let v = match_laws::value(mean);
    assert(0x100_0000 * (left * u) > 1000 * (n * (n + 9)) * u) by (nonlinear_arith)
        requires
            0x100_0000 * left > 1000 * (n * (n + 9)),
            u > 0,
    ;
    assert(1000 * n * v > 0);
    assert(v > 0) by (nonlinear_arith)
        requires
            1000 * n * v > 0,
            n > 0,
    ;
    float::lemma_zero_is_nearest(f, 1);
}

/// Among the places before `n` that count, the first one with the best score.
proof fn lemma_best_before(
    clip: Seq<TemporalHash>,
    source: Seq<TemporalHash>,
    tolerance: Single,
    min: Single,
    n: int,
    at: int,
) -> (best: int)
    requires
        pair::aligned(clip, source, tolerance, min, at),
        at < n,
    ensures
        pair::aligned(clip, source, tolerance, min, best),
        best < n,
        forall|o: int|
            o < n && #[trigger] pair::aligned(clip, source, tolerance, min, o)
                ==> pair::mean_similarity(clip, source, o).is_at_most(
                pair::mean_similarity(clip, source, best),
            ),
        forall|o: int|
            o < best && #[trigger] pair::aligned(clip, source, tolerance, min, o)
                ==> pair::mean_similarity(clip, source, o).is_less(
                pair::mean_similarity(clip, source, best),
            ),
    decreases n,
{
    let last = n - 1;
    if exists|o: int| o < last && #[trigger] pair::aligned(clip, source, tolerance, min, o) {
        let o = choose|o: int|
            o < last && #[trigger] pair::aligned(clip, source, tolerance, min, o);
        let best = lemma_best_before(clip, source, tolerance, min, last, o);
        if pair::aligned(clip, source, tolerance, min, last) && pair::mean_similarity(
            clip,
            source,
            best,
        ).is_less(pair::mean_similarity(clip, source, last)) {
            last
        } else {
            best
        }
    } else {
        assert(at == last);
        at
    }
}

/// Enough agreeing windows make a clip, also where others do not agree: where the fraction of the
/// windows that agree at some place reaches the limit and the windows there are alike on the whole,
/// a place is found. It is one where enough windows agree, too, and its score is the best one of all
/// such places; of several with that score it is the first.
pub proof fn law_enough_agreeing_windows_make_a_clip(
    clip: Seq<TemporalHash>,
    source: Seq<TemporalHash>,
    tolerance: Single,
    min: Single,
    offset: int,
)
    requires
        0 < clip.len() <= scores::MAX_WINDOWS,
        0 <= offset <= source.len() - clip.len(),
        scores::within(clip, source, offset, clip.len(), 1024),
        enough_agree(clip, source, offset, tolerance, min),
        surely_alike(clip, source, offset),
    ensures
        pair::best_alignment(clip, source, tolerance, min) matches Some(found) && 0 <= found
            <= source.len() - clip.len() && enough_agree(clip, source, found, tolerance, min)
            && pair::mean_similarity(clip, source, offset).is_at_most(
            pair::mean_similarity(clip, source, found),
        ) && (offset < found ==> pair::mean_similarity(clip, source, offset).is_less(
            pair::mean_similarity(clip, source, found),
        )),
{
    lemma_positive(clip, source, offset);
    lemma_aligned(clip, source, tolerance, min, offset);
    let best = lemma_best_before(
        clip,
        source,
        tolerance,
        min,
        source.len() - clip.len() + 1,
        offset,
    );
    assert(pair::is_best_alignment(clip, source, tolerance, min, best));
    let found = pair::best_alignment(clip, source, tolerance, min)->0;
    assert(pair::is_best_alignment(clip, source, tolerance, min, found));
    lemma_aligned(clip, source, tolerance, min, found);
}

/// A place is found only where enough windows agree and the score is positive. Where none is found,
/// there is no such place.
pub proof fn law_clips_are_found_where_enough_windows_agree(
    clip: Seq<TemporalHash>,
    source: Seq<TemporalHash>,
    tolerance: Single,
    min: Single,
    offset: int,
)
    requires
        clip.len() > 0,
        0 <= offset <= source.len() - clip.len(),
    ensures
        match pair::best_alignment(clip, source, tolerance, min) {
            Some(found) => 0 <= found <= source.len() - clip.len() && enough_agree(
                clip,
                source,
                found,
                tolerance,
                min,
            ) && Single::zero().is_less(pair::mean_similarity(clip, source, found)),
            None => !enough_agree(clip, source, offset, tolerance, min)
                || !Single::zero().is_less(pair::mean_similarity(clip, source, offset)),
        },
{
    lemma_aligned(clip, source, tolerance, min, offset);
    match pair::best_alignment(clip, source, tolerance, min) {
        Some(found) => {
            assert(pair::is_best_alignment(clip, source, tolerance, min, found));
            lemma_aligned(clip, source, tolerance, min, found);
        },
        None => {
            if pair::aligned(clip, source, tolerance, min, offset) {
                let best = lemma_best_before(
                    clip,
                    source,
                    tolerance,
                    min,
                    source.len() - clip.len() + 1,
                    offset,
                );
                assert(pair::is_best_alignment(clip, source, tolerance, min, best));
            }
        },
    }
}

// ---- Durations ----

/// A clip has at least a tenth of its source exactly where ten times its milliseconds are as many
/// as those of the source.
pub proof fn law_a_tenth_is_a_tenth(clip_ms: u64, source_ms: u64)
    requires
        clip_ms <= 0x20_0000_0000_0000,
        source_ms <= 0x20_0000_0000_0000,
    ensures
        pair::has_a_tenth(clip_ms, source_ms) <==> 10 * clip_ms >= bounds::larger(
            source_ms as int,
            1,
        ),
{
    let f = Format::Double;
    let u = power2::pow2(1074) as int;
    let v = power2::pow2(1018) as int;
    let p: nat = 0x3fb9_9999_9999_999a;
    let c = clip_ms as int;
    let s = bounds::larger(source_ms as int, 1);
    power2::lemma2_to64();
    power2::lemma2_to64_rest();
    power2::lemma_pow2_pos(1018);
    power2::lemma_pow2_adds(56, 1018);
    assert(u == 0x100_0000_0000_0000 * v);
    float::lemma_count_is_exact(clip_ms as nat);
    float::lemma_count_is_exact(s as nat);
    assert(float::power(f, p) == 1018);
    assert(float::significant(f, p) == 0x19_9999_9999_999a);
    assert(float::middle(f, p) == 0x33_3333_3333_3335 * v);
    let before = (p - 1) as nat;
    assert(float::power(f, before) == 1018);
    assert(float::significant(f, before) == 0x19_9999_9999_9999);
    assert(float::middle(f, before) == 0x33_3333_3333_3333 * v);
    assert(float::is_nearest(f, p, u as nat, 10));
    let (num, den) = ((c * u * u) as nat, (s * u) as nat);
    assert(c * u * u >= 0 && s * u > 0) by (nonlinear_arith)
        requires
            c >= 0,
            s >= 1,
            u > 0,
    ;
    float::lemma_nearest_exists(f, num, den);
    let q = float::nearest(f, num, den);
    assert((c * u) * u == num);
    let quotient = Double::counted(clip_ms as nat).divided(Double::counted(s as nat));
    assert(quotient.pattern() == q);
    if 10 * c >= s {
        assert(u * den <= num * 10) by (nonlinear_arith)
            requires
                num == c * u * u,
                den == s * u,
                10 * c >= s,
                u > 0,
        ;
        float::lemma_rounding_is_monotone(f, p, u as nat, 10, q, num, den);
    } else {
        assert(2 * num < float::middle(f, before) * den) by {
            lemma_below_a_tenth(c, s, u, v);
        }
        if q >= p {
            if before < q - 1 {
                float::lemma_units_increase(f, before, (q - 1) as nat);
            }
            assert(float::is_above(f, (q - 1) as nat, num, den));
            assert(float::middle(f, before) * den <= float::middle(f, (q - 1) as nat) * den)
                by (nonlinear_arith)
                requires
                    float::middle(f, before) <= float::middle(f, (q - 1) as nat),
            ;
        }
    }
}

proof fn lemma_below_a_tenth(c: int, s: int, u: int, v: int)
    requires
        0 <= c,
        10 * c < s <= 0x20_0000_0000_0000,
        u == 0x100_0000_0000_0000 * v,
        v > 0,
    ensures
        2 * (c * u * u) < (0x33_3333_3333_3333 * v) * (s * u),
{
    assert(2 * c * 0x100_0000_0000_0000 < 0x33_3333_3333_3333 * s);
    assert(2 * (c * u) < (0x33_3333_3333_3333 * s) * v) by (nonlinear_arith)
        requires
            2 * c * 0x100_0000_0000_0000 < 0x33_3333_3333_3333 * s,
            u == 0x100_0000_0000_0000 * v,
            v > 0,
    ;
    assert(2 * (c * u * u) < (0x33_3333_3333_3333 * v) * (s * u)) by (nonlinear_arith)
        requires
            2 * (c * u) < (0x33_3333_3333_3333 * s) * v,
            u == 0x100_0000_0000_0000 * v,
            v > 0,
    ;
}

// ---- Pairs of files ----

/// How far the middle windows of two files are apart.
pub open spec fn middle_fraction(a: VideoSignature, b: VideoSignature) -> Single {
    match_laws::fraction(
        a.visual_hashes@[a.visual_hashes@.len() as int / 2],
        b.visual_hashes@[b.visual_hashes@.len() as int / 2],
    )
}

/// Whether the middle windows of two files are more than one and a half times the tolerance apart.
pub open spec fn far_apart(a: VideoSignature, b: VideoSignature, tolerance: Single) -> bool {
    tolerance.multiplied(Single { bits: 0x3fc0_0000 }).is_less(middle_fraction(a, b))
}

/// Whether two files have the same number of windows, of which enough agree one by one.
pub open spec fn same_windows(a: VideoSignature, b: VideoSignature, cfg: CompareConfig) -> bool {
    &&& a.visual_hashes@.len() == b.visual_hashes@.len()
    &&& enough_agree(
        a.visual_hashes@,
        b.visual_hashes@,
        0,
        cfg.tolerance,
        cfg.min_matching_windows,
    )
}

/// Whether the similarity of the middle windows of two files reaches one minus the tolerance.
pub open spec fn middles_reach(a: VideoSignature, b: VideoSignature, tolerance: Single) -> bool {
    Single::one().subtracted(tolerance).is_at_most(
        Single::one().subtracted(middle_fraction(a, b)),
    )
}

proof fn lemma_terms(a: VideoSignature, b: VideoSignature, cfg: CompareConfig)
    ensures
        pair::middles_apart(a.visual_hashes@, b.visual_hashes@, cfg.tolerance) == far_apart(
            a,
            b,
            cfg.tolerance,
        ),
        pair::same_content(a.visual_hashes@, b.visual_hashes@, cfg) == same_windows(a, b, cfg),
{
    lemma_agreeing(
        a.visual_hashes@,
        b.visual_hashes@,
        0,
        cfg.tolerance,
        a.visual_hashes@.len(),
    );
}

/// Files whose middle windows are more than one and a half times the tolerance apart do not match,
/// and neither do files without windows.
pub proof fn law_far_middles_do_not_match(a: VideoSignature, b: VideoSignature, cfg: CompareConfig)
    requires
        !cfg.use_audio,
        a.visual_hashes@.len() == 0 || b.visual_hashes@.len() == 0 || far_apart(
            a,
            b,
            cfg.tolerance,
        ),
    ensures
        pair::pair_match(a, b, cfg) is None,
{
    reveal(pair::visual_match);
    lemma_terms(a, b, cfg);
}

/// Files with the same number of windows, of which enough agree one by one, have the same content,
/// as long as their middle windows are not too far apart. The score is that of all windows, and
/// from 0.97 on the files are identical.
pub proof fn law_agreeing_files_have_the_same_content(
    a: VideoSignature,
    b: VideoSignature,
    cfg: CompareConfig,
)
    requires
        !cfg.use_audio,
        a.visual_hashes@.len() > 0,
        !far_apart(a, b, cfg.tolerance),
        same_windows(a, b, cfg),
    ensures
        pair::pair_match(a, b, cfg) matches Some(found) && found.visual_score
            == pair::mean_similarity(a.visual_hashes@, b.visual_hashes@, 0) && found.kind == (
        if (Single { bits: 0x3f78_51ec }).is_at_most(found.visual_score) {
            SimilarityKind::Identical
        } else {
            SimilarityKind::SameContent
        }),
{
    reveal(pair::visual_match);
    lemma_terms(a, b, cfg);
}

/// Files match in some way whenever the similarity of their middle windows reaches one minus the
/// tolerance.
pub proof fn law_close_middles_match(a: VideoSignature, b: VideoSignature, cfg: CompareConfig)
    requires
        !cfg.use_audio,
        a.visual_hashes@.len() > 0,
        b.visual_hashes@.len() > 0,
        visual::hash_distance(
            a.visual_hashes@[a.visual_hashes@.len() as int / 2],
            b.visual_hashes@[b.visual_hashes@.len() as int / 2],
        ) <= 1024,
        Single::zero().is_at_most(cfg.tolerance),
        middles_reach(a, b, cfg.tolerance),
    ensures
        pair::pair_match(a, b, cfg) is Some,
{
    reveal(pair::visual_match);
    lemma_terms(a, b, cfg);
    lemma_reaching_is_not_far(
        visual::hash_distance(
            a.visual_hashes@[a.visual_hashes@.len() as int / 2],
            b.visual_hashes@[b.visual_hashes@.len() as int / 2],
        ),
        cfg.tolerance,
    );
}

/// What reaches one minus the tolerance is no more than one and a half times the tolerance apart.
proof fn lemma_reaching_is_not_far(distance: nat, tolerance: Single)
    requires
        distance <= 1024,
        Single::zero().is_at_most(tolerance),
        Single::one().subtracted(tolerance).is_at_most(
            Single::one().subtracted(visual::normalized(distance)),
        ),
    ensures
        !tolerance.multiplied((Single { bits: 0x3fc0_0000 })).is_less(visual::normalized(distance)),
{
    let f = Format::Single;
    let u = match_laws::unit();
    match_laws::lemma_one();
    match_laws::law_normalized_distance_is_the_fraction(distance);
    float::lemma_zero_is_nearest(f, 1);
    let norm = visual::normalized(distance);
    let n = match_laws::value(norm);
    let t = match_laws::value(tolerance);
    let product = tolerance.multiplied((Single { bits: 0x3fc0_0000 }));
    if product.is_less(norm) {
        power2::lemma2_to64();
        power2::lemma_pow2_adds(23, 126);
        power2::lemma_pow2_pos(149);
        assert(float::power(f, 0x3fc0_0000) == 126);
        assert(float::significant(f, 0x3fc0_0000) == 0xc0_0000);
        let c = float::units(f, 0x3fc0_0000) as int;
        assert(c == 0xc0_0000 * power2::pow2(126));
        assert(u == 0x80_0000 * power2::pow2(126));
        assert(2 * c == 3 * u);
        let ts = float::units(f, float::magnitude(f, tolerance.pattern())) as int;
        assert(t == ts);
        let num = ts * c;
        assert(num >= 0) by (nonlinear_arith)
            requires
                num == ts * c,
                ts >= 0,
                c >= 0,
        ;
        float::lemma_nearest_exists(f, num as nat, u as nat);
        let p = float::nearest(f, num as nat, u as nat);
        let q = float::magnitude(f, norm.pattern());
        assert(float::is_finite(f, tolerance.pattern()));
        assert(float::magnitude(f, product.pattern()) == p);
        if float::is_negative(f, tolerance.pattern()) {
            float::lemma_zero_is_nearest(f, u as nat);
            assert(0 * c == 0) by (nonlinear_arith);
        } else {
            assert(product.place() == p);
        }
        assert(p < q);
        float::lemma_next(f, p);
        if p + 1 < q {
            float::lemma_units_increase(f, p + 1, q);
        }
        float::lemma_units_increase(f, p, q);
        assert(3 * t <= 2 * n) by (nonlinear_arith)
            requires
                2 * num <= float::middle(f, p) * u,
                float::middle(f, p) <= 2 * n,
                num == t * c,
                2 * c == 3 * u,
                u > 0,
        ;
        assert(distance > 0) by {
            if distance == 0 {
                assert(0 * u == 0) by (nonlinear_arith);
                scores::lemma_no_difference_is_tolerated(tolerance);
            }
        }
        assert(distance * u >= u) by (nonlinear_arith)
            requires
                distance >= 1,
                u > 0,
        ;
        // Both differences from one are near to the exact ones.
        let minus = Single::of(float::negated(f, norm.pattern()));
        let less = Single::of(float::negated(f, tolerance.pattern()));
        assert(match_laws::value(minus) == -n && match_laws::value(less) == -t);
        match_laws::lemma_sum_near(Single::one(), minus);
        match_laws::lemma_sum_near(Single::one(), less);
        let (s, r) = (Single::one().added(minus), Single::one().added(less));
        float::lemma_value_increases(f, r.pattern(), s.pattern());
        assert(match_laws::value(r) <= match_laws::value(s));
        assert(false);
    }
}

/// Where a file is at least a tenth as long as another one and no longer, and enough of its windows
/// agree with those of the other one at some place, it is found to be a clip, unless the two have
/// the same content or their middle windows are too far apart. The place that is reported is one
/// where enough windows agree, and the score is its score, which is the best of all such places.
pub proof fn law_partial_clips_are_reported(
    clip: VideoSignature,
    source: VideoSignature,
    cfg: CompareConfig,
    offset: int,
)
    requires
        !cfg.use_audio,
        0 < clip.visual_hashes@.len() <= scores::MAX_WINDOWS,
        0 <= offset <= source.visual_hashes@.len() - clip.visual_hashes@.len(),
        scores::within(
            clip.visual_hashes@,
            source.visual_hashes@,
            offset,
            clip.visual_hashes@.len(),
            1024,
        ),
        enough_agree(
            clip.visual_hashes@,
            source.visual_hashes@,
            offset,
            cfg.tolerance,
            cfg.subclip_min_match,
        ),
        surely_alike(clip.visual_hashes@, source.visual_hashes@, offset),
        1 <= source.duration_ms <= 0x20_0000_0000_0000,
        clip.duration_ms <= source.duration_ms <= 10 * clip.duration_ms,
    ensures
        !far_apart(clip, source, cfg.tolerance) && !same_windows(clip, source, cfg)
            ==> exists|place: int| #[trigger]
            is_reported(clip, source, cfg, offset, place, WhichFile::A) && pair::pair_match(
                clip,
                source,
                cfg,
            ) == Some(clip_result(clip, source, place, WhichFile::A)),
        clip.duration_ms < source.duration_ms && !far_apart(source, clip, cfg.tolerance)
            && !same_windows(source, clip, cfg) ==> exists|place: int| #[trigger]
            is_reported(clip, source, cfg, offset, place, WhichFile::B) && pair::pair_match(
                source,
                clip,
                cfg,
            ) == Some(clip_result(clip, source, place, WhichFile::B)),
{
    reveal(pair::visual_match);
    lemma_terms(clip, source, cfg);
    lemma_terms(source, clip, cfg);
    law_a_tenth_is_a_tenth(clip.duration_ms, source.duration_ms);
    let (hc, hs) = (clip.visual_hashes@, source.visual_hashes@);
    law_enough_agreeing_windows_make_a_clip(
        hc,
        hs,
        cfg.tolerance,
        cfg.subclip_min_match,
        offset,
    );
    let place = pair::best_alignment(hc, hs, cfg.tolerance, cfg.subclip_min_match)->0;
    assert(is_reported(clip, source, cfg, offset, place, WhichFile::A));
    assert(is_reported(clip, source, cfg, offset, place, WhichFile::B));
}

/// Whether a place may be reported, given another one where enough windows agree.
pub open spec fn is_reported(
    clip: VideoSignature,
    source: VideoSignature,
    cfg: CompareConfig,
    offset: int,
    place: int,
    clip_is: WhichFile,
) -> bool {
    let (hc, hs) = (clip.visual_hashes@, source.visual_hashes@);
    &&& 0 <= place <= hs.len() - hc.len()
    &&& enough_agree(hc, hs, place, cfg.tolerance, cfg.subclip_min_match)
    &&& pair::mean_similarity(hc, hs, offset).is_at_most(pair::mean_similarity(hc, hs, place))
}

/// What is said of a clip that lies at a place.
pub open spec fn clip_result(
    clip: VideoSignature,
    source: VideoSignature,
    place: int,
    clip_is: WhichFile,
) -> pair::PairResult {
    pair::PairResult {
        visual_score: pair::mean_similarity(clip.visual_hashes@, source.visual_hashes@, place),
        kind: SimilarityKind::SubClip { offset_ms: source.visual_hashes@[place].start_ms, clip_is },
    }
}

/// What a match says is so: files with the same content have the same number of windows, of which
/// enough agree, and are identical from a score of 0.97 on; a clip is no longer than its source, has
/// a tenth of it and lies where enough windows agree; files that are similar are so in their middle
/// windows.
pub open spec fn is_justified(
    a: VideoSignature,
    b: VideoSignature,
    cfg: CompareConfig,
    found: pair::PairResult,
) -> bool {
    let identical = (Single { bits: 0x3f78_51ec }).is_at_most(found.visual_score);
    match found.kind {
        SimilarityKind::Identical => same_windows(a, b, cfg) && identical,
        SimilarityKind::SameContent => same_windows(a, b, cfg) && !identical,
        SimilarityKind::SubClip { offset_ms, clip_is } => !same_windows(a, b, cfg)
            && match clip_is {
            WhichFile::A => is_clip_of(a, b, cfg, found, clip_is),
            WhichFile::B => is_clip_of(b, a, cfg, found, clip_is),
        },
        SimilarityKind::Similar => {
            &&& !same_windows(a, b, cfg)
            &&& middles_reach(a, b, cfg.tolerance)
            &&& found.visual_score == Single::one().subtracted(middle_fraction(a, b))
        },
    }
}

/// Whether a file is a clip of another one, as a match says.
pub open spec fn is_clip_of(
    clip: VideoSignature,
    source: VideoSignature,
    cfg: CompareConfig,
    found: pair::PairResult,
    clip_is: WhichFile,
) -> bool {
    let (hc, hs) = (clip.visual_hashes@, source.visual_hashes@);
    &&& clip.duration_ms <= source.duration_ms
    &&& source.duration_ms <= 10 * clip.duration_ms
    &&& exists|place: int|
        0 <= place <= hs.len() - hc.len() && #[trigger] enough_agree(
            hc,
            hs,
            place,
            cfg.tolerance,
            cfg.subclip_min_match,
        ) && found == clip_result(clip, source, place, clip_is)
}

/// Every match by visual hashes is justified by the windows and durations of the files, whose middle
/// windows are never too far apart.
pub proof fn law_matches_are_justified(a: VideoSignature, b: VideoSignature, cfg: CompareConfig)
    requires
        !cfg.use_audio,
        a.duration_ms <= 0x20_0000_0000_0000,
        b.duration_ms <= 0x20_0000_0000_0000,
    ensures
        pair::pair_match(a, b, cfg) matches Some(found) ==> is_justified(a, b, cfg, found)
            && a.visual_hashes@.len() > 0 && b.visual_hashes@.len() > 0 && !far_apart(
            a,
            b,
            cfg.tolerance,
        ),
{
    reveal(pair::visual_match);
    lemma_terms(a, b, cfg);
    let (ha, hb) = (a.visual_hashes@, b.visual_hashes@);
    if let Some(found) = pair::pair_match(a, b, cfg) {
        if !same_windows(a, b, cfg) {
            if a.duration_ms <= b.duration_ms {
                lemma_clip_of(a, b, cfg, WhichFile::A);
            } else {
                lemma_clip_of(b, a, cfg, WhichFile::B);
            }
            match pair::subclip_match(a, b, cfg) {
                Some(clip) => {
                    assert(found == clip);
                },
                None => {
                    assert(found.visual_score == pair::similarity(
                        pair::middle(ha),
                        pair::middle(hb),
                    ));
                },
            }
        }
    }
}

/// Whether a match says that this one of two files is a clip.
spec fn is_of_file(kind: SimilarityKind, file: WhichFile) -> bool {
    match kind {
        SimilarityKind::SubClip { offset_ms, clip_is } => clip_is == file,
        _ => false,
    }
}

proof fn lemma_clip_of(
    clip: VideoSignature,
    source: VideoSignature,
    cfg: CompareConfig,
    clip_is: WhichFile,
)
    requires
        clip.duration_ms <= source.duration_ms <= 0x20_0000_0000_0000,
    ensures
        pair::clip_match(clip, source, clip_is, cfg) matches Some(found) ==> is_clip_of(
            clip,
            source,
            cfg,
            found,
            clip_is,
        ) && is_of_file(found.kind, clip_is),
{
    law_a_tenth_is_a_tenth(clip.duration_ms, source.duration_ms);
    let (hc, hs) = (clip.visual_hashes@, source.visual_hashes@);
    if let Some(place) = pair::best_alignment(hc, hs, cfg.tolerance, cfg.subclip_min_match) {
        assert(pair::is_best_alignment(hc, hs, cfg.tolerance, cfg.subclip_min_match, place));
        lemma_aligned(hc, hs, cfg.tolerance, cfg.subclip_min_match, place);
        assert(enough_agree(hc, hs, place, cfg.tolerance, cfg.subclip_min_match));
    }
}

} // verus!
