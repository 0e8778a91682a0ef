//! Comparison of two signatures.

use crate::audio::{self, best_score, segments_of};
use crate::compare::{CompareConfig, SimilarityKind, WhichFile};
use crate::double::Double;
use crate::bounds;
use crate::single::Single;
use crate::visual::{self, TemporalHash, VideoSignature};
use vstd::prelude::*;

verus! {

/// The number one, by its bits.
pub const ONE: u32 = 0x3f80_0000;

/// How far beyond the tolerance the middle windows may be apart: one and a half times.
pub const MIDDLE_FACTOR: u32 = 0x3fc0_0000;

/// The score from which on the same pictures are identical: 0.97.
pub const IDENTICAL_PICTURES: u32 = 0x3f78_51ec;

/// The score from which on the same sound is identical: 0.95.
pub const IDENTICAL_SOUND: u32 = 0x3f73_3333;

/// The fraction of a source that a clip has at least: one tenth, in double precision.
pub const CLIP_FRACTION: u64 = 0x3fb9_9999_9999_999a;

/// The number one in double precision.
pub const WIDE_ONE: u64 = 0x3ff0_0000_0000_0000;

/// Two signatures that match: how, and how well.
#[derive(Debug, Clone, Copy, PartialEq, Eq)]
pub struct PairResult {
    pub visual_score: Single,
    pub kind: SimilarityKind,
}

impl PairResult {
    /// Whether the score is not below one minus the tolerance.
    pub fn reaches(&self, tolerance: Single) -> (enough: bool)
        ensures
            enough == reaches(*self, tolerance),
    {
        !self.visual_score.test_less(Single { bits: ONE }.minus(tolerance))
    }
}

/// Whether two windows are within a tolerance.
pub open spec fn window_matches(x: TemporalHash, y: TemporalHash, tolerance: Single) -> bool {
    visual::normalized(visual::hash_distance(x, y)).is_at_most(tolerance)
}

/// The similarity of two windows: one minus the fraction of the hash bits that differ.
pub open spec fn similarity(x: TemporalHash, y: TemporalHash) -> Single {
    Single { bits: ONE }.subtracted(visual::normalized(visual::hash_distance(x, y)))
}

/// How many of the first `n` windows of `clip` match the windows of `source` that start at
/// `offset`.
pub open spec fn matching_windows(
    clip: Seq<TemporalHash>,
    source: Seq<TemporalHash>,
    offset: int,
    tolerance: Single,
    n: nat,
) -> nat
    decreases n,
{
    if n == 0 {
        0
    } else {
        matching_windows(clip, source, offset, tolerance, (n - 1) as nat) + if window_matches(
            clip[n - 1],
            source[offset + n - 1],
            tolerance,
        ) {
            1nat
        } else {
            0nat
        }
    }
}

/// The sum of the similarities, from first to last, of the first `n` windows of `clip` and the
/// windows of `source` that start at `offset`.
pub open spec fn similarity_sum(
    clip: Seq<TemporalHash>,
    source: Seq<TemporalHash>,
    offset: int,
    n: nat,
) -> Single
    decreases n,
{
    if n == 0 {
        Single { bits: 0 }
    } else {
        similarity_sum(clip, source, offset, (n - 1) as nat).added(
            similarity(clip[n - 1], source[offset + n - 1]),
        )
    }
}

/// The mean similarity of the windows of `clip` and the windows of `source` that start at
/// `offset`.
pub open spec fn mean_similarity(
    clip: Seq<TemporalHash>,
    source: Seq<TemporalHash>,
    offset: int,
) -> Single {
    similarity_sum(clip, source, offset, clip.len()).divided(Single::counted(clip.len()))
}

/// The fraction of the windows of `clip` that match the windows of `source` that start at
/// `offset`.
pub open spec fn matching_fraction(
    clip: Seq<TemporalHash>,
    source: Seq<TemporalHash>,
    offset: int,
    tolerance: Single,
) -> Single {
    Single::counted(matching_windows(clip, source, offset, tolerance, clip.len())).divided(
        Single::counted(clip.len()),
    )
}

/// Whether `clip` lies in `source` at `offset`: enough of its windows match there, and the score
/// is positive.
pub open spec fn aligned(
    clip: Seq<TemporalHash>,
    source: Seq<TemporalHash>,
    tolerance: Single,
    min_match: Single,
    offset: int,
) -> bool {
    &&& 0 <= offset <= source.len() - clip.len()
    &&& min_match.is_at_most(matching_fraction(clip, source, offset, tolerance))
    &&& Single { bits: 0 }.is_less(mean_similarity(clip, source, offset))
}

/// Whether `offset` is the first of the offsets at which `clip` lies in `source` with the best
/// score.
pub open spec fn is_best_alignment(
    clip: Seq<TemporalHash>,
    source: Seq<TemporalHash>,
    tolerance: Single,
    min_match: Single,
    offset: int,
) -> bool {
    &&& aligned(clip, source, tolerance, min_match, offset)
    &&& forall|o: int| #[trigger]
        aligned(clip, source, tolerance, min_match, o) ==> mean_similarity(
            clip,
            source,
            o,
        ).is_at_most(mean_similarity(clip, source, offset))
    &&& forall|o: int|
        o < offset && #[trigger] aligned(clip, source, tolerance, min_match, o) ==> mean_similarity(
            clip,
            source,
            o,
        ).is_less(mean_similarity(clip, source, offset))
}

/// Where `clip` lies best in `source`, if anywhere.
pub open spec fn best_alignment(
    clip: Seq<TemporalHash>,
    source: Seq<TemporalHash>,
    tolerance: Single,
    min_match: Single,
) -> Option<int> {
    if clip.len() > 0 && exists|o: int| is_best_alignment(clip, source, tolerance, min_match, o) {
        Some(choose|o: int| is_best_alignment(clip, source, tolerance, min_match, o))
    } else {
        None
    }
}

/// The middle window.
pub open spec fn middle(hashes: Seq<TemporalHash>) -> TemporalHash {
    hashes[hashes.len() as int / 2]
}

/// Whether the middle windows of two sequences are too far apart for the sequences to match.
pub open spec fn middles_apart(
    ha: Seq<TemporalHash>,
    hb: Seq<TemporalHash>,
    tolerance: Single,
) -> bool {
    tolerance.multiplied(Single { bits: MIDDLE_FACTOR }).is_less(
        visual::normalized(visual::hash_distance(middle(ha), middle(hb))),
    )
}

/// Whether two window sequences show the same content: there are as many in one as in the other,
/// and enough of them match.
pub open spec fn same_content(
    ha: Seq<TemporalHash>,
    hb: Seq<TemporalHash>,
    cfg: CompareConfig,
) -> bool {
    &&& ha.len() == hb.len()
    &&& cfg.min_matching_windows.is_at_most(matching_fraction(ha, hb, 0, cfg.tolerance))
}

/// Whether a duration is at least a tenth of another one.
pub open spec fn has_a_tenth(clip_ms: u64, source_ms: u64) -> bool {
    Double { bits: CLIP_FRACTION }.is_at_most(
        Double::counted(clip_ms as nat).divided(
            Double::counted(bounds::larger(source_ms as int, 1) as nat),
        ),
    )
}

/// The match of a shorter file that lies in a longer one, of which it has at least a tenth.
pub open spec fn clip_match(
    clip: VideoSignature,
    source: VideoSignature,
    clip_is: WhichFile,
    cfg: CompareConfig,
) -> Option<PairResult> {
    if !has_a_tenth(clip.duration_ms, source.duration_ms) {
        None
    } else {
        let hc = clip.visual_hashes@;
        let hs = source.visual_hashes@;
        match best_alignment(hc, hs, cfg.tolerance, cfg.subclip_min_match) {
            Some(offset) => Some(
                PairResult {
                    visual_score: mean_similarity(hc, hs, offset),
                    kind: SimilarityKind::SubClip { offset_ms: hs[offset].start_ms, clip_is },
                },
            ),
            None => None,
        }
    }
}

/// The match of the one file of two that is a clip of the other; the first is the clip where the
/// durations are equal.
pub open spec fn subclip_match(
    a: VideoSignature,
    b: VideoSignature,
    cfg: CompareConfig,
) -> Option<PairResult> {
    if a.duration_ms <= b.duration_ms {
        clip_match(a, b, WhichFile::A, cfg)
    } else {
        clip_match(b, a, WhichFile::B, cfg)
    }
}

/// The match of two signatures by their visual hashes.
#[verifier::opaque]
pub open spec fn visual_match(
    a: VideoSignature,
    b: VideoSignature,
    cfg: CompareConfig,
) -> Option<PairResult> {
    let ha = a.visual_hashes@;
    let hb = b.visual_hashes@;
    if ha.len() == 0 || hb.len() == 0 {
        None
    } else if middles_apart(ha, hb, cfg.tolerance) {
        None
    } else if same_content(ha, hb, cfg) {
        let visual_score = mean_similarity(ha, hb, 0);
        Some(
            PairResult {
                visual_score,
                kind: if (Single { bits: IDENTICAL_PICTURES }).is_at_most(visual_score) {
                    SimilarityKind::Identical
                } else {
                    SimilarityKind::SameContent
                },
            },
        )
    } else {
        match subclip_match(a, b, cfg) {
            Some(found) => Some(found),
            None => {
                let visual_score = similarity(middle(ha), middle(hb));
                if (Single { bits: ONE }).subtracted(cfg.tolerance).is_at_most(visual_score) {
                    Some(PairResult { visual_score, kind: SimilarityKind::Similar })
                } else {
                    None
                }
            },
        }
    }
}

/// The score that a best segment score stands for: one minus its fraction of the largest
/// difference.
pub open spec fn audio_score(best: Double, max_difference: Double) -> Single {
    Double { bits: WIDE_ONE }.subtracted(
        best.divided(max_difference).smaller(Double { bits: WIDE_ONE }),
    ).narrowed()
}

/// The match that a best segment score stands for, if it leaves any score.
pub open spec fn audio_verdict(best: Option<Double>, max_difference: Double) -> Option<PairResult> {
    match best {
        Some(difference) => {
            let visual_score = audio_score(difference, max_difference);
            if visual_score.is_at_most(Single { bits: 0 }) {
                None
            } else {
                Some(
                    PairResult {
                        visual_score,
                        kind: if (Single { bits: IDENTICAL_SOUND }).is_at_most(visual_score) {
                            SimilarityKind::Identical
                        } else {
                            SimilarityKind::SameContent
                        },
                    },
                )
            }
        },
        None => None,
    }
}

/// The match of two signatures by their audio fingerprints.
#[verifier::opaque]
pub open spec fn audio_match(
    a: VideoSignature,
    b: VideoSignature,
    cfg: CompareConfig,
) -> Option<PairResult> {
    match (a.audio_fingerprint, b.audio_fingerprint) {
        (Some(fa), Some(fb)) => if fa@.len() == 0 || fb@.len() == 0 || !audio::can_match(fa@, fb@) {
            None
        } else {
            audio_verdict(
                audio::best_segment_score(
                    audio::matching_segments(fa@, fb@),
                    cfg.audio_min_segment_duration,
                    cfg.audio_max_difference,
                ),
                cfg.audio_max_difference,
            )
        },
        _ => None,
    }
}

/// The match of two signatures, if they match.
pub open spec fn pair_match(
    a: VideoSignature,
    b: VideoSignature,
    cfg: CompareConfig,
) -> Option<PairResult> {
    if cfg.use_audio {
        audio_match(a, b, cfg)
    } else {
        visual_match(a, b, cfg)
    }
}

/// Whether the score of a match is not below one minus the tolerance.
pub open spec fn reaches(found: PairResult, tolerance: Single) -> bool {
    !found.visual_score.is_less(Single { bits: ONE }.subtracted(tolerance))
}

/// The first best alignment is a single one.
pub proof fn lemma_best_alignment_unique(
    clip: Seq<TemporalHash>,
    source: Seq<TemporalHash>,
    tolerance: Single,
    min_match: Single,
    p: int,
    q: int,
)
    requires
        is_best_alignment(clip, source, tolerance, min_match, p),
        is_best_alignment(clip, source, tolerance, min_match, q),
    ensures
        p == q,
{
    assert(aligned(clip, source, tolerance, min_match, p));
    assert(aligned(clip, source, tolerance, min_match, q));
}

/// The fraction of the windows of `clip` that match those of `source` at one offset, and their
/// mean similarity.
fn align(
    clip: &Vec<TemporalHash>,
    source: &Vec<TemporalHash>,
    offset: usize,
    tolerance: Single,
) -> (found: (Single, Single))
    requires
        offset + clip@.len() <= source@.len(),
    ensures
        found.0 == matching_fraction(clip@, source@, offset as int, tolerance),
        found.1 == mean_similarity(clip@, source@, offset as int),
{
    let mut matching: u64 = 0;
    let mut total = Single { bits: 0 };
    let mut i: usize = 0;
    let windows: usize = source.len();
    while i < clip.len()
        invariant
            i <= clip@.len(),
            windows == source@.len(),
            offset + clip@.len() <= source@.len(),
            matching == matching_windows(clip@, source@, offset as int, tolerance, i as nat),
            total == similarity_sum(clip@, source@, offset as int, i as nat),
            matching <= i,
        decreases clip@.len() - i,
    {
        let distance = clip[i].normalized_distance(&source[offset + i]);
        if distance.test_at_most(tolerance) {
            matching = matching + 1;
        }
        total = total.plus(Single { bits: ONE }.minus(distance));
        i = i + 1;
    }
    let count = Single::count(clip.len() as u64);
    (Single::count(matching).over(count), total.over(count))
}

/// Finds where the windows of a clip lie best among those of a source: the score and the start
/// of the first such place.
pub fn sliding_window_match(
    clip_hashes: &Vec<TemporalHash>,
    source_hashes: &Vec<TemporalHash>,
    tolerance: Single,
    min_match: Single,
) -> (found: Option<(Single, u64)>)
    ensures
        match best_alignment(clip_hashes@, source_hashes@, tolerance, min_match) {
            Some(offset) => found == Some(
                (
                    mean_similarity(clip_hashes@, source_hashes@, offset),
                    source_hashes@[offset].start_ms,
                ),
            ),
            None => found is None,
        },
{
    let cn: usize = clip_hashes.len();
    let sn: usize = source_hashes.len();
    if cn == 0 {
        return None;
    }
    let ghost clip = clip_hashes@;
    let ghost source = source_hashes@;
    if sn < cn {
        assert forall|o: int| !is_best_alignment(clip, source, tolerance, min_match, o) by {}
        return None;
    }
    let mut best: Option<(usize, Single)> = None;
    let mut offset: usize = 0;
    while offset <= sn - cn
        invariant
            clip == clip_hashes@,
            source == source_hashes@,
            cn == clip.len(),
            sn == source.len(),
            0 < cn <= sn,
            offset <= sn - cn + 1,
            match best {
                None => forall|o: int|
                    o < offset ==> !#[trigger] aligned(clip, source, tolerance, min_match, o),
                Some((at, score)) => {
                    &&& at < offset
                    &&& aligned(clip, source, tolerance, min_match, at as int)
                    &&& score == mean_similarity(clip, source, at as int)
                    &&& forall|o: int|
                        o < offset && #[trigger] aligned(clip, source, tolerance, min_match, o)
                            ==> mean_similarity(clip, source, o).is_at_most(score)
                    &&& forall|o: int|
                        o < at && #[trigger] aligned(clip, source, tolerance, min_match, o)
                            ==> mean_similarity(clip, source, o).is_less(score)
                },
            },
        decreases sn - cn + 1 - offset,
    {
        let (fraction, score) = align(clip_hashes, source_hashes, offset, tolerance);
        if min_match.test_at_most(fraction) && (Single { bits: 0 }).test_less(score) {
            let better: bool = match best {
                None => true,
                Some((_, so_far)) => so_far.test_less(score),
            };
            if better {
                best = Some((offset, score));
            }
        }
        offset = offset + 1;
    }
    match best {
        None => {
            assert forall|o: int| !is_best_alignment(clip, source, tolerance, min_match, o) by {
                assert(!aligned(clip, source, tolerance, min_match, o));
            }
            None
        },
        Some((at, score)) => {
            proof {
                assert(is_best_alignment(clip, source, tolerance, min_match, at as int));
                let chosen = choose|o: int|
                    is_best_alignment(clip, source, tolerance, min_match, o);
                lemma_best_alignment_unique(clip, source, tolerance, min_match, at as int, chosen);
            }
            Some((score, source_hashes[at].start_ms))
        },
    }
}

/// Looks for a clip in a source, of which it has to have at least a tenth.
fn find_clip(
    clip: &VideoSignature,
    source: &VideoSignature,
    clip_is: WhichFile,
    cfg: &CompareConfig,
) -> (result: Option<PairResult>)
    ensures
        result == clip_match(*clip, *source, clip_is, *cfg),
{
    let source_ms: u64 = if source.duration_ms >= 1 {
        source.duration_ms
    } else {
        1
    };
    let fraction = Double::count(clip.duration_ms).over(Double::count(source_ms));
    if (Double { bits: CLIP_FRACTION }).test_at_most(fraction) {
        match sliding_window_match(
            &clip.visual_hashes,
            &source.visual_hashes,
            cfg.tolerance,
            cfg.subclip_min_match,
        ) {
            Some((score, offset_ms)) => Some(
                PairResult {
                    visual_score: score,
                    kind: SimilarityKind::SubClip { offset_ms, clip_is },
                },
            ),
            None => None,
        }
    } else {
        None
    }
}

/// Compares two signatures by their visual hashes.
pub fn compare_pair_visual(a: &VideoSignature, b: &VideoSignature, cfg: &CompareConfig) -> (result:
    Option<PairResult>)
    ensures
        result == visual_match(*a, *b, *cfg),
{
    proof {
        reveal(visual_match);
    }
    let ha = &a.visual_hashes;
    let hb = &b.visual_hashes;
    if ha.len() == 0 || hb.len() == 0 {
        return None;
    }
    let apart = ha[ha.len() / 2].normalized_distance(&hb[hb.len() / 2]);
    if cfg.tolerance.times(Single { bits: MIDDLE_FACTOR }).test_less(apart) {
        return None;
    }
    if ha.len() == hb.len() {
        let (fraction, visual_score) = align(ha, hb, 0, cfg.tolerance);
        if cfg.min_matching_windows.test_at_most(fraction) {
            let kind = if (Single { bits: IDENTICAL_PICTURES }).test_at_most(visual_score) {
                SimilarityKind::Identical
            } else {
                SimilarityKind::SameContent
            };
            return Some(PairResult { visual_score, kind });
        }
    }
    let clip = if a.duration_ms <= b.duration_ms {
        find_clip(a, b, WhichFile::A, cfg)
    } else {
        find_clip(b, a, WhichFile::B, cfg)
    };
    if clip.is_some() {
        return clip;
    }
    let visual_score = Single { bits: ONE }.minus(apart);
    if (Single { bits: ONE }).minus(cfg.tolerance).test_at_most(visual_score) {
        return Some(PairResult { visual_score, kind: SimilarityKind::Similar });
    }
    None
}

/// What a comparison of two fingerprints says, given the segments in which they agree.
pub fn judge_segments(segments: &[(u64, Double)], cfg: &CompareConfig) -> (result: Option<
    PairResult,
>)
    ensures
        result == audio_verdict(
            audio::best_segment_score(
                segments@,
                cfg.audio_min_segment_duration,
                cfg.audio_max_difference,
            ),
            cfg.audio_max_difference,
        ),
{
    match best_score(segments, cfg.audio_min_segment_duration, cfg.audio_max_difference) {
        Some(best) => {
            let one = Double { bits: WIDE_ONE };
            let fraction = best.over(cfg.audio_max_difference).minimum(one);
            let visual_score = one.minus(fraction).narrow();
            if visual_score.test_at_most(Single { bits: 0 }) {
                return None;
            }
            let kind = if (Single { bits: IDENTICAL_SOUND }).test_at_most(visual_score) {
                SimilarityKind::Identical
            } else {
                SimilarityKind::SameContent
            };
            Some(PairResult { visual_score, kind })
        },
        None => None,
    }
}

/// Compares two signatures by their audio fingerprints alone.
pub fn compare_pair_audio(a: &VideoSignature, b: &VideoSignature, cfg: &CompareConfig) -> (result:
    Option<PairResult>)
    ensures
        result == audio_match(*a, *b, *cfg),
{
    proof {
        reveal(audio_match);
    }
    match (&a.audio_fingerprint, &b.audio_fingerprint) {
        (Some(fa), Some(fb)) => {
            if fa.len() == 0 || fb.len() == 0 {
                return None;
            }
            match segments_of(fa.as_slice(), fb.as_slice()) {
                Some(segments) => judge_segments(segments.as_slice(), cfg),
                None => None,
            }
        },
        _ => None,
    }
}

/// Compares two signatures. There is no result where they do not match.
pub fn compare_pair(a: &VideoSignature, b: &VideoSignature, cfg: &CompareConfig) -> (result: Option<
    PairResult,
>)
    ensures
        result == pair_match(*a, *b, *cfg),
{
    if cfg.use_audio {
        compare_pair_audio(a, b, cfg)
    } else {
        compare_pair_visual(a, b, cfg)
    }
}

} // verus!
