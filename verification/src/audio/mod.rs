//! Audio fingerprints: computing one from decoded samples, and comparing two.

pub mod fingerprint;

use crate::double::Double;
use crate::single::Single;
use vstd::prelude::*;

verus! {

/// Fingerprints of this many items or more are too long to be matched.
pub const MAX_FINGERPRINT_LEN: usize = 524_286;

/// The segments in which two fingerprints agree, in the order in which they are found. Of each
/// there is the number of fingerprint items that it spans, and its score: the mean number of
/// differing bits per item.
pub uninterp spec fn matching_segments(a: Seq<u32>, b: Seq<u32>) -> Seq<(u64, Double)>;

/// Whether two fingerprints are short enough to be matched.
pub open spec fn can_match(a: Seq<u32>, b: Seq<u32>) -> bool {
    a.len() < MAX_FINGERPRINT_LEN && b.len() < MAX_FINGERPRINT_LEN
}

/// `rusty_chromaprint::match_fingerprints`, with the configuration `preset_test1`: the segments
/// in which two fingerprints agree, each by its `items_count` and the bits of its `score`. It
/// fails exactly where one of the two fingerprints is too long.
#[verifier::external_body]
fn match_fingerprints(a: &[u32], b: &[u32]) -> (segments: Option<Vec<(u64, Double)>>)
    ensures
        segments is Some == can_match(a@, b@),
        segments matches Some(s) ==> s@ == matching_segments(a@, b@),
{
    let config = rusty_chromaprint::Configuration::preset_test1();
    let found = rusty_chromaprint::match_fingerprints(a, b, &config).ok()?;
    Some(
        found.iter().map(|s| (s.items_count as u64, Double { bits: s.score.to_bits() })).collect(),
    )
}

/// The seconds that a segment of so many items lasts. An item lasts for 1365 samples, of which
/// there are 11025 in a second.
pub open spec fn segment_duration(items: u64) -> Single {
    Single::counted(1365).divided(Single::counted(11025)).multiplied(Single::counted(items as nat))
}

/// Whether a segment counts: it lasts longer than `min_duration` seconds, and its score is below
/// `max_difference`.
pub open spec fn segment_counts(
    segment: (u64, Double),
    min_duration: Single,
    max_difference: Double,
) -> bool {
    &&& min_duration.is_less(segment_duration(segment.0))
    &&& segment.1.is_less(max_difference)
}

/// The smallest score among the segments that count.
pub open spec fn best_segment_score(
    segments: Seq<(u64, Double)>,
    min_duration: Single,
    max_difference: Double,
) -> Option<Double>
    decreases segments.len(),
{
    if segments.len() == 0 {
        None
    } else {
        let last = segments.last();
        match best_segment_score(segments.drop_last(), min_duration, max_difference) {
            Some(best) => if segment_counts(last, min_duration, max_difference) && last.1.is_less(
                best,
            ) {
                Some(last.1)
            } else {
                Some(best)
            },
            None => if segment_counts(last, min_duration, max_difference) {
                Some(last.1)
            } else {
                None
            },
        }
    }
}

/// The smallest score among the segments that count, if any does.
pub fn best_score(
    segments: &[(u64, Double)],
    min_duration: Single,
    max_difference: Double,
) -> (best: Option<Double>)
    ensures
        best == best_segment_score(segments@, min_duration, max_difference),
{
    let item = Single::count(1365).over(Single::count(11025));
    let mut best: Option<Double> = None;
    let mut i: usize = 0;
    assert(segments@.take(0) =~= Seq::<(u64, Double)>::empty());
    while i < segments.len()
        invariant
            i <= segments@.len(),
            item == Single::counted(1365).divided(Single::counted(11025)),
            best == best_segment_score(segments@.take(i as int), min_duration, max_difference),
        decreases segments@.len() - i,
    {
        let (items, score) = segments[i];
        let long: bool = min_duration.test_less(item.times(Single::count(items)));
        let close: bool = score.test_less(max_difference);
        proof {
            assert(segments@.take(i + 1).drop_last() =~= segments@.take(i as int));
            assert(segments@.take(i + 1).last() == segments@[i as int]);
        }
        if long && close {
            match best {
                Some(b) => {
                    if score.test_less(b) {
                        best = Some(score);
                    }
                },
                None => {
                    best = Some(score);
                },
            }
        }
        i = i + 1;
    }
    assert(segments@.take(i as int) =~= segments@);
    best
}

/// The segments in which two fingerprints agree, or nothing where one of them is too long.
pub fn segments_of(a: &[u32], b: &[u32]) -> (segments: Option<Vec<(u64, Double)>>)
    ensures
        segments is Some == can_match(a@, b@),
        segments matches Some(s) ==> s@ == matching_segments(a@, b@),
{
    match_fingerprints(a, b)
}

/// The best score is the score of a segment that counts, and no segment that counts has a
/// smaller one; there is none exactly where no segment counts.
pub proof fn law_best_score_is_least(
    segments: Seq<(u64, Double)>,
    min_duration: Single,
    max_difference: Double,
)
    ensures
        match best_segment_score(segments, min_duration, max_difference) {
            Some(best) => {
                &&& exists|i: int|
                    0 <= i < segments.len() && #[trigger] segment_counts(
                        segments[i],
                        min_duration,
                        max_difference,
                    ) && segments[i].1 == best
                &&& forall|i: int|
                    0 <= i < segments.len() && #[trigger] segment_counts(
                        segments[i],
                        min_duration,
                        max_difference,
                    ) ==> best.is_at_most(segments[i].1)
            },
            None => forall|i: int|
                0 <= i < segments.len() ==> !#[trigger] segment_counts(
                    segments[i],
                    min_duration,
                    max_difference,
                ),
        },
    decreases segments.len(),
{
    if segments.len() > 0 {
        let front = segments.drop_last();
        let n = segments.len() - 1;
        law_best_score_is_least(front, min_duration, max_difference);
        assert forall|i: int| 0 <= i < n implies segments[i] == front[i] by {}
        match best_segment_score(front, min_duration, max_difference) {
            Some(best) => {
                let w = choose|i: int|
                    0 <= i < front.len() && #[trigger] segment_counts(
                        front[i],
                        min_duration,
                        max_difference,
                    ) && front[i].1 == best;
                assert(segment_counts(segments[w], min_duration, max_difference));
                assert forall|i: int|
                    0 <= i < n && #[trigger] segment_counts(
                        segments[i],
                        min_duration,
                        max_difference,
                    ) implies best.is_at_most(segments[i].1) by {
                    assert(segment_counts(front[i], min_duration, max_difference));
                }
            },
            None => {
                assert forall|i: int|
                    0 <= i < n implies !#[trigger] segment_counts(
                    segments[i],
                    min_duration,
                    max_difference,
                ) by {
                    assert(!segment_counts(front[i], min_duration, max_difference));
                }
            },
        }
        if segment_counts(segments[n], min_duration, max_difference) {
            assert(segments[n] == segments.last());
        }
    }
}

} // verus!
