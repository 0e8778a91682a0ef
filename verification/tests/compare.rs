use similario::compare::buckets;
use similario::compare::pair::{self, compare_pair_audio, compare_pair_visual, judge_segments, sliding_window_match};
use similario::compare::{
    build_duration_buckets, compare_pair, find_similar, CompareConfig, SimilarityKind, WhichFile,
};
use similario::double::Double;
use similario::single::Single;
use similario::visual::hash::HashBits;
use similario::visual::{TemporalHash, VideoSignature, HASH_BITS};
use std::path::PathBuf;

fn double(value: f64) -> Double {
    Double { bits: value.to_bits() }
}

fn single(value: f32) -> Single {
    Single { bits: value.to_bits() }
}

fn value(number: Single) -> f32 {
    f32::from_bits(number.bits)
}

fn make_hash(val: bool) -> TemporalHash {
    let mut bits = HashBits::zero();
    if val {
        // Only set the 1000 used bits, not all 1024.
        for i in 0..HASH_BITS {
            bits.set(i, true);
        }
    }
    TemporalHash { start_ms: 0, end_ms: 6000, bits }
}

fn make_sig(path: &str, duration_ms: u64, hash_val: bool) -> VideoSignature {
    VideoSignature {
        path: PathBuf::from(path),
        duration_ms,
        aspect_ratio: single(1.777),
        visual_hashes: vec![
            make_hash(hash_val),
            make_hash(hash_val),
            make_hash(hash_val),
            make_hash(hash_val),
            make_hash(hash_val),
        ],
        audio_fingerprint: None,
        metadata: None,
    }
}

/// A window in which the first `n` bits of a pattern are flipped. The patterns of different
/// numbers differ in about half of their bits.
fn pattern(number: u64, flipped: usize, start_ms: u64) -> TemporalHash {
    let mut bits = HashBits::zero();
    let mut state = number.wrapping_mul(0x9E37_79B9_7F4A_7C15).wrapping_add(1);
    for i in 0..HASH_BITS {
        state = state.wrapping_mul(6_364_136_223_846_793_005).wrapping_add(1_442_695_040_888_963_407);
        let bit = (state >> 40) & 1 == 1;
        bits.set(i, bit != (i < flipped));
    }
    TemporalHash { start_ms, end_ms: start_ms + 6000, bits }
}

fn sig_of(path: &str, duration_ms: u64, visual_hashes: Vec<TemporalHash>) -> VideoSignature {
    VideoSignature {
        path: PathBuf::from(path),
        duration_ms,
        aspect_ratio: single(1.777_777_8),
        visual_hashes,
        audio_fingerprint: None,
        metadata: None,
    }
}

fn audio_sig(path: &str, fingerprint: Option<Vec<u32>>) -> VideoSignature {
    VideoSignature {
        path: PathBuf::from(path),
        duration_ms: 60_000,
        aspect_ratio: single(1.777_777_8),
        visual_hashes: vec![],
        audio_fingerprint: fingerprint,
        metadata: None,
    }
}

fn items(n: u32) -> Vec<u32> {
    (0..n).map(|i| i.wrapping_mul(2_654_435_761) ^ (i << 7)).collect()
}

#[test]
fn identical_hashes_found() {
    let sigs = vec![
        make_sig("/a.mp4", 60_000, false),
        make_sig("/b.mp4", 60_000, false),
        make_sig("/c.mp4", 60_000, false),
    ];
    let cfg = CompareConfig::default();
    let groups = find_similar(&sigs, &cfg);
    assert_eq!(groups.len(), 1);
    assert_eq!(groups[0].files.len(), 3);
}

#[test]
fn different_duration_not_grouped() {
    let sigs = vec![
        make_sig("/a.mp4", 60_000, false),
        make_sig("/b.mp4", 3_600_000, false), // 1 hour - outside ±20%
    ];
    let cfg = CompareConfig::default();
    let groups = find_similar(&sigs, &cfg);
    assert!(groups.is_empty(), "different durations should not match");
}

#[test]
fn hamming_distance_zero_for_same() {
    let h = make_hash(false);
    assert_eq!(h.hamming_distance(&h), 0);
}

#[test]
fn hamming_distance_max_for_inverse() {
    let h0 = make_hash(false);
    let h1 = make_hash(true);
    assert_eq!(h0.hamming_distance(&h1), 1000);
    assert!((value(h0.normalized_distance(&h1)) - 1.0).abs() < 0.001);
}

#[test]
fn duration_buckets_groups_by_tolerance() {
    let sigs = vec![
        make_sig("/a.mp4", 60_000, false),
        make_sig("/b.mp4", 65_000, false),  // +8% - within ±20%
        make_sig("/c.mp4", 600_000, false), // 10× longer - separate bucket
    ];
    let buckets = build_duration_buckets(&sigs, double(20.0));
    assert_eq!(buckets.len(), 2);
}

#[test]
fn buckets_hold_every_signature_once() {
    let durations: [u64; 6] = [500_000, 60_000, 72_000, 72_001, 0, 61_000];
    let sigs: Vec<VideoSignature> = durations.iter().map(|d| make_sig("/x.mp4", *d, false)).collect();
    let buckets = build_duration_buckets(&sigs, double(20.0));
    assert_eq!(buckets, vec![vec![4], vec![1, 5, 2], vec![3], vec![0]]);
}

#[test]
fn equal_durations_keep_their_order() {
    let sigs: Vec<VideoSignature> = (0..4).map(|_| make_sig("/x.mp4", 7_000, false)).collect();
    assert_eq!(build_duration_buckets(&sigs, double(0.0)), vec![vec![0, 1, 2, 3]]);
}

#[test]
fn no_signatures_make_no_buckets() {
    assert!(build_duration_buckets(&[], double(20.0)).is_empty());
}

/// The mean similarity of windows that differ in these numbers of bits.
fn mean(distances: &[u32]) -> Single {
    let sum: f32 = distances.iter().map(|d| 1.0 - *d as f32 / HASH_BITS as f32).sum();
    single(sum / distances.len() as f32)
}

#[test]
fn thresholds_have_their_bits() {
    let cfg = CompareConfig::default();
    assert_eq!(cfg.tolerance, single(0.30));
    assert_eq!(cfg.duration_tolerance_pct, double(20.0));
    assert_eq!(cfg.min_matching_windows, single(0.6));
    assert_eq!(cfg.subclip_min_match, single(0.5));
    assert!(!cfg.use_audio);
    assert_eq!(cfg.audio_max_difference, double(3.0));
    assert_eq!(cfg.audio_min_segment_duration, single(5.0));
    assert_eq!(pair::ONE, 1.0_f32.to_bits());
    assert_eq!(pair::MIDDLE_FACTOR, 1.5_f32.to_bits());
    assert_eq!(pair::IDENTICAL_PICTURES, 0.97_f32.to_bits());
    assert_eq!(pair::IDENTICAL_SOUND, 0.95_f32.to_bits());
    assert_eq!(pair::CLIP_FRACTION, 0.10_f64.to_bits());
    assert_eq!(pair::WIDE_ONE, 1.0_f64.to_bits());
    assert_eq!(buckets::ONE, 1.0_f64.to_bits());
    assert_eq!(buckets::HUNDRED, 100.0_f64.to_bits());
}

#[test]
fn copies_are_identical_with_the_full_score() {
    let a = sig_of("/a.mp4", 60_000, (0..5).map(|i| pattern(i, 0, i * 10_000)).collect());
    let b = sig_of("/b.mp4", 61_000, (0..5).map(|i| pattern(i, 0, i * 10_000)).collect());
    let found = compare_pair(&a, &b, &CompareConfig::default()).unwrap();
    assert_eq!(found.kind, SimilarityKind::Identical);
    assert_eq!(found.visual_score, single(1.0));
}

#[test]
fn same_content_below_ninety_seven_per_cent() {
    let a = sig_of("/a.mp4", 60_000, (0..5).map(|i| pattern(i, 0, 0)).collect());
    let at_limit = sig_of("/b.mp4", 60_000, (0..5).map(|i| pattern(i, 30, 0)).collect());
    let below = sig_of("/c.mp4", 60_000, (0..5).map(|i| pattern(i, 31, 0)).collect());
    let cfg = CompareConfig::default();
    let found = compare_pair(&a, &at_limit, &cfg).unwrap();
    assert_eq!(found.kind, SimilarityKind::Identical);
    assert_eq!(found.visual_score, mean(&[30; 5]));
    let found = compare_pair(&a, &below, &cfg).unwrap();
    assert_eq!(found.kind, SimilarityKind::SameContent);
    assert_eq!(found.visual_score, mean(&[31; 5]));
}

#[test]
fn scores_are_summed_in_single_precision() {
    let distances: [usize; 5] = [3, 17, 101, 29, 7];
    let a = sig_of("/a.mp4", 60_000, (0..5).map(|i| pattern(i, 0, 0)).collect());
    let b = sig_of("/b.mp4", 60_000, (0..5).map(|i| pattern(i, distances[i as usize], 0)).collect());
    let found = compare_pair(&a, &b, &CompareConfig::default()).unwrap();
    assert_eq!(found.visual_score, mean(&[3, 17, 101, 29, 7]));
}

#[test]
fn three_of_five_windows_are_enough() {
    let mut hashes: Vec<TemporalHash> = (0..5).map(|i| pattern(i, 0, 0)).collect();
    let a = sig_of("/a.mp4", 60_000, hashes.clone());
    hashes[0] = pattern(100, 0, 0);
    hashes[4] = pattern(104, 0, 0);
    let b = sig_of("/b.mp4", 60_000, hashes.clone());
    let cfg = CompareConfig::default();
    let found = compare_pair(&a, &b, &cfg).unwrap();
    assert_eq!(found.kind, SimilarityKind::SameContent);
    // With two of five there is no longer the same content, but still a clip of it.
    hashes[1] = pattern(101, 0, 0);
    let c = sig_of("/c.mp4", 60_000, hashes.clone());
    let found = compare_pair(&a, &c, &cfg);
    assert_eq!(found.unwrap().kind, SimilarityKind::Similar);
}

#[test]
fn windows_match_at_the_tolerance() {
    let cfg = CompareConfig::default();
    let a = sig_of("/a.mp4", 60_000, vec![pattern(1, 0, 0)]);
    let at = sig_of("/b.mp4", 60_000, vec![pattern(1, 300, 0)]);
    let beyond = sig_of("/c.mp4", 60_000, vec![pattern(1, 301, 0)]);
    assert!(compare_pair(&a, &at, &cfg).is_some());
    assert!(compare_pair(&a, &beyond, &cfg).is_none());
}

#[test]
fn the_middle_window_filters() {
    let cfg = CompareConfig::default();
    let a = sig_of("/a.mp4", 60_000, (0..5).map(|i| pattern(i, 0, 0)).collect());
    let mut hashes: Vec<TemporalHash> = (0..5).map(|i| pattern(i, 0, 0)).collect();
    hashes[2] = pattern(2, 450, 0);
    let at = sig_of("/b.mp4", 60_000, hashes.clone());
    assert!(compare_pair_visual(&a, &at, &cfg).is_some());
    hashes[2] = pattern(2, 451, 0);
    let beyond = sig_of("/c.mp4", 60_000, hashes);
    assert!(compare_pair_visual(&a, &beyond, &cfg).is_none());
}

#[test]
fn no_windows_match_nothing() {
    let cfg = CompareConfig::default();
    let none = sig_of("/a.mp4", 60_000, vec![]);
    let some = sig_of("/b.mp4", 60_000, vec![pattern(1, 0, 0)]);
    assert!(compare_pair(&none, &some, &cfg).is_none());
    assert!(compare_pair(&some, &none, &cfg).is_none());
}

#[test]
fn a_clip_is_found_in_its_source() {
    let cfg = CompareConfig::default();
    let source = sig_of("/source.mp4", 60_000, (0..5).map(|i| pattern(i, 0, i * 10_000)).collect());
    let clip = sig_of("/clip.mp4", 20_000, (1..4).map(|i| pattern(i, 0, (i - 1) * 5_000)).collect());
    let found = compare_pair(&clip, &source, &cfg).unwrap();
    assert_eq!(found.kind, SimilarityKind::SubClip { offset_ms: 10_000, clip_is: WhichFile::A });
    assert_eq!(found.visual_score, single(1.0));
    // The other way round the clip is the other file.
    let found = compare_pair(&source, &clip, &cfg).unwrap();
    assert_eq!(found.kind, SimilarityKind::SubClip { offset_ms: 10_000, clip_is: WhichFile::B });
    assert_eq!(found.visual_score, single(1.0));
}

#[test]
fn a_clip_is_at_least_a_tenth_of_its_source() {
    let cfg = CompareConfig::default();
    let source = sig_of("/source.mp4", 60_000, (0..5).map(|i| pattern(i, 0, i * 10_000)).collect());
    let hashes: Vec<TemporalHash> = (1..4).map(|i| pattern(i, 0, 0)).collect();
    let clip = sig_of("/clip.mp4", 6_000, hashes.clone());
    assert!(matches!(
        compare_pair(&clip, &source, &cfg).unwrap().kind,
        SimilarityKind::SubClip { .. }
    ));
    let short = sig_of("/short.mp4", 5_999, hashes);
    assert_eq!(compare_pair(&short, &source, &cfg).unwrap().kind, SimilarityKind::Similar);
}

#[test]
fn sliding_takes_the_first_best_place() {
    let clip = vec![pattern(7, 0, 0)];
    let source = vec![
        pattern(3, 0, 0),
        pattern(7, 10, 1_000),
        pattern(7, 0, 2_000),
        pattern(7, 0, 3_000),
    ];
    let found = sliding_window_match(&clip, &source, single(0.3), single(0.5));
    assert_eq!(found, Some((single(1.0), 2_000)));
    assert_eq!(sliding_window_match(&vec![], &source, single(0.3), single(0.5)), None);
    assert_eq!(sliding_window_match(&source, &clip, single(0.3), single(0.5)), None);
    assert_eq!(sliding_window_match(&vec![pattern(9, 0, 0)], &source, single(0.3), single(0.5)), None);
}

#[test]
fn a_chain_of_likenesses_is_no_group() {
    // The second file is like the first, and the third like the second but not like the first.
    let first: Vec<TemporalHash> = (0..5).map(|i| pattern(i, 0, 0)).collect();
    let second: Vec<TemporalHash> = (0..5).map(|i| pattern(i, 250, 0)).collect();
    let third: Vec<TemporalHash> = (0..5).map(|i| pattern(i, 500, 0)).collect();
    let sigs = vec![
        sig_of("/1.mp4", 60_000, first),
        sig_of("/2.mp4", 60_000, second),
        sig_of("/3.mp4", 60_000, third),
    ];
    let groups = find_similar(&sigs, &CompareConfig::default());
    assert_eq!(groups.len(), 1);
    assert_eq!(groups[0].files, vec![PathBuf::from("/1.mp4"), PathBuf::from("/2.mp4")]);
    assert_eq!(groups[0].kind, SimilarityKind::SameContent);
}

#[test]
fn representatives_match_their_members() {
    // The last file is the shortest, so that it represents the others.
    let cfg = CompareConfig::default();
    let mut sigs = Vec::new();
    for i in 0..4u64 {
        let windows = (0..5).map(|k| pattern(k, 60 * i as usize, 0)).collect();
        sigs.push(sig_of(&format!("/{i}.mp4"), 60_000 - i, windows));
    }
    let groups = find_similar(&sigs, &cfg);
    assert_eq!(groups.len(), 1);
    assert_eq!(
        groups[0].files,
        vec![
            PathBuf::from("/3.mp4"),
            PathBuf::from("/2.mp4"),
            PathBuf::from("/1.mp4"),
            PathBuf::from("/0.mp4")
        ]
    );
    for member in 0..3 {
        assert!(compare_pair(&sigs[3], &sigs[member], &cfg).is_some());
    }
}

#[test]
fn groups_are_disjoint_and_in_buckets() {
    let mut sigs = Vec::new();
    for i in 0..3u64 {
        sigs.push(sig_of(&format!("/x{i}.mp4"), 60_000, (0..5).map(|k| pattern(k, 0, 0)).collect()));
        sigs.push(sig_of(&format!("/y{i}.mp4"), 61_000, (50..55).map(|k| pattern(k, 0, 0)).collect()));
    }
    let groups = find_similar(&sigs, &CompareConfig::default());
    assert_eq!(groups.len(), 2);
    let mut files: Vec<PathBuf> = groups.iter().flat_map(|g| g.files.clone()).collect();
    files.sort();
    files.dedup();
    assert_eq!(files.len(), 6);
    for group in &groups {
        assert_eq!(group.files.len(), 3);
        assert_eq!(group.kind, SimilarityKind::Identical);
    }
}

#[test]
fn segments_decide_by_length_and_score() {
    let cfg = CompareConfig { use_audio: true, ..CompareConfig::default() };
    // Forty items last for less than five seconds, forty-one for more.
    assert!(judge_segments(&[(40, double(0.0))], &cfg).is_none());
    let found = judge_segments(&[(41, double(0.0))], &cfg).unwrap();
    assert_eq!(found.kind, SimilarityKind::Identical);
    assert_eq!(found.visual_score, single(1.0));
    // A score of three or more does not count.
    assert!(judge_segments(&[(100, double(3.0))], &cfg).is_none());
    // The best of several counts, and 95 % are identical.
    let segments = [(100, double(2.0)), (50, double(0.15)), (30, double(1e-9))];
    let found = judge_segments(&segments, &cfg).unwrap();
    assert_eq!(found.kind, SimilarityKind::Identical);
    assert_eq!(found.visual_score, single((1.0 - 0.15_f64 / 3.0) as f32));
    let found = judge_segments(&[(50, double(0.151))], &cfg).unwrap();
    assert_eq!(found.kind, SimilarityKind::SameContent);
    assert!(judge_segments(&[], &cfg).is_none());
}

#[test]
fn a_score_just_below_the_limit_counts() {
    let cfg = CompareConfig { use_audio: true, ..CompareConfig::default() };
    // The number before three leaves a score that single precision still holds.
    let below = f64::from_bits(3.0_f64.to_bits() - 1);
    let found = judge_segments(&[(50, double(below))], &cfg).unwrap();
    assert_eq!(found.visual_score, single((1.0 - below / 3.0) as f32));
    assert!(value(found.visual_score) > 0.0);
    // Scores that are less than a billionth apart are told apart.
    let close = judge_segments(&[(50, double(1.0)), (50, double(1.0 - 1e-12))], &cfg).unwrap();
    assert_eq!(close.visual_score, single((1.0 - (1.0 - 1e-12) / 3.0) as f32));
}

#[test]
fn segments_have_the_scores_of_the_matcher() {
    let cfg = CompareConfig { use_audio: true, ..CompareConfig::default() };
    let a = items(300);
    let mut b = items(300);
    for i in 0..b.len() {
        if i % 7 == 0 {
            b[i] ^= 0x11;
        }
    }
    let config = rusty_chromaprint::Configuration::preset_test1();
    let found = rusty_chromaprint::match_fingerprints(&a, &b, &config).unwrap();
    let best = found
        .iter()
        .filter(|s| s.duration(&config) > 5.0 && s.score < 3.0)
        .map(|s| s.score)
        .fold(f64::MAX, f64::min);
    let result = compare_pair(&audio_sig("/a.mp4", Some(a)), &audio_sig("/b.mp4", Some(b)), &cfg);
    assert_eq!(result.unwrap().visual_score, single((1.0 - (best / 3.0).min(1.0)) as f32));
    assert!(best > 0.0 && best < 3.0);
}

#[test]
fn equal_fingerprints_match() {
    let cfg = CompareConfig { use_audio: true, ..CompareConfig::default() };
    let a = audio_sig("/a.mp4", Some(items(200)));
    let b = audio_sig("/b.mp4", Some(items(200)));
    let found = compare_pair(&a, &b, &cfg).unwrap();
    assert_eq!(found.kind, SimilarityKind::Identical);
    let short = audio_sig("/c.mp4", Some(items(20)));
    assert!(compare_pair_audio(&a, &short, &cfg).is_none());
}

#[test]
fn missing_fingerprints_do_not_match() {
    let cfg = CompareConfig { use_audio: true, ..CompareConfig::default() };
    let some = audio_sig("/a.mp4", Some(items(200)));
    let none = audio_sig("/b.mp4", None);
    let empty = audio_sig("/c.mp4", Some(vec![]));
    assert!(compare_pair(&some, &none, &cfg).is_none());
    assert!(compare_pair(&none, &some, &cfg).is_none());
    assert!(compare_pair(&some, &empty, &cfg).is_none());
    assert!(compare_pair(&empty, &empty, &cfg).is_none());
}

#[test]
fn fingerprints_that_are_too_long_do_not_match() {
    let cfg = CompareConfig { use_audio: true, ..CompareConfig::default() };
    let long = audio_sig("/a.mp4", Some(vec![0; 524_286]));
    let short = audio_sig("/b.mp4", Some(items(100)));
    assert!(compare_pair(&long, &short, &cfg).is_none());
}
