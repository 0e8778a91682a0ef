use similario::compare::{SimilarGroup, SimilarityKind, WhichFile};
use similario::decimal::read_double;
use similario::double::Double;
use similario::lists::reversed;
use similario::number::read_unsigned;
use similario::scan::{
    after_collecting, after_computing, check_cache, cli_compare_config, cli_signature_config, entry_action,
    gather, is_video_extension, outcome_of, skipped, text_report, unique_paths, CliVerdict, EntryAction,
    ScanOutcome,
};
use similario::single::Single;
use similario::text::{contains_ignoring_case, equal, equal_ignoring_case};
use similario::visual::extract::FrameExtractError;
use similario::visual::{SignatureError, VideoSignature};
use std::path::PathBuf;

fn double(value: f64) -> Double {
    Double { bits: value.to_bits() }
}

fn single(value: f32) -> Single {
    Single { bits: value.to_bits() }
}

fn sig(path: &str) -> VideoSignature {
    VideoSignature {
        path: PathBuf::from(path),
        duration_ms: 1000,
        aspect_ratio: single(1.0),
        visual_hashes: vec![],
        audio_fingerprint: None,
        metadata: None,
    }
}

#[test]
fn videos_are_known_by_their_extension() {
    for ext in [
        "mp4", "mkv", "avi", "mov", "wmv", "flv", "webm", "m4v", "mpg", "mpeg", "ts", "mts", "m2ts", "vob", "3gp",
        "ogv", "rm", "rmvb", "divx",
    ] {
        assert!(is_video_extension(ext));
        assert!(is_video_extension(&ext.to_uppercase()));
    }
    for ext in ["", "mp3", "mp", "mp44", "txt", "t s", "ｍp4"] {
        assert!(!is_video_extension(ext));
    }
}

#[test]
fn entries_are_taken_or_skipped() {
    assert_eq!(entry_action(true, false, Some("mp4")), EntryAction::Descend);
    assert_eq!(entry_action(false, true, Some("MP4")), EntryAction::Take);
    assert_eq!(entry_action(false, true, Some("txt")), EntryAction::Skip);
    assert_eq!(entry_action(false, true, None), EntryAction::Skip);
    assert_eq!(entry_action(false, false, Some("mp4")), EntryAction::Skip);
}

#[test]
fn paths_are_sorted_and_counted_once() {
    let unique = |list: &[&str]| {
        let found = list.iter().map(PathBuf::from).collect();
        unique_paths(found).iter().map(|p| p.to_str().unwrap().to_string()).collect::<Vec<String>>()
    };
    assert!(unique(&[]).is_empty());
    assert_eq!(unique(&["/b", "/a", "/b", "/a", "/a"]), ["/a", "/b"]);
    // Paths are compared by their components, not by their characters.
    assert_eq!(unique(&["/a-b", "/a/c", "/a/b"]), ["/a/b", "/a/c", "/a-b"]);
    assert_eq!(unique(&["/v//x", "/a", "/v/x", "/v/./x"]), ["/a", "/v//x"]);
    let mut names: Vec<String> = (0..200).map(|i| format!("/d{}/f{}", i % 7, i % 23)).collect();
    let found: Vec<PathBuf> = names.iter().map(PathBuf::from).collect();
    let mut expected = found.clone();
    expected.sort();
    expected.dedup();
    assert_eq!(unique_paths(found), expected);
    names.reverse();
    assert_eq!(unique_paths(names.iter().map(PathBuf::from).collect()), expected);
}

#[test]
fn cached_files_are_separated() {
    let files: Vec<PathBuf> = ["/a", "/b", "/c", "/d"].iter().map(PathBuf::from).collect();
    let result = check_cache(&files, vec![None, Some(sig("/b")), None, Some(sig("/d"))]);
    let cached: Vec<PathBuf> = result.cached.iter().map(|s| s.path.clone()).collect();
    assert_eq!(cached, vec![PathBuf::from("/b"), PathBuf::from("/d")]);
    assert_eq!(result.uncached, vec![PathBuf::from("/a"), PathBuf::from("/c")]);
    // Paths keep their spelling.
    let odd = check_cache(&vec![PathBuf::from("/v//./x")], vec![None]);
    assert_eq!(odd.uncached[0].to_str(), Some("/v//./x"));
}

#[test]
fn outcomes_are_gathered() {
    let error = SignatureError::FrameExtract(FrameExtractError::Stopped);
    let outcomes = vec![
        outcome_of(PathBuf::from("/a"), Ok(sig("/a"))),
        outcome_of(PathBuf::from("/b"), Err(error)),
        ScanOutcome::Cached(sig("/c")),
        skipped(PathBuf::from("/d")),
    ];
    let (signatures, errors) = gather(vec![sig("/z")], outcomes);
    let found: Vec<PathBuf> = signatures.iter().map(|s| s.path.clone()).collect();
    assert_eq!(found, vec![PathBuf::from("/z"), PathBuf::from("/a"), PathBuf::from("/c")]);
    assert_eq!(
        errors,
        vec![
            (PathBuf::from("/b"), "Frame extraction error: Extraction stopped".to_string()),
            (PathBuf::from("/d"), "interrupted".to_string()),
        ]
    );
}

#[test]
fn scans_go_on_or_end() {
    assert_eq!(after_collecting(0), CliVerdict::NoFiles);
    assert_eq!(after_collecting(1), CliVerdict::Proceed);
    assert_eq!(after_computing(true, 5), CliVerdict::Interrupted);
    assert_eq!(after_computing(false, 1), CliVerdict::TooFew);
    assert_eq!(after_computing(false, 2), CliVerdict::Proceed);
}

#[test]
fn the_command_line_has_its_settings() {
    let config = cli_signature_config(double(1.5), 7, true);
    assert_eq!(config.skip_secs, double(1.5));
    assert_eq!(config.window_count, 7);
    assert_eq!(config.window_secs, double(6.0));
    assert!(!config.cropdetect);
    assert!(!config.audio_fingerprint);
    assert_eq!(config.ffmpeg_timeout.max_secs, double(360.0));
    let compare = cli_compare_config(single(0.25));
    assert_eq!(compare.tolerance, single(0.25));
    assert_eq!(compare.duration_tolerance_pct, double(20.0));
    assert_eq!(compare.min_matching_windows, single(0.6));
    assert_eq!(compare.subclip_min_match, single(0.5));
    assert_eq!(compare.audio_max_difference, double(3.0));
    assert_eq!(compare.audio_min_segment_duration, single(5.0));
}

#[test]
fn groups_are_reported() {
    let group = |kind, files: &[&str]| SimilarGroup { kind, files: files.iter().map(PathBuf::from).collect() };
    let groups = [
        group(SimilarityKind::Identical, &["/a.mp4", "/b.mp4"]),
        group(SimilarityKind::SameContent, &["/c.mp4"]),
        group(SimilarityKind::SubClip { offset_ms: 3, clip_is: WhichFile::A }, &[]),
        group(SimilarityKind::Similar, &["d e.mp4"]),
    ];
    assert_eq!(
        text_report(&groups),
        "--- Group 1 [IDENTICAL] ---\n  /a.mp4\n  /b.mp4\n--- Group 2 [SAME CONTENT] ---\n  /c.mp4\n\
         --- Group 3 [SUB-CLIP] ---\n--- Group 4 [SIMILAR] ---\n  d e.mp4\n"
    );
    assert_eq!(text_report(&[]), "");
}

#[test]
fn texts_are_compared() {
    assert!(equal("bin", "bin"));
    assert!(!equal("bin", "Bin"));
    assert!(!equal("bin", "bi"));
    assert!(equal_ignoring_case("MkV", "mKv"));
    assert!(!equal_ignoring_case("ä", "Ä"));
    assert!(contains_ignoring_case("libX265-main", "x265"));
    assert!(contains_ignoring_case("abc", ""));
    assert!(!contains_ignoring_case("ab", "abc"));
}

#[test]
fn numbers_are_read() {
    let read = |text: &str| read_double(&text.chars().collect::<Vec<char>>());
    for text in [
        "0", "12.5", "-.5", "+1.e1", "2.5E-1", "", ".", "1e", "1 ", "e5", "1e+", "--1", "0x1", "1_0", "inf",
        "-INFinity", "infinit", "+nan", "NaN", "-0", "1e-320", "4.9e-324", "2.4e-324", "2.5e-324", "1.8e308",
        "179769313486231570000000000000000000000000000000000000e255", "9007199254740993", "9007199254740995",
        "0.1", "123456789012345678901234567890", "2.2250738585072011e-308", "1e23", "8.5e-17",
    ] {
        let expected = text.parse::<f64>().ok();
        match (read(text), expected) {
            (Some(d), Some(e)) => {
                assert!(d.bits == e.to_bits() || (f64::from_bits(d.bits).is_nan() && e.is_nan()), "{text}");
            }
            (found, expected) => assert_eq!(found.is_some(), expected.is_some(), "{text}"),
        }
    }
    let mut state: u64 = 5;
    for _ in 0..2_000 {
        state = state.wrapping_mul(6_364_136_223_846_793_005).wrapping_add(1_442_695_040_888_963_407);
        let text = format!("{}.{}e{}", state >> 30, state & 0xffff_ffff, (state >> 20) as i32 % 330);
        assert_eq!(read(&text), Some(double(text.parse().unwrap())), "{text}");
    }
    let unsigned = |text: &str| read_unsigned(&text.chars().collect::<Vec<char>>());
    assert_eq!(unsigned("18446744073709551615"), Some(u64::MAX));
    assert_eq!(unsigned("18446744073709551616"), None);
    assert_eq!(unsigned("+7"), Some(7));
    assert_eq!(unsigned("-7"), None);
    assert_eq!(unsigned(""), None);
}

#[test]
fn lists_are_turned_round() {
    assert_eq!(reversed(vec![1, 2, 3]), vec![3, 2, 1]);
    assert_eq!(reversed(Vec::<u8>::new()), Vec::<u8>::new());
}
