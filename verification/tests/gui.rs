use similario::compare::{SimilarityKind, WhichFile};
use similario::double::Double;
use similario::gui::format::{format_bitrate, format_date, format_duration, format_size};
use similario::gui::rows::{
    codec_rank, groups_to_plain_rows, quality_score, quality_tiers, signature_of, FileFacts, GroupFacts,
    GroupKind, PlainRow, QualityTier,
};
use similario::gui::selection::{
    check_toggled, checked_count, collect_checked_paths, delete_question, plain_to_file_row,
    remove_checked_rows, row_double_clicked, select_all, trash_question, FileRow,
};
use similario::gui::session::{
    checked_status, collected_status, collecting_status, comparing_status, found_status, processing_status,
    ScanFlags, ScanVerdict,
};
use similario::gui::rows::QualityTier::{Best, Unknown, Worse};
use similario::gui::settings::{settings_path, GuiSettings};
use similario::gui::thumbnails::{placeholder_thumbnail, thumbnail_jobs};
use similario::metadata::VideoMetadata;
use similario::single::Single;
use similario::thumbnail::{decode_thumbnail, scale_filter, settle_thumbnail, spawn_failed, Thumbnail};
use similario::visual::VideoSignature;
use std::path::PathBuf;

fn double(value: f64) -> Double {
    Double { bits: value.to_bits() }
}

fn single(value: f32) -> Single {
    Single { bits: value.to_bits() }
}

fn metadata(width: u32, height: u32, codec: &str, bitrate: u64) -> VideoMetadata {
    VideoMetadata {
        duration_secs: double(3_725.9),
        fps: Some(double(30_000.0 / 1001.0)),
        codec: Some(codec.to_string()),
        bitrate_bps: Some(bitrate),
        width: Some(width),
        height: Some(height),
    }
}

fn file(name: &str, metadata: Option<VideoMetadata>) -> FileFacts {
    FileFacts {
        name: name.to_string(),
        path: format!("/videos/{name}"),
        size: Some(1536),
        mod_date: "2024-01-02 03:04:05".to_string(),
        metadata,
    }
}

fn row(is_header: bool, quality_tier: QualityTier, path: &str, checked: bool) -> FileRow {
    FileRow {
        is_header,
        group_kind: GroupKind::Identical,
        quality_tier,
        name: String::new(),
        path: path.to_string(),
        size: String::new(),
        dimensions: String::new(),
        duration: String::new(),
        bitrate: String::new(),
        fps: String::new(),
        codec: String::new(),
        mod_date: String::new(),
        checked,
    }
}

fn header() -> FileRow {
    row(true, QualityTier::Unknown, "", false)
}

fn checks(rows: &[FileRow]) -> Vec<bool> {
    rows.iter().map(|r| r.checked).collect()
}

#[test]
fn durations_are_shown() {
    assert_eq!(format_duration(double(0.0)), "0:00");
    assert_eq!(format_duration(double(59.999_999)), "0:59");
    assert_eq!(format_duration(double(61.0)), "1:01");
    assert_eq!(format_duration(double(3_599.0)), "59:59");
    assert_eq!(format_duration(double(3_600.0)), "1:00:00");
    assert_eq!(format_duration(double(36_610.0)), "10:10:10");
    assert_eq!(format_duration(double(-5.0)), "0:00");
    assert_eq!(format_duration(double(f64::NAN)), "0:00");
    assert_eq!(format_duration(double(f64::INFINITY)), "5124095576030431:00:15");
}

#[test]
fn sizes_are_shown() {
    assert_eq!(format_size(0), "0 B");
    assert_eq!(format_size(1536), "1.50 KiB");
    assert_eq!(format_size(5 * 1024 * 1024), "5 MiB");
    for bytes in [1, 1023, 1024, 123_456_789, u64::MAX] {
        assert_eq!(format_size(bytes), humansize::format_size(bytes, humansize::BINARY));
    }
}

#[test]
fn bit_rates_are_shown() {
    assert_eq!(format_bitrate(0), "0 kb/s");
    assert_eq!(format_bitrate(1_048_575), "1023 kb/s");
    assert_eq!(format_bitrate(1_048_576), "1.0 Mb/s");
    assert_eq!(format_bitrate(5_000_000), "4.8 Mb/s");
    // A tie goes to the even digit.
    assert_eq!(format_bitrate(1_310_720), "1.2 Mb/s");
    assert_eq!(format_bitrate(1_835_008), "1.8 Mb/s");
    let mut state: u64 = 3;
    for _ in 0..2_000 {
        state = state.wrapping_mul(6_364_136_223_846_793_005).wrapping_add(1_442_695_040_888_963_407);
        let bps = state >> (state % 44);
        let expected = if bps >= 1024 * 1024 {
            format!("{:.1} Mb/s", bps as f64 / (1024 * 1024) as f64)
        } else {
            format!("{} kb/s", bps / 1024)
        };
        assert_eq!(format_bitrate(bps), expected);
    }
    assert_eq!(format_bitrate(u64::MAX), "17592186044416.0 Mb/s");
}

#[test]
fn codecs_are_ranked() {
    let cases = [
        ("av1", 4),
        ("AV1 (libdav1d)", 4),
        ("hevc", 3),
        ("H265", 3),
        ("x265", 3),
        ("vp9", 3),
        ("h264", 2),
        ("x264", 2),
        ("avc1", 2),
        ("VP8", 2),
        ("mpeg2video", 1),
        ("xvid", 1),
        ("DivX", 1),
        ("wmv3", 1),
        ("theora", 0),
        ("", 0),
    ];
    for (codec, rank) in cases {
        assert_eq!(codec_rank(codec), rank, "{codec}");
    }
}

#[test]
fn files_are_scored() {
    assert_eq!(quality_score(Some(1920), Some(1080), "h264", Some(5)), (2_073_600, 2, 5));
    assert_eq!(quality_score(None, Some(1080), "", None), (0, 0, 0));
    assert_eq!(
        quality_score(Some(u32::MAX), Some(u32::MAX), "av1", Some(u64::MAX)),
        (u64::from(u32::MAX) * u64::from(u32::MAX), 4, u64::MAX)
    );
}

#[test]
fn tiers_single_out_the_best() {
    assert_eq!(quality_tiers(&[(9, 1, 1), (9, 2, 0), (8, 4, 9)]), vec![Worse, Best, Worse]);
    assert_eq!(quality_tiers(&[(9, 2, 5), (9, 2, 6), (9, 2, 6)]), vec![Worse, Best, Best]);
    assert_eq!(quality_tiers(&[(0, 0, 0), (9, 2, 6), (1, 0, 0)]), vec![Unknown, Best, Worse]);
    assert_eq!(quality_tiers(&[(9, 2, 5), (9, 2, 5)]), vec![Unknown, Unknown]);
    assert_eq!(quality_tiers(&[(9, 2, 5)]), vec![Unknown]);
    assert_eq!(quality_tiers(&[]), vec![]);
}

#[test]
fn groups_are_laid_out() {
    let groups = vec![
        GroupFacts {
            kind: SimilarityKind::SameContent,
            files: vec![
                file("a.mp4", Some(metadata(1920, 1080, "h264", 5_000_000))),
                file("b.mkv", Some(metadata(1280, 720, "hevc", 900_000))),
            ],
        },
        GroupFacts {
            kind: SimilarityKind::SubClip { offset_ms: 5, clip_is: WhichFile::B },
            files: vec![FileFacts { size: None, ..file("c.avi", None) }],
        },
    ];
    let rows = groups_to_plain_rows(&groups);
    assert_eq!(rows.len(), 5);
    assert!(rows[0].is_header);
    assert_eq!(rows[0].group_kind, GroupKind::SameContent);
    assert_eq!(rows[0].name, "2 file(s)");
    assert_eq!(rows[0].path, "");
    assert_eq!(rows[0].quality_tier, QualityTier::Unknown);
    let best = &rows[1];
    assert!(!best.is_header);
    assert_eq!(best.quality_tier, QualityTier::Best);
    assert_eq!(best.name, "a.mp4");
    assert_eq!(best.path, "/videos/a.mp4");
    assert_eq!(best.size, "1.50 KiB");
    assert_eq!(best.dimensions, "1920×1080");
    assert_eq!(best.duration, "1:02:05");
    assert_eq!(best.duration_secs, double(3_725.9));
    assert_eq!(best.bitrate, "4.8 Mb/s");
    assert_eq!(best.fps, "30.0");
    assert_eq!(best.codec, "h264");
    assert_eq!(best.mod_date, "2024-01-02 03:04:05");
    assert_eq!(rows[2].quality_tier, QualityTier::Worse);
    assert_eq!(rows[2].bitrate, "878 kb/s");
    assert_eq!(rows[3].group_kind, GroupKind::SubClip);
    assert_eq!(rows[3].name, "1 file(s)");
    let unknown = &rows[4];
    assert_eq!(unknown.quality_tier, QualityTier::Unknown);
    assert_eq!(
        (unknown.size.as_str(), unknown.dimensions.as_str(), unknown.duration.as_str()),
        ("", "", "")
    );
    assert_eq!((unknown.bitrate.as_str(), unknown.fps.as_str(), unknown.codec.as_str()), ("", "", ""));
    assert!(groups_to_plain_rows(&[]).is_empty());
}

#[test]
fn frame_rates_are_shown_as_doubles() {
    let shown = |fps: f64| {
        let known = VideoMetadata { fps: Some(double(fps)), ..metadata(1, 1, "h264", 1) };
        let group = GroupFacts { kind: SimilarityKind::Identical, files: vec![file("a.mp4", Some(known))] };
        groups_to_plain_rows(&[group])[1].fps.clone()
    };
    assert_eq!(shown(29.95), "29.9");
    assert_eq!(shown(24_000.0 / 1001.0), "24.0");
    assert_eq!(shown(0.25), "0.2");
    assert_eq!(shown(-29.95), "-29.9");
    let mut numbers = vec![0.0, -0.0, 0.05, 0.049_999, 1e-300, 1e22, 1e300, f64::MAX, 0.15, 0.35, 9.95];
    numbers.extend([f64::NAN, f64::INFINITY, f64::NEG_INFINITY, 5e-324, 2.5, 1e15 + 0.3]);
    numbers.extend((0..500).map(|i| f64::from(i) * 0.049_95));
    for fps in numbers {
        assert_eq!(shown(fps), format!("{fps:.1}"), "{fps}");
    }
}

#[test]
fn files_have_their_last_signature() {
    let sig = |path: &str| VideoSignature {
        path: PathBuf::from(path),
        duration_ms: 0,
        aspect_ratio: single(1.0),
        visual_hashes: vec![],
        audio_fingerprint: None,
        metadata: None,
    };
    let signatures = [sig("/a"), sig("/b/c"), sig("/a"), sig("/d")];
    assert_eq!(signature_of(&signatures, &PathBuf::from("/a")), Some(2));
    assert_eq!(signature_of(&signatures, &PathBuf::from("/b//c")), Some(1));
    assert_eq!(signature_of(&signatures, &PathBuf::from("/c")), None);
    assert_eq!(signature_of(&[], &PathBuf::from("/a")), None);
}

#[test]
fn kinds_are_shown() {
    let kinds = [
        (SimilarityKind::Identical, GroupKind::Identical),
        (SimilarityKind::SameContent, GroupKind::SameContent),
        (SimilarityKind::SubClip { offset_ms: 0, clip_is: WhichFile::A }, GroupKind::SubClip),
        (SimilarityKind::Similar, GroupKind::Similar),
    ];
    for (kind, shown) in kinds {
        let rows = groups_to_plain_rows(&[GroupFacts { kind, files: vec![] }]);
        assert_eq!(rows[0].group_kind, shown);
        assert_eq!(rows[0].name, "0 file(s)");
    }
}

#[test]
fn checking_all_spares_one_of_each_group() {
    let mut rows = vec![
        row(false, Unknown, "/stray", true),
        header(),
        row(false, Worse, "/a", false),
        row(false, Best, "/b", true),
        row(false, Best, "/c", false),
        header(),
        row(false, Unknown, "/d", true),
        header(),
        header(),
        row(false, Unknown, "/e", true),
        row(false, Unknown, "/f", false),
    ];
    select_all(&mut rows, true);
    assert_eq!(
        checks(&rows),
        vec![true, false, true, false, true, false, false, false, false, false, true]
    );
    assert_eq!(checked_count(&rows), 4);
    assert_eq!(collect_checked_paths(&rows), vec!["/stray", "/a", "/c", "/f"]);
    let mut left = rows.clone();
    remove_checked_rows(&mut left);
    let paths: Vec<&str> = left.iter().map(|r| r.path.as_str()).collect();
    assert_eq!(paths, vec!["", "/b", "", "/d", "", "", "/e"]);
    assert_eq!(checked_count(&left), 0);
    select_all(&mut rows, false);
    assert_eq!(checked_count(&rows), 0);
}

#[test]
fn headers_keep_their_check_marks() {
    let mut rows = vec![row(true, QualityTier::Unknown, "", true), row(false, QualityTier::Unknown, "/a", true)];
    select_all(&mut rows, false);
    assert_eq!(checks(&rows), vec![true, false]);
    assert_eq!(checked_count(&rows), 0);
    remove_checked_rows(&mut rows);
    assert_eq!(rows.len(), 2);
}

#[test]
fn single_rows_are_checked() {
    let mut rows = vec![header(), row(false, QualityTier::Unknown, "/a", false)];
    check_toggled(&mut rows, 1, true);
    assert_eq!(checks(&rows), vec![false, true]);
    check_toggled(&mut rows, 2, true);
    assert_eq!(checks(&rows), vec![false, true]);
    assert_eq!(row_double_clicked(&rows, 0), None);
    assert_eq!(row_double_clicked(&rows, 1), Some("/a".to_string()));
    assert_eq!(row_double_clicked(&rows, 2), None);
    rows[1].path = String::new();
    assert_eq!(row_double_clicked(&rows, 1), None);
}

#[test]
fn questions_are_asked() {
    let mut rows = vec![header(), row(false, QualityTier::Unknown, "/a", false)];
    assert_eq!(delete_question(&rows), None);
    assert_eq!(trash_question(&rows), None);
    check_toggled(&mut rows, 1, true);
    assert_eq!(
        delete_question(&rows).unwrap(),
        "Permanently delete 1 file(s)?\nThis cannot be undone."
    );
    assert_eq!(trash_question(&rows).unwrap(), "Move 1 file(s) to trash?");
}

#[test]
fn rows_are_taken_over_unchecked() {
    let plain: PlainRow =
        groups_to_plain_rows(&[GroupFacts { kind: SimilarityKind::Similar, files: vec![file("a.mp4", None)] }])
            .remove(1);
    let shown = plain_to_file_row(plain);
    assert_eq!(shown.name, "a.mp4");
    assert_eq!(shown.path, "/videos/a.mp4");
    assert!(!shown.checked);
    assert!(!shown.is_header);
}

#[test]
fn thumbnails_are_taken_after_a_fifth() {
    let mut rows = groups_to_plain_rows(&[GroupFacts {
        kind: SimilarityKind::Similar,
        files: vec![
            file("a.mp4", Some(metadata(1, 1, "", 1))),
            file("b.mp4", None),
            file("c.mp4", None),
        ],
    }]);
    rows[2].duration_secs = double(4.999);
    rows[3].path = String::new();
    let jobs = thumbnail_jobs(&rows);
    assert_eq!(jobs.len(), 2);
    assert_eq!((jobs[0].row, jobs[0].path.as_str(), jobs[0].seek), (1, "/videos/a.mp4", single(3_725.9_f64 as f32 * 0.20)));
    assert_eq!((jobs[1].row, jobs[1].path.as_str(), jobs[1].seek), (2, "/videos/b.mp4", single(1.0)));
}

#[test]
fn the_placeholder_is_bluish_grey() {
    let pixels = placeholder_thumbnail();
    assert_eq!(pixels.len(), 112 * 63 * 3);
    assert!(pixels.chunks(3).all(|p| p == [0x33, 0x33, 0x44]));
}

#[test]
fn settings_have_defaults() {
    let settings = GuiSettings::default();
    assert_eq!(settings.tolerance, single(0.15));
    assert_eq!(settings.duration_tolerance_pct, single(20.0));
    assert_eq!(settings.min_matching_windows, single(0.6));
    assert_eq!(settings.subclip_min_match, single(0.5));
    assert_eq!(settings.audio_max_difference, single(3.0));
    assert_eq!(settings.audio_min_segment_duration, single(5.0));
    let signature = settings.signature_config();
    assert_eq!(signature.skip_secs, double(15.0));
    assert_eq!(signature.window_count, 5);
    assert_eq!(signature.window_secs, double(6.0));
    assert!(signature.cropdetect);
    let compare = settings.compare_config();
    assert_eq!(compare.tolerance, single(0.15));
    assert_eq!(compare.duration_tolerance_pct, double(20.0));
    assert_eq!(compare.audio_max_difference, double(3.0));
    assert!(!compare.use_audio);
    let odd = GuiSettings { skip_secs: -7, duration_tolerance_pct: single(12.3), ..settings.clone() };
    assert_eq!(odd.signature_config().skip_secs, double(-7.0));
    assert_eq!(odd.compare_config().duration_tolerance_pct, double(f64::from(12.3_f32)));
    let audio = GuiSettings { audio_fingerprint: true, ..settings };
    assert!(audio.compare_config().use_audio);
    assert!(audio.signature_config().audio_fingerprint);
}

#[test]
fn settings_have_their_place() {
    let set = Some(PathBuf::from("/x"));
    let home = Some(PathBuf::from("/home/me"));
    assert_eq!(settings_path(set, home.clone()), PathBuf::from("/x/similario/settings.json"));
    assert_eq!(settings_path(None, home), PathBuf::from("/home/me/.config/similario/settings.json"));
    assert_eq!(settings_path(None, None), PathBuf::from("./.config/similario/settings.json"));
}

#[test]
fn the_window_starts_with_a_directory() {
    let mut settings = GuiSettings::default();
    assert_eq!(settings.first_directory(None), None);
    settings.last_directory = "/last".to_string();
    assert_eq!(settings.first_directory(None), Some("/last".to_string()));
    assert_eq!(settings.first_directory(Some("/given".to_string())), Some("/given".to_string()));
}

#[test]
fn scans_are_stopped_or_compared() {
    let flags = ScanFlags::scan_clicked();
    assert_eq!(flags.verdict(), ScanVerdict::Compare { partial: false });
    assert_eq!(flags.stop_clicked().verdict(), ScanVerdict::Stopped);
    assert_eq!(flags.stop_and_compare_clicked().verdict(), ScanVerdict::Compare { partial: true });
    assert_eq!(
        flags.stop_clicked().stop_and_compare_clicked().verdict(),
        ScanVerdict::Compare { partial: true }
    );
}

#[test]
fn the_status_line_tells_the_course() {
    assert_eq!(collecting_status(49), None);
    assert_eq!(collecting_status(150).unwrap(), "Collecting files... 150");
    assert_eq!(collected_status(0), "No video files found.");
    assert_eq!(collected_status(12), "Checking cache for 12 files...");
    assert_eq!(checked_status(3, 9), "3 cached, 9 to process...");
    assert_eq!(processing_status(4, 9, 3), "Processing: 4/9 (3 cached)");
    assert_eq!(comparing_status(12, false), "Comparing 12 signatures...");
    assert_eq!(comparing_status(7, true), "Comparing 7 signatures (partial)...");
    assert_eq!(found_status(2, false, 1, true), "Found 2 groups. Errors: 1. Loading thumbnails...");
    assert_eq!(found_status(2, true, 0, false), "Found 2 groups (partial). Errors: 0.");
}

#[test]
fn dates_are_shown() {
    for secs in [0, 86_400, 1_700_000_000, 253_402_300_800, u64::MAX] {
        let shown = format_date(secs);
        let expected = chrono::TimeZone::timestamp_opt(&chrono::Utc, secs as i64, 0)
            .single()
            .unwrap_or_default()
            .with_timezone(&chrono::Local)
            .format("%Y-%m-%d %H:%M:%S")
            .to_string();
        assert_eq!(shown, expected);
        let tail: Vec<char> = shown.chars().rev().take(15).collect();
        let form: String = tail.iter().rev().map(|c| if c.is_ascii_digit() { 'd' } else { *c }).collect();
        assert_eq!(form, "-dd-dd dd:dd:dd");
    }
    // A time that no calendar has is shown as the beginning of 1970.
    assert_eq!(format_date(i64::MAX as u64), format_date(0));
    let at = |time: i64| chrono::DateTime::from_timestamp(time, 0);
    assert!(at(8_210_266_876_799).is_some() && at(8_210_266_876_800).is_none());
    assert!(at(-8_334_601_228_800).is_some() && at(-8_334_601_228_801).is_none());
    assert_ne!(format_date(8_210_266_876_799), format_date(0));
    assert_eq!(format_date(8_210_266_876_800), format_date(0));
    assert_ne!(format_date(-8_334_601_228_800i64 as u64), format_date(0));
    assert_eq!(format_date(-8_334_601_228_801i64 as u64), format_date(0));
}

#[test]
fn thumbnails_are_decoded() {
    let pixels: Vec<u8> = (0..2 * 3 * 3).collect();
    let image = image::RgbImage::from_raw(3, 2, pixels.clone()).unwrap();
    let mut png = std::io::Cursor::new(Vec::new());
    image.write_to(&mut png, image::ImageFormat::Png).unwrap();
    let found = decode_thumbnail(true, png.get_ref(), "").unwrap();
    assert_eq!(found, Thumbnail { width: 3, height: 2, pixels });
    let failed = decode_thumbnail(false, png.get_ref(), "bad seek").unwrap_err();
    assert_eq!(failed, "ffmpeg failed: bad seek");
    let garbled = decode_thumbnail(true, b"no picture", "").unwrap_err();
    assert!(garbled.starts_with("decode thumbnail: "));
    assert!(garbled.len() > "decode thumbnail: ".len());
    assert_eq!(settle_thumbnail(Err("x".to_string())), Err("decode thumbnail: x".to_string()));
    assert_eq!(spawn_failed("gone"), "ffmpeg spawn: gone");
    assert_eq!(
        scale_filter(224, 126),
        "scale='min(224,iw)':'min(126,ih)':force_original_aspect_ratio=decrease"
    );
}
