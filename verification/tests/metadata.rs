use similario::double::Double;
use similario::metadata::{parse_duration_secs, parse_fps_fraction, MetadataError, VideoMetadata};

fn seconds(value: Double) -> f64 {
    f64::from_bits(value.bits)
}

fn double(value: f64) -> Double {
    Double { bits: value.to_bits() }
}

fn parse(text: &str) -> VideoMetadata {
    let value: serde_json::Value = serde_json::from_str(text).unwrap();
    VideoMetadata::parse_ffprobe_json(&value).unwrap()
}

#[test]
fn parse_duration_float() {
    assert_eq!(parse_duration_secs(Some("3723.456")).map(seconds), Some(3723.456));
}

#[test]
fn parse_duration_hhmmss() {
    // 1h 2m 3.5s = 3723.5
    assert_eq!(parse_duration_secs(Some("01:02:03.500")).map(seconds), Some(3723.5));
}

#[test]
fn parse_duration_mmss() {
    assert_eq!(parse_duration_secs(Some("02:30.000")).map(seconds), Some(150.0));
}

#[test]
fn parse_duration_none() {
    assert_eq!(parse_duration_secs(None), None);
    assert_eq!(parse_duration_secs(Some("N/A")), None);
}

#[test]
fn parse_fps_normal() {
    assert!((seconds(parse_fps_fraction("30000/1001").unwrap()) - 29.97).abs() < 0.01);
    assert_eq!(parse_fps_fraction("25/1").map(seconds), Some(25.0));
    assert_eq!(parse_fps_fraction("0/0"), None);
}

#[test]
fn parse_json_full() {
    let meta = parse(
        r#"{
            "streams": [{
                "codec_name": "h264",
                "width": 1920,
                "height": 1080,
                "duration": "120.5",
                "avg_frame_rate": "30000/1001",
                "bit_rate": "5000000"
            }],
            "format": {}
        }"#,
    );
    assert!((seconds(meta.duration_secs) - 120.5).abs() < 0.001);
    assert_eq!(meta.codec.as_deref(), Some("h264"));
    assert_eq!(meta.width, Some(1920));
    assert_eq!(meta.height, Some(1080));
    assert_eq!(meta.bitrate_bps, Some(5_000_000));
    assert!((seconds(meta.fps.unwrap()) - 29.97).abs() < 0.01);
}

#[test]
fn duration_fallback_to_format() {
    let meta = parse(r#"{"streams": [{}], "format": {"duration": "60.0"}}"#);
    assert_eq!(seconds(meta.duration_secs), 60.0);
}

#[test]
fn bit_rate_falls_back_to_format() {
    let meta = parse(r#"{"streams": [{"duration": "1"}], "format": {"bit_rate": "123"}}"#);
    assert_eq!(meta.bitrate_bps, Some(123));
    // What the stream says goes first, even where it is no number.
    let meta = parse(r#"{"streams": [{"duration": "1", "bit_rate": "N/A"}], "format": {"bit_rate": "123"}}"#);
    assert_eq!(meta.bitrate_bps, None);
}

#[test]
fn a_report_with_a_duration_alone() {
    let meta = parse(r#"{"format": {"duration": "2.5"}}"#);
    assert_eq!(meta.duration_secs, double(2.5));
    assert_eq!(meta.fps, None);
    assert_eq!(meta.codec, None);
    assert_eq!(meta.bitrate_bps, None);
    assert_eq!(meta.width, None);
    assert_eq!(meta.height, None);
    assert_eq!(meta.aspect_ratio(), None);
    assert_eq!(meta.duration(), 2_500_000_000);
}

#[test]
fn dimensions_are_capped() {
    let meta = parse(r#"{"streams": [{"duration": "1", "width": 20000, "height": 16384}]}"#);
    assert_eq!(meta.width, Some(16_384));
    assert_eq!(meta.height, Some(16_384));
}

#[test]
fn aspect_ratio_is_width_over_height() {
    let meta = parse(r#"{"streams": [{"duration": "1", "width": 1920, "height": 1080}]}"#);
    assert_eq!(meta.aspect_ratio().map(|r| r.bits), Some((1920.0_f32 / 1080.0).to_bits()));
    let flat = parse(r#"{"streams": [{"duration": "1", "width": 1920, "height": 0}]}"#);
    assert_eq!(flat.aspect_ratio(), None);
}

#[test]
fn a_report_without_a_duration_is_refused() {
    for text in [r#"{"format": {}}"#, r#"{"streams": []}"#, r#"{"streams": [{"duration": "N/A"}]}"#, "[]"] {
        let value: serde_json::Value = serde_json::from_str(text).unwrap();
        assert_eq!(
            VideoMetadata::parse_ffprobe_json(&value).unwrap_err(),
            MetadataError::ParseError("no duration found".to_string())
        );
    }
}

#[test]
fn a_probe_is_read_or_refused() {
    let good = VideoMetadata::from_probe("/a.mp4", true, br#"{"streams": [{"duration": "1.5"}]}"#, "");
    assert_eq!(good.unwrap().duration_secs, double(1.5));
    let failed = VideoMetadata::from_probe("/a.mp4", false, b"", "no such file").unwrap_err();
    assert_eq!(
        failed,
        MetadataError::FfprobeFailed { path: "/a.mp4".to_string(), stderr: "no such file".to_string() }
    );
    assert_eq!(failed.message(), "ffprobe failed on '/a.mp4': no such file");
    let garbled = VideoMetadata::from_probe("/a.mp4", true, b"{", "");
    assert!(matches!(garbled, Err(MetadataError::ParseError(_))));
}

#[test]
fn metadata_errors_have_messages() {
    assert_eq!(MetadataError::FfprobeNotFound.message(), "ffprobe not found in PATH");
    assert_eq!(
        MetadataError::ParseError("x".to_string()).message(),
        "Failed to parse ffprobe output: x"
    );
    assert_eq!(MetadataError::Io("denied".to_string()).message(), "IO error: denied");
    assert_eq!(VideoMetadata::probe_error(true, "x".to_string()), MetadataError::FfprobeNotFound);
    assert_eq!(
        VideoMetadata::probe_error(false, "denied".to_string()),
        MetadataError::Io("denied".to_string())
    );
}

#[test]
fn durations_in_many_spellings() {
    assert_eq!(parse_duration_secs(Some(" 12.25 ")), Some(double(12.25)));
    assert_eq!(parse_duration_secs(Some("1e2")), Some(double(100.0)));
    assert_eq!(parse_duration_secs(Some("1e-7")), Some(double(1e-7)));
    assert_eq!(parse_duration_secs(Some("00:00:00")), parse_duration_secs(Some("0:0:0")));
    assert_eq!(parse_duration_secs(Some("1:2:3:4")), None);
    assert_eq!(parse_duration_secs(Some("a:10")), None);
    assert_eq!(parse_duration_secs(Some("")), None);
    // The parts of a duration are not held to be finite, nor not to be negative.
    assert_eq!(parse_duration_secs(Some("inf:00")), Some(double(f64::INFINITY)));
    assert_eq!(parse_duration_secs(Some("-1:30")), Some(double(-30.0)));
    assert_eq!(parse_duration_secs(Some("1:nan")).map(|d| seconds(d).is_nan()), Some(true));
    assert_eq!(parse_duration_secs(Some("0.1:0.2:0.3")), Some(double(0.1 * 3600.0 + 0.2 * 60.0 + 0.3)));
}

#[test]
fn frame_rates_in_many_spellings() {
    let fps = |text: &str| parse_fps_fraction(text).map(seconds);
    assert_eq!(fps("24000/1001"), Some(24000.0 / 1001.0));
    assert_eq!(fps("30/0"), None);
    assert_eq!(fps("x/1"), None);
    assert_eq!(fps("1e20/1e19"), Some(10.0));
    assert_eq!(fps("1e-9/1e-10"), Some(1e-9 / 1e-10));
    assert_eq!(fps("0.0000003/0.0000001"), Some(0.000_000_3 / 0.000_000_1));
    assert_eq!(fps("30000000000000000000000/1001000000000000000000"), Some(3e22 / 1.001e21));
    assert_eq!(fps("-50/-2"), Some(25.0));
    assert_eq!(fps("-50/2"), None);
    assert_eq!(fps("1/2000000"), Some(1.0 / 2_000_000.0));
    assert_eq!(fps("999.9999999/1"), Some(999.999_999_9));
    assert_eq!(fps("1000/1"), None);
    // A quotient just below a thousand may be rounded to a thousand.
    assert_eq!(fps("999.99999999999999999/1"), None);
    assert_eq!(fps("999.9999999999999/1"), Some(999.999_999_999_999_9));
    assert_eq!(fps("1e400/1e399"), None);
    assert_eq!(fps("1/1e400"), None);
    assert_eq!(fps("1e-400/1"), None);
    assert_eq!(fps("1/1e-400"), None);
    assert_eq!(fps("1e-200/1e200"), None);
    assert_eq!(fps("1e-200/1e100"), Some(1e-300));
    assert_eq!(fps(" 007/3 /x"), Some(7.0 / 3.0));
}

#[test]
fn quotients_are_those_of_doubles() {
    let mut state: u64 = 3;
    for _ in 0..2_000 {
        state = state.wrapping_mul(6_364_136_223_846_793_005).wrapping_add(1_442_695_040_888_963_407);
        let num = format!("{}.{}e{}", state >> 44, (state >> 20) & 0xfffff, (state & 7) as i32 - 4);
        let den = format!("{}", 1 + ((state >> 30) & 0xfff));
        let expected = {
            let fps = num.parse::<f64>().unwrap() / den.parse::<f64>().unwrap();
            if fps > 0.0 && fps < 1000.0 {
                Some(fps)
            } else {
                None
            }
        };
        assert_eq!(parse_fps_fraction(&format!("{num}/{den}")).map(seconds), expected, "{num}/{den}");
    }
}

#[test]
fn durations_are_within_the_range_of_doubles() {
    let read = |text: &str| parse_duration_secs(Some(text)).map(seconds);
    assert_eq!(read("1e400"), None);
    assert_eq!(read("1.79769313486231581e308"), None);
    assert_eq!(read("1.7976931348623157e308"), Some(f64::MAX));
    assert_eq!(read("-1"), None);
    assert_eq!(read("-1e-300"), None);
    assert_eq!(parse_duration_secs(Some("-1e-400")), Some(double(-0.0)));
    assert_eq!(parse_duration_secs(Some("-0.0")), Some(double(-0.0)));
    assert_eq!(read("inf"), None);
    assert_eq!(read("nan"), None);
    // An exponent may make up for any number of zeros.
    let small = format!(".{}1e10001", "0".repeat(10_000));
    assert_eq!(read(&small), Some(1.0));
    let large = format!("1{}e-10000", "0".repeat(10_000));
    assert_eq!(read(&large), Some(1.0));
    assert_eq!(read("0e99999999999999999999999999"), Some(0.0));
    assert_eq!(read("1e-99999999999999999999999999"), Some(0.0));
    assert_eq!(read("1e99999999999999999999999999"), None);
}
