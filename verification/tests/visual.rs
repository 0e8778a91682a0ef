use rustdct::DctPlanner;
use similario::double::Double;
use similario::metadata::VideoMetadata;
use similario::single::Single;
use similario::visual::config::{
    compute_window_positions, FfmpegTimeout, SignatureConfig, DCT_SIZE, FRAMES_PER_WINDOW,
};
use similario::visual::dct::{binarize, center_frames, turn_cube};
use similario::visual::extract::{
    collect_frames, finished, is_black_frame, prescan_window, replace_black_frames, settle, spawn_error,
    window_frames, FrameExtractError,
};
use similario::visual::frame::GrayFrame;
use similario::visual::hash::HashBits;
use similario::visual::watchdog::{kill_reason, KillReason, Registry, Watch};
use similario::visual::{usable_fingerprint, SignatureError, TemporalHash, VideoSignature};
use std::path::PathBuf;
use std::time::Duration;

fn double(value: f64) -> Double {
    Double { bits: value.to_bits() }
}

fn single(value: f32) -> Single {
    Single { bits: value.to_bits() }
}

fn seconds(value: Double) -> f64 {
    f64::from_bits(value.bits)
}

fn make_frame(value: u8) -> GrayFrame {
    GrayFrame::from_pixel(DCT_SIZE as u32, DCT_SIZE as u32, value)
}

/// The DCT of a cube along each of its three axes.
fn dct_3d(cube: &[f64]) -> Vec<f64> {
    let dct = DctPlanner::new().plan_dct2(DCT_SIZE);
    let mut values = cube.to_vec();
    for _ in 0..3 {
        values = turn_cube(&values);
        for lane in values.chunks_exact_mut(DCT_SIZE) {
            dct.process_dct2(lane);
        }
    }
    values
}

fn compute_hash_from_frames(frames: &[GrayFrame]) -> HashBits {
    let cube: Vec<f64> = center_frames(frames).iter().map(|v| f64::from(*v)).collect();
    let positive: Vec<bool> = dct_3d(&cube).iter().map(|c| *c > 0.0).collect();
    binarize(&positive)
}

#[test]
fn hash_identical_frames_is_zero_distance() {
    let frames: Vec<GrayFrame> = (0..FRAMES_PER_WINDOW).map(|_| make_frame(128)).collect();
    let h1 = compute_hash_from_frames(&frames);
    let h2 = compute_hash_from_frames(&frames);
    // Identical input → identical hash → distance = 0.
    assert_eq!(h1.distance(&h2), 0);
}

#[test]
fn hash_different_content_differs() {
    let dark: Vec<GrayFrame> = (0..FRAMES_PER_WINDOW).map(|_| make_frame(30)).collect();
    let bright: Vec<GrayFrame> = (0..FRAMES_PER_WINDOW).map(|_| make_frame(220)).collect();
    let h1 = compute_hash_from_frames(&dark);
    let h2 = compute_hash_from_frames(&bright);
    let dist = h1.distance(&h2);
    // Completely different brightness → at least 1 bit must differ.
    assert!(dist > 0, "expected non-zero distance, got {dist}");
}

#[test]
fn dct_3d_produces_finite_values() {
    let result = dct_3d(&vec![1.0; DCT_SIZE * DCT_SIZE * DCT_SIZE]);
    for v in result {
        assert!(v.is_finite(), "non-finite DCT coefficient: {v}");
    }
}

#[test]
fn the_cube_holds_centred_pixels() {
    let mut frames: Vec<GrayFrame> = (0..16).map(|_| make_frame(0)).collect();
    frames[3].put_pixel(5, 9, 255);
    let cube = center_frames(&frames);
    assert_eq!(cube.len(), 4096);
    assert_eq!(cube[3 * 256 + 5 * 16 + 9], 127);
    assert_eq!(cube.iter().filter(|v| **v == -128).count(), 4095);
}

#[test]
fn three_turns_restore_a_cube() {
    let cube: Vec<u32> = (0..4096).collect();
    let once = turn_cube(&cube);
    assert_eq!(once[3 * 256 + 4 * 16 + 2], 2 * 256 + 3 * 16 + 4);
    let twice = turn_cube(&once);
    assert_eq!(twice[4 * 256 + 2 * 16 + 3], 2 * 256 + 3 * 16 + 4);
    assert_eq!(turn_cube(&twice), cube);
}

#[test]
fn the_first_coefficient_is_the_sum_along_all_axes() {
    let cube: Vec<f64> = (0..4096).map(|i| f64::from(i % 7) - 3.0).collect();
    let sum: f64 = cube.iter().sum();
    assert!((dct_3d(&cube)[0] - sum).abs() < 1e-6);
    // A cube that changes along one axis alone has coefficients along that axis alone.
    let along_frames: Vec<f64> = (0..4096).map(|i| f64::from(i / 256)).collect();
    for (i, c) in dct_3d(&along_frames).iter().enumerate() {
        assert!(i % 256 == 0 || c.abs() < 1e-6);
    }
    assert!(dct_3d(&along_frames)[256].abs() > 1.0);
}

#[test]
fn bits_come_from_the_corner() {
    let mut positive = vec![false; 4096];
    positive[2 * 256 + 3 * 16 + 4] = true; // bit 234
    positive[9 * 256 + 9 * 16 + 9] = true; // bit 999
    positive[10 * 256] = true; // outside the corner
    positive[10] = true; // outside the corner
    let bytes = binarize(&positive).to_bytes();
    let set: Vec<usize> = (0..1024).filter(|i| (bytes[i / 8] >> (i % 8)) & 1 == 1).collect();
    assert_eq!(set, vec![234, 999]);
}

#[test]
fn window_positions_skip() {
    let cfg = SignatureConfig {
        skip_secs: double(15.0),
        window_count: 5,
        window_secs: double(6.0),
        cropdetect: false,
        audio_fingerprint: false,
        ..Default::default()
    };
    // 120s video: usable_start = min(15, 18) = 15, usable_end = 118
    let windows = compute_window_positions(double(120.0), &cfg);
    assert_eq!(windows.len(), 5);
    // First window starts after 15s
    assert!(seconds(windows[0].0) >= 14.9);
    // No window exceeds the video end
    for (_, end) in &windows {
        assert!(seconds(*end) < 120.0);
    }
    // 15 s to 119.5 s, in steps of a quarter of 98.5 s.
    let expected = [(15.0, 21.0), (39.625, 45.625), (64.25, 70.25), (88.875, 94.875), (113.5, 119.5)];
    let found: Vec<(f64, f64)> = windows.iter().map(|w| (seconds(w.0), seconds(w.1))).collect();
    assert_eq!(found, expected);
}

#[test]
fn window_positions_short_video() {
    let cfg = SignatureConfig {
        skip_secs: double(15.0),
        window_count: 3,
        window_secs: double(4.0),
        cropdetect: false,
        audio_fingerprint: false,
        ..Default::default()
    };
    // Short 20s video: skip reduced to 3s (15% of 20s)
    let windows = compute_window_positions(double(20.0), &cfg);
    assert_eq!(windows.len(), 3);
    for (start, end) in &windows {
        assert!(seconds(*start) < seconds(*end));
        assert!(seconds(*end) < 20.0);
    }
}

/// The windows of a video, computed with the machine's own numbers.
fn expected_windows(duration: f64, skip: f64, window: f64, count: usize) -> Vec<(f64, f64)> {
    let first = skip.min(duration * 0.15);
    let usable = (duration - 0.5).max(first + 1.0) - first;
    let length = window.min(usable);
    let step = if count > 1 { (usable - length) / (count - 1) as f64 } else { 0.0 };
    (0..count)
        .map(|i| {
            let start = first + i as f64 * step;
            (start, (start + length).min(duration - 0.1).max(start + 0.5))
        })
        .collect()
}

#[test]
fn window_positions_of_odd_settings() {
    let found = |duration: f64, cfg: &SignatureConfig| -> Vec<(f64, f64)> {
        let windows = compute_window_positions(double(duration), cfg);
        windows.iter().map(|w| (seconds(w.0), seconds(w.1))).collect()
    };
    let cfg = SignatureConfig { window_count: 1, ..Default::default() };
    assert_eq!(found(60.0, &cfg), vec![(9.0, 15.0)]);
    let none = SignatureConfig { window_count: 0, ..Default::default() };
    assert!(found(60.0, &none).is_empty());
    // A video of no length still has a window of half a second.
    assert_eq!(found(0.0, &cfg), vec![(0.0, 0.5)]);
    let mut state: u64 = 9;
    for _ in 0..100 {
        state = state.wrapping_mul(6_364_136_223_846_793_005).wrapping_add(1_442_695_040_888_963_407);
        let duration = (state >> 32) as f64 / 65_537.0;
        let count = 1 + (state >> 20) as usize % 9;
        let many = SignatureConfig { window_count: count, ..Default::default() };
        let windows = found(duration, &many);
        assert_eq!(windows, expected_windows(duration, 15.0, 6.0, count));
        assert!(duration < 2.0 || windows.iter().all(|w| w.1 <= duration), "{duration}");
        assert!(windows.windows(2).all(|w| w[0].0 <= w[1].0), "{duration}");
    }
    // Extreme settings are no trouble.
    let extreme = SignatureConfig {
        skip_secs: double(f64::MIN),
        window_count: 2,
        window_secs: double(f64::NEG_INFINITY),
        ..Default::default()
    };
    assert_eq!(found(f64::MAX, &extreme).len(), 2);
}

#[test]
fn hamming_identical() {
    let h = TemporalHash { start_ms: 0, end_ms: 6000, bits: HashBits::zero() };
    assert_eq!(h.hamming_distance(&h), 0);
    assert_eq!(f32::from_bits(h.normalized_distance(&h).bits), 0.0);
}

fn timeout(base_secs: f64, factor: f64, min_secs: f64, max_secs: f64) -> FfmpegTimeout {
    FfmpegTimeout {
        base_secs: double(base_secs),
        factor: double(factor),
        min_secs: double(min_secs),
        max_secs: double(max_secs),
    }
}

#[test]
fn ffmpeg_timeout_scales_and_clamps() {
    let t = timeout(10.0, 5.0, 20.0, 120.0);
    let for_duration = |secs: f64| Duration::from_secs_f64(seconds(t.for_duration(double(secs))));
    // Below the floor: 1*5+10 = 15 -> clamped up to min.
    assert_eq!(for_duration(1.0), Duration::from_secs(20));
    // Within range: 6*5+10 = 40.
    assert_eq!(for_duration(6.0), Duration::from_secs(40));
    // Above the ceiling: 100*5+10 = 510 -> clamped down to max.
    assert_eq!(for_duration(100.0), Duration::from_secs(120));
}

#[test]
fn ffmpeg_timeout_handles_inverted_bounds() {
    // max < min should not panic; the floor wins.
    let t = timeout(0.0, 0.0, 30.0, 10.0);
    assert_eq!(Duration::from_secs_f64(seconds(t.for_duration(double(5.0)))), Duration::from_secs(30));
}

#[test]
fn ffmpeg_timeout_defaults() {
    let t = FfmpegTimeout::default();
    assert_eq!(seconds(t.for_duration(double(6.0))), 60.0);
    assert_eq!(seconds(t.for_duration(double(20.0))), 110.0);
    assert_eq!(seconds(t.for_duration(double(1000.0))), 360.0);
    // Nothing is waited for less than nothing.
    let negative = timeout(-5.0, 0.0, -10.0, -20.0);
    assert_eq!(seconds(negative.for_duration(double(1.0))), 0.0);
}

#[test]
fn is_black_frame_detection() {
    let black = vec![0x10u8; 256];
    let bright = vec![0xFFu8; 256];
    assert!(is_black_frame(&black));
    assert!(!is_black_frame(&bright));
}

#[test]
fn black_frames_at_the_limits() {
    assert!(is_black_frame(&[0x20, 0x20, 0x20, 0x20, 0x21]));
    assert!(!is_black_frame(&[0x20, 0x20, 0x20, 0x21, 0x21]));
    assert!(!is_black_frame(&[]));
}

#[test]
fn black_frames_are_replaced_by_neighbours() {
    let values = |frames: &[GrayFrame]| -> Vec<u8> { frames.iter().map(|f| f.pixels[0]).collect() };
    let mut frames: Vec<GrayFrame> =
        [0, 100, 0, 0, 140, 0, 0, 1, 2, 3, 0, 90].iter().map(|v| make_frame(*v)).collect();
    replace_black_frames(&mut frames, 4);
    // Per window: the next bright frame, else the last one before, else the frame itself.
    assert_eq!(values(&frames), vec![100, 100, 100, 100, 140, 140, 140, 140, 90, 90, 90, 90]);
    let mut dark: Vec<GrayFrame> = [5, 6, 7].iter().map(|v| make_frame(*v)).collect();
    replace_black_frames(&mut dark, 3);
    assert_eq!(values(&dark), vec![5, 6, 7]);
    // What is left over after the last whole window stays as it is.
    let mut rest: Vec<GrayFrame> = [0, 200, 0].iter().map(|v| make_frame(*v)).collect();
    replace_black_frames(&mut rest, 2);
    assert_eq!(values(&rest), vec![200, 200, 0]);
}

#[test]
fn windows_are_cut_and_padded() {
    let mut raw = vec![70u8; 256];
    raw.extend_from_slice(&[80u8; 256]);
    raw.extend_from_slice(&[90u8; 255]);
    let frames = window_frames(&raw, 4);
    let values: Vec<u8> = frames.iter().map(|f| f.pixels[255]).collect();
    assert_eq!(values, vec![70, 80, 0, 0]);
    assert!(frames.iter().all(|f| f.width == 16 && f.height == 16 && f.pixels.len() == 256));
    // More than was asked for is left out.
    assert_eq!(window_frames(&raw, 1).len(), 1);
}

#[test]
fn all_windows_have_all_frames() {
    let first = vec![70u8; 256 * 2];
    let third = vec![80u8; 256 * 3];
    let frames = collect_frames(&vec![first, vec![], third], 2);
    let values: Vec<u8> = frames.iter().map(|f| f.pixels[0]).collect();
    assert_eq!(values, vec![70, 70, 0, 0, 80, 80]);
}

#[test]
fn the_middle_window_is_scanned_for_bars() {
    let window = |start: f64| (double(start), double(start + 1.0));
    assert_eq!(prescan_window(&[window(1.0), window(3.0), window(5.0)]), Some(window(3.0)));
    assert_eq!(prescan_window(&[window(1.0), window(3.0)]), Some(window(3.0)));
    assert_eq!(prescan_window(&[window(1.0)]), Some(window(1.0)));
    assert_eq!(prescan_window(&[]), None);
    assert!(collect_frames(&Vec::new(), 16).is_empty());
}

#[test]
fn a_killed_process_fails_for_that_reason() {
    let read = || Ok(vec![1u8, 2]);
    assert_eq!(settle(None, read(), 60), Ok(vec![1, 2]));
    assert_eq!(settle(Some(KillReason::Stopped), read(), 60), Err(FrameExtractError::Stopped));
    assert_eq!(
        settle(Some(KillReason::TimedOut), read(), 61),
        Err(FrameExtractError::TimedOut { seconds: 61 })
    );
    let failed = finished(false, vec![1], "bad".to_string());
    assert_eq!(failed, Err(FrameExtractError::FfmpegFailed("bad".to_string())));
    assert_eq!(settle(None, failed, 0), Err(FrameExtractError::FfmpegFailed("bad".to_string())));
    assert_eq!(finished(true, vec![1], "warning".to_string()), Ok(vec![1]));
    assert_eq!(spawn_error(true, "x".to_string()), FrameExtractError::FfmpegNotFound);
    assert_eq!(spawn_error(false, "x".to_string()), FrameExtractError::Io("x".to_string()));
}

#[test]
fn extraction_errors_have_messages() {
    let cases = [
        (FrameExtractError::FfmpegNotFound, "ffmpeg not found in PATH"),
        (FrameExtractError::FfmpegFailed("x".to_string()), "ffmpeg failed: x"),
        (FrameExtractError::Io("y".to_string()), "IO error: y"),
        (
            FrameExtractError::InsufficientFrames { window: 3, got: 10 },
            "Not enough valid frames in window 3 (got 10)",
        ),
        (FrameExtractError::Stopped, "Extraction stopped"),
        (
            FrameExtractError::TimedOut { seconds: 60 },
            "ffmpeg timed out after 60s - file likely corrupt or stuck",
        ),
    ];
    for (error, message) in cases {
        assert_eq!(error.message(), message);
        assert_eq!(
            SignatureError::FrameExtract(error).message(),
            format!("Frame extraction error: {message}")
        );
    }
    assert_eq!(
        SignatureError::NotEnoughFrames { got: 7, need: 16 }.message(),
        "Not enough frames extracted (got 7, need 16)"
    );
    assert_eq!(
        SignatureError::Metadata(similario::metadata::MetadataError::FfprobeNotFound).message(),
        "Metadata error: ffprobe not found in PATH"
    );
}

#[test]
fn processes_are_killed_for_a_reason() {
    assert_eq!(kill_reason(false, 100, 99), None);
    assert_eq!(kill_reason(false, 100, 100), Some(KillReason::TimedOut));
    assert_eq!(kill_reason(true, 100, 0), Some(KillReason::Stopped));
    assert_eq!(kill_reason(true, 100, 200), Some(KillReason::Stopped));
}

#[test]
fn processes_are_watched_independently() {
    let mut registry = Registry::new();
    registry.watch(1, 0, 30_000);
    registry.watch(2, 0, 200);
    registry.watch(3, 0, 30_000);
    registry.watch(4, u64::MAX, 30_000);
    registry.unwatch(3);
    assert_eq!(registry.sweep(&[false, false, false], 100), vec![]);
    assert_eq!(registry.sweep(&[false, false, false], 600), vec![(2, KillReason::TimedOut)]);
    assert_eq!(
        registry.watches,
        vec![Watch { id: 1, deadline: 30_000 }, Watch { id: 4, deadline: u64::MAX }]
    );
    assert_eq!(registry.sweep(&[true, false], 700), vec![(1, KillReason::Stopped)]);
    assert_eq!(registry.watches.len(), 1);
}

#[test]
fn times_are_cut_to_milliseconds_as_doubles() {
    let metadata = |secs: f64| VideoMetadata {
        duration_secs: double(secs),
        fps: None,
        codec: None,
        bitrate_bps: None,
        width: None,
        height: None,
    };
    let ms = |secs: f64| VideoSignature::assemble(PathBuf::new(), metadata(secs), &[], vec![], None).duration_ms;
    assert_eq!(ms(1.001), 1_000);
    assert_eq!(ms(1.002), 1_002);
    for secs in [0.0, -0.000_005, 1e30, f64::INFINITY, f64::NEG_INFINITY, f64::NAN, 1e-320] {
        assert_eq!(ms(secs), (secs * 1000.0) as u64, "{secs}");
    }
    let mut state: u64 = 7;
    for i in 0..1_000_u32 {
        state = state.wrapping_mul(6_364_136_223_846_793_005).wrapping_add(1_442_695_040_888_963_407);
        for secs in [f64::from(i) / 1000.0, (state >> 20) as f64 / 1e9, f64::from_bits(state)] {
            assert_eq!(ms(secs), (secs * 1000.0) as u64, "{secs}");
        }
    }
}

#[test]
fn only_the_corner_of_the_first_frames_counts() {
    let noisy = |width: u32, height: u32, seed: u32, beyond: u8| {
        let mut pixels = Vec::new();
        for y in 0..height {
            for x in 0..width {
                let inside = x < 16 && y < 16;
                pixels.push(if inside { (seed * 31 + x * 17 + y * 57) as u8 } else { beyond });
            }
        }
        GrayFrame { width, height, pixels }
    };
    let a: Vec<GrayFrame> = (0..16).map(|i| noisy(16, 16, i, 0)).collect();
    let mut b: Vec<GrayFrame> = (0..16).map(|i| noisy(20, 17, i, 200)).collect();
    b.push(noisy(16, 16, 99, 0));
    assert_eq!(center_frames(&a), center_frames(&b));
    let (x, y) = (compute_hash_from_frames(&a), compute_hash_from_frames(&b));
    assert_eq!(x.distance(&y), 0);
    let bytes = x.to_bytes();
    assert!((1000..1024).all(|i: usize| bytes[i / 8] >> (i % 8) & 1 == 0));
    let mut c = b.clone();
    c[3] = noisy(16, 16, 50, 0);
    assert_ne!(center_frames(&a), center_frames(&c));
}

#[test]
fn signatures_are_put_together() {
    let metadata = VideoMetadata {
        duration_secs: double(61.234_999),
        fps: None,
        codec: None,
        bitrate_bps: None,
        width: Some(640),
        height: Some(480),
    };
    let mut bits = HashBits::zero();
    bits.set(5, true);
    let signature = VideoSignature::assemble(
        PathBuf::from("/a.mp4"),
        metadata.clone(),
        &[(double(-0.000_001), double(1.999_999)), (double(2.0), double(8.000_999))],
        vec![HashBits::zero(), bits],
        Some(vec![1, 2]),
    );
    assert_eq!(signature.path, PathBuf::from("/a.mp4"));
    assert_eq!(signature.duration_ms, 61_234);
    assert_eq!(signature.aspect_ratio, single(640.0 / 480.0));
    assert_eq!(signature.visual_hashes.len(), 2);
    assert_eq!((signature.visual_hashes[0].start_ms, signature.visual_hashes[0].end_ms), (0, 1_999));
    assert_eq!((signature.visual_hashes[1].start_ms, signature.visual_hashes[1].end_ms), (2_000, 8_000));
    assert_eq!(signature.visual_hashes[0].hamming_distance(&signature.visual_hashes[1]), 1);
    assert_eq!(signature.audio_fingerprint, Some(vec![1, 2]));
    let unknown = VideoMetadata { width: None, ..metadata };
    let signature = VideoSignature::assemble(PathBuf::from("/b.mp4"), unknown, &[], vec![], None);
    assert_eq!(signature.aspect_ratio, single(16.0 / 9.0));
}

#[test]
fn only_usable_fingerprints_are_kept() {
    assert_eq!(usable_fingerprint(true, Ok(Some(vec![1]))), Some(vec![1]));
    assert_eq!(usable_fingerprint(false, Ok(Some(vec![1]))), None);
    assert_eq!(usable_fingerprint(true, Ok(Some(vec![]))), None);
    assert_eq!(usable_fingerprint(true, Ok(None)), None);
    assert_eq!(usable_fingerprint(true, Err("no audio track".to_string())), None);
}

#[test]
fn hashes_read_back_from_their_bytes() {
    let mut hash = HashBits::zero();
    for i in [0, 7, 8, 500, 999, 1023] {
        hash.set(i, true);
    }
    let bytes = hash.to_bytes();
    assert_eq!(bytes.len(), 128);
    assert_eq!((bytes[0], bytes[1], bytes[127]), (0x81, 0x01, 0x80));
    let back = HashBits::from_bytes(&bytes).unwrap();
    assert_eq!(back.distance(&hash), 0);
    assert_eq!(back.distance(&HashBits::zero()), 6);
    assert_eq!(hash.clone().to_bytes(), bytes);
    assert!(HashBits::from_bytes(&bytes[1..]).is_none());
    assert!(HashBits::from_bytes(&[0; 129]).is_none());
}

#[test]
fn distances_are_symmetric_and_keep_the_triangle() {
    let hashes: Vec<HashBits> = (0..4usize)
        .map(|k| {
            let mut h = HashBits::zero();
            for i in 0..1000 {
                h.set(i, (i * (k + 3)) % 7 < 3);
            }
            h
        })
        .collect();
    for a in &hashes {
        for b in &hashes {
            assert_eq!(a.distance(b), b.distance(a));
            for c in &hashes {
                assert!(a.distance(c) <= a.distance(b) + b.distance(c));
            }
        }
    }
}

#[test]
fn frames_need_all_their_pixels() {
    assert!(GrayFrame::from_raw(2, 3, vec![0; 6]).is_some());
    assert!(GrayFrame::from_raw(2, 3, vec![0; 5]).is_none());
    let mut frame = GrayFrame::from_pixel(3, 2, 9);
    frame.put_pixel(2, 1, 4);
    assert_eq!(frame.get_pixel(2, 1), 4);
    assert_eq!(frame.pixels, vec![9, 9, 9, 9, 9, 4]);
}
