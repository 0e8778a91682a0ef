use similario::cache::{
    cache_dir, cache_key, cache_path, frame_entry, is_stale, stale_cutoff, temporary_path, unframe_entry,
    CACHE_VERSION,
};
use similario::double::Double;
use similario::entry::{decode_signature, encode_signature};
use similario::metadata::VideoMetadata;
use similario::single::Single;
use similario::visual::config::{FfmpegTimeout, SignatureConfig};
use similario::visual::hash::HashBits;
use similario::visual::{TemporalHash, VideoSignature};
use std::collections::HashMap;
use std::path::PathBuf;

fn double(value: f64) -> Double {
    Double { bits: value.to_bits() }
}

fn single(value: f32) -> Single {
    Single { bits: value.to_bits() }
}

fn path(text: &str) -> PathBuf {
    PathBuf::from(text)
}

#[test]
fn cache_key_changes_with_size() {
    let cfg = SignatureConfig::default();
    let k1 = cache_key(&path("/a/b.mp4"), 100, 0, &cfg);
    let k2 = cache_key(&path("/a/b.mp4"), 200, 0, &cfg);
    assert_ne!(k1, k2);
}

#[test]
fn cache_key_changes_with_mtime() {
    let cfg = SignatureConfig::default();
    let k1 = cache_key(&path("/a/b.mp4"), 100, 1000, &cfg);
    let k2 = cache_key(&path("/a/b.mp4"), 100, 2000, &cfg);
    assert_ne!(k1, k2);
}

#[test]
fn cache_key_changes_with_config() {
    let cfg1 = SignatureConfig::default();
    let cfg2 = SignatureConfig { window_count: 10, ..SignatureConfig::default() };
    let k1 = cache_key(&path("/a/b.mp4"), 100, 1000, &cfg1);
    let k2 = cache_key(&path("/a/b.mp4"), 100, 1000, &cfg2);
    assert_ne!(k1, k2, "different window_count should produce different keys");

    let cfg3 = SignatureConfig { skip_secs: double(0.0), ..SignatureConfig::default() };
    let k3 = cache_key(&path("/a/b.mp4"), 100, 1000, &cfg3);
    assert_ne!(k1, k3, "different skip_secs should produce different keys");
}

#[test]
fn cache_key_is_the_hash_of_its_parts() {
    let config = SignatureConfig {
        skip_secs: double(12.3),
        window_count: 7,
        window_secs: double(4.5),
        cropdetect: true,
        audio_fingerprint: false,
        ..SignatureConfig::default()
    };
    let mut hasher = blake3::Hasher::new();
    hasher.update("/a/ü.mp4".as_bytes());
    hasher.update(&100u64.to_le_bytes());
    hasher.update(&1000u64.to_le_bytes());
    hasher.update(&[CACHE_VERSION]);
    hasher.update(&12.3f64.to_le_bytes());
    hasher.update(&7usize.to_le_bytes());
    hasher.update(&4.5f64.to_le_bytes());
    hasher.update(&[1]);
    hasher.update(&[0]);
    let key = cache_key(&path("/a/ü.mp4"), 100, 1000, &config);
    assert_eq!(key, hasher.finalize().to_hex().to_string());
    assert_eq!(key.len(), 64);
    // Every setting that affects a signature changes the key, and the timeouts do not.
    let others = [
        SignatureConfig { window_secs: double(4.500_000_000_1), ..config },
        SignatureConfig { cropdetect: false, ..config },
        SignatureConfig { audio_fingerprint: true, ..config },
    ];
    for other in others {
        assert_ne!(cache_key(&path("/a/ü.mp4"), 100, 1000, &other), key);
    }
    let timeout = FfmpegTimeout { max_secs: double(1.0), ..FfmpegTimeout::default() };
    let slow = SignatureConfig { ffmpeg_timeout: timeout, ..config };
    assert_eq!(cache_key(&path("/a/ü.mp4"), 100, 1000, &slow), key);
}

fn dummy_signature(path: &str) -> VideoSignature {
    VideoSignature {
        path: PathBuf::from(path),
        duration_ms: 60_000,
        aspect_ratio: single(1.777),
        visual_hashes: vec![],
        audio_fingerprint: None,
        metadata: None,
    }
}

#[test]
fn save_and_load_roundtrip() {
    let bytes = frame_entry(&encode_signature(&dummy_signature("/tmp/fake video content")).unwrap());
    assert_eq!(bytes[0], CACHE_VERSION);
    let signature = decode_signature(&unframe_entry(&bytes).unwrap()).unwrap();
    assert_eq!(signature.path, PathBuf::from("/tmp/fake video content"));
    assert_eq!(signature.duration_ms, 60_000);
    assert!((f32::from_bits(signature.aspect_ratio.bits) - 1.777).abs() < 0.001);
    assert!(signature.visual_hashes.is_empty());
    assert!(signature.audio_fingerprint.is_none() && signature.metadata.is_none());
}

#[test]
fn signatures_are_laid_out_and_read() {
    let mut bits = HashBits::zero();
    bits.set(3, true);
    bits.set(999, true);
    let full = VideoSignature {
        visual_hashes: vec![
            TemporalHash { start_ms: 1, end_ms: 2, bits: HashBits::zero() },
            TemporalHash { start_ms: 3, end_ms: u64::MAX, bits },
        ],
        audio_fingerprint: Some(vec![7, u32::MAX]),
        metadata: Some(VideoMetadata {
            duration_secs: double(3_725.900_001),
            fps: Some(double(30_000.0 / 1001.0)),
            codec: Some("h264 é".to_string()),
            bitrate_bps: Some(5_000_000),
            width: Some(1920),
            height: None,
        }),
        ..dummy_signature("/v/é//x.mp4")
    };
    let payload = encode_signature(&full).unwrap();
    let hash = |list: &[usize]| {
        let mut bytes = vec![0u8; 128];
        for i in list {
            bytes[i / 8] |= 1 << (i % 8);
        }
        bytes
    };
    let expected = bincode::serialize(&(
        PathBuf::from("/v/é//x.mp4"),
        60_000u64,
        1.777f32,
        vec![(1u64, 2u64, hash(&[])), (3, u64::MAX, hash(&[3, 999]))],
        Some(vec![7, u32::MAX]),
        Some((
            3_725.900_001f64,
            Some(30_000.0f64 / 1001.0),
            Some("h264 é"),
            Some(5_000_000u64),
            Some(1920u32),
            None::<u32>,
        )),
    ));
    assert_eq!(payload, expected.unwrap());
    let back = decode_signature(&payload).unwrap();
    assert_eq!((back.duration_ms, back.aspect_ratio), (60_000, single(1.777)));
    assert_eq!(back.audio_fingerprint, full.audio_fingerprint);
    assert_eq!(format!("{:?}", back.metadata), format!("{:?}", full.metadata));
    for (a, b) in back.visual_hashes.iter().zip(&full.visual_hashes) {
        assert_eq!((a.start_ms, a.end_ms, a.hamming_distance(b)), (b.start_ms, b.end_ms, 0));
    }
    assert_eq!(back.path.to_str(), Some("/v/é//x.mp4"));
    assert_eq!(encode_signature(&back).unwrap(), payload);
    assert!(decode_signature(&payload[..payload.len() - 1]).is_none());
    assert!(decode_signature(b"").is_none());
    let short = bincode::serialize(&(
        "/a",
        1u64,
        1.0f32,
        vec![(1u64, 2u64, vec![0u8; 127])],
        None::<Vec<u32>>,
        None::<u8>,
    ));
    assert!(decode_signature(&short.unwrap()).is_none());
}

#[test]
fn numbers_are_read_back_bit_by_bit() {
    let ratios = [1.0 / 3.0, 16.000_002, 1234.567, f32::MAX, f32::MIN_POSITIVE, 1e-42, f32::INFINITY, -0.0];
    let times = [1e-7, 0.1, 1e300, f64::MIN_POSITIVE, 5e-324, f64::INFINITY, -0.0, 1.0 / 3.0];
    for (ratio, time) in ratios.iter().zip(&times) {
        let signature = VideoSignature {
            aspect_ratio: single(*ratio),
            metadata: Some(VideoMetadata {
                duration_secs: double(*time),
                fps: Some(double(time / 7.0)),
                codec: None,
                bitrate_bps: None,
                width: None,
                height: None,
            }),
            ..dummy_signature("/a.mp4")
        };
        let back = decode_signature(&encode_signature(&signature).unwrap()).unwrap();
        assert_eq!(back.aspect_ratio, signature.aspect_ratio);
        let metadata = back.metadata.unwrap();
        assert_eq!(metadata.duration_secs, double(*time));
        assert_eq!(metadata.fps, Some(double(time / 7.0)));
    }
}

#[test]
fn the_cache_has_its_place() {
    let set = Some(path("/x/cache"));
    let home = Some(path("/home/me"));
    assert_eq!(cache_dir(set.clone(), home.clone()), path("/x/cache/similario/signatures"));
    assert_eq!(cache_dir(set, None), path("/x/cache/similario/signatures"));
    assert_eq!(cache_dir(None, home), path("/home/me/.cache/similario/signatures"));
    assert_eq!(cache_dir(None, None), path(".similario_cache/similario/signatures"));
    let dir = path("/x");
    assert_eq!(cache_path(&dir, "0123abc"), path("/x/0123abc.bin"));
    assert_eq!(temporary_path(&dir, "0123abc"), path("/x/0123abc.bin").with_extension("tmp"));
}

#[test]
fn entries_are_read_back() {
    // A payload as it is stored: a duration, an aspect ratio and no hashes.
    let payload = bincode::serialize(&(60_000u64, 1.777f32, Vec::<u8>::new())).unwrap();
    let bytes = frame_entry(&payload);
    assert_eq!(bytes[0], CACHE_VERSION);
    // The version is stored as the first field of a record would be.
    let whole = bincode::serialize(&(CACHE_VERSION, (60_000u64, 1.777f32, Vec::<u8>::new()))).unwrap();
    assert_eq!(bytes, whole);
    let back = unframe_entry(&bytes).unwrap();
    let (duration, ratio, hashes): (u64, f32, Vec<u8>) = bincode::deserialize(&back).unwrap();
    assert_eq!(duration, 60_000);
    assert!((ratio - 1.777).abs() < 0.001);
    assert!(hashes.is_empty());
    assert_eq!(unframe_entry(&frame_entry(&[])), Some(vec![]));
}

#[test]
fn saved_entries_are_loaded() {
    let dir = path("/cache");
    let config = SignatureConfig::default();
    let patient = SignatureConfig { ffmpeg_timeout: FfmpegTimeout { factor: double(9.0), ..config.ffmpeg_timeout }, ..config };
    let other = SignatureConfig { window_count: 9, ..config };
    let mut files: HashMap<PathBuf, Vec<u8>> = HashMap::new();
    let entry = |video: &str, config: &SignatureConfig| {
        cache_path(&dir, &cache_key(&path(video), 10, 20, config))
    };
    files.insert(entry("/a.mp4", &config), frame_entry(b"first"));
    files.insert(entry("/b.mp4", &config), frame_entry(b"second"));
    let load = |video: &str, config: &SignatureConfig| {
        files.get(&entry(video, config)).and_then(|bytes| unframe_entry(bytes))
    };
    assert_eq!(load("/a.mp4", &config), Some(b"first".to_vec()));
    assert_eq!(load("/a.mp4", &patient), Some(b"first".to_vec()));
    assert_eq!(load("/b.mp4", &patient), Some(b"second".to_vec()));
    assert_eq!(load("/a.mp4", &other), None);
    assert_eq!(load("/c.mp4", &config), None);
}

#[test]
fn entries_of_other_versions_are_ignored() {
    assert_eq!(unframe_entry(&[CACHE_VERSION + 1, 1, 2]), None);
    assert_eq!(unframe_entry(&[0]), None);
    assert_eq!(unframe_entry(&[]), None);
}

#[test]
fn old_entries_are_removed() {
    let day: i128 = 86_400_000_000_000;
    let cutoff = stale_cutoff(100 * day, 30);
    assert_eq!(cutoff, 70 * day);
    assert!(is_stale(Some("bin"), Some(70 * day - 1), cutoff));
    assert!(!is_stale(Some("bin"), Some(70 * day), cutoff));
    assert!(!is_stale(Some("tmp"), Some(0), cutoff));
    assert!(!is_stale(Some("BIN"), Some(0), cutoff));
    assert!(!is_stale(None, Some(0), cutoff));
    assert!(!is_stale(Some("bin"), None, cutoff));
    // Before 1970 there is still time, but not without end.
    assert_eq!(stale_cutoff(100 * day, 200), -100 * day);
    assert_eq!(stale_cutoff(100 * day, u64::MAX), 0);
}
