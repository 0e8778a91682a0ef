use similario::audio::fingerprint::{
    first_audio_track, settle_fingerprint, AudioEvent, AudioStep, FingerprintRun,
};
use similario::audio::{best_score, segments_of};
use similario::double::Double;
use similario::single::Single;

fn double(value: f64) -> Double {
    Double { bits: value.to_bits() }
}

fn single(value: f32) -> Single {
    Single { bits: value.to_bits() }
}

fn tone(n: usize, amplitude: i32) -> Vec<i16> {
    (0..n).map(|i| ((i as i32 * 37) % 201 - 100) * amplitude / 100).map(|v| v as i16).collect()
}

fn decoded(samples: Vec<i16>) -> AudioEvent {
    AudioEvent::Decoded { rate: 11_025, channels: 1, samples }
}

fn done(step: AudioStep) -> Result<Option<Vec<u32>>, String> {
    match step {
        AudioStep::Continue => panic!("the run goes on"),
        AudioStep::Done(result) => result,
    }
}

#[test]
fn a_track_has_a_fingerprint() {
    let mut run = FingerprintRun::new();
    assert_eq!(run.channels(), None);
    let samples = tone(110_250, 10_000);
    for packet in samples.chunks(4096) {
        assert!(matches!(run.step(decoded(packet.to_vec())), AudioStep::Continue));
        assert!(matches!(run.step(AudioEvent::OtherTrack), AudioStep::Continue));
        assert!(matches!(run.step(AudioEvent::Undecodable), AudioStep::Continue));
    }
    assert_eq!(run.channels(), Some(1));
    assert_eq!(run.total(), 110_250);
    let found = done(run.step(AudioEvent::End)).unwrap().unwrap();
    // What the fingerprinter itself makes of the samples.
    let config = rusty_chromaprint::Configuration::preset_test1();
    let mut printer = rusty_chromaprint::Fingerprinter::new(&config);
    printer.start(11_025, 1).unwrap();
    printer.consume(&samples);
    printer.finish();
    assert_eq!(found, printer.fingerprint().to_vec());
    assert!(!found.is_empty());
}

#[test]
fn silence_has_no_items() {
    let mut run = FingerprintRun::new();
    run.step(decoded(vec![0; 60_000]));
    assert_eq!(done(run.step(AudioEvent::End)), Ok(Some(vec![])));
    // Soft noise is silence too, as long as no sample stands out.
    let mut soft = FingerprintRun::new();
    soft.step(decoded(vec![32; 60_000]));
    assert_eq!(done(soft.step(AudioEvent::Broken)), Ok(Some(vec![])));
    let mut peak = vec![0; 60_000];
    peak[30_000] = -328;
    let mut click = FingerprintRun::new();
    click.step(decoded(peak));
    assert!(!done(click.step(AudioEvent::End)).unwrap().unwrap().is_empty());
    let mut hum = FingerprintRun::new();
    hum.step(decoded(vec![33; 60_000]));
    assert!(!done(hum.step(AudioEvent::End)).unwrap().unwrap().is_empty());
}

#[test]
fn a_track_without_samples_is_an_error() {
    let mut run = FingerprintRun::new();
    run.step(AudioEvent::Undecodable);
    assert_eq!(done(run.step(AudioEvent::End)), Err("no audio frames decoded".to_string()));
    // A packet without samples is a packet.
    let mut empty = FingerprintRun::new();
    empty.step(decoded(vec![]));
    assert_eq!(done(empty.step(AudioEvent::End)), Ok(Some(vec![])));
}

#[test]
fn a_stopped_run_has_no_fingerprint() {
    let mut run = FingerprintRun::new();
    run.step(decoded(tone(1000, 10_000)));
    assert_eq!(done(run.step(AudioEvent::Stopped)), Ok(None));
}

#[test]
fn a_track_that_cannot_be_printed_is_an_error() {
    let failed = Err("fingerprinter init failed".to_string());
    let mut slow = FingerprintRun::new();
    assert_eq!(
        done(slow.step(AudioEvent::Decoded { rate: 1000, channels: 1, samples: vec![1] })),
        failed.clone()
    );
    let mut mute = FingerprintRun::new();
    assert_eq!(
        done(mute.step(AudioEvent::Decoded { rate: 44_100, channels: 0, samples: vec![] })),
        failed
    );
    let mut fine = FingerprintRun::new();
    let step = fine.step(AudioEvent::Decoded { rate: 1001, channels: 2, samples: vec![1, 2] });
    assert!(matches!(step, AudioStep::Continue));
    assert_eq!(fine.channels(), Some(2));
}

#[test]
fn fingerprints_are_settled() {
    assert_eq!(settle_fingerprint(true, false, vec![1, 2]), Ok(Some(vec![1, 2])));
    assert_eq!(settle_fingerprint(true, true, vec![1, 2]), Ok(Some(vec![])));
    assert_eq!(
        settle_fingerprint(false, true, vec![1]),
        Err("no audio frames decoded".to_string())
    );
}

#[test]
fn the_first_audio_track_is_taken() {
    assert_eq!(first_audio_track(&[false, true, true]), Some(1));
    assert_eq!(first_audio_track(&[false]), None);
    assert_eq!(first_audio_track(&[]), None);
}

#[test]
fn the_best_score_is_the_least() {
    let segments = [(100, double(0.005)), (100, double(0.002)), (10, double(1e-9)), (100, double(9.0))];
    let best = |from: usize| best_score(&segments[from..], single(5.0), double(3.0));
    assert_eq!(best(0), Some(double(0.002)));
    assert_eq!(best(2), None);
    assert_eq!(best_score(&[], single(0.0), double(0.0)), None);
    // What is not a number does not count.
    assert_eq!(best_score(&[(100, double(f64::NAN))], single(5.0), double(3.0)), None);
    assert_eq!(best_score(&segments, single(f32::NAN), double(3.0)), None);
}

#[test]
fn segments_last_as_long_as_their_items() {
    // The limit is a duration itself, and is not exceeded by it.
    for items in [1, 7, 40, 41, 1000, 524_285] {
        let lasts = 1365.0_f32 / 11025.0 * items as f32;
        assert_eq!(best_score(&[(items, double(1.0))], single(lasts), double(3.0)), None);
        let below = f32::from_bits(lasts.to_bits() - 1);
        assert_eq!(best_score(&[(items, double(1.0))], single(below), double(3.0)), Some(double(1.0)));
    }
}

#[test]
fn equal_fingerprints_have_a_segment() {
    let items: Vec<u32> = (0..200u32).map(|i| i.wrapping_mul(2_654_435_761)).collect();
    let segments = segments_of(&items, &items).unwrap();
    let config = rusty_chromaprint::Configuration::preset_test1();
    let found = rusty_chromaprint::match_fingerprints(&items, &items, &config).unwrap();
    let expected: Vec<(u64, Double)> =
        found.iter().map(|s| (s.items_count as u64, double(s.score))).collect();
    assert_eq!(segments, expected);
    assert!(segments.iter().any(|(n, score)| *n > 100 && f64::from_bits(score.bits) < 1.0));
    assert!(segments_of(&items, &vec![0; 524_286]).is_none());
}
