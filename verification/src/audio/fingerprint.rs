//! Computing the fingerprint of an audio track from its decoded samples.
//!
//! The samples of the first track go into a Chromaprint fingerprinter, one decoded packet after
//! the other. A track that is silent has an empty fingerprint.

use rusty_chromaprint::{Fingerprinter, ResetError};
use crate::tally;
use vstd::prelude::*;

verus! {

// ---- The fingerprinter ----

/// `rusty_chromaprint::Fingerprinter`, which collects samples.
#[verifier::external_type_specification]
#[verifier::external_body]
pub struct ExFingerprinter(rusty_chromaprint::Fingerprinter);

/// `rusty_chromaprint::ResetError`, which says why a fingerprinter cannot be started.
#[verifier::external_type_specification]
#[verifier::external_body]
pub struct ExResetError(rusty_chromaprint::ResetError);

/// The samples that a fingerprinter holds: those that it was given since it was started.
pub uninterp spec fn heard(printer: Fingerprinter) -> Seq<i16>;

/// The items of the fingerprint that a fingerprinter holds. They come out of transforms in floating
/// point, whose last digits depend on the machine, so nothing is said of how they depend on the
/// samples.
pub uninterp spec fn print_of(printer: Fingerprinter) -> Seq<u32>;

/// The number of channels that a fingerprinter was started with.
pub uninterp spec fn channel_count(printer: Fingerprinter) -> nat;

/// The samples a second that a fingerprinter was started with.
pub uninterp spec fn sample_rate(printer: Fingerprinter) -> nat;

/// Whether a fingerprinter was finished, and given nothing since.
pub uninterp spec fn is_finished(printer: Fingerprinter) -> bool;

/// Whether a fingerprinter can be started: there is a channel, and more than 1000 samples a
/// second.
pub open spec fn can_start(rate: u32, channels: u32) -> bool {
    channels > 0 && rate > 1000
}

/// `Fingerprinter::new`, with the configuration `preset_test1`: a fingerprinter without samples.
#[verifier::external_body]
fn new_printer() -> (printer: Fingerprinter)
    ensures
        heard(printer) == Seq::<i16>::empty(),
{
    Fingerprinter::new(&rusty_chromaprint::Configuration::preset_test1())
}

/// `Fingerprinter::start`, of a printer that has heard nothing: sets the sample rate and the number
/// of channels of the samples to come. It fails exactly where there is no channel or the rate is
/// 1000 or less, and then leaves the printer as it was.
#[verifier::external_body]
fn start_printer(printer: &mut Fingerprinter, rate: u32, channels: u32) -> (started: Result<
    (),
    ResetError,
>)
    requires
        heard(*old(printer)) == Seq::<i16>::empty(),
    ensures
        started is Ok == can_start(rate, channels),
        started is Ok ==> heard(*final(printer)) == Seq::<i16>::empty(),
        started is Ok ==> sample_rate(*final(printer)) == rate,
        started is Ok ==> channel_count(*final(printer)) == channels,
        started is Ok ==> !is_finished(*final(printer)),
        started is Err ==> heard(*final(printer)) == heard(*old(printer)),
{
    printer.start(rate, channels)
}

/// `Fingerprinter::consume`: adds interleaved samples. It panics unless they are whole frames of
/// the channels that the fingerprinter was started with, whose sum it takes in 32 bits.
#[verifier::external_body]
fn consume_samples(printer: &mut Fingerprinter, samples: &[i16])
    requires
        0 < channel_count(*old(printer)) <= 65_535,
        samples@.len() % channel_count(*old(printer)) == 0,
    ensures
        heard(*final(printer)) == heard(*old(printer)) + samples@,
        sample_rate(*final(printer)) == sample_rate(*old(printer)),
        channel_count(*final(printer)) == channel_count(*old(printer)),
        !is_finished(*final(printer)),
{
    printer.consume(samples);
}

/// `Fingerprinter::finish`: works off the samples that are still buffered, and adds none.
#[verifier::external_body]
fn finish_printer(printer: &mut Fingerprinter)
    ensures
        is_finished(*final(printer)),
        heard(*final(printer)) == heard(*old(printer)),
        sample_rate(*final(printer)) == sample_rate(*old(printer)),
        channel_count(*final(printer)) == channel_count(*old(printer)),
{
    printer.finish();
}

/// `Fingerprinter::fingerprint`: the items of the fingerprint.
#[verifier::external_body]
fn printed(printer: &Fingerprinter) -> (fingerprint: Vec<u32>)
    ensures
        fingerprint@ == print_of(*printer),
{
    printer.fingerprint().to_vec()
}

// ---- Loudness ----

/// The sum of the squares of samples.
pub open spec fn energy(samples: Seq<i16>) -> nat
    decreases samples.len(),
{
    if samples.len() == 0 {
        0
    } else {
        energy(samples.drop_last()) + (samples.last() * samples.last()) as nat
    }
}

/// How far a sample is from zero.
pub open spec fn amplitude(sample: i16) -> int {
    if sample < 0 {
        -sample
    } else {
        sample as int
    }
}

/// The largest amplitude.
pub open spec fn peak(samples: Seq<i16>) -> int
    decreases samples.len(),
{
    if samples.len() == 0 {
        0
    } else if amplitude(samples.last()) > peak(samples.drop_last()) {
        amplitude(samples.last())
    } else {
        peak(samples.drop_last())
    }
}

/// Whether samples are silent: the root of their mean square is below a thousandth of the full
/// amplitude, 32767, and their peak below a hundredth of it. There is silence where there are no
/// samples.
pub open spec fn is_silent(samples: Seq<i16>) -> bool {
    &&& samples.len() > 0 ==> energy(samples) * 1_000_000 < samples.len() * 1_073_676_289
    &&& peak(samples) * 100 < 32767
}

/// The loudness of the samples so far.
#[derive(Debug, Clone, Copy, PartialEq, Eq)]
pub struct AudioLevel {
    pub total: u64,
    pub energy: u128,
    pub peak: u16,
}

impl AudioLevel {
    /// Whether this is the loudness of the given samples.
    pub open spec fn measures(self, samples: Seq<i16>) -> bool {
        &&& self.total == samples.len()
        &&& self.energy == energy(samples)
        &&& self.peak == peak(samples)
        &&& self.energy <= self.total * 0x4000_0000
    }

    /// The loudness of no samples.
    pub fn new() -> (level: Self)
        ensures
            level.measures(Seq::empty()),
    {
        AudioLevel { total: 0, energy: 0, peak: 0 }
    }

    /// The loudness with more samples.
    fn extend(&self, Ghost(before): Ghost<Seq<i16>>, samples: &[i16]) -> (level: Self)
        requires
            self.measures(before),
            before.len() + samples@.len() <= u64::MAX,
        ensures
            level.measures(before + samples@),
    {
        let mut level = *self;
        let mut i: usize = 0;
        assert(before + samples@.take(0) =~= before);
        while i < samples.len()
            invariant
                i <= samples@.len(),
                before.len() + samples@.len() <= u64::MAX,
                level.measures(before + samples@.take(i as int)),
            decreases samples@.len() - i,
        {
            let s: i16 = samples[i];
            let ghost more = before + samples@.take(i + 1);
            proof {
                assert(more.drop_last() =~= before + samples@.take(i as int));
                assert(more.last() == s);
                assert(0 <= s * s <= 0x4000_0000) by (nonlinear_arith)
                    requires
                        -32768 <= s <= 32767,
                ;
            }
            let a: u16 = if s < 0 {
                (-(s as i32)) as u16
            } else {
                s as u16
            };
            level.total = level.total + 1;
            level.energy = level.energy + (s as i64 * s as i64) as u128;
            if a > level.peak {
                level.peak = a;
            }
            i = i + 1;
        }
        assert(samples@.take(i as int) =~= samples@);
        level
    }

    /// Whether the samples are silent.
    fn silent(&self, Ghost(samples): Ghost<Seq<i16>>) -> (silent: bool)
        requires
            self.measures(samples),
        ensures
            silent == is_silent(samples),
    {
        (self.total == 0 || self.energy * 1_000_000 < self.total as u128 * 1_073_676_289)
            && self.peak as u32 * 100 < 32767
    }
}

// ---- A run over a track ----

/// What reading the next packet of a file came to.
#[derive(Debug, Clone)]
pub enum AudioEvent {
    /// The scan was stopped.
    Stopped,
    /// There is no further packet, or none can be read.
    End,
    /// The packet belongs to another track.
    OtherTrack,
    /// The packet could not be decoded, but further ones may.
    Undecodable,
    /// The decoder cannot go on.
    Broken,
    /// The packet holds interleaved samples.
    Decoded { rate: u32, channels: u32, samples: Vec<i16> },
}

/// How a run goes on.
#[derive(Debug)]
pub enum AudioStep {
    /// Read the next packet.
    Continue,
    /// The run is over: there is a fingerprint, or none because it was stopped, or an error.
    Done(Result<Option<Vec<u32>>, String>),
}

/// The run of a fingerprinter over a track.
pub struct FingerprintRun {
    printer: Fingerprinter,
    rate: u32,
    channels: u32,
    started: bool,
    level: AudioLevel,
}

/// What comes of a run that has read all packets, and of the fingerprint that was computed: an
/// error if no packet was decoded, no items if all was silent, and the fingerprint otherwise.
pub fn settle_fingerprint(started: bool, silent: bool, fingerprint: Vec<u32>) -> (result: Result<
    Option<Vec<u32>>,
    String,
>)
    ensures
        match result {
            Err(message) => !started && message@ == "no audio frames decoded"@,
            Ok(Some(items)) => started && items@ == if silent {
                Seq::<u32>::empty()
            } else {
                fingerprint@
            },
            Ok(None) => false,
        },
{
    if !started {
        return Err(String::from_str("no audio frames decoded"));
    }
    if silent {
        Ok(Some(Vec::new()))
    } else {
        Ok(Some(fingerprint))
    }
}

impl FingerprintRun {
    /// The samples that were read so far.
    pub closed spec fn samples(self) -> Seq<i16> {
        heard(self.printer)
    }

    /// The items of the fingerprint that the fingerprinter holds.
    pub closed spec fn items(self) -> Seq<u32> {
        print_of(self.printer)
    }

    /// The number of channels of the track, once a packet was decoded.
    pub closed spec fn track_channels(self) -> Option<u32> {
        if self.started {
            Some(self.channels)
        } else {
            None
        }
    }

    /// The samples a second of the track, once a packet was decoded.
    pub closed spec fn track_rate(self) -> Option<u32> {
        if self.started {
            Some(self.rate)
        } else {
            None
        }
    }

    /// Whether the fingerprinter has worked off all samples that it was given.
    pub closed spec fn finished(self) -> bool {
        is_finished(self.printer)
    }

    /// The loudness belongs to the samples, and a run that was started has channels, of which the
    /// fingerprinter knows, and so it does of the sample rate.
    pub closed spec fn wf(self) -> bool {
        &&& self.level.measures(heard(self.printer))
        &&& self.started ==> 0 < self.channels <= 65_535 && channel_count(self.printer)
            == self.channels && sample_rate(self.printer) == self.rate
        &&& !self.started ==> heard(self.printer) == Seq::<i16>::empty()
    }

    /// A run that has read nothing.
    pub fn new() -> (run: Self)
        ensures
            run.wf(),
            run.track_channels() is None,
            run.track_rate() is None,
            run.samples() == Seq::<i16>::empty(),
    {
        FingerprintRun {
            printer: new_printer(),
            rate: 0,
            channels: 0,
            started: false,
            level: AudioLevel::new(),
        }
    }

    /// The number of channels of the track, once a packet was decoded.
    pub fn channels(&self) -> (channels: Option<u32>)
        ensures
            channels == self.track_channels(),
    {
        if self.started {
            Some(self.channels)
        } else {
            None
        }
    }

    /// The number of samples that were read so far.
    pub fn total(&self) -> (total: u64)
        requires
            self.wf(),
        ensures
            total == self.samples().len(),
    {
        self.level.total
    }

    /// Whether a packet's samples can go into the run: they are whole frames of the track's
    /// channels, of which there are fewer than 65536, and their number can be counted.
    pub open spec fn takes(self, event: AudioEvent) -> bool {
        match event {
            AudioEvent::Decoded { rate, channels, samples } => {
                let n = match self.track_channels() {
                    Some(c) => c,
                    None => channels,
                };
                &&& n <= 65_535
                &&& n > 0 ==> samples@.len() as int % n as int == 0
                &&& self.samples().len() + samples@.len() <= u64::MAX
            },
            _ => true,
        }
    }

    /// Adds the samples of a packet, and starts the fingerprinter with the first one.
    fn feed(&mut self, rate: u32, channels: u32, samples: &Vec<i16>) -> (fed: bool)
        requires
            old(self).wf(),
            old(self).takes(AudioEvent::Decoded { rate, channels, samples: *samples }),
        ensures
            final(self).wf(),
            fed == (old(self).track_channels() is Some || can_start(rate, channels)),
            fed ==> final(self).samples() == old(self).samples() + samples@,
            fed ==> final(self).track_channels() == match old(self).track_channels() {
                Some(c) => Some(c),
                None => Some(channels),
            },
            fed ==> final(self).track_rate() == match old(self).track_rate() {
                Some(r) => Some(r),
                None => Some(rate),
            },
            !fed ==> final(self).track_channels() is None,
    {
        if !self.started {
            match start_printer(&mut self.printer, rate, channels) {
                Ok(_) => {},
                Err(_) => {
                    return false;
                },
            }
            self.rate = rate;
            self.channels = channels;
            self.started = true;
        }
        let ghost before = heard(self.printer);
        assert(old(self).samples() == before);
        self.level = self.level.extend(Ghost(before), samples.as_slice());
        consume_samples(&mut self.printer, samples.as_slice());
        true
    }

    /// Takes the next packet, or whatever else reading one came to.
    pub fn step(&mut self, event: AudioEvent) -> (step: AudioStep)
        requires
            old(self).wf(),
            old(self).takes(event),
        ensures
            final(self).wf(),
            match event {
                AudioEvent::Stopped => step == AudioStep::Done(Ok(None)),
                AudioEvent::End | AudioEvent::Broken => {
                    &&& final(self).samples() == old(self).samples()
                    &&& final(self).track_rate() == old(self).track_rate()
                    &&& final(self).track_channels() == old(self).track_channels()
                    &&& match step {
                        AudioStep::Done(Err(message)) => old(self).track_channels() is None
                            && message@ == "no audio frames decoded"@,
                        AudioStep::Done(Ok(Some(items))) => old(self).track_channels() is Some
                            && final(self).finished() && items@ == if is_silent(
                            old(self).samples(),
                        ) {
                            Seq::<u32>::empty()
                        } else {
                            final(self).items()
                        },
                        _ => false,
                    }
                },
                AudioEvent::OtherTrack | AudioEvent::Undecodable => step is Continue && *final(self)
                    == *old(self),
                AudioEvent::Decoded { rate, channels, samples } => if old(
                    self,
                ).track_channels() is Some || can_start(rate, channels) {
                    &&& step is Continue
                    &&& final(self).samples() == old(self).samples() + samples@
                    &&& final(self).track_channels() == match old(self).track_channels() {
                        Some(c) => Some(c),
                        None => Some(channels),
                    }
                    &&& final(self).track_rate() == match old(self).track_rate() {
                        Some(r) => Some(r),
                        None => Some(rate),
                    }
                } else {
                    step matches AudioStep::Done(Err(message)) && message@
                        == "fingerprinter init failed"@
                },
            },
    {
        match event {
            AudioEvent::Stopped => AudioStep::Done(Ok(None)),
            AudioEvent::End => AudioStep::Done(self.finish()),
            AudioEvent::Broken => AudioStep::Done(self.finish()),
            AudioEvent::OtherTrack => AudioStep::Continue,
            AudioEvent::Undecodable => AudioStep::Continue,
            AudioEvent::Decoded { rate, channels, samples } => {
                if self.feed(rate, channels, &samples) {
                    AudioStep::Continue
                } else {
                    AudioStep::Done(Err(String::from_str("fingerprinter init failed")))
                }
            },
        }
    }

    /// Ends the run.
    fn finish(&mut self) -> (result: Result<Option<Vec<u32>>, String>)
        requires
            old(self).wf(),
        ensures
            final(self).wf(),
            final(self).samples() == old(self).samples(),
            final(self).track_rate() == old(self).track_rate(),
            final(self).track_channels() == old(self).track_channels(),
            result is Ok ==> final(self).finished(),
            match result {
                Err(message) => old(self).track_channels() is None && message@
                    == "no audio frames decoded"@,
                Ok(Some(items)) => old(self).track_channels() is Some && items@ == if is_silent(
                    old(self).samples(),
                ) {
                    Seq::<u32>::empty()
                } else {
                    final(self).items()
                },
                Ok(None) => false,
            },
    {
        let ghost before = heard(self.printer);
        let silent = self.level.silent(Ghost(before));
        if self.started {
            finish_printer(&mut self.printer);
            let fingerprint = printed(&self.printer);
            return settle_fingerprint(true, silent, fingerprint);
        }
        settle_fingerprint(false, silent, Vec::new())
    }
}

/// The first of a file's tracks that is audio with a known sample rate.
pub fn first_audio_track(playable: &[bool]) -> (track: Option<usize>)
    ensures
        match track {
            Some(i) => i < playable@.len() && playable@[i as int] && forall|k: int|
                0 <= k < i ==> !#[trigger] playable@[k],
            None => forall|k: int| 0 <= k < playable@.len() ==> !#[trigger] playable@[k],
        },
{
    let mut i: usize = 0;
    while i < playable.len()
        invariant
            i <= playable@.len(),
            forall|k: int| 0 <= k < i ==> !#[trigger] playable@[k],
        decreases playable@.len() - i,
    {
        if playable[i] {
            return Some(i);
        }
        i = i + 1;
    }
    None
}

// ---- Laws ----

/// Silence is silent however long it lasts.
pub proof fn law_zeros_are_silent(samples: Seq<i16>)
    requires
        forall|i: int| 0 <= i < samples.len() ==> #[trigger] samples[i] == 0,
    ensures
        energy(samples) == 0,
        peak(samples) == 0,
        is_silent(samples),
    decreases samples.len(),
{
    if samples.len() > 0 {
        law_zeros_are_silent(samples.drop_last());
    }
}

/// The peak is reached by a sample, and no sample goes beyond it.
pub proof fn law_peak_is_largest(samples: Seq<i16>, i: int)
    requires
        0 <= i < samples.len(),
    ensures
        amplitude(samples[i]) <= peak(samples),
        exists|k: int| 0 <= k < samples.len() && amplitude(#[trigger] samples[k]) == peak(samples),
    decreases samples.len(),
{
    let front = samples.drop_last();
    let n = samples.len() - 1;
    assert(samples[n] == samples.last());
    if n > 0 {
        law_peak_is_largest(front, if i < n { i } else { 0 });
        let k = choose|k: int|
            0 <= k < front.len() && amplitude(#[trigger] front[k]) == peak(front);
        assert(samples[k] == front[k]);
        assert(amplitude(samples[k]) == peak(front));
    } else {
        assert(peak(front) == 0);
        assert(amplitude(samples[n]) == peak(samples));
    }
}

/// One sample of a hundredth of the full amplitude breaks any silence.
pub proof fn law_a_loud_sample_is_heard(samples: Seq<i16>, i: int)
    requires
        0 <= i < samples.len(),
        amplitude(samples[i]) * 100 >= 32767,
    ensures
        !is_silent(samples),
{
    law_peak_is_largest(samples, i);
}

/// Samples of up to 32 make no sound that counts, however long they last.
pub proof fn law_soft_samples_are_silent(samples: Seq<i16>)
    requires
        forall|i: int| 0 <= i < samples.len() ==> -32 <= #[trigger] samples[i] <= 32,
    ensures
        is_silent(samples),
{
    lemma_energy_between(samples, 0, 32);
}

/// A steady sound of samples from 33 on is heard, however short it is.
pub proof fn law_steady_sound_is_heard(samples: Seq<i16>)
    requires
        samples.len() > 0,
        forall|i: int|
            0 <= i < samples.len() ==> (#[trigger] samples[i] >= 33 || samples[i] <= -33),
    ensures
        !is_silent(samples),
{
    lemma_energy_between(samples, 33, 32_768);
}

/// A few samples of less than a hundredth of the full amplitude break no silence: as long as they
/// are few enough for the mean of the squares.
pub proof fn law_rare_soft_samples_are_silent(samples: Seq<i16>)
    requires
        forall|i: int| 0 <= i < samples.len() ==> -327 <= #[trigger] samples[i] <= 327,
        tally::tally(samples.len() as int, |i: int| samples[i] != 0) * 106_929_000_000
            < samples.len() * 1_073_676_289 || samples.len() == 0,
    ensures
        is_silent(samples),
{
    lemma_energy_of_few(samples);
    lemma_energy_between(samples, 0, 327);
}

proof fn lemma_energy_between(samples: Seq<i16>, low: int, high: int)
    requires
        0 <= low <= high,
        forall|i: int|
            0 <= i < samples.len() ==> low <= amplitude(#[trigger] samples[i]) <= high,
    ensures
        low * low * samples.len() <= energy(samples) <= high * high * samples.len(),
        peak(samples) <= high,
    decreases samples.len(),
{
    if samples.len() > 0 {
        let front = samples.drop_last();
        assert forall|i: int| 0 <= i < front.len() implies low <= amplitude(#[trigger] front[i])
            <= high by {
            assert(front[i] == samples[i]);
        }
        lemma_energy_between(front, low, high);
        let s = samples.last() as int;
        let a = amplitude(samples.last());
        assert(samples[samples.len() - 1] == samples.last());
        assert(s * s == a * a) by (nonlinear_arith)
            requires
                a == s || a == -s,
        ;
        assert(low * low <= a * a <= high * high) by (nonlinear_arith)
            requires
                0 <= low <= a <= high,
        ;
        let n = front.len() as int;
        assert(low * low * (n + 1) == low * low * n + low * low) by (nonlinear_arith);
        assert(high * high * (n + 1) == high * high * n + high * high) by (nonlinear_arith);
    } else {
        assert(low * low * 0 == 0 && high * high * 0 == 0) by (nonlinear_arith);
    }
}

proof fn lemma_energy_of_few(samples: Seq<i16>)
    requires
        forall|i: int| 0 <= i < samples.len() ==> -327 <= #[trigger] samples[i] <= 327,
    ensures
        energy(samples) <= 106_929 * tally::tally(samples.len() as int, |i: int| samples[i] != 0),
    decreases samples.len(),
{
    if samples.len() > 0 {
        let front = samples.drop_last();
        assert forall|i: int| 0 <= i < front.len() implies -327 <= #[trigger] front[i] <= 327 by {
            assert(front[i] == samples[i]);
        }
        lemma_energy_of_few(front);
        tally::lemma_tally_of_same(
            front.len() as int,
            |i: int| front[i] != 0,
            |i: int| samples[i] != 0,
        );
        let s = samples[samples.len() - 1] as int;
        assert(0 <= s * s <= 106_929) by (nonlinear_arith)
            requires
                -327 <= s <= 327,
        ;
    }
}

} // verus!
