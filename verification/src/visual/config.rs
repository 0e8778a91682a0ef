//! How signatures are computed: the settings, the timeout of an ffmpeg call and the positions of
//! the temporal windows.

use crate::double::Double;
use crate::float::{self, Format};
use vstd::prelude::*;

verus! {

/// Side of the frame cube that is transformed.
pub const DCT_SIZE: usize = 16;

/// Default number of temporal windows spread across the video.
pub const DEFAULT_WINDOW_COUNT: usize = 5;

/// Seconds to skip at the start (intro, credits): the bits of 15.
pub const DEFAULT_SKIP_SECS: u64 = 0x402e_0000_0000_0000;

/// Seconds extracted per window: the bits of 6.
pub const DEFAULT_WINDOW_SECS: u64 = 0x4018_0000_0000_0000;

/// Frames per window.
pub const FRAMES_PER_WINDOW: usize = 16;

/// Seconds that every ffmpeg call is allowed: the bits of 10.
pub const DEFAULT_FFMPEG_TIMEOUT_BASE_SECS: u64 = 0x4024_0000_0000_0000;

/// Seconds that an ffmpeg call is allowed per second of its window: the bits of 5.
pub const DEFAULT_FFMPEG_TIMEOUT_FACTOR: u64 = 0x4014_0000_0000_0000;

/// Lower bound on the timeout of an ffmpeg call: the bits of 60.
pub const DEFAULT_FFMPEG_TIMEOUT_MIN_SECS: u64 = 0x404e_0000_0000_0000;

/// Upper bound on the timeout of an ffmpeg call: the bits of 360.
pub const DEFAULT_FFMPEG_TIMEOUT_MAX_SECS: u64 = 0x4076_8000_0000_0000;

/// Timeout policy of the ffmpeg calls.
///
/// The call for a window is killed if it runs longer than `window * factor + base_secs`, clamped
/// to `[min_secs, max_secs]`.
#[derive(Debug, Clone, Copy, PartialEq, Eq)]
pub struct FfmpegTimeout {
    /// Constant overhead added on top of the duration-scaled part.
    pub base_secs: Double,
    /// Multiplier applied to the window duration.
    pub factor: Double,
    /// Lower bound on the effective timeout.
    pub min_secs: Double,
    /// Upper bound on the effective timeout.
    pub max_secs: Double,
}

/// The timeout policy where nothing else is set.
pub open spec fn default_timeout() -> FfmpegTimeout {
    FfmpegTimeout {
        base_secs: Double { bits: DEFAULT_FFMPEG_TIMEOUT_BASE_SECS },
        factor: Double { bits: DEFAULT_FFMPEG_TIMEOUT_FACTOR },
        min_secs: Double { bits: DEFAULT_FFMPEG_TIMEOUT_MIN_SECS },
        max_secs: Double { bits: DEFAULT_FFMPEG_TIMEOUT_MAX_SECS },
    }
}

impl Default for FfmpegTimeout {
    fn default() -> (timeout: Self)
        ensures
            timeout == default_timeout(),
    {
        FfmpegTimeout {
            base_secs: Double { bits: DEFAULT_FFMPEG_TIMEOUT_BASE_SECS },
            factor: Double { bits: DEFAULT_FFMPEG_TIMEOUT_FACTOR },
            min_secs: Double { bits: DEFAULT_FFMPEG_TIMEOUT_MIN_SECS },
            max_secs: Double { bits: DEFAULT_FFMPEG_TIMEOUT_MAX_SECS },
        }
    }
}

/// The number 0.
pub const ZERO: u64 = 0;

impl FfmpegTimeout {
    /// The least timeout: the lower bound, but never less than nothing.
    pub open spec fn low(self) -> Double {
        self.min_secs.larger(Double { bits: ZERO })
    }

    /// The greatest timeout: the upper bound, unless the lower one is above it.
    pub open spec fn high(self) -> Double {
        self.max_secs.larger(self.low())
    }

    /// The timeout before it is clamped.
    pub open spec fn scaled(self, duration: Double) -> Double {
        duration.multiplied(self.factor).added(self.base_secs)
    }

    /// The timeout for a window.
    pub open spec fn timeout(self, duration: Double) -> Double {
        let scaled = self.scaled(duration);
        if scaled.is_less(self.low()) {
            self.low()
        } else if self.high().is_less(scaled) {
            self.high()
        } else {
            scaled
        }
    }

    /// Effective timeout for a window of `duration` seconds.
    pub fn for_duration(&self, duration: Double) -> (timeout: Double)
        ensures
            timeout == self.timeout(duration),
    {
        let lo = self.min_secs.maximum(Double { bits: ZERO });
        let hi = self.max_secs.maximum(lo);
        let scaled = duration.times(self.factor).plus(self.base_secs);
        if scaled.test_less(lo) {
            lo
        } else if hi.test_less(scaled) {
            hi
        } else {
            scaled
        }
    }
}

/// The timeout keeps to its bounds, and the lower one wins where they are inverted. Only a window
/// without a length that is a number has no such timeout.
pub proof fn law_timeout_is_clamped(policy: FfmpegTimeout, duration: Double)
    requires
        !policy.scaled(duration).is_nan(),
    ensures
        (Double { bits: ZERO }).is_at_most(policy.low()),
        policy.low().is_at_most(policy.timeout(duration)),
        policy.timeout(duration).is_at_most(policy.high()),
        policy.max_secs.is_less(policy.low()) ==> policy.timeout(duration).place()
            == policy.low().place(),
        policy.low().is_at_most(policy.scaled(duration)) && policy.scaled(duration).is_at_most(
            policy.high(),
        ) ==> policy.timeout(duration) == policy.scaled(duration),
{
}

/// A longer window never has a shorter timeout, where the factor is not negative.
pub proof fn law_timeout_grows(policy: FfmpegTimeout, shorter: Double, longer: Double)
    requires
        policy.factor.is_finite(),
        policy.factor.bits < 0x8000_0000_0000_0000,
        policy.base_secs.is_finite(),
        shorter.is_finite(),
        longer.is_finite(),
        shorter.is_at_most(longer),
    ensures
        policy.timeout(shorter).is_at_most(policy.timeout(longer)),
{
    let f = Format::Double;
    let (x, y, z) = (shorter.pattern(), longer.pattern(), policy.factor.pattern());
    float::lemma_product_is_monotone(f, x, y, z);
    float::lemma_multiplied_range(f, x, z);
    float::lemma_multiplied_range(f, y, z);
    let (a, b) = (float::multiplied(f, x, z), float::multiplied(f, y, z));
    float::lemma_sum_is_monotone(f, a, b, policy.base_secs.pattern());
    float::lemma_added_range(f, a, policy.base_secs.pattern());
    float::lemma_added_range(f, b, policy.base_secs.pattern());
}

/// Configuration for building a visual signature.
#[derive(Debug, Clone, Copy, PartialEq, Eq)]
pub struct SignatureConfig {
    /// Seconds to skip at the start.
    pub skip_secs: Double,
    /// Number of temporal windows (evenly spaced).
    pub window_count: usize,
    /// Duration of each window in seconds.
    pub window_secs: Double,
    /// Whether to apply letterbox detection.
    pub cropdetect: bool,
    /// Whether to compute an audio fingerprint.
    pub audio_fingerprint: bool,
    /// Timeout policy of the ffmpeg calls. It does not affect the computed hash.
    pub ffmpeg_timeout: FfmpegTimeout,
}

impl Default for SignatureConfig {
    fn default() -> (config: Self)
        ensures
            config.skip_secs.bits == DEFAULT_SKIP_SECS,
            config.window_count == 5,
            config.window_secs.bits == DEFAULT_WINDOW_SECS,
            config.cropdetect,
            !config.audio_fingerprint,
            config.ffmpeg_timeout == default_timeout(),
    {
        SignatureConfig {
            skip_secs: Double { bits: DEFAULT_SKIP_SECS },
            window_count: DEFAULT_WINDOW_COUNT,
            window_secs: Double { bits: DEFAULT_WINDOW_SECS },
            cropdetect: true,
            audio_fingerprint: false,
            ffmpeg_timeout: FfmpegTimeout::default(),
        }
    }
}

/// The number nearest to 0.1.
pub const TENTH: u64 = 0x3fb9_9999_9999_999a;

/// The number nearest to 0.15.
pub const FIFTEEN_PER_CENT: u64 = 0x3fc3_3333_3333_3333;

/// The number 0.5.
pub const HALF: u64 = 0x3fe0_0000_0000_0000;

/// The number 1.
pub const ONE: u64 = 0x3ff0_0000_0000_0000;

/// Where the first window starts: after the skipped seconds, but within the first 15 % of the
/// video.
pub open spec fn usable_start(duration: Double, config: SignatureConfig) -> Double {
    config.skip_secs.smaller(duration.multiplied(Double { bits: FIFTEEN_PER_CENT }))
}

/// Where the last window should end: half a second before the end, but a second after the start
/// of the first one at least.
pub open spec fn usable_end(duration: Double, config: SignatureConfig) -> Double {
    duration.subtracted(Double { bits: HALF }).larger(
        usable_start(duration, config).added(Double { bits: ONE }),
    )
}

/// How much of the video is used.
pub open spec fn usable(duration: Double, config: SignatureConfig) -> Double {
    usable_end(duration, config).subtracted(usable_start(duration, config))
}

/// The length of a window.
pub open spec fn window_length(duration: Double, config: SignatureConfig) -> Double {
    config.window_secs.smaller(usable(duration, config))
}

/// How far apart the starts of two neighbouring windows are.
pub open spec fn step(duration: Double, config: SignatureConfig) -> Double {
    if config.window_count > 1 {
        usable(duration, config).subtracted(window_length(duration, config)).divided(
            Double::counted((config.window_count - 1) as nat),
        )
    } else {
        Double { bits: ZERO }
    }
}

/// Where a window starts.
pub open spec fn window_start(duration: Double, config: SignatureConfig, i: int) -> Double {
    usable_start(duration, config).added(
        Double::counted(i as nat).multiplied(step(duration, config)),
    )
}

/// Where a window ends: a tenth of a second before the end of the video at the latest, but half a
/// second after its start at least.
pub open spec fn window_end(duration: Double, config: SignatureConfig, i: int) -> Double {
    let start = window_start(duration, config, i);
    start.added(window_length(duration, config)).smaller(
        duration.subtracted(Double { bits: TENTH }),
    ).larger(start.added(Double { bits: HALF }))
}

/// The positions of the windows.
pub open spec fn window_positions(duration: Double, config: SignatureConfig) -> Seq<
    (Double, Double),
> {
    Seq::new(
        config.window_count as nat,
        |i: int| (window_start(duration, config, i), window_end(duration, config, i)),
    )
}

/// Computes the positions (start, end) of the windows, evenly distributed across the video.
pub fn compute_window_positions(duration: Double, config: &SignatureConfig) -> (windows: Vec<
    (Double, Double),
>)
    ensures
        windows@ == window_positions(duration, *config),
{
    let start_first = config.skip_secs.minimum(duration.times(Double { bits: FIFTEEN_PER_CENT }));
    let end_last = duration.minus(Double { bits: HALF }).maximum(
        start_first.plus(Double { bits: ONE }),
    );
    let whole = end_last.minus(start_first);
    let n: usize = config.window_count;
    let length = config.window_secs.minimum(whole);
    let gap = if n > 1 {
        whole.minus(length).over(Double::count((n - 1) as u64))
    } else {
        Double { bits: ZERO }
    };
    let latest = duration.minus(Double { bits: TENTH });
    let mut windows: Vec<(Double, Double)> = Vec::new();
    let mut i: usize = 0;
    while i < n
        invariant
            i <= n,
            n == config.window_count,
            start_first == usable_start(duration, *config),
            length == window_length(duration, *config),
            gap == step(duration, *config),
            latest == duration.subtracted(Double { bits: TENTH }),
            windows@ == window_positions(duration, *config).take(i as int),
        decreases n - i,
    {
        let start = start_first.plus(Double::count(i as u64).times(gap));
        let end = start.plus(length).minimum(latest).maximum(start.plus(Double { bits: HALF }));
        windows.push((start, end));
        assert(windows@ =~= window_positions(duration, *config).take(i + 1));
        i = i + 1;
    }
    assert(windows@ =~= window_positions(duration, *config));
    windows
}

// ---- Laws ----

/// There are as many windows as asked for. Each is at least half a second long, and ends a tenth of
/// a second before the end of the video, unless this is its shortest length. Only a start that is
/// not a number has no such end.
pub proof fn law_windows_are_half_a_second(duration: Double, config: SignatureConfig, i: int)
    requires
        0 <= i < config.window_count,
        !window_start(duration, config, i).added(Double { bits: HALF }).is_nan(),
        !duration.subtracted(Double { bits: TENTH }).is_nan(),
    ensures
        window_positions(duration, config).len() == config.window_count,
        window_start(duration, config, i).added(Double { bits: HALF }).is_at_most(
            window_end(duration, config, i),
        ),
        window_end(duration, config, i).is_at_most(
            duration.subtracted(Double { bits: TENTH }),
        ) || window_end(duration, config, i) == window_start(duration, config, i).added(
            Double { bits: HALF },
        ),
{
}

/// No window starts before the one ahead of it, and the first one starts at the beginning of the
/// part that is used. The gaps are finite numbers that are not negative.
pub proof fn law_windows_are_in_order(duration: Double, config: SignatureConfig, i: int, j: int)
    requires
        0 <= i <= j < config.window_count,
        usable_start(duration, config).is_finite(),
        step(duration, config).bits < 0x7ff0_0000_0000_0000,
    ensures
        window_start(duration, config, 0).place() == usable_start(duration, config).place(),
        window_start(duration, config, i).is_at_most(window_start(duration, config, j)),
{
    let f = Format::Double;
    let first = usable_start(duration, config).pattern();
    let gap = step(duration, config).pattern();
    let (a, b) = (float::counted(f, i as nat), float::counted(f, j as nat));
    float::lemma_count_is_monotone(f, 0, i as nat);
    float::lemma_count_is_monotone(f, i as nat, j as nat);
    float::lemma_count_of_index(f, j as nat);
    float::lemma_count_of_nothing(f);
    float::lemma_product_is_monotone(f, a, b, gap);
    float::lemma_product_is_monotone(f, 0, a, gap);
    float::lemma_multiplied_range(f, 0, gap);
    float::lemma_multiplied_range(f, a, gap);
    float::lemma_multiplied_range(f, b, gap);
    let (x, y) = (float::multiplied(f, a, gap), float::multiplied(f, b, gap));
    float::lemma_zero_times(f, gap);
    assert(0 <= float::place(f, x) <= float::place(f, y));
    float::lemma_sum_is_commutative(f, first, x);
    float::lemma_sum_is_commutative(f, first, y);
    float::lemma_sum_is_monotone(f, x, y, first);
    float::lemma_added_range(f, first, x);
    float::lemma_added_range(f, first, y);
    float::lemma_plus_nothing(f, first);
    float::lemma_added_range(f, first, 0);
}

/// The timeout of a window is the factor times its length, plus the constant part, where this is
/// within the bounds; below them it is the lower bound, and above them the upper one.
pub proof fn law_timeout_follows_the_length(policy: FfmpegTimeout, duration: Double)
    requires
        Double::zero().is_at_most(policy.min_secs),
        policy.min_secs.is_at_most(policy.max_secs),
        !duration.multiplied(policy.factor).added(policy.base_secs).is_nan(),
    ensures
        ({
            let wanted = duration.multiplied(policy.factor).added(policy.base_secs);
            &&& policy.min_secs.is_at_most(wanted) && wanted.is_at_most(policy.max_secs)
                ==> policy.timeout(duration) == wanted
            &&& wanted.is_less(policy.min_secs) ==> policy.timeout(duration).place()
                == policy.min_secs.place()
            &&& policy.max_secs.is_less(wanted) ==> policy.timeout(duration).place()
                == policy.max_secs.place()
        }),
{
}

} // verus!
