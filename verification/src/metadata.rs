//! Video metadata, as ffprobe reports it.

use crate::decimal::{self, read_double};
use crate::double::Double;
use crate::bounds;
use crate::compare::match_laws;
use crate::compare::scores;
use crate::float::{self, Format};
use crate::json;
use crate::number::{self, read_unsigned};
use crate::single::Single;
use crate::text::{self, chars_of, split_chars, trim_chars};
use vstd::prelude::*;

verus! {

/// Pixels that a dimension is capped at.
pub const MAX_DIM: u32 = 16_384;

/// Why there is no metadata of a file.
#[derive(Debug, Clone, PartialEq, Eq)]
pub enum MetadataError {
    /// There is no ffprobe in `PATH`.
    FfprobeNotFound,
    /// ffprobe failed on a file.
    FfprobeFailed { path: String, stderr: String },
    /// The output of ffprobe could not be understood.
    ParseError(String),
    /// ffprobe could not be run.
    Io(String),
}

impl MetadataError {
    /// The error as a message.
    pub open spec fn text(self) -> Seq<char> {
        match self {
            MetadataError::FfprobeNotFound => "ffprobe not found in PATH"@,
            MetadataError::FfprobeFailed { path, stderr } => "ffprobe failed on '"@ + path@ + "': "@
                + stderr@,
            MetadataError::ParseError(detail) => "Failed to parse ffprobe output: "@ + detail@,
            MetadataError::Io(detail) => "IO error: "@ + detail@,
        }
    }

    /// The error as a message.
    pub fn message(&self) -> (message: String)
        ensures
            message@ == self.text(),
    {
        match self {
            MetadataError::FfprobeNotFound => String::from_str("ffprobe not found in PATH"),
            MetadataError::FfprobeFailed { path, stderr } => {
                let mut message = String::from_str("ffprobe failed on '");
                message.append(path.as_str());
                message.append("': ");
                message.append(stderr.as_str());
                message
            },
            MetadataError::ParseError(detail) => {
                let mut message = String::from_str("Failed to parse ffprobe output: ");
                message.append(detail.as_str());
                message
            },
            MetadataError::Io(detail) => {
                let mut message = String::from_str("IO error: ");
                message.append(detail.as_str());
                message
            },
        }
    }
}

/// What ffprobe says of a video.
#[derive(Debug, Clone)]
pub struct VideoMetadata {
    /// Duration in seconds.
    pub duration_secs: Double,
    /// Frames per second, where known.
    pub fps: Option<Double>,
    /// Codec name (such as "h264", "hevc" or "vp9").
    pub codec: Option<String>,
    /// Bits per second, where known.
    pub bitrate_bps: Option<u64>,
    /// Frame width in pixels.
    pub width: Option<u32>,
    /// Frame height in pixels.
    pub height: Option<u32>,
}

/// Video metadata with mathematical values.
pub struct MetadataView {
    pub duration_secs: Double,
    pub fps: Option<Double>,
    pub codec: Option<Seq<char>>,
    pub bitrate_bps: Option<nat>,
    pub width: Option<int>,
    pub height: Option<int>,
}

/// An optional text's characters.
pub open spec fn optional_text(t: Option<String>) -> Option<Seq<char>> {
    match t {
        Some(s) => Some(s@),
        None => None,
    }
}

impl View for VideoMetadata {
    type V = MetadataView;

    open spec fn view(&self) -> MetadataView {
        MetadataView {
            duration_secs: self.duration_secs,
            fps: self.fps,
            codec: optional_text(self.codec),
            bitrate_bps: match self.bitrate_bps {
                Some(b) => Some(b as nat),
                None => None,
            },
            width: match self.width {
                Some(w) => Some(w as int),
                None => None,
            },
            height: match self.height {
                Some(h) => Some(h as int),
                None => None,
            },
        }
    }
}

/// The number 0.
pub const ZERO: u64 = 0;

/// The number 60.
pub const SIXTY: u64 = 0x404e_0000_0000_0000;

/// The number 1000.
pub const THOUSAND: u64 = 0x408f_4000_0000_0000;

/// The number 3600.
pub const SECONDS_PER_HOUR: u64 = 0x40ac_2000_0000_0000;

/// Whether a number is not below zero.
pub open spec fn is_not_negative(n: Double) -> bool {
    (Double { bits: ZERO }).is_at_most(n)
}

/// Minutes and seconds as seconds.
pub open spec fn minutes_and_seconds(m: Double, s: Double) -> Double {
    m.multiplied(Double { bits: SIXTY }).added(s)
}

/// Hours, minutes and seconds as seconds.
pub open spec fn hours_and_seconds(h: Double, m: Double, s: Double) -> Double {
    h.multiplied(Double { bits: SECONDS_PER_HOUR }).added(
        m.multiplied(Double { bits: SIXTY }),
    ).added(s)
}

/// The number of seconds that a text spells: as a finite number that is not negative, or as hours,
/// minutes and seconds, or minutes and seconds, with colons between them.
pub open spec fn seconds(spelling: Seq<char>) -> Option<Double> {
    let t = text::trim(spelling);
    match decimal::double_of(t) {
        Some(n) => if n.is_finite() && is_not_negative(n) {
            Some(n)
        } else {
            None
        },
        None => {
            let parts = text::split(t, ':');
            if parts.len() == 3 {
                match (
                    decimal::double_of(parts[0]),
                    decimal::double_of(parts[1]),
                    decimal::double_of(parts[2]),
                ) {
                    (Some(h), Some(m), Some(s)) => Some(hours_and_seconds(h, m, s)),
                    _ => None,
                }
            } else if parts.len() == 2 {
                match (decimal::double_of(parts[0]), decimal::double_of(parts[1])) {
                    (Some(m), Some(s)) => Some(minutes_and_seconds(m, s)),
                    _ => None,
                }
            } else {
                None
            }
        },
    }
}

/// A quotient, if it is above zero and below a thousand. There is none of an infinite number or by
/// zero.
pub open spec fn small_quotient(num: Double, den: Double) -> Option<Double> {
    let q = num.divided(den);
    if num.is_finite() && den.place() != 0 && (Double { bits: ZERO }).is_less(q) && q.is_less(
        Double { bits: THOUSAND },
    ) {
        Some(q)
    } else {
        None
    }
}

/// The frame rate that a text spells as a fraction, if it is above zero and below a thousand.
pub open spec fn frame_rate(spelling: Seq<char>) -> Option<Double> {
    let parts = text::split(spelling, '/');
    if parts.len() < 2 {
        None
    } else {
        match (decimal::double_of(text::trim(parts[0])), decimal::double_of(text::trim(parts[1]))) {
            (Some(n), Some(d)) => small_quotient(n, d),
            _ => None,
        }
    }
}

/// Reads a duration: seconds, or hours, minutes and seconds.
pub fn parse_duration_secs(spelling: Option<&str>) -> (value: Option<Double>)
    ensures
        value == match spelling {
            Some(s) => seconds(s@),
            None => None,
        },
{
    let t = match spelling {
        Some(s) => trim_chars(chars_of(s).as_slice()),
        None => {
            return None;
        },
    };
    if let Some(n) = read_double(t.as_slice()) {
        return if n.test_finite() && (Double { bits: ZERO }).test_at_most(n) {
            Some(n)
        } else {
            None
        };
    }
    let parts = split_chars(t.as_slice(), ':');
    assert(forall|i: int|
        0 <= i < parts@.len() ==> text::pieces(parts@)[i] == #[trigger] parts@[i]@);
    if parts.len() == 3 {
        let h = read_double(parts[0].as_slice());
        let m = read_double(parts[1].as_slice());
        let s = read_double(parts[2].as_slice());
        match (h, m, s) {
            (Some(h), Some(m), Some(s)) => {
                let hours = h.times(Double { bits: SECONDS_PER_HOUR });
                let minutes = m.times(Double { bits: SIXTY });
                Some(hours.plus(minutes).plus(s))
            },
            _ => None,
        }
    } else if parts.len() == 2 {
        let m = read_double(parts[0].as_slice());
        let s = read_double(parts[1].as_slice());
        match (m, s) {
            (Some(m), Some(s)) => Some(m.times(Double { bits: SIXTY }).plus(s)),
            _ => None,
        }
    } else {
        None
    }
}

/// Reads a frame rate from a fraction (such as "30000/1001").
pub fn parse_fps_fraction(spelling: &str) -> (value: Option<Double>)
    ensures
        value == frame_rate(spelling@),
{
    let parts = split_chars(chars_of(spelling).as_slice(), '/');
    if parts.len() < 2 {
        return None;
    }
    assert(text::pieces(parts@)[0] == parts@[0]@);
    assert(text::pieces(parts@)[1] == parts@[1]@);
    let num = read_double(trim_chars(parts[0].as_slice()).as_slice());
    let den = read_double(trim_chars(parts[1].as_slice()).as_slice());
    match (num, den) {
        (Some(n), Some(d)) => {
            if !n.test_finite() || d.is_zero() {
                return None;
            }
            let q = n.over(d);
            if (Double { bits: ZERO }).test_less(q) && q.test_less(Double { bits: THOUSAND }) {
                Some(q)
            } else {
                None
            }
        },
        _ => None,
    }
}

/// The first stream of ffprobe's report.
pub open spec fn stream(report: json::Json) -> json::Json {
    json::element(json::member(report, "streams"@), 0)
}

/// The first of two values that is a text.
pub open spec fn first_text(a: json::Json, b: json::Json) -> Option<Seq<char>> {
    match json::text(a) {
        Some(t) => Some(t),
        None => json::text(b),
    }
}

/// A dimension, capped.
pub open spec fn dimension(json: json::Json) -> Option<int> {
    match json::unsigned(json) {
        Some(n) => Some(bounds::smaller(n as int, MAX_DIM as int)),
        None => None,
    }
}

/// The metadata that ffprobe's report gives, if there is a duration in it: the duration and the
/// bit rate are those of the stream or, failing that, of the container.
pub open spec fn reported(report: json::Json) -> Option<MetadataView> {
    let s = stream(report);
    let f = json::member(report, "format"@);
    match first_text(json::member(s, "duration"@), json::member(f, "duration"@)) {
        Some(spelling) => match seconds(spelling) {
            Some(duration_secs) => Some(
                MetadataView {
                    duration_secs,
                    fps: match first_text(
                        json::member(s, "avg_frame_rate"@),
                        json::member(s, "r_frame_rate"@),
                    ) {
                        Some(rate) => frame_rate(rate),
                        None => None,
                    },
                    codec: json::text(json::member(s, "codec_name"@)),
                    bitrate_bps: match first_text(
                        json::member(s, "bit_rate"@),
                        json::member(f, "bit_rate"@),
                    ) {
                        Some(rate) => number::unsigned(rate),
                        None => None,
                    },
                    width: dimension(json::member(s, "width"@)),
                    height: dimension(json::member(s, "height"@)),
                },
            ),
            None => None,
        },
        None => None,
    }
}

/// The first of two values that is a text.
fn text_of<'a>(a: &'a serde_json::Value, b: &'a serde_json::Value) -> (t: Option<&'a str>)
    ensures
        t is Some <==> first_text(json::contents(*a), json::contents(*b)) is Some,
        t matches Some(s) ==> first_text(json::contents(*a), json::contents(*b)) == Some(s@),
{
    match json::as_text(a) {
        Some(s) => Some(s),
        None => json::as_text(b),
    }
}

/// A dimension, capped.
fn dimension_of(value: &serde_json::Value) -> (d: Option<u32>)
    ensures
        match dimension(json::contents(*value)) {
            Some(n) => d == Some(n as u32) && n == n as u32,
            None => d is None,
        },
{
    match json::as_unsigned(value) {
        Some(n) => Some(
            if n < MAX_DIM as u64 {
                n as u32
            } else {
                MAX_DIM
            },
        ),
        None => None,
    }
}

impl VideoMetadata {
    /// The metadata that ffprobe's report gives.
    pub fn parse_ffprobe_json(report: &serde_json::Value) -> (metadata: Result<Self, MetadataError>)
        ensures
            match reported(json::contents(*report)) {
                Some(m) => metadata matches Ok(found) && found@ == m,
                None => metadata matches Err(MetadataError::ParseError(detail)) && detail@
                    == "no duration found"@,
            },
    {
        let s = json::get_element(json::get_member(report, "streams"), 0);
        let f = json::get_member(report, "format");
        let duration_secs = match parse_duration_secs(
            text_of(json::get_member(s, "duration"), json::get_member(f, "duration")),
        ) {
            Some(d) => d,
            None => {
                return Err(MetadataError::ParseError(String::from_str("no duration found")));
            },
        };
        let fps = match text_of(
            json::get_member(s, "avg_frame_rate"),
            json::get_member(s, "r_frame_rate"),
        ) {
            Some(rate) => parse_fps_fraction(rate),
            None => None,
        };
        let codec = match json::as_text(json::get_member(s, "codec_name")) {
            Some(name) => Some(String::from_str(name)),
            None => None,
        };
        let bitrate_bps = match text_of(
            json::get_member(s, "bit_rate"),
            json::get_member(f, "bit_rate"),
        ) {
            Some(rate) => read_unsigned(chars_of(rate).as_slice()),
            None => None,
        };
        let width = dimension_of(json::get_member(s, "width"));
        let height = dimension_of(json::get_member(s, "height"));
        Ok(VideoMetadata { duration_secs, fps, codec, bitrate_bps, width, height })
    }

    /// What a run of ffprobe on a file gives: the metadata in its output, or the error that it
    /// ended in.
    pub fn from_probe(path: &str, success: bool, stdout: &[u8], stderr: &str) -> (metadata: Result<
        Self,
        MetadataError,
    >)
        ensures
            !success ==> (metadata matches Err(MetadataError::FfprobeFailed { path: p, stderr: e })
                && p@ == path@ && e@ == stderr@),
            success ==> match json::parsed(stdout@) {
                Ok(report) => match reported(report) {
                    Some(m) => metadata matches Ok(found) && found@ == m,
                    None => metadata matches Err(MetadataError::ParseError(detail)) && detail@
                        == "no duration found"@,
                },
                Err(message) => metadata matches Err(MetadataError::ParseError(detail)) && detail@
                    == message,
            },
    {
        if !success {
            return Err(
                MetadataError::FfprobeFailed {
                    path: String::from_str(path),
                    stderr: String::from_str(stderr),
                },
            );
        }
        match json::parse(stdout) {
            Ok(report) => Self::parse_ffprobe_json(&report),
            Err(message) => Err(MetadataError::ParseError(message)),
        }
    }

    /// The error of an ffprobe that could not be run.
    pub fn probe_error(not_found: bool, detail: String) -> (error: MetadataError)
        ensures
            error == if not_found {
                MetadataError::FfprobeNotFound
            } else {
                MetadataError::Io(detail)
            },
    {
        if not_found {
            MetadataError::FfprobeNotFound
        } else {
            MetadataError::Io(detail)
        }
    }

    /// The duration in nanoseconds, rounded.
    pub fn duration(&self) -> (nanos: u128)
        requires
            self.duration_secs.is_finite(),
            is_not_negative(self.duration_secs),
            self.duration_secs.whole() < u64::MAX,
        ensures
            nanos == float::scaled(Format::Double, self.duration_secs.pattern(), 1_000_000_000),
    {
        self.duration_secs.nanos()
    }

    /// Width over height in single precision, or nothing where a dimension is unknown or the
    /// height is zero.
    pub open spec fn ratio(self) -> Option<Single> {
        match (self.width, self.height) {
            (Some(w), Some(h)) => if h > 0 {
                Some(Single::counted(w as nat).divided(Single::counted(h as nat)))
            } else {
                None
            },
            _ => None,
        }
    }

    /// Width over height, or nothing where a dimension is unknown or the height is zero.
    pub fn aspect_ratio(&self) -> (ratio: Option<Single>)
        ensures
            ratio == self.ratio(),
    {
        match (self.width, self.height) {
            (Some(w), Some(h)) => {
                if h > 0 {
                    Some(Single::count(w as u64).over(Single::count(h as u64)))
                } else {
                    None
                }
            },
            _ => None,
        }
    }
}

impl Default for VideoMetadata {
    fn default() -> (metadata: Self)
        ensures
            metadata.duration_secs.bits == ZERO,
            metadata.fps is None,
            metadata.codec is None,
            metadata.bitrate_bps is None,
            metadata.width is None,
            metadata.height is None,
    {
        VideoMetadata {
            duration_secs: Double { bits: ZERO },
            fps: None,
            codec: None,
            bitrate_bps: None,
            width: None,
            height: None,
        }
    }
}

// ---- Laws ----

/// Hours, minutes and seconds with colons between them are 3600 times the hours, plus 60 times the
/// minutes, plus the seconds; minutes and seconds are 60 times the minutes plus the seconds.
pub proof fn law_colons_separate_hours_minutes_and_seconds(
    hours: Seq<char>,
    minutes: Seq<char>,
    secs: Seq<char>,
)
    requires
        !hours.contains(':'),
        !minutes.contains(':'),
        !secs.contains(':'),
    ensures
        ({
            let whole = hours.push(':') + minutes.push(':') + secs;
            text::trim(whole) == whole && decimal::double_of(whole) is None ==> seconds(whole)
                == match (
                decimal::double_of(hours),
                decimal::double_of(minutes),
                decimal::double_of(secs),
            ) {
                (Some(h), Some(m), Some(s)) => Some(
                    h.multiplied(Double { bits: 0x40ac_2000_0000_0000 }).added(
                        m.multiplied(Double { bits: 0x404e_0000_0000_0000 }),
                    ).added(s),
                ),
                _ => None,
            }
        }),
        ({
            let whole = minutes.push(':') + secs;
            text::trim(whole) == whole && decimal::double_of(whole) is None ==> seconds(whole)
                == match (decimal::double_of(minutes), decimal::double_of(secs)) {
                (Some(m), Some(s)) => Some(
                    m.multiplied(Double { bits: 0x404e_0000_0000_0000 }).added(s),
                ),
                _ => None,
            }
        }),
{
    text::law_separated_texts_are_pieces(minutes, ':', secs);
    text::law_separated_texts_are_pieces(hours, ':', minutes);
    text::law_separated_texts_are_pieces(hours.push(':') + minutes, ':', secs);
    assert(hours.push(':') + minutes.push(':') + secs =~= (hours.push(':') + minutes).push(':')
        + secs);
    let none = Seq::<char>::empty();
    text::law_separated_texts_are_pieces(none, ':', hours);
    text::law_separated_texts_are_pieces(none, ':', minutes);
    assert(text::split(minutes.push(':') + secs, ':') =~= seq![minutes, secs]);
    assert(text::split((hours.push(':') + minutes).push(':') + secs, ':') =~= seq![
        hours,
        minutes,
        secs,
    ]);
}

/// A duration that is spelled as a number is that number, if it is finite and not negative, and
/// else there is none.
pub proof fn law_numbers_are_seconds(spelling: Seq<char>, n: Double)
    requires
        text::trim(spelling) == spelling,
        decimal::double_of(spelling) == Some(n),
    ensures
        n.is_finite() && Double::zero().is_at_most(n) ==> seconds(spelling) == Some(n),
        !n.is_finite() || n.is_less(Double::zero()) ==> seconds(spelling) is None,
{
}

/// A frame rate is the quotient of the two numbers of a fraction, where it is above zero and below a
/// thousand; else there is none, and neither is there one without a fraction.
pub proof fn law_frame_rates_are_quotients(above: Seq<char>, below: Seq<char>, n: Double, d: Double)
    requires
        !above.contains('/'),
        !below.contains('/'),
        decimal::double_of(text::trim(above)) == Some(n),
        decimal::double_of(text::trim(below)) == Some(d),
        n.is_finite(),
        d.place() != 0,
    ensures
        ({
            let q = n.divided(d);
            frame_rate(above.push('/') + below) == if Double::zero().is_less(q) && q.is_less(
                Double { bits: 0x408f_4000_0000_0000 },
            ) {
                Some(q)
            } else {
                None
            }
        }),
        frame_rate(above) is None,
{
    text::law_separated_texts_are_pieces(above, '/', below);
    text::law_separated_texts_are_pieces(Seq::<char>::empty(), '/', above);
    assert(text::split(above.push('/') + below, '/') =~= seq![above, below]);
}

/// What a report says of its first stream goes before what it says of the container: the duration
/// and the bit rate are those of the container only where the stream has no text for them. Without
/// a duration there is no metadata. Dimensions are capped at 16384.
pub proof fn law_streams_go_before_containers(report: json::Json)
    ensures
        ({
            let s = json::element(json::member(report, "streams"@), 0);
            let f = json::member(report, "format"@);
            let own = json::text(json::member(s, "duration"@));
            let other = json::text(json::member(f, "duration"@));
            let lasts = match (own, other) {
                (Some(t), _) => seconds(t),
                (None, Some(t)) => seconds(t),
                (None, None) => None,
            };
            match reported(report) {
                None => lasts is None,
                Some(m) => {
                    &&& lasts == Some(m.duration_secs)
                    &&& m.codec == json::text(json::member(s, "codec_name"@))
                    &&& match (
                        json::text(json::member(s, "bit_rate"@)),
                        json::text(json::member(f, "bit_rate"@)),
                    ) {
                        (Some(t), _) => m.bitrate_bps == number::unsigned(t),
                        (None, Some(t)) => m.bitrate_bps == number::unsigned(t),
                        (None, None) => m.bitrate_bps is None,
                    }
                    &&& match (
                        json::text(json::member(s, "avg_frame_rate"@)),
                        json::text(json::member(s, "r_frame_rate"@)),
                    ) {
                        (Some(t), _) => m.fps == frame_rate(t),
                        (None, Some(t)) => m.fps == frame_rate(t),
                        (None, None) => m.fps is None,
                    }
                    &&& json::unsigned(json::member(s, "width"@)) matches Some(w) ==> m.width
                        == Some(if w <= 16_384 { w as int } else { 16_384 })
                    &&& json::unsigned(json::member(s, "height"@)) matches Some(h) ==> m.height
                        == Some(if h <= 16_384 { h as int } else { 16_384 })
                    &&& json::unsigned(json::member(s, "width"@)) is None ==> m.width is None
                    &&& json::unsigned(json::member(s, "height"@)) is None ==> m.height is None
                },
            }
        }),
{
}

/// The aspect ratio is the width over the height, but for rounding: above one for a wide picture,
/// and below one for a tall one.
pub proof fn law_aspect_ratio_is_width_over_height(metadata: VideoMetadata, width: u32, height: u32)
    requires
        metadata.width == Some(width),
        metadata.height == Some(height),
        0 < height <= 16_384,
        width <= 16_384,
    ensures
        metadata.ratio() matches Some(ratio) && ({
            let apart = match_laws::value(ratio) * height - width * match_laws::unit();
            -((width + height) * match_laws::unit()) <= 0x80_0000 * apart <= (width + height)
                * match_laws::unit()
        }),
        width > height ==> (metadata.ratio() matches Some(ratio) && match_laws::value(ratio)
            > match_laws::unit()),
        width < height ==> (metadata.ratio() matches Some(ratio) && match_laws::value(ratio)
            < match_laws::unit()),
{
    let f = Format::Single;
    let u = match_laws::unit();
    let (w, h) = (width as int, height as int);
    match_laws::lemma_one();
    scores::lemma_count_is_exact(width as nat);
    scores::lemma_count_is_exact(height as nat);
    let num = w * u * u;
    assert(0 <= num && num <= (0x100_0000 * u) * (h * u) && h * u > 0) by (nonlinear_arith)
        requires
            num == w * u * u,
            0 <= w <= 16_384,
            h >= 1,
            u > 0,
    ;
    let p = match_laws::lemma_near(num as nat, (h * u) as nat);
    let r = float::units(f, p) as int;
    assert((w * u) * u == num);
    let ratio = Single::counted(width as nat).divided(Single::counted(height as nat));
    assert(ratio.pattern() == p);
    assert(match_laws::value(ratio) == r);
    let k = 0x80_0000int;
    assert(2 * k * (w * u) <= (2 * k * r + r + k) * h) by (nonlinear_arith)
        requires
            2 * k * num <= (2 * k * r + r + k) * (h * u),
            num == w * u * u,
            u > 0,
    ;
    assert(2 * k * (w * u) >= (2 * k * r - r - k) * h) by (nonlinear_arith)
        requires
            2 * k * num >= (2 * k * r - r - k) * (h * u),
            num == w * u * u,
            u > 0,
    ;
    let x = r * h;
    assert((2 * k * r + r + k) * h == 2 * k * x + x + k * h) by (nonlinear_arith)
        requires
            x == r * h,
    ;
    assert((2 * k * r - r - k) * h == 2 * k * x - x - k * h) by (nonlinear_arith)
        requires
            x == r * h,
    ;
    assert(k * h <= h * u) by (nonlinear_arith)
        requires
            k <= u,
            h > 0,
    ;
    assert((w + h) * u == w * u + h * u) by (nonlinear_arith);
    assert(w * u >= 0) by (nonlinear_arith)
        requires
            w >= 0,
            u > 0,
    ;
    assert(x <= 2 * (w * u) + h * u);
    if w > h {
        assert(w * u >= h * u + u) by (nonlinear_arith)
            requires
                w >= h + 1,
                u > 0,
        ;
        assert((w + h) * u <= 32_768 * u) by (nonlinear_arith)
            requires
                w + h <= 32_768,
                u > 0,
        ;
        assert(r > u) by (nonlinear_arith)
            requires
                r * h > h * u,
                h > 0,
        ;
    }
    if w < h {
        assert(w * u + u <= h * u) by (nonlinear_arith)
            requires
                w + 1 <= h,
                u > 0,
        ;
        assert((w + h) * u <= 32_768 * u) by (nonlinear_arith)
            requires
                w + h <= 32_768,
                u > 0,
        ;
        assert(r < u) by (nonlinear_arith)
            requires
                r * h < h * u,
                h > 0,
        ;
    }
}

} // verus!
