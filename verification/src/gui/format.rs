//! Sizes, durations and bit rates as texts.

use crate::double::Double;
use crate::text::{self, push_numeral, push_two_digits};
use vstd::prelude::*;

verus! {

/// A number of bytes as a text with a binary unit.
pub uninterp spec fn size_text(bytes: u64) -> Seq<char>;

/// `humansize::format_size`, with the options `BINARY`: a number of bytes with a binary unit and
/// up to two decimal places.
#[verifier::external_body]
fn humanize(bytes: u64) -> (shown: String)
    ensures
        shown@ == size_text(bytes),
{
    humansize::format_size(bytes, humansize::BINARY)
}

/// A number of bytes with a binary unit.
pub fn format_size(bytes: u64) -> (shown: String)
    ensures
        shown@ == size_text(bytes),
{
    humanize(bytes)
}

/// Whether a character is a decimal digit.
pub open spec fn is_digit(c: char) -> bool {
    '0' <= c <= '9'
}

/// Whether a text has the form of a date and a time: a year of four characters or more, and then
/// `-mm-dd hh:mm:ss`.
pub open spec fn is_date(shown: Seq<char>) -> bool {
    let n = shown.len() - 15;
    &&& n >= 4
    &&& shown[n] == '-' && is_digit(shown[n + 1]) && is_digit(shown[n + 2])
    &&& shown[n + 3] == '-' && is_digit(shown[n + 4]) && is_digit(shown[n + 5])
    &&& shown[n + 6] == ' ' && is_digit(shown[n + 7]) && is_digit(shown[n + 8])
    &&& shown[n + 9] == ':' && is_digit(shown[n + 10]) && is_digit(shown[n + 11])
    &&& shown[n + 12] == ':' && is_digit(shown[n + 13]) && is_digit(shown[n + 14])
}

/// A moment, in seconds since 1970, as its date and time by UTC.
pub uninterp spec fn utc_text(time: int) -> Seq<char>;

/// Whether the calendar has a moment: from the year -262143 to the year 262142.
pub open spec fn in_calendar(time: int) -> bool {
    -8_334_601_228_800 <= time <= 8_210_266_876_799
}

/// Whether an offset from UTC is less than a day.
pub open spec fn is_offset(offset: int) -> bool {
    -86_400 < offset < 86_400
}

/// `chrono`: `Utc::timestamp_opt`, `DateTime::with_timezone` for the local zone, and
/// `DateTime::format` with `%Y-%m-%d %H:%M:%S`: a moment by the machine's clock, and that clock's
/// offset from UTC in seconds, which is less than a day. Which offset it is depends on the
/// machine. There is nothing for a moment that the calendar does not have.
#[verifier::external_body]
fn local_date(time: i64) -> (shown: Option<(String, i32)>)
    ensures
        shown is Some == in_calendar(time as int),
        shown matches Some(s) ==> is_date(s.0@),
        shown matches Some(s) ==> is_offset(s.1 as int),
        shown matches Some(s) ==> s.0@ == utc_text(time + s.1),
{
    let utc = chrono::TimeZone::timestamp_opt(&chrono::Utc, time, 0).single()?;
    let local = utc.with_timezone(&chrono::Local);
    let text = local.format("%Y-%m-%d %H:%M:%S").to_string();
    Some((text, local.offset().local_minus_utc()))
}

/// The moment that a number of seconds stands for: its 64 bits are read with a sign.
pub open spec fn signed_time(secs: u64) -> int {
    if secs <= i64::MAX {
        secs as int
    } else {
        secs - 0x1_0000_0000_0000_0000
    }
}

/// The moment that is shown: the beginning of 1970, where the calendar does not have the given one.
pub open spec fn shown_time(secs: u64) -> int {
    if in_calendar(signed_time(secs)) {
        signed_time(secs)
    } else {
        0
    }
}

/// A time in seconds since 1970 as a date and a time in the machine's time zone, which differs
/// from UTC by less than a day.
pub fn format_date(secs: u64) -> (shown: String)
    ensures
        is_date(shown@),
        exists|offset: int|
            is_offset(offset) && shown@ == #[trigger] utc_text(shown_time(secs) + offset),
{
    let time: i64 = if secs <= 0x7fff_ffff_ffff_ffff {
        secs as i64
    } else {
        -((0xffff_ffff_ffff_ffff - secs) as i64) - 1
    };
    match local_date(time) {
        Some((text, offset)) => {
            assert(text@ == utc_text(shown_time(secs) + offset as int));
            text
        },
        None => match local_date(0) {
            Some((text, offset)) => {
                assert(text@ == utc_text(shown_time(secs) + offset as int));
                text
            },
            None => {
                assert(false);
                String::new()
            },
        },
    }
}

/// A number of seconds as `h:mm:ss`, or as `m:ss` below an hour.
pub open spec fn duration_text(t: nat) -> Seq<char> {
    let h = t / 3600;
    let m = (t % 3600) / 60;
    let s = t % 60;
    if h > 0 {
        text::numeral(h) + seq![':'] + text::two_digits(m) + seq![':'] + text::two_digits(s)
    } else {
        text::numeral(m) + seq![':'] + text::two_digits(s)
    }
}

/// The whole seconds of a duration as `h:mm:ss`, or as `m:ss` below an hour.
pub fn format_duration(secs: Double) -> (shown: String)
    ensures
        shown@ == duration_text(secs.whole() as nat),
{
    let t: u64 = secs.truncate();
    let h: u64 = t / 3600;
    let m: u64 = (t % 3600) / 60;
    let s: u64 = t % 60;
    let mut shown = String::new();
    proof {
        reveal_strlit(":");
        assert(":"@ =~= seq![':']);
    }
    if h > 0 {
        push_numeral(&mut shown, h);
        shown.append(":");
        push_two_digits(&mut shown, m);
    } else {
        push_numeral(&mut shown, m);
    }
    shown.append(":");
    push_two_digits(&mut shown, s);
    assert(shown@ =~= duration_text(secs.whole() as nat));
    shown
}

/// The number of bits in a megabit, as a double.
pub const MEGABIT: u64 = 0x4130_0000_0000_0000;

/// A bit rate: in megabits per second with one decimal place from one megabit on, and in whole
/// kilobits per second below.
pub open spec fn bitrate_text(bps: u64) -> Seq<char> {
    if bps >= 1_048_576 {
        Double::counted(bps as nat).divided(Double { bits: MEGABIT }).text() + " Mb/s"@
    } else {
        text::numeral((bps / 1024) as nat) + " kb/s"@
    }
}

/// A bit rate in megabits or kilobits per second.
pub fn format_bitrate(bps: u64) -> (shown: String)
    ensures
        shown@ == bitrate_text(bps),
{
    if bps >= 1_048_576 {
        let mut shown = Double::count(bps).over(Double { bits: MEGABIT }).show();
        shown.append(" Mb/s");
        shown
    } else {
        let mut shown = String::new();
        push_numeral(&mut shown, bps / 1024);
        shown.append(" kb/s");
        assert(shown@ =~= bitrate_text(bps));
        shown
    }
}

// ---- Laws ----

/// What is shown of a duration makes it up: 3600 times the hours, plus 60 times the minutes, plus the
/// seconds, of which there are fewer than 60 each; hours are shown only where there are any.
pub proof fn law_shown_durations_add_up(t: nat, h: nat, m: nat, s: nat)
    requires
        t == 3600 * h + 60 * m + s,
        m < 60,
        s < 60,
    ensures
        h > 0 ==> duration_text(t) == text::numeral(h) + seq![':'] + seq![
            text::digit(m as int / 10),
            text::digit(m as int % 10),
        ] + seq![':'] + seq![text::digit(s as int / 10), text::digit(s as int % 10)],
        h == 0 ==> duration_text(t) == text::numeral(m) + seq![':'] + seq![
            text::digit(s as int / 10),
            text::digit(s as int % 10),
        ],
{
    assert(t / 3600 == h && (t % 3600) / 60 == m && t % 60 == s);
}

} // verus!
