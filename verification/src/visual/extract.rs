//! From the raw output of ffmpeg to frames.
//!
//! Each window is read by an ffmpeg process of its own, which writes grey frames of 16 by 16
//! pixels. A frame that is missing becomes a frame of zeros, and a black frame is replaced by a
//! neighbour within its window.

use crate::double::Double;
use crate::text::{self, push_numeral};
use crate::visual::cropdetect::{self, Crop, detect_letterbox_multi};
use crate::visual::frame::{self, GrayFrame, Picture};
use crate::visual::watchdog::KillReason;
use crate::tally;
use vstd::prelude::*;

verus! {

/// Width and height of a frame.
pub const FRAME_SIDE: u32 = 16;

/// Bytes of a frame.
pub const FRAME_BYTES: usize = 256;

/// Width of a frame that is looked at for bars.
pub const PRESCAN_W: u32 = 160;

/// Height of a frame that is looked at for bars.
pub const PRESCAN_H: u32 = 120;

/// Frames that are looked at for bars.
pub const PRESCAN_FRAMES: usize = 8;

/// Why frames could not be extracted.
#[derive(Debug, Clone, PartialEq, Eq)]
pub enum FrameExtractError {
    /// There is no ffmpeg in `PATH`.
    FfmpegNotFound,
    /// ffmpeg failed, and said why.
    FfmpegFailed(String),
    /// ffmpeg could not be run or read.
    Io(String),
    /// A window has too few frames.
    InsufficientFrames { window: usize, got: usize },
    /// The scan was stopped.
    Stopped,
    /// ffmpeg took too long.
    TimedOut { seconds: u64 },
}

impl FrameExtractError {
    /// The error as a message.
    pub open spec fn text(self) -> Seq<char> {
        match self {
            FrameExtractError::FfmpegNotFound => "ffmpeg not found in PATH"@,
            FrameExtractError::FfmpegFailed(stderr) => "ffmpeg failed: "@ + stderr@,
            FrameExtractError::Io(detail) => "IO error: "@ + detail@,
            FrameExtractError::InsufficientFrames { window, got } =>
                "Not enough valid frames in window "@ + text::numeral(window as nat) + " (got "@
                + text::numeral(got as nat) + ")"@,
            FrameExtractError::Stopped => "Extraction stopped"@,
            FrameExtractError::TimedOut { seconds } => "ffmpeg timed out after "@ + text::numeral(
                seconds as nat,
            ) + "s - file likely corrupt or stuck"@,
        }
    }

    /// The error as a message.
    pub fn message(&self) -> (message: String)
        ensures
            message@ == self.text(),
    {
        match self {
            FrameExtractError::FfmpegNotFound => String::from_str("ffmpeg not found in PATH"),
            FrameExtractError::FfmpegFailed(stderr) => {
                let mut message = String::from_str("ffmpeg failed: ");
                message.append(stderr.as_str());
                message
            },
            FrameExtractError::Io(detail) => {
                let mut message = String::from_str("IO error: ");
                message.append(detail.as_str());
                message
            },
            FrameExtractError::InsufficientFrames { window, got } => {
                let mut message = String::from_str("Not enough valid frames in window ");
                push_numeral(&mut message, *window as u64);
                message.append(" (got ");
                push_numeral(&mut message, *got as u64);
                message.append(")");
                message
            },
            FrameExtractError::Stopped => String::from_str("Extraction stopped"),
            FrameExtractError::TimedOut { seconds } => {
                let mut message = String::from_str("ffmpeg timed out after ");
                push_numeral(&mut message, *seconds);
                message.append("s - file likely corrupt or stuck");
                message
            },
        }
    }
}

// ---- The outcome of an ffmpeg process ----

/// What a process that was read to its end has to show: its output if it succeeded, and what it
/// said of its failure otherwise.
pub fn finished(success: bool, output: Vec<u8>, stderr: String) -> (result: Result<
    Vec<u8>,
    FrameExtractError,
>)
    ensures
        success ==> result == Ok::<Vec<u8>, FrameExtractError>(output),
        !success ==> result == Err::<Vec<u8>, FrameExtractError>(
            FrameExtractError::FfmpegFailed(stderr),
        ),
{
    if success {
        Ok(output)
    } else {
        Err(FrameExtractError::FfmpegFailed(stderr))
    }
}

/// Settles the outcome of an ffmpeg process: a process that was killed failed for that reason,
/// whatever was read of it.
pub fn settle(
    kill: Option<KillReason>,
    read: Result<Vec<u8>, FrameExtractError>,
    limit_secs: u64,
) -> (result: Result<Vec<u8>, FrameExtractError>)
    ensures
        result == match kill {
            Some(KillReason::Stopped) => Err(FrameExtractError::Stopped),
            Some(KillReason::TimedOut) => Err(FrameExtractError::TimedOut { seconds: limit_secs }),
            None => read,
        },
{
    match kill {
        Some(KillReason::Stopped) => Err(FrameExtractError::Stopped),
        Some(KillReason::TimedOut) => Err(FrameExtractError::TimedOut { seconds: limit_secs }),
        None => read,
    }
}

/// The error of an ffmpeg that could not be started.
pub fn spawn_error(not_found: bool, detail: String) -> (error: FrameExtractError)
    ensures
        error == if not_found {
            FrameExtractError::FfmpegNotFound
        } else {
            FrameExtractError::Io(detail)
        },
{
    if not_found {
        FrameExtractError::FfmpegNotFound
    } else {
        FrameExtractError::Io(detail)
    }
}

// ---- Frames of a window ----

/// The pixels of one of the frames that bytes hold; zeros, where the bytes end before it does.
pub open spec fn nth_frame(raw: Seq<u8>, size: nat, k: int) -> Seq<u8> {
    if (k + 1) * size <= raw.len() {
        raw.subrange(k * size, (k + 1) * size)
    } else {
        Seq::new(size, |i: int| 0u8)
    }
}

/// A frame of 16 by 16 pixels.
pub open spec fn small(pixels: Seq<u8>) -> Picture {
    Picture { width: 16, height: 16, pixels }
}

/// The frames of a window, before black ones are replaced.
pub open spec fn window_pictures(raw: Seq<u8>, frames_per_window: nat) -> Seq<Picture> {
    Seq::new(frames_per_window, |k: int| small(nth_frame(raw, 256, k)))
}

/// Copies the bytes of one frame.
fn cut(raw: &[u8], from: usize, size: usize) -> (pixels: Vec<u8>)
    requires
        from + size <= raw@.len(),
    ensures
        pixels@ == raw@.subrange(from as int, from + size),
{
    let mut pixels: Vec<u8> = Vec::new();
    let n: usize = raw.len();
    let mut i: usize = 0;
    while i < size
        invariant
            i <= size,
            from + size <= n,
            n == raw@.len(),
            pixels@ == raw@.subrange(from as int, from + i),
        decreases size - i,
    {
        pixels.push(raw[from + i]);
        assert(pixels@ =~= raw@.subrange(from as int, from + i + 1));
        i = i + 1;
    }
    pixels
}

/// The frames of a window: the complete ones among its first frames, and frames of zeros for
/// those that are missing.
pub fn window_frames(raw: &[u8], frames_per_window: usize) -> (frames: Vec<GrayFrame>)
    ensures
        frame::all_wf(frames@),
        frame::pictures(frames@) == window_pictures(raw@, frames_per_window as nat),
{
    let mut frames: Vec<GrayFrame> = Vec::new();
    let n: usize = raw.len();
    let whole: usize = n / 256;
    let mut k: usize = 0;
    while k < frames_per_window
        invariant
            k <= frames_per_window,
            n == raw@.len(),
            whole == n / 256,
            frames@.len() == k,
            frame::all_wf(frames@),
            forall|j: int|
                0 <= j < k ==> (#[trigger] frames@[j])@ == small(nth_frame(raw@, 256, j)),
        decreases frames_per_window - k,
    {
        if k < whole {
            let pixels = cut(raw, k * 256, 256);
            frames.push(GrayFrame { width: FRAME_SIDE, height: FRAME_SIDE, pixels });
        } else {
            let blank = GrayFrame::from_pixel(FRAME_SIDE, FRAME_SIDE, 0);
            assert(blank.pixels@ =~= nth_frame(raw@, 256, k as int));
            frames.push(blank);
        }
        k = k + 1;
    }
    assert(frame::pictures(frames@) =~= window_pictures(raw@, frames_per_window as nat));
    frames
}

// ---- Black frames ----

/// How many pixels are at most 32.
pub open spec fn dark_pixels(pixels: Seq<u8>) -> nat
    decreases pixels.len(),
{
    if pixels.len() == 0 {
        0
    } else {
        dark_pixels(pixels.drop_last()) + if pixels.last() <= 32 { 1nat } else { 0nat }
    }
}

/// Whether a frame is black: at least 80 % of its pixels are at most 32.
pub open spec fn is_black(pixels: Seq<u8>) -> bool {
    pixels.len() > 0 && 5 * dark_pixels(pixels) >= 4 * pixels.len()
}

/// Whether at least 80 % of the pixels are dark.
pub fn is_black_frame(data: &[u8]) -> (black: bool)
    ensures
        black == is_black(data@),
{
    let mut dark: usize = 0;
    let mut i: usize = 0;
    assert(data@.take(0) =~= Seq::<u8>::empty());
    while i < data.len()
        invariant
            i <= data@.len(),
            dark <= i,
            dark == dark_pixels(data@.take(i as int)),
        decreases data@.len() - i,
    {
        assert(data@.take(i + 1).drop_last() =~= data@.take(i as int));
        assert(data@.take(i + 1).last() == data@[i as int]);
        if data[i] <= 0x20 {
            dark = dark + 1;
        }
        i = i + 1;
    }
    assert(data@.take(i as int) =~= data@);
    data.len() > 0 && 5 * dark as u128 >= 4 * data.len() as u128
}

/// The first frame in `[i, end)` that is not black, or `end`.
pub open spec fn next_bright(frames: Seq<Picture>, i: int, end: int) -> int
    decreases end - i,
{
    if i >= end {
        end
    } else if !is_black(frames[i].pixels) {
        i
    } else {
        next_bright(frames, i + 1, end)
    }
}

/// The last frame in `[start, i]` that is not black, or `start - 1`.
pub open spec fn last_bright(frames: Seq<Picture>, start: int, i: int) -> int
    decreases i - start + 1,
{
    if i < start {
        start - 1
    } else if !is_black(frames[i].pixels) {
        i
    } else {
        last_bright(frames, start, i - 1)
    }
}

/// The frame of the window `[start, end)` that stands for frame `i`: itself where it is not black,
/// else the next one that is not, else the last one before that is not, else itself.
pub open spec fn stand_in(frames: Seq<Picture>, start: int, end: int, i: int) -> int {
    let next = next_bright(frames, i + 1, end);
    let last = last_bright(frames, start, i - 1);
    if !is_black(frames[i].pixels) {
        i
    } else if next < end {
        next
    } else if last >= start {
        last
    } else {
        i
    }
}

/// The frames with black ones replaced, window by window. Frames after the last whole window stay
/// as they are.
pub open spec fn brightened(frames: Seq<Picture>, frames_per_window: int) -> Seq<Picture> {
    Seq::new(
        frames.len(),
        |i: int|
            {
                let start = (i / frames_per_window) * frames_per_window;
                let end = start + frames_per_window;
                if end <= frames.len() {
                    frames[stand_in(frames, start, end, i)]
                } else {
                    frames[i]
                }
            },
    )
}

proof fn lemma_next_bright(frames: Seq<Picture>, i: int, end: int)
    requires
        i <= end,
    ensures
        i <= next_bright(frames, i, end) <= end,
        next_bright(frames, i, end) < end ==> !is_black(
            frames[next_bright(frames, i, end)].pixels,
        ),
        forall|j: int|
            i <= j < next_bright(frames, i, end) ==> is_black((#[trigger] frames[j]).pixels),
    decreases end - i,
{
    if i < end && is_black(frames[i].pixels) {
        lemma_next_bright(frames, i + 1, end);
    }
}

proof fn lemma_last_bright(frames: Seq<Picture>, start: int, i: int)
    requires
        start - 1 <= i,
    ensures
        start - 1 <= last_bright(frames, start, i) <= i,
        last_bright(frames, start, i) >= start ==> !is_black(
            frames[last_bright(frames, start, i)].pixels,
        ),
        forall|j: int|
            last_bright(frames, start, i) < j <= i ==> is_black((#[trigger] frames[j]).pixels),
    decreases i - start + 1,
{
    if i >= start && is_black(frames[i].pixels) {
        lemma_last_bright(frames, start, i - 1);
    }
}

proof fn lemma_stand_in(frames: Seq<Picture>, start: int, end: int, i: int)
    requires
        start <= i < end,
    ensures
        start <= stand_in(frames, start, end, i) < end,
        stand_in(frames, start, end, i) != i ==> !is_black(
            frames[stand_in(frames, start, end, i)].pixels,
        ) && is_black(frames[i].pixels),
{
    lemma_next_bright(frames, i + 1, end);
    lemma_last_bright(frames, start, i - 1);
}

/// Finds the frame that stands for frame `i` of a window.
fn find_stand_in(frames: &Vec<GrayFrame>, start: usize, end: usize, i: usize) -> (j: usize)
    requires
        start <= i < end <= frames@.len(),
    ensures
        j == stand_in(frame::pictures(frames@), start as int, end as int, i as int),
        start <= j < end,
{
    let ghost all = frame::pictures(frames@);
    if !is_black_frame(frames[i].pixels.as_slice()) {
        return i;
    }
    let mut next: usize = i + 1;
    while next < end
        invariant
            i < next <= end <= frames@.len(),
            start <= i,
            all == frame::pictures(frames@),
            is_black(all[i as int].pixels),
            next_bright(all, i + 1, end as int) == next_bright(all, next as int, end as int),
        decreases end - next,
    {
        if !is_black_frame(frames[next].pixels.as_slice()) {
            return next;
        }
        next = next + 1;
    }
    let mut last: usize = i;
    while last > start
        invariant
            start <= last <= i < end <= frames@.len(),
            all == frame::pictures(frames@),
            is_black(all[i as int].pixels),
            next_bright(all, i + 1, end as int) == end,
            last_bright(all, start as int, i - 1) == last_bright(all, start as int, last - 1),
        decreases last,
    {
        if !is_black_frame(frames[last - 1].pixels.as_slice()) {
            return last - 1;
        }
        last = last - 1;
    }
    i
}

/// Replaces the black frames of one window.
fn brighten_window(frames: &mut Vec<GrayFrame>, start: usize, end: usize)
    requires
        start <= end <= old(frames)@.len(),
        frame::all_wf(old(frames)@),
        forall|i: int|
            start <= i < end ==> (#[trigger] old(frames)@[i]).width == 16 && old(frames)@[i].height
                == 16,
    ensures
        final(frames)@.len() == old(frames)@.len(),
        frame::all_wf(final(frames)@),
        forall|i: int|
            0 <= i < final(frames)@.len() ==> (#[trigger] final(frames)@[i])@ == if start <= i
                < end {
                old(frames)@[stand_in(
                    frame::pictures(old(frames)@),
                    start as int,
                    end as int,
                    i,
                )]@
            } else {
                old(frames)@[i]@
            },
{
    let ghost before = frames@;
    let ghost all = frame::pictures(frames@);
    let mut sources: Vec<usize> = Vec::new();
    let mut i: usize = start;
    while i < end
        invariant
            start <= i <= end <= frames@.len(),
            frames@ == before,
            all == frame::pictures(before),
            sources@.len() == i - start,
            forall|k: int|
                0 <= k < sources@.len() ==> start <= #[trigger] sources@[k] < end && sources@[k]
                    == stand_in(all, start as int, end as int, start + k),
        decreases end - i,
    {
        let source: usize = find_stand_in(frames, start, end, i);
        sources.push(source);
        i = i + 1;
    }
    i = start;
    while i < end
        invariant
            start <= i <= end <= frames@.len(),
            frames@.len() == before.len(),
            all == frame::pictures(before),
            sources@.len() == end - start,
            forall|k: int|
                0 <= k < sources@.len() ==> start <= #[trigger] sources@[k] < end && sources@[k]
                    == stand_in(all, start as int, end as int, start + k),
            frame::all_wf(frames@),
            forall|k: int|
                start <= k < end ==> (#[trigger] before[k]).width == 16 && before[k].height == 16,
            forall|k: int|
                0 <= k < frames@.len() ==> (#[trigger] frames@[k])@ == if start <= k < i {
                    before[stand_in(all, start as int, end as int, k)]@
                } else {
                    before[k]@
                },
        decreases end - i,
    {
        let ghost current = frames@;
        let source: usize = sources[i - start];
        proof {
            lemma_stand_in(all, start as int, end as int, i as int);
            assert(all[source as int] == before[source as int]@);
            assert(all[i as int] == before[i as int]@);
            lemma_stand_in(all, start as int, end as int, source as int);
            assert(current[source as int]@ == before[source as int]@);
            assert(before[source as int].width == 16);
            assert(before[i as int].width == 16);
        }
        if source != i {
            let pixels = cut(frames[source].pixels.as_slice(), 0, frames[source].pixels.len());
            assert(pixels@ =~= current[source as int].pixels@);
            frames.set(i, GrayFrame { width: FRAME_SIDE, height: FRAME_SIDE, pixels });
        }
        assert forall|k: int| 0 <= k < frames@.len() implies (#[trigger] frames@[k])@ == (if start
            <= k < i + 1 {
            before[stand_in(all, start as int, end as int, k)]@
        } else {
            before[k]@
        }) by {
            assert(current[k]@ == if start <= k < i {
                before[stand_in(all, start as int, end as int, k)]@
            } else {
                before[k]@
            });
        }
        i = i + 1;
    }
}

/// Replaces black frames by neighbours within each window.
pub fn replace_black_frames(frames: &mut Vec<GrayFrame>, frames_per_window: usize)
    requires
        frames_per_window > 0,
        frame::all_wf(old(frames)@),
        forall|i: int|
            0 <= i < old(frames)@.len() ==> (#[trigger] old(frames)@[i]).width == 16 && old(
                frames,
            )@[i].height == 16,
    ensures
        frame::all_wf(final(frames)@),
        frame::pictures(final(frames)@) == brightened(
            frame::pictures(old(frames)@),
            frames_per_window as int,
        ),
{
    let ghost before = frames@;
    let ghost all = frame::pictures(frames@);
    let n: usize = frames.len();
    let mut start: usize = 0;
    let ghost mut w: int = 0;
    assert(0 * frames_per_window == 0) by (nonlinear_arith);
    while n - start >= frames_per_window
        invariant
            frames_per_window > 0,
            start <= n,
            start == w * frames_per_window,
            w >= 0,
            n == frames@.len(),
            n == before.len(),
            all == frame::pictures(before),
            frame::all_wf(frames@),
            forall|i: int|
                0 <= i < n ==> (#[trigger] before[i]).width == 16 && before[i].height == 16,
            forall|i: int|
                0 <= i < n ==> (#[trigger] frames@[i])@ == if i < start {
                    brightened(all, frames_per_window as int)[i]
                } else {
                    before[i]@
                },
        decreases n - start,
    {
        let end: usize = start + frames_per_window;
        let ghost current = frames@;
        let ghost current_all = frame::pictures(frames@);
        assert forall|i: int| start <= i < end implies (#[trigger] frames@[i]).width == 16
            && frames@[i].height == 16 by {
            assert(frames@[i]@ == before[i]@);
            assert(before[i].width == 16);
        }
        brighten_window(frames, start, end);
        assert forall|i: int| 0 <= i < n implies (#[trigger] frames@[i])@ == (if i < end {
            brightened(all, frames_per_window as int)[i]
        } else {
            before[i]@
        }) by {
            if start <= i < end {
                assert(i / frames_per_window as int == w) by {
                    vstd::arithmetic::div_mod::lemma_fundamental_div_mod_converse(
                        i,
                        frames_per_window as int,
                        w,
                        i - start,
                    );
                }
                lemma_stand_in(all, start as int, end as int, i);
                assert forall|k: int| start <= k < end implies current_all[k] == all[k] by {
                    assert(current[k]@ == before[k]@);
                }
                lemma_same_stand_in(current_all, all, start as int, end as int, i);
                let s = stand_in(all, start as int, end as int, i);
                assert(current[s]@ == before[s]@);
            } else {
                assert(current[i]@ == if i < start {
                    brightened(all, frames_per_window as int)[i]
                } else {
                    before[i]@
                });
            }
        }
        proof {
            assert((w + 1) * frames_per_window == w * frames_per_window + frames_per_window)
                by (nonlinear_arith);
            w = w + 1;
        }
        start = end;
    }
    assert forall|i: int| 0 <= i < n implies (#[trigger] frames@[i])@ == brightened(
        all,
        frames_per_window as int,
    )[i] by {
        if i >= start {
            let q = i / frames_per_window as int;
            vstd::arithmetic::div_mod::lemma_fundamental_div_mod(i, frames_per_window as int);
            vstd::arithmetic::div_mod::lemma_div_is_ordered(
                start as int,
                i,
                frames_per_window as int,
            );
            vstd::arithmetic::div_mod::lemma_div_multiples_vanish(w, frames_per_window as int);
            assert(w * frames_per_window == frames_per_window * w) by (nonlinear_arith);
            assert(q * frames_per_window >= w * frames_per_window) by (nonlinear_arith)
                requires
                    q >= w,
                    frames_per_window > 0,
            ;
        }
    }
    assert(frame::pictures(frames@) =~= brightened(all, frames_per_window as int));
}

proof fn lemma_same_stand_in(a: Seq<Picture>, b: Seq<Picture>, start: int, end: int, i: int)
    requires
        start <= i < end,
        forall|k: int| start <= k < end ==> a[k] == b[k],
    ensures
        stand_in(a, start, end, i) == stand_in(b, start, end, i),
{
    lemma_same_next(a, b, i + 1, end);
    lemma_same_last(a, b, start, i - 1);
}

proof fn lemma_same_next(a: Seq<Picture>, b: Seq<Picture>, i: int, end: int)
    requires
        forall|k: int| i <= k < end ==> a[k] == b[k],
    ensures
        next_bright(a, i, end) == next_bright(b, i, end),
    decreases end - i,
{
    if i < end {
        lemma_same_next(a, b, i + 1, end);
    }
}

proof fn lemma_same_last(a: Seq<Picture>, b: Seq<Picture>, start: int, i: int)
    requires
        forall|k: int| start <= k <= i ==> a[k] == b[k],
    ensures
        last_bright(a, start, i) == last_bright(b, start, i),
    decreases i - start + 1,
{
    if i >= start {
        lemma_same_last(a, b, start, i - 1);
    }
}

// ---- All windows ----

/// The frames of all windows, one window after the other, before black ones are replaced.
pub open spec fn all_pictures(raws: Seq<Seq<u8>>, frames_per_window: nat) -> Seq<Picture>
    decreases raws.len(),
{
    if raws.len() == 0 {
        Seq::empty()
    } else {
        all_pictures(raws.drop_last(), frames_per_window) + window_pictures(
            raws.last(),
            frames_per_window,
        )
    }
}

/// The contents of byte vectors.
pub open spec fn contents(raws: Seq<Vec<u8>>) -> Seq<Seq<u8>> {
    Seq::new(raws.len(), |i: int| raws[i]@)
}

/// The frames of all windows, from what ffmpeg wrote for each of them: as many for each window as
/// asked for, one window after the other, with black frames replaced.
pub fn collect_frames(raws: &Vec<Vec<u8>>, frames_per_window: usize) -> (frames: Vec<GrayFrame>)
    requires
        frames_per_window > 0,
    ensures
        frame::all_wf(frames@),
        frame::pictures(frames@) == brightened(
            all_pictures(contents(raws@), frames_per_window as nat),
            frames_per_window as int,
        ),
        frames@.len() == raws@.len() * frames_per_window,
{
    let mut frames: Vec<GrayFrame> = Vec::new();
    let mut w: usize = 0;
    let ghost every = contents(raws@);
    assert(frame::pictures(frames@) =~= all_pictures(every.take(0), frames_per_window as nat));
    while w < raws.len()
        invariant
            w <= raws@.len(),
            every == contents(raws@),
            frame::all_wf(frames@),
            frame::pictures(frames@) == all_pictures(
                every.take(w as int),
                frames_per_window as nat,
            ),
            forall|i: int|
                0 <= i < frames@.len() ==> (#[trigger] frames@[i]).width == 16 && frames@[i].height
                    == 16,
        decreases raws@.len() - w,
    {
        let ghost before = frames@;
        let mut more = window_frames(raws[w].as_slice(), frames_per_window);
        let ghost added = more@;
        frames.append(&mut more);
        proof {
            assert(every.take(w + 1).drop_last() =~= every.take(w as int));
            assert(frame::pictures(frames@) =~= frame::pictures(before) + frame::pictures(added));
            assert forall|i: int| 0 <= i < added.len() implies (#[trigger] added[i]).width == 16
                && added[i].height == 16 by {
                assert(frame::pictures(added)[i] == added[i]@);
            }
        }
        w = w + 1;
    }
    proof {
        assert(every.take(w as int) =~= every);
        law_windows_are_complete(every, frames_per_window as nat);
    }
    replace_black_frames(&mut frames, frames_per_window);
    assert(frame::pictures(frames@).len() == frames@.len());
    frames
}

// ---- Bars ----

/// The frames of 160 by 120 pixels that bytes hold.
pub open spec fn prescan_pictures(raw: Seq<u8>) -> Seq<Picture> {
    Seq::new(
        raw.len() / 19_200,
        |k: int| Picture { width: 160, height: 120, pixels: nth_frame(raw, 19_200, k) },
    )
}

/// The bars that the frames of a pre-scan have in common.
pub open spec fn prescan_crop(raw: Seq<u8>) -> Crop {
    cropdetect::sampled(
        prescan_pictures(raw),
        cropdetect::sample_count(prescan_pictures(raw).len()),
    )
}

/// Detects the bars that the frames of a pre-scan have in common, if there are any.
pub fn detect_crop(raw: &[u8]) -> (crop: Option<Crop>)
    ensures
        ({
            let bars = prescan_crop(raw@);
            let none = bars.left == 0 && bars.right == 0 && bars.top == 0 && bars.bottom == 0;
            crop == if none { None::<Crop> } else { Some(bars) }
        }),
{
    let n: usize = raw.len();
    let whole: usize = n / 19_200;
    let mut frames: Vec<GrayFrame> = Vec::new();
    let mut k: usize = 0;
    while k < whole
        invariant
            k <= whole,
            n == raw@.len(),
            whole == n / 19_200,
            frames@.len() == k,
            frame::all_wf(frames@),
            forall|j: int|
                0 <= j < k ==> (#[trigger] frames@[j])@ == (Picture {
                    width: 160,
                    height: 120,
                    pixels: nth_frame(raw@, 19_200, j),
                }),
        decreases whole - k,
    {
        let pixels = cut(raw, k * 19_200, 19_200);
        let frame = GrayFrame { width: PRESCAN_W, height: PRESCAN_H, pixels };
        assert(frame.wf()) by (nonlinear_arith)
            requires
                frame.pixels@.len() == 19_200,
                frame.width == 160,
                frame.height == 120,
        ;
        frames.push(frame);
        k = k + 1;
    }
    assert(frame::pictures(frames@) =~= prescan_pictures(raw@));
    let crop = detect_letterbox_multi(frames.as_slice());
    if crop.is_empty() {
        None
    } else {
        Some(crop)
    }
}

/// The window in which bars are looked for: the middle one, if there is any.
pub fn prescan_window(windows: &[(Double, Double)]) -> (window: Option<(Double, Double)>)
    ensures
        window is None <==> windows@.len() == 0,
        window matches Some(w) ==> w == windows@[windows@.len() as int / 2],
{
    if windows.len() == 0 {
        None
    } else {
        Some(windows[windows.len() / 2])
    }
}

// ---- Laws ----

/// Every window has as many frames as asked for, whatever ffmpeg wrote.
pub proof fn law_windows_are_complete(raws: Seq<Seq<u8>>, frames_per_window: nat)
    ensures
        all_pictures(raws, frames_per_window).len() == raws.len() * frames_per_window,
    decreases raws.len(),
{
    if raws.len() > 0 {
        law_windows_are_complete(raws.drop_last(), frames_per_window);
        assert((raws.len() - 1) * frames_per_window + frames_per_window == raws.len()
            * frames_per_window) by (nonlinear_arith);
    } else {
        assert(0 * frames_per_window == 0) by (nonlinear_arith);
    }
}

/// Frame `k` of window `w` stands at position `w * frames_per_window + k`.
pub proof fn law_windows_lie_in_order(
    raws: Seq<Seq<u8>>,
    frames_per_window: nat,
    w: int,
    k: int,
)
    requires
        0 <= w < raws.len(),
        0 <= k < frames_per_window,
    ensures
        all_pictures(raws, frames_per_window)[w * frames_per_window + k] == small(
            nth_frame(raws[w], 256, k),
        ),
    decreases raws.len(),
{
    let prefix = raws.drop_last();
    law_windows_are_complete(prefix, frames_per_window);
    if w < raws.len() - 1 {
        law_windows_lie_in_order(prefix, frames_per_window, w, k);
        assert(0 <= w * frames_per_window + k < prefix.len() * frames_per_window)
            by (nonlinear_arith)
            requires
                0 <= w < prefix.len(),
                0 <= k < frames_per_window,
        ;
    }
}

/// A frame that is not black is kept, and a black one is replaced wherever its window has a frame
/// that is not: then no frame of the window is black any more. Every replacement comes from the
/// frame's own window.
pub proof fn law_black_frames_are_replaced(
    frames: Seq<Picture>,
    start: int,
    end: int,
    i: int,
    bright: int,
)
    requires
        start <= i < end,
        start <= bright < end,
        !is_black(frames[bright].pixels),
    ensures
        !is_black(frames[stand_in(frames, start, end, i)].pixels),
        start <= stand_in(frames, start, end, i) < end,
        !is_black(frames[i].pixels) ==> stand_in(frames, start, end, i) == i,
{
    lemma_stand_in(frames, start, end, i);
    lemma_next_bright(frames, i + 1, end);
    lemma_last_bright(frames, start, i - 1);
}

/// In a window of black frames alone, every frame stays as it is.
pub proof fn law_black_windows_are_kept(frames: Seq<Picture>, start: int, end: int, i: int)
    requires
        start <= i < end,
        forall|j: int| start <= j < end ==> is_black((#[trigger] frames[j]).pixels),
    ensures
        stand_in(frames, start, end, i) == i,
{
    lemma_stand_in(frames, start, end, i);
}

/// Pixel (x, y) of frame `k` of window `w` is the byte at `256 k + 16 y + x` of what ffmpeg wrote for
/// that window, if it wrote the whole frame, and black if it did not.
pub proof fn law_frames_show_what_was_written(
    raws: Seq<Seq<u8>>,
    frames_per_window: nat,
    w: int,
    k: int,
    x: int,
    y: int,
)
    requires
        0 <= w < raws.len(),
        0 <= k < frames_per_window,
        0 <= x < 16,
        0 <= y < 16,
    ensures
        ({
            let frame = all_pictures(raws, frames_per_window)[w * frames_per_window + k];
            &&& frame.width == 16 && frame.height == 16
            &&& frame.at(x, y) == if 256 * (k + 1) <= raws[w].len() {
                raws[w][256 * k + 16 * y + x]
            } else {
                0u8
            }
        }),
{
    law_windows_lie_in_order(raws, frames_per_window, w, k);
}

/// A frame is black exactly where at least four fifths of its pixels are at most 32.
pub proof fn law_black_is_four_fifths_dark(pixels: Seq<u8>)
    ensures
        is_black(pixels) <==> pixels.len() > 0 && 5 * tally::tally(
            pixels.len() as int,
            |i: int| pixels[i] <= 32,
        ) >= 4 * pixels.len(),
{
    lemma_dark_count(pixels);
}

proof fn lemma_dark_count(pixels: Seq<u8>)
    ensures
        dark_pixels(pixels) == tally::tally(pixels.len() as int, |i: int| pixels[i] <= 32),
    decreases pixels.len(),
{
    if pixels.len() > 0 {
        let front = pixels.drop_last();
        lemma_dark_count(front);
        tally::lemma_tally_of_same(
            front.len() as int,
            |i: int| front[i] <= 32,
            |i: int| pixels[i] <= 32,
        );
    }
}

/// In a window, a black frame is replaced by the next one that is not black; where none follows, by
/// the last one before; and it stays where all are black. A frame that is not black stays. Here
/// `near` is the frame that is shown in place of frame `i` of the window that starts at `start`.
pub proof fn law_black_frames_show_a_neighbour(
    frames: Seq<Picture>,
    frames_per_window: int,
    start: int,
    i: int,
    near: int,
)
    requires
        frames_per_window > 0,
        0 <= start <= i < start + frames_per_window <= frames.len(),
        start % frames_per_window == 0,
        start <= near < start + frames_per_window,
        !is_black(frames[i].pixels) ==> near == i,
        is_black(frames[i].pixels) && near > i ==> !is_black(frames[near].pixels) && forall|j: int|
            i < j < near ==> is_black((#[trigger] frames[j]).pixels),
        is_black(frames[i].pixels) && near < i ==> !is_black(frames[near].pixels) && forall|j: int|
            near < j < start + frames_per_window ==> is_black((#[trigger] frames[j]).pixels),
        is_black(frames[i].pixels) && near == i ==> forall|j: int|
            start <= j < start + frames_per_window ==> is_black((#[trigger] frames[j]).pixels),
    ensures
        brightened(frames, frames_per_window).len() == frames.len(),
        brightened(frames, frames_per_window)[i] == frames[near],
{
    let end = start + frames_per_window;
    let w = start / frames_per_window;
    vstd::arithmetic::div_mod::lemma_fundamental_div_mod(start, frames_per_window);
    assert(w * frames_per_window == start) by (nonlinear_arith)
        requires
            start == frames_per_window * w + 0,
    ;
    vstd::arithmetic::div_mod::lemma_fundamental_div_mod_converse(
        i,
        frames_per_window,
        w,
        i - start,
    );
    lemma_next_bright(frames, i + 1, end);
    lemma_last_bright(frames, start, i - 1);
    let next = next_bright(frames, i + 1, end);
    let last = last_bright(frames, start, i - 1);
    if is_black(frames[i].pixels) {
        if near > i {
            if next < near {
                assert(is_black(frames[next].pixels));
            }
            if next > near {
                assert(is_black(frames[near].pixels));
            }
        } else if near < i {
            if next < end {
                assert(is_black(frames[next].pixels));
            }
            if last > near {
                assert(is_black(frames[last].pixels));
            }
            if last < near {
                assert(is_black(frames[near].pixels));
            }
        } else {
            if next < end {
                assert(is_black(frames[next].pixels));
            }
            if last >= start {
                assert(is_black(frames[last].pixels));
            }
        }
    }
}

/// A pre-scan has as many frames as whole ones were written. Pixel (x, y) of frame `k` is the byte
/// at `19200 k + 160 y + x`.
pub proof fn law_prescan_frames_show_what_was_written(raw: Seq<u8>, k: int, x: int, y: int)
    requires
        0 <= k,
        19_200 * (k + 1) <= raw.len(),
        0 <= x < 160,
        0 <= y < 120,
    ensures
        19_200 * prescan_pictures(raw).len() <= raw.len() < 19_200 * (prescan_pictures(raw).len()
            + 1),
        k < prescan_pictures(raw).len(),
        prescan_pictures(raw)[k].width == 160,
        prescan_pictures(raw)[k].height == 120,
        prescan_pictures(raw)[k].at(x, y) == raw[19_200 * k + 160 * y + x],
        prescan_crop(raw) == cropdetect::shared_crop(prescan_pictures(raw)),
{
}

} // verus!
