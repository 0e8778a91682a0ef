//! What a detected crop says of the pixels of frames.

use crate::tally;
use crate::visual::cropdetect::{self, Crop, Side};
use crate::visual::frame::Picture;
use vstd::prelude::*;

verus! {

/// What a crop leaves off at an edge.
pub open spec fn edge(crop: Crop, side: Side) -> int {
    match side {
        Side::Top => crop.top as int,
        Side::Bottom => crop.bottom as int,
        Side::Left => crop.left as int,
        Side::Right => crop.right as int,
    }
}

/// The length of the rows or columns along an edge.
pub open spec fn line_len(frame: Picture, side: Side) -> int {
    match side {
        Side::Top | Side::Bottom => frame.width as int,
        Side::Left | Side::Right => frame.height as int,
    }
}

/// How far it is from an edge to the opposite one.
pub open spec fn depth(frame: Picture, side: Side) -> int {
    match side {
        Side::Top | Side::Bottom => frame.height as int,
        Side::Left | Side::Right => frame.width as int,
    }
}

/// Pixel `i` of the row or column that is `k` pixels away from an edge.
pub open spec fn pixel(frame: Picture, side: Side, k: int, i: int) -> int {
    match side {
        Side::Top => frame.at(i, k) as int,
        Side::Bottom => frame.at(i, frame.height - 1 - k) as int,
        Side::Left => frame.at(k, i) as int,
        Side::Right => frame.at(frame.width - 1 - k, i) as int,
    }
}

/// How many pixels of a row or column have values from `low` to `high`.
pub open spec fn between(frame: Picture, side: Side, k: int, low: int, high: int) -> nat {
    tally::tally(line_len(frame, side), |i: int| low <= pixel(frame, side, k, i) <= high)
}

/// Whether a row or column is surely dark: more than half of it has one value of at most 32, and
/// at least nine tenths are at most 16 away from that.
pub open spec fn is_dark(frame: Picture, side: Side, k: int, value: int) -> bool {
    &&& 0 <= value <= 32
    &&& 2 * between(frame, side, k, value, value) > line_len(frame, side)
    &&& 10 * between(frame, side, k, value - 16, value + 16) >= 9 * line_len(frame, side)
}

/// Whether a row or column is surely bright: more than a tenth of it is above 48.
pub open spec fn is_bright(frame: Picture, side: Side, k: int) -> bool {
    10 * between(frame, side, k, 49, 255) > line_len(frame, side)
}

// ---- Rows and columns ----

proof fn lemma_occurrences(pixels: Seq<u8>, value: u8)
    ensures
        cropdetect::occurrences(pixels, value) == tally::tally(
            pixels.len() as int,
            |i: int| pixels[i] == value,
        ),
    decreases pixels.len(),
{
    if pixels.len() > 0 {
        let n = pixels.len() - 1;
        lemma_occurrences(pixels.drop_last(), value);
        tally::lemma_tally_of_same(
            n,
            |i: int| pixels.drop_last()[i] == value,
            |i: int| pixels[i] == value,
        );
    }
}

proof fn lemma_near(pixels: Seq<u8>, value: u8)
    ensures
        cropdetect::near(pixels, value) == tally::tally(
            pixels.len() as int,
            |i: int| value - 16 <= pixels[i] <= value + 16,
        ),
    decreases pixels.len(),
{
    if pixels.len() > 0 {
        let n = pixels.len() - 1;
        lemma_near(pixels.drop_last(), value);
        tally::lemma_tally_of_same(
            n,
            |i: int| value - 16 <= pixels.drop_last()[i] <= value + 16,
            |i: int| value - 16 <= pixels[i] <= value + 16,
        );
    }
}

proof fn lemma_line(frame: Picture, side: Side, k: int, low: int, high: int)
    requires
        line_len(frame, side) >= 0,
    ensures
        cropdetect::strip(frame, side, k).len() == line_len(frame, side),
        between(frame, side, k, low, high) == tally::tally(
            line_len(frame, side),
            |i: int| low <= cropdetect::strip(frame, side, k)[i] <= high,
        ),
{
    tally::lemma_tally_of_same(
        line_len(frame, side),
        |i: int| low <= pixel(frame, side, k, i) <= high,
        |i: int| low <= cropdetect::strip(frame, side, k)[i] <= high,
    );
}

proof fn lemma_rarer(pixels: Seq<u8>, value: u8, other: u8)
    requires
        other != value,
    ensures
        cropdetect::occurrences(pixels, value) + cropdetect::occurrences(pixels, other)
            <= pixels.len(),
    decreases pixels.len(),
{
    if pixels.len() > 0 {
        lemma_rarer(pixels.drop_last(), value, other);
    }
}

/// A value that more than half of the pixels have is the most frequent one.
proof fn lemma_majority(pixels: Seq<u8>, value: u8)
    requires
        2 * cropdetect::occurrences(pixels, value) > pixels.len(),
    ensures
        cropdetect::mode(pixels) == value,
{
    assert forall|other: u8| other != value implies #[trigger] cropdetect::occurrences(
        pixels,
        other,
    ) < cropdetect::occurrences(pixels, value) by {
        lemma_rarer(pixels, value, other);
    }
    assert(cropdetect::is_mode(pixels, value));
    let chosen = cropdetect::mode(pixels);
    assert(cropdetect::is_mode(pixels, chosen));
    assert(cropdetect::occurrences(pixels, value) <= cropdetect::occurrences(pixels, chosen));
}

proof fn lemma_dark_is_bar(frame: Picture, side: Side, k: int, value: int)
    requires
        line_len(frame, side) > 0,
        is_dark(frame, side, k, value),
    ensures
        cropdetect::is_bar(cropdetect::strip(frame, side, k)),
{
    let pixels = cropdetect::strip(frame, side, k);
    let n = line_len(frame, side);
    lemma_line(frame, side, k, value, value);
    lemma_line(frame, side, k, value - 16, value + 16);
    lemma_occurrences(pixels, value as u8);
    lemma_near(pixels, value as u8);
    tally::lemma_tally_of_same(
        n,
        |i: int| value <= pixels[i] <= value,
        |i: int| pixels[i] == value as u8,
    );
    tally::lemma_tally_of_same(
        n,
        |i: int| value - 16 <= pixels[i] <= value + 16,
        |i: int| (value as u8) - 16 <= pixels[i] <= (value as u8) + 16,
    );
    lemma_majority(pixels, value as u8);
}

/// A row or column of a bar has nine tenths of its pixels near to a dark value.
proof fn lemma_bar_is_dark(frame: Picture, side: Side, k: int) -> (value: int)
    requires
        line_len(frame, side) >= 0,
        cropdetect::is_bar(cropdetect::strip(frame, side, k)),
    ensures
        0 <= value <= 32,
        10 * between(frame, side, k, value - 16, value + 16) >= 9 * line_len(frame, side),
        !is_bright(frame, side, k),
{
    let pixels = cropdetect::strip(frame, side, k);
    let n = line_len(frame, side);
    let value = cropdetect::mode(pixels);
    lemma_near(pixels, value);
    lemma_line(frame, side, k, value - 16, value + 16);
    tally::lemma_tally_of_apart(
        n,
        |i: int| value - 16 <= pixel(frame, side, k, i) <= value + 16,
        |i: int| 49 <= pixel(frame, side, k, i) <= 255,
    );
    value as int
}

proof fn lemma_scan(frame: Picture, side: Side, from: int, k: int)
    requires
        line_len(frame, side) >= 0,
        0 <= from,
    ensures
        from <= k < cropdetect::bar_end(frame, side, from) ==> cropdetect::is_bar(
            cropdetect::strip(frame, side, k),
        ) && k < depth(frame, side) / 2,
        from <= cropdetect::bar_end(frame, side, from),
        from <= depth(frame, side) / 2 ==> cropdetect::bar_end(frame, side, from) <= depth(
            frame,
            side,
        ) / 2,
    decreases depth(frame, side) / 2 - from,
{
    if from < depth(frame, side) / 2 && cropdetect::is_bar(cropdetect::strip(frame, side, from)) {
        lemma_scan(frame, side, from + 1, k);
    }
}

proof fn lemma_scan_reaches(frame: Picture, side: Side, from: int, k: int)
    requires
        line_len(frame, side) >= 0,
        0 <= from <= k <= depth(frame, side) / 2,
        forall|j: int|
            from <= j < k ==> cropdetect::is_bar(#[trigger] cropdetect::strip(frame, side, j)),
    ensures
        cropdetect::bar_end(frame, side, from) >= k,
    decreases k - from,
{
    if from < k {
        assert(cropdetect::is_bar(cropdetect::strip(frame, side, from)));
        lemma_scan_reaches(frame, side, from + 1, k);
    } else {
        lemma_scan(frame, side, from, k);
    }
}

// ---- Frames ----

/// What is left off of a frame is dark: of every row and column that is left off, nine tenths of
/// the pixels are at most 16 away from some value of at most 32. It lies within the half of the
/// frame that is next to the edge.
pub proof fn law_cropped_lines_are_dark(frame: Picture, side: Side, k: int)
    requires
        0 < frame.width <= u32::MAX,
        0 < frame.height <= u32::MAX,
        0 <= k < edge(cropdetect::letterbox(frame), side),
    ensures
        exists|value: int|
            0 <= value <= 32 && 10 * #[trigger] between(
                frame,
                side,
                k,
                value - 16,
                value + 16,
            ) >= 9 * line_len(frame, side),
        !is_bright(frame, side, k),
        2 * edge(cropdetect::letterbox(frame), side) <= depth(frame, side),
{
    lemma_scan(frame, side, 0, k);
    lemma_fit(frame);
    let value = lemma_bar_is_dark(frame, side, k);
    assert(10 * between(frame, side, k, value - 16, value + 16) >= 9 * line_len(frame, side));
}

/// Crops hold the thickness of each bar.
proof fn lemma_fit(frame: Picture)
    requires
        0 < frame.width <= u32::MAX,
        0 < frame.height <= u32::MAX,
    ensures
        ({
            let crop = cropdetect::letterbox(frame);
            forall|side: Side|
                edge(crop, side) == #[trigger] cropdetect::bar(frame, side) || edge(crop, side) == 0
        }),
        forall|side: Side| 0 <= #[trigger] cropdetect::bar(frame, side) <= depth(frame, side) / 2,
{
    assert forall|side: Side| 0 <= #[trigger] cropdetect::bar(frame, side) <= depth(frame, side)
        / 2 by {
        lemma_scan(frame, side, 0, 0);
    }
}

/// Dark rows and columns at an edge are left off: those from the edge up to the `k`th one, if each
/// is mostly of one dark value and nearly all near to it, and if there is something bright next to
/// the middle of the frame both along its rows and along its columns.
pub proof fn law_dark_lines_are_cropped(frame: Picture, side: Side, k: int, values: Seq<int>)
    requires
        0 < frame.width <= u32::MAX,
        0 < frame.height <= u32::MAX,
        0 <= k <= depth(frame, side) / 2,
        values.len() == k,
        forall|j: int| 0 <= j < k ==> is_dark(frame, side, j, #[trigger] values[j]),
        frame.height > 1 && is_bright(frame, Side::Top, frame.height / 2 - 1),
        frame.width > 1 && is_bright(frame, Side::Left, frame.width / 2 - 1),
    ensures
        edge(cropdetect::letterbox(frame), side) >= k,
{
    lemma_fit(frame);
    assert forall|j: int| 0 <= j < k implies cropdetect::is_bar(
        #[trigger] cropdetect::strip(frame, side, j),
    ) by {
        lemma_dark_is_bar(frame, side, j, values[j]);
    }
    lemma_scan_reaches(frame, side, 0, k);
    lemma_bright_middle(frame, Side::Top);
    lemma_bright_middle(frame, Side::Left);
    assert(cropdetect::bar(frame, Side::Bottom) <= depth(frame, Side::Bottom) / 2);
    assert(cropdetect::bar(frame, Side::Right) <= depth(frame, Side::Right) / 2);
}

proof fn lemma_bright_middle(frame: Picture, side: Side)
    requires
        line_len(frame, side) >= 0,
        depth(frame, side) > 1,
        is_bright(frame, side, depth(frame, side) / 2 - 1),
    ensures
        cropdetect::bar(frame, side) < depth(frame, side) / 2,
{
    let k = depth(frame, side) / 2 - 1;
    lemma_scan(frame, side, 0, k);
    if cropdetect::bar(frame, side) > k {
        let value = lemma_bar_is_dark(frame, side, k);
    }
}

/// A bright row or column ends a bar: nothing from there on is left off.
pub proof fn law_bright_lines_stay(frame: Picture, side: Side, k: int)
    requires
        0 < frame.width <= u32::MAX,
        0 < frame.height <= u32::MAX,
        0 <= k < depth(frame, side),
        is_bright(frame, side, k),
    ensures
        edge(cropdetect::letterbox(frame), side) <= k,
{
    if edge(cropdetect::letterbox(frame), side) > k {
        law_cropped_lines_are_dark(frame, side, k);
    }
}

// ---- Several frames ----

/// What eight frames or fewer have in common leaves off at each edge as much as the one of them
/// that has the thinnest bar there: no more than any of them, and as much as one of them.
pub proof fn law_few_frames_are_all_respected(frames: Seq<Picture>, side: Side)
    requires
        0 < frames.len() <= 8,
    ensures
        forall|j: int|
            0 <= j < frames.len() ==> edge(cropdetect::shared_crop(frames), side) <= edge(
                cropdetect::letterbox(#[trigger] frames[j]),
                side,
            ),
        exists|j: int|
            0 <= j < frames.len() && edge(cropdetect::shared_crop(frames), side) == edge(
                cropdetect::letterbox(#[trigger] frames[j]),
                side,
            ),
{
    lemma_sampled(frames, frames.len(), 1, side);
    assert forall|j: int| 0 <= j < frames.len() implies edge(
        cropdetect::shared_crop(frames),
        side,
    ) <= edge(cropdetect::letterbox(#[trigger] frames[j]), side) by {
        assert(frames[j * 1] == frames[j]);
    }
    let j = choose|j: int|
        0 <= j < frames.len() && edge(cropdetect::sampled(frames, frames.len()), side) == edge(
            cropdetect::letterbox(#[trigger] frames[j * 1]),
            side,
        );
    assert(frames[j * 1] == frames[j]);
}

/// Of more than eight frames, eight are looked at, from the first one on at equal distances of an
/// eighth of all. What they have in common leaves off at each edge as much as the one of them that
/// has the thinnest bar there.
pub proof fn law_eight_of_many_frames_are_respected(frames: Seq<Picture>, side: Side)
    requires
        frames.len() > 8,
    ensures
        forall|j: int|
            0 <= j < 8 ==> edge(cropdetect::shared_crop(frames), side) <= edge(
                cropdetect::letterbox(#[trigger] frames[j * (frames.len() as int / 8)]),
                side,
            ),
        exists|j: int|
            0 <= j < 8 && edge(cropdetect::shared_crop(frames), side) == edge(
                cropdetect::letterbox(#[trigger] frames[j * (frames.len() as int / 8)]),
                side,
            ),
{
    lemma_sampled(frames, 8, frames.len() as int / 8, side);
}

proof fn lemma_sampled(frames: Seq<Picture>, k: nat, step: int, side: Side)
    requires
        k > 0,
        step == cropdetect::sample_step(frames.len()),
    ensures
        forall|j: int|
            0 <= j < k ==> edge(cropdetect::sampled(frames, k), side) <= edge(
                cropdetect::letterbox(#[trigger] frames[j * step]),
                side,
            ),
        exists|j: int|
            0 <= j < k && edge(cropdetect::sampled(frames, k), side) == edge(
                cropdetect::letterbox(#[trigger] frames[j * step]),
                side,
            ),
    decreases k,
{
    if k == 1 {
        assert(frames[0 * step] == frames[0]);
    } else {
        let m = (k - 1) as nat;
        lemma_sampled(frames, m, step, side);
        let before = edge(cropdetect::sampled(frames, m), side);
        let last = edge(cropdetect::letterbox(frames[m * step]), side);
        assert(edge(cropdetect::sampled(frames, k), side) == if before <= last {
            before
        } else {
            last
        });
        let w = choose|j: int|
            0 <= j < m && before == edge(
                cropdetect::letterbox(#[trigger] frames[j * step]),
                side,
            );
        if before <= last {
            assert(edge(cropdetect::letterbox(frames[w * step]), side) == before);
        }
    }
}

} // verus!
