//! Detection of letterbox bars.
//!
//! Rows and columns are scanned from each edge towards the middle. A row or column belongs to a
//! bar where its most frequent value is dark and most of its pixels are close to that value.

use crate::bounds;
use crate::visual::frame::{self, GrayFrame, Picture};
use vstd::prelude::*;

verus! {

/// Pixels to leave off at each edge.
#[derive(Debug, Clone, Copy, PartialEq, Eq)]
pub struct Crop {
    pub left: u32,
    pub right: u32,
    pub top: u32,
    pub bottom: u32,
}

impl Default for Crop {
    fn default() -> (crop: Self)
        ensures
            crop == (Crop { left: 0, right: 0, top: 0, bottom: 0 }),
    {
        Crop { left: 0, right: 0, top: 0, bottom: 0 }
    }
}

fn least(a: u32, b: u32) -> (m: u32)
    ensures
        m == bounds::smaller(a as int, b as int),
{
    if a <= b {
        a
    } else {
        b
    }
}

/// The more conservative of two crops, edge by edge.
pub open spec fn common(a: Crop, b: Crop) -> Crop {
    Crop {
        left: bounds::smaller(a.left as int, b.left as int) as u32,
        right: bounds::smaller(a.right as int, b.right as int) as u32,
        top: bounds::smaller(a.top as int, b.top as int) as u32,
        bottom: bounds::smaller(a.bottom as int, b.bottom as int) as u32,
    }
}

impl Crop {
    /// The more conservative of two crops: the smaller one at each edge.
    pub fn union(&self, other: &Self) -> (crop: Self)
        ensures
            crop == common(*self, *other),
            crop.left == bounds::smaller(self.left as int, other.left as int),
            crop.right == bounds::smaller(self.right as int, other.right as int),
            crop.top == bounds::smaller(self.top as int, other.top as int),
            crop.bottom == bounds::smaller(self.bottom as int, other.bottom as int),
    {
        Crop {
            left: least(self.left, other.left),
            right: least(self.right, other.right),
            top: least(self.top, other.top),
            bottom: least(self.bottom, other.bottom),
        }
    }

    /// Whether there is nothing to leave off.
    pub fn is_empty(&self) -> (empty: bool)
        ensures
            empty == (self.left == 0 && self.right == 0 && self.top == 0 && self.bottom == 0),
    {
        self.left == 0 && self.right == 0 && self.top == 0 && self.bottom == 0
    }
}

/// How often a value occurs.
pub open spec fn occurrences(pixels: Seq<u8>, value: u8) -> nat
    decreases pixels.len(),
{
    if pixels.len() == 0 {
        0
    } else {
        occurrences(pixels.drop_last(), value) + if pixels.last() == value { 1nat } else { 0nat }
    }
}

/// Whether a value is the most frequent one; of several, the largest.
pub open spec fn is_mode(pixels: Seq<u8>, value: u8) -> bool {
    &&& forall|other: u8| #[trigger] occurrences(pixels, other) <= occurrences(pixels, value)
    &&& forall|other: u8|
        other > value ==> #[trigger] occurrences(pixels, other) < occurrences(pixels, value)
}

/// The most frequent value; of several, the largest.
pub open spec fn mode(pixels: Seq<u8>) -> u8 {
    choose|value: u8| is_mode(pixels, value)
}

/// Whether two values are at most 16 apart.
pub open spec fn is_near(a: u8, b: u8) -> bool {
    -16 <= a - b <= 16
}

/// How many pixels are at most 16 away from a value.
pub open spec fn near(pixels: Seq<u8>, value: u8) -> nat
    decreases pixels.len(),
{
    if pixels.len() == 0 {
        0
    } else {
        near(pixels.drop_last(), value) + if is_near(pixels.last(), value) { 1nat } else { 0nat }
    }
}

/// Whether a row or column belongs to a dark bar: its most frequent value is at most 32, and at
/// least 90 % of its pixels are at most 16 away from that.
pub open spec fn is_bar(pixels: Seq<u8>) -> bool {
    &&& pixels.len() > 0
    &&& mode(pixels) <= 32
    &&& 10 * near(pixels, mode(pixels)) >= 9 * pixels.len()
}

proof fn lemma_mode_unique(pixels: Seq<u8>, a: u8, b: u8)
    requires
        is_mode(pixels, a),
        is_mode(pixels, b),
    ensures
        a == b,
{
    assert(occurrences(pixels, a) <= occurrences(pixels, b));
    assert(occurrences(pixels, b) <= occurrences(pixels, a));
}

fn most_frequent(pixels: &[u8]) -> (value: u8)
    requires
        pixels@.len() <= u32::MAX,
    ensures
        value == mode(pixels@),
{
    let mut histogram: [u32; 256] = [0u32; 256];
    let mut i: usize = 0;
    assert(pixels@.take(0) =~= Seq::<u8>::empty());
    while i < pixels.len()
        invariant
            i <= pixels@.len() <= u32::MAX,
            forall|v: u8|
                histogram@[v as int] == #[trigger] occurrences(pixels@.take(i as int), v)
                    && histogram@[v as int] <= i,
        decreases pixels@.len() - i,
    {
        let p: u8 = pixels[i];
        proof {
            assert(pixels@.take(i + 1).drop_last() =~= pixels@.take(i as int));
            assert(pixels@.take(i + 1).last() == p);
            assert(histogram@[p as int] == occurrences(pixels@.take(i as int), p));
        }
        let ghost before = histogram@;
        histogram[p as usize] = histogram[p as usize] + 1;
        assert forall|v: u8|
            histogram@[v as int] == #[trigger] occurrences(pixels@.take(i + 1), v)
                && histogram@[v as int] <= i + 1 by {
            assert(before[v as int] == occurrences(pixels@.take(i as int), v));
        }
        i = i + 1;
    }
    assert(pixels@.take(i as int) =~= pixels@);
    let mut best: usize = 0;
    let mut v: usize = 1;
    while v < 256
        invariant
            best < v <= 256,
            forall|u: u8| histogram@[u as int] == #[trigger] occurrences(pixels@, u),
            forall|u: int| 0 <= u < v ==> #[trigger] histogram@[u] <= histogram@[best as int],
            forall|u: int|
                best < u < v ==> #[trigger] histogram@[u] < histogram@[best as int],
        decreases 256 - v,
    {
        if histogram[v] >= histogram[best] {
            best = v;
        }
        v = v + 1;
    }
    let value: u8 = best as u8;
    proof {
        assert(histogram@[value as int] == occurrences(pixels@, value));
        assert forall|other: u8| #[trigger] occurrences(pixels@, other) <= occurrences(
            pixels@,
            value,
        ) by {
            assert(histogram@[other as int] <= histogram@[best as int]);
        }
        assert forall|other: u8|
            other > value implies #[trigger] occurrences(pixels@, other) < occurrences(
            pixels@,
            value,
        ) by {
            assert(histogram@[other as int] < histogram@[best as int]);
        }
        assert(is_mode(pixels@, value));
        lemma_mode_unique(pixels@, value, mode(pixels@));
    }
    value
}

/// Whether a row or column belongs to a dark bar.
pub fn is_letterbox_strip(pixels: &[u8]) -> (bar: bool)
    requires
        pixels@.len() <= u32::MAX,
    ensures
        bar == is_bar(pixels@),
{
    if pixels.len() == 0 {
        return false;
    }
    let common: u8 = most_frequent(pixels);
    if common > 32 {
        return false;
    }
    let mut matching: u64 = 0;
    let mut i: usize = 0;
    assert(pixels@.take(0) =~= Seq::<u8>::empty());
    while i < pixels.len()
        invariant
            i <= pixels@.len() <= u32::MAX,
            matching == near(pixels@.take(i as int), common),
            matching <= i,
        decreases pixels@.len() - i,
    {
        let p: u8 = pixels[i];
        proof {
            assert(pixels@.take(i + 1).drop_last() =~= pixels@.take(i as int));
            assert(pixels@.take(i + 1).last() == p);
        }
        let apart: u8 = if p >= common {
            p - common
        } else {
            common - p
        };
        if apart <= 16 {
            matching = matching + 1;
        }
        i = i + 1;
    }
    assert(pixels@.take(i as int) =~= pixels@);
    10 * matching >= 9 * pixels.len() as u64
}

/// An edge of a frame.
#[derive(Debug, Clone, Copy, PartialEq, Eq)]
pub enum Side {
    Top,
    Bottom,
    Left,
    Right,
}

/// The row or column that is `offset` pixels away from an edge.
pub open spec fn strip(frame: Picture, side: Side, offset: int) -> Seq<u8> {
    match side {
        Side::Top => Seq::new(frame.width as nat, |x: int| frame.at(x, offset)),
        Side::Bottom => Seq::new(frame.width as nat, |x: int| frame.at(x, frame.height - 1 - offset)),
        Side::Left => Seq::new(frame.height as nat, |y: int| frame.at(offset, y)),
        Side::Right => Seq::new(frame.height as nat, |y: int| frame.at(frame.width - 1 - offset, y)),
    }
}

/// The number of rows or columns up to the middle.
pub open spec fn half(frame: Picture, side: Side) -> int {
    match side {
        Side::Top | Side::Bottom => frame.height / 2,
        Side::Left | Side::Right => frame.width / 2,
    }
}

/// Where the bar ends that is scanned from `offset` on, at the middle at the latest.
pub open spec fn bar_end(frame: Picture, side: Side, offset: int) -> int
    decreases half(frame, side) - offset,
{
    if offset < half(frame, side) && is_bar(strip(frame, side, offset)) {
        bar_end(frame, side, offset + 1)
    } else {
        offset
    }
}

/// The thickness of the bar at an edge.
pub open spec fn bar(frame: Picture, side: Side) -> int {
    bar_end(frame, side, 0)
}

/// The bars of a frame, or none where they would leave nothing.
pub open spec fn letterbox(frame: Picture) -> Crop {
    let left = bar(frame, Side::Left);
    let right = bar(frame, Side::Right);
    let top = bar(frame, Side::Top);
    let bottom = bar(frame, Side::Bottom);
    if frame.width <= left + right || frame.height <= top + bottom {
        Crop { left: 0, right: 0, top: 0, bottom: 0 }
    } else {
        Crop { left: left as u32, right: right as u32, top: top as u32, bottom: bottom as u32 }
    }
}

/// The pixels of a row or column.
fn strip_pixels(frame: &GrayFrame, side: Side, offset: u32) -> (pixels: Vec<u8>)
    requires
        frame.wf(),
        offset < half(frame@, side),
    ensures
        pixels@ == strip(frame@, side, offset as int),
{
    let n: u32 = match side {
        Side::Top | Side::Bottom => frame.width,
        Side::Left | Side::Right => frame.height,
    };
    let mut pixels: Vec<u8> = Vec::new();
    let mut i: u32 = 0;
    while i < n
        invariant
            frame.wf(),
            offset < half(frame@, side),
            i <= n,
            n == strip(frame@, side, offset as int).len(),
            pixels@ == strip(frame@, side, offset as int).take(i as int),
        decreases n - i,
    {
        let p: u8 = match side {
            Side::Top => frame.get_pixel(i, offset),
            Side::Bottom => frame.get_pixel(i, frame.height - 1 - offset),
            Side::Left => frame.get_pixel(offset, i),
            Side::Right => frame.get_pixel(frame.width - 1 - offset, i),
        };
        assert(p == strip(frame@, side, offset as int)[i as int]);
        pixels.push(p);
        assert(pixels@ =~= strip(frame@, side, offset as int).take(i + 1));
        i = i + 1;
    }
    assert(pixels@ =~= strip(frame@, side, offset as int));
    pixels
}

/// Measures the bar at an edge.
pub fn scan_from_edge(frame: &GrayFrame, side: Side) -> (thickness: u32)
    requires
        frame.wf(),
    ensures
        thickness == bar(frame@, side),
        thickness <= half(frame@, side),
{
    let max_strip: u32 = match side {
        Side::Top | Side::Bottom => frame.height / 2,
        Side::Left | Side::Right => frame.width / 2,
    };
    let mut offset: u32 = 0;
    while offset < max_strip
        invariant
            frame.wf(),
            max_strip == half(frame@, side),
            offset <= max_strip,
            bar(frame@, side) == bar_end(frame@, side, offset as int),
        decreases max_strip - offset,
    {
        let pixels = strip_pixels(frame, side, offset);
        if !is_letterbox_strip(pixels.as_slice()) {
            return offset;
        }
        offset = offset + 1;
    }
    max_strip
}

/// Detects the letterbox bars of a frame.
pub fn detect_letterbox(frame: &GrayFrame) -> (crop: Crop)
    requires
        frame.wf(),
    ensures
        crop == letterbox(frame@),
        crop.left == 0 && crop.right == 0 || crop.left + crop.right < frame.width,
        crop.top == 0 && crop.bottom == 0 || crop.top + crop.bottom < frame.height,
{
    let top: u32 = scan_from_edge(frame, Side::Top);
    let bottom: u32 = scan_from_edge(frame, Side::Bottom);
    let left: u32 = scan_from_edge(frame, Side::Left);
    let right: u32 = scan_from_edge(frame, Side::Right);
    if frame.width <= left + right || frame.height <= top + bottom {
        return Crop::default();
    }
    Crop { left, right, top, bottom }
}

/// The step at which frames are sampled.
pub open spec fn sample_step(n: nat) -> int {
    bounds::larger(1, n as int / 8)
}

/// What the first `k` of the sampled frames have in common.
pub open spec fn sampled(frames: Seq<Picture>, k: nat) -> Crop
    decreases k,
{
    if k == 0 {
        Crop { left: 0, right: 0, top: 0, bottom: 0 }
    } else if k == 1 {
        letterbox(frames[0])
    } else {
        common(
            sampled(frames, (k - 1) as nat),
            letterbox(frames[(k - 1) * sample_step(frames.len())]),
        )
    }
}

/// The number of frames that are sampled: eight at most, and all of them where there are fewer.
pub open spec fn sample_count(n: nat) -> nat {
    if n < 8 {
        n
    } else {
        8
    }
}

/// The crop that frames have in common.
pub open spec fn shared_crop(frames: Seq<Picture>) -> Crop {
    sampled(frames, sample_count(frames.len()))
}

/// Detects the letterbox bars that up to eight frames, spread over all, have in common.
pub fn detect_letterbox_multi(frames: &[GrayFrame]) -> (crop: Crop)
    requires
        frame::all_wf(frames@),
    ensures
        crop == shared_crop(frame::pictures(frames@)),
        crop == sampled(frame::pictures(frames@), sample_count(frames@.len())),
{
    let n: usize = frames.len();
    if n == 0 {
        return Crop::default();
    }
    let step: usize = if n / 8 >= 1 {
        n / 8
    } else {
        1
    };
    let count: usize = if n < 8 {
        n
    } else {
        8
    };
    let mut crop = detect_letterbox(&frames[0]);
    let mut k: usize = 1;
    while k < count
        invariant
            1 <= k <= count,
            n == frames@.len(),
            count == sample_count(n as nat),
            step == sample_step(n as nat),
            frame::all_wf(frames@),
            crop == sampled(frame::pictures(frames@), k as nat),
        decreases count - k,
    {
        proof {
            assert(k * step < n) by (nonlinear_arith)
                requires
                    1 <= k < count,
                    n < 8 && count == n && step == 1 || n >= 8 && count == 8 && step == n / 8,
            ;
        }
        let more = detect_letterbox(&frames[k * step]);
        crop = crop.union(&more);
        k = k + 1;
    }
    crop
}

// ---- Laws ----

/// Bars leave at least one row and one column of a frame that has any.
pub proof fn law_letterbox_leaves_content(frame: Picture)
    requires
        frame.width > 0,
        frame.height > 0,
    ensures
        letterbox(frame).left + letterbox(frame).right < frame.width,
        letterbox(frame).top + letterbox(frame).bottom < frame.height,
{
    lemma_bar_bound(frame, Side::Left, 0);
    lemma_bar_bound(frame, Side::Right, 0);
    lemma_bar_bound(frame, Side::Top, 0);
    lemma_bar_bound(frame, Side::Bottom, 0);
}

proof fn lemma_bar_bound(frame: Picture, side: Side, offset: int)
    requires
        0 <= offset <= half(frame, side),
    ensures
        offset <= bar_end(frame, side, offset) <= half(frame, side),
    decreases half(frame, side) - offset,
{
    if offset < half(frame, side) && is_bar(strip(frame, side, offset)) {
        lemma_bar_bound(frame, side, offset + 1);
    }
}

/// The union of crops is the same whichever comes first, and however they are taken together; of
/// a crop with itself it is that crop; and it never leaves off more than one of the two does.
pub proof fn law_union(a: Crop, b: Crop, c: Crop)
    ensures
        common(a, b) == common(b, a),
        common(a, common(b, c)) == common(common(a, b), c),
        common(a, a) == a,
        common(a, b).left <= a.left && common(a, b).right <= a.right && common(a, b).top <= a.top
            && common(a, b).bottom <= a.bottom,
{
}

/// What sampled frames have in common leaves off no more than each of them alone.
pub proof fn law_sampled_crop_is_conservative(frames: Seq<Picture>, k: nat, j: nat)
    requires
        j < k,
    ensures
        ({
            let crop = sampled(frames, k);
            let single = letterbox(
                frames[if j == 0 { 0 } else { j * sample_step(frames.len()) }],
            );
            crop.left <= single.left && crop.right <= single.right && crop.top <= single.top
                && crop.bottom <= single.bottom
        }),
    decreases k,
{
    if k > 1 && j < k - 1 {
        law_sampled_crop_is_conservative(frames, (k - 1) as nat, j);
    }
}

} // verus!
