//! Grey frames.

use vstd::prelude::*;

verus! {

/// A grey picture: one byte per pixel, row by row.
#[derive(Debug, Clone, PartialEq, Eq)]
pub struct GrayFrame {
    pub width: u32,
    pub height: u32,
    pub pixels: Vec<u8>,
}

/// A grey picture as a mathematical value.
pub struct Picture {
    pub width: int,
    pub height: int,
    pub pixels: Seq<u8>,
}

impl Picture {
    /// The pixel at a position.
    pub open spec fn at(self, x: int, y: int) -> u8 {
        self.pixels[y * self.width + x]
    }
}

impl View for GrayFrame {
    type V = Picture;

    open spec fn view(&self) -> Picture {
        Picture { width: self.width as int, height: self.height as int, pixels: self.pixels@ }
    }
}

/// The pictures that frames hold.
pub open spec fn pictures(frames: Seq<GrayFrame>) -> Seq<Picture> {
    Seq::new(frames.len(), |i: int| frames[i]@)
}

/// Whether all frames have a pixel for every position.
pub open spec fn all_wf(frames: Seq<GrayFrame>) -> bool {
    forall|i: int| 0 <= i < frames.len() ==> (#[trigger] frames[i]).wf()
}

impl GrayFrame {
    /// Whether there is a pixel for every position.
    pub open spec fn wf(self) -> bool {
        self.pixels@.len() == self.width * self.height
    }

    /// The frame over the given pixels, if there are as many as its size has.
    pub fn from_raw(width: u32, height: u32, pixels: Vec<u8>) -> (frame: Option<Self>)
        ensures
            frame is Some <==> pixels@.len() == width * height,
            frame matches Some(f) ==> f.wf() && f.width == width && f.height == height && f.pixels@
                == pixels@,
    {
        assert(0 <= width * height <= 0xffff_ffff * 0xffff_ffff) by (nonlinear_arith)
            requires
                0 <= width <= 0xffff_ffff,
                0 <= height <= 0xffff_ffff,
        ;
        if pixels.len() as u64 == width as u64 * height as u64 {
            Some(GrayFrame { width, height, pixels })
        } else {
            None
        }
    }

    /// A frame all of whose pixels have one value.
    pub fn from_pixel(width: u32, height: u32, value: u8) -> (frame: Self)
        requires
            width * height <= usize::MAX,
        ensures
            frame.wf(),
            frame.width == width,
            frame.height == height,
            forall|i: int| 0 <= i < frame.pixels@.len() ==> #[trigger] frame.pixels@[i] == value,
    {
        let n: usize = width as usize * height as usize;
        let mut pixels: Vec<u8> = Vec::new();
        let mut i: usize = 0;
        while i < n
            invariant
                i <= n,
                pixels@.len() == i,
                forall|k: int| 0 <= k < i ==> #[trigger] pixels@[k] == value,
            decreases n - i,
        {
            pixels.push(value);
            i = i + 1;
        }
        GrayFrame { width, height, pixels }
    }

    /// The pixel at a position.
    pub fn get_pixel(&self, x: u32, y: u32) -> (value: u8)
        requires
            self.wf(),
            x < self.width,
            y < self.height,
        ensures
            value == self@.at(x as int, y as int),
    {
        proof {
            lemma_position(self.width as int, self.height as int, x as int, y as int);
            assert(self.pixels.len() == self.pixels@.len());
        }
        self.pixels[y as usize * self.width as usize + x as usize]
    }

    /// Sets the pixel at a position.
    pub fn put_pixel(&mut self, x: u32, y: u32, value: u8)
        requires
            old(self).wf(),
            x < old(self).width,
            y < old(self).height,
        ensures
            final(self).wf(),
            final(self).width == old(self).width,
            final(self).height == old(self).height,
            final(self).pixels@ == old(self).pixels@.update(y * old(self).width + x, value),
    {
        proof {
            lemma_position(self.width as int, self.height as int, x as int, y as int);
            assert(self.pixels.len() == self.pixels@.len());
        }
        let i: usize = y as usize * self.width as usize + x as usize;
        self.pixels.set(i, value);
    }
}

/// Positions within a frame are positions of its pixels.
pub proof fn lemma_position(width: int, height: int, x: int, y: int)
    requires
        0 <= x < width,
        0 <= y < height,
    ensures
        0 <= y * width <= y * width + x < width * height,
{
    assert(0 <= y * width && y * width + x < width * height) by (nonlinear_arith)
        requires
            0 <= x < width,
            0 <= y < height,
    ;
}

} // verus!
