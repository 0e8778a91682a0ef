//! Thumbnails: single frames that ffmpeg writes as PNG.

use crate::text::{self, push_numeral};
use vstd::prelude::*;

verus! {

/// A picture: for each pixel, row by row, a byte for red, green and blue.
#[derive(Debug, Clone, PartialEq, Eq)]
pub struct Thumbnail {
    pub width: u32,
    pub height: u32,
    pub pixels: Vec<u8>,
}

/// A picture as a mathematical value.
pub struct ThumbnailView {
    pub width: int,
    pub height: int,
    pub pixels: Seq<u8>,
}

impl View for Thumbnail {
    type V = ThumbnailView;

    open spec fn view(&self) -> ThumbnailView {
        ThumbnailView {
            width: self.width as int,
            height: self.height as int,
            pixels: self.pixels@,
        }
    }
}

impl Thumbnail {
    /// Whether there are three bytes for every pixel.
    pub open spec fn wf(self) -> bool {
        self.pixels@.len() == 3 * (self.width * self.height)
    }
}

/// The picture that an image file holds, or why it cannot be read.
pub uninterp spec fn decoded(bytes: Seq<u8>) -> Result<ThumbnailView, Seq<char>>;

/// What a decoder returned: the picture, or the message.
pub open spec fn outcome(result: Result<Thumbnail, String>) -> Result<ThumbnailView, Seq<char>> {
    match result {
        Ok(picture) => Ok(picture@),
        Err(message) => Err(message@),
    }
}

/// Whether a picture that was decoded has three bytes for every pixel.
pub open spec fn is_full(result: Result<Thumbnail, String>) -> bool {
    result matches Ok(picture) ==> picture.wf()
}

/// `image::load_from_memory` and `DynamicImage::into_rgb8`: the picture that an image file holds,
/// with three bytes for every pixel, or the message of the error.
#[verifier::external_body]
fn load_rgb(bytes: &[u8]) -> (picture: Result<Thumbnail, String>)
    ensures
        outcome(picture) == decoded(bytes@),
        is_full(picture),
{
    match image::load_from_memory(bytes) {
        Ok(image) => {
            let rgb = image.into_rgb8();
            let (width, height) = rgb.dimensions();
            Ok(Thumbnail { width, height, pixels: rgb.into_raw() })
        },
        Err(e) => Err(e.to_string()),
    }
}

/// The ffmpeg filter that fits a frame into a box without changing its shape or enlarging it.
pub fn scale_filter(max_w: u32, max_h: u32) -> (filter: String)
    ensures
        filter@ == "scale='min("@ + text::numeral(max_w as nat) + ",iw)':'min("@ + text::numeral(
            max_h as nat,
        ) + ",ih)':force_original_aspect_ratio=decrease"@,
{
    let mut filter = String::from_str("scale='min(");
    push_numeral(&mut filter, max_w as u64);
    filter.append(",iw)':'min(");
    push_numeral(&mut filter, max_h as u64);
    filter.append(",ih)':force_original_aspect_ratio=decrease");
    filter
}

/// The message where ffmpeg could not be started.
pub fn spawn_failed(detail: &str) -> (message: String)
    ensures
        message@ == "ffmpeg spawn: "@ + detail@,
{
    let mut message = String::from_str("ffmpeg spawn: ");
    message.append(detail);
    message
}

/// What comes of a thumbnail's file that was decoded.
pub fn settle_thumbnail(picture: Result<Thumbnail, String>) -> (thumbnail: Result<
    Thumbnail,
    String,
>)
    ensures
        match picture {
            Ok(found) => thumbnail == Ok::<Thumbnail, String>(found),
            Err(detail) => thumbnail matches Err(message) && message@ == "decode thumbnail: "@
                + detail@,
        },
{
    match picture {
        Ok(found) => Ok(found),
        Err(detail) => {
            let mut message = String::from_str("decode thumbnail: ");
            message.append(detail.as_str());
            Err(message)
        },
    }
}

/// The thumbnail that a run of ffmpeg wrote, or why there is none.
pub fn decode_thumbnail(success: bool, stdout: &[u8], stderr: &str) -> (thumbnail: Result<
    Thumbnail,
    String,
>)
    ensures
        !success ==> (thumbnail matches Err(message) && message@ == "ffmpeg failed: "@ + stderr@),
        success ==> match decoded(stdout@) {
            Ok(found) => thumbnail matches Ok(picture) && picture@ == found && picture.wf(),
            Err(detail) => thumbnail matches Err(message) && message@ == "decode thumbnail: "@
                + detail,
        },
{
    if !success {
        let mut message = String::from_str("ffmpeg failed: ");
        message.append(stderr);
        return Err(message);
    }
    settle_thumbnail(load_rgb(stdout))
}

} // verus!
