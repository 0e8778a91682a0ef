//! Visual hashes and video signatures.

pub mod config;
pub mod crop_laws;
pub mod cropdetect;
pub mod dct;
pub mod extract;
pub mod frame;
pub mod hash;
pub mod watchdog;
pub mod window_laws;

use crate::double::Double;
use crate::single::Single;
use crate::metadata::{MetadataError, VideoMetadata};
use crate::text::{self, push_numeral};
use crate::visual::extract::FrameExtractError;
use crate::visual::hash::HashBits;
use std::path::PathBuf;
use vstd::prelude::*;

verus! {

/// Side of the sub-cube whose coefficients become hash bits.
pub const HASH_SIZE: usize = 10;

/// Number of bits of a window hash that carry information.
pub const HASH_BITS: usize = 1000;

/// Visual hash of one temporal segment of a video.
#[derive(Debug, Clone)]
pub struct TemporalHash {
    /// Segment start in milliseconds.
    pub start_ms: u64,
    /// Segment end in milliseconds.
    pub end_ms: u64,
    /// Hash of the segment's frames.
    pub bits: HashBits,
}

/// The number of bits in which two window hashes differ.
pub open spec fn hash_distance(a: TemporalHash, b: TemporalHash) -> nat {
    hash::differing(hash::hash_contents(a.bits), hash::hash_contents(b.bits))
}

/// A number of bits as a fraction of the hash bits.
pub open spec fn normalized(distance: nat) -> Single {
    Single::counted(distance).divided(Single::counted(HASH_BITS as nat))
}

impl TemporalHash {
    /// Hamming distance between two hashes.
    pub fn hamming_distance(&self, other: &Self) -> (distance: u32)
        ensures
            distance == hash_distance(*self, *other),
            distance <= 1024,
    {
        self.bits.distance(&other.bits)
    }

    /// Hamming distance as a fraction of the hash bits: zero for identical hashes, one for
    /// hashes that differ in all of them.
    pub fn normalized_distance(&self, other: &Self) -> (distance: Single)
        ensures
            distance == normalized(hash_distance(*self, *other)),
    {
        Single::count(self.hamming_distance(other) as u64).over(Single::count(HASH_BITS as u64))
    }
}

/// Visual and audio signature of one video file.
#[derive(Debug, Clone)]
pub struct VideoSignature {
    pub path: PathBuf,
    pub duration_ms: u64,
    pub aspect_ratio: Single,
    /// One hash per temporal window.
    pub visual_hashes: Vec<TemporalHash>,
    /// Chromaprint fingerprint of the first audio track, where there is one.
    pub audio_fingerprint: Option<Vec<u32>>,
    /// What ffprobe said of the file.
    pub metadata: Option<VideoMetadata>,
}

/// Why there is no signature of a file.
#[derive(Debug, Clone, PartialEq, Eq)]
pub enum SignatureError {
    /// The frames could not be extracted.
    FrameExtract(FrameExtractError),
    /// There are too few frames.
    NotEnoughFrames { got: usize, need: usize },
    /// There is no metadata.
    Metadata(MetadataError),
}

impl SignatureError {
    /// The error as a message.
    pub open spec fn text(self) -> Seq<char> {
        match self {
            SignatureError::FrameExtract(error) => "Frame extraction error: "@ + error.text(),
            SignatureError::NotEnoughFrames { got, need } => "Not enough frames extracted (got "@
                + text::numeral(got as nat) + ", need "@ + text::numeral(need as nat) + ")"@,
            SignatureError::Metadata(error) => "Metadata error: "@ + error.text(),
        }
    }

    /// The error as a message.
    pub fn message(&self) -> (message: String)
        ensures
            message@ == self.text(),
    {
        match self {
            SignatureError::FrameExtract(error) => {
                let mut message = String::from_str("Frame extraction error: ");
                let detail = error.message();
                message.append(detail.as_str());
                message
            },
            SignatureError::NotEnoughFrames { got, need } => {
                let mut message = String::from_str("Not enough frames extracted (got ");
                push_numeral(&mut message, *got as u64);
                message.append(", need ");
                push_numeral(&mut message, *need as u64);
                message.append(")");
                message
            },
            SignatureError::Metadata(error) => {
                let mut message = String::from_str("Metadata error: ");
                let detail = error.message();
                message.append(detail.as_str());
                message
            },
        }
    }
}

/// The number 1000.
pub const THOUSAND: u64 = 0x408f_4000_0000_0000;

/// A time as whole milliseconds; none is before the start.
pub open spec fn milliseconds(secs: Double) -> int {
    secs.multiplied(Double { bits: THOUSAND }).whole()
}

fn to_milliseconds(secs: Double) -> (ms: u64)
    ensures
        ms == milliseconds(secs),
{
    secs.times(Double { bits: THOUSAND }).truncate()
}

/// Width over height of a video whose size is unknown: the number nearest to 16 to 9.
pub const DEFAULT_ASPECT_RATIO: u32 = 0x3fe3_8e39;

/// The fingerprint that goes into a signature: one that was asked for, could be computed and is
/// not empty.
pub fn usable_fingerprint(
    enabled: bool,
    computed: Result<Option<Vec<u32>>, String>,
) -> (fingerprint: Option<Vec<u32>>)
    ensures
        fingerprint is Some <==> enabled && computed is Ok && computed->Ok_0 is Some
            && computed->Ok_0->0@.len() > 0,
        fingerprint is Some ==> fingerprint == computed->Ok_0,
{
    if !enabled {
        return None;
    }
    match computed {
        Ok(Some(fingerprint)) => if fingerprint.len() > 0 {
            Some(fingerprint)
        } else {
            None
        },
        Ok(None) => None,
        Err(_) => None,
    }
}

impl VideoSignature {
    /// Puts a signature together: a hash for each window, with the window's position, and what
    /// the metadata says of duration and shape.
    pub fn assemble(
        path: PathBuf,
        metadata: VideoMetadata,
        windows: &[(Double, Double)],
        hashes: Vec<HashBits>,
        audio_fingerprint: Option<Vec<u32>>,
    ) -> (signature: Self)
        requires
            hashes@.len() == windows@.len(),
        ensures
            signature.path == path,
            signature.duration_ms == milliseconds(metadata.duration_secs),
            signature.aspect_ratio == match metadata.ratio() {
                Some(ratio) => ratio,
                None => Single { bits: DEFAULT_ASPECT_RATIO },
            },
            signature.visual_hashes@.len() == windows@.len(),
            forall|i: int|
                0 <= i < windows@.len() ==> {
                    let window = #[trigger] signature.visual_hashes@[i];
                    window.start_ms == milliseconds(windows@[i].0) && window.end_ms
                        == milliseconds(windows@[i].1) && hash::hash_contents(window.bits)
                        == hash::hash_contents(hashes@[i])
                },
            signature.audio_fingerprint == audio_fingerprint,
            signature.metadata == Some(metadata),
    {
        let duration_ms: u64 = to_milliseconds(metadata.duration_secs);
        let aspect_ratio = match metadata.aspect_ratio() {
            Some(ratio) => ratio,
            None => Single { bits: DEFAULT_ASPECT_RATIO },
        };
        let mut visual_hashes: Vec<TemporalHash> = Vec::new();
        let mut i: usize = 0;
        while i < windows.len()
            invariant
                i <= windows@.len(),
                hashes@.len() == windows@.len(),
                visual_hashes@.len() == i,
                forall|k: int|
                    0 <= k < i ==> {
                        let window = #[trigger] visual_hashes@[k];
                        window.start_ms == milliseconds(windows@[k].0) && window.end_ms
                            == milliseconds(windows@[k].1) && hash::hash_contents(
                            window.bits,
                        ) == hash::hash_contents(hashes@[k])
                    },
            decreases windows@.len() - i,
        {
            visual_hashes.push(
                TemporalHash {
                    start_ms: to_milliseconds(windows[i].0),
                    end_ms: to_milliseconds(windows[i].1),
                    bits: hashes[i].clone(),
                },
            );
            i = i + 1;
        }
        VideoSignature {
            path,
            duration_ms,
            aspect_ratio,
            visual_hashes,
            audio_fingerprint,
            metadata: Some(metadata),
        }
    }
}

} // verus!
