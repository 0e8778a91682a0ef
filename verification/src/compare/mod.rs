//! Signature comparison and grouping.

pub mod bucket_laws;
pub mod buckets;
pub mod clip_laws;
pub mod copy_laws;
pub mod groups;
pub mod group_laws;
pub mod laws;
pub mod match_laws;
pub mod pair;
pub mod scores;
pub mod sound_laws;

pub use buckets::build_duration_buckets;
pub use groups::{cluster_into_groups, find_similar};
pub use pair::{compare_pair, PairResult};

use crate::double::Double;
use crate::single::Single;
use std::path::PathBuf;
use vstd::prelude::*;

verus! {

/// How two files, or the files of a group, are alike.
#[derive(Debug, Clone, Copy, PartialEq, Eq)]
pub enum SimilarityKind {
    /// The hashes are identical: the files are most likely copies.
    Identical,
    /// The content is the same; format, codec or resolution differ.
    SameContent,
    /// One file is a clip of the other.
    SubClip {
        /// Where in the source the clip starts, in milliseconds.
        offset_ms: u64,
        /// Which of the two files is the clip.
        clip_is: WhichFile,
    },
    /// The files look alike in general.
    Similar,
}

/// One of two files.
#[derive(Debug, Clone, Copy, PartialEq, Eq)]
pub enum WhichFile {
    A,
    B,
}

/// Two files that match.
#[derive(Debug, Clone)]
pub struct SimilarityResult {
    pub path_a: PathBuf,
    pub path_b: PathBuf,
    pub kind: SimilarityKind,
    /// Similarity score, from 0 (different) to 1 (identical).
    pub visual_score: Single,
}

/// A group of similar files, of which there are at least two.
#[derive(Debug, Clone)]
pub struct SimilarGroup {
    pub files: Vec<PathBuf>,
    pub kind: SimilarityKind,
}

/// Thresholds of a comparison.
#[derive(Debug, Clone, Copy, PartialEq, Eq)]
pub struct CompareConfig {
    /// Fraction of differing bits up to which two windows match, 0.3 by default.
    pub tolerance: Single,
    /// Per cent by which durations may differ within a bucket, 20 by default.
    pub duration_tolerance_pct: Double,
    /// Fraction of the windows that have to match for the same content, 0.6 by default.
    pub min_matching_windows: Single,
    /// Fraction of the clip's windows that have to match for a clip, one half by default.
    pub subclip_min_match: Single,
    /// Whether audio fingerprints are compared in place of visual hashes.
    pub use_audio: bool,
    /// Segment score below which a segment counts (lower is stricter), 3 by default.
    pub audio_max_difference: Double,
    /// Seconds that a segment has to exceed to count, 5 by default.
    pub audio_min_segment_duration: Single,
}

impl Default for CompareConfig {
    fn default() -> (cfg: Self)
        ensures
            cfg.tolerance.bits == 0x3e99_999a,
            cfg.duration_tolerance_pct.bits == 0x4034_0000_0000_0000,
            cfg.min_matching_windows.bits == 0x3f19_999a,
            cfg.subclip_min_match.bits == 0x3f00_0000,
            !cfg.use_audio,
            cfg.audio_max_difference.bits == 0x4008_0000_0000_0000,
            cfg.audio_min_segment_duration.bits == 0x40a0_0000,
    {
        CompareConfig {
            tolerance: Single { bits: 0x3e99_999a },
            duration_tolerance_pct: Double { bits: 0x4034_0000_0000_0000 },
            min_matching_windows: Single { bits: 0x3f19_999a },
            subclip_min_match: Single { bits: 0x3f00_0000 },
            use_audio: false,
            audio_max_difference: Double { bits: 0x4008_0000_0000_0000 },
            audio_min_segment_duration: Single { bits: 0x40a0_0000 },
        }
    }
}

} // verus!
