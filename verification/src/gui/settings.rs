//! The settings of the window.

use crate::compare::CompareConfig;
use crate::double::Double;
use crate::paths::{self, join_name, path_of_text};
use crate::single::Single;
use crate::visual::config::{self, SignatureConfig, DEFAULT_WINDOW_SECS};
use std::path::PathBuf;
use vstd::prelude::*;

verus! {

/// What the user set, and what the window remembers.
#[derive(Debug, Clone, PartialEq, Eq)]
pub struct GuiSettings {
    pub tolerance: Single,
    pub duration_tolerance_pct: Single,
    pub min_matching_windows: Single,
    pub subclip_min_match: Single,
    pub window_count: i32,
    pub skip_secs: i32,
    pub cropdetect: bool,
    pub audio_fingerprint: bool,
    pub audio_max_difference: Single,
    pub audio_min_segment_duration: Single,
    pub last_directory: String,
    pub dark_theme: bool,
}

impl Default for GuiSettings {
    fn default() -> (settings: Self)
        ensures
            settings.tolerance.bits == 0x3e19_999a,
            settings.duration_tolerance_pct.bits == 0x41a0_0000,
            settings.min_matching_windows.bits == 0x3f19_999a,
            settings.subclip_min_match.bits == 0x3f00_0000,
            settings.window_count == 5,
            settings.skip_secs == 15,
            settings.cropdetect,
            !settings.audio_fingerprint,
            settings.audio_max_difference.bits == 0x4040_0000,
            settings.audio_min_segment_duration.bits == 0x40a0_0000,
            settings.last_directory@ == Seq::<char>::empty(),
            settings.dark_theme,
    {
        GuiSettings {
            tolerance: Single { bits: 0x3e19_999a },
            duration_tolerance_pct: Single { bits: 0x41a0_0000 },
            min_matching_windows: Single { bits: 0x3f19_999a },
            subclip_min_match: Single { bits: 0x3f00_0000 },
            window_count: 5,
            skip_secs: 15,
            cropdetect: true,
            audio_fingerprint: false,
            audio_max_difference: Single { bits: 0x4040_0000 },
            audio_min_segment_duration: Single { bits: 0x40a0_0000 },
            last_directory: String::new(),
            dark_theme: true,
        }
    }
}

impl GuiSettings {
    /// How signatures are computed with these settings.
    pub fn signature_config(&self) -> (config: SignatureConfig)
        requires
            self.window_count >= 0,
        ensures
            config == (SignatureConfig {
                skip_secs: Double::integral(self.skip_secs as int),
                window_count: self.window_count as usize,
                window_secs: Double { bits: DEFAULT_WINDOW_SECS },
                cropdetect: self.cropdetect,
                audio_fingerprint: self.audio_fingerprint,
                ffmpeg_timeout: config::default_timeout(),
            }),
    {
        let defaults = SignatureConfig::default();
        SignatureConfig {
            skip_secs: Double::integer(self.skip_secs),
            window_count: self.window_count as usize,
            window_secs: defaults.window_secs,
            cropdetect: self.cropdetect,
            audio_fingerprint: self.audio_fingerprint,
            ffmpeg_timeout: defaults.ffmpeg_timeout,
        }
    }

    /// How signatures are compared with these settings: by audio, where fingerprints are
    /// computed.
    pub fn compare_config(&self) -> (config: CompareConfig)
        ensures
            config == (CompareConfig {
                tolerance: self.tolerance,
                duration_tolerance_pct: self.duration_tolerance_pct.widened(),
                min_matching_windows: self.min_matching_windows,
                subclip_min_match: self.subclip_min_match,
                use_audio: self.audio_fingerprint,
                audio_max_difference: self.audio_max_difference.widened(),
                audio_min_segment_duration: self.audio_min_segment_duration,
            }),
    {
        CompareConfig {
            tolerance: self.tolerance,
            duration_tolerance_pct: self.duration_tolerance_pct.widen(),
            min_matching_windows: self.min_matching_windows,
            subclip_min_match: self.subclip_min_match,
            use_audio: self.audio_fingerprint,
            audio_max_difference: self.audio_max_difference.widen(),
            audio_min_segment_duration: self.audio_min_segment_duration,
        }
    }

    /// The directory that the window starts with: the one given on the command line, else the
    /// last one, unless there is none.
    pub fn first_directory(&self, given: Option<String>) -> (dir: Option<String>)
        ensures
            match (given, dir) {
                (Some(g), Some(d)) => d@ == g@,
                (None, Some(d)) => d@ == self.last_directory@ && d@.len() > 0,
                (Some(_), None) => false,
                (None, None) => self.last_directory@.len() == 0,
            },
    {
        match given {
            Some(g) => Some(g),
            None => {
                let last = self.last_directory.clone();
                if last.as_str().unicode_len() > 0 {
                    Some(last)
                } else {
                    None
                }
            },
        }
    }
}

/// The components of the settings file's path.
pub open spec fn settings_path_parts(
    xdg_config_home: Option<PathBuf>,
    home: Option<PathBuf>,
) -> Seq<Seq<char>> {
    let base = match (xdg_config_home, home) {
        (Some(set), _) => paths::path_parts(set),
        (None, Some(h)) => paths::path_parts(h).push(".config"@),
        (None, None) => seq!["."@].push(".config"@),
    };
    base.push("similario"@).push("settings.json"@)
}

/// Where the settings are kept: within the user's configuration directory, which is the one that
/// is set, else `.config` in the home directory, else `.config` in the current one.
pub fn settings_path(xdg_config_home: Option<PathBuf>, home: Option<PathBuf>) -> (path: PathBuf)
    ensures
        paths::path_parts(path) == settings_path_parts(xdg_config_home, home),
{
    proof {
        reveal_strlit(".");
        assert("."@ =~= seq!['.']);
        reveal_strlit(".config");
        reveal_strlit("similario");
        reveal_strlit("settings.json");
    }
    let base = match (xdg_config_home, home) {
        (Some(set), _) => set,
        (None, Some(h)) => join_name(&h, ".config"),
        (None, None) => {
            let here = path_of_text(".");
            join_name(&here, ".config")
        },
    };
    let own = join_name(&base, "similario");
    join_name(&own, "settings.json")
}

} // verus!
