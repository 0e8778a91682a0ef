//! A scan: which files it looks at, what comes of each of them, and what is reported.

use crate::compare::{CompareConfig, SimilarGroup, SimilarityKind};
use crate::double::Double;
use crate::lists::reversed;
use crate::paths::{self, is_less, lossy_text, sort_paths};
use crate::single::Single;
use crate::tally;
use crate::text::{self, equal_ignoring_case, push_numeral};
use crate::visual::config::{self, FfmpegTimeout, SignatureConfig, DEFAULT_WINDOW_SECS};
use crate::visual::{SignatureError, VideoSignature};
use std::path::PathBuf;
use vstd::prelude::*;

verus! {

// ---- Files ----

/// Whether a file extension is that of a video, in capitals or small letters.
pub open spec fn is_video(ext: Seq<char>) -> bool {
    ||| text::same_but_case("mp4"@, ext)
    ||| text::same_but_case("mkv"@, ext)
    ||| text::same_but_case("avi"@, ext)
    ||| text::same_but_case("mov"@, ext)
    ||| text::same_but_case("wmv"@, ext)
    ||| text::same_but_case("flv"@, ext)
    ||| text::same_but_case("webm"@, ext)
    ||| text::same_but_case("m4v"@, ext)
    ||| text::same_but_case("mpg"@, ext)
    ||| text::same_but_case("mpeg"@, ext)
    ||| text::same_but_case("ts"@, ext)
    ||| text::same_but_case("mts"@, ext)
    ||| text::same_but_case("m2ts"@, ext)
    ||| text::same_but_case("vob"@, ext)
    ||| text::same_but_case("3gp"@, ext)
    ||| text::same_but_case("ogv"@, ext)
    ||| text::same_but_case("rm"@, ext)
    ||| text::same_but_case("rmvb"@, ext)
    ||| text::same_but_case("divx"@, ext)
}

/// Whether a file extension is that of a video.
pub fn is_video_extension(ext: &str) -> (video: bool)
    ensures
        video == is_video(ext@),
{
    equal_ignoring_case("mp4", ext) || equal_ignoring_case("mkv", ext) || equal_ignoring_case(
        "avi",
        ext,
    ) || equal_ignoring_case("mov", ext) || equal_ignoring_case("wmv", ext)
        || equal_ignoring_case("flv", ext) || equal_ignoring_case("webm", ext)
        || equal_ignoring_case("m4v", ext) || equal_ignoring_case("mpg", ext)
        || equal_ignoring_case("mpeg", ext) || equal_ignoring_case("ts", ext)
        || equal_ignoring_case("mts", ext) || equal_ignoring_case("m2ts", ext)
        || equal_ignoring_case("vob", ext) || equal_ignoring_case("3gp", ext)
        || equal_ignoring_case("ogv", ext) || equal_ignoring_case("rm", ext)
        || equal_ignoring_case("rmvb", ext) || equal_ignoring_case("divx", ext)
}

/// What is done with an entry of a directory.
#[derive(Debug, Clone, Copy, PartialEq, Eq, Structural)]
pub enum EntryAction {
    /// It is a directory: its entries are looked at.
    Descend,
    /// It is a video file.
    Take,
    /// It is something else.
    Skip,
}

/// Decides what is done with an entry of a directory. Links are followed neither to directories
/// nor to files.
pub fn entry_action(is_dir: bool, is_file: bool, extension: Option<&str>) -> (action: EntryAction)
    ensures
        action == if is_dir {
            EntryAction::Descend
        } else if is_file && extension is Some && is_video(extension->0@) {
            EntryAction::Take
        } else {
            EntryAction::Skip
        },
{
    if is_dir {
        return EntryAction::Descend;
    }
    match extension {
        Some(ext) => if is_file && is_video_extension(ext) {
            EntryAction::Take
        } else {
            EntryAction::Skip
        },
        None => EntryAction::Skip,
    }
}

/// Whether a path is the first one of its place in a list.
pub open spec fn is_first(found: Seq<PathBuf>, path: PathBuf) -> bool {
    exists|i: int|
        0 <= i < found.len() && #[trigger] found[i] == path && forall|j: int|
            0 <= j < i ==> !paths::same_place(#[trigger] found[j], path)
}

/// Whether a list has a path of the same place and with the same components.
pub open spec fn has_equal(list: Seq<PathBuf>, path: PathBuf) -> bool {
    exists|k: int|
        0 <= k < list.len() && paths::same_place(#[trigger] list[k], path) && paths::path_parts(
            list[k],
        ) == paths::path_parts(path)
}

/// Whether the paths at these positions, counted down, are what is left of a sorted list from
/// position `n` on without repetitions.
spec fn is_kept(sorted: Seq<PathBuf>, n: int, kept: Seq<PathBuf>, at: Seq<int>) -> bool {
    &&& at.len() == kept.len()
    &&& forall|k: int|
        0 <= k < at.len() ==> n <= #[trigger] at[k] < sorted.len() && kept[k] == sorted[at[k]]
    &&& n < sorted.len() ==> at.len() > 0 && at.last() == n
    &&& forall|k: int, m: int|
        #![trigger at[k], sorted[m]]
        0 <= k < at.len() && n <= m < at[k] ==> paths::path_less(sorted[m], sorted[at[k]])
    &&& forall|k: int, l: int| 0 <= k < l < at.len() ==> #[trigger] at[l] < #[trigger] at[k]
    &&& forall|m: int| n <= m < sorted.len() ==> is_covered(sorted, at, m)
}

spec fn is_covered(sorted: Seq<PathBuf>, at: Seq<int>, m: int) -> bool {
    exists|k: int|
        0 <= k < at.len() && #[trigger] at[k] <= m && !paths::path_less(sorted[at[k]], sorted[m])
            && paths::path_parts(sorted[at[k]]) == paths::path_parts(sorted[m])
}

proof fn lemma_added(sorted: Seq<PathBuf>, n: int, kept: Seq<PathBuf>, at: Seq<int>)
    requires
        0 < n <= sorted.len(),
        paths::in_order(sorted),
        paths::is_told_apart(sorted),
        is_kept(sorted, n, kept, at),
        n < sorted.len() ==> paths::path_less(sorted[n - 1], sorted[n]),
    ensures
        is_kept(sorted, n - 1, kept.push(sorted[n - 1]), at.push(n - 1)),
{
    let now = at.push(n - 1);
    assert forall|k: int, m: int|
        #![trigger now[k], sorted[m]]
        0 <= k < now.len() && n - 1 <= m < now[k] implies paths::path_less(
        sorted[m],
        sorted[now[k]],
    ) by {
        assert(now[k] == at[k]);
        if m == n - 1 {
            assert(sorted[n - 1] == sorted[n - 1] && sorted[n] == sorted[n] && sorted[at[k]]
                == sorted[at[k]]);
        }
    }
    assert forall|m: int| n - 1 <= m < sorted.len() implies is_covered(sorted, now, m) by {
        if m == n - 1 {
            assert(now[at.len() as int] == n - 1);
            assert(!paths::path_less(sorted[m], sorted[m]));
        } else {
            assert(is_covered(sorted, at, m));
            let k = choose|k: int|
                0 <= k < at.len() && #[trigger] at[k] <= m && !paths::path_less(
                    sorted[at[k]],
                    sorted[m],
                ) && paths::path_parts(sorted[at[k]]) == paths::path_parts(sorted[m]);
            assert(now[k] == at[k]);
        }
    }
}

proof fn lemma_replaced(sorted: Seq<PathBuf>, n: int, kept: Seq<PathBuf>, at: Seq<int>)
    requires
        0 < n < sorted.len(),
        paths::in_order(sorted),
        paths::is_told_apart(sorted),
        is_kept(sorted, n, kept, at),
        paths::same_place(sorted[n - 1], sorted[n]),
        paths::path_parts(sorted[n - 1]) == paths::path_parts(sorted[n]),
    ensures
        is_kept(
            sorted,
            n - 1,
            kept.drop_last().push(sorted[n - 1]),
            at.drop_last().push(n - 1),
        ),
{
    let now = at.drop_last().push(n - 1);
    let last = at.len() - 1;
    assert(now[last] == n - 1);
    assert forall|k: int| 0 <= k < last implies #[trigger] now[k] == at[k] by {}
    assert forall|k: int, l: int| 0 <= k < l < now.len() implies #[trigger] now[l]
        < #[trigger] now[k] by {
        assert(at[l] < at[k]);
    }
    assert forall|k: int, m: int|
        #![trigger now[k], sorted[m]]
        0 <= k < now.len() && n - 1 <= m < now[k] implies paths::path_less(
        sorted[m],
        sorted[now[k]],
    ) by {
        assert(now[k] == at[k]);
        if m == n - 1 {
            assert(at[last] < at[k]);
            assert(paths::path_less(sorted[n], sorted[at[k]]));
            assert(sorted[n - 1] == sorted[n - 1]);
        }
    }
    assert forall|m: int| n - 1 <= m < sorted.len() implies is_covered(sorted, now, m) by {
        if m == n - 1 {
            assert(!paths::path_less(sorted[m], sorted[m]));
        } else {
            assert(is_covered(sorted, at, m));
            let k = choose|k: int|
                0 <= k < at.len() && #[trigger] at[k] <= m && !paths::path_less(
                    sorted[at[k]],
                    sorted[m],
                ) && paths::path_parts(sorted[at[k]]) == paths::path_parts(sorted[m]);
            if k == last {
                assert(sorted[n - 1] == sorted[n - 1] && sorted[n] == sorted[n]);
                assert(!paths::path_less(sorted[n - 1], sorted[m]));
            } else {
                assert(now[k] == at[k]);
            }
        }
    }
}

proof fn lemma_kept_paths(
    found: Seq<PathBuf>,
    sorted: Seq<PathBuf>,
    kept: Seq<PathBuf>,
    at: Seq<int>,
)
    requires
        paths::is_sorted_form(found, sorted),
        is_kept(sorted, 0, kept, at),
    ensures
        forall|k: int, l: int|
            0 <= k < l < kept.len() ==> paths::path_less(
                #[trigger] kept.reverse()[k],
                #[trigger] kept.reverse()[l],
            ),
        forall|k: int| 0 <= k < kept.len() ==> is_first(found, #[trigger] kept.reverse()[k]),
        forall|i: int| 0 <= i < found.len() ==> has_equal(kept.reverse(), #[trigger] found[i]),
{
    let unique = kept.reverse();
    let n = kept.len() as int;
    let positions = choose|positions: Seq<int>| #[trigger]
        paths::is_stable_choice(found, sorted, positions);
    assert forall|k: int, l: int| 0 <= k < l < n implies paths::path_less(
        #[trigger] unique[k],
        #[trigger] unique[l],
    ) by {
        assert(unique[k] == kept[n - 1 - k] && unique[l] == kept[n - 1 - l]);
        assert(at[n - 1 - k] < at[n - 1 - l]);
        assert(paths::path_less(sorted[at[n - 1 - k]], sorted[at[n - 1 - l]]));
    }
    assert forall|k: int| 0 <= k < n implies is_first(found, #[trigger] unique[k]) by {
        let a = at[n - 1 - k];
        let path = unique[k];
        assert(path == sorted[a]);
        let i = positions[a];
        assert(found[i] == path);
        assert forall|j: int| 0 <= j < i implies !paths::same_place(#[trigger] found[j], path) by {
            assert(positions.contains(j));
            let m = choose|m: int| 0 <= m < positions.len() && positions[m] == j;
            assert(sorted[m] == found[j]);
            if m < a {
                assert(paths::path_less(sorted[m], sorted[at[n - 1 - k]]));
            } else if m > a {
                if paths::same_place(sorted[m], sorted[a]) {
                    assert(positions[a] < positions[m]);
                }
            }
        }
    }
    assert forall|i: int| 0 <= i < found.len() implies has_equal(unique, #[trigger] found[i]) by {
        assert(positions.contains(i));
        let m = choose|m: int| 0 <= m < positions.len() && positions[m] == i;
        assert(sorted[m] == found[i]);
        assert(is_covered(sorted, at, m));
        let k = choose|k: int|
            0 <= k < at.len() && #[trigger] at[k] <= m && !paths::path_less(
                sorted[at[k]],
                sorted[m],
            ) && paths::path_parts(sorted[at[k]]) == paths::path_parts(sorted[m]);
        assert(unique[n - 1 - k] == kept[k]);
        assert(!paths::path_less(sorted[m], sorted[at[k]]));
    }
}

/// The paths that were found, in order and each of them once: of paths with the same components,
/// which may differ in their spelling, the first one counts.
pub fn unique_paths(found: Vec<PathBuf>) -> (unique: Vec<PathBuf>)
    ensures
        forall|k: int, l: int|
            0 <= k < l < unique@.len() ==> paths::path_less(
                #[trigger] unique@[k],
                #[trigger] unique@[l],
            ),
        forall|k: int| 0 <= k < unique@.len() ==> is_first(found@, #[trigger] unique@[k]),
        forall|i: int| 0 <= i < found@.len() ==> has_equal(unique@, #[trigger] found@[i]),
{
    let ghost given = found@;
    let mut list = found;
    sort_paths(&mut list);
    let ghost sorted = list@;
    let mut kept: Vec<PathBuf> = Vec::new();
    let ghost mut at: Seq<int> = Seq::empty();
    while list.len() > 0
        invariant
            list@.len() <= sorted.len(),
            list@ == sorted.take(list@.len() as int),
            paths::in_order(sorted),
            paths::is_told_apart(sorted),
            is_kept(sorted, list@.len() as int, kept@, at),
        decreases list@.len(),
    {
        let ghost n = list@.len() as int;
        let path = list.pop().unwrap();
        assert(path == sorted[n - 1]);
        assert(list@ =~= sorted.take(n - 1));
        let last: usize = kept.len();
        if last > 0 && !is_less(&path, &kept[last - 1]) {
            assert(kept@[last - 1] == sorted[at.last()]);
            proof {
                assert(!paths::path_less(sorted[n], sorted[n - 1]));
                lemma_replaced(sorted, n, kept@, at);
                at = at.drop_last().push(n - 1);
            }
            kept.pop();
            kept.push(path);
        } else {
            proof {
                lemma_added(sorted, n, kept@, at);
                at = at.push(n - 1);
            }
            kept.push(path);
        }
    }
    proof {
        lemma_kept_paths(given, sorted, kept@, at);
    }
    reversed(kept)
}

// ---- Signatures ----

/// Result of scanning a single file.
#[derive(Debug, Clone)]
pub enum ScanOutcome {
    /// Signature loaded from cache.
    Cached(VideoSignature),
    /// Signature computed and saved to cache.
    Computed(VideoSignature),
    /// Error (file skipped).
    Error(PathBuf, String),
}

/// Result of cache pre-check: separates cached signatures from paths that need processing.
#[derive(Debug, Clone)]
pub struct CacheCheckResult {
    /// Signatures loaded from cache.
    pub cached: Vec<VideoSignature>,
    /// Paths that have no valid cache entry and need processing.
    pub uncached: Vec<PathBuf>,
}

/// The signatures that were found, in order.
pub open spec fn found(loaded: Seq<Option<VideoSignature>>) -> Seq<VideoSignature>
    decreases loaded.len(),
{
    if loaded.len() == 0 {
        Seq::empty()
    } else {
        match loaded.last() {
            Some(signature) => found(loaded.drop_last()).push(signature),
            None => found(loaded.drop_last()),
        }
    }
}

/// The components of the paths without a signature, in order.
pub open spec fn missing(
    files: Seq<PathBuf>,
    loaded: Seq<Option<VideoSignature>>,
) -> Seq<Seq<Seq<char>>>
    decreases loaded.len(),
{
    if loaded.len() == 0 {
        Seq::empty()
    } else if loaded.last() is None {
        missing(files, loaded.drop_last()).push(paths::path_parts(files[loaded.len() - 1]))
    } else {
        missing(files, loaded.drop_last())
    }
}

/// The spellings of the paths without a signature, in order.
pub open spec fn missing_texts(
    files: Seq<PathBuf>,
    loaded: Seq<Option<VideoSignature>>,
) -> Seq<Seq<char>>
    decreases loaded.len(),
{
    if loaded.len() == 0 {
        Seq::empty()
    } else if loaded.last() is None {
        missing_texts(files, loaded.drop_last()).push(paths::path_text(files[loaded.len() - 1]))
    } else {
        missing_texts(files, loaded.drop_last())
    }
}

/// The spellings of paths.
pub open spec fn all_texts(files: Seq<PathBuf>) -> Seq<Seq<char>> {
    Seq::new(files.len(), |i: int| paths::path_text(files[i]))
}

/// The components of paths.
pub open spec fn all_parts(files: Seq<PathBuf>) -> Seq<Seq<Seq<char>>> {
    Seq::new(files.len(), |i: int| paths::path_parts(files[i]))
}

/// Separates the files whose signatures were loaded from the cache from those that still need
/// processing.
pub fn check_cache(files: &Vec<PathBuf>, loaded: Vec<Option<VideoSignature>>) -> (result:
    CacheCheckResult)
    requires
        loaded@.len() == files@.len(),
    ensures
        result.cached@ == found(loaded@),
        all_parts(result.uncached@) == missing(files@, loaded@),
        all_texts(result.uncached@) == missing_texts(files@, loaded@),
        result.cached@.len() + result.uncached@.len() == files@.len(),
{
    let ghost whole = loaded@;
    let mut rest = reversed(loaded);
    let mut cached: Vec<VideoSignature> = Vec::new();
    let mut uncached: Vec<PathBuf> = Vec::new();
    let mut i: usize = 0;
    assert(whole.take(0) =~= Seq::<Option<VideoSignature>>::empty());
    assert(all_parts(uncached@) =~= missing(files@, whole.take(0)));
    assert(all_texts(uncached@) =~= missing_texts(files@, whole.take(0)));
    while i < files.len()
        invariant
            i <= files@.len(),
            whole.len() == files@.len(),
            rest@ == whole.skip(i as int).reverse(),
            cached@ == found(whole.take(i as int)),
            all_parts(uncached@) == missing(files@, whole.take(i as int)),
            all_texts(uncached@) == missing_texts(files@, whole.take(i as int)),
            cached@.len() + uncached@.len() == i,
        decreases files@.len() - i,
    {
        let ghost before = uncached@;
        proof {
            assert(rest@.last() == whole[i as int]);
            assert(rest@.drop_last() =~= whole.skip(i + 1).reverse());
            assert(whole.take(i + 1).drop_last() =~= whole.take(i as int));
            assert(whole.take(i + 1).last() == whole[i as int]);
        }
        match rest.pop() {
            Some(Some(signature)) => {
                cached.push(signature);
            },
            _ => {
                uncached.push(files[i].clone());
                assert(all_parts(uncached@) =~= all_parts(before).push(
                    paths::path_parts(files@[i as int]),
                ));
                assert(all_texts(uncached@) =~= all_texts(before).push(
                    paths::path_text(files@[i as int]),
                ));
            },
        }
        i = i + 1;
    }
    assert(whole.take(i as int) =~= whole);
    CacheCheckResult { cached, uncached }
}

/// What comes of a file whose turn comes after the scan was stopped.
pub fn skipped(path: PathBuf) -> (outcome: ScanOutcome)
    ensures
        outcome matches ScanOutcome::Error(p, message) && p == path && message@ == "interrupted"@,
{
    ScanOutcome::Error(path, String::from_str("interrupted"))
}

/// What comes of a file that was processed.
pub fn outcome_of(path: PathBuf, computed: Result<VideoSignature, SignatureError>) -> (outcome:
    ScanOutcome)
    ensures
        match computed {
            Ok(signature) => outcome == ScanOutcome::Computed(signature),
            Err(error) => outcome matches ScanOutcome::Error(p, message) && p == path && message@
                == error.text(),
        },
{
    match computed {
        Ok(signature) => ScanOutcome::Computed(signature),
        Err(error) => ScanOutcome::Error(path, error.message()),
    }
}

/// The signatures among outcomes, in order.
pub open spec fn signatures_in(outcomes: Seq<ScanOutcome>) -> Seq<VideoSignature>
    decreases outcomes.len(),
{
    if outcomes.len() == 0 {
        Seq::empty()
    } else {
        match outcomes.last() {
            ScanOutcome::Cached(signature) => signatures_in(outcomes.drop_last()).push(signature),
            ScanOutcome::Computed(signature) => signatures_in(outcomes.drop_last()).push(
                signature,
            ),
            ScanOutcome::Error(_, _) => signatures_in(outcomes.drop_last()),
        }
    }
}

/// The errors among outcomes, in order.
pub open spec fn errors_in(outcomes: Seq<ScanOutcome>) -> Seq<(PathBuf, String)>
    decreases outcomes.len(),
{
    if outcomes.len() == 0 {
        Seq::empty()
    } else {
        match outcomes.last() {
            ScanOutcome::Error(path, message) => errors_in(outcomes.drop_last()).push(
                (path, message),
            ),
            _ => errors_in(outcomes.drop_last()),
        }
    }
}

/// Adds the computed signatures to those from the cache, and lists the errors.
pub fn gather(cached: Vec<VideoSignature>, outcomes: Vec<ScanOutcome>) -> (gathered: (
    Vec<VideoSignature>,
    Vec<(PathBuf, String)>,
))
    ensures
        gathered.0@ == cached@ + signatures_in(outcomes@),
        gathered.1@ == errors_in(outcomes@),
        gathered.0@.len() + gathered.1@.len() == cached@.len() + outcomes@.len(),
{
    let ghost whole = outcomes@;
    let ghost first = cached@;
    let mut signatures = cached;
    let mut errors: Vec<(PathBuf, String)> = Vec::new();
    let mut rest = reversed(outcomes);
    let ghost mut done: int = 0;
    assert(whole.take(0) =~= Seq::<ScanOutcome>::empty());
    assert(signatures@ =~= first + signatures_in(whole.take(0)));
    assert(whole.skip(0) =~= whole);
    while rest.len() > 0
        invariant
            0 <= done <= whole.len(),
            rest@ == whole.skip(done).reverse(),
            signatures@ == first + signatures_in(whole.take(done)),
            errors@ == errors_in(whole.take(done)),
            signatures@.len() + errors@.len() == first.len() + done,
        decreases rest@.len(),
    {
        proof {
            assert(rest@.last() == whole[done]);
            assert(rest@.drop_last() =~= whole.skip(done + 1).reverse());
            assert(whole.take(done + 1).drop_last() =~= whole.take(done));
            assert(whole.take(done + 1).last() == whole[done]);
        }
        let ghost before = signatures@;
        match rest.pop() {
            Some(ScanOutcome::Computed(signature)) => {
                signatures.push(signature);
                assert(signatures@ =~= first + signatures_in(whole.take(done + 1)));
            },
            Some(ScanOutcome::Cached(signature)) => {
                signatures.push(signature);
                assert(signatures@ =~= first + signatures_in(whole.take(done + 1)));
            },
            Some(ScanOutcome::Error(path, message)) => {
                errors.push((path, message));
            },
            None => {},
        }
        proof {
            done = done + 1;
        }
    }
    assert(whole.take(done) =~= whole);
    (signatures, errors)
}

// ---- Command line ----

/// How signatures are computed for the command line.
pub fn cli_signature_config(skip_secs: Double, window_count: usize, no_cropdetect: bool) -> (config:
    SignatureConfig)
    ensures
        config == (SignatureConfig {
            skip_secs,
            window_count,
            window_secs: Double { bits: DEFAULT_WINDOW_SECS },
            cropdetect: !no_cropdetect,
            audio_fingerprint: false,
            ffmpeg_timeout: config::default_timeout(),
        }),
{
    SignatureConfig {
        skip_secs,
        window_count,
        window_secs: Double { bits: DEFAULT_WINDOW_SECS },
        cropdetect: !no_cropdetect,
        audio_fingerprint: false,
        ffmpeg_timeout: FfmpegTimeout::default(),
    }
}

/// How signatures are compared for the command line.
pub fn cli_compare_config(tolerance: Single) -> (config: CompareConfig)
    ensures
        config == (CompareConfig {
            tolerance,
            duration_tolerance_pct: Double { bits: 0x4034_0000_0000_0000 },
            min_matching_windows: Single { bits: 0x3f19_999a },
            subclip_min_match: Single { bits: 0x3f00_0000 },
            use_audio: false,
            audio_max_difference: Double { bits: 0x4008_0000_0000_0000 },
            audio_min_segment_duration: Single { bits: 0x40a0_0000 },
        }),
{
    let defaults = CompareConfig::default();
    CompareConfig {
        tolerance,
        duration_tolerance_pct: defaults.duration_tolerance_pct,
        min_matching_windows: defaults.min_matching_windows,
        subclip_min_match: defaults.subclip_min_match,
        use_audio: defaults.use_audio,
        audio_max_difference: defaults.audio_max_difference,
        audio_min_segment_duration: defaults.audio_min_segment_duration,
    }
}

/// How a scan on the command line goes on.
#[derive(Debug, Clone, Copy, PartialEq, Eq, Structural)]
pub enum CliVerdict {
    /// There are no video files.
    NoFiles,
    /// The user interrupted the scan.
    Interrupted,
    /// There are fewer than two signatures.
    TooFew,
    /// There is something to go on with.
    Proceed,
}

/// Decides whether a scan goes on once the files are collected.
pub fn after_collecting(files: usize) -> (verdict: CliVerdict)
    ensures
        verdict == if files == 0 {
            CliVerdict::NoFiles
        } else {
            CliVerdict::Proceed
        },
{
    if files == 0 {
        CliVerdict::NoFiles
    } else {
        CliVerdict::Proceed
    }
}

/// Decides whether signatures are compared: not after an interruption, and not with fewer than
/// two of them.
pub fn after_computing(interrupted: bool, signatures: usize) -> (verdict: CliVerdict)
    ensures
        verdict == if interrupted {
            CliVerdict::Interrupted
        } else if signatures < 2 {
            CliVerdict::TooFew
        } else {
            CliVerdict::Proceed
        },
{
    if interrupted {
        CliVerdict::Interrupted
    } else if signatures < 2 {
        CliVerdict::TooFew
    } else {
        CliVerdict::Proceed
    }
}

/// What the report calls a kind of group.
pub open spec fn kind_text(kind: SimilarityKind) -> Seq<char> {
    match kind {
        SimilarityKind::Identical => "IDENTICAL"@,
        SimilarityKind::SameContent => "SAME CONTENT"@,
        SimilarityKind::SubClip { .. } => "SUB-CLIP"@,
        SimilarityKind::Similar => "SIMILAR"@,
    }
}

/// The report's line for a group: its number, counted from one, and its kind.
pub open spec fn group_line(number: nat, kind: SimilarityKind) -> Seq<char> {
    "--- Group "@ + text::numeral(number) + " ["@ + kind_text(kind) + "] ---\n"@
}

/// The report's lines for the files of a group.
pub open spec fn file_lines(files: Seq<PathBuf>) -> Seq<char>
    decreases files.len(),
{
    if files.len() == 0 {
        Seq::empty()
    } else {
        file_lines(files.drop_last()) + "  "@ + paths::path_text(files.last()) + "\n"@
    }
}

/// The report on groups.
pub open spec fn report(groups: Seq<SimilarGroup>) -> Seq<char>
    decreases groups.len(),
{
    if groups.len() == 0 {
        Seq::empty()
    } else {
        report(groups.drop_last()) + group_line(groups.len(), groups.last().kind) + file_lines(
            groups.last().files@,
        )
    }
}

fn push_files(text: &mut String, files: &Vec<PathBuf>)
    ensures
        final(text)@ == old(text)@ + file_lines(files@),
{
    let ghost before = text@;
    let mut i: usize = 0;
    assert(before + file_lines(files@.take(0)) =~= before);
    while i < files.len()
        invariant
            i <= files@.len(),
            text@ == before + file_lines(files@.take(i as int)),
        decreases files@.len() - i,
    {
        assert(files@.take(i + 1).drop_last() =~= files@.take(i as int));
        let spelling = lossy_text(&files[i]);
        text.append("  ");
        text.append(spelling.as_str());
        text.append("\n");
        assert(text@ =~= before + file_lines(files@.take(i + 1)));
        i = i + 1;
    }
    assert(files@.take(i as int) =~= files@);
}

/// Writes the report on groups: each group with its number and kind, and each file on a line of
/// its own.
pub fn text_report(groups: &[SimilarGroup]) -> (text: String)
    ensures
        text@ == report(groups@),
{
    let mut text = String::new();
    let mut i: usize = 0;
    assert(text@ =~= report(groups@.take(0)));
    while i < groups.len()
        invariant
            i <= groups@.len(),
            text@ == report(groups@.take(i as int)),
        decreases groups@.len() - i,
    {
        assert(groups@.take(i + 1).drop_last() =~= groups@.take(i as int));
        let label = match groups[i].kind {
            SimilarityKind::Identical => "IDENTICAL",
            SimilarityKind::SameContent => "SAME CONTENT",
            SimilarityKind::SubClip { .. } => "SUB-CLIP",
            SimilarityKind::Similar => "SIMILAR",
        };
        text.append("--- Group ");
        push_numeral(&mut text, i as u64 + 1);
        text.append(" [");
        text.append(label);
        text.append("] ---\n");
        push_files(&mut text, &groups[i].files);
        assert(text@ =~= report(groups@.take(i + 1)));
        i = i + 1;
    }
    assert(groups@.take(i as int) =~= groups@);
    text
}

// ---- Laws ----

/// The extensions of videos, in small letters.
pub open spec fn video_extensions() -> Seq<Seq<char>> {
    seq![
        "mp4"@,
        "mkv"@,
        "avi"@,
        "mov"@,
        "wmv"@,
        "flv"@,
        "webm"@,
        "m4v"@,
        "mpg"@,
        "mpeg"@,
        "ts"@,
        "mts"@,
        "m2ts"@,
        "vob"@,
        "3gp"@,
        "ogv"@,
        "rm"@,
        "rmvb"@,
        "divx"@,
    ]
}

/// A text in which the ASCII capitals are small letters.
pub open spec fn in_small_letters(ext: Seq<char>) -> Seq<char> {
    ext.map_values(|c: char| if 'A' <= c <= 'Z' { ((c as u32) + 32) as char } else { c })
}

/// An extension is that of a video exactly where it is one of the list in capitals or small letters.
pub proof fn law_videos_have_a_known_extension(ext: Seq<char>)
    ensures
        is_video(ext) <==> video_extensions().contains(in_small_letters(ext)),
{
    let list = video_extensions();
    let small = in_small_letters(ext);
    reveal_strlit("mp4");
    reveal_strlit("mkv");
    reveal_strlit("avi");
    reveal_strlit("mov");
    reveal_strlit("wmv");
    reveal_strlit("flv");
    reveal_strlit("webm");
    reveal_strlit("m4v");
    reveal_strlit("mpg");
    reveal_strlit("mpeg");
    reveal_strlit("ts");
    reveal_strlit("mts");
    reveal_strlit("m2ts");
    reveal_strlit("vob");
    reveal_strlit("3gp");
    reveal_strlit("ogv");
    reveal_strlit("rm");
    reveal_strlit("rmvb");
    reveal_strlit("divx");
    assert forall|k: int| 0 <= k < list.len() implies (text::same_but_case(
        #[trigger] list[k],
        ext,
    ) <==> list[k] == small) by {
        let name = list[k];
        assert forall|i: int| 0 <= i < name.len() implies text::lower(#[trigger] name[i])
            == name[i] by {}
        if text::same_but_case(name, ext) {
            assert forall|i: int| 0 <= i < name.len() implies name[i] == small[i] by {
                assert(text::lower(name[i]) == text::lower(ext[i]));
            }
            assert(name =~= small);
        }
        if name == small {
            assert forall|i: int| 0 <= i < name.len() implies text::lower(#[trigger] name[i])
                == text::lower(ext[i]) by {
                assert(name[i] == small[i]);
            }
        }
    }
    if is_video(ext) {
        assert(exists|k: int|
            0 <= k < list.len() && text::same_but_case(#[trigger] list[k], ext)) by {
            assert(list[0] == "mp4"@ && list[1] == "mkv"@ && list[2] == "avi"@ && list[3]
                == "mov"@ && list[4] == "wmv"@ && list[5] == "flv"@ && list[6] == "webm"@
                && list[7] == "m4v"@ && list[8] == "mpg"@ && list[9] == "mpeg"@ && list[10]
                == "ts"@ && list[11] == "mts"@ && list[12] == "m2ts"@ && list[13] == "vob"@
                && list[14] == "3gp"@ && list[15] == "ogv"@ && list[16] == "rm"@ && list[17]
                == "rmvb"@ && list[18] == "divx"@);
        }
    }
}

/// Every file goes one of two ways: its signature is among those from the cache, or its path is
/// among those that still need processing.
pub proof fn law_every_file_is_cached_or_processed(
    files: Seq<PathBuf>,
    loaded: Seq<Option<VideoSignature>>,
    i: int,
)
    requires
        0 <= i < loaded.len(),
        loaded.len() <= files.len(),
    ensures
        loaded[i] matches Some(signature) ==> found(loaded).contains(signature),
        loaded[i] is None ==> missing(files, loaded).contains(paths::path_parts(files[i]))
            && missing_texts(files, loaded).contains(paths::path_text(files[i])),
        found(loaded).len() == tally::tally(loaded.len() as int, |k: int| loaded[k] is Some),
        missing(files, loaded).len() == tally::tally(
            loaded.len() as int,
            |k: int| loaded[k] is None,
        ),
    decreases loaded.len(),
{
    let n = loaded.len() - 1;
    let front = loaded.drop_last();
    lemma_ways(files, loaded);
    if i < n {
        law_every_file_is_cached_or_processed(files, front, i);
        assert(front[i] == loaded[i]);
        if let Some(signature) = loaded[i] {
            let k = found(front).index_of(signature);
            assert(found(loaded)[k] == signature);
        } else {
            let k = missing(files, front).index_of(paths::path_parts(files[i]));
            assert(missing(files, loaded)[k] == paths::path_parts(files[i]));
            let t = missing_texts(files, front).index_of(paths::path_text(files[i]));
            assert(missing_texts(files, loaded)[t] == paths::path_text(files[i]));
        }
    } else if let Some(signature) = loaded[i] {
        assert(found(loaded)[found(loaded).len() - 1] == signature);
    } else {
        let parts = missing(files, loaded);
        assert(parts[parts.len() - 1] == paths::path_parts(files[i]));
        let texts = missing_texts(files, loaded);
        assert(texts[texts.len() - 1] == paths::path_text(files[i]));
    }
}

proof fn lemma_ways(files: Seq<PathBuf>, loaded: Seq<Option<VideoSignature>>)
    ensures
        found(loaded).len() == tally::tally(loaded.len() as int, |k: int| loaded[k] is Some),
        missing(files, loaded).len() == tally::tally(
            loaded.len() as int,
            |k: int| loaded[k] is None,
        ),
    decreases loaded.len(),
{
    if loaded.len() > 0 {
        let front = loaded.drop_last();
        lemma_ways(files, front);
        tally::lemma_tally_of_same(
            front.len() as int,
            |k: int| front[k] is Some,
            |k: int| loaded[k] is Some,
        );
        tally::lemma_tally_of_same(
            front.len() as int,
            |k: int| front[k] is None,
            |k: int| loaded[k] is None,
        );
    }
}

/// Every outcome is accounted for: a signature, whether computed or from the cache, is among the
/// signatures, and an error among the errors, each with its file.
pub proof fn law_every_outcome_is_gathered(outcomes: Seq<ScanOutcome>, i: int)
    requires
        0 <= i < outcomes.len(),
    ensures
        match outcomes[i] {
            ScanOutcome::Cached(signature) => signatures_in(outcomes).contains(signature),
            ScanOutcome::Computed(signature) => signatures_in(outcomes).contains(signature),
            ScanOutcome::Error(path, message) => errors_in(outcomes).contains((path, message)),
        },
        errors_in(outcomes).len() == tally::tally(
            outcomes.len() as int,
            |k: int| outcomes[k] is Error,
        ),
        signatures_in(outcomes).len() + errors_in(outcomes).len() == outcomes.len(),
    decreases outcomes.len(),
{
    let front = outcomes.drop_last();
    let n = front.len() as int;
    if n > 0 {
        law_every_outcome_is_gathered(front, if i < n { i } else { 0 });
    }
    tally::lemma_tally_of_same(
        n,
        |k: int| front[k] is Error,
        |k: int| outcomes[k] is Error,
    );
    let (was, now) = (signatures_in(front), signatures_in(outcomes));
    let (were, are) = (errors_in(front), errors_in(outcomes));
    assert(outcomes[n] == outcomes.last());
    if i < n {
        assert(front[i] == outcomes[i]);
        match outcomes[i] {
            ScanOutcome::Error(path, message) => {
                let k = were.index_of((path, message));
                assert(are[k] == (path, message));
            },
            ScanOutcome::Cached(signature) => {
                let k = was.index_of(signature);
                assert(now[k] == signature);
            },
            ScanOutcome::Computed(signature) => {
                let k = was.index_of(signature);
                assert(now[k] == signature);
            },
        }
    } else {
        match outcomes[i] {
            ScanOutcome::Error(path, message) => {
                assert(are[are.len() - 1] == (path, message));
            },
            ScanOutcome::Cached(signature) => {
                assert(now[now.len() - 1] == signature);
            },
            ScanOutcome::Computed(signature) => {
                assert(now[now.len() - 1] == signature);
            },
        }
    }
}

/// A report has a part for each group: its number, which is one more than there are groups ahead of
/// it, its kind in capitals, and a line for each of its files.
pub proof fn law_reports_list_groups_and_files(groups: Seq<SimilarGroup>, group: SimilarGroup)
    ensures
        report(groups.push(group)) == report(groups) + "--- Group "@ + text::numeral(
            groups.len() + 1,
        ) + " ["@ + (match group.kind {
            SimilarityKind::Identical => "IDENTICAL"@,
            SimilarityKind::SameContent => "SAME CONTENT"@,
            SimilarityKind::SubClip { .. } => "SUB-CLIP"@,
            SimilarityKind::Similar => "SIMILAR"@,
        }) + "] ---\n"@ + file_lines(group.files@),
        forall|files: Seq<PathBuf>, path: PathBuf|
            #[trigger] file_lines(files.push(path)) == file_lines(files) + "  "@
                + paths::path_text(path) + "\n"@,
        file_lines(Seq::<PathBuf>::empty()) == Seq::<char>::empty(),
{
    assert(groups.push(group).drop_last() =~= groups);
    assert forall|files: Seq<PathBuf>, path: PathBuf|
        #[trigger] file_lines(files.push(path)) == file_lines(files) + "  "@ + paths::path_text(
            path,
        ) + "\n"@ by {
        assert(files.push(path).drop_last() =~= files);
    }
    let lines = file_lines(group.files@);
    assert(report(groups.push(group)) =~= report(groups) + "--- Group "@ + text::numeral(
        groups.len() + 1,
    ) + " ["@ + kind_text(group.kind) + "] ---\n"@ + lines);
}

} // verus!
