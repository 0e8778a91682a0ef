//! The rows of the result list: a header for each group, and a row for each of its files.

use crate::compare::SimilarityKind;
use crate::double::Double;
use crate::gui::format::{format_bitrate, format_duration, format_size};
use crate::metadata::VideoMetadata;
use crate::paths::{self, is_less};
use crate::text::{self, contains_ignoring_case, push_numeral};
use crate::visual::VideoSignature;
use std::path::PathBuf;
use vstd::prelude::*;

verus! {

/// What the header of a group says of its files.
#[derive(Debug, Clone, Copy, PartialEq, Eq, Structural)]
pub enum GroupKind {
    Identical,
    SameContent,
    SubClip,
    Similar,
}

/// How a file compares with the other files of its group.
#[derive(Debug, Clone, Copy, PartialEq, Eq, Structural)]
pub enum QualityTier {
    Unknown,
    Best,
    Worse,
}

/// A row of the list.
#[derive(Debug, Clone)]
pub struct PlainRow {
    pub is_header: bool,
    pub group_kind: GroupKind,
    pub quality_tier: QualityTier,
    pub name: String,
    pub path: String,
    pub size: String,
    pub dimensions: String,
    pub duration: String,
    pub duration_secs: Double,
    pub bitrate: String,
    pub fps: String,
    pub codec: String,
    pub mod_date: String,
}

/// A row of the list with mathematical values.
pub struct RowView {
    pub is_header: bool,
    pub group_kind: GroupKind,
    pub quality_tier: QualityTier,
    pub name: Seq<char>,
    pub path: Seq<char>,
    pub size: Seq<char>,
    pub dimensions: Seq<char>,
    pub duration: Seq<char>,
    pub duration_secs: Double,
    pub bitrate: Seq<char>,
    pub fps: Seq<char>,
    pub codec: Seq<char>,
    pub mod_date: Seq<char>,
}

impl View for PlainRow {
    type V = RowView;

    open spec fn view(&self) -> RowView {
        RowView {
            is_header: self.is_header,
            group_kind: self.group_kind,
            quality_tier: self.quality_tier,
            name: self.name@,
            path: self.path@,
            size: self.size@,
            dimensions: self.dimensions@,
            duration: self.duration@,
            duration_secs: self.duration_secs,
            bitrate: self.bitrate@,
            fps: self.fps@,
            codec: self.codec@,
            mod_date: self.mod_date@,
        }
    }
}

/// What is known of a file that is shown.
#[derive(Debug, Clone)]
pub struct FileFacts {
    /// Its name without the directory.
    pub name: String,
    /// Its path.
    pub path: String,
    /// Its size in bytes, where it could be read.
    pub size: Option<u64>,
    /// When it was last changed, as a text; empty, where that is unknown.
    pub mod_date: String,
    /// What ffprobe said of it, where there is a signature with metadata.
    pub metadata: Option<VideoMetadata>,
}

/// A group whose files are shown.
#[derive(Debug, Clone)]
pub struct GroupFacts {
    pub kind: SimilarityKind,
    pub files: Vec<FileFacts>,
}

// ---- Quality ----

/// The rank of a codec: newer formats (AV1, then HEVC and VP9) before older ones (H.264, then
/// MPEG-2), and 0 for unknown ones.
pub open spec fn rank(codec: Seq<char>) -> int {
    if text::occurs(codec, "av1"@) {
        4
    } else if text::occurs(codec, "hevc"@) || text::occurs(codec, "h265"@) || text::occurs(
        codec,
        "265"@,
    ) || text::occurs(codec, "vp9"@) {
        3
    } else if text::occurs(codec, "h264"@) || text::occurs(codec, "264"@) || text::occurs(
        codec,
        "avc"@,
    ) || text::occurs(codec, "vp8"@) {
        2
    } else if text::occurs(codec, "mpeg"@) || text::occurs(codec, "xvid"@) || text::occurs(
        codec,
        "divx"@,
    ) || text::occurs(codec, "wmv"@) {
        1
    } else {
        0
    }
}

/// Scores a codec: higher is better.
pub fn codec_rank(codec: &str) -> (score: i32)
    ensures
        score == rank(codec@),
        0 <= score <= 4,
{
    if contains_ignoring_case(codec, "av1") {
        return 4;
    }
    if contains_ignoring_case(codec, "hevc") || contains_ignoring_case(codec, "h265")
        || contains_ignoring_case(codec, "265") || contains_ignoring_case(codec, "vp9") {
        return 3;
    }
    if contains_ignoring_case(codec, "h264") || contains_ignoring_case(codec, "264")
        || contains_ignoring_case(codec, "avc") || contains_ignoring_case(codec, "vp8") {
        return 2;
    }
    if contains_ignoring_case(codec, "mpeg") || contains_ignoring_case(codec, "xvid")
        || contains_ignoring_case(codec, "divx") || contains_ignoring_case(codec, "wmv") {
        return 1;
    }
    0
}

/// Pixels, codec rank and bit rate of a file.
pub type QualityScore = (u64, i32, u64);

/// The value, or 0 where there is none.
pub open spec fn or_zero(value: Option<u32>) -> int {
    match value {
        Some(v) => v as int,
        None => 0,
    }
}

/// The score of a file: its pixels, the rank of its codec and its bit rate, each of them 0 where
/// it is unknown.
pub open spec fn score_of(
    width: Option<u32>,
    height: Option<u32>,
    codec: Seq<char>,
    bitrate: Option<u64>,
) -> QualityScore {
    (
        (or_zero(width) * or_zero(height)) as u64,
        rank(codec) as i32,
        match bitrate {
            Some(b) => b,
            None => 0,
        },
    )
}

/// Scores a file by its resolution, then its codec, then its bit rate.
pub fn quality_score(
    width: Option<u32>,
    height: Option<u32>,
    codec: &str,
    bitrate: Option<u64>,
) -> (score: QualityScore)
    ensures
        score == score_of(width, height, codec@, bitrate),
        score.0 == or_zero(width) * or_zero(height),
{
    let w: u64 = match width {
        Some(v) => v as u64,
        None => 0,
    };
    let h: u64 = match height {
        Some(v) => v as u64,
        None => 0,
    };
    assert(0 <= w * h <= 0xffff_ffff * 0xffff_ffff) by (nonlinear_arith)
        requires
            0 <= w <= 0xffff_ffff,
            0 <= h <= 0xffff_ffff,
    ;
    let b: u64 = match bitrate {
        Some(v) => v,
        None => 0,
    };
    (w * h, codec_rank(codec), b)
}

/// Whether a score is below another one: resolution dominates, then the codec, then the bit rate.
pub open spec fn is_below(a: QualityScore, b: QualityScore) -> bool {
    a.0 < b.0 || (a.0 == b.0 && (a.1 < b.1 || (a.1 == b.1 && a.2 < b.2)))
}

fn below(a: QualityScore, b: QualityScore) -> (less: bool)
    ensures
        less == is_below(a, b),
{
    a.0 < b.0 || (a.0 == b.0 && (a.1 < b.1 || (a.1 == b.1 && a.2 < b.2)))
}

/// The highest of some scores.
pub open spec fn highest(scores: Seq<QualityScore>) -> QualityScore
    decreases scores.len(),
{
    if scores.len() <= 1 {
        scores[0]
    } else if is_below(highest(scores.drop_last()), scores.last()) {
        scores.last()
    } else {
        highest(scores.drop_last())
    }
}

/// The tier of a file among the files of its group: unknown where all scores are the same, and
/// where nothing is known of the file; best with the highest score; and worse otherwise.
pub open spec fn tier(scores: Seq<QualityScore>, i: int) -> QualityTier {
    let best = highest(scores);
    let differentiated = exists|k: int| 0 <= k < scores.len() && #[trigger] scores[k] != best;
    if !differentiated || scores[i] == (0u64, 0i32, 0u64) {
        QualityTier::Unknown
    } else if scores[i] == best {
        QualityTier::Best
    } else {
        QualityTier::Worse
    }
}

fn same_score(a: QualityScore, b: QualityScore) -> (same: bool)
    ensures
        same == (a == b),
{
    a.0 == b.0 && a.1 == b.1 && a.2 == b.2
}

/// The tiers of the files of a group.
pub fn quality_tiers(scores: &[QualityScore]) -> (tiers: Vec<QualityTier>)
    ensures
        tiers@ == Seq::new(scores@.len(), |i: int| tier(scores@, i)),
{
    let mut tiers: Vec<QualityTier> = Vec::new();
    if scores.len() == 0 {
        return tiers;
    }
    let mut best: QualityScore = scores[0];
    let mut i: usize = 1;
    while i < scores.len()
        invariant
            1 <= i <= scores@.len(),
            best == highest(scores@.take(i as int)),
        decreases scores@.len() - i,
    {
        assert(scores@.take(i + 1).drop_last() =~= scores@.take(i as int));
        if below(best, scores[i]) {
            best = scores[i];
        }
        i = i + 1;
    }
    assert(scores@.take(i as int) =~= scores@);
    let mut differentiated = false;
    i = 0;
    while i < scores.len()
        invariant
            i <= scores@.len(),
            differentiated <==> exists|k: int| 0 <= k < i && #[trigger] scores@[k] != best,
        decreases scores@.len() - i,
    {
        if !same_score(scores[i], best) {
            assert(scores@[i as int] != best);
            differentiated = true;
        }
        i = i + 1;
    }
    i = 0;
    while i < scores.len()
        invariant
            i <= scores@.len(),
            best == highest(scores@),
            differentiated <==> exists|k: int|
                0 <= k < scores@.len() && #[trigger] scores@[k] != best,
            tiers@ == Seq::new(i as nat, |k: int| tier(scores@, k)),
        decreases scores@.len() - i,
    {
        let found = if !differentiated || same_score(scores[i], (0, 0, 0)) {
            QualityTier::Unknown
        } else if same_score(scores[i], best) {
            QualityTier::Best
        } else {
            QualityTier::Worse
        };
        tiers.push(found);
        assert(tiers@ =~= Seq::new((i + 1) as nat, |k: int| tier(scores@, k)));
        i = i + 1;
    }
    tiers
}

// ---- Rows ----

/// The kind that a header shows.
pub open spec fn shown_kind(kind: SimilarityKind) -> GroupKind {
    match kind {
        SimilarityKind::Identical => GroupKind::Identical,
        SimilarityKind::SameContent => GroupKind::SameContent,
        SimilarityKind::SubClip { .. } => GroupKind::SubClip,
        SimilarityKind::Similar => GroupKind::Similar,
    }
}

/// The kind that a header shows.
pub fn group_kind(kind: SimilarityKind) -> (shown: GroupKind)
    ensures
        shown == shown_kind(kind),
{
    match kind {
        SimilarityKind::Identical => GroupKind::Identical,
        SimilarityKind::SameContent => GroupKind::SameContent,
        SimilarityKind::SubClip { .. } => GroupKind::SubClip,
        SimilarityKind::Similar => GroupKind::Similar,
    }
}

/// The header of a group.
pub open spec fn header_row(kind: SimilarityKind, n: nat) -> RowView {
    RowView {
        is_header: true,
        group_kind: shown_kind(kind),
        quality_tier: QualityTier::Unknown,
        name: text::numeral(n) + " file(s)"@,
        path: Seq::empty(),
        size: Seq::empty(),
        dimensions: Seq::empty(),
        duration: Seq::empty(),
        duration_secs: Double { bits: 0 },
        bitrate: Seq::empty(),
        fps: Seq::empty(),
        codec: Seq::empty(),
        mod_date: Seq::empty(),
    }
}

/// The score of a file that is shown.
pub open spec fn file_score(file: FileFacts) -> QualityScore {
    match file.metadata {
        Some(m) => score_of(
            m.width,
            m.height,
            match m.codec {
                Some(c) => c@,
                None => Seq::empty(),
            },
            m.bitrate_bps,
        ),
        None => score_of(None, None, Seq::empty(), None),
    }
}

/// The scores of the files of a group.
pub open spec fn file_scores(files: Seq<FileFacts>) -> Seq<QualityScore> {
    Seq::new(files.len(), |i: int| file_score(files[i]))
}

/// The row of a file.
pub open spec fn file_row(file: FileFacts, quality_tier: QualityTier) -> RowView {
    RowView {
        is_header: false,
        group_kind: GroupKind::Identical,
        quality_tier,
        name: file.name@,
        path: file.path@,
        size: match file.size {
            Some(bytes) => crate::gui::format::size_text(bytes),
            None => Seq::empty(),
        },
        dimensions: match file.metadata {
            Some(m) => match (m.width, m.height) {
                (Some(w), Some(h)) => text::numeral(w as nat) + "×"@ + text::numeral(h as nat),
                _ => Seq::empty(),
            },
            None => Seq::empty(),
        },
        duration: match file.metadata {
            Some(m) => crate::gui::format::duration_text(m.duration_secs.whole() as nat),
            None => Seq::empty(),
        },
        duration_secs: match file.metadata {
            Some(m) => m.duration_secs,
            None => Double { bits: 0 },
        },
        bitrate: match file.metadata {
            Some(m) => match m.bitrate_bps {
                Some(bps) => crate::gui::format::bitrate_text(bps),
                None => Seq::empty(),
            },
            None => Seq::empty(),
        },
        fps: match file.metadata {
            Some(m) => match m.fps {
                Some(fps) => fps.text(),
                None => Seq::empty(),
            },
            None => Seq::empty(),
        },
        codec: match file.metadata {
            Some(m) => match m.codec {
                Some(c) => c@,
                None => Seq::empty(),
            },
            None => Seq::empty(),
        },
        mod_date: file.mod_date@,
    }
}

/// The rows of a group: its header, and a row for each file.
pub open spec fn group_rows(group: GroupFacts) -> Seq<RowView> {
    let scores = file_scores(group.files@);
    seq![header_row(group.kind, group.files@.len())] + Seq::new(
        group.files@.len(),
        |i: int| file_row(group.files@[i], tier(scores, i)),
    )
}

/// The rows of all groups.
pub open spec fn all_rows(groups: Seq<GroupFacts>) -> Seq<RowView>
    decreases groups.len(),
{
    if groups.len() == 0 {
        Seq::empty()
    } else {
        all_rows(groups.drop_last()) + group_rows(groups.last())
    }
}

/// What rows show.
pub open spec fn row_views(rows: Seq<PlainRow>) -> Seq<RowView> {
    Seq::new(rows.len(), |i: int| rows[i]@)
}

fn header(kind: SimilarityKind, n: usize) -> (row: PlainRow)
    ensures
        row@ == header_row(kind, n as nat),
{
    let mut name = String::new();
    push_numeral(&mut name, n as u64);
    name.append(" file(s)");
    assert(name@ =~= text::numeral(n as nat) + " file(s)"@);
    PlainRow {
        is_header: true,
        group_kind: group_kind(kind),
        quality_tier: QualityTier::Unknown,
        name,
        path: String::new(),
        size: String::new(),
        dimensions: String::new(),
        duration: String::new(),
        duration_secs: Double { bits: 0 },
        bitrate: String::new(),
        fps: String::new(),
        codec: String::new(),
        mod_date: String::new(),
    }
}

fn format_dimensions(width: u32, height: u32) -> (shown: String)
    ensures
        shown@ == text::numeral(width as nat) + "×"@ + text::numeral(height as nat),
{
    let mut shown = String::new();
    push_numeral(&mut shown, width as u64);
    shown.append("×");
    push_numeral(&mut shown, height as u64);
    assert(shown@ =~= text::numeral(width as nat) + "×"@ + text::numeral(height as nat));
    shown
}

fn score_file(file: &FileFacts) -> (score: QualityScore)
    ensures
        score == file_score(*file),
{
    match &file.metadata {
        Some(m) => match &m.codec {
            Some(c) => quality_score(m.width, m.height, c.as_str(), m.bitrate_bps),
            None => {
                let none = String::new();
                quality_score(m.width, m.height, none.as_str(), m.bitrate_bps)
            },
        },
        None => {
            let none = String::new();
            quality_score(None, None, none.as_str(), None)
        },
    }
}

fn show_file(file: &FileFacts, quality_tier: QualityTier) -> (row: PlainRow)
    ensures
        row@ == file_row(*file, quality_tier),
{
    let size = match file.size {
        Some(bytes) => format_size(bytes),
        None => String::new(),
    };
    let mut row = PlainRow {
        is_header: false,
        group_kind: GroupKind::Identical,
        quality_tier,
        name: file.name.clone(),
        path: file.path.clone(),
        size,
        dimensions: String::new(),
        duration: String::new(),
        duration_secs: Double { bits: 0 },
        bitrate: String::new(),
        fps: String::new(),
        codec: String::new(),
        mod_date: file.mod_date.clone(),
    };
    match &file.metadata {
        Some(m) => {
            match (m.width, m.height) {
                (Some(w), Some(h)) => {
                    row.dimensions = format_dimensions(w, h);
                },
                _ => {},
            }
            row.duration = format_duration(m.duration_secs);
            row.duration_secs = m.duration_secs;
            match m.bitrate_bps {
                Some(bps) => {
                    row.bitrate = format_bitrate(bps);
                },
                None => {},
            }
            match m.fps {
                Some(fps) => {
                    row.fps = fps.show();
                },
                None => {},
            }
            match &m.codec {
                Some(c) => {
                    row.codec = c.clone();
                },
                None => {},
            }
        },
        None => {},
    }
    row
}

fn show_group(group: &GroupFacts) -> (rows: Vec<PlainRow>)
    ensures
        row_views(rows@) == group_rows(*group),
{
    let mut scores: Vec<QualityScore> = Vec::new();
    let mut i: usize = 0;
    while i < group.files.len()
        invariant
            i <= group.files@.len(),
            scores@ == file_scores(group.files@).take(i as int),
        decreases group.files@.len() - i,
    {
        scores.push(score_file(&group.files[i]));
        assert(scores@ =~= file_scores(group.files@).take(i + 1));
        i = i + 1;
    }
    assert(scores@ =~= file_scores(group.files@));
    let tiers = quality_tiers(scores.as_slice());
    let mut rows: Vec<PlainRow> = Vec::new();
    rows.push(header(group.kind, group.files.len()));
    i = 0;
    while i < group.files.len()
        invariant
            i <= group.files@.len(),
            tiers@ == Seq::new(
                group.files@.len(),
                |k: int| tier(file_scores(group.files@), k),
            ),
            rows@.len() == i + 1,
            forall|k: int| 0 <= k < i + 1 ==> (#[trigger] rows@[k])@ == group_rows(*group)[k],
        decreases group.files@.len() - i,
    {
        let row = show_file(&group.files[i], tiers[i]);
        assert(row@ == group_rows(*group)[i + 1]);
        rows.push(row);
        i = i + 1;
    }
    assert(row_views(rows@) =~= group_rows(*group));
    rows
}

/// Lays out the rows of the result list.
pub fn groups_to_plain_rows(groups: &[GroupFacts]) -> (rows: Vec<PlainRow>)
    ensures
        row_views(rows@) == all_rows(groups@),
{
    let mut rows: Vec<PlainRow> = Vec::new();
    let mut i: usize = 0;
    assert(row_views(rows@) =~= all_rows(groups@.take(0)));
    while i < groups.len()
        invariant
            i <= groups@.len(),
            row_views(rows@) == all_rows(groups@.take(i as int)),
        decreases groups@.len() - i,
    {
        let ghost before = rows@;
        let mut more = show_group(&groups[i]);
        let ghost added = more@;
        rows.append(&mut more);
        assert(groups@.take(i + 1).drop_last() =~= groups@.take(i as int));
        assert(row_views(rows@) =~= row_views(before) + row_views(added));
        i = i + 1;
    }
    assert(groups@.take(i as int) =~= groups@);
    rows
}

// ---- Laws ----

/// The order of scores is total: of two different scores exactly one is below the other.
pub proof fn law_scores_are_ordered(a: QualityScore, b: QualityScore, c: QualityScore)
    ensures
        !is_below(a, a),
        a != b ==> (is_below(a, b) <==> !is_below(b, a)),
        is_below(a, b) && is_below(b, c) ==> is_below(a, c),
{
}

/// The highest score is one of the scores, and none is above it.
pub proof fn law_highest_is_highest(scores: Seq<QualityScore>, i: int)
    requires
        0 <= i < scores.len(),
    ensures
        !is_below(highest(scores), scores[i]),
        exists|k: int| 0 <= k < scores.len() && #[trigger] scores[k] == highest(scores),
    decreases scores.len(),
{
    let front = scores.drop_last();
    let n = scores.len() - 1;
    if n > 0 {
        law_highest_is_highest(front, if i < n { i } else { 0 });
        let k = choose|k: int| 0 <= k < front.len() && #[trigger] front[k] == highest(front);
        assert(scores[k] == front[k]);
        assert(scores[n] == scores.last());
    } else {
        assert(scores[0] == highest(scores));
    }
}

/// Where the files of a group differ in quality and no score is negative, one of them is marked as
/// the best, and no file has a higher score than it. Where they do not differ, as in a group of a
/// single file, none is marked.
pub proof fn law_differing_groups_have_a_best(scores: Seq<QualityScore>, i: int, j: int)
    requires
        0 <= i < scores.len(),
        0 <= j < scores.len(),
        forall|k: int| 0 <= k < scores.len() ==> (#[trigger] scores[k]).1 >= 0,
    ensures
        scores[i] != scores[j] ==> exists|k: int|
            0 <= k < scores.len() && #[trigger] tier(scores, k) == QualityTier::Best,
        tier(scores, i) == QualityTier::Best ==> !is_below(scores[i], scores[j]),
        (forall|k: int| 0 <= k < scores.len() ==> #[trigger] scores[k] == scores[i]) ==> tier(
            scores,
            j,
        ) == QualityTier::Unknown,
{
    law_highest_is_highest(scores, i);
    law_highest_is_highest(scores, j);
    let best = highest(scores);
    let k = choose|k: int| 0 <= k < scores.len() && #[trigger] scores[k] == best;
    if scores[i] != scores[j] {
        if scores[i] != best {
            assert(scores[i] != best);
        } else {
            assert(scores[j] != best);
        }
        if best == (0u64, 0i32, 0u64) {
            assert(is_below(best, scores[i]) || is_below(best, scores[j]));
        }
        assert(tier(scores, k) == QualityTier::Best);
    }
}

/// The rank of a codec is at least 0, so no score of a file is negative.
pub proof fn law_file_scores_are_not_negative(file: FileFacts)
    ensures
        file_score(file).1 >= 0,
{
}

/// Finds the signature of a file: of those with its path, the last one.
pub fn signature_of(signatures: &[VideoSignature], path: &PathBuf) -> (found: Option<usize>)
    ensures
        match found {
            Some(k) => k < signatures@.len() && paths::same_place(signatures@[k as int].path, *path)
                && forall|j: int|
                k < j < signatures@.len() ==> !paths::same_place(
                    (#[trigger] signatures@[j]).path,
                    *path,
                ),
            None => forall|j: int|
                0 <= j < signatures@.len() ==> !paths::same_place(
                    (#[trigger] signatures@[j]).path,
                    *path,
                ),
        },
{
    let mut n: usize = signatures.len();
    while n > 0
        invariant
            n <= signatures@.len(),
            forall|j: int|
                n <= j < signatures@.len() ==> !paths::same_place(
                    (#[trigger] signatures@[j]).path,
                    *path,
                ),
        decreases n,
    {
        n = n - 1;
        if !is_less(&signatures[n].path, path) && !is_less(path, &signatures[n].path) {
            return Some(n);
        }
    }
    None
}

/// Whether a file is of no lower quality than another one: it has more pixels, or as many and the
/// better codec, or is equal in both and has at least the bit rate.
pub open spec fn is_no_worse(a: QualityScore, b: QualityScore) -> bool {
    if a.0 != b.0 {
        a.0 > b.0
    } else if a.1 != b.1 {
        a.1 > b.1
    } else {
        a.2 >= b.2
    }
}

/// A file is marked as the best of its group exactly where it is of no lower quality than any other
/// one, some file of the group differs from it, and something is known of it. It is marked as worse
/// exactly where another one is better, and something is known of it.
pub proof fn law_the_best_file_is_no_worse_than_others(scores: Seq<QualityScore>, i: int)
    requires
        0 <= i < scores.len(),
    ensures
        tier(scores, i) == QualityTier::Best <==> (forall|j: int|
            0 <= j < scores.len() ==> is_no_worse(scores[i], #[trigger] scores[j])) && (exists|j: int|
            0 <= j < scores.len() && #[trigger] scores[j] != scores[i]) && scores[i] != (
            0u64,
            0i32,
            0u64,
        ),
        tier(scores, i) == QualityTier::Worse <==> (exists|j: int|
            0 <= j < scores.len() && !is_no_worse(scores[i], #[trigger] scores[j])) && scores[i]
            != (0u64, 0i32, 0u64),
{
    let best = highest(scores);
    law_highest_is_highest(scores, i);
    let top = choose|k: int| 0 <= k < scores.len() && #[trigger] scores[k] == best;
    assert forall|j: int| 0 <= j < scores.len() implies is_no_worse(best, #[trigger] scores[j]) by {
        law_highest_is_highest(scores, j);
    }
    if scores[i] != best {
        assert(!is_no_worse(scores[i], scores[top]));
        assert(scores[i] != best);
    }
}

/// The pixels of a file are its width times its height, and nothing where one of them is unknown.
pub proof fn law_scores_count_pixels(width: u32, height: u32, codec: Seq<char>, bitrate: u64)
    ensures
        score_of(Some(width), Some(height), codec, Some(bitrate)).0 == width * height,
        score_of(Some(width), Some(height), codec, Some(bitrate)).2 == bitrate,
        score_of(None, Some(height), codec, Some(bitrate)).0 == 0,
        score_of(Some(width), None, codec, None).0 == 0,
        score_of(Some(width), None, codec, None).2 == 0,
{
    assert(0 <= width * height <= 0xffff_ffff * 0xffff_ffff) by (nonlinear_arith)
        requires
            0 <= width <= 0xffff_ffff,
            0 <= height <= 0xffff_ffff,
    ;
    assert(0 * height == 0 && width * 0 == 0) by (nonlinear_arith);
}

/// The rows of a list of groups are as many as its groups and files; each group has a header with
/// the number of its files, and after it a row with the path of each of them.
pub proof fn law_groups_have_headers_and_files(groups: Seq<GroupFacts>, g: int, k: int)
    requires
        0 <= g < groups.len(),
        0 <= k < groups[g].files@.len(),
    ensures
        ({
            let at = rows_before(groups, g);
            let rows = all_rows(groups);
            &&& 0 <= at && at + k + 1 < rows.len()
            &&& rows[at].is_header && rows[at].name == text::numeral(groups[g].files@.len())
                + " file(s)"@
            &&& !rows[at + 1 + k].is_header && rows[at + 1 + k].path == groups[g].files@[k].path@
            &&& rows.len() == rows_before(groups, groups.len() as int)
        }),
    decreases groups.len(),
{
    let front = groups.drop_last();
    let n = front.len() as int;
    lemma_row_count(groups);
    lemma_row_count(front);
    lemma_rows_before(front, groups, n);
    let last = group_rows(groups.last());
    assert(last.len() == groups.last().files@.len() + 1);
    if g < n {
        law_groups_have_headers_and_files(front, g, k);
        lemma_rows_before(front, groups, g);
        let at = rows_before(groups, g);
        assert(all_rows(groups)[at] == all_rows(front)[at]);
        assert(all_rows(groups)[at + 1 + k] == all_rows(front)[at + 1 + k]);
    } else {
        let at = rows_before(groups, g);
        assert(all_rows(groups)[at] == last[0]);
        assert(all_rows(groups)[at + 1 + k] == last[k + 1]);
    }
}

/// How many rows the groups ahead of one have.
pub open spec fn rows_before(groups: Seq<GroupFacts>, g: int) -> int
    decreases g,
{
    if g <= 0 {
        0
    } else {
        rows_before(groups, g - 1) + 1 + groups[g - 1].files@.len()
    }
}

proof fn lemma_rows_before(front: Seq<GroupFacts>, groups: Seq<GroupFacts>, g: int)
    requires
        0 <= g <= front.len() <= groups.len(),
        forall|i: int| 0 <= i < front.len() ==> front[i] == #[trigger] groups[i],
    ensures
        rows_before(front, g) == rows_before(groups, g),
    decreases g,
{
    if g > 0 {
        lemma_rows_before(front, groups, g - 1);
        assert(front[g - 1] == groups[g - 1]);
    }
}

proof fn lemma_row_count(groups: Seq<GroupFacts>)
    ensures
        all_rows(groups).len() == rows_before(groups, groups.len() as int),
    decreases groups.len(),
{
    if groups.len() > 0 {
        let front = groups.drop_last();
        lemma_row_count(front);
        lemma_rows_before(front, groups, front.len() as int);
        assert(group_rows(groups.last()).len() == groups.last().files@.len() + 1);
    }
}

/// Newer codecs rank before older ones: AV1 is 4; else HEVC and VP9 are 3; else H.264 and VP8 are 2;
/// else MPEG, Xvid, DivX and WMV are 1; and what is none of these is 0.
pub proof fn law_newer_codecs_rank_higher(codec: Seq<char>)
    ensures
        ({
            let av1 = text::occurs(codec, "av1"@);
            let hevc = text::occurs(codec, "hevc"@) || text::occurs(codec, "h265"@)
                || text::occurs(codec, "265"@) || text::occurs(codec, "vp9"@);
            let avc = text::occurs(codec, "h264"@) || text::occurs(codec, "264"@)
                || text::occurs(codec, "avc"@) || text::occurs(codec, "vp8"@);
            let mpeg = text::occurs(codec, "mpeg"@) || text::occurs(codec, "xvid"@)
                || text::occurs(codec, "divx"@) || text::occurs(codec, "wmv"@);
            &&& rank(codec) == 4 <==> av1
            &&& rank(codec) >= 3 <==> av1 || hevc
            &&& rank(codec) >= 2 <==> av1 || hevc || avc
            &&& rank(codec) >= 1 <==> av1 || hevc || avc || mpeg
            &&& 0 <= rank(codec) <= 4
        }),
{
}

} // verus!
