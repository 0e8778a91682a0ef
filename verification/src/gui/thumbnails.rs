//! Which thumbnails are loaded, and where in the videos they are taken.

use crate::double::Double;
use crate::gui::rows::PlainRow;
use crate::single::Single;
use crate::tally;
use vstd::prelude::*;

verus! {

/// Greatest width of a thumbnail.
pub const THUMB_MAX_W: u32 = 224;

/// Greatest height of a thumbnail.
pub const THUMB_MAX_H: u32 = 126;

/// The fraction of a video after which its thumbnail is taken: one fifth, in single precision.
pub const SEEK_FRACTION: u32 = 0x3e4c_cccd;

/// The number one in single precision.
pub const ONE: u32 = 0x3f80_0000;

/// A thumbnail to be loaded.
#[derive(Debug, Clone)]
pub struct ThumbnailJob {
    /// The row that shows it.
    pub row: usize,
    /// The video.
    pub path: String,
    /// Where in the video it is taken, in seconds.
    pub seek: Single,
}

/// Where a thumbnail is taken: after a fifth of the video, but not before the first second is
/// over.
pub open spec fn seek_position(duration: Double) -> Single {
    duration.narrowed().multiplied(Single { bits: SEEK_FRACTION }).larger(Single { bits: ONE })
}

/// The rows that show a thumbnail: those of files with a path.
pub open spec fn shows_thumbnail(row: PlainRow) -> bool {
    !row.is_header && row.path@.len() > 0
}

/// The thumbnails of the first rows: of each the row, the video and the position.
pub open spec fn jobs_of(rows: Seq<PlainRow>) -> Seq<(int, Seq<char>, Single)>
    decreases rows.len(),
{
    if rows.len() == 0 {
        Seq::empty()
    } else {
        let front = jobs_of(rows.drop_last());
        if shows_thumbnail(rows.last()) {
            front.push(
                (
                    rows.len() - 1,
                    rows.last().path@,
                    seek_position(rows.last().duration_secs),
                ),
            )
        } else {
            front
        }
    }
}

/// What thumbnail jobs say.
pub open spec fn job_views(jobs: Seq<ThumbnailJob>) -> Seq<(int, Seq<char>, Single)> {
    Seq::new(jobs.len(), |i: int| (jobs[i].row as int, jobs[i].path@, jobs[i].seek))
}

/// Lists the thumbnails that are to be loaded, in the order of their rows.
pub fn thumbnail_jobs(rows: &[PlainRow]) -> (jobs: Vec<ThumbnailJob>)
    ensures
        job_views(jobs@) == jobs_of(rows@),
{
    let mut jobs: Vec<ThumbnailJob> = Vec::new();
    let mut i: usize = 0;
    assert(rows@.take(0) =~= Seq::<PlainRow>::empty());
    assert(job_views(jobs@) =~= jobs_of(rows@.take(0)));
    while i < rows.len()
        invariant
            i <= rows@.len(),
            job_views(jobs@) == jobs_of(rows@.take(i as int)),
        decreases rows@.len() - i,
    {
        let ghost before = jobs@;
        assert(rows@.take(i + 1).drop_last() =~= rows@.take(i as int));
        assert(rows@.take(i + 1).last() == rows@[i as int]);
        if !rows[i].is_header && rows[i].path.as_str().unicode_len() > 0 {
            let duration = rows[i].duration_secs;
            let seek = duration.narrow().times(Single { bits: SEEK_FRACTION }).maximum(
                Single { bits: ONE },
            );
            let job = ThumbnailJob { row: i, path: rows[i].path.clone(), seek };
            jobs.push(job);
            assert(job_views(jobs@) =~= job_views(before).push(
                (i as int, rows@[i as int].path@, seek_position(duration)),
            ));
        }
        i = i + 1;
    }
    assert(rows@.take(i as int) =~= rows@);
    jobs
}

/// Width of the picture that stands for a thumbnail that is not loaded.
pub const PLACEHOLDER_W: u32 = 112;

/// Height of the picture that stands for a thumbnail that is not loaded.
pub const PLACEHOLDER_H: u32 = 63;

/// The picture that stands for a thumbnail that is not loaded: 112 by 63 pixels of a bluish grey,
/// with a byte for red, green and blue of each.
pub fn placeholder_thumbnail() -> (pixels: Vec<u8>)
    ensures
        pixels@ == Seq::new(
            21_168,
            |i: int|
                if i % 3 == 2 {
                    0x44u8
                } else {
                    0x33u8
                },
        ),
{
    let mut pixels: Vec<u8> = Vec::new();
    let mut i: usize = 0;
    while i < 21_168
        invariant
            i <= 21_168,
            pixels@ == Seq::new(
                i as nat,
                |k: int|
                    if k % 3 == 2 {
                        0x44u8
                    } else {
                        0x33u8
                    },
            ),
        decreases 21_168 - i,
    {
        pixels.push(
            if i % 3 == 2 {
                0x44
            } else {
                0x33
            },
        );
        assert(pixels@ =~= Seq::new(
            (i + 1) as nat,
            |k: int|
                if k % 3 == 2 {
                    0x44u8
                } else {
                    0x33u8
                },
        ));
        i = i + 1;
    }
    pixels
}

// ---- Laws ----

/// A thumbnail is never taken before the first second is over, nor before a fifth of the video; and
/// it is taken at one of the two.
pub proof fn law_thumbnails_are_taken_after_a_fifth(duration: Double)
    requires
        !duration.narrowed().multiplied((Single { bits: 0x3e4c_cccd })).is_nan(),
    ensures
        ({
            let fifth = duration.narrowed().multiplied(Single { bits: 0x3e4c_cccd });
            let at = seek_position(duration);
            &&& Single::one().is_at_most(at) && fifth.is_at_most(at)
            &&& at == Single::one() || at == fifth
        }),
{
}

/// Every row of a file with a path has a thumbnail to be loaded, and no other row has one.
pub proof fn law_files_have_thumbnails(rows: Seq<PlainRow>, i: int)
    requires
        0 <= i < rows.len(),
    ensures
        !rows[i].is_header && rows[i].path@.len() > 0 ==> jobs_of(rows).contains(
            (i, rows[i].path@, seek_position(rows[i].duration_secs)),
        ),
        jobs_of(rows).len() == tally::tally(
            rows.len() as int,
            |k: int| !rows[k].is_header && rows[k].path@.len() > 0,
        ),
    decreases rows.len(),
{
    let front = rows.drop_last();
    let n = front.len() as int;
    if n > 0 {
        law_files_have_thumbnails(front, if i < n { i } else { 0 });
    }
    tally::lemma_tally_of_same(
        n,
        |k: int| !front[k].is_header && front[k].path@.len() > 0,
        |k: int| !rows[k].is_header && rows[k].path@.len() > 0,
    );
    let (was, now) = (jobs_of(front), jobs_of(rows));
    if !rows[i].is_header && rows[i].path@.len() > 0 {
        let job = (i, rows[i].path@, seek_position(rows[i].duration_secs));
        if i < n {
            assert(front[i] == rows[i]);
            let k = was.index_of(job);
            assert(now[k] == job);
        } else {
            assert(now[now.len() - 1] == job);
        }
    }
}

} // verus!
