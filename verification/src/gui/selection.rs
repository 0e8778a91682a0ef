//! Which rows of the result list are checked, and what is done with them.

use crate::gui::rows::{GroupKind, PlainRow, QualityTier};
use crate::lists::reversed;
use crate::tally;
use crate::text::{self, push_numeral};
use vstd::prelude::*;

verus! {

/// A row as the window holds it.
#[derive(Debug, Clone)]
pub struct FileRow {
    pub is_header: bool,
    pub group_kind: GroupKind,
    pub quality_tier: QualityTier,
    pub name: String,
    pub path: String,
    pub size: String,
    pub dimensions: String,
    pub duration: String,
    pub bitrate: String,
    pub fps: String,
    pub codec: String,
    pub mod_date: String,
    pub checked: bool,
}

/// Makes a row of the window from a row of the list; it is not checked.
pub fn plain_to_file_row(plain: PlainRow) -> (row: FileRow)
    ensures
        row == (FileRow {
            is_header: plain.is_header,
            group_kind: plain.group_kind,
            quality_tier: plain.quality_tier,
            name: plain.name,
            path: plain.path,
            size: plain.size,
            dimensions: plain.dimensions,
            duration: plain.duration,
            bitrate: plain.bitrate,
            fps: plain.fps,
            codec: plain.codec,
            mod_date: plain.mod_date,
            checked: false,
        }),
{
    FileRow {
        is_header: plain.is_header,
        group_kind: plain.group_kind,
        quality_tier: plain.quality_tier,
        name: plain.name,
        path: plain.path,
        size: plain.size,
        dimensions: plain.dimensions,
        duration: plain.duration,
        bitrate: plain.bitrate,
        fps: plain.fps,
        codec: plain.codec,
        mod_date: plain.mod_date,
        checked: false,
    }
}

/// A row with its check mark set or cleared.
pub open spec fn with_check(row: FileRow, checked: bool) -> FileRow {
    FileRow { checked, ..row }
}

/// The last header up to and including row `j`, or -1.
pub open spec fn header_of(rows: Seq<FileRow>, j: int) -> int
    decreases j + 1,
{
    if j < 0 {
        -1
    } else if rows[j].is_header {
        j
    } else {
        header_of(rows, j - 1)
    }
}

/// The first header from row `j` on, or the number of rows.
pub open spec fn group_end(rows: Seq<FileRow>, j: int) -> int
    decreases rows.len() - j,
{
    if j >= rows.len() {
        rows.len() as int
    } else if rows[j].is_header {
        j
    } else {
        group_end(rows, j + 1)
    }
}

/// The first row in `[j, end)` of the best tier, or `end`.
pub open spec fn first_best(rows: Seq<FileRow>, j: int, end: int) -> int
    decreases end - j,
{
    if j >= end {
        end
    } else if rows[j].quality_tier == QualityTier::Best {
        j
    } else {
        first_best(rows, j + 1, end)
    }
}

/// The row of a group that is spared: the first one of the best tier, or the first row.
pub open spec fn spared_row(rows: Seq<FileRow>, start: int, end: int) -> int {
    let best = first_best(rows, start, end);
    if best < end {
        best
    } else {
        start
    }
}

/// Whether a row is checked after all rows were checked or cleared. Headers stay as they are. In a
/// group of two files or more, all but the spared one are checked; in a group of one, none is.
/// Rows ahead of the first header stay as they are when all are checked.
pub open spec fn selected(rows: Seq<FileRow>, checked: bool, j: int) -> bool {
    let header = header_of(rows, j);
    let end = group_end(rows, j);
    if rows[j].is_header {
        rows[j].checked
    } else if !checked {
        false
    } else if header < 0 {
        rows[j].checked
    } else if end - (header + 1) >= 2 {
        j != spared_row(rows, header + 1, end)
    } else {
        false
    }
}

/// The rows after all were checked or cleared.
pub open spec fn all_selected(rows: Seq<FileRow>, checked: bool) -> Seq<FileRow> {
    Seq::new(rows.len(), |j: int| with_check(rows[j], selected(rows, checked, j)))
}

proof fn lemma_group_end(rows: Seq<FileRow>, j: int)
    requires
        0 <= j <= rows.len(),
    ensures
        j <= group_end(rows, j) <= rows.len(),
        forall|k: int| j <= k < group_end(rows, j) ==> !(#[trigger] rows[k]).is_header,
        group_end(rows, j) < rows.len() ==> rows[group_end(rows, j)].is_header,
    decreases rows.len() - j,
{
    if j < rows.len() && !rows[j].is_header {
        lemma_group_end(rows, j + 1);
    }
}

proof fn lemma_same_end(rows: Seq<FileRow>, j: int, k: int)
    requires
        0 <= j <= k <= rows.len(),
        forall|i: int| j <= i < k ==> !(#[trigger] rows[i]).is_header,
    ensures
        group_end(rows, j) == group_end(rows, k),
    decreases k - j,
{
    if j < k {
        lemma_same_end(rows, j + 1, k);
    }
}

proof fn lemma_header_of(rows: Seq<FileRow>, header: int, j: int)
    requires
        -1 <= header <= j < rows.len(),
        header >= 0 ==> rows[header].is_header,
        forall|i: int| header < i <= j ==> !(#[trigger] rows[i]).is_header,
    ensures
        header_of(rows, j) == header,
    decreases j - header,
{
    if j > header {
        lemma_header_of(rows, header, j - 1);
    }
}

proof fn lemma_first_best(rows: Seq<FileRow>, j: int, end: int)
    requires
        j <= end,
    ensures
        j <= first_best(rows, j, end) <= end,
    decreases end - j,
{
    if j < end && rows[j].quality_tier != QualityTier::Best {
        lemma_first_best(rows, j + 1, end);
    }
}

fn set_check(rows: &mut Vec<FileRow>, j: usize, checked: bool)
    requires
        j < old(rows)@.len(),
    ensures
        final(rows)@ == old(rows)@.update(j as int, with_check(old(rows)@[j as int], checked)),
{
    rows[j].checked = checked;
}

/// Checks or clears all rows.
pub fn select_all(rows: &mut Vec<FileRow>, checked: bool)
    ensures
        final(rows)@ == all_selected(old(rows)@, checked),
{
    let ghost before = rows@;
    let n: usize = rows.len();
    if !checked {
        let mut j: usize = 0;
        while j < n
            invariant
                j <= n,
                n == rows@.len(),
                n == before.len(),
                forall|k: int|
                    0 <= k < n ==> #[trigger] rows@[k] == if k < j {
                        with_check(before[k], selected(before, false, k))
                    } else {
                        before[k]
                    },
            decreases n - j,
        {
            if !rows[j].is_header {
                set_check(rows, j, false);
            }
            j = j + 1;
        }
        assert(rows@ =~= all_selected(before, false));
        return;
    }
    let mut i: usize = 0;
    assert(header_of(before, -1) == -1);
    while i < n
        invariant
            i <= n,
            n == rows@.len(),
            n == before.len(),
            i < n ==> before[i as int].is_header || header_of(before, i as int) == -1,
            forall|k: int|
                0 <= k < n ==> #[trigger] rows@[k] == if k < i {
                    with_check(before[k], selected(before, true, k))
                } else {
                    before[k]
                },
        decreases n - i,
    {
        let ghost current = rows@;
        assert(rows@[i as int] == before[i as int]);
        if !rows[i].is_header {
            proof {
                assert(selected(before, true, i as int) == before[i as int].checked);
                if i + 1 < n {
                    assert(header_of(before, i + 1) == if before[i + 1].is_header {
                        i + 1
                    } else {
                        header_of(before, i as int)
                    });
                }
            }
            i = i + 1;
            continue ;
        }
        let start: usize = i + 1;
        let mut end: usize = start;
        while end < n && !rows[end].is_header
            invariant
                i < start <= end <= n,
                n == rows@.len(),
                n == before.len(),
                forall|k: int| i < k < n ==> #[trigger] rows@[k] == before[k],
                forall|k: int| start <= k < end ==> !(#[trigger] before[k]).is_header,
                rows@ == current,
            decreases n - end,
        {
            assert(rows@[end as int] == before[end as int]);
            end = end + 1;
        }
        proof {
            if end < n {
                assert(rows@[end as int] == before[end as int]);
            }
            lemma_same_end(before, start as int, end as int);
            lemma_group_end(before, start as int);
            assert(group_end(before, start as int) == end);
        }
        let size: usize = end - start;
        let mut keep: usize = start;
        while keep < end && rows[keep].quality_tier != QualityTier::Best
            invariant
                start <= keep <= end <= n,
                n == rows@.len(),
                n == before.len(),
                i < start,
                forall|k: int| i < k < n ==> #[trigger] rows@[k] == before[k],
                first_best(before, start as int, end as int) == first_best(
                    before,
                    keep as int,
                    end as int,
                ),
                rows@ == current,
            decreases end - keep,
        {
            assert(rows@[keep as int] == before[keep as int]);
            keep = keep + 1;
        }
        proof {
            if keep < end {
                assert(rows@[keep as int] == before[keep as int]);
            }
        }
        if keep == end {
            keep = start;
        }
        let mut j: usize = start;
        while j < end
            invariant
                i < start <= j <= end <= n,
                start == i + 1,
                size == end - start,
                n == rows@.len(),
                n == before.len(),
                before[i as int].is_header,
                group_end(before, start as int) == end,
                keep == spared_row(before, start as int, end as int),
                forall|k: int| start <= k < end ==> !(#[trigger] before[k]).is_header,
                forall|k: int|
                    0 <= k < n ==> #[trigger] rows@[k] == if k < i || start <= k < j {
                        with_check(before[k], selected(before, true, k))
                    } else {
                        before[k]
                    },
            decreases end - j,
        {
            proof {
                lemma_header_of(before, i as int, j as int);
                lemma_same_end(before, start as int, j as int);
            }
            assert(rows@[j as int] == before[j as int]);
            set_check(rows, j, size >= 2 && j != keep);
            j = j + 1;
        }
        assert(selected(before, true, i as int) == before[i as int].checked);
        assert(with_check(before[i as int], before[i as int].checked) == before[i as int]);
        i = end;
    }
    assert(rows@ =~= all_selected(before, true));
}

/// Sets the check mark of one row. Nothing happens where there is no such row.
pub fn check_toggled(rows: &mut Vec<FileRow>, index: usize, checked: bool)
    ensures
        final(rows)@ == if index < old(rows)@.len() {
            old(rows)@.update(index as int, with_check(old(rows)@[index as int], checked))
        } else {
            old(rows)@
        },
{
    if index < rows.len() {
        set_check(rows, index, checked);
    }
}

/// The file that is opened by a double click on a row: none on a header, and none without a path.
pub fn row_double_clicked(rows: &Vec<FileRow>, index: usize) -> (path: Option<String>)
    ensures
        path is Some <==> index < rows@.len() && !rows@[index as int].is_header
            && rows@[index as int].path@.len() > 0,
        path matches Some(p) ==> p@ == rows@[index as int].path@,
{
    if index < rows.len() && !rows[index].is_header && rows[index].path.as_str().unicode_len() > 0 {
        Some(rows[index].path.clone())
    } else {
        None
    }
}

/// Whether a row is a file that is checked.
pub open spec fn is_chosen(row: FileRow) -> bool {
    row.checked && !row.is_header
}

/// The paths of the checked files, in order.
pub open spec fn chosen_paths(rows: Seq<FileRow>) -> Seq<Seq<char>>
    decreases rows.len(),
{
    if rows.len() == 0 {
        Seq::empty()
    } else if is_chosen(rows.last()) {
        chosen_paths(rows.drop_last()).push(rows.last().path@)
    } else {
        chosen_paths(rows.drop_last())
    }
}

/// The rows that are not checked files, in order.
pub open spec fn kept_rows(rows: Seq<FileRow>) -> Seq<FileRow>
    decreases rows.len(),
{
    if rows.len() == 0 {
        Seq::empty()
    } else if is_chosen(rows.last()) {
        kept_rows(rows.drop_last())
    } else {
        kept_rows(rows.drop_last()).push(rows.last())
    }
}

/// The texts' characters.
pub open spec fn texts(strings: Seq<String>) -> Seq<Seq<char>> {
    Seq::new(strings.len(), |i: int| strings[i]@)
}

/// The number of checked files.
pub fn checked_count(rows: &Vec<FileRow>) -> (count: usize)
    ensures
        count == chosen_paths(rows@).len(),
{
    let mut count: usize = 0;
    let mut i: usize = 0;
    assert(rows@.take(0) =~= Seq::<FileRow>::empty());
    while i < rows.len()
        invariant
            i <= rows@.len(),
            count <= i,
            count == chosen_paths(rows@.take(i as int)).len(),
        decreases rows@.len() - i,
    {
        assert(rows@.take(i + 1).drop_last() =~= rows@.take(i as int));
        if rows[i].checked && !rows[i].is_header {
            count = count + 1;
        }
        i = i + 1;
    }
    assert(rows@.take(i as int) =~= rows@);
    count
}

/// The paths of the checked files.
pub fn collect_checked_paths(rows: &Vec<FileRow>) -> (paths: Vec<String>)
    ensures
        texts(paths@) == chosen_paths(rows@),
{
    let mut paths: Vec<String> = Vec::new();
    let mut i: usize = 0;
    assert(rows@.take(0) =~= Seq::<FileRow>::empty());
    assert(texts(paths@) =~= chosen_paths(rows@.take(0)));
    while i < rows.len()
        invariant
            i <= rows@.len(),
            texts(paths@) == chosen_paths(rows@.take(i as int)),
        decreases rows@.len() - i,
    {
        let ghost before = paths@;
        assert(rows@.take(i + 1).drop_last() =~= rows@.take(i as int));
        if rows[i].checked && !rows[i].is_header {
            paths.push(rows[i].path.clone());
            assert(texts(paths@) =~= texts(before).push(rows@[i as int].path@));
        }
        i = i + 1;
    }
    assert(rows@.take(i as int) =~= rows@);
    paths
}

/// Takes the checked files out of the list.
pub fn remove_checked_rows(rows: &mut Vec<FileRow>)
    ensures
        final(rows)@ == kept_rows(old(rows)@),
{
    let ghost before = rows@;
    let mut kept: Vec<FileRow> = Vec::new();
    assert(kept_rows(before) + kept@.reverse() =~= kept_rows(before));
    while rows.len() > 0
        invariant
            kept_rows(before) == kept_rows(rows@) + kept@.reverse(),
        decreases rows@.len(),
    {
        let ghost remaining = rows@;
        let ghost tail = kept@;
        match rows.pop() {
            Some(row) => {
                if !row.checked || row.is_header {
                    kept.push(row);
                    assert(kept_rows(remaining) + tail.reverse() =~= kept_rows(rows@)
                        + kept@.reverse());
                }
            },
            None => {},
        }
    }
    assert(kept_rows(before) =~= kept@.reverse());
    *rows = reversed(kept);
}

/// What is asked before the checked files are deleted. Nothing is asked where none is checked.
pub fn delete_question(rows: &Vec<FileRow>) -> (question: Option<String>)
    ensures
        question is Some <==> chosen_paths(rows@).len() > 0,
        question matches Some(q) ==> q@ == "Permanently delete "@ + text::numeral(
            chosen_paths(rows@).len(),
        ) + " file(s)?\nThis cannot be undone."@,
{
    let count: usize = checked_count(rows);
    if count == 0 {
        return None;
    }
    let mut question = String::from_str("Permanently delete ");
    push_numeral(&mut question, count as u64);
    question.append(" file(s)?\nThis cannot be undone.");
    Some(question)
}

/// What is asked before the checked files are moved to the trash. Nothing is asked where none is
/// checked.
pub fn trash_question(rows: &Vec<FileRow>) -> (question: Option<String>)
    ensures
        question is Some <==> chosen_paths(rows@).len() > 0,
        question matches Some(q) ==> q@ == "Move "@ + text::numeral(chosen_paths(rows@).len())
            + " file(s) to trash?"@,
{
    let count: usize = checked_count(rows);
    if count == 0 {
        return None;
    }
    let mut question = String::from_str("Move ");
    push_numeral(&mut question, count as u64);
    question.append(" file(s) to trash?");
    Some(question)
}

// ---- Laws ----

/// After all were cleared, no file is checked.
pub proof fn law_clearing_leaves_none(rows: Seq<FileRow>)
    ensures
        chosen_paths(all_selected(rows, false)).len() == 0,
{
    let cleared = all_selected(rows, false);
    assert forall|j: int| 0 <= j < cleared.len() implies !is_chosen(#[trigger] cleared[j]) by {}
    lemma_none_chosen(cleared);
}

proof fn lemma_none_chosen(rows: Seq<FileRow>)
    requires
        forall|j: int| 0 <= j < rows.len() ==> !is_chosen(#[trigger] rows[j]),
    ensures
        chosen_paths(rows).len() == 0,
    decreases rows.len(),
{
    if rows.len() > 0 {
        lemma_none_chosen(rows.drop_last());
    }
}

/// After all were checked, exactly one file of every group is left unchecked: one of the best tier
/// if there is any. So no group loses all of its files with those that are checked.
pub proof fn law_checking_spares_one(rows: Seq<FileRow>, header: int, j: int)
    requires
        0 <= header < rows.len(),
        rows[header].is_header,
        header < j < group_end(rows, header + 1),
    ensures
        ({
            let start = header + 1;
            let end = group_end(rows, header + 1);
            let spared = spared_row(rows, start, end);
            let after = all_selected(rows, true);
            &&& start <= spared < end
            &&& is_chosen(after[j]) <==> j != spared
            &&& !is_chosen(after[spared])
            &&& rows[j].quality_tier == QualityTier::Best ==> rows[spared].quality_tier
                == QualityTier::Best
        }),
{
    let start = header + 1;
    let end = group_end(rows, start);
    lemma_group_end(rows, start);
    lemma_first_best(rows, start, end);
    let spared = spared_row(rows, start, end);
    lemma_header_of(rows, header, j);
    lemma_same_end(rows, start, j);
    lemma_header_of(rows, header, spared);
    lemma_same_end(rows, start, spared);
    lemma_best_is_found(rows, start, end, j);
}

proof fn lemma_best_is_found(rows: Seq<FileRow>, start: int, end: int, j: int)
    requires
        start <= j < end,
    ensures
        rows[j].quality_tier == QualityTier::Best ==> first_best(rows, start, end) < end
            && rows[first_best(rows, start, end)].quality_tier == QualityTier::Best,
    decreases end - start,
{
    if rows[start].quality_tier != QualityTier::Best && start < j {
        lemma_best_is_found(rows, start + 1, end, j);
    }
}

/// What is removed is what was checked: every checked file leaves the list, all else stays, and no
/// file of what stays is checked.
pub proof fn law_removal_takes_the_checked(rows: Seq<FileRow>, row: FileRow)
    ensures
        kept_rows(rows).contains(row) <==> rows.contains(row) && !is_chosen(row),
        kept_rows(rows).len() + chosen_paths(rows).len() == rows.len(),
        chosen_paths(kept_rows(rows)).len() == 0,
    decreases rows.len(),
{
    if rows.len() > 0 {
        let front = rows.drop_last();
        law_removal_takes_the_checked(front, row);
        let was = kept_rows(front);
        let now = kept_rows(rows);
        if rows.contains(row) {
            let k = rows.index_of(row);
            if k < front.len() {
                assert(front[k] == row);
            }
        }
        if front.contains(row) {
            assert(rows[front.index_of(row)] == row);
        }
        if was.contains(row) {
            assert(now[was.index_of(row)] == row);
        }
        if now.contains(row) {
            let k = now.index_of(row);
            if k < was.len() {
                assert(was[k] == row);
            }
        }
        assert(rows[rows.len() - 1] == rows.last());
        if !is_chosen(rows.last()) {
            assert(now[now.len() - 1] == rows.last());
            assert(now.drop_last() =~= was);
        }
    }
}

/// Checking all rows checks every file of a group but one: the first of those of the best tier, or
/// the first file where no tier is the best. A group of a single file has none checked. Headers,
/// and all else that rows say, stay as they are. The group is that of the files between a header
/// and the next one, or the end of the list.
pub proof fn law_checking_leaves_the_best_file(rows: Seq<FileRow>, header: int, end: int)
    requires
        0 <= header < end - 1,
        end <= rows.len(),
        rows[header].is_header,
        forall|j: int| header < j < end ==> !(#[trigger] rows[j]).is_header,
        end == rows.len() || rows[end].is_header,
    ensures
        all_selected(rows, true).len() == rows.len(),
        all_selected(rows, true)[header] == rows[header],
        exists|spared: int|
            header < spared < end && #[trigger] is_left_over(rows, header, end, spared)
                && forall|j: int|
                header < j < end ==> (#[trigger] all_selected(rows, true)[j]) == (FileRow {
                    checked: end - header > 2 && j != spared,
                    ..rows[j]
                }),
{
    let after = all_selected(rows, true);
    lemma_end_of_group(rows, header + 1, end);
    let spared = spared_row(rows, header + 1, end);
    lemma_first_best(rows, header + 1, end);
    assert forall|j: int| header < j < end implies (#[trigger] after[j]) == (FileRow {
        checked: end - header > 2 && j != spared,
        ..rows[j]
    }) by {
        lemma_header_of(rows, header, j);
        lemma_same_end(rows, header + 1, j);
    }
    assert forall|j: int|
        header < j < end && (#[trigger] rows[j]).quality_tier == QualityTier::Best implies first_best(
        rows,
        header + 1,
        end,
    ) <= j by {
        lemma_best_comes_first(rows, header + 1, end, j);
    }
    lemma_first_is_best(rows, header + 1, end);
    assert(is_left_over(rows, header, end, spared));
}

/// Whether a file of a group is the one to be spared: the first of the best tier, or the first file
/// where no tier is the best.
pub open spec fn is_left_over(rows: Seq<FileRow>, header: int, end: int, spared: int) -> bool {
    if rows[spared].quality_tier == QualityTier::Best {
        forall|j: int|
            header < j < spared ==> (#[trigger] rows[j]).quality_tier != QualityTier::Best
    } else {
        &&& spared == header + 1
        &&& forall|j: int|
            header < j < end ==> (#[trigger] rows[j]).quality_tier != QualityTier::Best
    }
}

proof fn lemma_end_of_group(rows: Seq<FileRow>, j: int, end: int)
    requires
        0 <= j <= end <= rows.len(),
        forall|k: int| j <= k < end ==> !(#[trigger] rows[k]).is_header,
        end == rows.len() || rows[end].is_header,
    ensures
        group_end(rows, j) == end,
    decreases end - j,
{
    if j < end {
        lemma_end_of_group(rows, j + 1, end);
    }
}

proof fn lemma_first_is_best(rows: Seq<FileRow>, start: int, end: int)
    ensures
        first_best(rows, start, end) < end ==> rows[first_best(rows, start, end)].quality_tier
            == QualityTier::Best,
    decreases end - start,
{
    if start < end && rows[start].quality_tier != QualityTier::Best {
        lemma_first_is_best(rows, start + 1, end);
    }
}

proof fn lemma_best_comes_first(rows: Seq<FileRow>, start: int, end: int, j: int)
    requires
        start <= j < end,
        rows[j].quality_tier == QualityTier::Best,
    ensures
        first_best(rows, start, end) <= j,
    decreases j - start,
{
    if rows[start].quality_tier != QualityTier::Best {
        lemma_best_comes_first(rows, start + 1, end, j);
    }
}

/// Clearing takes the check mark off every file, and changes nothing else.
pub proof fn law_clearing_changes_check_marks_alone(rows: Seq<FileRow>, j: int)
    requires
        0 <= j < rows.len(),
    ensures
        all_selected(rows, false).len() == rows.len(),
        rows[j].is_header ==> all_selected(rows, false)[j] == rows[j],
        !rows[j].is_header ==> all_selected(rows, false)[j] == (FileRow {
            checked: false,
            ..rows[j]
        }),
{
}

/// What is deleted are the checked files: as many paths as there are checked rows that are no
/// headers, and among them the path of each of those. These rows, and no others, leave the list.
pub proof fn law_checked_files_are_deleted(rows: Seq<FileRow>, i: int)
    requires
        0 <= i < rows.len(),
    ensures
        chosen_paths(rows).len() == tally::tally(
            rows.len() as int,
            |k: int| rows[k].checked && !rows[k].is_header,
        ),
        rows[i].checked && !rows[i].is_header ==> chosen_paths(rows).contains(rows[i].path@),
        rows[i].checked && !rows[i].is_header ==> !kept_rows(rows).contains(rows[i]),
        !rows[i].checked || rows[i].is_header ==> kept_rows(rows).contains(rows[i]),
        kept_rows(rows).len() + chosen_paths(rows).len() == rows.len(),
{
    law_removal_takes_the_checked(rows, rows[i]);
    assert(rows.contains(rows[i]));
    lemma_chosen(rows, i);
}

proof fn lemma_chosen(rows: Seq<FileRow>, i: int)
    requires
        0 <= i < rows.len(),
    ensures
        chosen_paths(rows).len() == tally::tally(
            rows.len() as int,
            |k: int| rows[k].checked && !rows[k].is_header,
        ),
        rows[i].checked && !rows[i].is_header ==> chosen_paths(rows).contains(rows[i].path@),
    decreases rows.len(),
{
    let front = rows.drop_last();
    let n = front.len() as int;
    if n > 0 {
        lemma_chosen(front, if i < n { i } else { 0 });
    }
    tally::lemma_tally_of_same(
        n,
        |k: int| front[k].checked && !front[k].is_header,
        |k: int| rows[k].checked && !rows[k].is_header,
    );
    let (was, now) = (chosen_paths(front), chosen_paths(rows));
    if rows[i].checked && !rows[i].is_header {
        if i < n {
            assert(front[i] == rows[i]);
            let k = was.index_of(rows[i].path@);
            assert(now[k] == rows[i].path@);
        } else {
            assert(now[now.len() - 1] == rows[i].path@);
        }
    }
}

} // verus!
