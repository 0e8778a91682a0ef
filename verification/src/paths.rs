//! File paths.

use std::path::PathBuf;
use vstd::prelude::*;

verus! {

/// `std::path::PathBuf`, carried through the library as it is.
#[verifier::external_type_specification]
#[verifier::external_body]
pub struct ExPathBuf(std::path::PathBuf);

/// The components that a path holds, in order, as `Path::components` lists them (a component
/// that is not Unicode is taken in its lossy spelling).
pub uninterp spec fn path_parts(path: PathBuf) -> Seq<Seq<char>>;

/// How a path is spelled, as `Path::to_string_lossy` gives it.
pub uninterp spec fn path_text(path: PathBuf) -> Seq<char>;

/// `PathBuf::clone`: the copy has the components and the spelling of the path.
pub assume_specification[ <PathBuf as Clone>::clone ](path: &PathBuf) -> (copy: PathBuf)
    ensures
        path_parts(copy) == path_parts(*path),
        path_text(copy) == path_text(*path),
;

/// Whether a text names a single component: it is not empty, is neither `.` nor `..`, and holds
/// nothing that separates components or drives on any system.
pub open spec fn is_plain_name(name: Seq<char>) -> bool {
    &&& name.len() > 0
    &&& !(name.len() == 1 && name[0] == '.')
    &&& !(name.len() == 2 && name[0] == '.' && name[1] == '.')
    &&& !name.contains('/')
    &&& !name.contains('\\')
    &&& !name.contains(':')
}

/// `Path::join`, with a single component: the path that has one more component.
#[verifier::external_body]
pub(crate) fn join_name(path: &PathBuf, name: &str) -> (joined: PathBuf)
    requires
        is_plain_name(name@),
    ensures
        path_parts(joined) == path_parts(*path).push(name@),
{
    path.join(name)
}

/// `Path::to_string_lossy`: the spelling of a path, with a replacement character for what is not
/// Unicode.
#[verifier::external_body]
pub(crate) fn lossy_text(path: &PathBuf) -> (spelling: String)
    ensures
        spelling@ == path_text(*path),
{
    path.to_string_lossy().into_owned()
}

/// Whether a path is Unicode.
pub uninterp spec fn is_unicode(path: PathBuf) -> bool;

/// The components that the path with a spelling has.
pub uninterp spec fn text_parts(text: Seq<char>) -> Seq<Seq<char>>;

/// `Path::to_str`: the spelling of a path that is Unicode. It has the components of the path.
#[verifier::external_body]
pub(crate) fn unicode_text(path: &PathBuf) -> (spelling: Option<String>)
    ensures
        spelling is Some == is_unicode(*path),
        spelling matches Some(s) ==> s@ == path_text(*path),
        spelling matches Some(s) ==> text_parts(s@) == path_parts(*path),
{
    path.to_str().map(String::from)
}

/// `PathBuf::from` a text: the path with that spelling. A single component, or `.` for the current
/// directory, is the only component of the path.
#[verifier::external_body]
pub(crate) fn path_of_text(text: &str) -> (path: PathBuf)
    ensures
        is_unicode(path),
        path_text(path) == text@,
        path_parts(path) == text_parts(text@),
        is_plain_name(text@) || text@ == seq!['.'] ==> path_parts(path) == seq![text@],
{
    PathBuf::from(text)
}

// ---- Order ----

/// Whether a path comes before another one in the order that `std::path` gives them, which is that
/// of their components.
pub uninterp spec fn path_less(a: PathBuf, b: PathBuf) -> bool;

/// Whether neither of two paths comes before the other.
pub open spec fn same_place(a: PathBuf, b: PathBuf) -> bool {
    !path_less(a, b) && !path_less(b, a)
}

/// Whether no path comes before an earlier one in a list.
pub open spec fn in_order(list: Seq<PathBuf>) -> bool {
    forall|i: int, j: int|
        0 <= i <= j < list.len() ==> !path_less(#[trigger] list[j], #[trigger] list[i])
}

/// Whether the paths of a list in order are told apart as by a total order: of three of them, the
/// first comes before the last exactly if it comes before the second, or that before the last.
pub open spec fn is_told_apart(list: Seq<PathBuf>) -> bool {
    forall|i: int, j: int, k: int|
        #![trigger list[i], list[j], list[k]]
        0 <= i <= j <= k < list.len() ==> (path_less(list[i], list[k]) <==> path_less(
            list[i],
            list[j],
        ) || path_less(list[j], list[k]))
}

/// Whether positions are those of a list of length `n`, each of them once.
pub open spec fn is_rearrangement(positions: Seq<int>, n: nat) -> bool {
    &&& positions.len() == n
    &&& positions.no_duplicates()
    &&& forall|i: int| 0 <= i < n ==> 0 <= #[trigger] positions[i] < n
    &&& forall|p: int| 0 <= p < n ==> #[trigger] positions.contains(p)
}

/// Whether a list is made of the paths at these positions of another one, and has those of the
/// same place by position.
pub open spec fn is_stable_choice(
    found: Seq<PathBuf>,
    sorted: Seq<PathBuf>,
    positions: Seq<int>,
) -> bool {
    &&& is_rearrangement(positions, found.len())
    &&& sorted.len() == found.len()
    &&& forall|i: int| 0 <= i < sorted.len() ==> #[trigger] sorted[i] == found[positions[i]]
    &&& forall|i: int, j: int|
        0 <= i < j < sorted.len() && same_place(sorted[i], sorted[j]) ==> #[trigger] positions[i]
            < #[trigger] positions[j]
}

/// Whether a list is the sorted form of another one: the same paths in order, with those of the
/// same place in the order that they had.
pub open spec fn is_sorted_form(found: Seq<PathBuf>, sorted: Seq<PathBuf>) -> bool {
    &&& in_order(sorted)
    &&& is_told_apart(sorted)
    &&& exists|positions: Seq<int>| #[trigger] is_stable_choice(found, sorted, positions)
}

/// The slice method `sort`: puts paths in order. The sort is stable, and the order is a total one.
#[verifier::external_body]
pub(crate) fn sort_paths(list: &mut Vec<PathBuf>)
    ensures
        is_sorted_form(old(list)@, final(list)@),
{
    list.sort();
}

/// `<` on `PathBuf`: whether a path comes before another one. Where neither comes before the
/// other, they have the same components.
#[verifier::external_body]
pub(crate) fn is_less(a: &PathBuf, b: &PathBuf) -> (less: bool)
    ensures
        less == path_less(*a, *b),
        less ==> !path_less(*b, *a),
        !less && !path_less(*b, *a) ==> path_parts(*a) == path_parts(*b),
{
    a < b
}

} // verus!
