//! Counting.

use vstd::prelude::*;

verus! {

/// How many of the numbers from 0 up to `n` have a property.
pub open spec fn tally(n: int, has: spec_fn(int) -> bool) -> nat
    decreases n,
{
    if n <= 0 {
        0
    } else {
        tally(n - 1, has) + if has(n - 1) { 1nat } else { 0nat }
    }
}

/// What implies a property is no more frequent than it.
pub proof fn lemma_tally_of_fewer(n: int, has: spec_fn(int) -> bool, other: spec_fn(int) -> bool)
    requires
        forall|i: int| 0 <= i < n && #[trigger] has(i) ==> other(i),
    ensures
        tally(n, has) <= tally(n, other),
    decreases n,
{
    if n > 0 {
        lemma_tally_of_fewer(n - 1, has, other);
    }
}

/// Properties that the same numbers have are equally frequent.
pub proof fn lemma_tally_of_same(n: int, has: spec_fn(int) -> bool, other: spec_fn(int) -> bool)
    requires
        forall|i: int| 0 <= i < n ==> #[trigger] has(i) == other(i),
    ensures
        tally(n, has) == tally(n, other),
    decreases n,
{
    if n > 0 {
        lemma_tally_of_same(n - 1, has, other);
    }
}

/// Properties that no number has together are not more frequent than all numbers.
pub proof fn lemma_tally_of_apart(n: int, has: spec_fn(int) -> bool, other: spec_fn(int) -> bool)
    requires
        n >= 0,
        forall|i: int| 0 <= i < n ==> !(#[trigger] has(i) && other(i)),
    ensures
        tally(n, has) + tally(n, other) <= n,
    decreases n,
{
    if n > 0 {
        lemma_tally_of_apart(n - 1, has, other);
    }
}

/// What all numbers have is as frequent as they are.
pub proof fn lemma_tally_of_all(n: int, has: spec_fn(int) -> bool)
    requires
        n >= 0,
        forall|i: int| 0 <= i < n ==> #[trigger] has(i),
    ensures
        tally(n, has) == n,
    decreases n,
{
    if n > 0 {
        lemma_tally_of_all(n - 1, has);
    }
}

/// A property is no more frequent than the numbers are.
pub proof fn lemma_tally_bound(n: int, has: spec_fn(int) -> bool)
    requires
        n >= 0,
    ensures
        tally(n, has) <= n,
    decreases n,
{
    if n > 0 {
        lemma_tally_bound(n - 1, has);
    }
}

} // verus!
