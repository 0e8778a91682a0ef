//! Buckets of signatures whose durations are close to one another.

use crate::double::Double;
use crate::visual::VideoSignature;
use vstd::prelude::*;

verus! {

/// The number one, by its bits.
pub const ONE: u64 = 0x3ff0_0000_0000_0000;

/// The number one hundred, by its bits.
pub const HUNDRED: u64 = 0x4059_0000_0000_0000;

/// By which fraction of a bucket's centre a duration differs from it.
pub open spec fn deviation(duration: nat, center: nat) -> Double {
    Double::counted(duration).subtracted(Double::counted(center)).unsigned().divided(
        Double::counted(center).larger(Double { bits: ONE }),
    )
}

/// Whether a duration is within `pct` per cent of a bucket's centre.
pub open spec fn within_bucket(duration: nat, center: nat, pct: Double) -> bool {
    deviation(duration, center).is_at_most(pct.divided(Double { bits: HUNDRED }))
}

/// Inserts `i` behind all indices of signatures that are no longer than signature `i`.
pub open spec fn insert_by_duration(
    sigs: Seq<VideoSignature>,
    order: Seq<usize>,
    i: usize,
) -> Seq<usize>
    decreases order.len(),
{
    if order.len() == 0 || sigs[order.last() as int].duration_ms <= sigs[i as int].duration_ms {
        order.push(i)
    } else {
        insert_by_duration(sigs, order.drop_last(), i).push(order.last())
    }
}

/// The first `n` signatures by duration; where durations are equal, in their given order.
pub open spec fn duration_order(sigs: Seq<VideoSignature>, n: nat) -> Seq<usize>
    decreases n,
{
    if n == 0 {
        Seq::empty()
    } else {
        insert_by_duration(sigs, duration_order(sigs, (n - 1) as nat), (n - 1) as usize)
    }
}

/// The buckets of the first `n` signatures in an order: a signature that is within the tolerance
/// of the first one of the last bucket joins it, any other one opens a bucket.
pub open spec fn fill_buckets(
    sigs: Seq<VideoSignature>,
    order: Seq<usize>,
    pct: Double,
    n: nat,
) -> Seq<Seq<usize>>
    decreases n,
{
    if n == 0 {
        Seq::empty()
    } else {
        let filled = fill_buckets(sigs, order, pct, (n - 1) as nat);
        let next = order[n - 1];
        if filled.len() > 0 && within_bucket(
            sigs[next as int].duration_ms as nat,
            sigs[filled.last()[0] as int].duration_ms as nat,
            pct,
        ) {
            filled.drop_last().push(filled.last().push(next))
        } else {
            filled.push(seq![next])
        }
    }
}

/// The duration buckets of a list of signatures.
pub open spec fn duration_buckets(sigs: Seq<VideoSignature>, pct: Double) -> Seq<Seq<usize>> {
    fill_buckets(sigs, duration_order(sigs, sigs.len()), pct, sigs.len())
}

/// The contents of a list of index lists.
pub open spec fn index_lists(lists: Seq<Vec<usize>>) -> Seq<Seq<usize>> {
    lists.map_values(|list: Vec<usize>| list@)
}

/// Whether signatures are in order of duration.
pub open spec fn by_duration(sigs: Seq<VideoSignature>, order: Seq<usize>) -> bool {
    forall|p: int, q: int|
        0 <= p <= q < order.len() ==> sigs[#[trigger] order[p] as int].duration_ms
            <= sigs[#[trigger] order[q] as int].duration_ms
}

/// Insertion behind the signatures that are no longer, in an order that has these first.
proof fn lemma_insert_at(sigs: Seq<VideoSignature>, order: Seq<usize>, i: usize, k: int)
    requires
        0 <= k <= order.len(),
        forall|p: int|
            0 <= p < k ==> sigs[#[trigger] order[p] as int].duration_ms
                <= sigs[i as int].duration_ms,
        forall|p: int|
            k <= p < order.len() ==> sigs[#[trigger] order[p] as int].duration_ms
                > sigs[i as int].duration_ms,
    ensures
        insert_by_duration(sigs, order, i) == order.insert(k, i),
    decreases order.len(),
{
    if k == order.len() {
        assert(order.insert(k, i) =~= order.push(i));
        if order.len() > 0 {
            assert(order.last() == order[k - 1]);
        }
    } else {
        assert(order.last() == order[order.len() - 1]);
        lemma_insert_at(sigs, order.drop_last(), i, k);
        assert(order.drop_last().insert(k, i).push(order.last()) =~= order.insert(k, i));
    }
}

/// The number of signatures at the front of an order that are no longer than `duration`.
fn insertion_point(sigs: &[VideoSignature], order: &Vec<usize>, duration: u64) -> (k: usize)
    requires
        forall|p: int| 0 <= p < order@.len() ==> #[trigger] order@[p] < sigs@.len(),
        by_duration(sigs@, order@),
    ensures
        k <= order@.len(),
        forall|p: int|
            0 <= p < k ==> sigs@[#[trigger] order@[p] as int].duration_ms <= duration,
        forall|p: int|
            k <= p < order@.len() ==> sigs@[#[trigger] order@[p] as int].duration_ms > duration,
{
    let mut low: usize = 0;
    let mut high: usize = order.len();
    while low < high
        invariant
            low <= high <= order@.len(),
            forall|p: int| 0 <= p < order@.len() ==> #[trigger] order@[p] < sigs@.len(),
            by_duration(sigs@, order@),
            forall|p: int|
                0 <= p < low ==> sigs@[#[trigger] order@[p] as int].duration_ms <= duration,
            forall|p: int|
                high <= p < order@.len() ==> sigs@[#[trigger] order@[p] as int].duration_ms
                    > duration,
        decreases high - low,
    {
        let mid: usize = low + (high - low) / 2;
        if sigs[order[mid]].duration_ms <= duration {
            low = mid + 1;
        } else {
            high = mid;
        }
    }
    low
}

/// Orders signatures by duration.
fn order_by_duration(sigs: &[VideoSignature]) -> (order: Vec<usize>)
    ensures
        order@ == duration_order(sigs@, sigs@.len()),
        order@.len() == sigs@.len(),
        forall|p: int| 0 <= p < order@.len() ==> #[trigger] order@[p] < sigs@.len(),
{
    let mut order: Vec<usize> = Vec::new();
    let mut i: usize = 0;
    while i < sigs.len()
        invariant
            i <= sigs@.len(),
            order@ == duration_order(sigs@, i as nat),
            order@.len() == i,
            forall|p: int| 0 <= p < order@.len() ==> #[trigger] order@[p] < sigs@.len(),
            by_duration(sigs@, order@),
        decreases sigs@.len() - i,
    {
        let k: usize = insertion_point(sigs, &order, sigs[i].duration_ms);
        proof {
            lemma_insert_at(sigs@, order@, i, k as int);
        }
        order.insert(k, i);
        i = i + 1;
    }
    order
}

/// Groups signatures into buckets of close durations. Each bucket is a list of indices.
pub fn build_duration_buckets(sigs: &[VideoSignature], tolerance_pct: Double) -> (buckets: Vec<
    Vec<usize>,
>)
    ensures
        index_lists(buckets@) == duration_buckets(sigs@, tolerance_pct),
        forall|k: int, p: int|
            0 <= k < buckets@.len() && 0 <= p < buckets@[k]@.len() ==> (#[trigger] buckets@[k]@[p])
                < sigs@.len(),
{
    let mut buckets: Vec<Vec<usize>> = Vec::new();
    if sigs.len() == 0 {
        assert(index_lists(buckets@) =~= duration_buckets(sigs@, tolerance_pct));
        return buckets;
    }
    let order = order_by_duration(sigs);
    let ghost pct = tolerance_pct;
    let tolerance = tolerance_pct.over(Double { bits: HUNDRED });
    let mut current: Vec<usize> = Vec::new();
    current.push(order[0]);
    let mut center: u64 = sigs[order[0]].duration_ms;
    let mut i: usize = 1;
    proof {
        reveal_with_fuel(fill_buckets, 2);
        assert(index_lists(buckets@).push(current@) =~= fill_buckets(sigs@, order@, pct, 1));
    }
    while i < order.len()
        invariant
            1 <= i <= order@.len(),
            order@.len() == sigs@.len(),
            pct == tolerance_pct,
            tolerance == pct.divided(Double { bits: HUNDRED }),
            forall|p: int| 0 <= p < order@.len() ==> #[trigger] order@[p] < sigs@.len(),
            index_lists(buckets@).push(current@) == fill_buckets(sigs@, order@, pct, i as nat),
            current@.len() > 0,
            center == sigs@[current@[0] as int].duration_ms,
            forall|p: int| 0 <= p < current@.len() ==> #[trigger] current@[p] < sigs@.len(),
            forall|k: int, p: int|
                0 <= k < buckets@.len() && 0 <= p < buckets@[k]@.len() ==> (
                #[trigger] buckets@[k]@[p]) < sigs@.len(),
        decreases order@.len() - i,
    {
        let ghost filled = fill_buckets(sigs@, order@, pct, i as nat);
        let next: usize = order[i];
        let duration: u64 = sigs[next].duration_ms;
        let middle = Double::count(center);
        let apart = Double::count(duration).minus(middle).magnitude();
        proof {
            assert(filled.last() == current@);
            assert(filled.drop_last() =~= index_lists(buckets@));
        }
        if apart.over(middle.maximum(Double { bits: ONE })).test_at_most(tolerance) {
            let ghost before = current@;
            current.push(next);
            assert(index_lists(buckets@).push(current@) == filled.drop_last().push(
                before.push(next),
            ));
        } else {
            let ghost lists = index_lists(buckets@);
            let ghost full = current@;
            buckets.push(current);
            current = Vec::new();
            current.push(next);
            center = duration;
            assert(index_lists(buckets@) =~= lists.push(full));
            assert(current@ =~= seq![next]);
        }
        i = i + 1;
    }
    let ghost lists = index_lists(buckets@);
    let ghost full = current@;
    buckets.push(current);
    assert(index_lists(buckets@) =~= lists.push(full));
    buckets
}

} // verus!
