//! What holds of buckets, matches and groups, whatever the signatures are.

use crate::compare::buckets;
use crate::compare::groups;
use crate::compare::pair;
use crate::compare::scores;
use crate::compare::{CompareConfig, SimilarityKind, WhichFile};
use crate::double::Double;
use crate::single::Single;
use crate::visual::hash;
use crate::visual::{self, TemporalHash, VideoSignature};
use vstd::prelude::*;

verus! {

// ---- Buckets ----

/// Whether an order holds the first `n` indices, each of them once, by duration.
pub open spec fn is_order(sigs: Seq<VideoSignature>, order: Seq<usize>, n: nat) -> bool {
    &&& order.len() == n
    &&& order.no_duplicates()
    &&& forall|p: int| 0 <= p < order.len() ==> #[trigger] order[p] < n
    &&& forall|i: usize| i < n ==> #[trigger] order.contains(i)
    &&& buckets::by_duration(sigs, order)
}

proof fn lemma_insert_keeps_order(sigs: Seq<VideoSignature>, order: Seq<usize>, i: usize)
    requires
        buckets::by_duration(sigs, order),
    ensures
        ({
            let inserted = buckets::insert_by_duration(sigs, order, i);
            &&& inserted.len() == order.len() + 1
            &&& buckets::by_duration(sigs, inserted)
            &&& forall|x: usize| #[trigger]
                inserted.contains(x) <==> x == i || order.contains(x)
            &&& (order.no_duplicates() && !order.contains(i)) ==> inserted.no_duplicates()
        }),
    decreases order.len(),
{
    let inserted = buckets::insert_by_duration(sigs, order, i);
    if order.len() == 0 || sigs[order.last() as int].duration_ms
        <= sigs[i as int].duration_ms {
        assert forall|x: usize| #[trigger] inserted.contains(x) implies x == i || order.contains(
            x,
        ) by {
            let k = choose|k: int| 0 <= k < inserted.len() && inserted[k] == x;
            if k < order.len() {
                assert(order[k] == x);
            }
        }
        assert forall|x: usize| x == i || order.contains(x) implies #[trigger] inserted.contains(
            x,
        ) by {
            if x == i {
                assert(inserted[order.len() as int] == i);
            } else {
                let k = choose|k: int| 0 <= k < order.len() && order[k] == x;
                assert(inserted[k] == x);
            }
        }
        assert forall|p: int, q: int| 0 <= p <= q < inserted.len() implies sigs[
        #[trigger] inserted[p] as int].duration_ms <= sigs[
        #[trigger] inserted[q] as int].duration_ms by {
            if p < order.len() {
                assert(sigs[order[p] as int].duration_ms <= sigs[order.last() as int].duration_ms);
                if q < order.len() {
                    assert(sigs[order[p] as int].duration_ms <= sigs[order[q] as int].duration_ms);
                }
            }
        }
        if order.no_duplicates() && !order.contains(i) {
            assert forall|p: int, q: int|
                0 <= p < inserted.len() && 0 <= q < inserted.len() && p != q implies inserted[p]
                != inserted[q] by {
                if p < order.len() && q < order.len() {
                    assert(order[p] != order[q]);
                }
            }
        }
    } else {
        let front = order.drop_last();
        let last = order.last();
        assert forall|p: int, q: int| 0 <= p <= q < front.len() implies sigs[
        #[trigger] front[p] as int].duration_ms <= sigs[#[trigger] front[q] as int].duration_ms by {
            assert(sigs[order[p] as int].duration_ms <= sigs[order[q] as int].duration_ms);
        }
        lemma_insert_keeps_order(sigs, front, i);
        let inner = buckets::insert_by_duration(sigs, front, i);
        assert(inserted == inner.push(last));
        assert forall|x: usize| #[trigger] inserted.contains(x) implies x == i || order.contains(
            x,
        ) by {
            let k = choose|k: int| 0 <= k < inserted.len() && inserted[k] == x;
            if k < inner.len() {
                assert(inner[k] == x);
                assert(inner.contains(x));
                if x != i {
                    let m = choose|m: int| 0 <= m < front.len() && front[m] == x;
                    assert(order[m] == x);
                }
            } else {
                assert(order[order.len() - 1] == x);
            }
        }
        assert forall|x: usize| x == i || order.contains(x) implies #[trigger] inserted.contains(
            x,
        ) by {
            if x == last {
                assert(inserted[inner.len() as int] == last);
            } else {
                if x != i {
                    let m = choose|m: int| 0 <= m < order.len() && order[m] == x;
                    assert(front[m] == x);
                    assert(front.contains(x));
                }
                assert(inner.contains(x));
                let k = choose|k: int| 0 <= k < inner.len() && inner[k] == x;
                assert(inserted[k] == x);
            }
        }
        assert forall|p: int, q: int| 0 <= p <= q < inserted.len() implies sigs[
        #[trigger] inserted[p] as int].duration_ms <= sigs[
        #[trigger] inserted[q] as int].duration_ms by {
            if q == inner.len() && p < q {
                assert(inner.contains(inner[p]));
                let x = inner[p];
                if x != i {
                    let m = choose|m: int| 0 <= m < front.len() && front[m] == x;
                    assert(sigs[order[m] as int].duration_ms <= sigs[order[order.len()
                        - 1] as int].duration_ms);
                }
            } else if p < q {
                assert(sigs[inner[p] as int].duration_ms <= sigs[inner[q] as int].duration_ms);
            }
        }
        if order.no_duplicates() && !order.contains(i) {
            assert forall|p: int, q: int|
                0 <= p < front.len() && 0 <= q < front.len() && p != q implies front[p]
                != front[q] by {
                assert(order[p] != order[q]);
            }
            assert(!front.contains(i)) by {
                if front.contains(i) {
                    let m = choose|m: int| 0 <= m < front.len() && front[m] == i;
                    assert(order[m] == i);
                }
            }
            assert(inner.no_duplicates());
            assert(!inner.contains(last)) by {
                if inner.contains(last) {
                    if last == i {
                        assert(order[order.len() - 1] == i);
                    } else {
                        let m = choose|m: int| 0 <= m < front.len() && front[m] == last;
                        assert(order[m] == order[order.len() - 1]);
                    }
                }
            }
            assert forall|p: int, q: int|
                0 <= p < inserted.len() && 0 <= q < inserted.len() && p != q implies inserted[p]
                != inserted[q] by {
                if p < inner.len() && q < inner.len() {
                    assert(inner[p] != inner[q]);
                } else if p < inner.len() {
                    assert(inner.contains(inner[p]));
                } else {
                    assert(inner.contains(inner[q]));
                }
            }
        }
    }
}

/// Signatures are taken by duration, each of them once.
pub proof fn law_order_is_complete(sigs: Seq<VideoSignature>, n: nat)
    requires
        n <= sigs.len() <= usize::MAX,
    ensures
        is_order(sigs, buckets::duration_order(sigs, n), n),
    decreases n,
{
    let order = buckets::duration_order(sigs, n);
    if n > 0 {
        let m = (n - 1) as nat;
        law_order_is_complete(sigs, m);
        let before = buckets::duration_order(sigs, m);
        let i = m as usize;
        lemma_insert_keeps_order(sigs, before, i);
        assert(!before.contains(i)) by {
            if before.contains(i) {
                let k = choose|k: int| 0 <= k < before.len() && before[k] == i;
                assert(before[k] < m);
            }
        }
        assert forall|p: int| 0 <= p < order.len() implies #[trigger] order[p] < n by {
            assert(order.contains(order[p]));
            if order[p] != i {
                let x = order[p];
                let k = choose|k: int| 0 <= k < before.len() && before[k] == x;
                assert(before[k] < m);
            }
        }
        assert forall|x: usize| x < n implies #[trigger] order.contains(x) by {
            if x < m {
                assert(before.contains(x));
            }
        }
    }
}

/// Whether signatures of the same duration stand in a list in the order in which they were given.
pub open spec fn is_stable(sigs: Seq<VideoSignature>, list: Seq<usize>) -> bool {
    forall|p: int, q: int|
        0 <= p < q < list.len() && sigs[list[p] as int].duration_ms
            == sigs[list[q] as int].duration_ms ==> #[trigger] list[p] < #[trigger] list[q]
}

proof fn lemma_insert_keeps_stable(sigs: Seq<VideoSignature>, order: Seq<usize>, i: usize)
    requires
        buckets::by_duration(sigs, order),
        is_stable(sigs, order),
        forall|p: int| 0 <= p < order.len() ==> #[trigger] order[p] < i,
    ensures
        is_stable(sigs, buckets::insert_by_duration(sigs, order, i)),
    decreases order.len(),
{
    let inserted = buckets::insert_by_duration(sigs, order, i);
    if order.len() == 0 || sigs[order.last() as int].duration_ms
        <= sigs[i as int].duration_ms {
        assert(inserted == order.push(i));
    } else {
        let front = order.drop_last();
        let last = order.last();
        assert forall|p: int, q: int| 0 <= p <= q < front.len() implies sigs[
        #[trigger] front[p] as int].duration_ms <= sigs[#[trigger] front[q] as int].duration_ms by {
            assert(sigs[order[p] as int].duration_ms <= sigs[order[q] as int].duration_ms);
        }
        assert forall|p: int, q: int|
            0 <= p < q < front.len() && sigs[front[p] as int].duration_ms
                == sigs[front[q] as int].duration_ms implies #[trigger] front[p]
            < #[trigger] front[q] by {
            assert(order[p] < order[q]);
        }
        assert forall|p: int| 0 <= p < front.len() implies #[trigger] front[p] < i by {
            assert(order[p] < i);
        }
        lemma_insert_keeps_stable(sigs, front, i);
        lemma_insert_keeps_order(sigs, front, i);
        let inner = buckets::insert_by_duration(sigs, front, i);
        assert(inserted == inner.push(last));
        assert forall|p: int, q: int|
            0 <= p < q < inserted.len() && sigs[inserted[p] as int].duration_ms
                == sigs[inserted[q] as int].duration_ms implies #[trigger] inserted[p]
            < #[trigger] inserted[q] by {
            if q < inner.len() {
                assert(inner[p] < inner[q]);
            } else {
                let x = inner[p];
                assert(inner.contains(x));
                let m = choose|m: int| 0 <= m < front.len() && front[m] == x;
                assert(order[m] < order[order.len() - 1]);
            }
        }
    }
}

proof fn lemma_order_is_stable(sigs: Seq<VideoSignature>, n: nat)
    requires
        n <= sigs.len() <= usize::MAX,
    ensures
        is_stable(sigs, buckets::duration_order(sigs, n)),
    decreases n,
{
    if n > 0 {
        let m = (n - 1) as nat;
        lemma_order_is_stable(sigs, m);
        law_order_is_complete(sigs, m);
        lemma_insert_keeps_stable(sigs, buckets::duration_order(sigs, m), m as usize);
    }
}

proof fn lemma_fill_is_stable(sigs: Seq<VideoSignature>, order: Seq<usize>, pct: Double, n: nat)
    requires
        n <= order.len(),
        is_stable(sigs, order),
    ensures
        forall|k: int|
            0 <= k < buckets::fill_buckets(sigs, order, pct, n).len() ==> is_stable(
                sigs,
                #[trigger] buckets::fill_buckets(sigs, order, pct, n)[k],
            ),
        forall|k: int, p: int|
            0 <= k < buckets::fill_buckets(sigs, order, pct, n).len() && 0 <= p
                < buckets::fill_buckets(sigs, order, pct, n)[k].len() ==> order.take(
                n as int,
            ).contains(#[trigger] buckets::fill_buckets(sigs, order, pct, n)[k][p]),
    decreases n,
{
    if n > 0 {
        let m = (n - 1) as nat;
        lemma_fill_is_stable(sigs, order, pct, m);
        let lists = buckets::fill_buckets(sigs, order, pct, n);
        let filled = buckets::fill_buckets(sigs, order, pct, m);
        let next = order[n - 1];
        let e = lists.len() - 1;
        assert(order.take(n as int)[n - 1] == next);
        assert forall|k: int, p: int|
            #![trigger filled[k][p]]
            0 <= k < filled.len() && 0 <= p < filled[k].len() implies exists|j: int|
            0 <= j < m && #[trigger] order[j] == filled[k][p] by {
            assert(order.take(m as int).contains(filled[k][p]));
            let j = choose|j: int|
                0 <= j < order.take(m as int).len() && order.take(m as int)[j] == filled[k][p];
            assert(order[j] == filled[k][p]);
        }
        assert forall|k: int, p: int|
            0 <= k < lists.len() && 0 <= p < lists[k].len() implies order.take(
            n as int,
        ).contains(#[trigger] lists[k][p]) by {
            if lists[k][p] != next {
                assert(k < filled.len() && lists[k][p] == filled[k][p]);
                let j = choose|j: int| 0 <= j < m && #[trigger] order[j] == filled[k][p];
                assert(order.take(n as int)[j] == lists[k][p]);
            }
        }
        assert forall|k: int| 0 <= k < lists.len() implies is_stable(
            sigs,
            #[trigger] lists[k],
        ) by {
            if k < e {
                assert(lists[k] == filled[k]);
            } else if lists[e].len() > 1 {
                let last = filled.last();
                assert(is_stable(sigs, filled[e]));
                assert(lists[e] == last.push(next));
                assert forall|p: int, q: int|
                    0 <= p < q < lists[e].len() && sigs[lists[e][p] as int].duration_ms
                        == sigs[lists[e][q] as int].duration_ms implies #[trigger] lists[e][p]
                    < #[trigger] lists[e][q] by {
                    if q < last.len() {
                        assert(last[p] < last[q]);
                    } else {
                        let j = choose|j: int| 0 <= j < m && #[trigger] order[j] == filled[e][p];
                        assert(order[j] < order[n - 1]);
                    }
                }
            }
        }
    }
}

/// Whether a list of buckets splits an order: joined together the buckets are the order, none is
/// empty, each signature is within the tolerance of the first one of its bucket, and the first
/// one of a bucket is not within that of the bucket before.
pub open spec fn splits(
    sigs: Seq<VideoSignature>,
    lists: Seq<Seq<usize>>,
    order: Seq<usize>,
    pct: Double,
) -> bool {
    &&& lists.flatten() == order
    &&& forall|k: int| 0 <= k < lists.len() ==> (#[trigger] lists[k]).len() > 0
    &&& forall|k: int, p: int|
        0 <= k < lists.len() && 0 < p < lists[k].len() ==> buckets::within_bucket(
            sigs[(#[trigger] lists[k][p]) as int].duration_ms as nat,
            sigs[lists[k][0] as int].duration_ms as nat,
            pct,
        )
    &&& forall|k: int|
        0 < k < lists.len() ==> !buckets::within_bucket(
            sigs[(#[trigger] lists[k])[0] as int].duration_ms as nat,
            sigs[lists[k - 1][0] as int].duration_ms as nat,
            pct,
        )
}

proof fn lemma_flatten_push(lists: Seq<Seq<usize>>, list: Seq<usize>)
    ensures
        lists.push(list).flatten() == lists.flatten() + list,
{
    lists.push(list).lemma_flatten_and_flatten_alt_are_equivalent();
    lists.lemma_flatten_and_flatten_alt_are_equivalent();
    assert(lists.push(list).drop_last() =~= lists);
}

pub proof fn lemma_fill_splits(sigs: Seq<VideoSignature>, order: Seq<usize>, pct: Double, n: nat)
    requires
        n <= order.len(),
    ensures
        splits(sigs, buckets::fill_buckets(sigs, order, pct, n), order.take(n as int), pct),
        n > 0 ==> buckets::fill_buckets(sigs, order, pct, n).len() > 0,
    decreases n,
{
    let lists = buckets::fill_buckets(sigs, order, pct, n);
    if n == 0 {
        assert(order.take(0) =~= Seq::<usize>::empty());
        assert(lists.flatten() =~= Seq::<usize>::empty());
    } else {
        let m = (n - 1) as nat;
        lemma_fill_splits(sigs, order, pct, m);
        let filled = buckets::fill_buckets(sigs, order, pct, m);
        let next = order[n - 1];
        assert(order.take(n as int) =~= order.take(m as int).push(next));
        if filled.len() > 0 && buckets::within_bucket(
            sigs[next as int].duration_ms as nat,
            sigs[filled.last()[0] as int].duration_ms as nat,
            pct,
        ) {
            let front = filled.drop_last();
            let last = filled.last();
            lemma_flatten_push(front, last);
            lemma_flatten_push(front, last.push(next));
            assert(front.push(last) =~= filled);
            assert(front.flatten() + last.push(next) =~= (front.flatten() + last).push(next));
            assert(lists == front.push(last.push(next)));
            let e = lists.len() - 1;
            assert forall|k: int| 0 <= k < e implies #[trigger] lists[k] == filled[k] by {}
            assert(lists[e] == filled[e].push(next));
            assert(lists[e][0] == filled[e][0]);
            assert forall|k: int, p: int|
                0 <= k < lists.len() && 0 < p < lists[k].len() implies buckets::within_bucket(
                sigs[(#[trigger] lists[k][p]) as int].duration_ms as nat,
                sigs[lists[k][0] as int].duration_ms as nat,
                pct,
            ) by {
                if k < e || p < filled[e].len() {
                    assert(lists[k][p] == filled[k][p]);
                }
            }
            assert forall|k: int| 0 < k < lists.len() implies !buckets::within_bucket(
                sigs[(#[trigger] lists[k])[0] as int].duration_ms as nat,
                sigs[lists[k - 1][0] as int].duration_ms as nat,
                pct,
            ) by {
                assert(filled[k][0] == lists[k][0]);
                assert(filled[k - 1][0] == lists[k - 1][0]);
            }
        } else {
            lemma_flatten_push(filled, seq![next]);
            assert(filled.flatten() + seq![next] =~= filled.flatten().push(next));
            let e = lists.len() - 1;
            assert forall|k: int| 0 <= k < e implies #[trigger] lists[k] == filled[k] by {}
            assert(lists[e] == seq![next]);
            assert forall|k: int, p: int|
                0 <= k < lists.len() && 0 < p < lists[k].len() implies buckets::within_bucket(
                sigs[(#[trigger] lists[k][p]) as int].duration_ms as nat,
                sigs[lists[k][0] as int].duration_ms as nat,
                pct,
            ) by {
                if k < e {
                    assert(lists[k][p] == filled[k][p]);
                }
            }
            assert forall|k: int| 0 < k < lists.len() implies !buckets::within_bucket(
                sigs[(#[trigger] lists[k])[0] as int].duration_ms as nat,
                sigs[lists[k - 1][0] as int].duration_ms as nat,
                pct,
            ) by {
                if k < e {
                    assert(filled[k][0] == lists[k][0]);
                    assert(filled[k - 1][0] == lists[k - 1][0]);
                } else {
                    assert(filled.last() == lists[k - 1]);
                }
            }
        }
    }
}

/// The buckets split all signatures by duration: every signature is in one bucket, within the
/// tolerance of the shortest one there, and a bucket ends only where the tolerance does.
/// Signatures of the same duration keep the order in which they were given.
pub proof fn law_buckets_split_by_duration(sigs: Seq<VideoSignature>, pct: Double)
    requires
        sigs.len() <= usize::MAX,
    ensures
        is_order(sigs, buckets::duration_order(sigs, sigs.len()), sigs.len()),
        splits(
            sigs,
            buckets::duration_buckets(sigs, pct),
            buckets::duration_order(sigs, sigs.len()),
            pct,
        ),
        is_stable(sigs, buckets::duration_order(sigs, sigs.len())),
        forall|k: int|
            0 <= k < buckets::duration_buckets(sigs, pct).len() ==> is_stable(
                sigs,
                #[trigger] buckets::duration_buckets(sigs, pct)[k],
            ),
{
    let order = buckets::duration_order(sigs, sigs.len());
    law_order_is_complete(sigs, sigs.len());
    lemma_order_is_stable(sigs, sigs.len());
    lemma_fill_is_stable(sigs, order, pct, sigs.len());
    lemma_fill_splits(sigs, order, pct, sigs.len());
    assert(order.take(sigs.len() as int) =~= order);
}

// ---- Matches of two signatures ----

/// Two sequences of windows with the same hash bits.
pub open spec fn same_bits(x: Seq<TemporalHash>, y: Seq<TemporalHash>) -> bool {
    &&& x.len() == y.len()
    &&& forall|i: int|
        0 <= i < x.len() ==> hash::hash_contents((#[trigger] x[i]).bits) == hash::hash_contents(
            y[i].bits,
        )
}

proof fn lemma_same_bits_align(
    clip: Seq<TemporalHash>,
    source: Seq<TemporalHash>,
    offset: int,
    tolerance: Single,
    n: nat,
)
    requires
        n <= clip.len(),
        0 <= offset <= source.len() - clip.len(),
        same_bits(clip, source.subrange(offset, offset + clip.len())),
        Single::zero().is_at_most(tolerance),
    ensures
        pair::matching_windows(clip, source, offset, tolerance, n) == n,
        scores::within(clip, source, offset, n, 0),
    decreases n,
{
    if n > 0 {
        lemma_same_bits_align(clip, source, offset, tolerance, (n - 1) as nat);
        let part = source.subrange(offset, offset + clip.len());
        assert(part[n - 1] == source[offset + n - 1]);
        let bits = hash::hash_contents(clip[n - 1].bits);
        assert(bits == hash::hash_contents(part[n - 1].bits));
        hash::law_distance_zero(bits, bits);
        scores::lemma_no_difference_is_tolerated(tolerance);
    }
}

/// Files with the same window hashes are found to be identical, with the score one, under every
/// tolerance that is not negative.
pub proof fn law_copies_are_identical(a: VideoSignature, b: VideoSignature, cfg: CompareConfig)
    requires
        0 < a.visual_hashes@.len() <= scores::MAX_WINDOWS,
        same_bits(a.visual_hashes@, b.visual_hashes@),
        Single::zero().is_at_most(cfg.tolerance),
        cfg.min_matching_windows.is_at_most(Single::one()),
        !cfg.use_audio,
    ensures
        pair::pair_match(a, b, cfg) matches Some(found) && found.kind == SimilarityKind::Identical
            && found.visual_score == Single::one(),
{
    reveal(pair::visual_match);
    let ha = a.visual_hashes@;
    let hb = b.visual_hashes@;
    assert(hb.subrange(0, ha.len() as int) =~= hb);
    lemma_same_bits_align(ha, hb, 0, cfg.tolerance, ha.len());
    let m = ha.len() as int / 2;
    let bits = hash::hash_contents(ha[m].bits);
    assert(bits == hash::hash_contents(hb[m].bits));
    hash::law_distance_zero(bits, bits);
    scores::lemma_no_difference_is_tolerated(cfg.tolerance);
    scores::lemma_all_match(ha, hb, 0, cfg.tolerance);
    assert(scores::within(ha, hb, 0, ha.len(), 1024));
    scores::lemma_mean(ha, hb, 0);
}

proof fn lemma_full_distances(clip: Seq<TemporalHash>, source: Seq<TemporalHash>, offset: int)
    requires
        full_hashes(clip),
    ensures
        scores::within(clip, source, offset, clip.len(), 1024),
{
    assert forall|i: int| 0 <= i < clip.len() implies visual::hash_distance(
        #[trigger] clip[i],
        source[offset + i],
    ) <= 1024 by {
        hash::lemma_distance_bound(
            hash::hash_contents(clip[i].bits),
            hash::hash_contents(source[offset + i].bits),
        );
    }
}

/// The first of the aligned offsets up to `at` that have the full score.
proof fn lemma_first_full_score(
    clip: Seq<TemporalHash>,
    source: Seq<TemporalHash>,
    tolerance: Single,
    min_match: Single,
    from: int,
    at: int,
) -> (first: int)
    requires
        0 <= from <= at,
        0 < clip.len() <= scores::MAX_WINDOWS,
        full_hashes(clip),
        pair::aligned(clip, source, tolerance, min_match, at),
        pair::mean_similarity(clip, source, at) == Single::one(),
        forall|o: int|
            o < from && #[trigger] pair::aligned(clip, source, tolerance, min_match, o)
                ==> pair::mean_similarity(clip, source, o) != Single::one(),
    ensures
        pair::is_best_alignment(clip, source, tolerance, min_match, first),
        pair::mean_similarity(clip, source, first) == Single::one(),
        first <= at,
    decreases at - from,
{
    assert forall|o: int| #[trigger]
        pair::aligned(clip, source, tolerance, min_match, o) implies pair::mean_similarity(
        clip,
        source,
        o,
    ).is_at_most(Single::one()) by {
        lemma_full_distances(clip, source, o);
        scores::lemma_mean(clip, source, o);
    }
    let here = pair::aligned(clip, source, tolerance, min_match, from) && pair::mean_similarity(
        clip,
        source,
        from,
    ) == Single::one();
    if from == at || here {
        from
    } else {
        lemma_first_full_score(clip, source, tolerance, min_match, from + 1, at)
    }
}

/// A clip whose windows occur in a source is found there, with the full score, at the first
/// place that has it or before.
pub proof fn law_contained_clip_is_found(
    clip: Seq<TemporalHash>,
    source: Seq<TemporalHash>,
    tolerance: Single,
    min_match: Single,
    offset: int,
)
    requires
        0 < clip.len() <= scores::MAX_WINDOWS,
        full_hashes(clip),
        0 <= offset <= source.len() - clip.len(),
        same_bits(clip, source.subrange(offset, offset + clip.len())),
        Single::zero().is_at_most(tolerance),
        min_match.is_at_most(Single::one()),
    ensures
        pair::best_alignment(clip, source, tolerance, min_match) matches Some(found) && 0 <= found
            <= offset && pair::mean_similarity(clip, source, found) == Single::one(),
{
    lemma_same_bits_align(clip, source, offset, tolerance, clip.len());
    scores::lemma_all_match(clip, source, offset, tolerance);
    lemma_full_distances(clip, source, offset);
    scores::lemma_mean(clip, source, offset);
    assert(pair::aligned(clip, source, tolerance, min_match, offset));
    let first = lemma_first_full_score(clip, source, tolerance, min_match, 0, offset);
    let chosen = choose|o: int| pair::is_best_alignment(clip, source, tolerance, min_match, o);
    assert(pair::is_best_alignment(clip, source, tolerance, min_match, chosen));
    pair::lemma_best_alignment_unique(clip, source, tolerance, min_match, first, chosen);
}

/// A clip of a source, of which it has at least a tenth, is found to be one, with the full score
/// and the place where it lies, unless the middle windows of the two are too far apart or the
/// windows of the two match one by one.
pub proof fn law_clips_are_found(
    clip: VideoSignature,
    source: VideoSignature,
    cfg: CompareConfig,
    offset: int,
)
    requires
        0 < clip.visual_hashes@.len() <= scores::MAX_WINDOWS,
        full_hashes(clip.visual_hashes@),
        0 <= offset <= source.visual_hashes@.len() - clip.visual_hashes@.len(),
        same_bits(
            clip.visual_hashes@,
            source.visual_hashes@.subrange(offset, offset + clip.visual_hashes@.len()),
        ),
        clip.duration_ms <= source.duration_ms,
        pair::has_a_tenth(clip.duration_ms, source.duration_ms),
        !pair::middles_apart(clip.visual_hashes@, source.visual_hashes@, cfg.tolerance),
        !pair::same_content(clip.visual_hashes@, source.visual_hashes@, cfg),
        Single::zero().is_at_most(cfg.tolerance),
        cfg.subclip_min_match.is_at_most(Single::one()),
        !cfg.use_audio,
    ensures
        exists|place: int|
            0 <= place <= offset && pair::pair_match(clip, source, cfg) == Some(
                pair::PairResult {
                    visual_score: Single::one(),
                    kind: SimilarityKind::SubClip {
                        offset_ms: (#[trigger] source.visual_hashes@[place]).start_ms,
                        clip_is: WhichFile::A,
                    },
                },
            ),
{
    reveal(pair::visual_match);
    law_contained_clip_is_found(
        clip.visual_hashes@,
        source.visual_hashes@,
        cfg.tolerance,
        cfg.subclip_min_match,
        offset,
    );
}

/// The match of two files taken the other way round: the clip of the two keeps its file.
pub open spec fn mirrored(found: Option<pair::PairResult>) -> Option<pair::PairResult> {
    match found {
        Some(f) => Some(
            pair::PairResult {
                visual_score: f.visual_score,
                kind: match f.kind {
                    SimilarityKind::SubClip { offset_ms, clip_is } => SimilarityKind::SubClip {
                        offset_ms,
                        clip_is: match clip_is {
                            WhichFile::A => WhichFile::B,
                            WhichFile::B => WhichFile::A,
                        },
                    },
                    other => other,
                },
            },
        ),
        None => None,
    }
}

/// Whether the hashes of a signature are stored in full.
pub open spec fn full_hashes(hashes: Seq<TemporalHash>) -> bool {
    forall|i: int|
        0 <= i < hashes.len() ==> hash::hash_contents((#[trigger] hashes[i]).bits).len()
            == hash::STORED_BITS
}

proof fn lemma_align_symmetric(
    x: Seq<TemporalHash>,
    y: Seq<TemporalHash>,
    tolerance: Single,
    n: nat,
)
    requires
        n <= x.len(),
        x.len() == y.len(),
        full_hashes(x),
        full_hashes(y),
    ensures
        pair::matching_windows(x, y, 0, tolerance, n) == pair::matching_windows(
            y,
            x,
            0,
            tolerance,
            n,
        ),
        pair::similarity_sum(x, y, 0, n) == pair::similarity_sum(y, x, 0, n),
    decreases n,
{
    if n > 0 {
        lemma_align_symmetric(x, y, tolerance, (n - 1) as nat);
        assert(hash::hash_contents(x[n - 1].bits).len() == hash::STORED_BITS);
        assert(hash::hash_contents(y[n - 1].bits).len() == hash::STORED_BITS);
        hash::law_distance_symmetric(
            hash::hash_contents(x[n - 1].bits),
            hash::hash_contents(y[n - 1].bits),
        );
    }
}

/// Whether a match says that one file is a clip of the other.
pub open spec fn is_clip(found: Option<pair::PairResult>) -> bool {
    found matches Some(f) && f.kind is SubClip
}

/// Which of two files comes first makes no difference to how they match, unless they are equally
/// long and one is found to be a clip of the other: then it is the first one that counts as the
/// clip.
pub proof fn law_visual_match_is_symmetric(
    a: VideoSignature,
    b: VideoSignature,
    cfg: CompareConfig,
)
    requires
        a.duration_ms != b.duration_ms || (!is_clip(pair::visual_match(a, b, cfg)) && !is_clip(
            pair::visual_match(b, a, cfg),
        )),
        full_hashes(a.visual_hashes@),
        full_hashes(b.visual_hashes@),
    ensures
        pair::visual_match(b, a, cfg) == mirrored(pair::visual_match(a, b, cfg)),
{
    reveal(pair::visual_match);
    let ha = a.visual_hashes@;
    let hb = b.visual_hashes@;
    if ha.len() > 0 && hb.len() > 0 {
        let ma = ha.len() as int / 2;
        let mb = hb.len() as int / 2;
        assert(hash::hash_contents(ha[ma].bits).len() == hash::STORED_BITS);
        assert(hash::hash_contents(hb[mb].bits).len() == hash::STORED_BITS);
        hash::law_distance_symmetric(
            hash::hash_contents(ha[ma].bits),
            hash::hash_contents(hb[mb].bits),
        );
        if ha.len() == hb.len() {
            lemma_align_symmetric(ha, hb, cfg.tolerance, ha.len());
        }
    }
}

/// Whether hashes use the bits that carry information alone: the other ones are zero.
pub open spec fn clean_hashes(hashes: Seq<TemporalHash>) -> bool {
    forall|i: int, b: int|
        0 <= i < hashes.len() && visual::HASH_BITS <= b < hash::STORED_BITS
            ==> !#[trigger] hash::hash_contents(hashes[i].bits)[b]
}

proof fn lemma_clean_distance(
    x: Seq<TemporalHash>,
    y: Seq<TemporalHash>,
    i: int,
    j: int,
)
    requires
        full_hashes(x),
        full_hashes(y),
        clean_hashes(x),
        clean_hashes(y),
        0 <= i < x.len(),
        0 <= j < y.len(),
    ensures
        visual::hash_distance(x[i], y[j]) <= 1000,
{
    assert(hash::hash_contents(x[i].bits).len() == hash::STORED_BITS);
    assert(hash::hash_contents(y[j].bits).len() == hash::STORED_BITS);
    hash::law_distance_of_used_bits(
        hash::hash_contents(x[i].bits),
        hash::hash_contents(y[j].bits),
    );
}

proof fn lemma_clean_mean(clip: Seq<TemporalHash>, source: Seq<TemporalHash>, offset: int)
    requires
        full_hashes(clip),
        full_hashes(source),
        clean_hashes(clip),
        clean_hashes(source),
        0 < clip.len() <= u64::MAX,
        0 <= offset <= source.len() - clip.len(),
    ensures
        is_score(pair::mean_similarity(clip, source, offset)),
{
    assert forall|i: int| 0 <= i < clip.len() implies visual::hash_distance(
        #[trigger] clip[i],
        source[offset + i],
    ) <= 1000 by {
        lemma_clean_distance(clip, source, i, offset + i);
    }
    scores::lemma_mean(clip, source, offset);
}

/// Whether a number is between zero and one.
pub open spec fn is_score(x: Single) -> bool {
    Single::zero().is_at_most(x) && x.is_at_most(Single::one())
}

/// The score of a match by visual hashes is between zero and one.
pub proof fn law_scores_are_between_zero_and_one(
    a: VideoSignature,
    b: VideoSignature,
    cfg: CompareConfig,
)
    requires
        full_hashes(a.visual_hashes@),
        full_hashes(b.visual_hashes@),
        clean_hashes(a.visual_hashes@),
        clean_hashes(b.visual_hashes@),
    ensures
        pair::visual_match(a, b, cfg) matches Some(found) ==> is_score(found.visual_score),
{
    reveal(pair::visual_match);
    let ha = a.visual_hashes@;
    let hb = b.visual_hashes@;
    assert(a.visual_hashes.len() <= u64::MAX && b.visual_hashes.len() <= u64::MAX);
    if ha.len() > 0 && hb.len() > 0 {
        let (ma, mb) = (ha.len() as int / 2, hb.len() as int / 2);
        lemma_clean_distance(ha, hb, ma, mb);
        scores::lemma_similarity(visual::hash_distance(ha[ma], hb[mb]));
        if ha.len() == hb.len() {
            lemma_clean_mean(ha, hb, 0);
        }
        lemma_clip_score(ha, hb, cfg);
        lemma_clip_score(hb, ha, cfg);
    }
}

proof fn lemma_clip_score(
    clip: Seq<TemporalHash>,
    source: Seq<TemporalHash>,
    cfg: CompareConfig,
)
    requires
        full_hashes(clip),
        full_hashes(source),
        clean_hashes(clip),
        clean_hashes(source),
        clip.len() <= u64::MAX,
    ensures
        pair::best_alignment(clip, source, cfg.tolerance, cfg.subclip_min_match) matches Some(o)
            ==> is_score(pair::mean_similarity(clip, source, o)),
{
    if let Some(o) = pair::best_alignment(clip, source, cfg.tolerance, cfg.subclip_min_match) {
        assert(pair::is_best_alignment(clip, source, cfg.tolerance, cfg.subclip_min_match, o));
        lemma_clean_mean(clip, source, o);
    }
}

} // verus!
