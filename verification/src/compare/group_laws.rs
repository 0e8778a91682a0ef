//! What holds of the groups that are found, whatever the signatures are.

use crate::compare::buckets;
use crate::compare::groups;
use crate::compare::laws;
use crate::compare::pair;
use crate::compare::{CompareConfig, SimilarGroup, SimilarityKind};
use crate::double::Double;
use crate::float::{self, Format};
use crate::single::Single;
use crate::paths;
use crate::visual::VideoSignature;
use vstd::arithmetic::power2;
use vstd::prelude::*;

verus! {

/// Whether a match names two different signatures that do match, and says how.
pub open spec fn is_genuine(
    sigs: Seq<VideoSignature>,
    cfg: CompareConfig,
    found: (usize, usize, SimilarityKind),
) -> bool {
    &&& found.0 < sigs.len()
    &&& found.1 < sigs.len()
    &&& found.0 != found.1
    &&& pair::pair_match(sigs[found.0 as int], sigs[found.1 as int], cfg) matches Some(f) && f.kind
        == found.2
}

/// Whether two signatures are in one bucket.
pub open spec fn together(lists: Seq<Seq<usize>>, i: usize, j: usize) -> bool {
    exists|k: int|
        0 <= k < lists.len() && (#[trigger] lists[k]).contains(i) && lists[k].contains(j)
}

/// Whether the representative of a group matches a signature, taken in this order.
pub open spec fn is_vouched_for(
    sigs: Seq<VideoSignature>,
    cfg: CompareConfig,
    rep: usize,
    member: usize,
) -> bool {
    pair::pair_match(sigs[rep as int], sigs[member as int], cfg) is Some
}

/// Whether a group has at least two members, all of them different signatures that its
/// representative matches, and is of the kind of its first two members' match.
pub open spec fn is_sound_cluster(
    sigs: Seq<VideoSignature>,
    cfg: CompareConfig,
    cluster: groups::Cluster,
) -> bool {
    &&& cluster.members.len() >= 2
    &&& cluster.members.no_duplicates()
    &&& forall|p: int| 0 <= p < cluster.members.len() ==> #[trigger] cluster.members[p] < sigs.len()
    &&& forall|p: int|
        0 < p < cluster.members.len() ==> is_vouched_for(
            sigs,
            cfg,
            cluster.members[0],
            #[trigger] cluster.members[p],
        )
    &&& pair::pair_match(
        sigs[cluster.members[0] as int],
        sigs[cluster.members[1] as int],
        cfg,
    ) matches Some(f) && f.kind == cluster.kind
}

/// Whether all groups in the making are sound and the owner of a signature is the one group that
/// it is in.
pub open spec fn is_sound(
    sigs: Seq<VideoSignature>,
    cfg: CompareConfig,
    state: groups::Clustering,
) -> bool {
    &&& state.owner.len() == sigs.len()
    &&& forall|g: int|
        0 <= g < state.clusters.len() ==> is_sound_cluster(sigs, cfg, #[trigger] state.clusters[g])
    &&& forall|g: int, p: int|
        0 <= g < state.clusters.len() && 0 <= p < state.clusters[g].members.len()
            ==> state.owner[(#[trigger] state.clusters[g].members[p]) as int] == Some(g)
    &&& forall|i: int|
        0 <= i < state.owner.len() ==> (#[trigger] state.owner[i] matches Some(g) ==> 0 <= g
            < state.clusters.len() && state.clusters[g].members.contains(i as usize))
}

/// Whether all members of each group are in one bucket.
pub open spec fn keeps_buckets(lists: Seq<Seq<usize>>, state: groups::Clustering) -> bool {
    forall|g: int, p: int, q: int|
        0 <= g < state.clusters.len() && 0 <= p < state.clusters[g].members.len() && 0 <= q
            < state.clusters[g].members.len() ==> together(
            lists,
            #[trigger] state.clusters[g].members[p],
            #[trigger] state.clusters[g].members[q],
        )
}

// ---- Buckets hold different signatures ----

/// Whether no index is listed twice.
pub open spec fn are_disjoint(lists: Seq<Seq<usize>>) -> bool {
    &&& forall|k: int| 0 <= k < lists.len() ==> (#[trigger] lists[k]).no_duplicates()
    &&& forall|k: int, l: int, x: usize|
        0 <= k < lists.len() && 0 <= l < lists.len() && #[trigger] lists[k].contains(x)
            && #[trigger] lists[l].contains(x) ==> k == l
}

proof fn lemma_flatten_disjoint(lists: Seq<Seq<usize>>)
    requires
        lists.flatten().no_duplicates(),
    ensures
        are_disjoint(lists),
        forall|k: int, x: usize|
            0 <= k < lists.len() && #[trigger] lists[k].contains(x) ==> lists.flatten().contains(x),
        forall|x: usize| #[trigger]
            lists.flatten().contains(x) ==> exists|k: int|
                0 <= k < lists.len() && #[trigger] lists[k].contains(x),
    decreases lists.len(),
{
    lists.lemma_flatten_and_flatten_alt_are_equivalent();
    if lists.len() > 0 {
        let front = lists.drop_last();
        let last = lists.last();
        let n = lists.len() - 1;
        front.lemma_flatten_and_flatten_alt_are_equivalent();
        let all = lists.flatten();
        let left = front.flatten();
        assert(all == left + last);
        assert forall|p: int, q: int|
            0 <= p < left.len() && 0 <= q < left.len() && p != q implies left[p] != left[q] by {
            assert(all[p] != all[q]);
        }
        lemma_flatten_disjoint(front);
        assert forall|k: int| 0 <= k < n implies #[trigger] lists[k] == front[k] by {}
        assert(last.no_duplicates()) by {
            assert forall|p: int, q: int|
                0 <= p < last.len() && 0 <= q < last.len() && p != q implies last[p]
                != last[q] by {
                assert(all[left.len() + p] != all[left.len() + q]);
            }
        }
        assert forall|x: usize| last.contains(x) implies !left.contains(x) by {
            if left.contains(x) {
                let p = choose|p: int| 0 <= p < left.len() && left[p] == x;
                let q = choose|q: int| 0 <= q < last.len() && last[q] == x;
                assert(all[p] != all[left.len() + q]);
            }
        }
        assert forall|k: int, x: usize|
            0 <= k < lists.len() && #[trigger] lists[k].contains(x) implies all.contains(x) by {
            if k < n {
                assert(front[k].contains(x));
                let p = choose|p: int| 0 <= p < left.len() && left[p] == x;
                assert(all[p] == x);
            } else {
                let q = choose|q: int| 0 <= q < last.len() && last[q] == x;
                assert(all[left.len() + q] == x);
            }
        }
        assert forall|x: usize| #[trigger] all.contains(x) implies exists|k: int|
            0 <= k < lists.len() && #[trigger] lists[k].contains(x) by {
            let p = choose|p: int| 0 <= p < all.len() && all[p] == x;
            if p < left.len() {
                assert(left[p] == x);
                assert(left.contains(x));
                let k = choose|k: int| 0 <= k < front.len() && #[trigger] front[k].contains(x);
                assert(lists[k].contains(x));
            } else {
                assert(last[p - left.len()] == x);
                assert(lists[n].contains(x));
            }
        }
        assert forall|k: int, l: int, x: usize|
            0 <= k < lists.len() && 0 <= l < lists.len() && #[trigger] lists[k].contains(x)
                && #[trigger] lists[l].contains(x) implies k == l by {
            if k < n {
                assert(front[k].contains(x));
            }
            if l < n {
                assert(front[l].contains(x));
            }
        }
    }
}

/// The buckets hold each signature exactly once.
pub proof fn lemma_buckets_disjoint(sigs: Seq<VideoSignature>, pct: Double)
    requires
        sigs.len() <= usize::MAX,
    ensures
        are_disjoint(buckets::duration_buckets(sigs, pct)),
        forall|k: int, p: int|
            0 <= k < buckets::duration_buckets(sigs, pct).len() && 0 <= p
                < buckets::duration_buckets(sigs, pct)[k].len() ==> (
            #[trigger] buckets::duration_buckets(sigs, pct)[k][p]) < sigs.len(),
        forall|i: usize|
            i < sigs.len() ==> #[trigger] together(buckets::duration_buckets(sigs, pct), i, i),
{
    let lists = buckets::duration_buckets(sigs, pct);
    let order = buckets::duration_order(sigs, sigs.len());
    laws::law_buckets_split_by_duration(sigs, pct);
    lemma_flatten_disjoint(lists);
    assert forall|k: int, p: int| 0 <= k < lists.len() && 0 <= p < lists[k].len() implies (
    #[trigger] lists[k][p]) < sigs.len() by {
        let x = lists[k][p];
        assert(lists[k].contains(x));
        assert(order.contains(x));
        let q = choose|q: int| 0 <= q < order.len() && order[q] == x;
        assert(order[q] < sigs.len());
    }
    assert forall|i: usize| i < sigs.len() implies #[trigger] together(lists, i, i) by {
        assert(order.contains(i));
    }
}

// ---- Matches are genuine ----

/// The matches of a signature are genuine, and within its bucket.
pub proof fn lemma_matches_of(
    sigs: Seq<VideoSignature>,
    cfg: CompareConfig,
    bucket: Seq<usize>,
    i: int,
    n: int,
)
    requires
        0 <= i < bucket.len(),
        n <= bucket.len(),
        bucket.no_duplicates(),
        forall|p: int| 0 <= p < bucket.len() ==> #[trigger] bucket[p] < sigs.len(),
    ensures
        forall|m: int|
            0 <= m < groups::matches_of(sigs, cfg, bucket, i, n).len() ==> is_genuine(
                sigs,
                cfg,
                #[trigger] groups::matches_of(sigs, cfg, bucket, i, n)[m],
            ) && bucket.contains(groups::matches_of(sigs, cfg, bucket, i, n)[m].0)
                && bucket.contains(groups::matches_of(sigs, cfg, bucket, i, n)[m].1),
        forall|q: int|
            i < q < n && pair::pair_match(
                sigs[bucket[i] as int],
                sigs[#[trigger] bucket[q] as int],
                cfg,
            ) is Some ==> exists|m: int|
                0 <= m < groups::matches_of(sigs, cfg, bucket, i, n).len() && (
                #[trigger] groups::matches_of(sigs, cfg, bucket, i, n)[m]).0 == bucket[i]
                    && groups::matches_of(sigs, cfg, bucket, i, n)[m].1 == bucket[q],
    decreases n - i,
{
    if n > i + 1 {
        lemma_matches_of(sigs, cfg, bucket, i, n - 1);
        let before = groups::matches_of(sigs, cfg, bucket, i, n - 1);
        let now = groups::matches_of(sigs, cfg, bucket, i, n);
        assert(bucket[i] != bucket[n - 1]);
        assert(bucket.contains(bucket[i]));
        assert(bucket.contains(bucket[n - 1]));
        assert forall|m: int| 0 <= m < before.len() implies #[trigger] now[m] == before[m] by {}
        assert forall|q: int|
            i < q < n && pair::pair_match(
                sigs[bucket[i] as int],
                sigs[#[trigger] bucket[q] as int],
                cfg,
            ) is Some implies exists|m: int|
            0 <= m < now.len() && (#[trigger] now[m]).0 == bucket[i] && now[m].1 == bucket[q] by {
            if q < n - 1 {
                let m = choose|m: int|
                    0 <= m < before.len() && (#[trigger] before[m]).0 == bucket[i] && before[m].1
                        == bucket[q];
                assert(now[m] == before[m]);
            } else {
                assert(now[before.len() as int].0 == bucket[i]);
            }
        }
    }
}

/// The matches of a bucket are genuine, and within the bucket.
pub proof fn lemma_bucket_matches(
    sigs: Seq<VideoSignature>,
    cfg: CompareConfig,
    bucket: Seq<usize>,
    r: nat,
)
    requires
        r <= bucket.len(),
        bucket.no_duplicates(),
        forall|p: int| 0 <= p < bucket.len() ==> #[trigger] bucket[p] < sigs.len(),
    ensures
        forall|m: int|
            0 <= m < groups::bucket_matches(sigs, cfg, bucket, r).len() ==> is_genuine(
                sigs,
                cfg,
                #[trigger] groups::bucket_matches(sigs, cfg, bucket, r)[m],
            ) && bucket.contains(groups::bucket_matches(sigs, cfg, bucket, r)[m].0)
                && bucket.contains(groups::bucket_matches(sigs, cfg, bucket, r)[m].1),
        forall|p: int, q: int|
            0 <= p < r && p < q < bucket.len() && pair::pair_match(
                sigs[#[trigger] bucket[p] as int],
                sigs[#[trigger] bucket[q] as int],
                cfg,
            ) is Some ==> exists|m: int|
                0 <= m < groups::bucket_matches(sigs, cfg, bucket, r).len() && (
                #[trigger] groups::bucket_matches(sigs, cfg, bucket, r)[m]).0 == bucket[p]
                    && groups::bucket_matches(sigs, cfg, bucket, r)[m].1 == bucket[q],
    decreases r,
{
    if r > 0 {
        let i = r - 1;
        lemma_bucket_matches(sigs, cfg, bucket, i as nat);
        lemma_matches_of(sigs, cfg, bucket, i, bucket.len() as int);
        let before = groups::bucket_matches(sigs, cfg, bucket, i as nat);
        let row = groups::matches_of(sigs, cfg, bucket, i, bucket.len() as int);
        let now = groups::bucket_matches(sigs, cfg, bucket, r);
        assert(now == before + row);
        assert forall|m: int| 0 <= m < before.len() implies #[trigger] now[m] == before[m] by {}
        assert forall|m: int| before.len() <= m < now.len() implies #[trigger] now[m] == row[m
            - before.len()] by {}
        assert forall|p: int, q: int|
            0 <= p < r && p < q < bucket.len() && pair::pair_match(
                sigs[#[trigger] bucket[p] as int],
                sigs[#[trigger] bucket[q] as int],
                cfg,
            ) is Some implies exists|m: int|
            0 <= m < now.len() && (#[trigger] now[m]).0 == bucket[p] && now[m].1 == bucket[q] by {
            if p < i {
                let m = choose|m: int|
                    0 <= m < before.len() && (#[trigger] before[m]).0 == bucket[p] && before[m].1
                        == bucket[q];
                assert(now[m] == before[m]);
            } else {
                let m = choose|m: int|
                    0 <= m < row.len() && (#[trigger] row[m]).0 == bucket[p] && row[m].1
                        == bucket[q];
                assert(now[before.len() + m] == row[m]);
            }
        }
    }
}

proof fn lemma_all_matches(
    sigs: Seq<VideoSignature>,
    cfg: CompareConfig,
    lists: Seq<Seq<usize>>,
    k: nat,
)
    requires
        k <= lists.len(),
        are_disjoint(lists),
        forall|l: int, p: int|
            0 <= l < lists.len() && 0 <= p < lists[l].len() ==> (#[trigger] lists[l][p])
                < sigs.len(),
    ensures
        forall|m: int|
            0 <= m < groups::all_matches(sigs, cfg, lists, k).len() ==> is_genuine(
                sigs,
                cfg,
                #[trigger] groups::all_matches(sigs, cfg, lists, k)[m],
            ) && together(
                lists,
                groups::all_matches(sigs, cfg, lists, k)[m].0,
                groups::all_matches(sigs, cfg, lists, k)[m].1,
            ),
        forall|l: int, p: int, q: int|
            0 <= l < k && 0 <= p < q < lists[l].len() && pair::pair_match(
                sigs[#[trigger] lists[l][p] as int],
                sigs[#[trigger] lists[l][q] as int],
                cfg,
            ) is Some ==> exists|m: int|
                0 <= m < groups::all_matches(sigs, cfg, lists, k).len() && (
                #[trigger] groups::all_matches(sigs, cfg, lists, k)[m]).0 == lists[l][p]
                    && groups::all_matches(sigs, cfg, lists, k)[m].1 == lists[l][q],
    decreases k,
{
    if k > 0 {
        let e = k - 1;
        lemma_all_matches(sigs, cfg, lists, e as nat);
        let bucket = lists[e];
        assert forall|p: int| 0 <= p < bucket.len() implies #[trigger] bucket[p] < sigs.len() by {
            assert(lists[e][p] < sigs.len());
        }
        lemma_bucket_matches(sigs, cfg, bucket, bucket.len());
        let before = groups::all_matches(sigs, cfg, lists, e as nat);
        let row = groups::bucket_matches(sigs, cfg, bucket, bucket.len());
        let now = groups::all_matches(sigs, cfg, lists, k);
        assert(now == before + row);
        assert forall|m: int| 0 <= m < now.len() implies is_genuine(sigs, cfg, #[trigger] now[m])
            && together(lists, now[m].0, now[m].1) by {
            if m < before.len() {
                assert(now[m] == before[m]);
            } else {
                assert(now[m] == row[m - before.len()]);
                assert(lists[e].contains(now[m].0) && lists[e].contains(now[m].1));
            }
        }
        assert forall|l: int, p: int, q: int|
            0 <= l < k && 0 <= p < q < lists[l].len() && pair::pair_match(
                sigs[#[trigger] lists[l][p] as int],
                sigs[#[trigger] lists[l][q] as int],
                cfg,
            ) is Some implies exists|m: int|
            0 <= m < now.len() && (#[trigger] now[m]).0 == lists[l][p] && now[m].1
                == lists[l][q] by {
            if l < e {
                let m = choose|m: int|
                    0 <= m < before.len() && (#[trigger] before[m]).0 == lists[l][p]
                        && before[m].1 == lists[l][q];
                assert(now[m] == before[m]);
            } else {
                assert(bucket[p] == lists[l][p] && bucket[q] == lists[l][q]);
                let m = choose|m: int|
                    0 <= m < row.len() && (#[trigger] row[m]).0 == bucket[p] && row[m].1
                        == bucket[q];
                assert(now[before.len() + m] == row[m]);
            }
        }
    }
}

// ---- The first of a match precedes the second ----

/// Whether no signature is the second of a match once it was the first of one.
pub open spec fn firsts_precede(matches: Seq<(usize, usize, SimilarityKind)>) -> bool {
    forall|m: int, n: int|
        0 <= m <= n < matches.len() ==> (#[trigger] matches[m]).0 != (#[trigger] matches[n]).1
}

/// Whether an index is among the first `r` of a bucket.
spec fn is_early(bucket: Seq<usize>, r: int, i: usize) -> bool {
    exists|p: int| 0 <= p < r && p < bucket.len() && #[trigger] bucket[p] == i
}

/// Whether an index is in one of the first `k` buckets.
spec fn is_listed(lists: Seq<Seq<usize>>, k: int, i: usize) -> bool {
    exists|l: int| 0 <= l < k && l < lists.len() && (#[trigger] lists[l]).contains(i)
}

proof fn lemma_row_firsts(
    sigs: Seq<VideoSignature>,
    cfg: CompareConfig,
    bucket: Seq<usize>,
    i: int,
    n: int,
)
    requires
        0 <= i < bucket.len(),
        n <= bucket.len(),
        bucket.no_duplicates(),
    ensures
        forall|m: int|
            0 <= m < groups::matches_of(sigs, cfg, bucket, i, n).len() ==> (
            #[trigger] groups::matches_of(sigs, cfg, bucket, i, n)[m]).0 == bucket[i]
                && !is_early(bucket, i + 1, groups::matches_of(sigs, cfg, bucket, i, n)[m].1),
    decreases n - i,
{
    if n > i + 1 {
        lemma_row_firsts(sigs, cfg, bucket, i, n - 1);
        let before = groups::matches_of(sigs, cfg, bucket, i, n - 1);
        let now = groups::matches_of(sigs, cfg, bucket, i, n);
        assert(!is_early(bucket, i + 1, bucket[n - 1]));
        assert forall|m: int| 0 <= m < now.len() implies (#[trigger] now[m]).0 == bucket[i]
            && !is_early(bucket, i + 1, now[m].1) by {
            if m < before.len() {
                assert(now[m] == before[m]);
            }
        }
    }
}

proof fn lemma_bucket_firsts(
    sigs: Seq<VideoSignature>,
    cfg: CompareConfig,
    bucket: Seq<usize>,
    r: nat,
)
    requires
        r <= bucket.len(),
        bucket.no_duplicates(),
    ensures
        firsts_precede(groups::bucket_matches(sigs, cfg, bucket, r)),
        forall|m: int|
            0 <= m < groups::bucket_matches(sigs, cfg, bucket, r).len() ==> is_early(
                bucket,
                r as int,
                (#[trigger] groups::bucket_matches(sigs, cfg, bucket, r)[m]).0,
            ),
    decreases r,
{
    if r > 0 {
        let i = r - 1;
        lemma_bucket_firsts(sigs, cfg, bucket, i as nat);
        lemma_row_firsts(sigs, cfg, bucket, i, bucket.len() as int);
        let before = groups::bucket_matches(sigs, cfg, bucket, i as nat);
        let row = groups::matches_of(sigs, cfg, bucket, i, bucket.len() as int);
        let now = groups::bucket_matches(sigs, cfg, bucket, r);
        assert(now == before + row);
        assert forall|m: int| 0 <= m < now.len() implies is_early(
            bucket,
            r as int,
            (#[trigger] now[m]).0,
        ) by {
            if m < before.len() {
                assert(now[m] == before[m]);
                let p = choose|p: int|
                    0 <= p < i && p < bucket.len() && #[trigger] bucket[p] == before[m].0;
                assert(bucket[p] == now[m].0);
            } else {
                assert(now[m] == row[m - before.len()]);
                assert(bucket[i] == now[m].0);
            }
        }
        assert forall|m: int, n: int| 0 <= m <= n < now.len() implies (#[trigger] now[m]).0 != (
        #[trigger] now[n]).1 by {
            if n < before.len() {
                assert(before[m].0 != before[n].1);
            } else {
                assert(now[n] == row[n - before.len()]);
                assert(is_early(bucket, i + 1, now[m].0));
            }
        }
    }
}

proof fn lemma_all_firsts(
    sigs: Seq<VideoSignature>,
    cfg: CompareConfig,
    lists: Seq<Seq<usize>>,
    k: nat,
)
    requires
        k <= lists.len(),
        are_disjoint(lists),
        forall|l: int, p: int|
            0 <= l < lists.len() && 0 <= p < lists[l].len() ==> (#[trigger] lists[l][p])
                < sigs.len(),
    ensures
        firsts_precede(groups::all_matches(sigs, cfg, lists, k)),
        forall|m: int|
            0 <= m < groups::all_matches(sigs, cfg, lists, k).len() ==> is_listed(
                lists,
                k as int,
                (#[trigger] groups::all_matches(sigs, cfg, lists, k)[m]).0,
            ),
    decreases k,
{
    if k > 0 {
        let e = k - 1;
        lemma_all_firsts(sigs, cfg, lists, e as nat);
        let bucket = lists[e];
        assert forall|p: int| 0 <= p < bucket.len() implies #[trigger] bucket[p] < sigs.len() by {
            assert(lists[e][p] < sigs.len());
        }
        lemma_bucket_firsts(sigs, cfg, bucket, bucket.len());
        lemma_bucket_matches(sigs, cfg, bucket, bucket.len());
        let before = groups::all_matches(sigs, cfg, lists, e as nat);
        let row = groups::bucket_matches(sigs, cfg, bucket, bucket.len());
        let now = groups::all_matches(sigs, cfg, lists, k);
        assert(now == before + row);
        assert forall|m: int| 0 <= m < now.len() implies is_listed(
            lists,
            k as int,
            (#[trigger] now[m]).0,
        ) by {
            if m < before.len() {
                assert(now[m] == before[m]);
                let l = choose|l: int|
                    0 <= l < e && l < lists.len() && (#[trigger] lists[l]).contains(before[m].0);
                assert(lists[l].contains(now[m].0));
            } else {
                assert(now[m] == row[m - before.len()]);
                assert(lists[e].contains(now[m].0));
            }
        }
        assert forall|m: int, n: int| 0 <= m <= n < now.len() implies (#[trigger] now[m]).0 != (
        #[trigger] now[n]).1 by {
            if n < before.len() {
                assert(before[m].0 != before[n].1);
            } else {
                assert(now[n] == row[n - before.len()]);
                assert(lists[e].contains(now[n].1));
                if m < before.len() {
                    assert(now[m] == before[m]);
                    let l = choose|l: int|
                        0 <= l < e && l < lists.len() && (#[trigger] lists[l]).contains(
                            before[m].0,
                        );
                    assert(lists[l].contains(now[m].0));
                } else {
                    assert(row[m - before.len()].0 != row[n - before.len()].1);
                }
            }
        }
    }
}

/// Whether the first member of every group is the first of one of the first `k` matches.
spec fn opened_by_firsts(
    state: groups::Clustering,
    matches: Seq<(usize, usize, SimilarityKind)>,
    k: int,
) -> bool {
    forall|g: int|
        0 <= g < state.clusters.len() ==> was_first(
            matches,
            k,
            (#[trigger] state.clusters[g]).members[0],
        )
}

spec fn was_first(matches: Seq<(usize, usize, SimilarityKind)>, k: int, i: usize) -> bool {
    exists|m: int| 0 <= m < k && m < matches.len() && (#[trigger] matches[m]).0 == i
}

proof fn lemma_step_opens_by_firsts(
    sigs: Seq<VideoSignature>,
    cfg: CompareConfig,
    state: groups::Clustering,
    matches: Seq<(usize, usize, SimilarityKind)>,
    k: int,
)
    requires
        is_sound(sigs, cfg, state),
        0 <= k < matches.len(),
        is_genuine(sigs, cfg, matches[k]),
        opened_by_firsts(state, matches, k),
    ensures
        opened_by_firsts(groups::cluster_step(sigs, cfg, state, matches[k]), matches, k + 1),
{
    let next = groups::cluster_step(sigs, cfg, state, matches[k]);
    assert forall|g: int| 0 <= g < next.clusters.len() implies was_first(
        matches,
        k + 1,
        (#[trigger] next.clusters[g]).members[0],
    ) by {
        if g < state.clusters.len() {
            assert(is_sound_cluster(sigs, cfg, state.clusters[g]));
            assert(next.clusters[g].members[0] == state.clusters[g].members[0]);
            let i = state.clusters[g].members[0];
            assert(was_first(matches, k, i));
            let m = choose|m: int| 0 <= m < k && m < matches.len() && (#[trigger] matches[m]).0 == i;
            assert(matches[m].0 == i);
        } else {
            assert(next.clusters[g].members[0] == matches[k].0);
        }
    }
}

// ---- Groups ----

proof fn lemma_joined_cluster_sound(
    sigs: Seq<VideoSignature>,
    cfg: CompareConfig,
    cluster: groups::Cluster,
    newcomer: usize,
)
    requires
        is_sound_cluster(sigs, cfg, cluster),
        newcomer < sigs.len(),
        !cluster.members.contains(newcomer),
        is_vouched_for(sigs, cfg, cluster.members[0], newcomer),
    ensures
        is_sound_cluster(
            sigs,
            cfg,
            groups::Cluster { members: cluster.members.push(newcomer), kind: cluster.kind },
        ),
{
    let members = cluster.members.push(newcomer);
    assert forall|p: int, q: int|
        0 <= p < members.len() && 0 <= q < members.len() && p != q implies members[p]
        != members[q] by {
        if p < cluster.members.len() && q < cluster.members.len() {
            assert(cluster.members[p] != cluster.members[q]);
        } else if p < cluster.members.len() {
            assert(cluster.members.contains(cluster.members[p]));
        } else {
            assert(cluster.members.contains(cluster.members[q]));
        }
    }
    assert(members[0] == cluster.members[0] && members[1] == cluster.members[1]);
    assert forall|p: int| 0 <= p < members.len() implies #[trigger] members[p] < sigs.len() by {
        if p < cluster.members.len() {
            assert(cluster.members[p] < sigs.len());
        }
    }
    assert forall|p: int| 0 < p < members.len() implies is_vouched_for(
        sigs,
        cfg,
        members[0],
        #[trigger] members[p],
    ) by {
        if p < cluster.members.len() {
            assert(is_vouched_for(sigs, cfg, cluster.members[0], cluster.members[p]));
        }
    }
}

proof fn lemma_joined_sound(
    sigs: Seq<VideoSignature>,
    cfg: CompareConfig,
    state: groups::Clustering,
    g: int,
    newcomer: usize,
)
    requires
        is_sound(sigs, cfg, state),
        0 <= g < state.clusters.len(),
        newcomer < sigs.len(),
        state.owner[newcomer as int] is None,
        is_vouched_for(sigs, cfg, state.clusters[g].members[0], newcomer),
    ensures
        is_sound(sigs, cfg, groups::joined(state, g, newcomer)),
{
    let next = groups::joined(state, g, newcomer);
    let cluster = state.clusters[g];
    assert(!cluster.members.contains(newcomer)) by {
        if cluster.members.contains(newcomer) {
            let p = choose|p: int|
                0 <= p < cluster.members.len() && cluster.members[p] == newcomer;
            assert(state.owner[state.clusters[g].members[p] as int] == Some(g));
        }
    }
    lemma_joined_cluster_sound(sigs, cfg, cluster, newcomer);
    assert(next.clusters[g].members == cluster.members.push(newcomer));
    assert forall|h: int, p: int|
        0 <= h < next.clusters.len() && 0 <= p < next.clusters[h].members.len() implies next.owner[(
    #[trigger] next.clusters[h].members[p]) as int] == Some(h) by {
        if h == g && p == cluster.members.len() {
        } else {
            assert(next.clusters[h].members[p] == state.clusters[h].members[p]);
            assert(state.owner[state.clusters[h].members[p] as int] == Some(h));
        }
    }
    assert forall|i: int| 0 <= i < next.owner.len() implies (#[trigger] next.owner[i] matches Some(
        h,
    ) ==> 0 <= h < next.clusters.len() && next.clusters[h].members.contains(i as usize)) by {
        if i == newcomer {
            assert(next.clusters[g].members[cluster.members.len() as int] == newcomer);
        } else if let Some(h) = state.owner[i] {
            assert(state.clusters[h].members.contains(i as usize));
            let p = choose|p: int|
                0 <= p < state.clusters[h].members.len() && state.clusters[h].members[p]
                    == i as usize;
            assert(next.clusters[h].members[p] == i as usize);
        }
    }
}

proof fn lemma_step_sound(
    sigs: Seq<VideoSignature>,
    cfg: CompareConfig,
    state: groups::Clustering,
    found: (usize, usize, SimilarityKind),
)
    requires
        is_sound(sigs, cfg, state),
        is_genuine(sigs, cfg, found),
        forall|g: int|
            0 <= g < state.clusters.len() ==> (#[trigger] state.clusters[g]).members[0] != found.1,
        sigs.len() <= usize::MAX,
    ensures
        is_sound(sigs, cfg, groups::cluster_step(sigs, cfg, state, found)),
        forall|i: int|
            0 <= i < sigs.len() && state.owner[i] is Some ==> (#[trigger] groups::cluster_step(
                sigs,
                cfg,
                state,
                found,
            ).owner[i]) is Some,
        groups::cluster_step(sigs, cfg, state, found).owner[found.0 as int] is Some
            || groups::cluster_step(sigs, cfg, state, found).owner[found.1 as int] is Some,
{
    let (ia, ib, kind) = found;
    let next = groups::cluster_step(sigs, cfg, state, found);
    match (state.owner[ia as int], state.owner[ib as int]) {
        (None, None) => {
            let g = state.clusters.len() as int;
            assert(next.clusters[g].members =~= seq![ia, ib]);
            assert(is_sound_cluster(sigs, cfg, next.clusters[g]));
            assert forall|h: int|
                0 <= h < next.clusters.len() implies is_sound_cluster(
                sigs,
                cfg,
                #[trigger] next.clusters[h],
            ) by {
                if h < g {
                    assert(next.clusters[h] == state.clusters[h]);
                }
            }
            assert forall|h: int, p: int|
                0 <= h < next.clusters.len() && 0 <= p
                    < next.clusters[h].members.len() implies next.owner[(
            #[trigger] next.clusters[h].members[p]) as int] == Some(h) by {
                if h < g {
                    assert(next.clusters[h].members[p] == state.clusters[h].members[p]);
                    assert(state.owner[state.clusters[h].members[p] as int] == Some(h));
                }
            }
            assert forall|i: int| 0 <= i < next.owner.len() implies (
            #[trigger] next.owner[i] matches Some(h) ==> 0 <= h < next.clusters.len()
                && next.clusters[h].members.contains(i as usize)) by {
                if i == ia {
                    assert(next.clusters[g].members[0] == ia);
                } else if i == ib {
                    assert(next.clusters[g].members[1] == ib);
                } else if let Some(h) = state.owner[i] {
                    assert(next.clusters[h] == state.clusters[h]);
                }
            }
        },
        (Some(g), None) => {
            let rep = state.clusters[g].members[0];
            if groups::admits(sigs, cfg, rep, ia, ib) {
                assert(is_vouched_for(sigs, cfg, rep, ib));
                lemma_joined_sound(sigs, cfg, state, g, ib);
            }
        },
        (None, Some(g)) => {
            let rep = state.clusters[g].members[0];
            if groups::admits(sigs, cfg, rep, ib, ia) {
                assert(state.clusters[g].members[0] != ib);
                assert(is_vouched_for(sigs, cfg, rep, ia));
                lemma_joined_sound(sigs, cfg, state, g, ia);
            }
        },
        (Some(_), Some(_)) => {},
    }
}

proof fn lemma_together_chain(lists: Seq<Seq<usize>>, i: usize, j: usize, l: usize)
    requires
        are_disjoint(lists),
        together(lists, i, j),
        together(lists, j, l),
    ensures
        together(lists, i, l),
        together(lists, l, i),
{
    let k = choose|k: int|
        0 <= k < lists.len() && (#[trigger] lists[k]).contains(i) && lists[k].contains(j);
    let m = choose|m: int|
        0 <= m < lists.len() && (#[trigger] lists[m]).contains(j) && lists[m].contains(l);
    assert(k == m);
}

proof fn lemma_together_itself(lists: Seq<Seq<usize>>, i: usize, j: usize)
    requires
        together(lists, i, j),
    ensures
        together(lists, i, i),
        together(lists, j, j),
        together(lists, j, i),
{
    let k = choose|k: int|
        0 <= k < lists.len() && (#[trigger] lists[k]).contains(i) && lists[k].contains(j);
    assert(lists[k].contains(i));
}

proof fn lemma_joined_keeps_buckets(
    lists: Seq<Seq<usize>>,
    state: groups::Clustering,
    g: int,
    known: usize,
    newcomer: usize,
)
    requires
        are_disjoint(lists),
        keeps_buckets(lists, state),
        0 <= g < state.clusters.len(),
        state.clusters[g].members.contains(known),
        together(lists, known, newcomer),
    ensures
        keeps_buckets(lists, groups::joined(state, g, newcomer)),
{
    let next = groups::joined(state, g, newcomer);
    let old_members = state.clusters[g].members;
    let at = choose|p: int| 0 <= p < old_members.len() && old_members[p] == known;
    assert forall|h: int, p: int, q: int|
        0 <= h < next.clusters.len() && 0 <= p < next.clusters[h].members.len() && 0 <= q
            < next.clusters[h].members.len() implies together(
        lists,
        #[trigger] next.clusters[h].members[p],
        #[trigger] next.clusters[h].members[q],
    ) by {
        let x = next.clusters[h].members[p];
        let y = next.clusters[h].members[q];
        if h == g {
            if p < old_members.len() {
                assert(together(lists, state.clusters[g].members[p], state.clusters[g].members[at]));
                lemma_together_chain(lists, x, known, newcomer);
            }
            if q < old_members.len() {
                assert(together(lists, state.clusters[g].members[q], state.clusters[g].members[at]));
                lemma_together_chain(lists, y, known, newcomer);
            }
            lemma_together_itself(lists, known, newcomer);
            if p < old_members.len() && q < old_members.len() {
                assert(together(lists, state.clusters[g].members[p], state.clusters[g].members[q]));
            }
        } else {
            assert(together(lists, state.clusters[h].members[p], state.clusters[h].members[q]));
        }
    }
}

proof fn lemma_step_keeps_buckets(
    sigs: Seq<VideoSignature>,
    cfg: CompareConfig,
    lists: Seq<Seq<usize>>,
    state: groups::Clustering,
    found: (usize, usize, SimilarityKind),
)
    requires
        are_disjoint(lists),
        is_sound(sigs, cfg, state),
        keeps_buckets(lists, state),
        is_genuine(sigs, cfg, found),
        together(lists, found.0, found.1),
        sigs.len() <= usize::MAX,
    ensures
        keeps_buckets(lists, groups::cluster_step(sigs, cfg, state, found)),
{
    let (ia, ib, kind) = found;
    let next = groups::cluster_step(sigs, cfg, state, found);
    lemma_together_itself(lists, ia, ib);
    match (state.owner[ia as int], state.owner[ib as int]) {
        (None, None) => {
            let g = state.clusters.len() as int;
            assert(next.clusters[g].members =~= seq![ia, ib]);
            assert forall|h: int, p: int, q: int|
                0 <= h < next.clusters.len() && 0 <= p < next.clusters[h].members.len() && 0 <= q
                    < next.clusters[h].members.len() implies together(
                lists,
                #[trigger] next.clusters[h].members[p],
                #[trigger] next.clusters[h].members[q],
            ) by {
                if h < g {
                    assert(together(
                        lists,
                        state.clusters[h].members[p],
                        state.clusters[h].members[q],
                    ));
                }
            }
        },
        (Some(g), None) => {
            if groups::admits(sigs, cfg, state.clusters[g].members[0], ia, ib) {
                lemma_joined_keeps_buckets(lists, state, g, ia, ib);
            }
        },
        (None, Some(g)) => {
            if groups::admits(sigs, cfg, state.clusters[g].members[0], ib, ia) {
                lemma_joined_keeps_buckets(lists, state, g, ib, ia);
            }
        },
        (Some(_), Some(_)) => {},
    }
}

proof fn lemma_clustering(
    sigs: Seq<VideoSignature>,
    cfg: CompareConfig,
    lists: Seq<Seq<usize>>,
    matches: Seq<(usize, usize, SimilarityKind)>,
    k: nat,
)
    requires
        sigs.len() <= usize::MAX,
        k <= matches.len(),
        are_disjoint(lists),
        forall|m: int|
            0 <= m < matches.len() ==> is_genuine(sigs, cfg, #[trigger] matches[m]) && together(
                lists,
                matches[m].0,
                matches[m].1,
            ),
        firsts_precede(matches),
    ensures
        is_sound(sigs, cfg, groups::cluster_matches(sigs, cfg, matches, k)),
        opened_by_firsts(groups::cluster_matches(sigs, cfg, matches, k), matches, k as int),
        keeps_buckets(lists, groups::cluster_matches(sigs, cfg, matches, k)),
        forall|m: int|
            0 <= m < k ==> {
                let owner = groups::cluster_matches(sigs, cfg, matches, k).owner;
                owner[(#[trigger] matches[m]).0 as int] is Some || owner[matches[m].1 as int] is Some
            },
    decreases k,
{
    if k > 0 {
        let e = (k - 1) as nat;
        lemma_clustering(sigs, cfg, lists, matches, e);
        let state = groups::cluster_matches(sigs, cfg, matches, e);
        let next = groups::cluster_matches(sigs, cfg, matches, k);
        assert(is_genuine(sigs, cfg, matches[k - 1]));
        assert forall|g: int| 0 <= g < state.clusters.len() implies (
        #[trigger] state.clusters[g]).members[0] != matches[k - 1].1 by {
            let i = state.clusters[g].members[0];
            assert(was_first(matches, e as int, i));
            let m = choose|m: int|
                0 <= m < e && m < matches.len() && (#[trigger] matches[m]).0 == i;
            assert(matches[m].0 != matches[k - 1].1);
        }
        lemma_step_opens_by_firsts(sigs, cfg, state, matches, e as int);
        lemma_step_sound(sigs, cfg, state, matches[k - 1]);
        lemma_step_keeps_buckets(sigs, cfg, lists, state, matches[k - 1]);
        assert forall|m: int| 0 <= m < k implies next.owner[(#[trigger] matches[m]).0 as int] is Some
            || next.owner[matches[m].1 as int] is Some by {
            if m < e {
                assert(is_genuine(sigs, cfg, matches[m]));
                assert(state.owner[matches[m].0 as int] is Some
                    || state.owner[matches[m].1 as int] is Some);
            }
        }
    }
}

/// The groups that are found are sound, and keep to the buckets.
pub proof fn lemma_found_clustering(sigs: Seq<VideoSignature>, cfg: CompareConfig)
    requires
        sigs.len() <= usize::MAX,
    ensures
        ({
            let lists = buckets::duration_buckets(sigs, cfg.duration_tolerance_pct);
            let matches = groups::found_matches(sigs, cfg);
            let state = groups::cluster_matches(sigs, cfg, matches, matches.len());
            &&& are_disjoint(lists)
            &&& is_sound(sigs, cfg, state)
            &&& keeps_buckets(lists, state)
            &&& forall|m: int|
                0 <= m < matches.len() ==> state.owner[(#[trigger] matches[m]).0 as int] is Some
                    || state.owner[matches[m].1 as int] is Some
            &&& forall|l: int, p: int, q: int|
                0 <= l < lists.len() && 0 <= p < q < lists[l].len() && pair::pair_match(
                    sigs[#[trigger] lists[l][p] as int],
                    sigs[#[trigger] lists[l][q] as int],
                    cfg,
                ) is Some ==> exists|m: int|
                    0 <= m < matches.len() && (#[trigger] matches[m]).0 == lists[l][p]
                        && matches[m].1 == lists[l][q]
        }),
{
    let pct = cfg.duration_tolerance_pct;
    let lists = buckets::duration_buckets(sigs, pct);
    lemma_buckets_disjoint(sigs, pct);
    lemma_all_matches(sigs, cfg, lists, lists.len());
    lemma_all_firsts(sigs, cfg, lists, lists.len());
    let matches = groups::found_matches(sigs, cfg);
    lemma_clustering(sigs, cfg, lists, matches, matches.len());
}

/// Every group has at least two members; all of them are different signatures that the group's
/// first one, its representative, matches in this order, so that no chain of matches holds a
/// group together; and the kind of the group is that of the match which opened it.
pub proof fn law_groups_are_sound(sigs: Seq<VideoSignature>, cfg: CompareConfig)
    requires
        sigs.len() <= usize::MAX,
    ensures
        forall|g: int|
            0 <= g < groups::similar_clusters(sigs, cfg).len() ==> is_sound_cluster(
                sigs,
                cfg,
                #[trigger] groups::similar_clusters(sigs, cfg)[g],
            ),
{
    lemma_found_clustering(sigs, cfg);
}

/// In every group that is reported, the first file matches each other one in this order, and the
/// kind of the group is that of the match of its first two files. Here `a` and `b` are the
/// signatures of the first file of a group and of another one, and no two signatures are of one
/// path.
pub proof fn law_first_files_match_the_others(
    sigs: Seq<VideoSignature>,
    cfg: CompareConfig,
    found: Seq<SimilarGroup>,
    g: int,
    k: int,
    a: int,
    b: int,
)
    requires
        sigs.len() <= usize::MAX,
        found.len() == groups::similar_clusters(sigs, cfg).len(),
        forall|h: int|
            0 <= h < found.len() ==> groups::shows(
                #[trigger] found[h],
                groups::similar_clusters(sigs, cfg)[h],
                sigs,
            ),
        forall|i: int, j: int|
            0 <= i < j < sigs.len() ==> paths::path_parts((#[trigger] sigs[i]).path)
                != paths::path_parts((#[trigger] sigs[j]).path),
        0 <= g < found.len(),
        0 < k < found[g].files@.len(),
        0 <= a < sigs.len(),
        0 <= b < sigs.len(),
        paths::path_parts(sigs[a].path) == paths::path_parts(found[g].files@[0]),
        paths::path_parts(sigs[b].path) == paths::path_parts(found[g].files@[k]),
    ensures
        pair::pair_match(sigs[a], sigs[b], cfg) is Some,
        k == 1 ==> pair::pair_match(sigs[a], sigs[b], cfg)->0.kind == found[g].kind,
{
    law_groups_are_sound(sigs, cfg);
    let cluster = groups::similar_clusters(sigs, cfg)[g];
    assert(is_sound_cluster(sigs, cfg, cluster));
    assert(groups::shows(found[g], cluster, sigs));
    let first = cluster.members[0] as int;
    let other = cluster.members[k] as int;
    assert(paths::path_parts(found[g].files@[0]) == paths::path_parts(sigs[first].path));
    assert(paths::path_parts(found[g].files@[k]) == paths::path_parts(sigs[other].path));
    assert(a == first);
    assert(b == other);
    assert(is_vouched_for(sigs, cfg, cluster.members[0], cluster.members[k]));
}

/// No signature is in two groups.
pub proof fn law_groups_are_disjoint(
    sigs: Seq<VideoSignature>,
    cfg: CompareConfig,
    g: int,
    h: int,
    i: usize,
)
    requires
        sigs.len() <= usize::MAX,
        0 <= g < groups::similar_clusters(sigs, cfg).len(),
        0 <= h < groups::similar_clusters(sigs, cfg).len(),
        groups::similar_clusters(sigs, cfg)[g].members.contains(i),
        groups::similar_clusters(sigs, cfg)[h].members.contains(i),
    ensures
        g == h,
{
    lemma_found_clustering(sigs, cfg);
    let matches = groups::found_matches(sigs, cfg);
    let state = groups::cluster_matches(sigs, cfg, matches, matches.len());
    let p = choose|p: int|
        0 <= p < state.clusters[g].members.len() && state.clusters[g].members[p] == i;
    let q = choose|q: int|
        0 <= q < state.clusters[h].members.len() && state.clusters[h].members[q] == i;
    assert(state.owner[state.clusters[g].members[p] as int] == Some(g));
    assert(state.owner[state.clusters[h].members[q] as int] == Some(h));
}

/// The members of a group are all in one duration bucket.
pub proof fn law_groups_keep_to_buckets(
    sigs: Seq<VideoSignature>,
    cfg: CompareConfig,
    g: int,
    p: int,
    q: int,
)
    requires
        sigs.len() <= usize::MAX,
        0 <= g < groups::similar_clusters(sigs, cfg).len(),
        0 <= p < groups::similar_clusters(sigs, cfg)[g].members.len(),
        0 <= q < groups::similar_clusters(sigs, cfg)[g].members.len(),
    ensures
        together(
            buckets::duration_buckets(sigs, cfg.duration_tolerance_pct),
            groups::similar_clusters(sigs, cfg)[g].members[p],
            groups::similar_clusters(sigs, cfg)[g].members[q],
        ),
{
    lemma_found_clustering(sigs, cfg);
}

/// Whether a signature is in a group.
pub open spec fn is_grouped(sigs: Seq<VideoSignature>, cfg: CompareConfig, i: usize) -> bool {
    exists|g: int|
        0 <= g < groups::similar_clusters(sigs, cfg).len() && (#[trigger] groups::similar_clusters(
            sigs,
            cfg,
        )[g]).members.contains(i)
}

/// Where two signatures of one bucket match, at least one of them ends up in a group.
pub proof fn law_matches_are_grouped(
    sigs: Seq<VideoSignature>,
    cfg: CompareConfig,
    bucket: Seq<usize>,
    p: int,
    q: int,
)
    requires
        sigs.len() <= usize::MAX,
        buckets::duration_buckets(sigs, cfg.duration_tolerance_pct).contains(bucket),
        0 <= p < q < bucket.len(),
        pair::pair_match(sigs[bucket[p] as int], sigs[bucket[q] as int], cfg) is Some,
    ensures
        is_grouped(sigs, cfg, bucket[p]) || is_grouped(sigs, cfg, bucket[q]),
{
    lemma_found_clustering(sigs, cfg);
    lemma_buckets_disjoint(sigs, cfg.duration_tolerance_pct);
    let lists = buckets::duration_buckets(sigs, cfg.duration_tolerance_pct);
    let l = choose|l: int| 0 <= l < lists.len() && lists[l] == bucket;
    let matches = groups::found_matches(sigs, cfg);
    let state = groups::cluster_matches(sigs, cfg, matches, matches.len());
    let i = lists[l][p];
    let j = lists[l][q];
    let m = choose|m: int|
        0 <= m < matches.len() && (#[trigger] matches[m]).0 == i && matches[m].1 == j;
    assert(state.owner[matches[m].0 as int] is Some || state.owner[matches[m].1 as int] is Some);
    let clusters = groups::similar_clusters(sigs, cfg);
    if let Some(g) = state.owner[i as int] {
        assert(clusters[g].members.contains(i));
    } else if let Some(g) = state.owner[j as int] {
        assert(clusters[g].members.contains(j));
    }
}

/// A duration does not differ from itself.
proof fn lemma_same_duration_is_within(duration: nat, pct: Double)
    requires
        duration <= u64::MAX,
        Double::zero().is_at_most(pct),
    ensures
        buckets::within_bucket(duration, duration, pct),
{
    let f = Format::Double;
    let scale = power2::pow2(1074);
    float::lemma_count_is_monotone(f, 0, duration);
    float::lemma_count_of_index(f, duration);
    float::lemma_zero_is_nearest(f, 1);
    assert(0 * scale == 0) by (nonlinear_arith);
    let x = Double::counted(duration);
    assert(x.subtracted(x).unsigned() == Double::zero());
    let base = x.larger((Double { bits: buckets::ONE }));
    assert(0 < base.bits < f.top());
    float::lemma_units_positive(f, base.bits as nat);
    float::lemma_zero_is_nearest(f, float::units(f, base.bits as nat));
    assert(buckets::deviation(duration, duration) == Double::zero());
    let hundred = float::units(f, buckets::HUNDRED as nat);
    float::lemma_units_positive(f, buckets::HUNDRED as nat);
    let p = float::magnitude(f, pct.pattern());
    float::lemma_nearest_exists(f, float::units(f, p) * scale, hundred);
    float::lemma_zero_is_nearest(f, hundred);
}

/// Signatures of one duration are in one bucket.
pub proof fn lemma_equal_durations_share_bucket(
    sigs: Seq<VideoSignature>,
    order: Seq<usize>,
    pct: Double,
    n: nat,
    p: int,
    q: int,
)
    requires
        n <= order.len(),
        0 <= p < q < n,
        buckets::by_duration(sigs, order),
        sigs[order[p] as int].duration_ms == sigs[order[q] as int].duration_ms,
        Double::zero().is_at_most(pct),
    ensures
        exists|k: int, i: int, j: int|
            #![trigger
                buckets::fill_buckets(sigs, order, pct, n)[k][i],
                buckets::fill_buckets(sigs, order, pct, n)[k][j]]
            0 <= k < buckets::fill_buckets(sigs, order, pct, n).len() && 0 <= i < j
                < buckets::fill_buckets(sigs, order, pct, n)[k].len()
                && buckets::fill_buckets(sigs, order, pct, n)[k][i] == order[p]
                && buckets::fill_buckets(sigs, order, pct, n)[k][j] == order[q],
        q == n - 1 ==> exists|i: int|
            0 <= i < buckets::fill_buckets(sigs, order, pct, n).last().len() - 1 && (
            #[trigger] buckets::fill_buckets(sigs, order, pct, n).last()[i]) == order[p],
    decreases n,
{
    let m = (n - 1) as nat;
    let filled = buckets::fill_buckets(sigs, order, pct, m);
    let lists = buckets::fill_buckets(sigs, order, pct, n);
    laws::lemma_fill_splits(sigs, order, pct, m);
    let e = filled.len() - 1;
    if q < m {
        lemma_equal_durations_share_bucket(sigs, order, pct, m, p, q);
        let (k, i, j) = choose|k: int, i: int, j: int|
            #![trigger filled[k][i], filled[k][j]]
            0 <= k < filled.len() && 0 <= i < j < filled[k].len() && filled[k][i] == order[p]
                && filled[k][j] == order[q];
        assert(lists[k][i] == order[p]);
        assert(lists[k][j] == order[q]);
    } else {
        let next = order[q];
        let last = filled.last();
        lemma_last_filled(sigs, order, pct, m);
        let before = order[m - 1];
        assert(last[last.len() - 1] == before);
        assert(sigs[order[p] as int].duration_ms <= sigs[order[m - 1] as int].duration_ms);
        assert(sigs[order[m - 1] as int].duration_ms <= sigs[order[q] as int].duration_ms);
        let center = sigs[last[0] as int].duration_ms as nat;
        let duration = sigs[next as int].duration_ms as nat;
        assert(buckets::within_bucket(duration, center, pct)) by {
            if last.len() == 1 {
                lemma_same_duration_is_within(center, pct);
            } else {
                assert(buckets::within_bucket(
                    sigs[filled[e][last.len() - 1] as int].duration_ms as nat,
                    sigs[filled[e][0] as int].duration_ms as nat,
                    pct,
                ));
            }
        }
        assert(lists == filled.drop_last().push(last.push(next)));
        assert(lists[e] == last.push(next));
        let i = if p == m - 1 {
            last.len() - 1
        } else {
            lemma_equal_durations_share_bucket(sigs, order, pct, m, p, m - 1);
            choose|i: int| 0 <= i < filled.last().len() - 1 && filled.last()[i] == order[p]
        };
        assert(last[i] == order[p]);
        assert(lists[e][i] == order[p]);
        assert(lists[e][last.len() as int] == order[q]);
        assert(lists.last()[i] == order[p]);
    }
}

proof fn lemma_last_filled(sigs: Seq<VideoSignature>, order: Seq<usize>, pct: Double, n: nat)
    requires
        0 < n <= order.len(),
    ensures
        buckets::fill_buckets(sigs, order, pct, n).len() > 0,
        buckets::fill_buckets(sigs, order, pct, n).last().len() > 0,
        buckets::fill_buckets(sigs, order, pct, n).last().last() == order[n - 1],
{
    let filled = buckets::fill_buckets(sigs, order, pct, (n - 1) as nat);
    let lists = buckets::fill_buckets(sigs, order, pct, n);
    assert(lists.last() == lists[lists.len() - 1]);
}

/// What one match does to the groups: two files without a group make one, of the kind of the match;
/// a file without a group joins the group of the other one where that is its representative, and
/// else exactly where the representative matches it with a score that is not below one minus the
/// tolerance; a file that has a group keeps it.
pub proof fn law_newcomers_are_held_against_the_representative(
    sigs: Seq<VideoSignature>,
    cfg: CompareConfig,
    state: groups::Clustering,
    ia: usize,
    ib: usize,
    kind: SimilarityKind,
)
    ensures
        ({
            let next = groups::cluster_step(sigs, cfg, state, (ia, ib, kind));
            let (a, b) = (state.owner[ia as int], state.owner[ib as int]);
            &&& a is None && b is None ==> next.clusters == state.clusters.push(
                groups::Cluster { members: seq![ia, ib], kind },
            ) && next.owner == state.owner.update(
                ia as int,
                Some(state.clusters.len() as int),
            ).update(ib as int, Some(state.clusters.len() as int))
            &&& a is Some && b is Some ==> next == state
            &&& a is Some && b is None ==> if may_join(sigs, cfg, state, a->0, ia, ib) {
                has_joined(state, next, a->0, ib)
            } else {
                next == state
            }
            &&& a is None && b is Some ==> if may_join(sigs, cfg, state, b->0, ib, ia) {
                has_joined(state, next, b->0, ia)
            } else {
                next == state
            }
        }),
{
}

/// Whether a file may join a group by way of a member that it matches.
pub open spec fn may_join(
    sigs: Seq<VideoSignature>,
    cfg: CompareConfig,
    state: groups::Clustering,
    g: int,
    member: usize,
    newcomer: usize,
) -> bool {
    let first = state.clusters[g].members[0];
    if first == member {
        true
    } else {
        match pair::pair_match(sigs[first as int], sigs[newcomer as int], cfg) {
            Some(found) => !found.visual_score.is_less(Single::one().subtracted(cfg.tolerance)),
            None => false,
        }
    }
}

/// Whether groups are the same as before but for a newcomer at the end of one of them.
pub open spec fn has_joined(
    before: groups::Clustering,
    now: groups::Clustering,
    g: int,
    newcomer: usize,
) -> bool {
    &&& now.owner == before.owner.update(newcomer as int, Some(g))
    &&& now.clusters == before.clusters.update(
        g,
        groups::Cluster {
            members: before.clusters[g].members.push(newcomer),
            kind: before.clusters[g].kind,
        },
    )
}

/// Any two files of one bucket are compared, the shorter one first: if they match, this is among the
/// matches that the groups are made of, with its kind. Nothing else is among them.
pub proof fn law_all_matches_of_a_bucket_are_found(
    sigs: Seq<VideoSignature>,
    cfg: CompareConfig,
    l: int,
    p: int,
    q: int,
)
    requires
        sigs.len() <= usize::MAX,
        0 <= l < buckets::duration_buckets(sigs, cfg.duration_tolerance_pct).len(),
        0 <= p < q < buckets::duration_buckets(sigs, cfg.duration_tolerance_pct)[l].len(),
    ensures
        ({
            let bucket = buckets::duration_buckets(sigs, cfg.duration_tolerance_pct)[l];
            let (a, b) = (bucket[p], bucket[q]);
            pair::pair_match(sigs[a as int], sigs[b as int], cfg) matches Some(found)
                ==> groups::found_matches(sigs, cfg).contains((a, b, found.kind))
        }),
        forall|m: int|
            0 <= m < groups::found_matches(sigs, cfg).len() ==> is_genuine(
                sigs,
                cfg,
                #[trigger] groups::found_matches(sigs, cfg)[m],
            ) && together(
                buckets::duration_buckets(sigs, cfg.duration_tolerance_pct),
                groups::found_matches(sigs, cfg)[m].0,
                groups::found_matches(sigs, cfg)[m].1,
            ),
{
    let pct = cfg.duration_tolerance_pct;
    let lists = buckets::duration_buckets(sigs, pct);
    lemma_buckets_disjoint(sigs, pct);
    lemma_all_matches(sigs, cfg, lists, lists.len());
    let matches = groups::found_matches(sigs, cfg);
    let (a, b) = (lists[l][p], lists[l][q]);
    if let Some(found) = pair::pair_match(sigs[a as int], sigs[b as int], cfg) {
        let m = choose|m: int|
            0 <= m < matches.len() && (#[trigger] matches[m]).0 == a && matches[m].1 == b;
        assert(is_genuine(sigs, cfg, matches[m]));
        assert(matches[m] == (a, b, found.kind));
    }
}

} // verus!
