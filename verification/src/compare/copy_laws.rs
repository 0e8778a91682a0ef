//! Copies end up in one group.

use crate::compare::buckets;
use crate::compare::group_laws;
use crate::compare::groups;
use crate::compare::laws;
use crate::compare::pair;
use crate::compare::scores;
use crate::compare::{CompareConfig, SimilarityKind};
use crate::double::Double;
use crate::single::Single;
use crate::visual::hash;
use crate::visual::{TemporalHash, VideoSignature};
use vstd::prelude::*;

verus! {

/// Whether two matches have the same score, or there is none.
pub open spec fn same_score(f: Option<pair::PairResult>, g: Option<pair::PairResult>) -> bool {
    match (f, g) {
        (Some(x), Some(y)) => x.visual_score == y.visual_score,
        (None, None) => true,
        _ => false,
    }
}

/// Whether every other signature matches two signatures equally well, if at all.
pub open spec fn are_alike(
    sigs: Seq<VideoSignature>,
    cfg: CompareConfig,
    i: usize,
    j: usize,
) -> bool {
    forall|r: int|
        0 <= r < sigs.len() && r != i && r != j ==> same_score(
            pair::pair_match(#[trigger] sigs[r], sigs[i as int], cfg),
            pair::pair_match(sigs[r], sigs[j as int], cfg),
        )
}

// ---- The same hashes match alike ----

proof fn lemma_same_alignment(
    clip_a: Seq<TemporalHash>,
    clip_b: Seq<TemporalHash>,
    source_a: Seq<TemporalHash>,
    source_b: Seq<TemporalHash>,
    offset: int,
    tolerance: Single,
    n: nat,
)
    requires
        laws::same_bits(clip_a, clip_b),
        laws::same_bits(source_a, source_b),
        n <= clip_a.len(),
        0 <= offset,
        offset + n <= source_a.len(),
    ensures
        pair::matching_windows(clip_a, source_a, offset, tolerance, n) == pair::matching_windows(
            clip_b,
            source_b,
            offset,
            tolerance,
            n,
        ),
        pair::similarity_sum(clip_a, source_a, offset, n) == pair::similarity_sum(
            clip_b,
            source_b,
            offset,
            n,
        ),
    decreases n,
{
    if n > 0 {
        lemma_same_alignment(
            clip_a,
            clip_b,
            source_a,
            source_b,
            offset,
            tolerance,
            (n - 1) as nat,
        );
        assert(hash::hash_contents(clip_a[n - 1].bits) == hash::hash_contents(clip_b[n - 1].bits));
        assert(hash::hash_contents(source_a[offset + n - 1].bits) == hash::hash_contents(
            source_b[offset + n - 1].bits,
        ));
    }
}

proof fn lemma_same_best_alignment(
    clip_a: Seq<TemporalHash>,
    clip_b: Seq<TemporalHash>,
    source_a: Seq<TemporalHash>,
    source_b: Seq<TemporalHash>,
    tolerance: Single,
    min_match: Single,
)
    requires
        laws::same_bits(clip_a, clip_b),
        laws::same_bits(source_a, source_b),
    ensures
        pair::best_alignment(clip_a, source_a, tolerance, min_match) == pair::best_alignment(
            clip_b,
            source_b,
            tolerance,
            min_match,
        ),
        pair::best_alignment(clip_a, source_a, tolerance, min_match) matches Some(o)
            ==> pair::mean_similarity(clip_a, source_a, o) == pair::mean_similarity(
            clip_b,
            source_b,
            o,
        ),
{
    assert forall|o: int|
        #![trigger pair::aligned(clip_a, source_a, tolerance, min_match, o)]
        #![trigger pair::aligned(clip_b, source_b, tolerance, min_match, o)]
        pair::aligned(clip_a, source_a, tolerance, min_match, o) == pair::aligned(
            clip_b,
            source_b,
            tolerance,
            min_match,
            o,
        ) && (pair::aligned(clip_a, source_a, tolerance, min_match, o) ==> pair::mean_similarity(
            clip_a,
            source_a,
            o,
        ) == pair::mean_similarity(clip_b, source_b, o)) by {
        if 0 <= o <= source_a.len() - clip_a.len() {
            lemma_same_alignment(
                clip_a,
                clip_b,
                source_a,
                source_b,
                o,
                tolerance,
                clip_a.len(),
            );
        }
    }
    assert forall|o: int|
        #![trigger pair::is_best_alignment(clip_a, source_a, tolerance, min_match, o)]
        #![trigger pair::is_best_alignment(clip_b, source_b, tolerance, min_match, o)]
        pair::is_best_alignment(clip_a, source_a, tolerance, min_match, o)
            == pair::is_best_alignment(clip_b, source_b, tolerance, min_match, o) by {
        assert(pair::aligned(clip_a, source_a, tolerance, min_match, o) == pair::aligned(
            clip_b,
            source_b,
            tolerance,
            min_match,
            o,
        ));
    }
    if exists|o: int| pair::is_best_alignment(clip_a, source_a, tolerance, min_match, o) {
        let p = choose|o: int| pair::is_best_alignment(clip_a, source_a, tolerance, min_match, o);
        let q = choose|o: int| pair::is_best_alignment(clip_b, source_b, tolerance, min_match, o);
        assert(pair::is_best_alignment(clip_b, source_b, tolerance, min_match, p));
        pair::lemma_best_alignment_unique(clip_b, source_b, tolerance, min_match, p, q);
        assert(pair::aligned(clip_a, source_a, tolerance, min_match, p));
    }
}

/// Two signatures with the same window hashes and the same duration are matched equally well by
/// any third one.
proof fn lemma_copies_match_alike(
    r: VideoSignature,
    a: VideoSignature,
    b: VideoSignature,
    cfg: CompareConfig,
)
    requires
        laws::same_bits(a.visual_hashes@, b.visual_hashes@),
        a.duration_ms == b.duration_ms,
        !cfg.use_audio,
    ensures
        same_score(pair::pair_match(r, a, cfg), pair::pair_match(r, b, cfg)),
{
    reveal(pair::visual_match);
    let hr = r.visual_hashes@;
    let ha = a.visual_hashes@;
    let hb = b.visual_hashes@;
    if hr.len() > 0 && ha.len() > 0 {
        assert(laws::same_bits(hr, hr));
        assert(hash::hash_contents(pair::middle(ha).bits) == hash::hash_contents(
            pair::middle(hb).bits,
        ));
        assert(crate::visual::hash_distance(pair::middle(hr), pair::middle(ha))
            == crate::visual::hash_distance(pair::middle(hr), pair::middle(hb)));
        if hr.len() == ha.len() {
            lemma_same_alignment(hr, hr, ha, hb, 0, cfg.tolerance, hr.len());
        }
        lemma_same_best_alignment(
            hr,
            hr,
            ha,
            hb,
            cfg.tolerance,
            cfg.subclip_min_match,
        );
        lemma_same_best_alignment(
            ha,
            hb,
            hr,
            hr,
            cfg.tolerance,
            cfg.subclip_min_match,
        );
    }
}

// ---- Clustering, step by step ----

/// The groups after some more matches.
pub open spec fn after(
    sigs: Seq<VideoSignature>,
    cfg: CompareConfig,
    state: groups::Clustering,
    matches: Seq<(usize, usize, SimilarityKind)>,
) -> groups::Clustering
    decreases matches.len(),
{
    if matches.len() == 0 {
        state
    } else {
        groups::cluster_step(
            sigs,
            cfg,
            after(sigs, cfg, state, matches.drop_last()),
            matches.last(),
        )
    }
}

proof fn lemma_after_is_clustering(
    sigs: Seq<VideoSignature>,
    cfg: CompareConfig,
    matches: Seq<(usize, usize, SimilarityKind)>,
    k: nat,
)
    requires
        k <= matches.len(),
    ensures
        groups::cluster_matches(sigs, cfg, matches, k) == after(
            sigs,
            cfg,
            groups::cluster_matches(sigs, cfg, matches, 0),
            matches.take(k as int),
        ),
    decreases k,
{
    if k > 0 {
        lemma_after_is_clustering(sigs, cfg, matches, (k - 1) as nat);
        assert(matches.take(k as int).drop_last() =~= matches.take(k - 1));
    }
}

proof fn lemma_after_both(
    sigs: Seq<VideoSignature>,
    cfg: CompareConfig,
    state: groups::Clustering,
    first: Seq<(usize, usize, SimilarityKind)>,
    second: Seq<(usize, usize, SimilarityKind)>,
)
    ensures
        after(sigs, cfg, state, first + second) == after(
            sigs,
            cfg,
            after(sigs, cfg, state, first),
            second,
        ),
    decreases second.len(),
{
    if second.len() == 0 {
        assert(first + second =~= first);
    } else {
        lemma_after_both(sigs, cfg, state, first, second.drop_last());
        assert((first + second).drop_last() =~= first + second.drop_last());
        assert((first + second).last() == second.last());
    }
}

/// Whether groups in the making are complete records: every signature has an owner or none, and
/// every owner is a group with a representative.
pub open spec fn is_record(sigs: Seq<VideoSignature>, state: groups::Clustering) -> bool {
    &&& state.owner.len() == sigs.len()
    &&& forall|g: int|
        0 <= g < state.clusters.len() ==> (#[trigger] state.clusters[g]).members.len() > 0
            && state.clusters[g].members[0] < sigs.len()
    &&& forall|i: int|
        0 <= i < state.owner.len() ==> (#[trigger] state.owner[i] matches Some(g) ==> 0 <= g
            < state.clusters.len())
}

/// Whether one state of the groups comes after another one: owners stay, and so do groups with
/// their representatives.
pub open spec fn extends(before: groups::Clustering, now: groups::Clustering) -> bool {
    &&& before.owner.len() == now.owner.len()
    &&& before.clusters.len() <= now.clusters.len()
    &&& forall|i: int|
        0 <= i < before.owner.len() && (#[trigger] before.owner[i]) is Some ==> now.owner[i]
            == before.owner[i]
    &&& forall|g: int|
        0 <= g < before.clusters.len() ==> (#[trigger] now.clusters[g]).members[0]
            == before.clusters[g].members[0]
}

/// Whether no representative stands in a bucket behind a position.
pub open spec fn reps_up_to(bucket: Seq<usize>, state: groups::Clustering, p: int) -> bool {
    forall|g: int, q: int|
        0 <= g < state.clusters.len() && p < q < bucket.len() ==> (#[trigger] state.clusters[g]).members[0]
            != #[trigger] bucket[q]
}

proof fn lemma_step(
    sigs: Seq<VideoSignature>,
    cfg: CompareConfig,
    state: groups::Clustering,
    found: (usize, usize, SimilarityKind),
)
    requires
        is_record(sigs, state),
        found.0 < sigs.len(),
        found.1 < sigs.len(),
        found.0 != found.1,
    ensures
        is_record(sigs, groups::cluster_step(sigs, cfg, state, found)),
        extends(state, groups::cluster_step(sigs, cfg, state, found)),
        forall|x: int|
            0 <= x < sigs.len() && x != found.0 && x != found.1 ==> #[trigger] groups::cluster_step(
                sigs,
                cfg,
                state,
                found,
            ).owner[x] == state.owner[x],
        forall|g: int|
            state.clusters.len() <= g < groups::cluster_step(sigs, cfg, state, found).clusters.len()
                ==> (#[trigger] groups::cluster_step(
                sigs,
                cfg,
                state,
                found,
            ).clusters[g]).members[0] == found.0,
{
    let next = groups::cluster_step(sigs, cfg, state, found);
    match (state.owner[found.0 as int], state.owner[found.1 as int]) {
        (Some(g), None) => {
            assert(state.clusters[g].members.len() > 0);
            assert(state.clusters[g].members.push(found.1)[0] == state.clusters[g].members[0]);
        },
        (None, Some(g)) => {
            assert(state.clusters[g].members.len() > 0);
            assert(state.clusters[g].members.push(found.0)[0] == state.clusters[g].members[0]);
        },
        _ => {},
    }
}

/// Whether matches name different signatures.
pub open spec fn name_two(
    sigs: Seq<VideoSignature>,
    matches: Seq<(usize, usize, SimilarityKind)>,
) -> bool {
    forall|m: int|
        0 <= m < matches.len() ==> (#[trigger] matches[m]).0 < sigs.len() && matches[m].1
            < sigs.len() && matches[m].0 != matches[m].1
}

proof fn lemma_after_extends(
    sigs: Seq<VideoSignature>,
    cfg: CompareConfig,
    state: groups::Clustering,
    matches: Seq<(usize, usize, SimilarityKind)>,
)
    requires
        is_record(sigs, state),
        name_two(sigs, matches),
    ensures
        is_record(sigs, after(sigs, cfg, state, matches)),
        extends(state, after(sigs, cfg, state, matches)),
    decreases matches.len(),
{
    if matches.len() > 0 {
        let front = matches.drop_last();
        assert forall|m: int| 0 <= m < front.len() implies (#[trigger] front[m]).0 < sigs.len()
            && front[m].1 < sigs.len() && front[m].0 != front[m].1 by {
            assert(front[m] == matches[m]);
        }
        lemma_after_extends(sigs, cfg, state, front);
        assert(matches.last() == matches[matches.len() - 1]);
        lemma_step(sigs, cfg, after(sigs, cfg, state, front), matches.last());
    }
}

/// Matches of other buckets touch neither a bucket's signatures nor make any of them a
/// representative.
proof fn lemma_after_others(
    sigs: Seq<VideoSignature>,
    cfg: CompareConfig,
    bucket: Seq<usize>,
    state: groups::Clustering,
    matches: Seq<(usize, usize, SimilarityKind)>,
)
    requires
        is_record(sigs, state),
        name_two(sigs, matches),
        forall|p: int| 0 <= p < bucket.len() ==> #[trigger] bucket[p] < sigs.len(),
        forall|m: int|
            0 <= m < matches.len() ==> !bucket.contains((#[trigger] matches[m]).0)
                && !bucket.contains(matches[m].1),
        reps_up_to(bucket, state, -1),
    ensures
        forall|p: int|
            0 <= p < bucket.len() ==> after(sigs, cfg, state, matches).owner[(#[trigger] bucket[p]) as int]
                == state.owner[bucket[p] as int],
        reps_up_to(bucket, after(sigs, cfg, state, matches), -1),
    decreases matches.len(),
{
    if matches.len() > 0 {
        let front = matches.drop_last();
        assert forall|m: int| 0 <= m < front.len() implies #[trigger] front[m] == matches[m] by {}
        assert(name_two(sigs, front));
        lemma_after_others(sigs, cfg, bucket, state, front);
        lemma_after_extends(sigs, cfg, state, front);
        let mid = after(sigs, cfg, state, front);
        let now = after(sigs, cfg, state, matches);
        let last = matches[matches.len() - 1];
        assert(matches.last() == last);
        lemma_step(sigs, cfg, mid, last);
        assert forall|p: int| 0 <= p < bucket.len() implies now.owner[(#[trigger] bucket[p]) as int]
            == state.owner[bucket[p] as int] by {
            assert(bucket.contains(bucket[p]));
        }
        assert forall|g: int, q: int|
            0 <= g < now.clusters.len() && -1 < q < bucket.len() implies (
        #[trigger] now.clusters[g]).members[0] != #[trigger] bucket[q] by {
            assert(bucket.contains(bucket[q]));
            if g < mid.clusters.len() {
                assert(mid.clusters[g].members[0] != bucket[q]);
            }
        }
    }
}

/// The representative of a group.
pub open spec fn rep(state: groups::Clustering, g: int) -> usize {
    state.clusters[g].members[0]
}

/// How things stand with two alike signatures `i` and `j` once `y` was held against the first of
/// them but not yet against the second: both are in one group; or the first is in the group of
/// `y`, which took it in; or neither is in a group, because `y` does not match or its group
/// refused the first.
pub open spec fn is_pending(
    sigs: Seq<VideoSignature>,
    cfg: CompareConfig,
    state: groups::Clustering,
    y: usize,
    i: usize,
    j: usize,
) -> bool {
    let matched = pair::pair_match(sigs[y as int], sigs[i as int], cfg) is Some;
    match (state.owner[i as int], state.owner[j as int]) {
        (Some(g), Some(h)) => g == h,
        (Some(g), None) => matched && state.owner[y as int] == Some(g) && groups::admits(
            sigs,
            cfg,
            rep(state, g),
            y,
            i,
        ),
        (None, None) => matched ==> state.owner[y as int] is Some && !groups::admits(
            sigs,
            cfg,
            rep(state, state.owner[y as int]->0),
            y,
            i,
        ),
        (None, Some(_)) => false,
    }
}

/// What is fixed while the matches of a bucket are taken one by one.
pub open spec fn is_setting(
    sigs: Seq<VideoSignature>,
    cfg: CompareConfig,
    bucket: Seq<usize>,
    u: int,
    v: int,
) -> bool {
    &&& 0 <= u < v < bucket.len()
    &&& bucket.no_duplicates()
    &&& forall|p: int| 0 <= p < bucket.len() ==> #[trigger] bucket[p] < sigs.len()
    &&& are_alike(sigs, cfg, bucket[u], bucket[v])
}

proof fn lemma_alike_admitted(
    sigs: Seq<VideoSignature>,
    cfg: CompareConfig,
    r: usize,
    known: usize,
    i: usize,
    j: usize,
)
    requires
        are_alike(sigs, cfg, i, j),
        r < sigs.len(),
        r != i,
        r != j,
    ensures
        groups::admits(sigs, cfg, r, known, i) == groups::admits(sigs, cfg, r, known, j),
        pair::pair_match(sigs[r as int], sigs[i as int], cfg) is Some == pair::pair_match(
            sigs[r as int],
            sigs[j as int],
            cfg,
        ) is Some,
{
    assert(same_score(
        pair::pair_match(sigs[r as int], sigs[i as int], cfg),
        pair::pair_match(sigs[r as int], sigs[j as int], cfg),
    ));
}

/// A signature ahead of two alike ones treats them alike: after its matches they are in one group,
/// or in none, as before.
proof fn lemma_row_ahead(
    sigs: Seq<VideoSignature>,
    cfg: CompareConfig,
    bucket: Seq<usize>,
    u: int,
    v: int,
    state: groups::Clustering,
    p: int,
    n: int,
)
    requires
        is_setting(sigs, cfg, bucket, u, v),
        0 <= p < u,
        n <= bucket.len(),
        is_record(sigs, state),
        reps_up_to(bucket, state, p),
        state.owner[bucket[u] as int] == state.owner[bucket[v] as int],
    ensures
        ({
            let now = after(sigs, cfg, state, groups::matches_of(sigs, cfg, bucket, p, n));
            &&& is_record(sigs, now)
            &&& reps_up_to(bucket, now, p)
            &&& n <= u || n > v ==> now.owner[bucket[u] as int] == now.owner[bucket[v] as int]
            &&& u < n <= v ==> is_pending(sigs, cfg, now, bucket[p], bucket[u], bucket[v])
        }),
    decreases n - p,
{
    let y = bucket[p];
    let i = bucket[u];
    let j = bucket[v];
    assert(y != i && y != j && i != j);
    if n > p + 1 {
        lemma_row_ahead(sigs, cfg, bucket, u, v, state, p, n - 1);
        let before = groups::matches_of(sigs, cfg, bucket, p, n - 1);
        let mid = after(sigs, cfg, state, before);
        let z = bucket[n - 1];
        assert(z != y);
        assert(n - 1 != u ==> z != i);
        assert(n - 1 != v ==> z != j);
        lemma_alike_admitted(sigs, cfg, y, y, i, j);
        match pair::pair_match(sigs[y as int], sigs[z as int], cfg) {
            Some(found) => {
                let last = (y, z, found.kind);
                let now = groups::cluster_step(sigs, cfg, mid, last);
                assert(before.push(last).drop_last() =~= before);
                assert(after(sigs, cfg, state, before.push(last)) == now);
                lemma_step(sigs, cfg, mid, last);
                assert forall|g: int, q: int|
                    0 <= g < now.clusters.len() && p < q < bucket.len() implies (
                #[trigger] now.clusters[g]).members[0] != #[trigger] bucket[q] by {
                    if g < mid.clusters.len() {
                        assert(mid.clusters[g].members[0] != bucket[q]);
                    }
                }
                if let Some(g) = mid.owner[y as int] {
                    assert(mid.clusters[g].members[0] != bucket[u]);
                    assert(mid.clusters[g].members[0] != bucket[v]);
                    assert(now.clusters[g].members[0] == mid.clusters[g].members[0]);
                    lemma_alike_admitted(sigs, cfg, rep(mid, g), y, i, j);
                }
            },
            None => {},
        }
    }
}

/// How things stand with two alike signatures while the first of them is held against those ahead
/// of the second: both are in one group; or the second is in none, and the first is in a group
/// that would take it in on its own, if in any.
pub open spec fn is_waiting(
    sigs: Seq<VideoSignature>,
    cfg: CompareConfig,
    state: groups::Clustering,
    i: usize,
    j: usize,
) -> bool {
    match (state.owner[i as int], state.owner[j as int]) {
        (Some(g), Some(h)) => g == h,
        (Some(g), None) => rep(state, g) == i || (pair::pair_match(
            sigs[rep(state, g) as int],
            sigs[i as int],
            cfg,
        ) matches Some(found) && pair::reaches(found, cfg.tolerance)),
        (None, None) => true,
        (None, Some(_)) => false,
    }
}

/// A signature takes an alike one that it matches into its group.
proof fn lemma_row_own(
    sigs: Seq<VideoSignature>,
    cfg: CompareConfig,
    bucket: Seq<usize>,
    u: int,
    v: int,
    state: groups::Clustering,
    n: int,
)
    requires
        is_setting(sigs, cfg, bucket, u, v),
        n <= bucket.len(),
        is_record(sigs, state),
        reps_up_to(bucket, state, u),
        state.owner[bucket[u] as int] == state.owner[bucket[v] as int],
        pair::pair_match(sigs[bucket[u] as int], sigs[bucket[v] as int], cfg) is Some,
    ensures
        ({
            let now = after(sigs, cfg, state, groups::matches_of(sigs, cfg, bucket, u, n));
            &&& is_record(sigs, now)
            &&& reps_up_to(bucket, now, u)
            &&& is_waiting(sigs, cfg, now, bucket[u], bucket[v])
            &&& n > v ==> now.owner[bucket[u] as int] is Some && now.owner[bucket[v] as int]
                == now.owner[bucket[u] as int]
        }),
    decreases n - u,
{
    let i = bucket[u];
    let j = bucket[v];
    assert(i != j);
    if n > u + 1 {
        lemma_row_own(sigs, cfg, bucket, u, v, state, n - 1);
        let before = groups::matches_of(sigs, cfg, bucket, u, n - 1);
        let mid = after(sigs, cfg, state, before);
        let z = bucket[n - 1];
        assert(z != i);
        assert(n - 1 != v ==> z != j);
        match pair::pair_match(sigs[i as int], sigs[z as int], cfg) {
            Some(found) => {
                let last = (i, z, found.kind);
                let now = groups::cluster_step(sigs, cfg, mid, last);
                assert(before.push(last).drop_last() =~= before);
                assert(after(sigs, cfg, state, before.push(last)) == now);
                lemma_step(sigs, cfg, mid, last);
                assert forall|g: int, q: int|
                    0 <= g < now.clusters.len() && u < q < bucket.len() implies (
                #[trigger] now.clusters[g]).members[0] != #[trigger] bucket[q] by {
                    if g < mid.clusters.len() {
                        assert(mid.clusters[g].members[0] != bucket[q]);
                    }
                }
                if let Some(g) = mid.owner[z as int] {
                    assert(mid.clusters[g].members[0] != bucket[n - 1]);
                    assert(now.clusters[g].members[0] == mid.clusters[g].members[0]);
                }
                if let Some(g) = mid.owner[i as int] {
                    assert(mid.clusters[g].members[0] != bucket[v]);
                    assert(now.clusters[g].members[0] == mid.clusters[g].members[0]);
                    if rep(mid, g) != i {
                        lemma_alike_admitted(sigs, cfg, rep(mid, g), i, i, j);
                    }
                }
            },
            None => {},
        }
    }
}

/// After the matches of a bucket, two alike signatures that match are in one group.
proof fn lemma_rows(
    sigs: Seq<VideoSignature>,
    cfg: CompareConfig,
    bucket: Seq<usize>,
    u: int,
    v: int,
    state: groups::Clustering,
    m: nat,
)
    requires
        is_setting(sigs, cfg, bucket, u, v),
        m <= bucket.len(),
        is_record(sigs, state),
        reps_up_to(bucket, state, -1),
        state.owner[bucket[u] as int] == state.owner[bucket[v] as int],
        pair::pair_match(sigs[bucket[u] as int], sigs[bucket[v] as int], cfg) is Some,
    ensures
        ({
            let now = after(sigs, cfg, state, groups::bucket_matches(sigs, cfg, bucket, m));
            &&& is_record(sigs, now)
            &&& now.owner[bucket[u] as int] == now.owner[bucket[v] as int]
            &&& m <= u ==> reps_up_to(bucket, now, m - 1)
            &&& m > u ==> now.owner[bucket[u] as int] is Some
        }),
    decreases m,
{
    if m > 0 {
        let p = m - 1;
        lemma_rows(sigs, cfg, bucket, u, v, state, p as nat);
        let before = groups::bucket_matches(sigs, cfg, bucket, p as nat);
        let row = groups::matches_of(sigs, cfg, bucket, p, bucket.len() as int);
        let mid = after(sigs, cfg, state, before);
        lemma_after_both(sigs, cfg, state, before, row);
        if p < u {
            assert(reps_up_to(bucket, mid, p));
            lemma_row_ahead(sigs, cfg, bucket, u, v, mid, p, bucket.len() as int);
        } else if p == u {
            assert(reps_up_to(bucket, mid, p));
            lemma_row_own(sigs, cfg, bucket, u, v, mid, bucket.len() as int);
        } else {
            group_laws::lemma_matches_of(sigs, cfg, bucket, p, bucket.len() as int);
            assert forall|k: int| 0 <= k < row.len() implies (#[trigger] row[k]).0 < sigs.len()
                && row[k].1 < sigs.len() && row[k].0 != row[k].1 by {
                assert(group_laws::is_genuine(sigs, cfg, row[k]));
            }
            lemma_after_extends(sigs, cfg, mid, row);
        }
    }
}

/// After the matches of all buckets, two alike signatures of one bucket that match are in one
/// group.
proof fn lemma_all_rows(
    sigs: Seq<VideoSignature>,
    cfg: CompareConfig,
    lists: Seq<Seq<usize>>,
    l: int,
    u: int,
    v: int,
    k: nat,
)
    requires
        k <= lists.len(),
        0 <= l < lists.len(),
        group_laws::are_disjoint(lists),
        forall|a: int, p: int|
            0 <= a < lists.len() && 0 <= p < lists[a].len() ==> (#[trigger] lists[a][p])
                < sigs.len(),
        is_setting(sigs, cfg, lists[l], u, v),
        pair::pair_match(sigs[lists[l][u] as int], sigs[lists[l][v] as int], cfg) is Some,
    ensures
        ({
            let none = Seq::<(usize, usize, SimilarityKind)>::empty();
            let start = groups::cluster_matches(sigs, cfg, none, 0);
            let now = after(sigs, cfg, start, groups::all_matches(sigs, cfg, lists, k));
            &&& is_record(sigs, now)
            &&& k <= l ==> now.owner[lists[l][u] as int] is None && now.owner[lists[l][v] as int] is None
                && reps_up_to(lists[l], now, -1)
            &&& k > l ==> now.owner[lists[l][u] as int] is Some && now.owner[lists[l][u] as int]
                == now.owner[lists[l][v] as int]
        }),
    decreases k,
{
    let none = Seq::<(usize, usize, SimilarityKind)>::empty();
    let start = groups::cluster_matches(sigs, cfg, none, 0);
    let bucket = lists[l];
    if k > 0 {
        let e = (k - 1) as nat;
        lemma_all_rows(sigs, cfg, lists, l, u, v, e);
        let before = groups::all_matches(sigs, cfg, lists, e);
        let list = lists[e as int];
        let more = groups::bucket_matches(sigs, cfg, list, list.len());
        let mid = after(sigs, cfg, start, before);
        lemma_after_both(sigs, cfg, start, before, more);
        assert forall|p: int| 0 <= p < list.len() implies #[trigger] list[p] < sigs.len() by {
            assert(lists[e as int][p] < sigs.len());
        }
        group_laws::lemma_bucket_matches(sigs, cfg, list, list.len());
        assert forall|m: int| 0 <= m < more.len() implies (#[trigger] more[m]).0 < sigs.len()
            && more[m].1 < sigs.len() && more[m].0 != more[m].1 by {
            assert(group_laws::is_genuine(sigs, cfg, more[m]));
        }
        if e < l {
            assert forall|m: int| 0 <= m < more.len() implies !bucket.contains(
                (#[trigger] more[m]).0,
            ) && !bucket.contains(more[m].1) by {
                assert(group_laws::is_genuine(sigs, cfg, more[m]));
                assert(lists[e as int].contains(more[m].0));
                assert(lists[e as int].contains(more[m].1));
                if bucket.contains(more[m].0) {
                    assert(lists[l].contains(more[m].0));
                }
                if bucket.contains(more[m].1) {
                    assert(lists[l].contains(more[m].1));
                }
            }
            lemma_after_others(sigs, cfg, bucket, mid, more);
            lemma_after_extends(sigs, cfg, mid, more);
        } else if e == l {
            lemma_rows(sigs, cfg, bucket, u, v, mid, bucket.len());
        } else {
            lemma_after_extends(sigs, cfg, mid, more);
        }
    }
}

// ---- Laws ----

/// Whether two signatures are in one group.
pub open spec fn share_a_group(
    sigs: Seq<VideoSignature>,
    cfg: CompareConfig,
    i: usize,
    j: usize,
) -> bool {
    exists|g: int|
        0 <= g < groups::similar_clusters(sigs, cfg).len() && (#[trigger] groups::similar_clusters(
            sigs,
            cfg,
        )[g]).members.contains(i) && groups::similar_clusters(sigs, cfg)[g].members.contains(j)
}

/// Two signatures of one bucket that match, and that every other signature matches equally well if
/// at all, are in one group.
pub proof fn law_alike_files_share_a_group(
    sigs: Seq<VideoSignature>,
    cfg: CompareConfig,
    l: int,
    u: int,
    v: int,
)
    requires
        sigs.len() <= usize::MAX,
        0 <= l < buckets::duration_buckets(sigs, cfg.duration_tolerance_pct).len(),
        0 <= u < v < buckets::duration_buckets(sigs, cfg.duration_tolerance_pct)[l].len(),
        ({
            let bucket = buckets::duration_buckets(sigs, cfg.duration_tolerance_pct)[l];
            &&& are_alike(sigs, cfg, bucket[u], bucket[v])
            &&& pair::pair_match(sigs[bucket[u] as int], sigs[bucket[v] as int], cfg) is Some
        }),
    ensures
        share_a_group(
            sigs,
            cfg,
            buckets::duration_buckets(sigs, cfg.duration_tolerance_pct)[l][u],
            buckets::duration_buckets(sigs, cfg.duration_tolerance_pct)[l][v],
        ),
{
    let pct = cfg.duration_tolerance_pct;
    let lists = buckets::duration_buckets(sigs, pct);
    let bucket = lists[l];
    group_laws::lemma_buckets_disjoint(sigs, pct);
    assert forall|p: int| 0 <= p < bucket.len() implies #[trigger] bucket[p] < sigs.len() by {
        assert(lists[l][p] < sigs.len());
    }
    lemma_all_rows(sigs, cfg, lists, l, u, v, lists.len());
    let matches = groups::found_matches(sigs, cfg);
    let state = groups::cluster_matches(sigs, cfg, matches, matches.len());
    lemma_after_is_clustering(sigs, cfg, matches, matches.len());
    assert(matches.take(matches.len() as int) =~= matches);
    let none = Seq::<(usize, usize, SimilarityKind)>::empty();
    assert(groups::cluster_matches(sigs, cfg, matches, 0) == groups::cluster_matches(
        sigs,
        cfg,
        none,
        0,
    ));
    group_laws::lemma_found_clustering(sigs, cfg);
    let i = bucket[u];
    let j = bucket[v];
    let g = state.owner[i as int]->0;
    assert(state.owner[j as int] == Some(g));
    let clusters = groups::similar_clusters(sigs, cfg);
    assert(clusters[g].members.contains(i) && clusters[g].members.contains(j));
}

/// Files of one duration with the same window hashes are put into one group, whatever other files
/// there are.
pub proof fn law_copies_share_a_group(
    sigs: Seq<VideoSignature>,
    cfg: CompareConfig,
    i: usize,
    j: usize,
)
    requires
        sigs.len() <= usize::MAX,
        i < sigs.len(),
        j < sigs.len(),
        i != j,
        sigs[i as int].duration_ms == sigs[j as int].duration_ms,
        0 < sigs[i as int].visual_hashes@.len() <= scores::MAX_WINDOWS,
        laws::same_bits(sigs[i as int].visual_hashes@, sigs[j as int].visual_hashes@),
        Single::zero().is_at_most(cfg.tolerance),
        Double::zero().is_at_most(cfg.duration_tolerance_pct),
        cfg.min_matching_windows.is_at_most(Single::one()),
        !cfg.use_audio,
    ensures
        share_a_group(sigs, cfg, i, j),
{
    let pct = cfg.duration_tolerance_pct;
    let order = buckets::duration_order(sigs, sigs.len());
    let lists = buckets::duration_buckets(sigs, pct);
    laws::law_order_is_complete(sigs, sigs.len());
    assert(order.contains(i) && order.contains(j));
    let at_i = choose|p: int| 0 <= p < order.len() && order[p] == i;
    let at_j = choose|p: int| 0 <= p < order.len() && order[p] == j;
    let (p, q) = if at_i < at_j {
        (at_i, at_j)
    } else {
        (at_j, at_i)
    };
    group_laws::lemma_equal_durations_share_bucket(sigs, order, pct, sigs.len(), p, q);
    let (k, x, y) = choose|k: int, x: int, y: int|
        #![trigger lists[k][x], lists[k][y]]
        0 <= k < lists.len() && 0 <= x < y < lists[k].len() && lists[k][x] == order[p]
            && lists[k][y] == order[q];
    let a = sigs[order[p] as int];
    let b = sigs[order[q] as int];
    assert(laws::same_bits(a.visual_hashes@, b.visual_hashes@));
    laws::law_copies_are_identical(a, b, cfg);
    assert forall|r: int| 0 <= r < sigs.len() && r != order[p] && r != order[q] implies same_score(
        pair::pair_match(#[trigger] sigs[r], a, cfg),
        pair::pair_match(sigs[r], b, cfg),
    ) by {
        lemma_copies_match_alike(sigs[r], a, b, cfg);
    }
    assert(are_alike(sigs, cfg, lists[k][x], lists[k][y]));
    law_alike_files_share_a_group(sigs, cfg, k, x, y);
}

// ---- The shortest file of a bucket ----

/// Whether no signature of a bucket is in a group or represents one.
spec fn is_untouched(bucket: Seq<usize>, state: groups::Clustering) -> bool {
    &&& forall|p: int| 0 <= p < bucket.len() ==> state.owner[(#[trigger] bucket[p]) as int] is None
    &&& reps_up_to(bucket, state, -1)
}

/// After the matches of the first signature of a bucket, it is in one group with all signatures
/// ahead of position `n` that it matches, and no other signature of the bucket is in a group.
proof fn lemma_first_row(
    sigs: Seq<VideoSignature>,
    cfg: CompareConfig,
    bucket: Seq<usize>,
    state: groups::Clustering,
    n: int,
)
    requires
        0 < n <= bucket.len(),
        bucket.no_duplicates(),
        forall|p: int| 0 <= p < bucket.len() ==> #[trigger] bucket[p] < sigs.len(),
        is_record(sigs, state),
        is_untouched(bucket, state),
    ensures
        ({
            let now = after(sigs, cfg, state, groups::matches_of(sigs, cfg, bucket, 0, n));
            let first = now.owner[bucket[0] as int];
            &&& is_record(sigs, now)
            &&& first matches Some(g) ==> now.clusters[g].members[0] == bucket[0]
            &&& forall|v: int|
                0 < v < n && pair::pair_match(
                    sigs[bucket[0] as int],
                    sigs[#[trigger] bucket[v] as int],
                    cfg,
                ) is Some ==> first is Some && now.owner[bucket[v] as int] == first
            &&& forall|v: int| n <= v < bucket.len() ==> now.owner[(#[trigger] bucket[v]) as int] is None
        }),
    decreases n,
{
    let row = groups::matches_of(sigs, cfg, bucket, 0, n);
    if n > 1 {
        let v = n - 1;
        lemma_first_row(sigs, cfg, bucket, state, v);
        let before = groups::matches_of(sigs, cfg, bucket, 0, v);
        let mid = after(sigs, cfg, state, before);
        let (a, b) = (bucket[0], bucket[v]);
        assert(a != b);
        match pair::pair_match(sigs[a as int], sigs[b as int], cfg) {
            Some(found) => {
                assert(row == before.push((a, b, found.kind)));
                assert(row.drop_last() =~= before);
                lemma_step(sigs, cfg, mid, (a, b, found.kind));
                let now = after(sigs, cfg, state, row);
                assert(mid.owner[b as int] is None);
                assert forall|w: int| n <= w < bucket.len() implies now.owner[(
                #[trigger] bucket[w]) as int] is None by {
                    assert(bucket[w] != a && bucket[w] != b);
                }
                assert forall|w: int|
                    0 < w < n && pair::pair_match(
                        sigs[a as int],
                        sigs[#[trigger] bucket[w] as int],
                        cfg,
                    ) is Some implies now.owner[a as int] is Some && now.owner[bucket[w] as int]
                    == now.owner[a as int] by {
                    if w < v {
                        assert(bucket[w] != b && bucket[w] != a);
                        assert(mid.owner[a as int] is Some);
                    }
                }
            },
            None => {
                assert(row == before);
            },
        }
    }
}

/// After the matches of a bucket, its first signature is in one group with each one that it
/// matches.
proof fn lemma_first_of_bucket(
    sigs: Seq<VideoSignature>,
    cfg: CompareConfig,
    bucket: Seq<usize>,
    state: groups::Clustering,
    v: int,
    m: nat,
)
    requires
        0 < v < bucket.len(),
        0 < m <= bucket.len(),
        bucket.no_duplicates(),
        forall|p: int| 0 <= p < bucket.len() ==> #[trigger] bucket[p] < sigs.len(),
        is_record(sigs, state),
        is_untouched(bucket, state),
        pair::pair_match(sigs[bucket[0] as int], sigs[bucket[v] as int], cfg) is Some,
    ensures
        ({
            let now = after(sigs, cfg, state, groups::bucket_matches(sigs, cfg, bucket, m));
            &&& is_record(sigs, now)
            &&& now.owner[bucket[0] as int] is Some
            &&& now.owner[bucket[0] as int] == now.owner[bucket[v] as int]
        }),
    decreases m,
{
    let p = m - 1;
    let row = groups::matches_of(sigs, cfg, bucket, p, bucket.len() as int);
    if p == 0 {
        lemma_first_row(sigs, cfg, bucket, state, bucket.len() as int);
        let none = groups::bucket_matches(sigs, cfg, bucket, 0);
        assert(none + row =~= row);
    } else {
        lemma_first_of_bucket(sigs, cfg, bucket, state, v, p as nat);
        let before = groups::bucket_matches(sigs, cfg, bucket, p as nat);
        let mid = after(sigs, cfg, state, before);
        lemma_after_both(sigs, cfg, state, before, row);
        group_laws::lemma_matches_of(sigs, cfg, bucket, p, bucket.len() as int);
        assert forall|k: int| 0 <= k < row.len() implies (#[trigger] row[k]).0 < sigs.len()
            && row[k].1 < sigs.len() && row[k].0 != row[k].1 by {
            assert(group_laws::is_genuine(sigs, cfg, row[k]));
        }
        lemma_after_extends(sigs, cfg, mid, row);
    }
}

/// After the matches of all buckets, the first signature of a bucket is in one group with each one
/// of its bucket that it matches.
proof fn lemma_first_of_all(
    sigs: Seq<VideoSignature>,
    cfg: CompareConfig,
    lists: Seq<Seq<usize>>,
    l: int,
    v: int,
    k: nat,
)
    requires
        k <= lists.len(),
        0 <= l < lists.len(),
        group_laws::are_disjoint(lists),
        forall|a: int, p: int|
            0 <= a < lists.len() && 0 <= p < lists[a].len() ==> (#[trigger] lists[a][p])
                < sigs.len(),
        0 < v < lists[l].len(),
        pair::pair_match(sigs[lists[l][0] as int], sigs[lists[l][v] as int], cfg) is Some,
    ensures
        ({
            let none = Seq::<(usize, usize, SimilarityKind)>::empty();
            let start = groups::cluster_matches(sigs, cfg, none, 0);
            let now = after(sigs, cfg, start, groups::all_matches(sigs, cfg, lists, k));
            &&& is_record(sigs, now)
            &&& k <= l ==> is_untouched(lists[l], now)
            &&& k > l ==> now.owner[lists[l][0] as int] is Some && now.owner[lists[l][0] as int]
                == now.owner[lists[l][v] as int]
        }),
    decreases k,
{
    let none = Seq::<(usize, usize, SimilarityKind)>::empty();
    let start = groups::cluster_matches(sigs, cfg, none, 0);
    let bucket = lists[l];
    assert forall|p: int| 0 <= p < bucket.len() implies #[trigger] bucket[p] < sigs.len() by {
        assert(lists[l][p] < sigs.len());
    }
    if k > 0 {
        let e = (k - 1) as nat;
        lemma_first_of_all(sigs, cfg, lists, l, v, e);
        let before = groups::all_matches(sigs, cfg, lists, e);
        let list = lists[e as int];
        let more = groups::bucket_matches(sigs, cfg, list, list.len());
        let mid = after(sigs, cfg, start, before);
        lemma_after_both(sigs, cfg, start, before, more);
        assert forall|p: int| 0 <= p < list.len() implies #[trigger] list[p] < sigs.len() by {
            assert(lists[e as int][p] < sigs.len());
        }
        group_laws::lemma_bucket_matches(sigs, cfg, list, list.len());
        assert forall|m: int| 0 <= m < more.len() implies (#[trigger] more[m]).0 < sigs.len()
            && more[m].1 < sigs.len() && more[m].0 != more[m].1 by {
            assert(group_laws::is_genuine(sigs, cfg, more[m]));
        }
        lemma_after_extends(sigs, cfg, mid, more);
        if e < l {
            assert forall|m: int| 0 <= m < more.len() implies !bucket.contains(
                (#[trigger] more[m]).0,
            ) && !bucket.contains(more[m].1) by {
                assert(group_laws::is_genuine(sigs, cfg, more[m]));
                assert(lists[e as int].contains(more[m].0));
                assert(lists[e as int].contains(more[m].1));
                if bucket.contains(more[m].0) {
                    assert(lists[l].contains(more[m].0));
                }
                if bucket.contains(more[m].1) {
                    assert(lists[l].contains(more[m].1));
                }
            }
            lemma_after_others(sigs, cfg, bucket, mid, more);
        } else if e == l {
            lemma_first_of_bucket(sigs, cfg, bucket, mid, v, bucket.len());
        }
    }
}

/// The shortest file of a bucket is in one group with every file of the bucket that it matches.
pub proof fn law_shortest_files_gather_their_matches(
    sigs: Seq<VideoSignature>,
    cfg: CompareConfig,
    l: int,
    v: int,
)
    requires
        sigs.len() <= usize::MAX,
        0 <= l < buckets::duration_buckets(sigs, cfg.duration_tolerance_pct).len(),
        0 < v < buckets::duration_buckets(sigs, cfg.duration_tolerance_pct)[l].len(),
        ({
            let bucket = buckets::duration_buckets(sigs, cfg.duration_tolerance_pct)[l];
            pair::pair_match(sigs[bucket[0] as int], sigs[bucket[v] as int], cfg) is Some
        }),
    ensures
        share_a_group(
            sigs,
            cfg,
            buckets::duration_buckets(sigs, cfg.duration_tolerance_pct)[l][0],
            buckets::duration_buckets(sigs, cfg.duration_tolerance_pct)[l][v],
        ),
{
    let pct = cfg.duration_tolerance_pct;
    let lists = buckets::duration_buckets(sigs, pct);
    let bucket = lists[l];
    group_laws::lemma_buckets_disjoint(sigs, pct);
    assert forall|p: int| 0 <= p < bucket.len() implies #[trigger] bucket[p] < sigs.len() by {
        assert(lists[l][p] < sigs.len());
    }
    lemma_first_of_all(sigs, cfg, lists, l, v, lists.len());
    let matches = groups::found_matches(sigs, cfg);
    let state = groups::cluster_matches(sigs, cfg, matches, matches.len());
    lemma_after_is_clustering(sigs, cfg, matches, matches.len());
    assert(matches.take(matches.len() as int) =~= matches);
    let none = Seq::<(usize, usize, SimilarityKind)>::empty();
    assert(groups::cluster_matches(sigs, cfg, matches, 0) == groups::cluster_matches(
        sigs,
        cfg,
        none,
        0,
    ));
    group_laws::lemma_found_clustering(sigs, cfg);
    let (i, j) = (bucket[0], bucket[v]);
    let g = state.owner[i as int]->0;
    assert(state.owner[j as int] == Some(g));
    let clusters = groups::similar_clusters(sigs, cfg);
    assert(clusters[g].members.contains(i) && clusters[g].members.contains(j));
}

} // verus!
