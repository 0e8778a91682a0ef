//! Grouping of matching signatures around a representative.

use crate::compare::buckets::{self, build_duration_buckets};
use crate::compare::pair::{self, compare_pair};
use crate::compare::{CompareConfig, SimilarGroup, SimilarityKind};
use crate::paths;
use crate::visual::VideoSignature;
use std::path::PathBuf;
use vstd::prelude::*;

verus! {

/// The matches of the signature at position `i` of a bucket with those behind it, up to position
/// `n`.
pub open spec fn matches_of(
    sigs: Seq<VideoSignature>,
    cfg: CompareConfig,
    bucket: Seq<usize>,
    i: int,
    n: int,
) -> Seq<(usize, usize, SimilarityKind)>
    decreases n - i,
{
    if n <= i + 1 {
        Seq::empty()
    } else {
        let before = matches_of(sigs, cfg, bucket, i, n - 1);
        match pair::pair_match(sigs[bucket[i] as int], sigs[bucket[n - 1] as int], cfg) {
            Some(found) => before.push((bucket[i], bucket[n - 1], found.kind)),
            None => before,
        }
    }
}

/// The matches within a bucket whose first signature is at a position below `m`.
pub open spec fn bucket_matches(
    sigs: Seq<VideoSignature>,
    cfg: CompareConfig,
    bucket: Seq<usize>,
    m: nat,
) -> Seq<(usize, usize, SimilarityKind)>
    decreases m,
{
    if m == 0 {
        Seq::empty()
    } else {
        bucket_matches(sigs, cfg, bucket, (m - 1) as nat) + matches_of(
            sigs,
            cfg,
            bucket,
            m - 1,
            bucket.len() as int,
        )
    }
}

/// The matches within the first `k` buckets.
pub open spec fn all_matches(
    sigs: Seq<VideoSignature>,
    cfg: CompareConfig,
    lists: Seq<Seq<usize>>,
    k: nat,
) -> Seq<(usize, usize, SimilarityKind)>
    decreases k,
{
    if k == 0 {
        Seq::empty()
    } else {
        all_matches(sigs, cfg, lists, (k - 1) as nat) + bucket_matches(
            sigs,
            cfg,
            lists[k - 1],
            lists[k - 1].len(),
        )
    }
}

/// A group in the making: the indices of its members, the representative first.
pub struct Cluster {
    pub members: Seq<usize>,
    pub kind: SimilarityKind,
}

/// Groups in the making, with the group of each signature.
pub struct Clustering {
    pub owner: Seq<Option<int>>,
    pub clusters: Seq<Cluster>,
}

/// Whether a group with representative `rep` takes in a newcomer that matched its member
/// `known`: the representative matched it itself, or matches it with a score that the tolerance
/// allows.
pub open spec fn admits(
    sigs: Seq<VideoSignature>,
    cfg: CompareConfig,
    rep: usize,
    known: usize,
    newcomer: usize,
) -> bool {
    ||| rep == known
    ||| (pair::pair_match(sigs[rep as int], sigs[newcomer as int], cfg) matches Some(found)
        && pair::reaches(found, cfg.tolerance))
}

/// A group with one more member.
pub open spec fn joined(state: Clustering, g: int, newcomer: usize) -> Clustering {
    let cluster = state.clusters[g];
    Clustering {
        owner: state.owner.update(newcomer as int, Some(g)),
        clusters: state.clusters.update(
            g,
            Cluster { members: cluster.members.push(newcomer), kind: cluster.kind },
        ),
    }
}

/// What one match does to the groups. Two signatures without a group form one; a signature
/// without a group joins that of the other if it is admitted; two groups are never merged.
pub open spec fn cluster_step(
    sigs: Seq<VideoSignature>,
    cfg: CompareConfig,
    state: Clustering,
    found: (usize, usize, SimilarityKind),
) -> Clustering {
    let (ia, ib, kind) = found;
    match (state.owner[ia as int], state.owner[ib as int]) {
        (None, None) => {
            let g = state.clusters.len() as int;
            Clustering {
                owner: state.owner.update(ia as int, Some(g)).update(ib as int, Some(g)),
                clusters: state.clusters.push(Cluster { members: seq![ia, ib], kind }),
            }
        },
        (Some(g), None) => if admits(sigs, cfg, state.clusters[g].members[0], ia, ib) {
            joined(state, g, ib)
        } else {
            state
        },
        (None, Some(g)) => if admits(sigs, cfg, state.clusters[g].members[0], ib, ia) {
            joined(state, g, ia)
        } else {
            state
        },
        (Some(_), Some(_)) => state,
    }
}

/// The groups after the first `k` matches.
pub open spec fn cluster_matches(
    sigs: Seq<VideoSignature>,
    cfg: CompareConfig,
    matches: Seq<(usize, usize, SimilarityKind)>,
    k: nat,
) -> Clustering
    decreases k,
{
    if k == 0 {
        Clustering {
            owner: Seq::new(sigs.len(), |i: int| None),
            clusters: Seq::empty(),
        }
    } else {
        cluster_step(sigs, cfg, cluster_matches(sigs, cfg, matches, (k - 1) as nat), matches[k - 1])
    }
}

/// The matches of a list of signatures, bucket by bucket.
pub open spec fn found_matches(sigs: Seq<VideoSignature>, cfg: CompareConfig) -> Seq<
    (usize, usize, SimilarityKind),
> {
    let lists = buckets::duration_buckets(sigs, cfg.duration_tolerance_pct);
    all_matches(sigs, cfg, lists, lists.len())
}

/// The groups of similar signatures, as lists of indices.
pub open spec fn similar_clusters(sigs: Seq<VideoSignature>, cfg: CompareConfig) -> Seq<Cluster> {
    let matches = found_matches(sigs, cfg);
    cluster_matches(sigs, cfg, matches, matches.len()).clusters
}

/// Whether a group lists the files of a cluster, each spelled as in its signature.
pub open spec fn shows(group: SimilarGroup, cluster: Cluster, sigs: Seq<VideoSignature>) -> bool {
    &&& group.kind == cluster.kind
    &&& group.files@.len() == cluster.members.len()
    &&& forall|p: int|
        0 <= p < cluster.members.len() ==> paths::path_parts(#[trigger] group.files@[p])
            == paths::path_parts(sigs[cluster.members[p] as int].path) && paths::path_text(
            group.files@[p],
        ) == paths::path_text(sigs[cluster.members[p] as int].path)
}

/// Whether the indices of matches are those of signatures.
pub open spec fn in_range(matches: Seq<(usize, usize, SimilarityKind)>, n: nat) -> bool {
    forall|k: int|
        0 <= k < matches.len() ==> (#[trigger] matches[k]).0 < n && matches[k].1 < n
}

/// The groups in the making that a list of index lists stands for.
pub open spec fn clusters_of(groups: Seq<(Vec<usize>, SimilarityKind)>) -> Seq<Cluster> {
    groups.map_values(
        |group: (Vec<usize>, SimilarityKind)| Cluster { members: group.0@, kind: group.1 },
    )
}

/// The owners that a list of group numbers stands for.
pub open spec fn owners_of(owner: Seq<Option<usize>>) -> Seq<Option<int>> {
    owner.map_values(
        |o: Option<usize>|
            match o {
                Some(g) => Some(g as int),
                None => None,
            },
    )
}

/// Whether every group is non-empty and lists signatures, and every owner is a group.
pub open spec fn well_placed(state: Clustering, n: nat) -> bool {
    &&& state.owner.len() == n
    &&& forall|i: int|
        0 <= i < n ==> (#[trigger] state.owner[i] matches Some(g) ==> 0 <= g
            < state.clusters.len())
    &&& forall|g: int|
        0 <= g < state.clusters.len() ==> (#[trigger] state.clusters[g]).members.len() >= 2
    &&& forall|g: int, p: int|
        0 <= g < state.clusters.len() && 0 <= p < state.clusters[g].members.len() ==> (
        #[trigger] state.clusters[g].members[p]) < n
}

/// Compares the signatures of one bucket with one another.
fn compare_bucket(sigs: &[VideoSignature], bucket: &Vec<usize>, cfg: &CompareConfig) -> (matches:
    Vec<(usize, usize, SimilarityKind)>)
    requires
        forall|p: int| 0 <= p < bucket@.len() ==> #[trigger] bucket@[p] < sigs@.len(),
    ensures
        matches@ == bucket_matches(sigs@, *cfg, bucket@, bucket@.len()),
        in_range(matches@, sigs@.len()),
{
    let mut matches: Vec<(usize, usize, SimilarityKind)> = Vec::new();
    let mut i: usize = 0;
    while i < bucket.len()
        invariant
            i <= bucket@.len(),
            forall|p: int| 0 <= p < bucket@.len() ==> #[trigger] bucket@[p] < sigs@.len(),
            matches@ == bucket_matches(sigs@, *cfg, bucket@, i as nat),
            in_range(matches@, sigs@.len()),
        decreases bucket@.len() - i,
    {
        let ia: usize = bucket[i];
        let ghost before = matches@;
        let mut j: usize = i + 1;
        assert(matches@ =~= before + matches_of(sigs@, *cfg, bucket@, i as int, j as int));
        while j < bucket.len()
            invariant
                i < j <= bucket@.len(),
                ia == bucket@[i as int],
                forall|p: int| 0 <= p < bucket@.len() ==> #[trigger] bucket@[p] < sigs@.len(),
                matches@ == before + matches_of(sigs@, *cfg, bucket@, i as int, j as int),
                in_range(matches@, sigs@.len()),
            decreases bucket@.len() - j,
        {
            let ib: usize = bucket[j];
            let result = compare_pair(&sigs[ia], &sigs[ib], cfg);
            if let Some(found) = result {
                matches.push((ia, ib, found.kind));
            }
            assert(matches@ =~= before + matches_of(sigs@, *cfg, bucket@, i as int, j + 1));
            j = j + 1;
        }
        i = i + 1;
    }
    matches
}

/// Whether a group takes in a newcomer that matched its member `known`.
fn accepts(
    sigs: &[VideoSignature],
    cfg: &CompareConfig,
    rep: usize,
    known: usize,
    newcomer: usize,
) -> (accepted: bool)
    requires
        rep < sigs@.len(),
        newcomer < sigs@.len(),
    ensures
        accepted == admits(sigs@, *cfg, rep, known, newcomer),
{
    if rep == known {
        return true;
    }
    match compare_pair(&sigs[rep], &sigs[newcomer], cfg) {
        Some(found) => found.reaches(cfg.tolerance),
        None => false,
    }
}

/// Forms groups out of matches.
fn cluster(
    sigs: &[VideoSignature],
    matches: &Vec<(usize, usize, SimilarityKind)>,
    cfg: &CompareConfig,
) -> (groups: Vec<(Vec<usize>, SimilarityKind)>)
    requires
        in_range(matches@, sigs@.len()),
    ensures
        clusters_of(groups@) == cluster_matches(sigs@, *cfg, matches@, matches@.len()).clusters,
        forall|g: int, p: int|
            0 <= g < groups@.len() && 0 <= p < groups@[g].0@.len() ==> (#[trigger] groups@[g].0@[p])
                < sigs@.len(),
{
    let mut owner: Vec<Option<usize>> = Vec::new();
    let mut i: usize = 0;
    while i < sigs.len()
        invariant
            i <= sigs@.len(),
            owner@ =~= Seq::new(i as nat, |k: int| None::<usize>),
        decreases sigs@.len() - i,
    {
        owner.push(None);
        i = i + 1;
    }
    let mut groups: Vec<(Vec<usize>, SimilarityKind)> = Vec::new();
    let mut k: usize = 0;
    proof {
        let start = cluster_matches(sigs@, *cfg, matches@, 0);
        assert(owners_of(owner@) =~= start.owner);
        assert(clusters_of(groups@) =~= start.clusters);
    }
    while k < matches.len()
        invariant
            k <= matches@.len(),
            in_range(matches@, sigs@.len()),
            owners_of(owner@) == cluster_matches(sigs@, *cfg, matches@, k as nat).owner,
            clusters_of(groups@) == cluster_matches(sigs@, *cfg, matches@, k as nat).clusters,
            well_placed(cluster_matches(sigs@, *cfg, matches@, k as nat), sigs@.len()),
        decreases matches@.len() - k,
    {
        let ghost state = cluster_matches(sigs@, *cfg, matches@, k as nat);
        let ghost next = cluster_matches(sigs@, *cfg, matches@, (k + 1) as nat);
        let (ia, ib, kind) = matches[k];
        proof {
            assert(next == cluster_step(sigs@, *cfg, state, matches@[k as int]));
        }
        let ga = owner[ia];
        let gb = owner[ib];
        proof {
            assert(state.owner[ia as int] == owners_of(owner@)[ia as int]);
            assert(state.owner[ib as int] == owners_of(owner@)[ib as int]);
        }
        match (ga, gb) {
            (None, None) => {
                let g: usize = groups.len();
                owner.set(ia, Some(g));
                owner.set(ib, Some(g));
                let mut members: Vec<usize> = Vec::new();
                members.push(ia);
                members.push(ib);
                groups.push((members, kind));
                proof {
                    assert(members@ =~= seq![ia, ib]);
                    assert(clusters_of(groups@) =~= next.clusters);
                    assert(owners_of(owner@) =~= next.owner);
                }
            },
            (Some(g), None) => {
                let rep: usize = groups[g].0[0];
                if accepts(sigs, cfg, rep, ia, ib) {
                    owner.set(ib, Some(g));
                    groups[g].0.push(ib);
                }
                assert(clusters_of(groups@) =~= next.clusters);
                assert(owners_of(owner@) =~= next.owner);
            },
            (None, Some(g)) => {
                let rep: usize = groups[g].0[0];
                if accepts(sigs, cfg, rep, ib, ia) {
                    owner.set(ia, Some(g));
                    groups[g].0.push(ia);
                }
                assert(clusters_of(groups@) =~= next.clusters);
                assert(owners_of(owner@) =~= next.owner);
            },
            (Some(_), Some(_)) => {},
        }
        k = k + 1;
    }
    assert forall|g: int, p: int|
        0 <= g < groups@.len() && 0 <= p < groups@[g].0@.len() implies (
    #[trigger] groups@[g].0@[p]) < sigs@.len() by {
        assert(clusters_of(groups@)[g].members[p] == groups@[g].0@[p]);
    }
    groups
}

/// Forms groups of similar files out of matches.
pub fn cluster_into_groups(
    sigs: &[VideoSignature],
    matches: &Vec<(usize, usize, SimilarityKind)>,
    cfg: &CompareConfig,
) -> (groups: Vec<SimilarGroup>)
    requires
        in_range(matches@, sigs@.len()),
    ensures
        groups@.len() == cluster_matches(sigs@, *cfg, matches@, matches@.len()).clusters.len(),
        forall|g: int|
            0 <= g < groups@.len() ==> shows(
                #[trigger] groups@[g],
                cluster_matches(sigs@, *cfg, matches@, matches@.len()).clusters[g],
                sigs@,
            ),
{
    let found = cluster(sigs, matches, cfg);
    let ghost clusters = cluster_matches(sigs@, *cfg, matches@, matches@.len()).clusters;
    let mut groups: Vec<SimilarGroup> = Vec::new();
    let mut g: usize = 0;
    while g < found.len()
        invariant
            g <= found@.len(),
            groups@.len() == g,
            clusters == clusters_of(found@),
            forall|h: int, p: int|
                0 <= h < found@.len() && 0 <= p < found@[h].0@.len() ==> (
                #[trigger] found@[h].0@[p]) < sigs@.len(),
            forall|h: int| 0 <= h < g ==> shows(#[trigger] groups@[h], clusters[h], sigs@),
        decreases found@.len() - g,
    {
        let members = &found[g].0;
        let mut files: Vec<PathBuf> = Vec::new();
        let mut p: usize = 0;
        while p < members.len()
            invariant
                p <= members@.len(),
                g < found@.len(),
                members@ == found@[g as int].0@,
                files@.len() == p,
                forall|h: int, q: int|
                    0 <= h < found@.len() && 0 <= q < found@[h].0@.len() ==> (
                    #[trigger] found@[h].0@[q]) < sigs@.len(),
                forall|q: int|
                    0 <= q < p ==> paths::path_parts(#[trigger] files@[q]) == paths::path_parts(
                        sigs@[members@[q] as int].path,
                    ) && paths::path_text(files@[q]) == paths::path_text(
                        sigs@[members@[q] as int].path,
                    ),
            decreases members@.len() - p,
        {
            assert(found@[g as int].0@[p as int] < sigs@.len());
            files.push(sigs[members[p]].path.clone());
            p = p + 1;
        }
        let kind = found[g].1;
        groups.push(SimilarGroup { files, kind });
        assert(shows(groups@[g as int], clusters[g as int], sigs@));
        g = g + 1;
    }
    groups
}

/// Compares all signatures with those of a close duration, and returns the groups of similar
/// files.
pub fn find_similar(sigs: &[VideoSignature], cfg: &CompareConfig) -> (groups: Vec<SimilarGroup>)
    ensures
        groups@.len() == similar_clusters(sigs@, *cfg).len(),
        forall|g: int|
            0 <= g < groups@.len() ==> shows(
                #[trigger] groups@[g],
                similar_clusters(sigs@, *cfg)[g],
                sigs@,
            ),
{
    let lists = build_duration_buckets(sigs, cfg.duration_tolerance_pct);
    let ghost all = buckets::index_lists(lists@);
    let mut matches: Vec<(usize, usize, SimilarityKind)> = Vec::new();
    let mut k: usize = 0;
    while k < lists.len()
        invariant
            k <= lists@.len(),
            all == buckets::index_lists(lists@),
            forall|h: int, p: int|
                0 <= h < lists@.len() && 0 <= p < lists@[h]@.len() ==> (#[trigger] lists@[h]@[p])
                    < sigs@.len(),
            matches@ == all_matches(sigs@, *cfg, all, k as nat),
            in_range(matches@, sigs@.len()),
        decreases lists@.len() - k,
    {
        let bucket = &lists[k];
        assert(all[k as int] == bucket@);
        assert forall|p: int| 0 <= p < bucket@.len() implies #[trigger] bucket@[p]
            < sigs@.len() by {
            assert(lists@[k as int]@[p] < sigs@.len());
        }
        let mut found = compare_bucket(sigs, bucket, cfg);
        let ghost before = matches@;
        let ghost more = found@;
        matches.append(&mut found);
        assert(matches@ =~= before + more);
        k = k + 1;
    }
    cluster_into_groups(sigs, &matches, cfg)
}

} // verus!
