//! The hierarchical strategy for corpora too large for a row-by-corpus matrix:
//! blocks clustered on their own and folded into a running partition, then a
//! single pass that attaches leftover documents, then a separation check.
use vstd::prelude::*;
use crate::community::{group_of, groups, Clusters, Community, Group};
use crate::config::{ClusterError, Config};
use crate::merge::{
    centroid_ids, centroids, clustered_document_indexes, get_embeddings, merge_clusters, merge_spec, pick_rows,
};
use crate::partition::{claimed, lemma_claimed};
use crate::strategy::{
    block_end, cluster_no_splitting_view, full_candidates, good_group, partition_of,
    valid_partition, vectors_to_array,
};
use crate::vector_space::{dot, dot_prefix, dot_product, rectangular, rows_view, Embedding};

verus! {

broadcast use vstd::std_specs::hash::group_hash_axioms;

/// Position, among the first `k` clusters of `r`, of the centroid most similar to
/// document `d`; the first such position on ties.
pub open spec fn nearest(c: Seq<Seq<i32>>, r: Seq<Group>, d: int, k: nat) -> int
    decreases k,
{
    if k <= 1 {
        0
    } else {
        let b = nearest(c, r, d, (k - 1) as nat);
        if dot(c[d], c[r[k - 1].0 as int]) > dot(c[d], c[r[b].0 as int]) {
            k - 1
        } else {
            b
        }
    }
}

/// The partition `r0` after the leftover documents among `0..d` have been attached:
/// a document that no cluster of `r0` holds joins the cluster with the most similar
/// centroid when that similarity is strictly above `t`.
pub open spec fn assign_prefix(c: Seq<Seq<i32>>, r0: Seq<Group>, d: nat, t: int) -> Seq<Group>
    decreases d,
{
    if d == 0 {
        r0
    } else {
        let r = assign_prefix(c, r0, (d - 1) as nat, t);
        let x = (d - 1) as usize;
        if claimed(r0).contains(x) || r0.len() == 0 {
            r
        } else {
            let b = nearest(c, r0, d - 1, r0.len());
            if dot(c[d - 1], c[r0[b].0 as int]) > t {
                r.update(b, (r[b].0, r[b].1.push(x)))
            } else {
                r
            }
        }
    }
}

/// The partition `r` with every leftover document of the corpus attached.
pub open spec fn with_stragglers(c: Seq<Seq<i32>>, r: Seq<Group>, t: int) -> Seq<Group> {
    assign_prefix(c, r, c.len(), t)
}

/// No two different clusters have centroids more similar than `t`.
pub open spec fn separated(c: Seq<Seq<i32>>, r: Seq<Group>, t: int) -> bool {
    forall|i: int, j: int|
        0 <= i < r.len() && 0 <= j < r.len() && i != j ==> dot(
            c[#[trigger] r[i].0 as int],
            c[#[trigger] r[j].0 as int],
        ) <= t
}

/// `e` reports two different clusters of `r` whose centroids are more similar than `t`,
/// with that similarity.
pub open spec fn reports_close_pair(c: Seq<Seq<i32>>, r: Seq<Group>, t: int, e: ClusterError) -> bool {
    exists|i: int, j: int|
        0 <= i < r.len() && 0 <= j < r.len() && i != j && e == (ClusterError::InvariantViolation {
            first: r[i].0,
            second: r[j].0,
            score: dot(c[r[i].0 as int], c[r[j].0 as int]) as i128,
        }) && dot(c[r[i].0 as int], c[r[j].0 as int]) > t
}

/// The running partition after folding in the blocks from row `lo` on; each block of
/// at most `b` rows is clustered on its own.
pub open spec fn massive_from(
    c: Seq<Seq<i32>>,
    b: int,
    lo: int,
    acc: Seq<Group>,
    t: int,
    min: nat,
) -> Seq<Group>
    decreases c.len() - lo,
{
    if lo >= c.len() || lo < 0 || b <= 0 {
        acc
    } else {
        let hi = block_end(c.len() as int, b, lo);
        let local = partition_of(full_candidates(c.subrange(lo, hi), lo, t, min));
        massive_from(c, b, hi, merge_spec(acc, local, c, t, min), t, min)
    }
}

/// The partition that the hierarchical strategy produces before its separation check.
pub open spec fn massive_partition(c: Seq<Seq<i32>>, b: int, t: int, min: nat) -> Seq<Group> {
    with_stragglers(c, massive_from(c, b, 0, Seq::empty(), t, min), t)
}

proof fn lemma_dot_symmetric(a: Seq<i32>, b: Seq<i32>, k: nat)
    requires
        k <= a.len(),
        k <= b.len(),
    ensures
        dot_prefix(a, b, k) == dot_prefix(b, a, k),
    decreases k,
{
    if k > 0 {
        lemma_dot_symmetric(a, b, (k - 1) as nat);
        assert(a[k - 1] * b[k - 1] == b[k - 1] * a[k - 1]) by (nonlinear_arith);
    }
}

proof fn lemma_nearest_range(c: Seq<Seq<i32>>, r: Seq<Group>, d: int, k: nat)
    requires
        k >= 1,
    ensures
        0 <= nearest(c, r, d, k) < k,
    decreases k,
{
    if k > 1 {
        lemma_nearest_range(c, r, d, (k - 1) as nat);
    }
}

/// Attaching leftover documents keeps a valid partition valid; every member is either
/// held by the partition before the pass or an attached document below `d`.
proof fn lemma_assign_prefix(c: Seq<Seq<i32>>, r0: Seq<Group>, d: nat, t: int, min: nat)
    requires
        rectangular(c),
        d <= c.len() <= usize::MAX,
        valid_partition(c, 0, t, min, r0),
    ensures
        valid_partition(c, 0, t, min, assign_prefix(c, r0, d, t)),
        assign_prefix(c, r0, d, t).len() == r0.len(),
        forall|k: int|
            0 <= k < r0.len() ==> (#[trigger] assign_prefix(c, r0, d, t)[k]).0 == r0[k].0,
        forall|k: int, a: int|
            0 <= k < r0.len() && 0 <= a < assign_prefix(c, r0, d, t)[k].1.len() ==> {
                let x = #[trigger] assign_prefix(c, r0, d, t)[k].1[a];
                x < d || claimed(r0).contains(x)
            },
    decreases d,
{
    let r = assign_prefix(c, r0, d, t);
    if d == 0 {
        assert forall|k: int, a: int| 0 <= k < r0.len() && 0 <= a < r[k].1.len() implies {
            let x = #[trigger] r[k].1[a];
            x < d || claimed(r0).contains(x)
        } by {
            lemma_claimed(r0, r0[k].1[a]);
        }
    } else {
        let d1 = (d - 1) as nat;
        lemma_assign_prefix(c, r0, d1, t, min);
        let p = assign_prefix(c, r0, d1, t);
        let x = d1 as usize;
        if !(claimed(r0).contains(x) || r0.len() == 0) {
            let b = nearest(c, r0, d1 as int, r0.len());
            lemma_nearest_range(c, r0, d1 as int, r0.len());
            if dot(c[d1 as int], c[r0[b].0 as int]) > t {
                let nb: Group = (p[b].0, p[b].1.push(x));
                assert(r == p.update(b, nb));
                assert forall|k: int, a: int| 0 <= k < p.len() && 0 <= a < p[k].1.len() implies #[trigger] p[k].1[a]
                    != x by {
                    let y = p[k].1[a];
                    assert(y < d1 || claimed(r0).contains(y));
                }
                assert(good_group(c, 0, t, min, p[b]));
                assert(good_group(c, 0, t, min, nb)) by {
                    assert(c[x as int].len() == c[0].len() && c[r0[b].0 as int].len() == c[0].len());
                    lemma_dot_symmetric(c[x as int], c[r0[b].0 as int], c[0].len());
                    assert forall|a: int| 0 <= a < nb.1.len() implies 0 <= #[trigger] nb.1[a] - 0 < c.len()
                        && dot(c[nb.0 - 0], c[nb.1[a] - 0]) > t by {
                        if a < p[b].1.len() {
                            assert(nb.1[a] == p[b].1[a]);
                        }
                    }
                    assert forall|a1: int, a2: int| 0 <= a1 < nb.1.len() && 0 <= a2 < nb.1.len() && a1
                        != a2 implies nb.1[a1] != nb.1[a2] by {
                        if a1 < p[b].1.len() && a2 < p[b].1.len() {
                            assert(nb.1[a1] == p[b].1[a1] && nb.1[a2] == p[b].1[a2]);
                        } else if a1 < p[b].1.len() {
                            assert(nb.1[a1] == p[b].1[a1]);
                        } else {
                            assert(nb.1[a2] == p[b].1[a2]);
                        }
                    }
                }
                assert forall|i: int| 0 <= i < r.len() implies good_group(c, 0, t, min, #[trigger] r[i]) by {
                    if i != b {
                        assert(r[i] == p[i]);
                    }
                }
                assert forall|i: int, j: int, a1: int, a2: int|
                    0 <= i < r.len() && 0 <= j < r.len() && i != j && 0 <= a1 < r[i].1.len() && 0 <= a2
                        < r[j].1.len() implies #[trigger] r[i].1[a1] != #[trigger] r[j].1[a2] by {
                    if i == b {
                        assert(r[j] == p[j]);
                        if a1 < p[b].1.len() {
                            assert(r[i].1[a1] == p[i].1[a1]);
                        } else {
                            assert(p[j].1[a2] != x);
                        }
                    } else if j == b {
                        assert(r[i] == p[i]);
                        if a2 < p[b].1.len() {
                            assert(r[j].1[a2] == p[j].1[a2]);
                        } else {
                            assert(p[i].1[a1] != x);
                        }
                    } else {
                        assert(r[i] == p[i] && r[j] == p[j]);
                    }
                }
                assert forall|k: int, a: int| 0 <= k < r0.len() && 0 <= a < r[k].1.len() implies {
                    let y = #[trigger] r[k].1[a];
                    y < d || claimed(r0).contains(y)
                } by {
                    if k != b {
                        assert(r[k] == p[k]);
                    } else if a < p[b].1.len() {
                        assert(r[k].1[a] == p[k].1[a]);
                    }
                }
            }
        }
    }
}

/// Blocks clustered on their own are valid partitions of the whole corpus.
proof fn lemma_local_valid(c: Seq<Seq<i32>>, lo: int, hi: int, t: int, min: nat, r: Seq<Group>)
    requires
        0 <= lo <= hi <= c.len(),
        valid_partition(c.subrange(lo, hi), lo, t, min, r),
    ensures
        valid_partition(c, 0, t, min, r),
{
    let sub = c.subrange(lo, hi);
    assert forall|i: int| 0 <= i < r.len() implies good_group(c, 0, t, min, #[trigger] r[i]) by {
        let g = r[i];
        assert(good_group(sub, lo, t, min, g));
        assert(sub[g.0 - lo] == c[g.0 as int]);
        assert forall|a: int| 0 <= a < g.1.len() implies 0 <= #[trigger] g.1[a] - 0 < c.len() && dot(
            c[g.0 - 0],
            c[g.1[a] - 0],
        ) > t by {
            assert(sub[g.1[a] - lo] == c[g.1[a] as int]);
        }
    }
}

/// Attaches every document that no cluster holds to the cluster with the most similar
/// centroid, when that similarity is strictly above the threshold. Centroid similarities
/// are taken against the clusters as they were before the pass.
pub fn assign_stragglers(clusters: &mut Clusters, embeddings: &Vec<Embedding>, config: &Config)
    requires
        rectangular(rows_view(embeddings@)),
        valid_partition(
            rows_view(embeddings@),
            0,
            config.min_similarity as int,
            config.min_cluster_size as nat,
            groups(old(clusters)@),
        ),
    ensures
        groups(final(clusters)@) == with_stragglers(
            rows_view(embeddings@),
            groups(old(clusters)@),
            config.min_similarity as int,
        ),
        valid_partition(
            rows_view(embeddings@),
            0,
            config.min_similarity as int,
            config.min_cluster_size as nat,
            groups(final(clusters)@),
        ),
{
    let ghost c = rows_view(embeddings@);
    let ghost t = config.min_similarity as int;
    let ghost min = config.min_cluster_size as nat;
    let ghost r0 = groups(clusters@);
    let n = embeddings.len();
    proof {
        lemma_assign_prefix(c, r0, c.len(), t, min);
        assert forall|i: int| 0 <= i < r0.len() implies (#[trigger] centroid_ids(r0)[i]) < c.len() by {
            assert(good_group(c, 0, t, min, r0[i]));
        }
    }
    let seen = clustered_document_indexes(clusters);
    let cents = centroids(clusters);
    let cluster_embeddings = get_embeddings(&cents, embeddings);
    let k = clusters.len();
    assert(rows_view(cluster_embeddings@).len() == cluster_embeddings@.len());
    let mut d: usize = 0;
    while d < n
        invariant
            c == rows_view(embeddings@),
            rectangular(c),
            n == c.len() == embeddings@.len(),
            d <= n,
            k == r0.len() == cluster_embeddings@.len(),
            seen@ == claimed(r0),
            rows_view(cluster_embeddings@) == pick_rows(c, centroid_ids(r0)),
            cents@ == centroid_ids(r0),
            forall|i: int| 0 <= i < r0.len() ==> (#[trigger] centroid_ids(r0)[i]) < c.len(),
            groups(clusters@) == assign_prefix(c, r0, d as nat, t),
            groups(clusters@).len() == r0.len(),
            t == config.min_similarity as int,
        decreases n - d,
    {
        if !seen.contains(&d) && k > 0 {
            assert(rows_view(cluster_embeddings@)[0] == cluster_embeddings@[0]@);
            assert(c[d as int].len() == c[0].len() && c[cents@[0] as int].len() == c[0].len());
            let mut best: usize = 0;
            let mut best_score = dot_product(&embeddings[d], &cluster_embeddings[0]);
            let mut j: usize = 1;
            while j < k
                invariant
                    c == rows_view(embeddings@),
                    rectangular(c),
                    n == c.len() == embeddings@.len(),
                    d < n,
                    1 <= j <= k == r0.len() == cluster_embeddings@.len(),
                    rows_view(cluster_embeddings@) == pick_rows(c, centroid_ids(r0)),
                    forall|i: int| 0 <= i < r0.len() ==> (#[trigger] centroid_ids(r0)[i]) < c.len(),
                    best == nearest(c, r0, d as int, j as nat),
                    best < j,
                    best_score == dot(c[d as int], c[r0[best as int].0 as int]),
                decreases k - j,
            {
                assert(rows_view(cluster_embeddings@)[j as int] == cluster_embeddings@[j as int]@);
                assert(centroid_ids(r0)[j as int] == r0[j as int].0);
                assert(c[d as int].len() == c[0].len() && c[r0[j as int].0 as int].len() == c[0].len());
                let s = dot_product(&embeddings[d], &cluster_embeddings[j]);
                if s > best_score {
                    best = j;
                    best_score = s;
                }
                j = j + 1;
            }
            assert(centroid_ids(r0)[0] == r0[0].0);
            if best_score > config.min_similarity as i128 {
                let ghost before = groups(clusters@);
                let mut entry: Community = (0, Vec::new());
                clusters.set_and_swap(best, &mut entry);
                entry.1.push(d);
                let ghost ne = group_of(entry);
                clusters.set(best, entry);
                assert(groups(clusters@) =~= before.update(best as int, ne));
            }
        }
        d = d + 1;
    }
}

/// Checks that no two different clusters have centroids more similar than the threshold;
/// a pair that is too close is reported as an invariant violation.
pub fn check_separation(clusters: &Clusters, embeddings: &Vec<Embedding>, config: &Config) -> (r: Result<
    (),
    ClusterError,
>)
    requires
        rectangular(rows_view(embeddings@)),
        forall|i: int| 0 <= i < clusters@.len() ==> (#[trigger] clusters@[i]).0 < embeddings@.len(),
    ensures
        r.is_ok() <==> separated(
            rows_view(embeddings@),
            groups(clusters@),
            config.min_similarity as int,
        ),
        r.is_err() ==> (exists|i: int, j: int|
            0 <= i < clusters@.len() && 0 <= j < clusters@.len() && i != j && r == Err::<
                (),
                ClusterError,
            >(
                (ClusterError::InvariantViolation {
                    first: clusters@[i].0,
                    second: clusters@[j].0,
                    score: dot(
                        rows_view(embeddings@)[clusters@[i].0 as int],
                        rows_view(embeddings@)[clusters@[j].0 as int],
                    ) as i128,
                }),
            ) && dot(
                rows_view(embeddings@)[clusters@[i].0 as int],
                rows_view(embeddings@)[clusters@[j].0 as int],
            ) > config.min_similarity),
{
    let ghost c = rows_view(embeddings@);
    let ghost g = groups(clusters@);
    let mut i: usize = 0;
    while i < clusters.len()
        invariant
            c == rows_view(embeddings@),
            rectangular(c),
            g == groups(clusters@),
            i <= clusters@.len(),
            forall|x: int| 0 <= x < clusters@.len() ==> (#[trigger] clusters@[x]).0 < embeddings@.len(),
            forall|x: int, y: int|
                0 <= x < i && 0 <= y < g.len() && x != y ==> dot(
                    c[#[trigger] g[x].0 as int],
                    c[#[trigger] g[y].0 as int],
                ) <= config.min_similarity,
        decreases clusters@.len() - i,
    {
        let mut j: usize = 0;
        while j < clusters.len()
            invariant
                c == rows_view(embeddings@),
                rectangular(c),
                g == groups(clusters@),
                i < clusters@.len(),
                j <= clusters@.len(),
                forall|x: int| 0 <= x < clusters@.len() ==> (#[trigger] clusters@[x]).0 < embeddings@.len(),
                forall|x: int, y: int|
                    0 <= x < i && 0 <= y < g.len() && x != y ==> dot(
                        c[#[trigger] g[x].0 as int],
                        c[#[trigger] g[y].0 as int],
                    ) <= config.min_similarity,
                forall|y: int|
                    0 <= y < j && i != y ==> dot(c[g[i as int].0 as int], c[#[trigger] g[y].0 as int])
                        <= config.min_similarity,
            decreases clusters@.len() - j,
        {
            if i != j {
                let a = clusters[i].0;
                let b = clusters[j].0;
                assert(c[a as int].len() == c[0].len() && c[b as int].len() == c[0].len());
                let score = dot_product(&embeddings[a], &embeddings[b]);
                if score > config.min_similarity as i128 {
                    assert(g[i as int].0 == a && g[j as int].0 == b);
                    assert(clusters@[i as int].0 == a && clusters@[j as int].0 == b);
                    assert(score == dot(c[a as int], c[b as int]) as i128);
                    assert(!separated(c, g, config.min_similarity as int));
                    return Err(ClusterError::InvariantViolation { first: a, second: b, score });
                }
            }
            j = j + 1;
        }
        i = i + 1;
    }
    Ok(())
}

/// Hierarchical strategy: each block of `config.chunk_size` rows is clustered on its own
/// and merged into the running partition; leftover documents are then attached to the
/// nearest centroid, and the centroids are checked to be pairwise separated.
pub fn cluster_massive(embeddings: Vec<Embedding>, config: &Config) -> (r: Result<
    Clusters,
    ClusterError,
>)
    ensures
        !config.wf() ==> r == Err::<Clusters, ClusterError>(ClusterError::Configuration),
        config.wf() ==> (r == Err::<Clusters, ClusterError>(ClusterError::InputShape) <==> !rectangular(
            rows_view(embeddings@),
        )),
        config.wf() && rectangular(rows_view(embeddings@)) ==> (r.is_ok() <==> separated(
            rows_view(embeddings@),
            massive_partition(
                rows_view(embeddings@),
                config.chunk_size as int,
                config.min_similarity as int,
                config.min_cluster_size as nat,
            ),
            config.min_similarity as int,
        )),
        match r {
            Ok(cs) => groups(cs@) == massive_partition(
                rows_view(embeddings@),
                config.chunk_size as int,
                config.min_similarity as int,
                config.min_cluster_size as nat,
            ) && valid_partition(
                rows_view(embeddings@),
                0,
                config.min_similarity as int,
                config.min_cluster_size as nat,
                groups(cs@),
            ),
            Err(e) => e == ClusterError::Configuration || e == ClusterError::InputShape || (e is InvariantViolation),
        },
        config.wf() && rectangular(rows_view(embeddings@)) ==> (r matches Err(e) ==> reports_close_pair(
            rows_view(embeddings@),
            massive_partition(
                rows_view(embeddings@),
                config.chunk_size as int,
                config.min_similarity as int,
                config.min_cluster_size as nat,
            ),
            config.min_similarity as int,
            e,
        )),
{
    if !config.is_valid() {
        return Err(ClusterError::Configuration);
    }
    let e = match vectors_to_array(embeddings) {
        Ok(e) => e,
        Err(err) => {
            return Err(err);
        },
    };
    let ghost c = rows_view(e@);
    let ghost t = config.min_similarity as int;
    let ghost min = config.min_cluster_size as nat;
    let b = config.chunk_size;
    let n = e.len();
    let mut global: Clusters = Vec::new();
    let mut lo: usize = 0;
    while lo < n
        invariant
            c == rows_view(e@),
            rectangular(c),
            n == e@.len() == c.len(),
            lo <= n,
            b == config.chunk_size >= 1,
            massive_from(c, b as int, lo as int, groups(global@), t, min) == massive_from(
                c,
                b as int,
                0,
                Seq::empty(),
                t,
                min,
            ),
            valid_partition(c, 0, t, min, groups(global@)),
            t == config.min_similarity as int,
            min == config.min_cluster_size as nat,
        decreases n - lo,
    {
        let hi = if n - lo > b {
            lo + b
        } else {
            n
        };
        let local = cluster_no_splitting_view(&e, lo, hi, config);
        proof {
            lemma_local_valid(c, lo as int, hi as int, t, min, groups(local@));
        }
        global = merge_clusters(global, local, &e, config);
        lo = hi;
    }
    let ghost folded = groups(global@);
    assert(folded == massive_from(c, b as int, 0, Seq::empty(), t, min));
    assign_stragglers(&mut global, &e, config);
    proof {
        assert forall|i: int| 0 <= i < global@.len() implies (#[trigger] global@[i]).0 < e@.len() by {
            assert(good_group(c, 0, t, min, groups(global@)[i]));
        }
    }
    match check_separation(&global, &e, config) {
        Ok(()) => Ok(global),
        Err(err) => {
            proof {
                let g = groups(global@);
                let (i, j) = choose|i: int, j: int|
                    0 <= i < global@.len() && 0 <= j < global@.len() && i != j && Err::<(), ClusterError>(err)
                        == Err::<(), ClusterError>(
                        (ClusterError::InvariantViolation {
                            first: global@[i].0,
                            second: global@[j].0,
                            score: dot(c[global@[i].0 as int], c[global@[j].0 as int]) as i128,
                        }),
                    ) && dot(c[global@[i].0 as int], c[global@[j].0 as int]) > config.min_similarity;
                assert(g[i].0 == global@[i].0 && g[j].0 == global@[j].0);
                assert(reports_close_pair(c, g, t, err));
            }
            Err(err)
        },
    }
}

} // verus!
