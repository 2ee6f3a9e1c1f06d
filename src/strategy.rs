//! The whole-matrix, streaming and chunked-batch clustering strategies, and
//! why they agree.
use vstd::prelude::*;
use crate::community::{
    candidate, groups, lemma_above, over_threshold, push_clusters, score_rows, scores_candidates,
    shifted, similarity_window, window, Clusters, Group,
};
use crate::config::{ClusterError, Config};
use crate::partition::{
    by_size, dedupe, disjoint, lemma_by_size_from, lemma_dedupe, sort_by_size, unique_clusters,
};
use crate::vector_space::{dot, lemma_dot_bound, rectangular, rows_view, Embedding};

verus! {

/// Similarities of row `p` of a corpus against every row.
pub open spec fn row_scores(c: Seq<Seq<i32>>, p: int) -> Seq<i128> {
    Seq::new(c.len(), |j: int| dot(c[p], c[j]) as i128)
}

/// Candidates of rows `lo..hi` of a corpus; indices are reported moved by `off`.
pub open spec fn candidates(c: Seq<Seq<i32>>, lo: int, hi: int, off: int, t: int, min: nat) -> Seq<
    Group,
>
    decreases hi - lo,
{
    if hi <= lo {
        Seq::empty()
    } else {
        let prev = candidates(c, lo, hi - 1, off, t, min);
        match candidate(row_scores(c, hi - 1), hi - 1 + off, off, t, min) {
            Some(g) => prev.push(g),
            None => prev,
        }
    }
}

/// Candidates read off the whole `n x n` similarity matrix of the corpus.
pub open spec fn full_candidates(c: Seq<Seq<i32>>, off: int, t: int, min: nat) -> Seq<Group> {
    scores_candidates(window(c, 0, c.len() as int, 0, c.len() as int), c.len(), off, off, t, min)
}

/// Candidates read off one `1 x n` row of similarities at a time, from row `p` on.
pub open spec fn streamed_from(c: Seq<Seq<i32>>, p: int, t: int, min: nat) -> Seq<Group>
    decreases c.len() - p,
{
    if p >= c.len() || p < 0 {
        Seq::empty()
    } else {
        scores_candidates(window(c, p, p + 1, 0, c.len() as int), 1, p, 0, t, min) + streamed_from(
            c,
            p + 1,
            t,
            min,
        )
    }
}

/// End of the block of at most `b` rows that starts at `lo`.
pub open spec fn block_end(n: int, b: int, lo: int) -> int {
    if n - lo > b {
        lo + b
    } else {
        n
    }
}

/// Candidates read off one `b x n` block of similarities at a time, from row `lo` on.
pub open spec fn chunked_from(c: Seq<Seq<i32>>, b: int, lo: int, t: int, min: nat) -> Seq<Group>
    decreases c.len() - lo,
{
    if lo >= c.len() || lo < 0 || b <= 0 {
        Seq::empty()
    } else {
        let hi = block_end(c.len() as int, b, lo);
        scores_candidates(window(c, lo, hi, 0, c.len() as int), (hi - lo) as nat, lo, 0, t, min)
            + chunked_from(c, b, hi, t, min)
    }
}

/// The incremental variant: after each block, the candidates so far are ordered and
/// reduced again. `acc` is the partition before the block at `lo`.
pub open spec fn incremental_from(
    c: Seq<Seq<i32>>,
    b: int,
    lo: int,
    acc: Seq<Group>,
    t: int,
    min: nat,
) -> Seq<Group>
    decreases c.len() - lo,
{
    if lo >= c.len() || lo < 0 || b <= 0 {
        acc
    } else {
        let hi = block_end(c.len() as int, b, lo);
        let block = scores_candidates(
            window(c, lo, hi, 0, c.len() as int),
            (hi - lo) as nat,
            lo,
            0,
            t,
            min,
        );
        incremental_from(c, b, hi, dedupe(by_size(acc + block)), t, min)
    }
}

/// Candidates ordered by size and reduced to a disjoint partition. Candidates arrive in
/// row order and the ordering keeps ties in place, so among overlapping clusters of equal
/// size the one with the lowest centroid wins.
pub open spec fn partition_of(cands: Seq<Group>) -> Seq<Group> {
    dedupe(by_size(cands))
}

/// A cluster of a corpus whose indices are moved by `off`: centroid and members are
/// documents of the corpus, every member is strictly more similar to the centroid than
/// `t`, there are more than `min` members, and none is listed twice.
pub open spec fn good_group(c: Seq<Seq<i32>>, off: int, t: int, min: nat, g: Group) -> bool {
    &&& 0 <= g.0 - off < c.len()
    &&& g.1.len() > min
    &&& g.1.no_duplicates()
    &&& forall|a: int|
        0 <= a < g.1.len() ==> 0 <= #[trigger] g.1[a] - off < c.len() && dot(
            c[g.0 - off],
            c[g.1[a] - off],
        ) > t
}

/// Every cluster of `r` is a good cluster of the corpus.
pub open spec fn all_good(c: Seq<Seq<i32>>, off: int, t: int, min: nat, r: Seq<Group>) -> bool {
    forall|i: int| 0 <= i < r.len() ==> good_group(c, off, t, min, #[trigger] r[i])
}

/// The result of one of the strategies, as the library promises it: disjoint, and
/// every cluster good.
pub open spec fn valid_partition(c: Seq<Seq<i32>>, off: int, t: int, min: nat, r: Seq<Group>) -> bool {
    &&& disjoint(r)
    &&& all_good(c, off, t, min, r)
}

proof fn lemma_window_row(c: Seq<Seq<i32>>, ra: int, rb: int, k: int)
    requires
        0 <= ra <= ra + k < rb,
    ensures
        window(c, ra, rb, 0, c.len() as int)[k] =~= row_scores(c, ra + k),
{
}

/// Reading a window row by row gives the candidates of the corresponding corpus rows.
proof fn lemma_window_candidates(
    c: Seq<Seq<i32>>,
    a: int,
    bb: int,
    k: nat,
    off: int,
    t: int,
    min: nat,
)
    requires
        0 <= a <= a + k <= bb,
    ensures
        scores_candidates(window(c, a, bb, 0, c.len() as int), k, a + off, off, t, min)
            == candidates(c, a, a + k, off, t, min),
    decreases k,
{
    if k > 0 {
        lemma_window_candidates(c, a, bb, (k - 1) as nat, off, t, min);
        lemma_window_row(c, a, bb, k - 1);
    }
}

/// The candidates of a range of rows are those of its two halves, one after the other.
proof fn lemma_candidates_split(c: Seq<Seq<i32>>, lo: int, m: int, hi: int, off: int, t: int, min: nat)
    requires
        lo <= m <= hi,
    ensures
        candidates(c, lo, hi, off, t, min) == candidates(c, lo, m, off, t, min) + candidates(
            c,
            m,
            hi,
            off,
            t,
            min,
        ),
    decreases hi - m,
{
    if hi > m {
        lemma_candidates_split(c, lo, m, hi - 1, off, t, min);
        assert(candidates(c, lo, hi, off, t, min) =~= candidates(c, lo, m, off, t, min)
            + candidates(c, m, hi, off, t, min));
    } else {
        assert(candidates(c, lo, m, off, t, min) + candidates(c, m, hi, off, t, min)
            =~= candidates(c, lo, m, off, t, min));
    }
}

proof fn lemma_full(c: Seq<Seq<i32>>, off: int, t: int, min: nat)
    ensures
        full_candidates(c, off, t, min) == candidates(c, 0, c.len() as int, off, t, min),
{
    lemma_window_candidates(c, 0, c.len() as int, c.len(), off, t, min);
}

proof fn lemma_streamed(c: Seq<Seq<i32>>, p: int, t: int, min: nat)
    requires
        0 <= p <= c.len(),
    ensures
        streamed_from(c, p, t, min) == candidates(c, p, c.len() as int, 0, t, min),
    decreases c.len() - p,
{
    if p < c.len() {
        lemma_streamed(c, p + 1, t, min);
        lemma_window_candidates(c, p, p + 1, 1, 0, t, min);
        lemma_candidates_split(c, p, p + 1, c.len() as int, 0, t, min);
    } else {
        assert(candidates(c, p, c.len() as int, 0, t, min) =~= Seq::empty());
    }
}

proof fn lemma_chunked(c: Seq<Seq<i32>>, b: int, lo: int, t: int, min: nat)
    requires
        0 <= lo <= c.len(),
        b > 0,
    ensures
        chunked_from(c, b, lo, t, min) == candidates(c, lo, c.len() as int, 0, t, min),
    decreases c.len() - lo,
{
    if lo < c.len() {
        let hi = block_end(c.len() as int, b, lo);
        lemma_chunked(c, b, hi, t, min);
        lemma_window_candidates(c, lo, hi, (hi - lo) as nat, 0, t, min);
        lemma_candidates_split(c, lo, hi, c.len() as int, 0, t, min);
    } else {
        assert(candidates(c, lo, c.len() as int, 0, t, min) =~= Seq::empty());
    }
}

/// Rows of at most `usize::MAX` components: their similarities are exact as `i128`.
pub open spec fn bounded_rows(c: Seq<Seq<i32>>) -> bool {
    forall|i: int| 0 <= i < c.len() ==> #[trigger] c[i].len() <= usize::MAX
}

proof fn lemma_score_exact(c: Seq<Seq<i32>>, p: int, j: int)
    requires
        bounded_rows(c),
        0 <= p < c.len(),
        0 <= j < c.len(),
        c[p].len() == c[j].len(),
    ensures
        row_scores(c, p)[j] as int == dot(c[p], c[j]),
{
    lemma_dot_bound(c[p], c[j], c[p].len());
    assert(c[p].len() * 0x4000_0000_0000_0000 <= 0x3fff_ffff_ffff_ffffc000_0000_0000_0000) by (nonlinear_arith)
        requires
            c[p].len() <= 0xffff_ffff_ffff_ffff,
    ;
}

/// Every candidate of a corpus is a good cluster of it.
pub proof fn lemma_candidates_good(
    c: Seq<Seq<i32>>,
    lo: int,
    hi: int,
    off: int,
    t: int,
    min: nat,
)
    requires
        rectangular(c),
        bounded_rows(c),
        0 <= lo,
        hi <= c.len(),
        0 <= off,
        off + c.len() <= usize::MAX,
    ensures
        all_good(c, off, t, min, candidates(c, lo, hi, off, t, min)),
    decreases hi - lo,
{
    if hi > lo {
        lemma_candidates_good(c, lo, hi - 1, off, t, min);
        let p = hi - 1;
        let row = row_scores(c, p);
        lemma_above(row, t, row.len());
        let m = over_threshold(row, t);
        if m.len() > min {
            let g: Group = ((p + off) as usize, shifted(m, off));
            assert forall|a: int| 0 <= a < g.1.len() implies 0 <= #[trigger] g.1[a] - off < c.len()
                && dot(c[g.0 - off], c[g.1[a] - off]) > t by {
                let j = m[a] as int;
                assert(c[p].len() == c[0].len() && c[j].len() == c[0].len());
                lemma_score_exact(c, p, j);
            }
            assert forall|a: int, b: int| 0 <= a < b < g.1.len() implies g.1[a] != g.1[b] by {
                assert(m[a] < m[b]);
            }
            assert(good_group(c, off, t, min, g));
        }
    }
}

/// Ordering and the greedy pass turn good candidates into a valid partition.
pub proof fn lemma_partition_valid(c: Seq<Seq<i32>>, off: int, t: int, min: nat, cands: Seq<Group>)
    requires
        all_good(c, off, t, min, cands),
    ensures
        valid_partition(c, off, t, min, partition_of(cands)),
{
    let s = by_size(cands);
    lemma_by_size_from(cands);
    lemma_dedupe(s);
    assert forall|i: int| 0 <= i < s.len() implies good_group(c, off, t, min, #[trigger] s[i]) by {
        let j = choose|j: int| 0 <= j < cands.len() && cands[j] == s[i];
    }
    let r = dedupe(s);
    assert forall|i: int| 0 <= i < r.len() implies good_group(c, off, t, min, #[trigger] r[i]) by {
        let j = choose|j: int| 0 <= j < s.len() && s[j] == r[i];
    }
}

/// The whole-matrix clustering of a corpus is a valid partition of it.
pub proof fn lemma_full_good(c: Seq<Seq<i32>>, t: int, min: nat)
    requires
        rectangular(c),
        c.len() <= usize::MAX,
    ensures
        valid_partition(c, 0, t, min, partition_of(full_candidates(c, 0, t, min))),
{
    lemma_full(c, 0, t, min);
    lemma_candidates_good(c, 0, c.len() as int, 0, t, min);
    lemma_partition_valid(c, 0, t, min, full_candidates(c, 0, t, min));
}

/// Strategy equivalence: the whole matrix, one row at a time, and blocks of any
/// positive size all give the same candidates in the same order, hence the same partition.
pub proof fn lemma_strategies_agree(c: Seq<Seq<i32>>, b: int, t: int, min: nat)
    requires
        b >= 1,
    ensures
        streamed_from(c, 0, t, min) == full_candidates(c, 0, t, min),
        chunked_from(c, b, 0, t, min) == full_candidates(c, 0, t, min),
        partition_of(streamed_from(c, 0, t, min)) == partition_of(full_candidates(c, 0, t, min)),
        partition_of(chunked_from(c, b, 0, t, min)) == partition_of(full_candidates(c, 0, t, min)),
{
    lemma_full(c, 0, t, min);
    lemma_streamed(c, 0, t, min);
    lemma_chunked(c, b, 0, t, min);
}

/// Blocks of one row and one block of the whole corpus give the same partition.
pub proof fn lemma_single_rows_match_one_block(c: Seq<Seq<i32>>, t: int, min: nat)
    requires
        c.len() >= 1,
    ensures
        partition_of(chunked_from(c, 1, 0, t, min)) == partition_of(
            chunked_from(c, c.len() as int, 0, t, min),
        ),
{
    lemma_strategies_agree(c, 1, t, min);
    lemma_strategies_agree(c, c.len() as int, t, min);
}

proof fn lemma_rows_bounded(e: Seq<Vec<i32>>)
    requires
        rectangular(rows_view(e)),
    ensures
        bounded_rows(rows_view(e)),
{
}

/// The candidates of a block of rows are good clusters of the corpus.
proof fn lemma_block_good(c: Seq<Seq<i32>>, lo: int, hi: int, t: int, min: nat)
    requires
        rectangular(c),
        bounded_rows(c),
        0 <= lo <= hi <= c.len(),
        c.len() <= usize::MAX,
    ensures
        all_good(
            c,
            0,
            t,
            min,
            scores_candidates(window(c, lo, hi, 0, c.len() as int), (hi - lo) as nat, lo, 0, t, min),
        ),
{
    lemma_window_candidates(c, lo, hi, (hi - lo) as nat, 0, t, min);
    lemma_candidates_good(c, lo, hi, 0, t, min);
}

/// Checks that the vectors form a matrix: at least one row, and every row of the same
/// length (which may be zero). Anything else is an input shape error.
pub fn vectors_to_array(embeddings: Vec<Embedding>) -> (r: Result<Vec<Embedding>, ClusterError>)
    ensures
        r.is_ok() <==> rectangular(rows_view(embeddings@)),
        match r {
            Ok(m) => m@ == embeddings@,
            Err(e) => e == ClusterError::InputShape,
        },
{
    if embeddings.len() == 0 {
        return Err(ClusterError::InputShape);
    }
    let d = embeddings[0].len();
    let mut i: usize = 0;
    while i < embeddings.len()
        invariant
            i <= embeddings@.len(),
            embeddings@.len() > 0,
            d == embeddings@[0]@.len(),
            forall|k: int| 0 <= k < i ==> #[trigger] embeddings@[k]@.len() == d,
        decreases embeddings@.len() - i,
    {
        if embeddings[i].len() != d {
            assert(rows_view(embeddings@)[i as int] == embeddings@[i as int]@);
            return Err(ClusterError::InputShape);
        }
        i = i + 1;
    }
    assert forall|k: int| 0 <= k < rows_view(embeddings@).len() implies #[trigger] rows_view(
        embeddings@,
    )[k].len() == rows_view(embeddings@)[0].len() by {
        assert(rows_view(embeddings@)[k] == embeddings@[k]@);
    }
    Ok(embeddings)
}

/// Rows `start..end` clustered as a corpus of their own, from their full similarity
/// matrix; indices are reported moved by `offset`.
fn cluster_window(e: &Vec<Embedding>, start: usize, end: usize, offset: usize, config: &Config) -> (r:
    Clusters)
    requires
        rectangular(rows_view(e@)),
        start <= end <= e@.len(),
        offset + (end - start) <= usize::MAX,
    ensures
        groups(r@) == partition_of(
            full_candidates(
                rows_view(e@).subrange(start as int, end as int),
                offset as int,
                config.min_similarity as int,
                config.min_cluster_size as nat,
            ),
        ),
        valid_partition(
            rows_view(e@).subrange(start as int, end as int),
            offset as int,
            config.min_similarity as int,
            config.min_cluster_size as nat,
            groups(r@),
        ),
{
    let ghost c = rows_view(e@);
    let ghost sub = c.subrange(start as int, end as int);
    let ghost t = config.min_similarity as int;
    let ghost min = config.min_cluster_size as nat;
    let w = similarity_window(e, start, end, start, end);
    assert forall|i: int| 0 <= i < sub.len() implies #[trigger] window(
        c,
        start as int,
        end as int,
        start as int,
        end as int,
    )[i] =~= window(sub, 0, sub.len() as int, 0, sub.len() as int)[i] by {}
    assert(score_rows(w@) =~= window(sub, 0, sub.len() as int, 0, sub.len() as int));
    let mut found: Clusters = Vec::new();
    push_clusters(&w, &mut found, offset, offset, config);
    assert(groups(found@) =~= full_candidates(sub, offset as int, t, min));
    let sorted = sort_by_size(&found);
    let r = unique_clusters(&sorted);
    proof {
        lemma_full(sub, offset as int, t, min);
        lemma_rows_bounded(e@);
        if start < end {
            assert(rectangular(sub)) by {
                assert forall|i: int| 0 <= i < sub.len() implies #[trigger] sub[i].len() == sub[0].len() by {
                    assert(sub[i] == c[start + i] && sub[0] == c[start as int]);
                }
            }
            assert(bounded_rows(sub)) by {
                assert forall|i: int| 0 <= i < sub.len() implies #[trigger] sub[i].len() <= usize::MAX by {
                    assert(sub[i] == c[start + i]);
                }
            }
            lemma_candidates_good(sub, 0, sub.len() as int, offset as int, t, min);
        } else {
            assert(candidates(sub, 0, sub.len() as int, offset as int, t, min) =~= Seq::empty());
        }
        lemma_partition_valid(sub, offset as int, t, min, full_candidates(sub, offset as int, t, min));
    }
    r
}

/// Clusters the whole corpus from its full similarity matrix; every index is reported
/// moved by `index_offset`.
pub fn cluster_no_splitting(embeddings: &Vec<Embedding>, index_offset: usize, config: &Config) -> (r:
    Clusters)
    requires
        rectangular(rows_view(embeddings@)),
        index_offset + embeddings@.len() <= usize::MAX,
    ensures
        groups(r@) == partition_of(
            full_candidates(
                rows_view(embeddings@),
                index_offset as int,
                config.min_similarity as int,
                config.min_cluster_size as nat,
            ),
        ),
        valid_partition(
            rows_view(embeddings@),
            index_offset as int,
            config.min_similarity as int,
            config.min_cluster_size as nat,
            groups(r@),
        ),
{
    let r = cluster_window(embeddings, 0, embeddings.len(), index_offset, config);
    assert(rows_view(embeddings@).subrange(0, embeddings@.len() as int) =~= rows_view(embeddings@));
    r
}

/// Clusters rows `start..end` as if they were the whole corpus; indices are reported
/// as positions in the full corpus.
pub fn cluster_no_splitting_view(
    embeddings: &Vec<Embedding>,
    start: usize,
    end: usize,
    config: &Config,
) -> (r: Clusters)
    requires
        rectangular(rows_view(embeddings@)),
        start <= end <= embeddings@.len(),
    ensures
        groups(r@) == partition_of(
            full_candidates(
                rows_view(embeddings@).subrange(start as int, end as int),
                start as int,
                config.min_similarity as int,
                config.min_cluster_size as nat,
            ),
        ),
        valid_partition(
            rows_view(embeddings@).subrange(start as int, end as int),
            start as int,
            config.min_similarity as int,
            config.min_cluster_size as nat,
            groups(r@),
        ),
{
    cluster_window(embeddings, start, end, start, config)
}

/// Whole-matrix strategy: the full similarity matrix at once, then ordering and the
/// greedy pass.
pub fn cluster_using_ndarray(embeddings: Vec<Embedding>, config: &Config) -> (r: Result<
    Clusters,
    ClusterError,
>)
    ensures
        r.is_ok() <==> config.wf() && rectangular(rows_view(embeddings@)),
        match r {
            Ok(cs) => groups(cs@) == partition_of(
                full_candidates(
                    rows_view(embeddings@),
                    0,
                    config.min_similarity as int,
                    config.min_cluster_size as nat,
                ),
            ) && valid_partition(
                rows_view(embeddings@),
                0,
                config.min_similarity as int,
                config.min_cluster_size as nat,
                groups(cs@),
            ),
            Err(e) => if config.wf() {
                e == ClusterError::InputShape
            } else {
                e == ClusterError::Configuration
            },
        },
{
    if !config.is_valid() {
        return Err(ClusterError::Configuration);
    }
    match vectors_to_array(embeddings) {
        Ok(e) => {
            assert(e@.len() == e.len());
            Ok(cluster_no_splitting(&e, 0, config))
        },
        Err(err) => Err(err),
    }
}

/// Streaming strategy: one row of similarities at a time, all candidates collected,
/// then ordering and the greedy pass.
pub fn cluster_using_ndarray_low_memory(embeddings: Vec<Embedding>, config: &Config) -> (r: Result<
    Clusters,
    ClusterError,
>)
    ensures
        r.is_ok() <==> config.wf() && rectangular(rows_view(embeddings@)),
        match r {
            Ok(cs) => groups(cs@) == partition_of(
                streamed_from(
                    rows_view(embeddings@),
                    0,
                    config.min_similarity as int,
                    config.min_cluster_size as nat,
                ),
            ) && valid_partition(
                rows_view(embeddings@),
                0,
                config.min_similarity as int,
                config.min_cluster_size as nat,
                groups(cs@),
            ),
            Err(e) => if config.wf() {
                e == ClusterError::InputShape
            } else {
                e == ClusterError::Configuration
            },
        },
{
    if !config.is_valid() {
        return Err(ClusterError::Configuration);
    }
    let e = match vectors_to_array(embeddings) {
        Ok(e) => e,
        Err(err) => {
            return Err(err);
        },
    };
    let ghost c = rows_view(e@);
    let ghost t = config.min_similarity as int;
    let ghost min = config.min_cluster_size as nat;
    let n = e.len();
    let mut found: Clusters = Vec::new();
    let mut p: usize = 0;
    while p < n
        invariant
            c == rows_view(e@),
            rectangular(c),
            n == e@.len() == c.len(),
            p <= n,
            groups(found@) + streamed_from(c, p as int, t, min) == streamed_from(c, 0, t, min),
            t == config.min_similarity as int,
            min == config.min_cluster_size as nat,
        decreases n - p,
    {
        let w = similarity_window(&e, p, p + 1, 0, n);
        let ghost before = groups(found@);
        push_clusters(&w, &mut found, p, 0, config);
        let ghost block = scores_candidates(window(c, p as int, p + 1, 0, n as int), 1, p as int, 0, t, min);
        assert(groups(found@) == before + block);
        assert(streamed_from(c, p as int, t, min) == block + streamed_from(c, p + 1, t, min));
        assert(groups(found@) + streamed_from(c, p + 1, t, min) =~= before + streamed_from(c, p as int, t, min));
        p = p + 1;
    }
    assert(streamed_from(c, n as int, t, min) =~= Seq::empty());
    assert(groups(found@) =~= streamed_from(c, 0, t, min));
    let sorted = sort_by_size(&found);
    let r = unique_clusters(&sorted);
    proof {
        lemma_rows_bounded(e@);
        lemma_streamed(c, 0, t, min);
        lemma_candidates_good(c, 0, c.len() as int, 0, t, min);
        lemma_partition_valid(c, 0, t, min, streamed_from(c, 0, t, min));
    }
    Ok(r)
}

/// Chunked-batch strategy: blocks of `config.chunk_size` rows against the whole corpus,
/// all candidates collected, then ordering and the greedy pass.
pub fn cluster_using_ndarray_batched(embeddings: Vec<Embedding>, config: &Config) -> (r: Result<
    Clusters,
    ClusterError,
>)
    ensures
        r.is_ok() <==> config.wf() && rectangular(rows_view(embeddings@)),
        match r {
            Ok(cs) => groups(cs@) == partition_of(
                chunked_from(
                    rows_view(embeddings@),
                    config.chunk_size as int,
                    0,
                    config.min_similarity as int,
                    config.min_cluster_size as nat,
                ),
            ) && valid_partition(
                rows_view(embeddings@),
                0,
                config.min_similarity as int,
                config.min_cluster_size as nat,
                groups(cs@),
            ),
            Err(e) => if config.wf() {
                e == ClusterError::InputShape
            } else {
                e == ClusterError::Configuration
            },
        },
{
    if !config.is_valid() {
        return Err(ClusterError::Configuration);
    }
    let e = match vectors_to_array(embeddings) {
        Ok(e) => e,
        Err(err) => {
            return Err(err);
        },
    };
    let ghost c = rows_view(e@);
    let ghost t = config.min_similarity as int;
    let ghost min = config.min_cluster_size as nat;
    let b = config.chunk_size;
    let n = e.len();
    let mut found: Clusters = Vec::new();
    let mut lo: usize = 0;
    while lo < n
        invariant
            c == rows_view(e@),
            rectangular(c),
            n == e@.len() == c.len(),
            lo <= n,
            b == config.chunk_size >= 1,
            groups(found@) + chunked_from(c, b as int, lo as int, t, min) == chunked_from(
                c,
                b as int,
                0,
                t,
                min,
            ),
            t == config.min_similarity as int,
            min == config.min_cluster_size as nat,
        decreases n - lo,
    {
        let hi = if n - lo > b {
            lo + b
        } else {
            n
        };
        let w = similarity_window(&e, lo, hi, 0, n);
        let ghost before = groups(found@);
        push_clusters(&w, &mut found, lo, 0, config);
        let ghost block = scores_candidates(
            window(c, lo as int, hi as int, 0, n as int),
            (hi - lo) as nat,
            lo as int,
            0,
            t,
            min,
        );
        assert(chunked_from(c, b as int, lo as int, t, min) == block + chunked_from(
            c,
            b as int,
            hi as int,
            t,
            min,
        ));
        assert(groups(found@) + chunked_from(c, b as int, hi as int, t, min) =~= before
            + chunked_from(c, b as int, lo as int, t, min));
        lo = hi;
    }
    assert(chunked_from(c, b as int, n as int, t, min) =~= Seq::empty());
    assert(groups(found@) =~= chunked_from(c, b as int, 0, t, min));
    let sorted = sort_by_size(&found);
    let r = unique_clusters(&sorted);
    proof {
        lemma_rows_bounded(e@);
        lemma_chunked(c, b as int, 0, t, min);
        lemma_candidates_good(c, 0, c.len() as int, 0, t, min);
        lemma_partition_valid(c, 0, t, min, chunked_from(c, b as int, 0, t, min));
    }
    Ok(r)
}

/// Incremental chunked-batch strategy: after each block of `config.chunk_size` rows,
/// the running candidates are ordered and reduced again, which bounds their number.
pub fn cluster_using_ndarray_batched_unique_on_the_go(
    embeddings: Vec<Embedding>,
    config: &Config,
) -> (r: Result<Clusters, ClusterError>)
    ensures
        r.is_ok() <==> config.wf() && rectangular(rows_view(embeddings@)),
        match r {
            Ok(cs) => groups(cs@) == incremental_from(
                rows_view(embeddings@),
                config.chunk_size as int,
                0,
                Seq::empty(),
                config.min_similarity as int,
                config.min_cluster_size as nat,
            ) && valid_partition(
                rows_view(embeddings@),
                0,
                config.min_similarity as int,
                config.min_cluster_size as nat,
                groups(cs@),
            ),
            Err(e) => if config.wf() {
                e == ClusterError::InputShape
            } else {
                e == ClusterError::Configuration
            },
        },
{
    if !config.is_valid() {
        return Err(ClusterError::Configuration);
    }
    let e = match vectors_to_array(embeddings) {
        Ok(e) => e,
        Err(err) => {
            return Err(err);
        },
    };
    let ghost c = rows_view(e@);
    let ghost t = config.min_similarity as int;
    let ghost min = config.min_cluster_size as nat;
    proof {
        lemma_rows_bounded(e@);
    }
    let b = config.chunk_size;
    let n = e.len();
    let mut found: Clusters = Vec::new();
    let mut lo: usize = 0;
    while lo < n
        invariant
            c == rows_view(e@),
            rectangular(c),
            bounded_rows(c),
            n == e@.len() == c.len(),
            lo <= n,
            b == config.chunk_size >= 1,
            incremental_from(c, b as int, lo as int, groups(found@), t, min) == incremental_from(
                c,
                b as int,
                0,
                Seq::empty(),
                t,
                min,
            ),
            valid_partition(c, 0, t, min, groups(found@)),
            t == config.min_similarity as int,
            min == config.min_cluster_size as nat,
        decreases n - lo,
    {
        let hi = if n - lo > b {
            lo + b
        } else {
            n
        };
        let w = similarity_window(&e, lo, hi, 0, n);
        let ghost before = groups(found@);
        push_clusters(&w, &mut found, lo, 0, config);
        let ghost block = scores_candidates(
            window(c, lo as int, hi as int, 0, n as int),
            (hi - lo) as nat,
            lo as int,
            0,
            t,
            min,
        );
        proof {
            lemma_block_good(c, lo as int, hi as int, t, min);
            assert forall|i: int| 0 <= i < groups(found@).len() implies good_group(
                c,
                0,
                t,
                min,
                #[trigger] groups(found@)[i],
            ) by {
                if i < before.len() {
                    assert(groups(found@)[i] == before[i]);
                } else {
                    assert(groups(found@)[i] == block[i - before.len()]);
                }
            }
            lemma_partition_valid(c, 0, t, min, groups(found@));
        }
        let sorted = sort_by_size(&found);
        found = unique_clusters(&sorted);
        lo = hi;
    }
    Ok(found)
}

} // verus!
