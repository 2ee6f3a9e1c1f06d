//! Candidate clusters: similarity windows, threshold filtering of one row of
//! scores, and the extraction of one candidate per pivot row.
use vstd::prelude::*;
use crate::config::Config;
use crate::vector_space::{dot, dot_product, rectangular, rows_view, Embedding};

verus! {

/// A cluster: its centroid document and the documents that belong to it.
pub type Community = (usize, Vec<usize>);

/// A sequence of clusters.
pub type Clusters = Vec<Community>;

/// The mathematical form of a cluster: centroid and member sequence.
pub type Group = (usize, Seq<usize>);

pub open spec fn group_of(c: Community) -> Group {
    (c.0, c.1@)
}

/// The mathematical form of a sequence of clusters.
pub open spec fn groups(c: Seq<Community>) -> Seq<Group> {
    c.map_values(|x: Community| group_of(x))
}

/// The mathematical form of a matrix of scores.
pub open spec fn score_rows(w: Seq<Vec<i128>>) -> Seq<Seq<i128>> {
    w.map_values(|r: Vec<i128>| r@)
}

/// Positions among the first `k` scores that are strictly above `t`, in increasing order.
pub open spec fn above(s: Seq<i128>, t: int, k: nat) -> Seq<usize>
    decreases k,
{
    if k == 0 {
        Seq::empty()
    } else {
        let r = above(s, t, (k - 1) as nat);
        if s[k - 1] > t {
            r.push((k - 1) as usize)
        } else {
            r
        }
    }
}

/// Positions of a row whose score is strictly above `t`, in increasing order.
pub open spec fn over_threshold(s: Seq<i128>, t: int) -> Seq<usize> {
    above(s, t, s.len())
}

/// Each position moved by `off`.
pub open spec fn shifted(m: Seq<usize>, off: int) -> Seq<usize> {
    m.map_values(|j: usize| (j + off) as usize)
}

/// What extraction makes of one row of scores for the pivot document `pivot`:
/// the documents above the threshold, kept only when there are more than `min` of them.
pub open spec fn candidate(row: Seq<i128>, pivot: int, col_off: int, t: int, min: nat) -> Option<
    Group,
> {
    let m = over_threshold(row, t);
    if m.len() > min {
        Some((pivot as usize, shifted(m, col_off)))
    } else {
        None
    }
}

/// The candidates of the first `k` rows of a score matrix whose row `i` belongs to
/// document `i + row_off` and whose column `j` to document `j + col_off`.
pub open spec fn scores_candidates(
    w: Seq<Seq<i128>>,
    k: nat,
    row_off: int,
    col_off: int,
    t: int,
    min: nat,
) -> Seq<Group>
    decreases k,
{
    if k == 0 {
        Seq::empty()
    } else {
        let prev = scores_candidates(w, (k - 1) as nat, row_off, col_off, t, min);
        match candidate(w[k - 1], k - 1 + row_off, col_off, t, min) {
            Some(g) => prev.push(g),
            None => prev,
        }
    }
}

/// Similarities of rows `ra..rb` against rows `ca..cb` of a corpus.
pub open spec fn window(c: Seq<Seq<i32>>, ra: int, rb: int, ca: int, cb: int) -> Seq<Seq<i128>> {
    Seq::new(
        (rb - ra) as nat,
        |i: int| Seq::new((cb - ca) as nat, |j: int| dot(c[ra + i], c[ca + j]) as i128),
    )
}

/// Facts about the positions above the threshold: few enough, in range, above the
/// threshold, strictly increasing.
pub proof fn lemma_above(s: Seq<i128>, t: int, k: nat)
    requires
        k <= s.len() <= usize::MAX,
    ensures
        above(s, t, k).len() <= k,
        forall|i: int| 0 <= i < above(s, t, k).len() ==> #[trigger] above(s, t, k)[i] < k,
        forall|i: int|
            0 <= i < above(s, t, k).len() ==> s[#[trigger] above(s, t, k)[i] as int] > t,
        forall|i: int, j: int|
            0 <= i < j < above(s, t, k).len() ==> #[trigger] above(s, t, k)[i] < #[trigger] above(
                s,
                t,
                k,
            )[j],
    decreases k,
{
    if k > 0 {
        lemma_above(s, t, (k - 1) as nat);
        let r = above(s, t, (k - 1) as nat);
        let q = above(s, t, k);
        assert forall|i: int| 0 <= i < q.len() implies s[#[trigger] q[i] as int] > t by {
            if i < r.len() {
                assert(q[i] == r[i]);
            }
        }
        assert forall|i: int, j: int| 0 <= i < j < q.len() implies #[trigger] q[i] < #[trigger] q[j] by {
            if j < r.len() {
                assert(q[i] == r[i] && q[j] == r[j]);
            } else {
                assert(q[i] == r[i]);
            }
        }
    }
}

/// How many scores of a row are strictly above the threshold.
pub fn count_scores_over_threshold(row: &Vec<i128>, min_similarity: i64) -> (r: usize)
    ensures
        r == over_threshold(row@, min_similarity as int).len(),
{
    let mut n: usize = 0;
    let mut k: usize = 0;
    while k < row.len()
        invariant
            k <= row@.len(),
            n == above(row@, min_similarity as int, k as nat).len(),
        decreases row@.len() - k,
    {
        proof {
            lemma_above(row@, min_similarity as int, k as nat);
        }
        if row[k] > min_similarity as i128 {
            n = n + 1;
        }
        k = k + 1;
    }
    n
}

/// Positions of a row whose score is strictly above the threshold, in increasing order.
pub fn idx_over_threshold(row: &Vec<i128>, min_similarity: i64) -> (r: Vec<usize>)
    ensures
        r@ == over_threshold(row@, min_similarity as int),
{
    let mut out: Vec<usize> = Vec::new();
    let mut k: usize = 0;
    while k < row.len()
        invariant
            k <= row@.len(),
            out@ == above(row@, min_similarity as int, k as nat),
        decreases row@.len() - k,
    {
        if row[k] > min_similarity as i128 {
            out.push(k);
        }
        k = k + 1;
    }
    out
}

/// Each position moved by `off`.
fn shift_indices(m: Vec<usize>, off: usize) -> (r: Vec<usize>)
    requires
        forall|i: int| 0 <= i < m@.len() ==> m@[i] + off <= usize::MAX,
    ensures
        r@ == shifted(m@, off as int),
{
    let mut out: Vec<usize> = Vec::with_capacity(m.len());
    let mut k: usize = 0;
    while k < m.len()
        invariant
            k <= m@.len(),
            forall|i: int| 0 <= i < m@.len() ==> m@[i] + off <= usize::MAX,
            out@ =~= shifted(m@.take(k as int), off as int),
        decreases m@.len() - k,
    {
        out.push(m[k] + off);
        k = k + 1;
        assert(m@.take(k as int).drop_last() =~= m@.take(k - 1));
    }
    assert(m@.take(m@.len() as int) =~= m@);
    out
}

/// Similarities of rows `ra..rb` against rows `ca..cb`, as a matrix.
pub fn similarity_window(e: &Vec<Embedding>, ra: usize, rb: usize, ca: usize, cb: usize) -> (r: Vec<
    Vec<i128>,
>)
    requires
        rectangular(rows_view(e@)),
        ra <= rb <= e@.len(),
        ca <= cb <= e@.len(),
    ensures
        score_rows(r@) == window(rows_view(e@), ra as int, rb as int, ca as int, cb as int),
        r@.len() == rb - ra,
        forall|i: int| 0 <= i < r@.len() ==> (#[trigger] r@[i])@.len() == cb - ca,
{
    let ghost c = rows_view(e@);
    let mut out: Vec<Vec<i128>> = Vec::with_capacity(rb - ra);
    let mut i: usize = ra;
    while i < rb
        invariant
            c == rows_view(e@),
            rectangular(c),
            ra <= i <= rb <= e@.len(),
            ca <= cb <= e@.len(),
            out@.len() == i - ra,
            forall|a: int|
                0 <= a < i - ra ==> (#[trigger] out@[a])@ == window(
                    c,
                    ra as int,
                    rb as int,
                    ca as int,
                    cb as int,
                )[a],
        decreases rb - i,
    {
        let mut row: Vec<i128> = Vec::with_capacity(cb - ca);
        let mut j: usize = ca;
        while j < cb
            invariant
                c == rows_view(e@),
                rectangular(c),
                ra <= i < rb <= e@.len(),
                ca <= j <= cb <= e@.len(),
                row@.len() == j - ca,
                forall|b: int|
                    0 <= b < j - ca ==> #[trigger] row@[b] == dot(c[i as int], c[ca + b]) as i128,
            decreases cb - j,
        {
            assert(c[i as int].len() == c[0].len() && c[j as int].len() == c[0].len());
            let s = dot_product(&e[i], &e[j]);
            row.push(s);
            j = j + 1;
        }
        assert(row@ =~= window(c, ra as int, rb as int, ca as int, cb as int)[i - ra]);
        out.push(row);
        i = i + 1;
    }
    assert(score_rows(out@) =~= window(c, ra as int, rb as int, ca as int, cb as int));
    assert forall|i: int| 0 <= i < out@.len() implies (#[trigger] out@[i])@.len() == cb - ca by {
        assert(out@[i]@ == window(c, ra as int, rb as int, ca as int, cb as int)[i]);
    }
    out
}

/// Appends the candidate of every row of a score matrix, in row order. Row `i`
/// belongs to document `i + row_offset`, column `j` to document `j + col_offset`.
pub fn push_clusters(
    scores: &Vec<Vec<i128>>,
    communities: &mut Clusters,
    row_offset: usize,
    col_offset: usize,
    config: &Config,
)
    requires
        row_offset + scores@.len() <= usize::MAX,
        forall|i: int| 0 <= i < scores@.len() ==> col_offset + (#[trigger] scores@[i])@.len() <= usize::MAX,
    ensures
        groups(final(communities)@) == groups(old(communities)@) + scores_candidates(
            score_rows(scores@),
            scores@.len() as nat,
            row_offset as int,
            col_offset as int,
            config.min_similarity as int,
            config.min_cluster_size as nat,
        ),
{
    let ghost w = score_rows(scores@);
    let ghost start = groups(communities@);
    let mut i: usize = 0;
    while i < scores.len()
        invariant
            w == score_rows(scores@),
            i <= scores@.len(),
            row_offset + scores@.len() <= usize::MAX,
            forall|k: int| 0 <= k < scores@.len() ==> col_offset + (#[trigger] scores@[k])@.len() <= usize::MAX,
            groups(communities@) == start + scores_candidates(
                w,
                i as nat,
                row_offset as int,
                col_offset as int,
                config.min_similarity as int,
                config.min_cluster_size as nat,
            ),
        decreases scores@.len() - i,
    {
        let row = &scores[i];
        assert(row@ == w[i as int]);
        if count_scores_over_threshold(row, config.min_similarity) > config.min_cluster_size {
            let idx = idx_over_threshold(row, config.min_similarity);
            proof {
                lemma_above(row@, config.min_similarity as int, row@.len());
            }
            let members = shift_indices(idx, col_offset);
            let ghost before = communities@;
            let ghost g: Group = ((i + row_offset) as usize, members@);
            communities.push((i + row_offset, members));
            assert(candidate(
                w[i as int],
                i + row_offset,
                col_offset as int,
                config.min_similarity as int,
                config.min_cluster_size as nat,
            ) == Some(g));
            assert(groups(communities@) =~= groups(before).push(g));
            assert(groups(communities@) =~= start + scores_candidates(
                w,
                (i + 1) as nat,
                row_offset as int,
                col_offset as int,
                config.min_similarity as int,
                config.min_cluster_size as nat,
            ));
        }
        i = i + 1;
    }
}

} // verus!
