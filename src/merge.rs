//! Merging two partitions by centroid comparison and local re-clustering.
use vstd::prelude::*;
use crate::community::{group_of, groups, Clusters, Community, Group};
use crate::config::Config;
use crate::partition::{
    by_size, claimed, disjoint, has_survivor, lemma_disjoint_kept, lemma_by_size_sorted, lemma_by_size_total, lemma_dedupe,
    lemma_rejected_survivor,
    lemma_total_concat, rejected, sort_by_size, total, unique_clusters,
};
use crate::strategy::{
    all_good, cluster_no_splitting, full_candidates, good_group, lemma_partition_valid,
    partition_of, valid_partition,
};
use crate::vector_space::{dot, dot_product, rectangular, rows_view, Embedding};

verus! {

broadcast use vstd::std_specs::hash::group_hash_axioms;

/// The centroid of each cluster, in order.
pub open spec fn centroid_ids(r: Seq<Group>) -> Seq<usize> {
    r.map_values(|g: Group| g.0)
}

/// The rows of a corpus at the given positions, in that order.
pub open spec fn pick_rows(c: Seq<Seq<i32>>, idx: Seq<usize>) -> Seq<Seq<i32>> {
    idx.map_values(|i: usize| c[i as int])
}

/// The members of `b` that are not members of `a`, in their order in `b`.
pub open spec fn fresh_members(a: Seq<usize>, b: Seq<usize>) -> Seq<usize>
    decreases b.len(),
{
    if b.len() == 0 {
        Seq::empty()
    } else {
        let r = fresh_members(a, b.drop_last());
        if a.contains(b.last()) {
            r
        } else {
            r.push(b.last())
        }
    }
}

/// The members of two clusters, each document once: those of `a`, then the new ones of `b`.
pub open spec fn union_members(a: Seq<usize>, b: Seq<usize>) -> Seq<usize> {
    a + fresh_members(a, b)
}

/// Re-clustering of two clusters: the documents of both are clustered as a corpus of
/// their own, and the largest cluster found, in corpus positions, replaces them.
/// `None` when that corpus yields no cluster.
pub open spec fn merged(ga: Group, gb: Group, c: Seq<Seq<i32>>, t: int, min: nat) -> Option<Group> {
    let u = union_members(ga.1, gb.1);
    let p = partition_of(full_candidates(pick_rows(c, u), 0, t, min));
    if p.len() == 0 {
        None
    } else {
        Some((u[p[0].0 as int], p[0].1.map_values(|j: usize| u[j as int])))
    }
}

/// Cluster `g` (whose centroid was `c0` when centroids were compared) after meeting the
/// first `k` clusters of `bs`: each one whose centroid is more similar to `c0` than `t`
/// is merged into it.
pub open spec fn absorb(
    c0: usize,
    g: Group,
    bs: Seq<Group>,
    k: nat,
    c: Seq<Seq<i32>>,
    t: int,
    min: nat,
) -> Group
    decreases k,
{
    if k == 0 {
        g
    } else {
        let h = absorb(c0, g, bs, (k - 1) as nat, c, t, min);
        if dot(c[c0 as int], c[bs[k - 1].0 as int]) > t {
            match merged(h, bs[k - 1], c, t, min) {
                Some(m) => m,
                None => h,
            }
        } else {
            h
        }
    }
}

/// Every cluster of `a` after meeting all clusters of `b`.
pub open spec fn absorbed_all(a: Seq<Group>, b: Seq<Group>, c: Seq<Seq<i32>>, t: int, min: nat) -> Seq<
    Group,
> {
    Seq::new(a.len(), |i: int| absorb(a[i].0, a[i], b, b.len(), c, t, min))
}

/// The clusters with more than `min` members, in order.
pub open spec fn larger_than(r: Seq<Group>, min: nat) -> Seq<Group>
    decreases r.len(),
{
    if r.len() == 0 {
        Seq::empty()
    } else {
        let p = larger_than(r.drop_last(), min);
        if r.last().1.len() > min {
            p.push(r.last())
        } else {
            p
        }
    }
}

/// The candidates that the merge of `a` and `b` orders and reduces.
pub open spec fn merge_candidates(a: Seq<Group>, b: Seq<Group>, c: Seq<Seq<i32>>, t: int, min: nat) -> Seq<
    Group,
> {
    larger_than(absorbed_all(a, b, c, t, min) + b, min)
}

/// The merge of a running partition `a` with a new partition `b`.
pub open spec fn merge_spec(a: Seq<Group>, b: Seq<Group>, c: Seq<Seq<i32>>, t: int, min: nat) -> Seq<
    Group,
> {
    if a.len() == 0 {
        b
    } else if b.len() == 0 {
        a
    } else {
        partition_of(merge_candidates(a, b, c, t, min))
    }
}

proof fn lemma_fresh(a: Seq<usize>, b: Seq<usize>)
    requires
        b.no_duplicates(),
    ensures
        fresh_members(a, b).no_duplicates(),
        forall|i: int|
            0 <= i < fresh_members(a, b).len() ==> !a.contains(#[trigger] fresh_members(a, b)[i])
                && b.contains(fresh_members(a, b)[i]),
    decreases b.len(),
{
    if b.len() > 0 {
        let p = b.drop_last();
        assert(p.no_duplicates());
        lemma_fresh(a, p);
        let r = fresh_members(a, p);
        let q = fresh_members(a, b);
        assert forall|i: int| 0 <= i < q.len() implies !a.contains(#[trigger] q[i]) && b.contains(q[i]) by {
            if i < r.len() {
                assert(q[i] == r[i]);
                let j = choose|j: int| 0 <= j < p.len() && p[j] == r[i];
                assert(b[j] == r[i]);
            } else {
                assert(b[b.len() - 1] == q[i]);
            }
        }
        if !a.contains(b.last()) {
            assert forall|i: int, j: int| 0 <= i < q.len() && 0 <= j < q.len() && i != j implies q[i]
                != q[j] by {
                if i < r.len() && j < r.len() {
                    assert(q[i] == r[i] && q[j] == r[j]);
                } else if i < r.len() {
                    assert(q[i] == r[i]);
                    let k = choose|k: int| 0 <= k < p.len() && p[k] == r[i];
                    assert(b[k] == p[k]);
                } else {
                    assert(q[j] == r[j]);
                    let k = choose|k: int| 0 <= k < p.len() && p[k] == r[j];
                    assert(b[k] == p[k]);
                }
            }
        }
    }
}

/// The union of two clusters lists each document once, and only their documents.
proof fn lemma_union(a: Seq<usize>, b: Seq<usize>)
    requires
        a.no_duplicates(),
        b.no_duplicates(),
    ensures
        union_members(a, b).no_duplicates(),
        forall|i: int|
            0 <= i < union_members(a, b).len() ==> a.contains(#[trigger] union_members(a, b)[i])
                || b.contains(union_members(a, b)[i]),
{
    lemma_fresh(a, b);
    let f = fresh_members(a, b);
    let u = union_members(a, b);
    assert forall|i: int| 0 <= i < u.len() implies a.contains(#[trigger] u[i]) || b.contains(u[i]) by {
        if i < a.len() {
            assert(u[i] == a[i]);
        } else {
            assert(u[i] == f[i - a.len()]);
        }
    }
    assert forall|i: int, j: int| 0 <= i < u.len() && 0 <= j < u.len() && i != j implies u[i]
        != u[j] by {
        if i < a.len() && j < a.len() {
        } else if i < a.len() {
            assert(u[j] == f[j - a.len()]);
        } else if j < a.len() {
            assert(u[i] == f[i - a.len()]);
        } else {
            assert(u[i] == f[i - a.len()] && u[j] == f[j - a.len()]);
        }
    }
}

/// Distinct indices below `n` are at most `n` in number.
proof fn lemma_distinct_bounded(s: Seq<usize>, n: nat)
    requires
        s.no_duplicates(),
        forall|i: int| 0 <= i < s.len() ==> #[trigger] s[i] < n,
    ensures
        s.len() <= n,
{
    let si = s.map_values(|x: usize| x as int);
    assert(si.no_duplicates()) by {
        assert forall|i: int, j: int| 0 <= i < si.len() && 0 <= j < si.len() && i != j implies si[i]
            != si[j] by {
            assert(s[i] != s[j]);
        }
    }
    si.unique_seq_to_set();
    vstd::set_lib::lemma_int_range(0, n as int);
    assert(si.to_set().subset_of(vstd::set_lib::set_int_range(0, n as int))) by {
        assert forall|x: int| si.to_set().contains(x) implies vstd::set_lib::set_int_range(
            0,
            n as int,
        ).contains(x) by {
            let k = choose|k: int| 0 <= k < si.len() && si[k] == x;
            assert(s[k] < n);
        }
    }
    vstd::set_lib::lemma_len_subset(si.to_set(), vstd::set_lib::set_int_range(0, n as int));
}

/// Re-clustering two good clusters gives a good cluster.
pub proof fn lemma_merged_good(ga: Group, gb: Group, c: Seq<Seq<i32>>, t: int, min: nat)
    requires
        rectangular(c),
        c.len() <= usize::MAX,
        good_group(c, 0, t, min, ga),
        good_group(c, 0, t, min, gb),
    ensures
        merged(ga, gb, c, t, min) matches Some(m) ==> good_group(c, 0, t, min, m),
{
    let u = union_members(ga.1, gb.1);
    lemma_union(ga.1, gb.1);
    let sub = pick_rows(c, u);
    let p = partition_of(full_candidates(sub, 0, t, min));
    if p.len() > 0 {
        assert forall|i: int| 0 <= i < u.len() implies 0 <= #[trigger] u[i] < c.len() by {
            if ga.1.contains(u[i]) {
                let k = choose|k: int| 0 <= k < ga.1.len() && ga.1[k] == u[i];
                assert(0 <= ga.1[k] < c.len());
            } else {
                let k = choose|k: int| 0 <= k < gb.1.len() && gb.1[k] == u[i];
                assert(0 <= gb.1[k] < c.len());
            }
        }
        lemma_distinct_bounded(u, c.len());
        assert(rectangular(sub) && sub.len() <= usize::MAX) by {
            assert(sub[0] == c[u[0] as int]);
            assert forall|i: int| 0 <= i < sub.len() implies #[trigger] sub[i].len() == sub[0].len() by {
                assert(sub[i] == c[u[i] as int]);
            }
        }
        crate::strategy::lemma_full_good(sub, t, min);
        let g = p[0];
        assert(good_group(sub, 0, t, min, g));
        let m: Group = (u[g.0 as int], g.1.map_values(|j: usize| u[j as int]));
        assert forall|a: int| 0 <= a < m.1.len() implies 0 <= #[trigger] m.1[a] - 0 < c.len() && dot(
            c[m.0 - 0],
            c[m.1[a] - 0],
        ) > t by {
            assert(m.1[a] == u[g.1[a] as int]);
            assert(sub[g.0 as int] == c[m.0 as int]);
            assert(sub[g.1[a] as int] == c[m.1[a] as int]);
        }
        assert forall|a: int, b: int| 0 <= a < m.1.len() && 0 <= b < m.1.len() && a != b implies m.1[a]
            != m.1[b] by {
            assert(g.1[a] != g.1[b]);
        }
        assert(good_group(c, 0, t, min, m));
    }
}

/// Absorbing clusters keeps a good cluster good.
proof fn lemma_absorb_good(
    c0: usize,
    g: Group,
    bs: Seq<Group>,
    k: nat,
    c: Seq<Seq<i32>>,
    t: int,
    min: nat,
)
    requires
        rectangular(c),
        c.len() <= usize::MAX,
        good_group(c, 0, t, min, g),
        all_good(c, 0, t, min, bs),
        k <= bs.len(),
    ensures
        good_group(c, 0, t, min, absorb(c0, g, bs, k, c, t, min)),
    decreases k,
{
    if k > 0 {
        lemma_absorb_good(c0, g, bs, (k - 1) as nat, c, t, min);
        let h = absorb(c0, g, bs, (k - 1) as nat, c, t, min);
        assert(good_group(c, 0, t, min, bs[k - 1]));
        lemma_merged_good(h, bs[k - 1], c, t, min);
    }
}

proof fn lemma_larger_than(r: Seq<Group>, min: nat)
    ensures
        forall|i: int| 0 <= i < larger_than(r, min).len() ==> r.contains(#[trigger] larger_than(r, min)[i]),
    decreases r.len(),
{
    if r.len() > 0 {
        let p = r.drop_last();
        lemma_larger_than(p, min);
        let x = larger_than(p, min);
        let q = larger_than(r, min);
        assert forall|i: int| 0 <= i < q.len() implies r.contains(#[trigger] q[i]) by {
            if i < x.len() {
                assert(q[i] == x[i]);
                let j = choose|j: int| 0 <= j < p.len() && p[j] == x[i];
                assert(r[j] == x[i]);
            } else {
                assert(r[r.len() - 1] == q[i]);
            }
        }
    }
}

/// The merge of two valid partitions is a valid partition.
pub proof fn lemma_merge_valid(a: Seq<Group>, b: Seq<Group>, c: Seq<Seq<i32>>, t: int, min: nat)
    requires
        rectangular(c),
        c.len() <= usize::MAX,
        valid_partition(c, 0, t, min, a),
        valid_partition(c, 0, t, min, b),
    ensures
        valid_partition(c, 0, t, min, merge_spec(a, b, c, t, min)),
{
    if a.len() > 0 && b.len() > 0 {
        let ab = absorbed_all(a, b, c, t, min);
        assert forall|i: int| 0 <= i < ab.len() implies good_group(c, 0, t, min, #[trigger] ab[i]) by {
            assert(good_group(c, 0, t, min, a[i]));
            lemma_absorb_good(a[i].0, a[i], b, b.len(), c, t, min);
        }
        let all = ab + b;
        assert forall|i: int| 0 <= i < all.len() implies good_group(c, 0, t, min, #[trigger] all[i]) by {
            if i < ab.len() {
                assert(all[i] == ab[i]);
            } else {
                assert(all[i] == b[i - ab.len()]);
            }
        }
        let cands = larger_than(all, min);
        lemma_larger_than(all, min);
        assert forall|i: int| 0 <= i < cands.len() implies good_group(c, 0, t, min, #[trigger] cands[i]) by {
            let j = choose|j: int| 0 <= j < all.len() && all[j] == cands[i];
        }
        lemma_partition_valid(c, 0, t, min, cands);
    }
}

proof fn lemma_absorb_none(
    c0: usize,
    g: Group,
    bs: Seq<Group>,
    k: nat,
    c: Seq<Seq<i32>>,
    t: int,
    min: nat,
)
    requires
        k <= bs.len(),
        forall|j: int| 0 <= j < k ==> dot(c[c0 as int], c[(#[trigger] bs[j]).0 as int]) <= t,
    ensures
        absorb(c0, g, bs, k, c, t, min) == g,
    decreases k,
{
    if k > 0 {
        lemma_absorb_none(c0, g, bs, (k - 1) as nat, c, t, min);
    }
}

proof fn lemma_larger_than_all(r: Seq<Group>, min: nat)
    requires
        forall|i: int| 0 <= i < r.len() ==> (#[trigger] r[i]).1.len() > min,
    ensures
        larger_than(r, min) == r,
    decreases r.len(),
{
    if r.len() > 0 {
        lemma_larger_than_all(r.drop_last(), min);
        assert(r.drop_last().push(r.last()) =~= r);
    }
}

/// Merging loses no document silently. The memberships of the merge are those of the
/// candidates it reduces, less exactly those of the candidates dropped on conflict, and
/// every dropped candidate shares a document with a surviving cluster at least as large. When no
/// centroid of `a` is similar enough to a centroid of `b` to re-cluster, those
/// candidates are the clusters of `a` and `b` themselves, so the memberships of the merge
/// are those of `a` and `b` less those of the dropped clusters; and when moreover `a` and
/// `b` hold no document in common, nothing is dropped: the merge is `a` and `b` ordered
/// by size, with every membership kept.
pub proof fn lemma_merge_keeps_documents(a: Seq<Group>, b: Seq<Group>, c: Seq<Seq<i32>>, t: int, min: nat)
    requires
        valid_partition(c, 0, t, min, a),
        valid_partition(c, 0, t, min, b),
    ensures
        a.len() == 0 || b.len() == 0 ==> total(merge_spec(a, b, c, t, min)) == total(a) + total(b),
        a.len() > 0 && b.len() > 0 ==> total(merge_spec(a, b, c, t, min)) + total(
            rejected(by_size(merge_candidates(a, b, c, t, min))),
        ) == total(merge_candidates(a, b, c, t, min)),
        a.len() > 0 && b.len() > 0 ==> forall|i: int|
            0 <= i < rejected(by_size(merge_candidates(a, b, c, t, min))).len() ==> has_survivor(
                merge_spec(a, b, c, t, min),
                #[trigger] rejected(by_size(merge_candidates(a, b, c, t, min)))[i],
            ),
        a.len() > 0 && b.len() > 0 && (forall|i: int, j: int|
            0 <= i < a.len() && 0 <= j < b.len() ==> dot(
                c[#[trigger] a[i].0 as int],
                c[#[trigger] b[j].0 as int],
            ) <= t) ==> merge_candidates(a, b, c, t, min) == a + b && total(merge_spec(a, b, c, t, min))
            + total(rejected(by_size(a + b))) == total(a) + total(b),
        a.len() > 0 && b.len() > 0 && disjoint(a + b) && (forall|i: int, j: int|
            0 <= i < a.len() && 0 <= j < b.len() ==> dot(
                c[#[trigger] a[i].0 as int],
                c[#[trigger] b[j].0 as int],
            ) <= t) ==> merge_spec(a, b, c, t, min) == by_size(a + b) && total(
            merge_spec(a, b, c, t, min),
        ) == total(a) + total(b),
{
    if a.len() == 0 {
        lemma_total_concat(a, b);
        assert(a + b =~= b);
    } else if b.len() == 0 {
        lemma_total_concat(a, b);
        assert(a + b =~= a);
    } else {
        let m = merge_candidates(a, b, c, t, min);
        let s = by_size(m);
        lemma_dedupe(s);
        lemma_by_size_total(m);
        lemma_by_size_sorted(m);
        lemma_rejected_survivor(s, s.len());
        if forall|i: int, j: int|
            0 <= i < a.len() && 0 <= j < b.len() ==> dot(
                c[#[trigger] a[i].0 as int],
                c[#[trigger] b[j].0 as int],
            ) <= t {
            assert forall|i: int| 0 <= i < a.len() implies absorbed_all(a, b, c, t, min)[i] == a[i] by {
                assert forall|j: int| 0 <= j < b.len() implies dot(
                    c[a[i].0 as int],
                    c[(#[trigger] b[j]).0 as int],
                ) <= t by {
                    assert(dot(c[a[i].0 as int], c[b[j].0 as int]) <= t);
                }
                lemma_absorb_none(a[i].0, a[i], b, b.len(), c, t, min);
            }
            assert(absorbed_all(a, b, c, t, min) =~= a);
            assert forall|i: int| 0 <= i < (a + b).len() implies (#[trigger] (a + b)[i]).1.len() > min by {
                if i < a.len() {
                    assert(good_group(c, 0, t, min, a[i]));
                } else {
                    assert((a + b)[i] == b[i - a.len()]);
                    assert(good_group(c, 0, t, min, b[i - a.len()]));
                }
            }
            lemma_larger_than_all(a + b, min);
            lemma_total_concat(a, b);
            if disjoint(a + b) {
                lemma_disjoint_kept(a + b);
            }
        }
    }
}

/// The centroid of each cluster, in order.
pub fn centroids(clusters: &Clusters) -> (r: Vec<usize>)
    ensures
        r@ == centroid_ids(groups(clusters@)),
{
    let mut out: Vec<usize> = Vec::with_capacity(clusters.len());
    let mut i: usize = 0;
    while i < clusters.len()
        invariant
            i <= clusters@.len(),
            out@ =~= centroid_ids(groups(clusters@)).take(i as int),
        decreases clusters@.len() - i,
    {
        out.push(clusters[i].0);
        i = i + 1;
    }
    out
}

/// Copies of the rows at the given positions, in that order.
pub fn get_embeddings(idx: &Vec<usize>, embeddings: &Vec<Embedding>) -> (r: Vec<Embedding>)
    requires
        forall|i: int| 0 <= i < idx@.len() ==> #[trigger] idx@[i] < embeddings@.len(),
    ensures
        rows_view(r@) == pick_rows(rows_view(embeddings@), idx@),
{
    let mut out: Vec<Embedding> = Vec::with_capacity(idx.len());
    let mut i: usize = 0;
    while i < idx.len()
        invariant
            i <= idx@.len(),
            forall|k: int| 0 <= k < idx@.len() ==> #[trigger] idx@[k] < embeddings@.len(),
            rows_view(out@) =~= pick_rows(rows_view(embeddings@), idx@).take(i as int),
        decreases idx@.len() - i,
    {
        let row = embeddings[idx[i]].clone();
        let ghost before = out@;
        assert(row@ == rows_view(embeddings@)[idx@[i as int] as int]);
        out.push(row);
        assert(rows_view(out@) =~= rows_view(before).push(row@));
        i = i + 1;
    }
    out
}

/// Similarity of every row of `x` with every row of `y`.
fn cross_similarity(x: &Vec<Embedding>, y: &Vec<Embedding>, dim: usize) -> (r: Vec<Vec<i128>>)
    requires
        forall|i: int| 0 <= i < x@.len() ==> (#[trigger] x@[i])@.len() == dim,
        forall|j: int| 0 <= j < y@.len() ==> (#[trigger] y@[j])@.len() == dim,
    ensures
        r@.len() == x@.len(),
        forall|i: int| 0 <= i < r@.len() ==> (#[trigger] r@[i])@.len() == y@.len(),
        forall|i: int, j: int|
            #![trigger r@[i]@[j]]
            0 <= i < x@.len() && 0 <= j < y@.len() ==> r@[i]@[j] == dot(x@[i]@, y@[j]@),
{
    let mut out: Vec<Vec<i128>> = Vec::with_capacity(x.len());
    let mut i: usize = 0;
    while i < x.len()
        invariant
            i <= x@.len(),
            forall|i: int| 0 <= i < x@.len() ==> (#[trigger] x@[i])@.len() == dim,
            forall|j: int| 0 <= j < y@.len() ==> (#[trigger] y@[j])@.len() == dim,
            out@.len() == i,
            forall|a: int| 0 <= a < i ==> (#[trigger] out@[a])@.len() == y@.len(),
            forall|a: int, j: int|
                #![trigger out@[a]@[j]]
                0 <= a < i && 0 <= j < y@.len() ==> out@[a]@[j] == dot(x@[a]@, y@[j]@),
        decreases x@.len() - i,
    {
        let mut row: Vec<i128> = Vec::with_capacity(y.len());
        let mut j: usize = 0;
        while j < y.len()
            invariant
                i < x@.len(),
                j <= y@.len(),
                forall|i: int| 0 <= i < x@.len() ==> (#[trigger] x@[i])@.len() == dim,
                forall|j: int| 0 <= j < y@.len() ==> (#[trigger] y@[j])@.len() == dim,
                row@.len() == j,
                forall|b: int| 0 <= b < j ==> #[trigger] row@[b] == dot(x@[i as int]@, y@[b]@),
            decreases y@.len() - j,
        {
            let s = dot_product(&x[i], &y[j]);
            row.push(s);
            j = j + 1;
        }
        out.push(row);
        i = i + 1;
    }
    out
}

/// Whether `v` holds `x`.
fn holds(v: &Vec<usize>, x: usize) -> (r: bool)
    ensures
        r == v@.contains(x),
{
    let mut i: usize = 0;
    while i < v.len()
        invariant
            i <= v@.len(),
            forall|k: int| 0 <= k < i ==> v@[k] != x,
        decreases v@.len() - i,
    {
        if v[i] == x {
            assert(v@[i as int] == x);
            return true;
        }
        i = i + 1;
    }
    false
}

/// Re-clusters the documents of two clusters as a corpus of their own and returns its
/// largest cluster in corpus positions, or `None` when that corpus yields no cluster
/// (the caller then keeps its cluster as it was).
pub fn merge_community(a: &Community, b: &Community, embeddings: &Vec<Embedding>, config: &Config) -> (r:
    Option<Community>)
    requires
        rectangular(rows_view(embeddings@)),
        good_group(
            rows_view(embeddings@),
            0,
            config.min_similarity as int,
            config.min_cluster_size as nat,
            group_of(*a),
        ),
        good_group(
            rows_view(embeddings@),
            0,
            config.min_similarity as int,
            config.min_cluster_size as nat,
            group_of(*b),
        ),
    ensures
        match r {
            Some(m) => merged(
                group_of(*a),
                group_of(*b),
                rows_view(embeddings@),
                config.min_similarity as int,
                config.min_cluster_size as nat,
            ) == Some(group_of(m)),
            None => merged(
                group_of(*a),
                group_of(*b),
                rows_view(embeddings@),
                config.min_similarity as int,
                config.min_cluster_size as nat,
            ) is None,
        },
{
    let ghost c = rows_view(embeddings@);
    let ghost t = config.min_similarity as int;
    let ghost min = config.min_cluster_size as nat;
    let n = embeddings.len();
    let mut idx: Vec<usize> = a.1.clone();
    let mut j: usize = 0;
    while j < b.1.len()
        invariant
            idx@ == a.1@ + fresh_members(a.1@, b.1@.take(j as int)),
            j <= b.1@.len(),
        decreases b.1@.len() - j,
    {
        assert(b.1@.take(j + 1).drop_last() =~= b.1@.take(j as int));
        if !holds(&a.1, b.1[j]) {
            idx.push(b.1[j]);
        }
        j = j + 1;
        assert(idx@ =~= a.1@ + fresh_members(a.1@, b.1@.take(j as int)));
    }
    assert(b.1@.take(b.1@.len() as int) =~= b.1@);
    let ghost u = union_members(a.1@, b.1@);
    assert(idx@ == u);
    proof {
        lemma_union(a.1@, b.1@);
        assert forall|i: int| 0 <= i < u.len() implies #[trigger] u[i] < c.len() by {
            if a.1@.contains(u[i]) {
                let k = choose|k: int| 0 <= k < a.1@.len() && a.1@[k] == u[i];
                assert(0 <= a.1@[k] < c.len());
            } else {
                let k = choose|k: int| 0 <= k < b.1@.len() && b.1@[k] == u[i];
                assert(0 <= b.1@[k] < c.len());
            }
        }
    }
    let sub = get_embeddings(&idx, embeddings);
    let ghost sc = rows_view(sub@);
    assert(sc == pick_rows(c, u));
    proof {
        assert(sc[0] == c[u[0] as int]);
        assert forall|i: int| 0 <= i < sc.len() implies #[trigger] sc[i].len() == sc[0].len() by {
            assert(sc[i] == c[u[i] as int]);
        }
    }
    let found = cluster_no_splitting(&sub, 0, config);
    if found.len() == 0 {
        return None;
    }
    let top = &found[0];
    proof {
        assert(good_group(sc, 0, t, min, groups(found@)[0]));
    }
    let centroid = idx[top.0];
    let mut members: Vec<usize> = Vec::with_capacity(top.1.len());
    let mut k: usize = 0;
    while k < top.1.len()
        invariant
            good_group(sc, 0, t, min, group_of(*top)),
            sc.len() == idx@.len(),
            k <= top.1@.len(),
            members@ =~= top.1@.map_values(|x: usize| u[x as int]).take(k as int),
            idx@ == u,
        decreases top.1@.len() - k,
    {
        assert(0 <= top.1@[k as int] < sc.len());
        members.push(idx[top.1[k]]);
        k = k + 1;
    }
    Some((centroid, members))
}

/// Merges a new partition `b` into the running partition `a`: clusters whose centroids
/// are more similar than the threshold are re-clustered together, then everything is
/// filtered by size, ordered and reduced again. When the documents of two such clusters,
/// clustered on their own, form no cluster at all (`merge_community` gives `None`), the
/// cluster of `a` is kept unchanged on purpose: the run goes on rather than stopping, and
/// the final reduction still decides between it and the cluster of `b`.
pub fn merge_clusters(a: Clusters, b: Clusters, embeddings: &Vec<Embedding>, config: &Config) -> (r:
    Clusters)
    requires
        rectangular(rows_view(embeddings@)),
        valid_partition(
            rows_view(embeddings@),
            0,
            config.min_similarity as int,
            config.min_cluster_size as nat,
            groups(a@),
        ),
        valid_partition(
            rows_view(embeddings@),
            0,
            config.min_similarity as int,
            config.min_cluster_size as nat,
            groups(b@),
        ),
    ensures
        groups(r@) == merge_spec(
            groups(a@),
            groups(b@),
            rows_view(embeddings@),
            config.min_similarity as int,
            config.min_cluster_size as nat,
        ),
        valid_partition(
            rows_view(embeddings@),
            0,
            config.min_similarity as int,
            config.min_cluster_size as nat,
            groups(r@),
        ),
{
    let ghost c = rows_view(embeddings@);
    let ghost t = config.min_similarity as int;
    let ghost min = config.min_cluster_size as nat;
    let ghost ga = groups(a@);
    let ghost gb = groups(b@);
    proof {
        assert(embeddings@.len() == embeddings.len());
        lemma_merge_valid(ga, gb, c, t, min);
    }
    if a.len() == 0 {
        return b;
    }
    if b.len() == 0 {
        return a;
    }
    let dim = embeddings[0].len();
    proof {
        assert forall|i: int| 0 <= i < ga.len() implies (#[trigger] centroid_ids(ga)[i]) < c.len() by {
            assert(good_group(c, 0, t, min, ga[i]));
        }
        assert forall|i: int| 0 <= i < gb.len() implies (#[trigger] centroid_ids(gb)[i]) < c.len() by {
            assert(good_group(c, 0, t, min, gb[i]));
        }
    }
    let a_centroids = centroids(&a);
    let b_centroids = centroids(&b);
    let a_embeddings = get_embeddings(&a_centroids, embeddings);
    let b_embeddings = get_embeddings(&b_centroids, embeddings);
    proof {
        assert(rows_view(a_embeddings@).len() == a_embeddings@.len());
        assert(rows_view(b_embeddings@).len() == b_embeddings@.len());
        assert forall|i: int| 0 <= i < a_embeddings@.len() implies (#[trigger] a_embeddings@[i])@.len() == dim by {
            assert(rows_view(a_embeddings@)[i] == a_embeddings@[i]@);
            assert(centroid_ids(ga)[i] < c.len());
            assert(c[a_centroids@[i] as int].len() == c[0].len());
        }
        assert forall|i: int| 0 <= i < b_embeddings@.len() implies (#[trigger] b_embeddings@[i])@.len() == dim by {
            assert(rows_view(b_embeddings@)[i] == b_embeddings@[i]@);
            assert(centroid_ids(gb)[i] < c.len());
            assert(c[b_centroids@[i] as int].len() == c[0].len());
        }
    }
    let scores = cross_similarity(&a_embeddings, &b_embeddings, dim);
    proof {
        assert forall|x: int, y: int| 0 <= x < a@.len() && 0 <= y < b@.len() implies #[trigger] scores@[x]@[y]
            == dot(c[ga[x].0 as int], c[gb[y].0 as int]) by {
            assert(rows_view(a_embeddings@)[x] == a_embeddings@[x]@);
            assert(rows_view(b_embeddings@)[y] == b_embeddings@[y]@);
            assert(centroid_ids(ga)[x] == ga[x].0);
            assert(centroid_ids(gb)[y] == gb[y].0);
        }
    }
    let mut merged_a: Clusters = Vec::with_capacity(a.len());
    let mut i: usize = 0;
    while i < a.len()
        invariant
            c == rows_view(embeddings@),
            rectangular(c),
            c.len() == embeddings@.len() <= usize::MAX,
            ga == groups(a@),
            gb == groups(b@),
            all_good(c, 0, t, min, ga),
            all_good(c, 0, t, min, gb),
            t == config.min_similarity as int,
            min == config.min_cluster_size as nat,
            i <= a@.len(),
            scores@.len() == a@.len(),
            forall|x: int| 0 <= x < scores@.len() ==> (#[trigger] scores@[x])@.len() == b@.len(),
            forall|x: int, y: int|
                #![trigger scores@[x]@[y]]
                0 <= x < a@.len() && 0 <= y < b@.len() ==> scores@[x]@[y] == dot(
                    c[ga[x].0 as int],
                    c[gb[y].0 as int],
                ),
            groups(merged_a@) =~= absorbed_all(ga, gb, c, t, min).take(i as int),
        decreases a@.len() - i,
    {
        let mut g: Community = (a[i].0, a[i].1.clone());
        assert(group_of(g) == ga[i as int]);
        let mut j: usize = 0;
        while j < b.len()
            invariant
                c == rows_view(embeddings@),
                rectangular(c),
                c.len() == embeddings@.len() <= usize::MAX,
                ga == groups(a@),
                gb == groups(b@),
                all_good(c, 0, t, min, gb),
                t == config.min_similarity as int,
                min == config.min_cluster_size as nat,
                i < a@.len(),
                j <= b@.len(),
                scores@.len() == a@.len(),
                forall|x: int| 0 <= x < scores@.len() ==> (#[trigger] scores@[x])@.len() == b@.len(),
                forall|x: int, y: int|
                    #![trigger scores@[x]@[y]]
                    0 <= x < a@.len() && 0 <= y < b@.len() ==> scores@[x]@[y] == dot(
                        c[ga[x].0 as int],
                        c[gb[y].0 as int],
                    ),
                group_of(g) == absorb(ga[i as int].0, ga[i as int], gb, j as nat, c, t, min),
                good_group(c, 0, t, min, group_of(g)),
            decreases b@.len() - j,
        {
            assert(good_group(c, 0, t, min, gb[j as int]));
            assert(group_of(b@[j as int]) == gb[j as int]);
            if scores[i][j] > config.min_similarity as i128 {
                match merge_community(&g, &b[j], embeddings, config) {
                    Some(m) => {
                        proof {
                            lemma_merged_good(group_of(g), gb[j as int], c, t, min);
                        }
                        g = m;
                    },
                    None => {},
                }
            }
            j = j + 1;
        }
        let ghost before = merged_a@;
        let ghost gg = group_of(g);
        merged_a.push(g);
        assert(groups(merged_a@) =~= groups(before).push(gg));
        i = i + 1;
    }
    let ghost ab = absorbed_all(ga, gb, c, t, min);
    assert(groups(merged_a@) =~= ab);
    let mut all: Clusters = Vec::new();
    let mut k: usize = 0;
    while k < merged_a.len()
        invariant
            k <= merged_a@.len(),
            groups(merged_a@) == ab,
            gb == groups(b@),
            groups(all@) =~= larger_than((ab + gb).take(k as int), min),
            min == config.min_cluster_size as nat,
        decreases merged_a@.len() - k,
    {
        assert((ab + gb).take(k + 1).drop_last() =~= (ab + gb).take(k as int));
        assert((ab + gb)[k as int] == ab[k as int]);
        if merged_a[k].1.len() > config.min_cluster_size {
            let item: Community = (merged_a[k].0, merged_a[k].1.clone());
            all.push(item);
        }
        k = k + 1;
    }
    let mut k: usize = 0;
    while k < b.len()
        invariant
            k <= b@.len(),
            groups(merged_a@) == ab,
            gb == groups(b@),
            groups(all@) =~= larger_than((ab + gb).take(ab.len() + k as int), min),
            min == config.min_cluster_size as nat,
        decreases b@.len() - k,
    {
        assert((ab + gb).take(ab.len() + k as int + 1).drop_last() =~= (ab + gb).take(ab.len() + k as int));
        assert((ab + gb)[ab.len() + k as int] == gb[k as int]);
        if b[k].1.len() > config.min_cluster_size {
            let item: Community = (b[k].0, b[k].1.clone());
            all.push(item);
        }
        k = k + 1;
    }
    assert((ab + gb).take((ab.len() + gb.len()) as int) =~= ab + gb);
    let sorted = sort_by_size(&all);
    unique_clusters(&sorted)
}

/// Total number of memberships over all clusters.
pub fn count_docs_in_clusters(clusters: &Clusters) -> (r: usize)
    requires
        total(groups(clusters@)) <= usize::MAX,
    ensures
        r == total(groups(clusters@)),
{
    let ghost g = groups(clusters@);
    let mut n: usize = 0;
    let mut i: usize = 0;
    while i < clusters.len()
        invariant
            g == groups(clusters@),
            i <= clusters@.len(),
            n == total(g.take(i as int)),
            total(g) <= usize::MAX,
        decreases clusters@.len() - i,
    {
        assert(g.take(i + 1).drop_last() =~= g.take(i as int));
        proof {
            lemma_total_prefix(g, i + 1);
        }
        n = n + clusters[i].1.len();
        i = i + 1;
    }
    assert(g.take(clusters@.len() as int) =~= g);
    n
}

proof fn lemma_total_prefix(g: Seq<Group>, k: int)
    requires
        0 <= k <= g.len(),
    ensures
        total(g.take(k)) <= total(g),
    decreases g.len(),
{
    if k < g.len() {
        assert(g.drop_last().take(k) =~= g.take(k));
        lemma_total_prefix(g.drop_last(), k);
    } else {
        assert(g.take(k) =~= g);
    }
}

/// The set of documents that some cluster holds.
pub fn clustered_document_indexes(clusters: &Clusters) -> (r: std::collections::HashSet<usize>)
    ensures
        r@ == claimed(groups(clusters@)),
{
    let ghost g = groups(clusters@);
    let mut seen: std::collections::HashSet<usize> = std::collections::HashSet::new();
    let mut i: usize = 0;
    while i < clusters.len()
        invariant
            g == groups(clusters@),
            i <= clusters@.len(),
            seen@ == claimed(g.take(i as int)),
        decreases clusters@.len() - i,
    {
        let members = &clusters[i].1;
        let ghost before = seen@;
        let mut j: usize = 0;
        while j < members.len()
            invariant
                j <= members@.len(),
                forall|x: usize|
                    #[trigger] seen@.contains(x) <==> (before.contains(x) || exists|a: int|
                        0 <= a < j && members@[a] == x),
            decreases members@.len() - j,
        {
            let ghost prev = seen@;
            seen.insert(members[j]);
            assert forall|x: usize|
                #[trigger] seen@.contains(x) <==> (before.contains(x) || exists|a: int|
                    0 <= a < j + 1 && members@[a] == x) by {
                if x == members@[j as int] {
                    assert(members@[j as int] == x);
                }
                if exists|a: int| 0 <= a < j + 1 && members@[a] == x {
                    let a = choose|a: int| 0 <= a < j + 1 && members@[a] == x;
                    if a < j {
                        assert(prev.contains(x));
                    }
                }
            }
            j = j + 1;
        }
        assert(seen@ =~= before.union(members@.to_set())) by {
            assert forall|x: usize| seen@.contains(x) <==> before.union(members@.to_set()).contains(x) by {
                if members@.contains(x) {
                    let a = choose|a: int| 0 <= a < members@.len() && members@[a] == x;
                    assert(seen@.contains(x));
                }
            }
        }
        assert(members@.take(members@.len() as int) =~= members@);
        assert(g.take(i + 1).drop_last() =~= g.take(i as int));
        assert(g.take(i + 1).last() == g[i as int]);
        i = i + 1;
    }
    assert(g.take(clusters@.len() as int) =~= g);
    seen
}

} // verus!
