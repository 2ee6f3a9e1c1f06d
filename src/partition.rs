//! Ordering candidates by size and the greedy reduction of overlapping
//! candidates to a disjoint partition.
use vstd::prelude::*;
use crate::community::{groups, Clusters, Community, Group};

verus! {

broadcast use vstd::std_specs::hash::group_hash_axioms;

/// The candidates of `c` with exactly `s` members, in their order in `c`.
pub open spec fn of_size(c: Seq<Group>, s: nat) -> Seq<Group>
    decreases c.len(),
{
    if c.len() == 0 {
        Seq::empty()
    } else {
        let r = of_size(c.drop_last(), s);
        if c.last().1.len() == s {
            r.push(c.last())
        } else {
            r
        }
    }
}

/// The candidates with `hi` members, then those with `hi - 1`, and so on down to `lo`.
pub open spec fn sizes_down(c: Seq<Group>, hi: int, lo: int) -> Seq<Group>
    decreases hi - lo + 1,
{
    if lo > hi || lo < 0 {
        Seq::empty()
    } else {
        sizes_down(c, hi, lo + 1) + of_size(c, lo as nat)
    }
}

/// The largest member count in `c` (zero when `c` is empty).
pub open spec fn largest(c: Seq<Group>) -> nat
    decreases c.len(),
{
    if c.len() == 0 {
        0
    } else {
        let m = largest(c.drop_last());
        if c.last().1.len() > m {
            c.last().1.len()
        } else {
            m
        }
    }
}

/// `c` ordered by member count, largest first; candidates of equal size keep their order.
pub open spec fn by_size(c: Seq<Group>) -> Seq<Group> {
    sizes_down(c, largest(c) as int, 0)
}

/// Every document that some cluster of `r` holds.
pub open spec fn claimed(r: Seq<Group>) -> Set<usize>
    decreases r.len(),
{
    if r.len() == 0 {
        Set::empty()
    } else {
        claimed(r.drop_last()).union(r.last().1.to_set())
    }
}

/// No member of `m` is in `s`.
pub open spec fn is_free(m: Seq<usize>, s: Set<usize>) -> bool {
    forall|i: int| 0 <= i < m.len() ==> !s.contains(#[trigger] m[i])
}

/// The greedy pass over the first `k` candidates: a candidate is kept whole when
/// none of its members is held by a cluster kept before it, and dropped whole otherwise.
pub open spec fn dedupe_prefix(c: Seq<Group>, k: nat) -> Seq<Group>
    decreases k,
{
    if k == 0 {
        Seq::empty()
    } else {
        let r = dedupe_prefix(c, (k - 1) as nat);
        if is_free(c[k - 1].1, claimed(r)) {
            r.push(c[k - 1])
        } else {
            r
        }
    }
}

/// The candidates that the greedy pass over the first `k` drops.
pub open spec fn rejected_prefix(c: Seq<Group>, k: nat) -> Seq<Group>
    decreases k,
{
    if k == 0 {
        Seq::empty()
    } else {
        let r = rejected_prefix(c, (k - 1) as nat);
        if is_free(c[k - 1].1, claimed(dedupe_prefix(c, (k - 1) as nat))) {
            r
        } else {
            r.push(c[k - 1])
        }
    }
}

/// The partition that the greedy pass makes of `c`.
pub open spec fn dedupe(c: Seq<Group>) -> Seq<Group> {
    dedupe_prefix(c, c.len())
}

/// The candidates that the greedy pass drops from `c`.
pub open spec fn rejected(c: Seq<Group>) -> Seq<Group> {
    rejected_prefix(c, c.len())
}

/// No document is a member of two different clusters.
pub open spec fn disjoint(r: Seq<Group>) -> bool {
    forall|i: int, j: int, a: int, b: int|
        0 <= i < r.len() && 0 <= j < r.len() && i != j && 0 <= a < r[i].1.len() && 0 <= b
            < r[j].1.len() ==> #[trigger] r[i].1[a] != #[trigger] r[j].1[b]
}

/// Total number of memberships over all clusters.
pub open spec fn total(r: Seq<Group>) -> nat
    decreases r.len(),
{
    if r.len() == 0 {
        0
    } else {
        total(r.drop_last()) + r.last().1.len()
    }
}

pub proof fn lemma_claimed(r: Seq<Group>, x: usize)
    ensures
        claimed(r).contains(x) <==> exists|i: int, a: int|
            0 <= i < r.len() && 0 <= a < r[i].1.len() && #[trigger] r[i].1[a] == x,
    decreases r.len(),
{
    if r.len() > 0 {
        let p = r.drop_last();
        lemma_claimed(p, x);
        if claimed(r).contains(x) {
            if claimed(p).contains(x) {
                let (i, a) = choose|i: int, a: int|
                    0 <= i < p.len() && 0 <= a < p[i].1.len() && #[trigger] p[i].1[a] == x;
                assert(r[i].1[a] == x);
            } else {
                assert(r.last().1.contains(x));
                let a = choose|a: int| 0 <= a < r.last().1.len() && r.last().1[a] == x;
                assert(r[r.len() - 1].1[a] == x);
            }
        }
        if exists|i: int, a: int| 0 <= i < r.len() && 0 <= a < r[i].1.len() && #[trigger] r[i].1[a] == x {
            let (i, a) = choose|i: int, a: int|
                0 <= i < r.len() && 0 <= a < r[i].1.len() && #[trigger] r[i].1[a] == x;
            if i < r.len() - 1 {
                assert(p[i].1[a] == x);
            } else {
                assert(r.last().1.contains(x));
            }
        }
    }
}

/// Every cluster of the greedy result is one of the candidates, and the result is disjoint.
pub proof fn lemma_dedupe_prefix(c: Seq<Group>, k: nat)
    requires
        k <= c.len(),
    ensures
        disjoint(dedupe_prefix(c, k)),
        forall|i: int|
            0 <= i < dedupe_prefix(c, k).len() ==> c.take(k as int).contains(
                #[trigger] dedupe_prefix(c, k)[i],
            ),
        total(dedupe_prefix(c, k)) + total(rejected_prefix(c, k)) == total(c.take(k as int)),
    decreases k,
{
    if k > 0 {
        let k1 = (k - 1) as nat;
        lemma_dedupe_prefix(c, k1);
        let r = dedupe_prefix(c, k1);
        let q = dedupe_prefix(c, k);
        assert(c.take(k as int).drop_last() =~= c.take(k1 as int));
        assert forall|i: int| 0 <= i < q.len() implies c.take(k as int).contains(#[trigger] q[i]) by {
            if i < r.len() {
                assert(q[i] == r[i]);
                let j = choose|j: int| 0 <= j < k1 && c.take(k1 as int)[j] == r[i];
                assert(c.take(k as int)[j] == r[i]);
            } else {
                assert(c.take(k as int)[k - 1] == q[i]);
            }
        }
        assert(total(c.take(k as int)) == total(c.take(k1 as int)) + c[k - 1].1.len());
        let rj = rejected_prefix(c, k1);
        let qj = rejected_prefix(c, k);
        if is_free(c[k - 1].1, claimed(r)) {
            assert(q.drop_last() =~= r);
            assert(qj == rj);
            assert forall|i: int, j: int, a: int, b: int|
                0 <= i < q.len() && 0 <= j < q.len() && i != j && 0 <= a < q[i].1.len() && 0 <= b
                    < q[j].1.len() implies #[trigger] q[i].1[a] != #[trigger] q[j].1[b] by {
                if i < r.len() && j < r.len() {
                    assert(q[i] == r[i] && q[j] == r[j]);
                } else if i < r.len() {
                    assert(q[i] == r[i]);
                    lemma_claimed(r, r[i].1[a]);
                } else {
                    assert(q[j] == r[j]);
                    lemma_claimed(r, r[j].1[b]);
                }
            }
        } else {
            assert(qj.drop_last() =~= rj);
            assert(q == r);
        }
    }
}

proof fn lemma_of_size_from(c: Seq<Group>, s: nat)
    ensures
        forall|i: int| 0 <= i < of_size(c, s).len() ==> c.contains(#[trigger] of_size(c, s)[i]),
    decreases c.len(),
{
    if c.len() > 0 {
        let p = c.drop_last();
        lemma_of_size_from(p, s);
        let r = of_size(p, s);
        let q = of_size(c, s);
        assert forall|i: int| 0 <= i < q.len() implies c.contains(#[trigger] q[i]) by {
            if i < r.len() {
                assert(q[i] == r[i]);
                let j = choose|j: int| 0 <= j < p.len() && p[j] == r[i];
                assert(c[j] == r[i]);
            } else {
                assert(c[c.len() - 1] == q[i]);
            }
        }
    }
}

proof fn lemma_sizes_down_from(c: Seq<Group>, hi: int, lo: int)
    ensures
        forall|i: int|
            0 <= i < sizes_down(c, hi, lo).len() ==> c.contains(#[trigger] sizes_down(c, hi, lo)[i]),
    decreases hi - lo + 1,
{
    if !(lo > hi || lo < 0) {
        lemma_sizes_down_from(c, hi, lo + 1);
        lemma_of_size_from(c, lo as nat);
        let a = sizes_down(c, hi, lo + 1);
        let b = of_size(c, lo as nat);
        assert forall|i: int| 0 <= i < (a + b).len() implies c.contains(#[trigger] (a + b)[i]) by {
            if i < a.len() {
                assert((a + b)[i] == a[i]);
            } else {
                assert((a + b)[i] == b[i - a.len()]);
            }
        }
    }
}

/// Every candidate of the ordered list is one of the input candidates.
pub proof fn lemma_by_size_from(c: Seq<Group>)
    ensures
        forall|i: int| 0 <= i < by_size(c).len() ==> c.contains(#[trigger] by_size(c)[i]),
{
    lemma_sizes_down_from(c, largest(c) as int, 0);
}

/// Every cluster of the greedy result is one of the candidates, and no two share a document.
pub proof fn lemma_dedupe(c: Seq<Group>)
    ensures
        disjoint(dedupe(c)),
        forall|i: int| 0 <= i < dedupe(c).len() ==> c.contains(#[trigger] dedupe(c)[i]),
        total(dedupe(c)) + total(rejected(c)) == total(c),
{
    lemma_dedupe_prefix(c, c.len());
    assert(c.take(c.len() as int) =~= c);
}

pub proof fn lemma_total_concat(a: Seq<Group>, b: Seq<Group>)
    ensures
        total(a + b) == total(a) + total(b),
    decreases b.len(),
{
    if b.len() == 0 {
        assert(a + b =~= a);
    } else {
        lemma_total_concat(a, b.drop_last());
        assert((a + b).drop_last() =~= a + b.drop_last());
    }
}

proof fn lemma_sizes_down_push(p: Seq<Group>, x: Group, hi: int, lo: int)
    ensures
        total(sizes_down(p.push(x), hi, lo)) == total(sizes_down(p, hi, lo)) + (if 0 <= lo <= x.1.len()
            <= hi {
            x.1.len()
        } else {
            0
        }),
    decreases hi - lo + 1,
{
    let c = p.push(x);
    assert(c.drop_last() =~= p);
    if !(lo > hi || lo < 0) {
        lemma_sizes_down_push(p, x, hi, lo + 1);
        lemma_total_concat(sizes_down(c, hi, lo + 1), of_size(c, lo as nat));
        lemma_total_concat(sizes_down(p, hi, lo + 1), of_size(p, lo as nat));
        if x.1.len() == lo {
            assert(of_size(c, lo as nat).drop_last() =~= of_size(p, lo as nat));
        }
    }
}

proof fn lemma_largest(c: Seq<Group>)
    ensures
        forall|i: int| 0 <= i < c.len() ==> (#[trigger] c[i]).1.len() <= largest(c),
    decreases c.len(),
{
    if c.len() > 0 {
        lemma_largest(c.drop_last());
        assert forall|i: int| 0 <= i < c.len() implies (#[trigger] c[i]).1.len() <= largest(c) by {
            if i < c.len() - 1 {
                assert(c[i] == c.drop_last()[i]);
            }
        }
    }
}

proof fn lemma_sizes_down_total(c: Seq<Group>, m: int)
    requires
        m >= 0,
        forall|i: int| 0 <= i < c.len() ==> (#[trigger] c[i]).1.len() <= m,
    ensures
        total(sizes_down(c, m, 0)) == total(c),
    decreases c.len(),
{
    if c.len() == 0 {
        lemma_sizes_down_empty(c, m, 0);
    } else {
        let p = c.drop_last();
        assert(p.push(c.last()) =~= c);
        lemma_sizes_down_total(p, m);
        lemma_sizes_down_push(p, c.last(), m, 0);
    }
}

proof fn lemma_sizes_down_empty(c: Seq<Group>, hi: int, lo: int)
    requires
        c.len() == 0,
    ensures
        total(sizes_down(c, hi, lo)) == 0,
    decreases hi - lo + 1,
{
    if !(lo > hi || lo < 0) {
        lemma_sizes_down_empty(c, hi, lo + 1);
        lemma_total_concat(sizes_down(c, hi, lo + 1), of_size(c, lo as nat));
    }
}

/// Ordering by size neither adds nor loses memberships.
pub proof fn lemma_by_size_total(c: Seq<Group>)
    ensures
        total(by_size(c)) == total(c),
{
    lemma_largest(c);
    lemma_sizes_down_total(c, largest(c) as int);
}

/// Member counts never grow along `s`.
pub open spec fn sorted_by_size(s: Seq<Group>) -> bool {
    forall|i: int, j: int| 0 <= i < j < s.len() ==> (#[trigger] s[i]).1.len() >= (#[trigger] s[j]).1.len()
}

proof fn lemma_of_size_sizes(c: Seq<Group>, s: nat)
    ensures
        forall|i: int| 0 <= i < of_size(c, s).len() ==> (#[trigger] of_size(c, s)[i]).1.len() == s,
    decreases c.len(),
{
    if c.len() > 0 {
        lemma_of_size_sizes(c.drop_last(), s);
        let r = of_size(c.drop_last(), s);
        let q = of_size(c, s);
        assert forall|i: int| 0 <= i < q.len() implies (#[trigger] q[i]).1.len() == s by {
            if i < r.len() {
                assert(q[i] == r[i]);
            }
        }
    }
}

proof fn lemma_sizes_down_sorted(c: Seq<Group>, hi: int, lo: int)
    ensures
        sorted_by_size(sizes_down(c, hi, lo)),
        forall|i: int|
            0 <= i < sizes_down(c, hi, lo).len() ==> (#[trigger] sizes_down(c, hi, lo)[i]).1.len() >= lo,
    decreases hi - lo + 1,
{
    if !(lo > hi || lo < 0) {
        lemma_sizes_down_sorted(c, hi, lo + 1);
        lemma_of_size_sizes(c, lo as nat);
        let a = sizes_down(c, hi, lo + 1);
        let b = of_size(c, lo as nat);
        let q = a + b;
        assert forall|i: int| 0 <= i < q.len() implies (#[trigger] q[i]).1.len() >= lo by {
            if i < a.len() {
                assert(q[i] == a[i]);
            } else {
                assert(q[i] == b[i - a.len()]);
            }
        }
        assert forall|i: int, j: int| 0 <= i < j < q.len() implies (#[trigger] q[i]).1.len() >= (
        #[trigger] q[j]).1.len() by {
            if j < a.len() {
                assert(q[i] == a[i] && q[j] == a[j]);
            } else if i < a.len() {
                assert(q[i] == a[i] && q[j] == b[j - a.len()]);
            } else {
                assert(q[i] == b[i - a.len()] && q[j] == b[j - a.len()]);
            }
        }
    }
}

/// The ordered candidates are sorted by member count, largest first.
pub proof fn lemma_by_size_sorted(c: Seq<Group>)
    ensures
        sorted_by_size(by_size(c)),
{
    lemma_sizes_down_sorted(c, largest(c) as int, 0);
}

proof fn lemma_dedupe_prefix_extends(c: Seq<Group>, k1: nat, k2: nat)
    requires
        k1 <= k2,
    ensures
        dedupe_prefix(c, k1).len() <= dedupe_prefix(c, k2).len(),
        forall|i: int|
            0 <= i < dedupe_prefix(c, k1).len() ==> #[trigger] dedupe_prefix(c, k2)[i]
                == dedupe_prefix(c, k1)[i],
    decreases k2,
{
    if k1 < k2 {
        lemma_dedupe_prefix_extends(c, k1, (k2 - 1) as nat);
    }
}

/// Some cluster of `d`, at least as large as `y`, holds a document of `y`.
pub open spec fn has_survivor(d: Seq<Group>, y: Group) -> bool {
    exists|j: int, a: int, b: int|
        0 <= j < d.len() && 0 <= a < d[j].1.len() && 0 <= b < y.1.len() && #[trigger] d[j].1[a]
            == #[trigger] y.1[b] && d[j].1.len() >= y.1.len()
}

/// Over candidates sorted largest first, each dropped candidate shares a document with a
/// kept cluster that is at least as large.
pub proof fn lemma_rejected_survivor(c: Seq<Group>, k: nat)
    requires
        k <= c.len(),
        sorted_by_size(c),
    ensures
        forall|i: int|
            0 <= i < rejected_prefix(c, k).len() ==> has_survivor(
                dedupe_prefix(c, k),
                #[trigger] rejected_prefix(c, k)[i],
            ),
    decreases k,
{
    if k > 0 {
        let k1 = (k - 1) as nat;
        lemma_rejected_survivor(c, k1);
        lemma_dedupe_prefix_extends(c, k1, k);
        lemma_dedupe_prefix(c, k1);
        let d1 = dedupe_prefix(c, k1);
        let d = dedupe_prefix(c, k);
        let p = rejected_prefix(c, k1);
        let q = rejected_prefix(c, k);
        assert forall|i: int| 0 <= i < q.len() implies has_survivor(d, #[trigger] q[i]) by {
            if i < p.len() {
                assert(q[i] == p[i]);
                assert(has_survivor(d1, p[i]));
                let (j, a, b) = choose|j: int, a: int, b: int|
                    0 <= j < d1.len() && 0 <= a < d1[j].1.len() && 0 <= b < p[i].1.len() && #[trigger] d1[j].1[a]
                        == #[trigger] p[i].1[b] && d1[j].1.len() >= p[i].1.len();
                assert(d[j] == d1[j]);
                assert(d[j].1[a] == q[i].1[b]);
            } else {
                assert(q[i] == c[k - 1]);
                let m = c[k - 1].1;
                assert(!is_free(m, claimed(d1)));
                let b = choose|b: int| 0 <= b < m.len() && claimed(d1).contains(#[trigger] m[b]);
                lemma_claimed(d1, m[b]);
                let (j, a) = choose|j: int, a: int|
                    0 <= j < d1.len() && 0 <= a < d1[j].1.len() && #[trigger] d1[j].1[a] == m[b];
                assert(c.take(k1 as int).contains(d1[j]));
                let j2 = choose|j2: int| 0 <= j2 < k1 && c.take(k1 as int)[j2] == d1[j];
                assert(c[j2] == d1[j]);
                assert(c[j2].1.len() >= c[k - 1].1.len());
                assert(d[j] == d1[j]);
                assert(d[j].1[a] == q[i].1[b]);
            }
        }
    }
}

/// How many times `g` occurs in `s`.
pub open spec fn occurrences(s: Seq<Group>, g: Group) -> nat
    decreases s.len(),
{
    if s.len() == 0 {
        0
    } else {
        occurrences(s.drop_last(), g) + if s.last() == g {
            1nat
        } else {
            0nat
        }
    }
}

proof fn lemma_occurrences_concat(a: Seq<Group>, b: Seq<Group>, g: Group)
    ensures
        occurrences(a + b, g) == occurrences(a, g) + occurrences(b, g),
    decreases b.len(),
{
    if b.len() == 0 {
        assert(a + b =~= a);
    } else {
        lemma_occurrences_concat(a, b.drop_last(), g);
        assert((a + b).drop_last() =~= a + b.drop_last());
    }
}

proof fn lemma_occurrences_of_size(c: Seq<Group>, n: nat, g: Group)
    ensures
        occurrences(of_size(c, n), g) == if g.1.len() == n {
            occurrences(c, g)
        } else {
            0
        },
    decreases c.len(),
{
    if c.len() > 0 {
        lemma_occurrences_of_size(c.drop_last(), n, g);
        let r = of_size(c.drop_last(), n);
        if c.last().1.len() == n {
            assert(r.push(c.last()).drop_last() =~= r);
        }
    }
}

proof fn lemma_occurrences_sizes_down(c: Seq<Group>, hi: int, lo: int, g: Group)
    ensures
        occurrences(sizes_down(c, hi, lo), g) == if 0 <= lo <= g.1.len() <= hi {
            occurrences(c, g)
        } else {
            0
        },
    decreases hi - lo + 1,
{
    if !(lo > hi || lo < 0) {
        lemma_occurrences_sizes_down(c, hi, lo + 1, g);
        lemma_occurrences_of_size(c, lo as nat, g);
        lemma_occurrences_concat(sizes_down(c, hi, lo + 1), of_size(c, lo as nat), g);
    }
}

proof fn lemma_occurrences_positive(s: Seq<Group>, i: int)
    requires
        0 <= i < s.len(),
    ensures
        occurrences(s, s[i]) >= 1,
    decreases s.len(),
{
    if i < s.len() - 1 {
        lemma_occurrences_positive(s.drop_last(), i);
    }
}

proof fn lemma_occurrences_two(s: Seq<Group>, i: int, j: int)
    requires
        0 <= i < j < s.len(),
        s[i] == s[j],
    ensures
        occurrences(s, s[i]) >= 2,
    decreases s.len(),
{
    if j < s.len() - 1 {
        lemma_occurrences_two(s.drop_last(), i, j);
    } else {
        lemma_occurrences_positive(s.drop_last(), i);
    }
}

proof fn lemma_occurrences_split(s: Seq<Group>, g: Group)
    requires
        occurrences(s, g) >= 2,
    ensures
        exists|i: int, j: int| 0 <= i < j < s.len() && s[i] == g && s[j] == g,
    decreases s.len(),
{
    let p = s.drop_last();
    if s.last() == g {
        if occurrences(p, g) >= 2 {
            lemma_occurrences_split(p, g);
            let (i, j) = choose|i: int, j: int| 0 <= i < j < p.len() && p[i] == g && p[j] == g;
            assert(s[i] == g && s[j] == g);
        } else {
            lemma_occurrences_at(p, g);
            let i = choose|i: int| 0 <= i < p.len() && p[i] == g;
            assert(s[i] == g && s[s.len() - 1] == g);
        }
    } else {
        lemma_occurrences_split(p, g);
        let (i, j) = choose|i: int, j: int| 0 <= i < j < p.len() && p[i] == g && p[j] == g;
        assert(s[i] == g && s[j] == g);
    }
}

proof fn lemma_occurrences_at(s: Seq<Group>, g: Group)
    requires
        occurrences(s, g) >= 1,
    ensures
        exists|i: int| 0 <= i < s.len() && s[i] == g,
    decreases s.len(),
{
    let p = s.drop_last();
    if s.last() == g {
        assert(s[s.len() - 1] == g);
    } else {
        lemma_occurrences_at(p, g);
        let i = choose|i: int| 0 <= i < p.len() && p[i] == g;
        assert(s[i] == g);
    }
}

/// Ordering by size keeps clusters that share no document apart: when the candidates
/// are disjoint and none is empty, so is their ordering, and nothing is dropped.
pub proof fn lemma_disjoint_kept(c: Seq<Group>)
    requires
        disjoint(c),
        forall|i: int| 0 <= i < c.len() ==> (#[trigger] c[i]).1.len() > 0,
    ensures
        disjoint(by_size(c)),
        dedupe(by_size(c)) == by_size(c),
        rejected(by_size(c)) == Seq::<Group>::empty(),
{
    let s = by_size(c);
    lemma_by_size_from(c);
    lemma_largest(c);
    assert forall|i: int, j: int, a: int, b: int|
        0 <= i < s.len() && 0 <= j < s.len() && i != j && 0 <= a < s[i].1.len() && 0 <= b
            < s[j].1.len() implies #[trigger] s[i].1[a] != #[trigger] s[j].1[b] by {
        let p = choose|p: int| 0 <= p < c.len() && c[p] == s[i];
        let q = choose|q: int| 0 <= q < c.len() && c[q] == s[j];
        if p == q {
            let g = s[i];
            if i < j {
                lemma_occurrences_two(s, i, j);
            } else {
                lemma_occurrences_two(s, j, i);
            }
            lemma_occurrences_sizes_down(c, largest(c) as int, 0, g);
            assert(g.1.len() <= largest(c));
            lemma_occurrences_split(c, g);
            let (x, y) = choose|x: int, y: int| 0 <= x < y < c.len() && c[x] == g && c[y] == g;
            assert(c[x].1[0] == c[y].1[0]);
        } else {
            assert(c[p].1[a] != c[q].1[b]);
        }
    }
    lemma_disjoint_dedupe(s, s.len());
    assert(s.take(s.len() as int) =~= s);
}

proof fn lemma_disjoint_dedupe(s: Seq<Group>, k: nat)
    requires
        disjoint(s),
        k <= s.len(),
    ensures
        dedupe_prefix(s, k) == s.take(k as int),
        rejected_prefix(s, k) == Seq::<Group>::empty(),
    decreases k,
{
    if k > 0 {
        let k1 = (k - 1) as nat;
        lemma_disjoint_dedupe(s, k1);
        let r = s.take(k1 as int);
        assert forall|b: int| 0 <= b < s[k - 1].1.len() implies !claimed(r).contains(#[trigger] s[k - 1].1[b]) by {
            lemma_claimed(r, s[k - 1].1[b]);
            if claimed(r).contains(s[k - 1].1[b]) {
                let (i, a) = choose|i: int, a: int|
                    0 <= i < r.len() && 0 <= a < r[i].1.len() && #[trigger] r[i].1[a] == s[k - 1].1[b];
                assert(s[i].1[a] == s[k - 1].1[b]);
            }
        }
        assert(s.take(k as int) =~= r.push(s[k - 1]));
    }
}

/// Candidates ordered by member count, largest first; ties keep their order.
pub fn sort_by_size(c: &Clusters) -> (r: Clusters)
    ensures
        groups(r@) == by_size(groups(c@)),
{
    let ghost g = groups(c@);
    let mut m: usize = 0;
    let mut j: usize = 0;
    while j < c.len()
        invariant
            g == groups(c@),
            j <= c@.len(),
            m == largest(g.take(j as int)),
        decreases c@.len() - j,
    {
        assert(g.take(j + 1).drop_last() =~= g.take(j as int));
        if c[j].1.len() > m {
            m = c[j].1.len();
        }
        j = j + 1;
    }
    assert(g.take(c@.len() as int) =~= g);
    let mut out: Clusters = Vec::new();
    let mut s: usize = m;
    loop
        invariant_except_break
            g == groups(c@),
            m == largest(g),
            s <= m,
            groups(out@) == sizes_down(g, m as int, s as int + 1),
        ensures
            groups(out@) == sizes_down(g, m as int, 0),
        decreases s,
    {
        let ghost before = groups(out@);
        let mut j: usize = 0;
        while j < c.len()
            invariant
                g == groups(c@),
                j <= c@.len(),
                groups(out@) == before + of_size(g.take(j as int), s as nat),
            decreases c@.len() - j,
        {
            assert(g.take(j + 1).drop_last() =~= g.take(j as int));
            if c[j].1.len() == s {
                let ghost prev = out@;
                let item: Community = (c[j].0, c[j].1.clone());
                out.push(item);
                assert(groups(out@) =~= groups(prev).push(g[j as int]));
            }
            j = j + 1;
            assert(groups(out@) =~= before + of_size(g.take(j as int), s as nat));
        }
        assert(g.take(c@.len() as int) =~= g);
        assert(sizes_down(g, m as int, s as int) =~= sizes_down(g, m as int, s as int + 1) + of_size(
            g,
            s as nat,
        ));
        if s == 0 {
            break;
        }
        s = s - 1;
    }
    out
}

/// The greedy reduction of an ordered candidate list to a disjoint partition.
pub fn unique_clusters(communities: &Clusters) -> (r: Clusters)
    ensures
        groups(r@) == dedupe(groups(communities@)),
{
    let ghost g = groups(communities@);
    let mut found: Clusters = Vec::new();
    let mut seen: std::collections::HashSet<usize> = std::collections::HashSet::new();
    let mut i: usize = 0;
    while i < communities.len()
        invariant
            g == groups(communities@),
            i <= communities@.len(),
            groups(found@) == dedupe_prefix(g, i as nat),
            seen@ == claimed(groups(found@)),
        decreases communities@.len() - i,
    {
        let members = &communities[i].1;
        assert(members@ == g[i as int].1);
        let mut hit = false;
        let mut j: usize = 0;
        while j < members.len()
            invariant
                j <= members@.len(),
                hit <==> exists|a: int| 0 <= a < j && seen@.contains(#[trigger] members@[a]),
            decreases members@.len() - j,
        {
            if seen.contains(&members[j]) {
                hit = true;
            }
            j = j + 1;
        }
        if !hit {
            let ghost old_seen = seen@;
            let mut j: usize = 0;
            while j < members.len()
                invariant
                    j <= members@.len(),
                    forall|x: usize|
                        #[trigger] seen@.contains(x) <==> (old_seen.contains(x) || exists|a: int|
                            0 <= a < j && members@[a] == x),
                decreases members@.len() - j,
            {
                let ghost before = seen@;
                seen.insert(members[j]);
                assert forall|x: usize|
                    #[trigger] seen@.contains(x) <==> (old_seen.contains(x) || exists|a: int|
                        0 <= a < j + 1 && members@[a] == x) by {
                    if x == members@[j as int] {
                        assert(members@[j as int] == x);
                    }
                    if exists|a: int| 0 <= a < j + 1 && members@[a] == x {
                        let a = choose|a: int| 0 <= a < j + 1 && members@[a] == x;
                        if a < j {
                            assert(before.contains(x));
                        }
                    }
                }
                j = j + 1;
            }
            let ghost prev = found@;
            let item: Community = (communities[i].0, members.clone());
            found.push(item);
            assert(groups(found@) =~= groups(prev).push(g[i as int]));
            assert(groups(found@).drop_last() =~= groups(prev));
            assert forall|x: usize| seen@.contains(x) <==> claimed(groups(found@)).contains(x) by {
                if members@.contains(x) {
                    let a = choose|a: int| 0 <= a < members@.len() && members@[a] == x;
                    assert(seen@.contains(x));
                }
            }
            assert(seen@ =~= claimed(groups(found@)));
        } else {
            assert(!is_free(g[i as int].1, claimed(groups(found@)))) by {
                let a = choose|a: int| 0 <= a < members@.len() && seen@.contains(#[trigger] members@[a]);
                assert(claimed(groups(found@)).contains(g[i as int].1[a]));
            }
        }
        i = i + 1;
    }
    assert(g.len() == communities@.len());
    found
}

} // verus!
