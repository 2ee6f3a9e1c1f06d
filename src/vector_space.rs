//! Embeddings as fixed-point integer vectors, their exact inner products and
//! their normalization to unit length.
use vstd::prelude::*;

verus! {

/// One embedding: each component `x` stands for the real number `x / UNIT`.
pub type Embedding = Vec<i32>;

/// Fixed-point scale of a component: a unit-length vector has a sum of squares of about `UNIT * UNIT`.
pub const UNIT: i32 = 0x100_0000;

/// Sum of `a[i] * b[i]` over the first `k` positions.
pub open spec fn dot_prefix(a: Seq<i32>, b: Seq<i32>, k: nat) -> int
    decreases k,
{
    if k == 0 {
        0
    } else {
        dot_prefix(a, b, (k - 1) as nat) + a[k - 1] * b[k - 1]
    }
}

/// Exact inner product of two vectors of equal length.
pub open spec fn dot(a: Seq<i32>, b: Seq<i32>) -> int {
    dot_prefix(a, b, a.len())
}

/// Squared Euclidean length.
pub open spec fn sum_sq(a: Seq<i32>) -> int {
    dot(a, a)
}

/// `r` is the integer square root of `s`.
pub open spec fn is_root(s: nat, r: nat) -> bool {
    r * r <= s < (r + 1) * (r + 1)
}

/// The integer square root of `s` (the largest `r` with `r * r <= s`).
pub open spec fn root(s: nat) -> nat {
    choose|r: nat| is_root(s, r)
}

/// `2` to the power `s`.
pub open spec fn pow2(s: nat) -> nat
    decreases s,
{
    if s == 0 {
        1
    } else {
        2 * pow2((s - 1) as nat)
    }
}

/// Most doublings that normalization applies to a short vector before dividing.
pub const MAX_SHIFT: u32 = 24;

/// Length of `v`, rounded down to an integer.
pub open spec fn norm(v: Seq<i32>) -> nat {
    root(sum_sq(v) as nat)
}

/// Length of `v` with every component doubled `s` times, rounded down to an integer.
pub open spec fn norm_at(v: Seq<i32>, s: nat) -> nat {
    root((sum_sq(v) * (pow2(s) * pow2(s))) as nat)
}

/// The fewest doublings, from `s` on and at most `MAX_SHIFT`, that make `v` at least one
/// unit long. Doubling before dividing keeps short vectors precise: after `MAX_SHIFT`
/// doublings any nonzero vector is at least one unit long.
pub open spec fn shift_from(v: Seq<i32>, s: nat) -> nat
    decreases MAX_SHIFT - s,
{
    if s >= MAX_SHIFT || norm_at(v, s) >= UNIT {
        s
    } else {
        shift_from(v, s + 1)
    }
}

/// The doublings that normalization applies to `v`.
pub open spec fn shift(v: Seq<i32>) -> nat {
    shift_from(v, 0)
}

/// A component `x`, multiplied by `p`, of a vector then `n` long, rescaled to unit length
/// and rounded toward zero.
pub open spec fn scaled(x: i32, p: nat, n: nat) -> int {
    if x < 0 {
        -(((-x) * p * UNIT) / (n as int))
    } else {
        (x * p * UNIT) / (n as int)
    }
}

/// `v` rescaled to unit length; a zero vector is left as it is.
pub open spec fn normalized(v: Seq<i32>) -> Seq<i32> {
    if sum_sq(v) == 0 {
        v
    } else {
        Seq::new(v.len(), |k: int| scaled(v[k], pow2(shift(v)), norm_at(v, shift(v))) as i32)
    }
}

/// There is at least one row, and all rows have the same number of components (a number
/// that fits a `usize`; rows of no components are allowed, and then nothing is similar).
pub open spec fn rectangular(e: Seq<Seq<i32>>) -> bool {
    &&& e.len() > 0
    &&& e[0].len() <= usize::MAX
    &&& forall|i: int| 0 <= i < e.len() ==> #[trigger] e[i].len() == e[0].len()
}

/// The rows of `e` as mathematical sequences.
pub open spec fn rows_view(e: Seq<Vec<i32>>) -> Seq<Seq<i32>> {
    e.map_values(|r: Vec<i32>| r@)
}

proof fn lemma_product_bound(x: i32, y: i32)
    ensures
        -0x4000_0000_0000_0000 <= x * y <= 0x4000_0000_0000_0000,
{
    assert(-0x4000_0000_0000_0000 <= x * y <= 0x4000_0000_0000_0000) by (nonlinear_arith)
        requires
            -0x8000_0000 <= x < 0x8000_0000,
            -0x8000_0000 <= y < 0x8000_0000,
    ;
}

proof fn lemma_square_in_sum(a: Seq<i32>, k: nat, i: int)
    requires
        0 <= i < k <= a.len(),
    ensures
        a[i] * a[i] <= dot_prefix(a, a, k),
    decreases k,
{
    lemma_sum_sq_nonneg(a, (k - 1) as nat);
    assert(a[k - 1] * a[k - 1] >= 0) by (nonlinear_arith);
    if i < k - 1 {
        lemma_square_in_sum(a, (k - 1) as nat, i);
    }
}

proof fn lemma_sum_sq_nonneg(a: Seq<i32>, k: nat)
    requires
        k <= a.len(),
    ensures
        dot_prefix(a, a, k) >= 0,
    decreases k,
{
    if k > 0 {
        lemma_sum_sq_nonneg(a, (k - 1) as nat);
        assert(a[k - 1] * a[k - 1] >= 0) by (nonlinear_arith);
    }
}

/// Integer square roots are unique.
proof fn lemma_root_unique(s: nat, r: nat)
    requires
        is_root(s, r),
    ensures
        root(s) == r,
{
    let q = root(s);
    assert(is_root(s, q));
    if q < r {
        assert((q + 1) * (q + 1) <= r * r) by (nonlinear_arith)
            requires
                q + 1 <= r,
        ;
    } else if q > r {
        assert((r + 1) * (r + 1) <= q * q) by (nonlinear_arith)
            requires
                r + 1 <= q,
        ;
    }
}

/// An inner product of vectors with at most `k` components fits comfortably in an `i128`.
pub proof fn lemma_dot_bound(a: Seq<i32>, b: Seq<i32>, k: nat)
    requires
        k <= a.len(),
        k <= b.len(),
    ensures
        -(k as int) * 0x4000_0000_0000_0000 <= dot_prefix(a, b, k) <= (k as int) * 0x4000_0000_0000_0000,
    decreases k,
{
    if k > 0 {
        lemma_dot_bound(a, b, (k - 1) as nat);
        lemma_product_bound(a[k - 1], b[k - 1]);
    }
}

/// Exact inner product of two rows of equal length.
pub fn dot_product(a: &Vec<i32>, b: &Vec<i32>) -> (r: i128)
    requires
        a@.len() == b@.len(),
    ensures
        r == dot(a@, b@),
{
    let mut acc: i128 = 0;
    let mut k: usize = 0;
    while k < a.len()
        invariant
            k <= a@.len() == b@.len(),
            acc == dot_prefix(a@, b@, k as nat),
            -(k as int) * 0x4000_0000_0000_0000 <= acc <= (k as int) * 0x4000_0000_0000_0000,
        decreases a@.len() - k,
    {
        proof {
            lemma_product_bound(a@[k as int], b@[k as int]);
        }
        acc = acc + (a[k] as i128) * (b[k] as i128);
        k = k + 1;
    }
    acc
}

/// Integer square root by bisection.
fn isqrt(s: u128) -> (r: u128)
    ensures
        is_root(s as nat, r as nat),
        r < 0x1_0000_0000_0000_0000,
{
    let mut lo: u128 = 0;
    let mut hi: u128 = 0x1_0000_0000_0000_0000;
    assert(s < hi * hi) by (nonlinear_arith)
        requires
            hi == 0x1_0000_0000_0000_0000u128,
            s <= u128::MAX,
    ;
    while hi - lo > 1
        invariant
            lo < hi <= 0x1_0000_0000_0000_0000,
            lo * lo <= s,
            s < hi * hi,
        decreases hi - lo,
    {
        let mid = lo + (hi - lo) / 2;
        assert(mid * mid <= 0xffff_ffff_ffff_fffe_0000_0000_0000_0001) by (nonlinear_arith)
            requires
                mid < 0x1_0000_0000_0000_0000,
        ;
        if mid * mid <= s {
            lo = mid;
        } else {
            hi = mid;
        }
    }
    assert(hi == lo + 1);
    lo
}

/// One vector rescaled to unit length; a zero vector comes back unchanged. A short vector
/// is first doubled until it is at least one unit long, so that rounding stays small.
/// The result is one unit long up to rounding: its squared length lies between
/// `UNIT * UNIT - 2 * UNIT * len` and `(UNIT + 1) * (UNIT + 1)`.
pub fn normalize(v: &Vec<i32>) -> (r: Vec<i32>)
    ensures
        r@ == normalized(v@),
        sum_sq(v@) == 0 ==> r@ == v@,
        sum_sq(v@) != 0 ==> UNIT * UNIT - 2 * UNIT * v@.len() <= sum_sq(r@) < (UNIT + 1) * (
        UNIT + 1),
{
    let s = dot_product(v, v);
    proof {
        lemma_sum_sq_nonneg(v@, v@.len());
    }
    if s == 0 {
        return v.clone();
    }
    let mut m: u128 = s as u128;
    let mut p: u128 = 1;
    let mut sh: u32 = 0;
    let mut n = isqrt(m);
    proof {
        lemma_root_unique(m as nat, n as nat);
        assert(pow2(0) == 1);
    }
    while n < UNIT as u128 && sh < MAX_SHIFT
        invariant
            s == sum_sq(v@),
            s >= 1,
            sh <= MAX_SHIFT,
            p == pow2(sh as nat),
            m == s * (p * p),
            is_root(m as nat, n as nat),
            n == norm_at(v@, sh as nat),
            n < 0x1_0000_0000_0000_0000,
            shift_from(v@, sh as nat) == shift(v@),
        decreases MAX_SHIFT - sh,
    {
        assert(m < 0x1_0000_0000_0000 && p * p <= m) by (nonlinear_arith)
            requires
                m < (n + 1) * (n + 1),
                n < 0x100_0000,
                m == s * (p * p),
                s >= 1,
        ;
        assert(p < 0x100_0000) by (nonlinear_arith)
            requires
                p * p <= m,
                m < 0x1_0000_0000_0000,
        ;
        assert(4 * m == s * ((2 * p) * (2 * p))) by (nonlinear_arith)
            requires
                m == s * (p * p),
        ;
        m = m * 4;
        p = p * 2;
        sh = sh + 1;
        n = isqrt(m);
        proof {
            lemma_root_unique(m as nat, n as nat);
        }
    }
    proof {
        lemma_shift(v@);
        lemma_pow2_pos(shift(v@));
    }
    assert(sh as nat == shift(v@));
    let mut out: Vec<i32> = Vec::with_capacity(v.len());
    let mut k: usize = 0;
    while k < v.len()
        invariant
            k <= v@.len(),
            s == sum_sq(v@),
            p == pow2(shift(v@)),
            p >= 1,
            n == norm_at(v@, shift(v@)),
            n >= UNIT,
            m == s * (p * p),
            is_root(m as nat, n as nat),
            n < 0x1_0000_0000_0000_0000,
            out@.len() == k,
            forall|j: int| 0 <= j < k ==> out@[j] == scaled(v@[j], p as nat, n as nat) as i32,
        decreases v@.len() - k,
    {
        let x = v[k];
        proof {
            lemma_square_in_sum(v@, v@.len(), k as int);
        }
        let a: u128 = if x < 0 {
            (-(x as i128)) as u128
        } else {
            x as u128
        };
        assert(a * a == x * x) by (nonlinear_arith)
            requires
                a as int == x as int || a as int == -(x as int),
        ;
        assert(a * p <= n) by (nonlinear_arith)
            requires
                a * a <= s,
                m == s * (p * p),
                m < (n + 1) * (n + 1),
                p >= 1,
        ;
        assert(a * p * (UNIT as u128) <= n * (UNIT as u128)) by (nonlinear_arith)
            requires
                a * p <= n,
        ;
        let q = a * p * (UNIT as u128) / n;
        assert(q <= UNIT) by (nonlinear_arith)
            requires
                q as int == (a as int * p as int * UNIT as int) / (n as int),
                a * p <= n,
                n > 0,
        ;
        let c: i32 = if x < 0 {
            -(q as i32)
        } else {
            q as i32
        };
        out.push(c);
        k = k + 1;
    }
    proof {
        assert(out@ =~= normalized(v@));
        lemma_normalized_length(v@);
    }
    out
}

/// Every row rescaled to unit length, in place; zero rows stay zero.
pub fn normalize_all_inplace(embeddings: Vec<Embedding>) -> (r: Vec<Embedding>)
    ensures
        r@.len() == embeddings@.len(),
        forall|i: int| 0 <= i < r@.len() ==> #[trigger] r@[i]@ == normalized(embeddings@[i]@),
        forall|i: int|
            0 <= i < r@.len() && sum_sq(embeddings@[i]@) != 0 ==> UNIT * UNIT - 2 * UNIT
                * embeddings@[i]@.len() <= sum_sq(#[trigger] r@[i]@) < (UNIT + 1) * (UNIT + 1),
{
    let mut out: Vec<Embedding> = Vec::with_capacity(embeddings.len());
    let mut i: usize = 0;
    while i < embeddings.len()
        invariant
            i <= embeddings@.len(),
            out@.len() == i,
            forall|j: int| 0 <= j < i ==> #[trigger] out@[j]@ == normalized(embeddings@[j]@),
            forall|j: int|
                0 <= j < i && sum_sq(embeddings@[j]@) != 0 ==> UNIT * UNIT - 2 * UNIT
                    * embeddings@[j]@.len() <= sum_sq(#[trigger] out@[j]@) < (UNIT + 1) * (UNIT + 1),
        decreases embeddings@.len() - i,
    {
        out.push(normalize(&embeddings[i]));
        i = i + 1;
    }
    out
}

proof fn lemma_root_exists(s: nat)
    ensures
        is_root(s, root(s)),
    decreases s,
{
    if s == 0 {
        assert(0 * 0 <= 0 < (0 + 1) * (0 + 1)) by (nonlinear_arith);
        assert(is_root(0, 0));
    } else {
        lemma_root_exists((s - 1) as nat);
        let r = root((s - 1) as nat);
        if (r + 1) * (r + 1) <= s {
            assert((r + 1) * (r + 1) == s) by (nonlinear_arith)
                requires
                    (r + 1) * (r + 1) <= s,
                    s - 1 < (r + 1) * (r + 1),
            ;
            assert(s < (r + 2) * (r + 2)) by (nonlinear_arith)
                requires
                    (r + 1) * (r + 1) == s,
            ;
            assert(is_root(s, r + 1));
        } else {
            assert(is_root(s, r));
        }
    }
}

proof fn lemma_pow2_pos(s: nat)
    ensures
        pow2(s) >= 1,
    decreases s,
{
    if s > 0 {
        lemma_pow2_pos((s - 1) as nat);
    }
}

proof fn lemma_shift_from(v: Seq<i32>, s: nat)
    requires
        s <= MAX_SHIFT,
    ensures
        shift_from(v, s) <= MAX_SHIFT,
        shift_from(v, s) == MAX_SHIFT || norm_at(v, shift_from(v, s)) >= UNIT,
    decreases MAX_SHIFT - s,
{
    if s < MAX_SHIFT && norm_at(v, s) < UNIT {
        lemma_shift_from(v, s + 1);
    }
}

/// After its doublings, a nonzero vector is at least one unit long.
proof fn lemma_shift(v: Seq<i32>)
    requires
        sum_sq(v) >= 1,
    ensures
        shift(v) <= MAX_SHIFT,
        norm_at(v, shift(v)) >= UNIT,
{
    lemma_shift_from(v, 0);
    let s = shift(v);
    let p = pow2(s) as int;
    let m = sum_sq(v) * (p * p);
    lemma_pow2_pos(s);
    assert(m >= 0) by (nonlinear_arith)
        requires
            m == sum_sq(v) * (p * p),
            sum_sq(v) >= 1,
    ;
    lemma_root_exists(m as nat);
    if s == MAX_SHIFT {
        assert(pow2(24) == 0x100_0000) by {
            reveal_with_fuel(pow2, 25);
        }
        let n = norm_at(v, s) as int;
        assert(m >= 0x1_0000_0000_0000) by (nonlinear_arith)
            requires
                m == sum_sq(v) * (p * p),
                sum_sq(v) >= 1,
                p == 0x100_0000,
        ;
        assert(n >= UNIT) by (nonlinear_arith)
            requires
                m < (n + 1) * (n + 1),
                m >= 0x1_0000_0000_0000,
                n >= 0,
        ;
    }
}

/// Lengths before and after the doublings: `p * n <= big < p * (n + 1)`.
proof fn lemma_norm_at_bounds(v: Seq<i32>, s: nat)
    requires
        sum_sq(v) >= 0,
    ensures
        pow2(s) * norm(v) <= norm_at(v, s) < pow2(s) * (norm(v) + 1),
{
    let p = pow2(s) as int;
    lemma_pow2_pos(s);
    let sv = sum_sq(v);
    let m = sv * (p * p);
    assert(m >= 0) by (nonlinear_arith)
        requires
            m == sv * (p * p),
            sv >= 0,
    ;
    lemma_root_exists(sv as nat);
    lemma_root_exists(m as nat);
    let n = norm(v) as int;
    let big = norm_at(v, s) as int;
    assert(n * n <= sv < (n + 1) * (n + 1));
    assert(big * big <= m < (big + 1) * (big + 1));
    assert((p * n) * (p * n) <= m) by (nonlinear_arith)
        requires
            n * n <= sv,
            m == sv * (p * p),
    ;
    assert(p * n <= big) by (nonlinear_arith)
        requires
            (p * n) * (p * n) <= m,
            m < (big + 1) * (big + 1),
            big >= 0,
            p >= 1,
            n >= 0,
    ;
    assert(m < (p * (n + 1)) * (p * (n + 1))) by (nonlinear_arith)
        requires
            sv < (n + 1) * (n + 1),
            m == sv * (p * p),
            p >= 1,
    ;
    assert(big < p * (n + 1)) by (nonlinear_arith)
        requires
            big * big <= m,
            m < (p * (n + 1)) * (p * (n + 1)),
            big >= 0,
            p >= 1,
            n >= 0,
    ;
}

/// Bounds on one squared component after rescaling from length `n` to length `UNIT`.
proof fn lemma_rescaled_square(a: int, n: int)
    requires
        0 <= a <= n,
        n > 0,
    ensures
        n * n * (((a * UNIT) / n) * ((a * UNIT) / n)) <= UNIT * UNIT * (a * a),
        n * n * (((a * UNIT) / n) * ((a * UNIT) / n)) >= UNIT * UNIT * (a * a) - 2 * n * n * UNIT,
{
    let u = UNIT as int;
    let q = (a * u) / n;
    let t = a * u;
    assert(q * n <= t < (q + 1) * n && q >= 0) by (nonlinear_arith)
        requires
            q == (a * u) / n,
            t == a * u,
            n > 0,
            a >= 0,
            u > 0,
    ;
    assert((q * n) * (q * n) <= t * t) by (nonlinear_arith)
        requires
            0 <= q * n <= t,
    ;
    assert(n * n * (q * q) == (q * n) * (q * n)) by (nonlinear_arith);
    assert(u * u * (a * a) == t * t) by (nonlinear_arith)
        requires
            t == a * u,
    ;
    assert(t <= n * u) by (nonlinear_arith)
        requires
            t == a * u,
            a <= n,
            u > 0,
    ;
    assert((q + 1) * n == q * n + n) by (nonlinear_arith);
    assert((q * n) * (q * n) >= t * t - 2 * t * n) by (nonlinear_arith)
        requires
            q * n > t - n,
            q * n >= 0,
            t >= 0,
            n > 0,
    ;
    assert(t * t - 2 * t * n >= t * t - 2 * n * n * u) by (nonlinear_arith)
        requires
            t <= n * u,
            n > 0,
    ;
}

/// Sums of squared components before and after rescaling, over the first `k`: the
/// components of `v`, multiplied by `p`, are at most `n`, and those of `o` are their
/// rescaled values.
proof fn lemma_rescaled_sums(v: Seq<i32>, o: Seq<i32>, p: nat, n: nat, k: nat)
    requires
        n > 0,
        p >= 1,
        k <= v.len() == o.len(),
        forall|j: int| 0 <= j < v.len() ==> -(n as int) <= #[trigger] v[j] * (p as int) <= n,
        forall|j: int| 0 <= j < v.len() ==> #[trigger] o[j] == scaled(v[j], p, n) as i32,
    ensures
        n * n * dot_prefix(o, o, k) <= UNIT * UNIT * (p * p) * dot_prefix(v, v, k),
        n * n * dot_prefix(o, o, k) >= UNIT * UNIT * (p * p) * dot_prefix(v, v, k) - 2 * n * n
            * UNIT * k,
    decreases k,
{
    if k > 0 {
        lemma_rescaled_sums(v, o, p, n, (k - 1) as nat);
        let nn = n as int;
        let pp = p as int;
        let j = k - 1;
        let x = v[j];
        let a: int = if x < 0 {
            -x
        } else {
            x as int
        };
        let big_a = a * pp;
        assert(0 <= big_a <= nn) by (nonlinear_arith)
            requires
                a == x || a == -x,
                a >= 0,
                pp >= 1,
                big_a == a * pp,
                -nn <= x * pp <= nn,
        ;
        lemma_rescaled_square(big_a, nn);
        let q = (big_a * UNIT) / nn;
        assert(0 <= q <= UNIT) by (nonlinear_arith)
            requires
                0 <= big_a <= nn,
                nn > 0,
                q == (big_a * UNIT) / nn,
        ;
        assert(a * pp * UNIT == big_a * UNIT);
        assert(o[j] * o[j] == q * q) by (nonlinear_arith)
            requires
                o[j] == q || o[j] == -q,
        ;
        assert(UNIT * UNIT * (pp * pp) * (x * x) == UNIT * UNIT * (big_a * big_a)) by (nonlinear_arith)
            requires
                a == x || a == -x,
                big_a == a * pp,
        ;
        let po = dot_prefix(o, o, (k - 1) as nat);
        let pv = dot_prefix(v, v, (k - 1) as nat);
        assert(nn * nn * (po + q * q) == nn * nn * po + nn * nn * (q * q)) by (nonlinear_arith);
        assert(UNIT * UNIT * (pp * pp) * (pv + x * x) == UNIT * UNIT * (pp * pp) * pv + UNIT * UNIT
            * (pp * pp) * (x * x)) by (nonlinear_arith);
        assert(2 * nn * nn * UNIT * k == 2 * nn * nn * UNIT * (k - 1) + 2 * nn * nn * UNIT) by (nonlinear_arith);
    }
}

/// A nonzero vector comes out of normalization one unit long up to rounding: its squared
/// length is at least `UNIT * UNIT - 2 * UNIT * len` and below `(UNIT + 1) * (UNIT + 1)`.
pub proof fn lemma_normalized_length(v: Seq<i32>)
    requires
        sum_sq(v) != 0,
    ensures
        normalized(v).len() == v.len(),
        UNIT * UNIT - 2 * UNIT * v.len() <= sum_sq(normalized(v)) < (UNIT + 1) * (UNIT + 1),
{
    lemma_sum_sq_nonneg(v, v.len());
    lemma_shift(v);
    let s = shift(v);
    let p = pow2(s) as int;
    lemma_pow2_pos(s);
    let sv = sum_sq(v);
    let m = sv * (p * p);
    let n = norm_at(v, s) as int;
    let u = UNIT as int;
    let d = v.len() as int;
    assert(m >= 0) by (nonlinear_arith)
        requires
            m == sv * (p * p),
            sv >= 0,
    ;
    lemma_root_exists(m as nat);
    let o = normalized(v);
    assert forall|j: int| 0 <= j < v.len() implies -n <= #[trigger] v[j] * p <= n by {
        let x = v[j];
        lemma_square_in_sum(v, v.len(), j);
        assert(-n <= x * p <= n) by (nonlinear_arith)
            requires
                x * x <= sv,
                m == sv * (p * p),
                m < (n + 1) * (n + 1),
                n >= 0,
                p >= 1,
        ;
    }
    lemma_rescaled_sums(v, o, p as nat, n as nat, v.len());
    let s2 = sum_sq(o);
    assert(n * n * s2 <= u * u * m) by (nonlinear_arith)
        requires
            n * n * s2 <= u * u * (p * p) * sv,
            m == sv * (p * p),
    ;
    assert(n * n * s2 >= u * u * m - 2 * n * n * u * d) by (nonlinear_arith)
        requires
            n * n * s2 >= u * u * (p * p) * sv - 2 * n * n * u * d,
            m == sv * (p * p),
    ;
    assert(s2 >= u * u - 2 * u * d) by (nonlinear_arith)
        requires
            n * n * s2 >= u * u * m - 2 * n * n * u * d,
            m >= n * n,
            n > 0,
            u > 0,
    ;
    assert(s2 < (u + 1) * (u + 1)) by (nonlinear_arith)
        requires
            n * n * s2 <= u * u * m,
            m < (n + 1) * (n + 1),
            u <= n,
            u > 0,
    ;
}

/// Rescaling a component `a` (at most `n`) of a vector `n` long, after multiplying the
/// vector by `p`, moves it by at most one more than the distance from `n` to `UNIT`.
proof fn lemma_rescale_moves_little(a: int, p: int, n: int, big: int, e: int)
    requires
        0 <= a <= n,
        n >= 1,
        p >= 1,
        e >= 0,
        p * n <= big < p * (n + 1),
        UNIT - e <= n <= UNIT + e,
    ensures
        -(e + 1) <= (a * p * UNIT) / big - a <= e + 1,
{
    let u = UNIT as int;
    let t = a * p * u;
    assert(big >= 1) by (nonlinear_arith)
        requires
            p * n <= big,
            p >= 1,
            n >= 1,
    ;
    let q = t / big;
    assert(q * big <= t < (q + 1) * big && q >= 0) by (nonlinear_arith)
        requires
            q == t / big,
            big > 0,
            t >= 0,
    ;
    assert(t == a * p * u);
    assert(t >= 0) by (nonlinear_arith)
        requires
            t == a * p * u,
            a >= 0,
            p >= 1,
            u > 0,
    ;
    if q > a + e + 1 {
        assert((a + e + 2) * n > a * u) by (nonlinear_arith)
            requires
                0 <= a <= n,
                n >= u - e,
                n >= 1,
                e >= 0,
        ;
        assert((a + e + 2) * p * n > a * p * u) by (nonlinear_arith)
            requires
                (a + e + 2) * n > a * u,
                p >= 1,
        ;
        assert(q * big >= (a + e + 2) * big) by (nonlinear_arith)
            requires
                q >= a + e + 2,
                big >= 0,
        ;
        assert((a + e + 2) * big >= (a + e + 2) * (p * n)) by (nonlinear_arith)
            requires
                a + e + 2 >= 0,
                big >= p * n,
        ;
        assert(false) by (nonlinear_arith)
            requires
                q * big >= (a + e + 2) * (p * n),
                (a + e + 2) * p * n > a * p * u,
                q * big <= t,
                t == a * p * u,
        ;
    }
    if q < a - e - 1 {
        assert((a - e - 1) * (n + 1) <= a * u) by (nonlinear_arith)
            requires
                0 <= a <= n,
                n <= u + e,
                e >= 0,
        ;
        assert((q + 1) * big < (a - e - 1) * (p * (n + 1))) by (nonlinear_arith)
            requires
                q + 1 <= a - e - 1,
                q >= 0,
                big < p * (n + 1),
                big >= 1,
        ;
        assert((a - e - 1) * (p * (n + 1)) <= a * p * u) by (nonlinear_arith)
            requires
                (a - e - 1) * (n + 1) <= a * u,
                p >= 1,
        ;
    }
}

/// Normalization is idempotent up to rounding: a nonzero vector whose length is within
/// `e` units of one unit is moved by at most `e + 1` units in every component.
pub proof fn lemma_normalize_near_unit(v: Seq<i32>, e: nat)
    requires
        sum_sq(v) != 0,
        UNIT - e <= norm(v) <= UNIT + e,
    ensures
        normalized(v).len() == v.len(),
        forall|k: int| 0 <= k < v.len() ==> -(e + 1) <= #[trigger] normalized(v)[k] - v[k] <= e + 1,
{
    let sv = sum_sq(v);
    lemma_sum_sq_nonneg(v, v.len());
    lemma_root_exists(sv as nat);
    let n = norm(v) as int;
    let s = shift(v);
    let p = pow2(s) as int;
    lemma_pow2_pos(s);
    let big = norm_at(v, s) as int;
    lemma_norm_at_bounds(v, s);
    assert(n >= 1) by (nonlinear_arith)
        requires
            sv < (n + 1) * (n + 1),
            sv >= 1,
            n >= 0,
    ;
    assert(big >= 1) by (nonlinear_arith)
        requires
            p * n <= big,
            p >= 1,
            n >= 1,
    ;
    assert forall|k: int| 0 <= k < v.len() implies -(e + 1) <= #[trigger] normalized(v)[k] - v[k]
        <= e + 1 by {
        let x = v[k];
        lemma_square_in_sum(v, v.len(), k);
        let a: int = if x < 0 {
            -x
        } else {
            x as int
        };
        assert(a * a == x * x) by (nonlinear_arith)
            requires
                a == x || a == -x,
        ;
        assert(a <= n) by (nonlinear_arith)
            requires
                a * a <= sv,
                sv < (n + 1) * (n + 1),
                a >= 0,
                n >= 0,
        ;
        lemma_rescale_moves_little(a, p, n, big, e as int);
        let q = (a * p * UNIT) / big;
        assert(0 <= q <= UNIT) by (nonlinear_arith)
            requires
                0 <= a <= n,
                p * n <= big,
                p >= 1,
                big >= 1,
                q == (a * p * UNIT) / big,
        ;
    }
}

/// Normalizing twice moves no component by more than `v.len() + 2` units: normalization
/// is idempotent up to rounding, for every nonzero vector of modest dimension.
pub proof fn lemma_normalize_twice(v: Seq<i32>)
    requires
        sum_sq(v) != 0,
        (v.len() + 1) * (v.len() + 1) <= 2 * UNIT,
    ensures
        forall|k: int|
            0 <= k < v.len() ==> -(v.len() + 2) <= #[trigger] normalized(normalized(v))[k]
                - normalized(v)[k] <= v.len() + 2,
{
    let d = v.len() as int;
    let u = UNIT as int;
    let o = normalized(v);
    lemma_normalized_length(v);
    let s2 = sum_sq(o);
    assert(d + 1 < u) by (nonlinear_arith)
        requires
            (d + 1) * (d + 1) <= 2 * u,
            d >= 0,
            u == 0x100_0000,
    ;
    assert(2 * d < u) by (nonlinear_arith)
        requires
            (d + 1) * (d + 1) <= 2 * u,
            d >= 0,
            u == 0x100_0000,
    ;
    assert(s2 > 0) by (nonlinear_arith)
        requires
            s2 >= u * u - 2 * u * d,
            2 * d < u,
            d >= 0,
    ;
    lemma_root_exists(s2 as nat);
    let n2 = norm(o) as int;
    assert(n2 * n2 <= s2);
    if n2 > u {
        assert(n2 * n2 >= (u + 1) * (u + 1)) by (nonlinear_arith)
            requires
                n2 >= u + 1,
                u >= 0,
        ;
    }
    assert(n2 >= u - d - 1) by (nonlinear_arith)
        requires
            s2 < (n2 + 1) * (n2 + 1),
            s2 >= u * u - 2 * u * d,
            (d + 1) * (d + 1) <= 2 * u,
            n2 >= 0,
            d >= 0,
            u == 0x100_0000,
    ;
    lemma_normalize_near_unit(o, (d + 1) as nat);
}

} // verus!
