//! Parameters of the two-dimensional projection of cluster centroids.
use vstd::prelude::*;

verus! {

/// Perplexity used when there are plenty of points.
pub const MAX_PERPLEXITY: usize = 40;

/// The largest perplexity, at most `MAX_PERPLEXITY`, that `n` points admit: the
/// projection needs `n - 1 >= 3 * perplexity`.
pub fn tsne_perplexity(n: usize) -> (p: usize)
    requires
        n >= 1,
    ensures
        p <= MAX_PERPLEXITY,
        3 * p <= n - 1,
        p == MAX_PERPLEXITY || n - 1 < 3 * (p + 1),
{
    let mut p: usize = MAX_PERPLEXITY;
    while n - 1 < 3 * p
        invariant
            n >= 1,
            p <= MAX_PERPLEXITY,
            p == MAX_PERPLEXITY || n - 1 < 3 * (p + 1),
        decreases p,
    {
        p = p - 1;
    }
    p
}

} // verus!
