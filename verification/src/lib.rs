//! Cleans legacy LaTeX documents that carry a manual `thebibliography`
//! environment: it extracts citations and bibliography entries, clusters
//! near-duplicate entries by normalized edit distance, remaps citation keys to
//! one canonical key per cluster, and rebuilds a minimal bibliography holding
//! only the entries actually cited, in order of first citation.
//!
//! A second tool compiles BibTeX records into a `thebibliography` environment.
//!
//! All file reading, writing and path resolution is left to the caller; every
//! function here is a pure transformation of in-memory text and records.
use vstd::prelude::*;

pub mod bibtex;
pub mod clean;
pub mod compile;
pub mod cluster;
pub mod distance;
pub mod extract;
pub mod keymap;
pub mod plan;
pub mod rewrite;
pub mod text;

verus! {

/// Holds of 0, 9, 99, 999, ...: the numbers of the form `10^k - 1`.
pub open spec fn is_nines(r: nat) -> bool
    decreases r,
{
    r == 0 || (r % 10 == 9 && is_nines(r / 10))
}

/// The width placeholder grown from `size` until it reaches `n`.
pub open spec fn bib_size_from(size: nat, n: nat) -> nat
    decreases (if size >= n {
        0
    } else {
        n - size
    }),
{
    if size >= n {
        size
    } else {
        bib_size_from(size * 10 + 9, n)
    }
}

/// The width placeholder for `n` entries: the smallest value of the form
/// `10^k - 1` that is at least `n`.
pub open spec fn bib_size_spec(n: nat) -> nat {
    bib_size_from(0, n)
}

/// Width placeholder for `\begin{thebibliography}{..}`: the smallest value of
/// the form `10^k - 1` (0, 9, 99, ...) that is at least the number of entries.
pub fn thebibliography_size(biblen: usize) -> (size: usize)
    requires
        biblen <= usize::MAX / 10,
    ensures
        size == bib_size_spec(biblen as nat),
        is_nines(size as nat),
        size >= biblen,
        size > 0 ==> size / 10 < biblen,
{
    let mut size: usize = 0;
    while size < biblen
        invariant
            biblen <= usize::MAX / 10,
            is_nines(size as nat),
            size > 0 ==> size / 10 < biblen,
            bib_size_from(size as nat, biblen as nat) == bib_size_spec(biblen as nat),
        decreases (if size >= biblen { 0 } else { biblen - size }),
    {
        size = size * 10 + 9;
    }
    size
}

/// Minimality of the width placeholder: every number of the form `10^k - 1`
/// that is at least `n` is at least what [`thebibliography_size`] returns.
pub proof fn lemma_bib_size_minimal(n: nat, size: nat, m: nat)
    requires
        is_nines(size),
        size >= n,
        size > 0 ==> size / 10 < n,
        is_nines(m),
        m >= n,
    ensures
        m >= size,
{
    if m < size {
        lemma_nines_gap(m, size);
        assert(m <= size / 10);
        assert(size / 10 < n);
    }
}

/// Between a number of the form `10^k - 1` and the next there is no other:
/// a smaller one is at most a tenth of the larger.
proof fn lemma_nines_gap(m: nat, r: nat)
    requires
        is_nines(m),
        is_nines(r),
        m < r,
    ensures
        m <= r / 10,
    decreases r,
{
    assert(r == (r / 10) * 10 + r % 10);
    if m > 0 {
        assert(m == (m / 10) * 10 + m % 10);
        assert(m / 10 < r / 10);
        lemma_nines_gap(m / 10, r / 10);
        assert(r / 10 == ((r / 10) / 10) * 10 + (r / 10) % 10);
    }
}

} // verus!
