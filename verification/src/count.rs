//! Counting the indices below a bound at which a predicate holds.
//!
//! Clause bookkeeping is stated with these counts: the number of literals of a
//! clause that are true, the number of clauses that are satisfied, and so on.

use vstd::prelude::*;

verus! {

/// The number of indices `i` with `0 <= i < n` at which `p(i)` holds.
pub open spec fn count_upto(n: int, p: spec_fn(int) -> bool) -> nat
    decreases n,
{
    if n <= 0 {
        0
    } else {
        count_upto(n - 1, p) + if p(n - 1) { 1nat } else { 0nat }
    }
}

/// A count never exceeds the bound.
pub proof fn lemma_count_bound(n: int, p: spec_fn(int) -> bool)
    requires
        0 <= n,
    ensures
        count_upto(n, p) <= n,
    decreases n,
{
    if n > 0 {
        lemma_count_bound(n - 1, p);
    }
}

/// Predicates that agree below the bound have the same count.
pub proof fn lemma_count_ext(n: int, p: spec_fn(int) -> bool, q: spec_fn(int) -> bool)
    requires
        forall|i: int| 0 <= i < n ==> #[trigger] p(i) == q(i),
    ensures
        count_upto(n, p) == count_upto(n, q),
    decreases n,
{
    if n > 0 {
        lemma_count_ext(n - 1, p, q);
    }
}

/// Predicates that agree everywhere below the bound but at `j` have counts
/// that differ by what changed at `j`.
pub proof fn lemma_count_flip(n: int, p: spec_fn(int) -> bool, q: spec_fn(int) -> bool, j: int)
    requires
        0 <= j < n,
        forall|i: int| 0 <= i < n && i != j ==> #[trigger] p(i) == q(i),
    ensures
        count_upto(n, q) + (if p(j) { 1int } else { 0int }) == count_upto(n, p) + (if q(j) {
            1int
        } else {
            0int
        }),
    decreases n,
{
    if n - 1 == j {
        lemma_count_ext(n - 1, p, q);
    } else {
        lemma_count_flip(n - 1, p, q, j);
    }
}

/// The count is zero exactly when the predicate holds nowhere below the bound.
pub proof fn lemma_count_zero(n: int, p: spec_fn(int) -> bool)
    requires
        0 <= n,
    ensures
        count_upto(n, p) == 0 <==> (forall|i: int| 0 <= i < n ==> !#[trigger] p(i)),
    decreases n,
{
    if n > 0 {
        lemma_count_zero(n - 1, p);
    }
}

/// The count reaches the bound exactly when the predicate holds everywhere
/// below it.
pub proof fn lemma_count_full(n: int, p: spec_fn(int) -> bool)
    requires
        0 <= n,
    ensures
        count_upto(n, p) == n <==> (forall|i: int| 0 <= i < n ==> #[trigger] p(i)),
    decreases n,
{
    if n > 0 {
        lemma_count_full(n - 1, p);
        lemma_count_bound(n - 1, p);
    }
}

/// A positive count yields an index at which the predicate holds.
pub proof fn lemma_count_witness(n: int, p: spec_fn(int) -> bool) -> (i: int)
    requires
        count_upto(n, p) > 0,
    ensures
        0 <= i < n,
        p(i),
    decreases n,
{
    if p(n - 1) {
        n - 1
    } else {
        lemma_count_witness(n - 1, p)
    }
}

/// Where `r` holds exactly when one of the disjoint `p` and `q` does, its
/// count is the sum of theirs.
pub proof fn lemma_count_sum(
    n: int,
    p: spec_fn(int) -> bool,
    q: spec_fn(int) -> bool,
    r: spec_fn(int) -> bool,
)
    requires
        forall|i: int| 0 <= i < n ==> !(#[trigger] p(i) && q(i)),
        forall|i: int| 0 <= i < n ==> (#[trigger] r(i) <==> p(i) || q(i)),
    ensures
        count_upto(n, r) == count_upto(n, p) + count_upto(n, q),
    decreases n,
{
    if n > 0 {
        lemma_count_sum(n - 1, p, q, r);
    }
}

/// A predicate that implies another has at most its count.
pub proof fn lemma_count_mono(n: int, p: spec_fn(int) -> bool, q: spec_fn(int) -> bool)
    requires
        forall|i: int| 0 <= i < n && #[trigger] p(i) ==> q(i),
    ensures
        count_upto(n, p) <= count_upto(n, q),
    decreases n,
{
    if n > 0 {
        lemma_count_mono(n - 1, p, q);
    }
}

/// Where the indices at which `p` holds and those at which `q` holds are
/// matched one to one by `f` and its inverse `g`, the counts are the same.
pub proof fn lemma_count_matched(
    n: int,
    p: spec_fn(int) -> bool,
    m: int,
    q: spec_fn(int) -> bool,
    f: spec_fn(int) -> int,
    g: spec_fn(int) -> int,
)
    requires
        forall|i: int|
            0 <= i < n && #[trigger] p(i) ==> 0 <= f(i) < m && q(f(i)) && g(f(i)) == i,
        forall|j: int|
            0 <= j < m && #[trigger] q(j) ==> 0 <= g(j) < n && p(g(j)) && f(g(j)) == j,
    ensures
        count_upto(n, p) == count_upto(m, q),
    decreases n,
{
    if n <= 0 {
        if m > 0 {
            lemma_count_zero(m, q);
        }
    } else if p(n - 1) {
        let taken = f(n - 1);
        let rest = |j: int| q(j) && j != taken;
        lemma_count_flip(m, rest, q, taken);
        assert forall|i: int| 0 <= i < n - 1 && #[trigger] p(i) implies 0 <= f(i) < m && rest(f(i))
            && g(f(i)) == i by {}
        assert forall|j: int| 0 <= j < m && #[trigger] rest(j) implies 0 <= g(j) < n - 1 && p(g(j))
            && f(g(j)) == j by {
            assert(q(j));
        }
        lemma_count_matched(n - 1, p, m, rest, f, g);
    } else {
        assert forall|j: int| 0 <= j < m && #[trigger] q(j) implies 0 <= g(j) < n - 1 && p(g(j))
            && f(g(j)) == j by {}
        lemma_count_matched(n - 1, p, m, q, f, g);
    }
}

} // verus!
