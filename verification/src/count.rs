//! Counting over index ranges, used to show that the table lists each pull
//! request exactly once.

use vstd::prelude::*;

verus! {

/// How many indices in `0..k` satisfy `p`.
pub open spec fn count_upto(k: int, p: spec_fn(int) -> bool) -> nat
    decreases k,
{
    if k <= 0 {
        0
    } else {
        count_upto(k - 1, p) + if p(k - 1) {
            1nat
        } else {
            0nat
        }
    }
}

/// The sum of `f` over `0..k`.
pub open spec fn sum_upto(k: int, f: spec_fn(int) -> nat) -> nat
    decreases k,
{
    if k <= 0 {
        0
    } else {
        sum_upto(k - 1, f) + f(k - 1)
    }
}

/// Counting depends only on the values of the predicate in range.
pub proof fn lemma_count_ext(k: int, p: spec_fn(int) -> bool, q: spec_fn(int) -> bool)
    requires
        forall|j: int| 0 <= j < k ==> #[trigger] p(j) == q(j),
    ensures
        count_upto(k, p) == count_upto(k, q),
    decreases k,
{
    if k > 0 {
        lemma_count_ext(k - 1, p, q);
    }
}

/// Summing depends only on the values of the function in range.
pub proof fn lemma_sum_ext(k: int, f: spec_fn(int) -> nat, g: spec_fn(int) -> nat)
    requires
        forall|j: int| 0 <= j < k ==> #[trigger] f(j) == g(j),
    ensures
        sum_upto(k, f) == sum_upto(k, g),
    decreases k,
{
    if k > 0 {
        lemma_sum_ext(k - 1, f, g);
    }
}

/// A predicate that holds everywhere in range counts every index.
pub proof fn lemma_count_all(k: int, p: spec_fn(int) -> bool)
    requires
        k >= 0,
        forall|j: int| 0 <= j < k ==> #[trigger] p(j),
    ensures
        count_upto(k, p) == k,
    decreases k,
{
    if k > 0 {
        lemma_count_all(k - 1, p);
    }
}

/// A predicate that holds nowhere in range counts nothing.
pub proof fn lemma_count_none(k: int, p: spec_fn(int) -> bool)
    requires
        forall|j: int| 0 <= j < k ==> !#[trigger] p(j),
    ensures
        count_upto(k, p) == 0,
    decreases k,
{
    if k > 0 {
        lemma_count_none(k - 1, p);
    }
}

/// A predicate that holds at exactly one index in range counts one.
pub proof fn lemma_count_single(k: int, p: spec_fn(int) -> bool, at: int)
    requires
        0 <= at < k,
        p(at),
        forall|j: int| 0 <= j < k && j != at ==> !#[trigger] p(j),
    ensures
        count_upto(k, p) == 1,
    decreases k,
{
    if k - 1 == at {
        lemma_count_none(k - 1, p);
    } else {
        lemma_count_single(k - 1, p, at);
    }
}

/// Counting a disjoint union adds the counts.
pub proof fn lemma_count_split(
    k: int,
    p: spec_fn(int) -> bool,
    a: spec_fn(int) -> bool,
    b: spec_fn(int) -> bool,
)
    requires
        forall|j: int| 0 <= j < k ==> #[trigger] p(j) == (a(j) || b(j)),
        forall|j: int| 0 <= j < k ==> !(#[trigger] a(j) && b(j)),
    ensures
        count_upto(k, p) == count_upto(k, a) + count_upto(k, b),
    decreases k,
{
    if k > 0 {
        lemma_count_split(k - 1, p, a, b);
    }
}

/// Owners below `q`, in the range `0..k`.
pub open spec fn owned_below(owner: spec_fn(int) -> int, q: int) -> spec_fn(int) -> bool {
    |j: int| owner(j) < q
}

/// Owned by exactly `q`.
pub open spec fn owned_by(owner: spec_fn(int) -> int, q: int) -> spec_fn(int) -> bool {
    |j: int| owner(j) == q
}

/// For each `u`, how many of `0..k` the map `owner` sends to `u`.
pub open spec fn fibre_counts(k: int, owner: spec_fn(int) -> int) -> spec_fn(int) -> nat {
    |u: int| count_upto(k, owned_by(owner, u))
}

/// The sizes of the fibres of `owner` up to `q` add up to the number of
/// indices whose owner is below `q`.
pub proof fn lemma_fibres(k: int, owner: spec_fn(int) -> int, q: int)
    requires
        q >= 0,
        forall|j: int| 0 <= j < k ==> #[trigger] owner(j) >= 0,
    ensures
        sum_upto(q, fibre_counts(k, owner)) == count_upto(k, owned_below(owner, q)),
    decreases q,
{
    if q == 0 {
        lemma_count_none(k, owned_below(owner, 0));
    } else {
        lemma_fibres(k, owner, q - 1);
        lemma_count_split(k, owned_below(owner, q), owned_below(owner, q - 1), owned_by(owner, q - 1));
    }
}

/// The indices in `0..k` that satisfy `p`, as a set.
pub open spec fn range_set(k: int, p: spec_fn(int) -> bool) -> Set<int>
    decreases k,
{
    if k <= 0 {
        Set::empty()
    } else if p(k - 1) {
        range_set(k - 1, p).insert(k - 1)
    } else {
        range_set(k - 1, p)
    }
}

proof fn lemma_range_set(k: int, p: spec_fn(int) -> bool)
    ensures
        range_set(k, p).finite(),
        range_set(k, p).len() == count_upto(k, p),
        forall|j: int| #[trigger] range_set(k, p).contains(j) <==> 0 <= j < k && p(j),
    decreases k,
{
    if k > 0 {
        lemma_range_set(k - 1, p);
        if p(k - 1) {
            assert(!range_set(k - 1, p).contains(k - 1));
        }
    }
}

/// A sequence without duplicates that lists exactly the indices in `0..k`
/// satisfying `p` is as long as their count.
pub proof fn lemma_listing_len(g: Seq<int>, k: int, p: spec_fn(int) -> bool)
    requires
        g.no_duplicates(),
        forall|j: int| #[trigger] g.contains(j) <==> 0 <= j < k && p(j),
    ensures
        g.len() == count_upto(k, p),
{
    lemma_range_set(k, p);
    g.unique_seq_to_set();
    assert(g.to_set() =~= range_set(k, p));
}

} // verus!
