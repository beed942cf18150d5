//! Counts and sums over index ranges, for contracts.
use vstd::prelude::*;

verus! {

/// How many of the numbers below `n` satisfy `p`.
pub open spec fn count_upto(n: nat, p: spec_fn(int) -> bool) -> nat
    decreases n,
{
    if n == 0 {
        0
    } else {
        count_upto((n - 1) as nat, p) + (if p(n - 1) {
            1nat
        } else {
            0
        })
    }
}

/// The sum of `f` over the numbers below `n`.
pub open spec fn sum_upto(n: nat, f: spec_fn(int) -> nat) -> nat
    decreases n,
{
    if n == 0 {
        0
    } else {
        sum_upto((n - 1) as nat, f) + f(n - 1)
    }
}

/// A count is at most the number of candidates, and a weaker condition counts no fewer.
pub proof fn lemma_count_is_monotone(n: nat, p: spec_fn(int) -> bool, q: spec_fn(int) -> bool)
    requires
        forall|i: int| 0 <= i < n && #[trigger] p(i) ==> q(i),
    ensures
        count_upto(n, p) <= count_upto(n, q) <= n,
    decreases n,
{
    if n > 0 {
        lemma_count_is_monotone((n - 1) as nat, p, q);
        assert(p(n - 1) ==> q(n - 1));
    }
}

/// A count splits over two conditions of which exactly one holds wherever `p` does.
pub proof fn lemma_count_splits(
    n: nat,
    p: spec_fn(int) -> bool,
    q: spec_fn(int) -> bool,
    r: spec_fn(int) -> bool,
)
    requires
        forall|i: int| 0 <= i < n ==> #[trigger] p(i) == (q(i) || r(i)),
        forall|i: int| 0 <= i < n ==> !(#[trigger] q(i) && r(i)),
    ensures
        count_upto(n, p) == count_upto(n, q) + count_upto(n, r),
    decreases n,
{
    if n > 0 {
        lemma_count_splits((n - 1) as nat, p, q, r);
        assert(p(n - 1) == (q(n - 1) || r(n - 1)));
        assert(!(q(n - 1) && r(n - 1)));
    }
}

/// A condition that always holds counts every candidate.
pub proof fn lemma_count_of_all(n: nat, p: spec_fn(int) -> bool)
    requires
        forall|i: int| 0 <= i < n ==> #[trigger] p(i),
    ensures
        count_upto(n, p) == n,
    decreases n,
{
    if n > 0 {
        lemma_count_of_all((n - 1) as nat, p);
        assert(p(n - 1));
    }
}

/// A condition that never holds counts no candidate.
pub proof fn lemma_count_of_none(n: nat, p: spec_fn(int) -> bool)
    requires
        forall|i: int| 0 <= i < n ==> !#[trigger] p(i),
    ensures
        count_upto(n, p) == 0,
    decreases n,
{
    if n > 0 {
        lemma_count_of_none((n - 1) as nat, p);
        assert(!p(n - 1));
    }
}

/// Two conditions that agree on the candidates count the same.
pub proof fn lemma_count_congruence(n: nat, p: spec_fn(int) -> bool, q: spec_fn(int) -> bool)
    requires
        forall|i: int| 0 <= i < n ==> #[trigger] p(i) == q(i),
    ensures
        count_upto(n, p) == count_upto(n, q),
    decreases n,
{
    if n > 0 {
        lemma_count_congruence((n - 1) as nat, p, q);
        assert(p(n - 1) == q(n - 1));
    }
}

/// A count over two ranges that follow each other: `p` agrees with `q` on the first `m` numbers
/// and with `r` on the `n` numbers after them.
pub proof fn lemma_count_appends(
    m: nat,
    n: nat,
    p: spec_fn(int) -> bool,
    q: spec_fn(int) -> bool,
    r: spec_fn(int) -> bool,
)
    requires
        forall|i: int| 0 <= i < m ==> #[trigger] p(i) == q(i),
        forall|i: int| 0 <= i < n ==> p(m + i) == #[trigger] r(i),
    ensures
        count_upto(m + n, p) == count_upto(m, q) + count_upto(n, r),
    decreases n,
{
    if n == 0 {
        lemma_count_congruence(m, p, q);
    } else {
        lemma_count_appends(m, (n - 1) as nat, p, q, r);
        assert(p(m + (n - 1)) == r(n - 1));
    }
}

/// A count over the items of a sequence is that over the multiset of them, so their order plays no
/// part in it.
pub proof fn lemma_count_in_seq<T>(s: Seq<T>, p: spec_fn(T) -> bool)
    ensures
        count_upto(s.len(), |i: int| p(s[i])) == s.to_multiset().filter(p).len(),
    decreases s.len(),
{
    broadcast use vstd::multiset::group_multiset_axioms;
    broadcast use vstd::seq_lib::group_to_multiset_ensures;

    if s.len() == 0 {
        assert(s.to_multiset().filter(p) =~= vstd::multiset::Multiset::empty());
    } else {
        let (rest, x) = (s.drop_last(), s.last());
        lemma_count_in_seq(rest, p);
        assert(s =~= rest.push(x));
        assert(s.to_multiset() =~= rest.to_multiset().insert(x));
        lemma_count_congruence(
            rest.len(),
            |i: int| p(s[i]),
            |i: int| p(rest[i]),
        );
        if p(x) {
            assert(s.to_multiset().filter(p) =~= rest.to_multiset().filter(p).insert(x));
        } else {
            assert(s.to_multiset().filter(p) =~= rest.to_multiset().filter(p));
        }
    }
}

/// A count is the size of the set of numbers that are counted.
pub proof fn law_count_is_the_size_of_the_set(n: nat, p: spec_fn(int) -> bool)
    ensures
        Set::new(|i: int| 0 <= i < n && p(i)).finite(),
        Set::new(|i: int| 0 <= i < n && p(i)).len() == count_upto(n, p),
    decreases n,
{
    let counted = Set::new(|i: int| 0 <= i < n && p(i));
    if n == 0 {
        assert(counted =~= Set::empty());
    } else {
        law_count_is_the_size_of_the_set((n - 1) as nat, p);
        let fewer = Set::new(|i: int| 0 <= i < n - 1 && p(i));
        if p(n - 1) {
            assert(counted =~= fewer.insert(n - 1));
        } else {
            assert(counted =~= fewer);
        }
    }
}

/// A count changes by what happens at one number where two conditions agree on all others.
pub proof fn law_count_changes_at_one_number(
    n: nat,
    p: spec_fn(int) -> bool,
    q: spec_fn(int) -> bool,
    k: int,
)
    requires
        0 <= k < n,
        forall|i: int| 0 <= i < n && i != k ==> #[trigger] p(i) == q(i),
    ensures
        count_upto(n, q) - count_upto(n, p) == (if q(k) {
            1int
        } else {
            0
        }) - (if p(k) {
            1int
        } else {
            0
        }),
    decreases n,
{
    let prev = (n - 1) as nat;
    if k == prev {
        lemma_count_congruence(prev, p, q);
    } else {
        law_count_changes_at_one_number(prev, p, q, k);
        assert(p(n - 1) == q(n - 1));
    }
}

/// Two functions that agree on the range have the same sum.
pub proof fn lemma_sum_congruence(n: nat, f: spec_fn(int) -> nat, g: spec_fn(int) -> nat)
    requires
        forall|i: int| 0 <= i < n ==> #[trigger] f(i) == g(i),
    ensures
        sum_upto(n, f) == sum_upto(n, g),
    decreases n,
{
    if n > 0 {
        lemma_sum_congruence((n - 1) as nat, f, g);
        assert(f(n - 1) == g(n - 1));
    }
}

/// A sum of zeros is zero.
pub proof fn law_sum_of_zeros(n: nat, f: spec_fn(int) -> nat)
    requires
        forall|i: int| 0 <= i < n ==> #[trigger] f(i) == 0,
    ensures
        sum_upto(n, f) == 0,
    decreases n,
{
    if n > 0 {
        law_sum_of_zeros((n - 1) as nat, f);
        assert(f(n - 1) == 0);
    }
}

/// A sum changes by the change of one summand where all others stay.
pub proof fn law_sum_changes_by_one_summand(
    n: nat,
    f: spec_fn(int) -> nat,
    g: spec_fn(int) -> nat,
    k: int,
)
    requires
        0 <= k < n,
        forall|i: int| 0 <= i < n && i != k ==> #[trigger] f(i) == g(i),
    ensures
        sum_upto(n, g) - sum_upto(n, f) == g(k) - f(k),
    decreases n,
{
    let prev = (n - 1) as nat;
    if k == prev {
        lemma_sum_congruence(prev, f, g);
    } else {
        law_sum_changes_by_one_summand(prev, f, g, k);
        assert(f(n - 1) == g(n - 1));
    }
}

} // verus!
