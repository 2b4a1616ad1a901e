//! Specification helpers over sequences of indices.

use vstd::prelude::*;

verus! {

/// The ascending sequence of the indices `i < k` that satisfy `p`.
pub open spec fn idx_filter(p: spec_fn(usize) -> bool, k: nat) -> Seq<usize>
    decreases k,
{
    if k == 0 {
        Seq::<usize>::empty()
    } else {
        let prev = idx_filter(p, (k - 1) as nat);
        if p((k - 1) as usize) {
            prev.push((k - 1) as usize)
        } else {
            prev
        }
    }
}

/// Strictly increasing sequence.
pub open spec fn strictly_increasing(s: Seq<usize>) -> bool {
    forall|i: int, j: int| 0 <= i < j < s.len() ==> s[i] < s[j]
}

/// Facts about `idx_filter`: it is strictly increasing, bounded by `k`,
/// and holds exactly the indices below `k` that satisfy `p`.
pub proof fn lemma_idx_filter(p: spec_fn(usize) -> bool, k: nat)
    requires
        k <= usize::MAX + 1,
    ensures
        strictly_increasing(idx_filter(p, k)),
        idx_filter(p, k).len() <= k,
        forall|i: int| 0 <= i < idx_filter(p, k).len() ==> #[trigger] idx_filter(p, k)[i] < k,
        forall|i: int| 0 <= i < idx_filter(p, k).len() ==> p(#[trigger] idx_filter(p, k)[i]),
        forall|u: usize| u < k && p(u) ==> idx_filter(p, k).contains(u),
    decreases k,
{
    if k > 0 {
        lemma_idx_filter(p, (k - 1) as nat);
        let prev = idx_filter(p, (k - 1) as nat);
        if p((k - 1) as usize) {
            assert(idx_filter(p, k) == prev.push((k - 1) as usize));
            assert forall|u: usize| u < k && p(u) implies idx_filter(p, k).contains(u) by {
                if u == k - 1 {
                    assert(idx_filter(p, k)[prev.len() as int] == u);
                } else {
                    assert(u < k - 1);
                    assert(prev.contains(u));
                    let j = choose|j: int| 0 <= j < prev.len() && prev[j] == u;
                    assert(idx_filter(p, k)[j] == prev[j]);
                }
            }
        } else {
            assert forall|u: usize| u < k && p(u) implies idx_filter(p, k).contains(u) by {
                assert(u != k - 1);
                assert(u < k - 1);
            }
        }
    }
}

/// Membership in `idx_filter` is exactly the predicate (below `k`).
pub proof fn lemma_idx_filter_contains(p: spec_fn(usize) -> bool, k: nat, u: usize)
    requires
        k <= usize::MAX + 1,
    ensures
        idx_filter(p, k).contains(u) <==> (u < k && p(u)),
{
    lemma_idx_filter(p, k);
    if idx_filter(p, k).contains(u) {
        let j = choose|j: int| 0 <= j < idx_filter(p, k).len() && idx_filter(p, k)[j] == u;
        assert(idx_filter(p, k)[j] < k);
        assert(p(idx_filter(p, k)[j]));
    }
}

/// Two predicates that agree below `k` give the same filter.
pub proof fn lemma_idx_filter_ext(p: spec_fn(usize) -> bool, q: spec_fn(usize) -> bool, k: nat)
    requires
        forall|u: usize| u < k ==> #[trigger] p(u) == q(u),
    ensures
        idx_filter(p, k) == idx_filter(q, k),
    decreases k,
{
    if k > 0 {
        lemma_idx_filter_ext(p, q, (k - 1) as nat);
    }
}

/// Indices past `k` that fail `p` add nothing to the filter.
pub proof fn lemma_idx_filter_tail(p: spec_fn(usize) -> bool, k: nat, k2: nat)
    requires
        k <= k2,
        k2 <= usize::MAX + 1,
        forall|u: usize| k <= u < k2 ==> !#[trigger] p(u),
    ensures
        idx_filter(p, k2) == idx_filter(p, k),
    decreases k2,
{
    if k2 > k {
        lemma_idx_filter_tail(p, k, (k2 - 1) as nat);
        assert(!p((k2 - 1) as usize));
    }
}

/// A predicate that holds below `k` exactly at `a < b` filters to `[a, b]`.
pub proof fn lemma_idx_filter_pair(p: spec_fn(usize) -> bool, k: nat, a: usize, b: usize)
    requires
        a < b < k <= usize::MAX + 1,
        forall|u: usize| u < k ==> (#[trigger] p(u) <==> (u == a || u == b)),
    ensures
        idx_filter(p, k) == seq![a, b],
{
    lemma_idx_filter_tail(p, 0, a as nat);
    lemma_idx_filter_tail(p, (a + 1) as nat, b as nat);
    lemma_idx_filter_tail(p, (b + 1) as nat, k);
    assert(idx_filter(p, (a + 1) as nat) == idx_filter(p, a as nat).push(a));
    assert(idx_filter(p, (b + 1) as nat) == idx_filter(p, b as nat).push(b));
    assert(idx_filter(p, k) =~= seq![a, b]);
}

/// A weaker predicate keeps at least as many indices.
pub proof fn lemma_idx_filter_len_mono(p: spec_fn(usize) -> bool, q: spec_fn(usize) -> bool, k: nat)
    requires
        forall|u: usize| u < k && #[trigger] p(u) ==> q(u),
    ensures
        idx_filter(p, k).len() <= idx_filter(q, k).len(),
    decreases k,
{
    if k > 0 {
        lemma_idx_filter_len_mono(p, q, (k - 1) as nat);
    }
}

/// Number of elements of `s` satisfying `p`.
pub open spec fn count_if<A>(s: Seq<A>, p: spec_fn(A) -> bool) -> nat
    decreases s.len(),
{
    if s.len() == 0 {
        0
    } else {
        count_if(s.drop_last(), p) + if p(s.last()) { 1nat } else { 0nat }
    }
}

pub proof fn lemma_count_if_le<A>(s: Seq<A>, p: spec_fn(A) -> bool)
    ensures
        count_if(s, p) <= s.len(),
    decreases s.len(),
{
    if s.len() > 0 {
        lemma_count_if_le(s.drop_last(), p);
    }
}

pub proof fn lemma_count_if_push<A>(s: Seq<A>, a: A, p: spec_fn(A) -> bool)
    ensures
        count_if(s.push(a), p) == count_if(s, p) + if p(a) { 1nat } else { 0nat },
{
    assert(s.push(a).drop_last() =~= s);
}

pub proof fn lemma_count_if_update<A>(s: Seq<A>, i: int, x: A, p: spec_fn(A) -> bool)
    requires
        0 <= i < s.len(),
    ensures
        count_if(s.update(i, x), p) + (if p(s[i]) { 1nat } else { 0nat }) == count_if(s, p) + (if p(x) {
            1nat
        } else {
            0nat
        }),
    decreases s.len(),
{
    if i == s.len() - 1 {
        assert(s.update(i, x).drop_last() =~= s.drop_last());
    } else {
        assert(s.update(i, x).drop_last() =~= s.drop_last().update(i, x));
        lemma_count_if_update(s.drop_last(), i, x, p);
    }
}

/// Removing entry `i` by moving the last entry into its place.
pub proof fn lemma_count_if_swap_remove<A>(s: Seq<A>, i: int, p: spec_fn(A) -> bool)
    requires
        0 <= i < s.len(),
    ensures
        count_if(s.update(i, s.last()).drop_last(), p) + (if p(s[i]) { 1nat } else { 0nat }) == count_if(s, p),
{
    lemma_count_if_update(s, i, s.last(), p);
    let t = s.update(i, s.last());
    assert(t.last() == s.last());
}

pub proof fn lemma_count_if_none<A>(s: Seq<A>, p: spec_fn(A) -> bool)
    requires
        forall|i: int| 0 <= i < s.len() ==> !p(#[trigger] s[i]),
    ensures
        count_if(s, p) == 0,
    decreases s.len(),
{
    if s.len() > 0 {
        lemma_count_if_none(s.drop_last(), p);
    }
}

pub proof fn lemma_count_if_all<A>(s: Seq<A>, p: spec_fn(A) -> bool)
    requires
        forall|i: int| 0 <= i < s.len() ==> p(#[trigger] s[i]),
    ensures
        count_if(s, p) == s.len(),
    decreases s.len(),
{
    if s.len() > 0 {
        lemma_count_if_all(s.drop_last(), p);
    }
}

pub proof fn lemma_count_if_append<A>(a: Seq<A>, b: Seq<A>, p: spec_fn(A) -> bool)
    ensures
        count_if(a + b, p) == count_if(a, p) + count_if(b, p),
    decreases b.len(),
{
    if b.len() > 0 {
        lemma_count_if_append(a, b.drop_last(), p);
        assert((a + b).drop_last() =~= a + b.drop_last());
    } else {
        assert(a + b =~= a);
    }
}

/// A positive count means some entry satisfies the property.
pub proof fn lemma_count_if_pos<A>(s: Seq<A>, p: spec_fn(A) -> bool)
    ensures
        count_if(s, p) > 0 <==> exists|i: int| 0 <= i < s.len() && p(#[trigger] s[i]),
    decreases s.len(),
{
    if s.len() > 0 {
        lemma_count_if_pos(s.drop_last(), p);
        if exists|i: int| 0 <= i < s.len() && p(#[trigger] s[i]) {
            let i = choose|i: int| 0 <= i < s.len() && p(#[trigger] s[i]);
            if i < s.len() - 1 {
                assert(s.drop_last()[i] == s[i]);
            }
        }
        if exists|i: int| 0 <= i < s.drop_last().len() && p(#[trigger] s.drop_last()[i]) {
            let i = choose|i: int| 0 <= i < s.drop_last().len() && p(#[trigger] s.drop_last()[i]);
            assert(s[i] == s.drop_last()[i]);
        }
    }
}

/// Both properties hold.
pub open spec fn and_pred<A>(p: spec_fn(A) -> bool, t: spec_fn(A) -> bool) -> spec_fn(A) -> bool {
    |a: A| p(a) && t(a)
}

/// The first property holds and the second does not.
pub open spec fn and_not_pred<A>(p: spec_fn(A) -> bool, t: spec_fn(A) -> bool) -> spec_fn(A) -> bool {
    |a: A| p(a) && !t(a)
}

/// The property `p` of the image under `f`.
pub open spec fn after<A, B>(f: spec_fn(A) -> B, p: spec_fn(B) -> bool) -> spec_fn(A) -> bool {
    |a: A| p(f(a))
}

/// Splitting a count by a second property.
pub proof fn lemma_count_if_split<A>(s: Seq<A>, p: spec_fn(A) -> bool, t: spec_fn(A) -> bool)
    ensures
        count_if(s, p) == count_if(s, and_pred(p, t)) + count_if(s, and_not_pred(p, t)),
    decreases s.len(),
{
    if s.len() > 0 {
        lemma_count_if_split(s.drop_last(), p, t);
    }
}

/// A property implied by another is counted at least as often.
pub proof fn lemma_count_if_mono<A>(s: Seq<A>, p: spec_fn(A) -> bool, q: spec_fn(A) -> bool)
    requires
        forall|i: int| 0 <= i < s.len() && p(#[trigger] s[i]) ==> q(s[i]),
    ensures
        count_if(s, p) <= count_if(s, q),
    decreases s.len(),
{
    if s.len() > 0 {
        lemma_count_if_mono(s.drop_last(), p, q);
        assert(p(s.last()) ==> q(s[s.len() - 1]));
    }
}

/// Properties that agree on every entry give the same count.
pub proof fn lemma_count_if_agree<A>(s: Seq<A>, p: spec_fn(A) -> bool, q: spec_fn(A) -> bool)
    requires
        forall|i: int| 0 <= i < s.len() ==> p(#[trigger] s[i]) == q(s[i]),
    ensures
        count_if(s, p) == count_if(s, q),
{
    lemma_count_if_mono(s, p, q);
    lemma_count_if_mono(s, q, p);
}

/// A prefix is counted at most as often as the whole sequence.
pub proof fn lemma_count_if_prefix<A>(s: Seq<A>, p: spec_fn(A) -> bool, j: int)
    requires
        0 <= j <= s.len(),
    ensures
        count_if(s.take(j), p) <= count_if(s, p),
    decreases s.len() - j,
{
    if j < s.len() {
        lemma_count_if_prefix(s, p, j + 1);
        assert(s.take(j + 1).drop_last() =~= s.take(j));
    } else {
        assert(s.take(j) =~= s);
    }
}

/// Number of `true` entries.
pub open spec fn count_true(s: Seq<bool>) -> nat
    decreases s.len(),
{
    if s.len() == 0 {
        0
    } else {
        count_true(s.drop_last()) + if s.last() { 1nat } else { 0nat }
    }
}

} // verus!

verus! {

/// Number of `i < k` satisfying `p`.
pub open spec fn count_below(p: spec_fn(nat) -> bool, k: nat) -> nat
    decreases k,
{
    if k == 0 {
        0
    } else {
        count_below(p, (k - 1) as nat) + if p((k - 1) as nat) { 1nat } else { 0nat }
    }
}

/// `f(0) + ... + f(k - 1)`.
pub open spec fn sum_below(f: spec_fn(nat) -> nat, k: nat) -> nat
    decreases k,
{
    if k == 0 {
        0
    } else {
        sum_below(f, (k - 1) as nat) + f((k - 1) as nat)
    }
}

pub proof fn lemma_count_below_le(p: spec_fn(nat) -> bool, k: nat)
    ensures
        count_below(p, k) <= k,
    decreases k,
{
    if k > 0 {
        lemma_count_below_le(p, (k - 1) as nat);
    }
}

pub proof fn lemma_count_below_ext(p: spec_fn(nat) -> bool, q: spec_fn(nat) -> bool, k: nat)
    requires
        forall|i: nat| i < k ==> #[trigger] p(i) == q(i),
    ensures
        count_below(p, k) == count_below(q, k),
    decreases k,
{
    if k > 0 {
        lemma_count_below_ext(p, q, (k - 1) as nat);
    }
}

/// Turning one index from false to true adds one to the count.
pub proof fn lemma_count_below_flip(p: spec_fn(nat) -> bool, q: spec_fn(nat) -> bool, k: nat, x: nat)
    requires
        x < k,
        !p(x),
        q(x),
        forall|i: nat| i < k && i != x ==> #[trigger] p(i) == q(i),
    ensures
        count_below(q, k) == count_below(p, k) + 1,
    decreases k,
{
    if x == k - 1 {
        lemma_count_below_ext(p, q, (k - 1) as nat);
    } else {
        lemma_count_below_flip(p, q, (k - 1) as nat, x);
    }
}

pub proof fn lemma_sum_below_ext(f: spec_fn(nat) -> nat, g: spec_fn(nat) -> nat, k: nat)
    requires
        forall|i: nat| i < k ==> #[trigger] f(i) == g(i),
    ensures
        sum_below(f, k) == sum_below(g, k),
    decreases k,
{
    if k > 0 {
        lemma_sum_below_ext(f, g, (k - 1) as nat);
    }
}

/// Raising one term by one raises the sum by one.
pub proof fn lemma_sum_below_bump(f: spec_fn(nat) -> nat, g: spec_fn(nat) -> nat, k: nat, x: nat)
    requires
        x < k,
        g(x) == f(x) + 1,
        forall|i: nat| i < k && i != x ==> #[trigger] f(i) == g(i),
    ensures
        sum_below(g, k) == sum_below(f, k) + 1,
    decreases k,
{
    if x == k - 1 {
        lemma_sum_below_ext(f, g, (k - 1) as nat);
    } else {
        lemma_sum_below_bump(f, g, (k - 1) as nat, x);
    }
}

/// Terms bounded by `m` give a sum bounded by `k * m`.
pub proof fn lemma_sum_below_le(f: spec_fn(nat) -> nat, k: nat, m: nat)
    requires
        forall|i: nat| i < k ==> #[trigger] f(i) <= m,
    ensures
        sum_below(f, k) <= k * m,
    decreases k,
{
    if k > 0 {
        lemma_sum_below_le(f, (k - 1) as nat, m);
        assert(sum_below(f, k) <= (k - 1) * m + m);
        assert((k - 1) * m + m == k * m) by (nonlinear_arith);
    }
}

/// At most one set bit per position.
pub proof fn lemma_count_true_le(s: Seq<bool>)
    ensures
        count_true(s) <= s.len(),
    decreases s.len(),
{
    if s.len() > 0 {
        lemma_count_true_le(s.drop_last());
    }
}

/// A clear position leaves the count below the length.
pub proof fn lemma_count_true_lt(s: Seq<bool>, i: int)
    requires
        0 <= i < s.len(),
        !s[i],
    ensures
        count_true(s) < s.len(),
    decreases s.len(),
{
    if i == s.len() - 1 {
        lemma_count_true_le(s.drop_last());
    } else {
        lemma_count_true_lt(s.drop_last(), i);
    }
}

/// Setting a clear position adds one.
pub proof fn lemma_count_true_set(s: Seq<bool>, i: int)
    requires
        0 <= i < s.len(),
        !s[i],
    ensures
        count_true(s.update(i, true)) == count_true(s) + 1,
    decreases s.len(),
{
    if i == s.len() - 1 {
        assert(s.update(i, true).drop_last() =~= s.drop_last());
    } else {
        assert(s.update(i, true).drop_last() =~= s.drop_last().update(i, true));
        lemma_count_true_set(s.drop_last(), i);
    }
}

/// The members of a filter are members of the sequence.
pub proof fn lemma_filter_subset<A>(s: Seq<A>, p: spec_fn(A) -> bool)
    ensures
        forall|i: int| 0 <= i < s.filter(p).len() ==> s.contains(#[trigger] s.filter(p)[i]),
    decreases s.len(),
{
    reveal(Seq::filter);
    if s.len() > 0 {
        lemma_filter_subset(s.drop_last(), p);
        assert forall|i: int| 0 <= i < s.filter(p).len() implies s.contains(#[trigger] s.filter(p)[i]) by {
            let sub = s.drop_last().filter(p);
            if i < sub.len() {
                assert(s.filter(p)[i] == sub[i]);
                assert(s.drop_last().contains(sub[i]));
                let j = choose|j: int| 0 <= j < s.drop_last().len() && s.drop_last()[j] == sub[i];
                assert(s[j] == sub[i]);
            } else {
                assert(s[s.len() - 1] == s.filter(p)[i]);
            }
        }
    }
}

} // verus!
