//! `fixedbitset::FixedBitSet` with the contracts of the methods the library
//! calls. The contents of a bitset are its bits by index ([`fbs_bits`]);
//! its length is the length of that sequence.

use vstd::prelude::*;

use crate::seqs::{count_true, idx_filter};

verus! {

#[verifier::external_type_specification]
#[verifier::external_body]
pub struct ExFixedBitSet(fixedbitset::FixedBitSet);

/// The bits of a `FixedBitSet`, by index; the length is `len()`.
pub uninterp spec fn fbs_bits(b: fixedbitset::FixedBitSet) -> Seq<bool>;

/// The indices of the set bits, ascending.
pub open spec fn ones_of(bits: Seq<bool>) -> Seq<usize> {
    idx_filter(|i: usize| (i as int) < bits.len() && bits[i as int], bits.len())
}

/// `FixedBitSet::new`: no bits.
#[verifier::external_body]
pub(crate) fn fbs_new() -> (r: fixedbitset::FixedBitSet)
    ensures
        fbs_bits(r) == Seq::<bool>::empty(),
{
    fixedbitset::FixedBitSet::new()
}

/// `FixedBitSet::with_capacity`: `n` clear bits.
#[verifier::external_body]
pub(crate) fn fbs_with_capacity(n: usize) -> (r: fixedbitset::FixedBitSet)
    ensures
        fbs_bits(r) == Seq::new(n as nat, |i: int| false),
{
    fixedbitset::FixedBitSet::with_capacity(n)
}

/// `FixedBitSet::clone`.
#[verifier::external_body]
pub(crate) fn fbs_clone(b: &fixedbitset::FixedBitSet) -> (r: fixedbitset::FixedBitSet)
    ensures
        fbs_bits(r) == fbs_bits(*b),
{
    b.clone()
}

/// `FixedBitSet::len`.
#[verifier::external_body]
pub(crate) fn fbs_len(b: &fixedbitset::FixedBitSet) -> (r: usize)
    ensures
        r == fbs_bits(*b).len(),
{
    b.len()
}

/// `FixedBitSet::grow`: grows to `n` bits, new bits clear; no change when
/// `n` is not larger.
#[verifier::external_body]
pub(crate) fn fbs_grow(b: &mut fixedbitset::FixedBitSet, n: usize)
    ensures
        n > fbs_bits(*old(b)).len() ==> fbs_bits(*final(b)) == fbs_bits(*old(b)) + Seq::new(
            (n - fbs_bits(*old(b)).len()) as nat,
            |i: int| false,
        ),
        n <= fbs_bits(*old(b)).len() ==> fbs_bits(*final(b)) == fbs_bits(*old(b)),
{
    b.grow(n)
}

/// `FixedBitSet::insert`: sets bit `i`; it panics when `i` is out of range,
/// which `requires` leaves out.
#[verifier::external_body]
pub(crate) fn fbs_insert(b: &mut fixedbitset::FixedBitSet, i: usize)
    requires
        i < fbs_bits(*old(b)).len(),
    ensures
        fbs_bits(*final(b)) == fbs_bits(*old(b)).update(i as int, true),
{
    b.insert(i)
}

/// `FixedBitSet::set`: bit `i` becomes `v`; it panics when `i` is out of
/// range, which `requires` leaves out.
#[verifier::external_body]
pub(crate) fn fbs_set(b: &mut fixedbitset::FixedBitSet, i: usize, v: bool)
    requires
        i < fbs_bits(*old(b)).len(),
    ensures
        fbs_bits(*final(b)) == fbs_bits(*old(b)).update(i as int, v),
{
    b.set(i, v)
}

/// `FixedBitSet::contains`: bits out of range are clear.
#[verifier::external_body]
pub(crate) fn fbs_contains(b: &fixedbitset::FixedBitSet, i: usize) -> (r: bool)
    ensures
        r == (i < fbs_bits(*b).len() && fbs_bits(*b)[i as int]),
{
    b.contains(i)
}

/// `FixedBitSet::count_ones(..)`: the number of set bits.
#[verifier::external_body]
pub(crate) fn fbs_count_ones(b: &fixedbitset::FixedBitSet) -> (r: usize)
    ensures
        r == count_true(fbs_bits(*b)),
{
    b.count_ones(..)
}

/// `FixedBitSet::ones` collected: the set bits, ascending.
#[verifier::external_body]
pub(crate) fn fbs_ones(b: &fixedbitset::FixedBitSet) -> (r: Vec<usize>)
    ensures
        r@ == ones_of(fbs_bits(*b)),
{
    b.ones().collect()
}

/// `FixedBitSet::union_with` on equal lengths: bitwise or.
#[verifier::external_body]
pub(crate) fn fbs_union_with(a: &mut fixedbitset::FixedBitSet, b: &fixedbitset::FixedBitSet)
    requires
        fbs_bits(*old(a)).len() == fbs_bits(*b).len(),
    ensures
        fbs_bits(*final(a)) == Seq::new(
            fbs_bits(*old(a)).len(),
            |i: int| fbs_bits(*old(a))[i] || fbs_bits(*b)[i],
        ),
{
    a.union_with(b)
}

/// `FixedBitSet::intersect_with` on equal lengths: bitwise and.
#[verifier::external_body]
pub(crate) fn fbs_intersect_with(a: &mut fixedbitset::FixedBitSet, b: &fixedbitset::FixedBitSet)
    requires
        fbs_bits(*old(a)).len() == fbs_bits(*b).len(),
    ensures
        fbs_bits(*final(a)) == Seq::new(
            fbs_bits(*old(a)).len(),
            |i: int| fbs_bits(*old(a))[i] && fbs_bits(*b)[i],
        ),
{
    a.intersect_with(b)
}

/// `FixedBitSet::difference_with` on equal lengths: bits of `a` not in `b`.
#[verifier::external_body]
pub(crate) fn fbs_difference_with(a: &mut fixedbitset::FixedBitSet, b: &fixedbitset::FixedBitSet)
    requires
        fbs_bits(*old(a)).len() == fbs_bits(*b).len(),
    ensures
        fbs_bits(*final(a)) == Seq::new(
            fbs_bits(*old(a)).len(),
            |i: int| fbs_bits(*old(a))[i] && !fbs_bits(*b)[i],
        ),
{
    a.difference_with(b)
}

/// `FixedBitSet::is_disjoint` on equal lengths.
#[verifier::external_body]
pub(crate) fn fbs_is_disjoint(a: &fixedbitset::FixedBitSet, b: &fixedbitset::FixedBitSet) -> (r: bool)
    requires
        fbs_bits(*a).len() == fbs_bits(*b).len(),
    ensures
        r == (forall|i: int| 0 <= i < fbs_bits(*a).len() ==> !(fbs_bits(*a)[i] && fbs_bits(*b)[i])),
{
    a.is_disjoint(b)
}

/// `FixedBitSet::is_subset` on equal lengths.
#[verifier::external_body]
pub(crate) fn fbs_is_subset(a: &fixedbitset::FixedBitSet, b: &fixedbitset::FixedBitSet) -> (r: bool)
    requires
        fbs_bits(*a).len() == fbs_bits(*b).len(),
    ensures
        r == (forall|i: int| 0 <= i < fbs_bits(*a).len() && fbs_bits(*a)[i] ==> fbs_bits(*b)[i]),
{
    a.is_subset(b)
}

/// `FixedBitSet::is_superset` on equal lengths.
#[verifier::external_body]
pub(crate) fn fbs_is_superset(a: &fixedbitset::FixedBitSet, b: &fixedbitset::FixedBitSet) -> (r: bool)
    requires
        fbs_bits(*a).len() == fbs_bits(*b).len(),
    ensures
        r == (forall|i: int| 0 <= i < fbs_bits(*a).len() && fbs_bits(*b)[i] ==> fbs_bits(*a)[i]),
{
    a.is_superset(b)
}

/// `FixedBitSet::is_clear`: no bit is set.
#[verifier::external_body]
pub(crate) fn fbs_is_clear(b: &fixedbitset::FixedBitSet) -> (r: bool)
    ensures
        r == (forall|i: int| 0 <= i < fbs_bits(*b).len() ==> !fbs_bits(*b)[i]),
{
    b.is_clear()
}

/// `FixedBitSet::minimum`: the lowest set bit, `None` when none is set.
#[verifier::external_body]
pub(crate) fn fbs_minimum(b: &fixedbitset::FixedBitSet) -> (r: Option<usize>)
    ensures
        r is None <==> (forall|i: int| 0 <= i < fbs_bits(*b).len() ==> !fbs_bits(*b)[i]),
        r matches Some(m) ==> {
            &&& m < fbs_bits(*b).len()
            &&& fbs_bits(*b)[m as int]
            &&& forall|i: int| 0 <= i < m ==> !fbs_bits(*b)[i]
        },
{
    b.minimum()
}

/// `FixedBitSet::eq`: same length and same bits.
#[verifier::external_body]
pub(crate) fn fbs_eq(a: &fixedbitset::FixedBitSet, b: &fixedbitset::FixedBitSet) -> (r: bool)
    ensures
        r == (fbs_bits(*a) == fbs_bits(*b)),
{
    a == b
}

} // verus!

verus! {

/// The number of set bits among the first `k`.
pub proof fn lemma_ones_of_count_upto(bits: Seq<bool>, k: nat)
    requires
        k <= bits.len(),
        bits.len() <= usize::MAX,
    ensures
        idx_filter(|i: usize| (i as int) < bits.len() && bits[i as int], k).len() == count_true(bits.take(k as int)),
    decreases k,
{
    let p = |i: usize| (i as int) < bits.len() && bits[i as int];
    if k > 0 {
        lemma_ones_of_count_upto(bits, (k - 1) as nat);
        assert(bits.take(k as int).drop_last() =~= bits.take(k - 1));
        assert(((k - 1) as usize) as int == k - 1);
        assert(p((k - 1) as usize) == bits[k - 1]);
    }
}

/// `ones_of(bits)` has one entry per set bit.
pub proof fn lemma_ones_of_count(bits: Seq<bool>)
    requires
        bits.len() <= usize::MAX,
    ensures
        ones_of(bits).len() == count_true(bits),
{
    lemma_ones_of_count_upto(bits, bits.len());
    assert(bits.take(bits.len() as int) =~= bits);
}

} // verus!
