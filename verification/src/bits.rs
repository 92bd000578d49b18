//! Sets of small numbers held as bit sets.

use bit_set::BitSet;
use vstd::prelude::*;

verus! {

/// The bit set of the `bit_set` crate: a set of `usize` numbers.
#[verifier::external_type_specification]
#[verifier::external_body]
#[verifier::reject_recursive_types(B)]
pub struct ExBitSet<B>(BitSet<B>);

/// The numbers that a bit set holds.
pub uninterp spec fn members(set: BitSet) -> Set<usize>;

/// Collects numbers into a bit set, as `BitSet`'s `FromIterator` does by inserting
/// one after the other: the set holds exactly the numbers of the list. Inserting
/// `usize::MAX` would overflow the set's length, so the list must not hold it.
#[verifier::external_body]
pub(crate) fn bit_set_of(numbers: &Vec<usize>) -> (set: BitSet)
    requires
        forall|i: int| 0 <= i < numbers@.len() ==> numbers@[i] < usize::MAX,
    ensures
        forall|x: usize| members(set).contains(x) <==> numbers@.contains(x),
{
    numbers.iter().copied().collect()
}

/// `BitSet::contains`: whether the set holds the number.
#[verifier::external_body]
pub(crate) fn has_bit(set: &BitSet, number: usize) -> (r: bool)
    ensures
        r == members(*set).contains(number),
{
    set.contains(number)
}

/// The numbers of a set as `BitSet::iter` yields them: each once, from the lowest
/// bit that is set to the highest.
#[verifier::external_body]
pub(crate) fn bits_in_order(set: &BitSet) -> (numbers: Vec<usize>)
    ensures
        forall|x: usize| numbers@.contains(x) <==> members(*set).contains(x),
        forall|i: int, j: int| 0 <= i < j < numbers@.len() ==> numbers@[i] < numbers@[j],
{
    set.iter().collect()
}

} // verus!
