//! Bit vectors of the `bit-vec` crate and shuffling with `rand`, as the preprocessing of
//! signatures uses them.
use vstd::prelude::*;

use bit_vec::BitVec;
use rand::seq::SliceRandom;

verus! {

#[verifier::external_type_specification]
#[verifier::external_body]
#[verifier::reject_recursive_types(B)]
pub struct ExBitVec<B>(bit_vec::BitVec<B>);

/// The bits that a bit vector holds.
pub uninterp spec fn bits_of(v: BitVec) -> Seq<bool>;

/// `BitVec::from_elem`: a bit vector of `nbits` bits, each of them `bit`.
#[verifier::external_body]
pub(crate) fn bitvec_from_elem(nbits: usize, bit: bool) -> (v: BitVec)
    ensures
        bits_of(v) == Seq::new(nbits as nat, |i: int| bit),
{
    BitVec::from_elem(nbits, bit)
}

/// `BitVec::set`: sets the bit at `i` to `x`; it panics where `i` is out of bounds.
#[verifier::external_body]
pub(crate) fn bitvec_set(v: &mut BitVec, i: usize, x: bool)
    requires
        i < bits_of(*old(v)).len(),
    ensures
        bits_of(*final(v)) == bits_of(*old(v)).update(i as int, x),
{
    v.set(i, x);
}

/// `BitVec::get`: the bit at `i`, or None where `i` is out of bounds.
#[verifier::external_body]
pub(crate) fn bitvec_get(v: &BitVec, i: usize) -> (r: Option<bool>)
    ensures
        i < bits_of(*v).len() ==> r == Some(bits_of(*v)[i as int]),
        i >= bits_of(*v).len() ==> r is None,
{
    v.get(i)
}

/// `BitVec::len`: the number of bits.
#[verifier::external_body]
pub(crate) fn bitvec_len(v: &BitVec) -> (n: usize)
    ensures
        n == bits_of(*v).len(),
{
    v.len()
}

/// `SliceRandom::shuffle` with the thread's random generator: the same values, in an order
/// that chance decides.
#[verifier::external_body]
pub(crate) fn shuffle(v: &mut Vec<usize>)
    ensures
        final(v)@.len() == old(v)@.len(),
        final(v)@.to_multiset() == old(v)@.to_multiset(),
{
    v.shuffle(&mut rand::thread_rng());
}

} // verus!
