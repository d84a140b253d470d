//! Bitonic sorting networks over slices: a prototype on `u32`, a generic
//! sequential engine driven by a comparator, and a parallel engine that runs
//! the two halves of each split as fork/join tasks.
use vstd::prelude::*;

pub mod network;
pub mod second;
pub mod third;
pub mod fourth;
pub mod utils;
pub mod thread_example;

verus! {

/// The generator behind the seeded test vectors.
#[verifier::external_type_specification]
#[verifier::external_body]
pub struct ExPcg64Mcg(rand_pcg::Pcg64Mcg);

/// The order in which a whole sequence ends up.
#[derive(PartialEq, Eq, Structural, Clone, Copy, Debug)]
pub enum SortOrder {
    Ascending,
    Descending,
}

/// Relies on `<[T]>::swap`: exchanges the elements at `i` and `j`, and panics
/// only when one of them is out of bounds.
#[verifier::external_body]
pub(crate) fn swap_elems<T>(x: &mut [T], i: usize, j: usize)
    requires
        i < old(x)@.len(),
        j < old(x)@.len(),
    ensures
        final(x)@ == old(x)@.update(i as int, old(x)@[j as int]).update(j as int, old(x)@[i as int]),
{
    x.swap(i, j)
}

/// Relies on `format!`: the text of the error for a length that is neither
/// zero nor a power of two.
#[verifier::external_body]
pub(crate) fn invalid_length_message(len: usize) -> String {
    format!("The length of x is not a power of two. x.len(): {}", len)
}

} // verus!
