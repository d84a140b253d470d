//! Checking the order of a slice, and seeded test vectors.
use vstd::prelude::*;
use core::cmp::Ordering;
use vstd::std_specs::cmp::OrdSpec;
use rand::Rng;
use rand::SeedableRng;
use rand_pcg::Pcg64Mcg;
use crate::SortOrder;
use crate::network::{cmp_total, le_dir, natural_cmp, sorted_in, valid_len, sort_net, lemma_sort_net_sorted};

verus! {

/// Each element may stand before the next one in the given order.
pub open spec fn adjacent_sorted<T: Ord>(s: Seq<T>, order: SortOrder) -> bool {
    forall|i: int|
        0 <= i < s.len() - 1 ==> #[trigger] le_dir(natural_cmp::<T>(order), true)(s[i], s[i + 1])
}

/// Whether every adjacent pair of `x` is in ascending order.
pub fn is_sorted_ascending<T: Ord>(x: &[T]) -> (r: bool)
    requires
        T::obeys_cmp_spec(),
    ensures
        r == adjacent_sorted(x@, SortOrder::Ascending),
{
    is_sorted(x, &SortOrder::Ascending)
}

/// Whether every adjacent pair of `x` is in descending order.
pub fn is_sorted_descending<T: Ord>(x: &[T]) -> (r: bool)
    requires
        T::obeys_cmp_spec(),
    ensures
        r == adjacent_sorted(x@, SortOrder::Descending),
{
    is_sorted(x, &SortOrder::Descending)
}

/// Whether every adjacent pair of `x` is in the given order.
pub fn is_sorted<T: Ord>(x: &[T], order: &SortOrder) -> (r: bool)
    requires
        T::obeys_cmp_spec(),
    ensures
        r == adjacent_sorted(x@, *order),
{
    let n = x.len();
    if n < 2 {
        return true;
    }
    let mut i: usize = 0;
    while i + 1 < n
        invariant
            n == x@.len(),
            n >= 2,
            0 <= i <= n - 1,
            T::obeys_cmp_spec(),
            forall|k: int|
                0 <= k < i ==> #[trigger] le_dir(natural_cmp::<T>(*order), true)(x@[k], x@[k + 1]),
        decreases n - i,
    {
        let outcome = match *order {
            SortOrder::Ascending => x[i].cmp(&x[i + 1]),
            SortOrder::Descending => x[i + 1].cmp(&x[i]),
        };
        if let Ordering::Greater = outcome {
            proof {
                assert(!le_dir(natural_cmp::<T>(*order), true)(x@[i as int], x@[i + 1]));
            }
            return false;
        }
        i += 1;
    }
    true
}

/// A sequence that the network has sorted passes the adjacent-pair check.
pub proof fn lemma_sort_then_is_sorted<T: Ord>(s: Seq<T>, order: SortOrder)
    requires
        cmp_total(natural_cmp::<T>(SortOrder::Ascending)),
        valid_len(s.len()),
    ensures
        adjacent_sorted(sort_net(s, natural_cmp::<T>(order), true), order),
{
    crate::network::lemma_natural_total::<T>(order);
    lemma_sort_net_sorted(s, natural_cmp::<T>(order), true);
    let r = sort_net(s, natural_cmp::<T>(order), true);
    assert forall|i: int| 0 <= i < r.len() - 1 implies #[trigger] le_dir(natural_cmp::<T>(order), true)(
        r[i],
        r[i + 1],
    ) by {
        assert(sorted_in(r, order));
    }
}

/// Relies on `Pcg64Mcg::from_seed`: the generator for an all-zero seed.
#[verifier::external_body]
fn zero_seeded_rng() -> Pcg64Mcg {
    Pcg64Mcg::from_seed([0; 16])
}

/// Relies on `Rng::gen`: the next `u32` of the generator.
#[verifier::external_body]
fn next_u32(rng: &mut Pcg64Mcg) -> u32 {
    rng.gen::<u32>()
}

/// `n` pseudo-random numbers from a generator with a fixed seed, the same on
/// every run.
pub fn new_u32_vec(n: usize) -> (r: Vec<u32>)
    ensures
        r@.len() == n,
{
    let mut rng = zero_seeded_rng();
    let mut v: Vec<u32> = Vec::new();
    let mut i: usize = 0;
    while i < n
        invariant
            0 <= i <= n,
            v@.len() == i,
        decreases n - i,
    {
        v.push(next_u32(&mut rng));
        i += 1;
    }
    v
}

} // verus!
