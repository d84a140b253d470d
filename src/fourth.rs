//! The parallel engine: the same network as the sequential one, with the two
//! halves of every split of at least `threshold` elements run as fork/join
//! tasks on disjoint halves of the slice.
use vstd::prelude::*;
use core::cmp::Ordering;
use vstd::std_specs::cmp::OrdSpec;
use crate::SortOrder;
use crate::network::{
    cmp_of, cmp_total, comparator_fn, computes, le_dir, lemma_natural_total, lemma_sort_net_sorted, lemma_sorted_input_kept,
    lemma_split_multiset, len_is_valid, merge_net, natural_cmp, sort_net, sorted_by, sorted_in,
    valid_len,
};
use crate::third::compare_and_swap;
use crate::invalid_length_message;

verus! {

/// Half-lengths from which the two halves of a split run as separate tasks.
pub const PARALLEL_THRESHOLD: usize = 4096;

/// What one half undergoes: a whole sort, or only the merge.
pub open spec fn pass_net<T>(s: Seq<T>, c: spec_fn(T, T) -> Ordering, forward: bool, merge_only: bool) -> Seq<T> {
    if merge_only {
        merge_net(s, le_dir(c, forward))
    } else {
        sort_net(s, c, forward)
    }
}

/// Sorts `x` into the natural order of `T` in the given direction.
pub fn sort<T: Ord + Send>(x: &mut [T], order: &SortOrder) -> (r: Result<(), String>)
    requires
        T::obeys_cmp_spec(),
        cmp_total(natural_cmp::<T>(SortOrder::Ascending)),
    ensures
        r.is_ok() <==> valid_len(old(x)@.len()),
        r.is_ok() ==> final(x)@ == sort_net(old(x)@, natural_cmp::<T>(*order), true),
        r.is_ok() ==> final(x)@.to_multiset() == old(x)@.to_multiset(),
        r.is_ok() ==> sorted_in(final(x)@, *order),
        r.is_ok() && sorted_in(old(x)@, *order) && (forall|a: T, b: T|
            #[trigger] a.cmp_spec(&b) == Ordering::Equal ==> a == b) ==> final(x)@ == old(x)@,
        r.is_err() ==> final(x)@ == old(x)@,
{
    proof {
        lemma_natural_total::<T>(*order);
    }
    let r = match *order {
        SortOrder::Ascending => {
            let c = |a: &T, b: &T| -> (o: Ordering)
                ensures
                    T::obeys_cmp_spec() ==> o == a.cmp_spec(b),
                { a.cmp(b) };
            let r = sort_in_tasks(x, &c, PARALLEL_THRESHOLD);
            proof {
                assert(computes(c, natural_cmp::<T>(*order)));
            }
            r
        },
        SortOrder::Descending => {
            let c = |a: &T, b: &T| -> (o: Ordering)
                ensures
                    T::obeys_cmp_spec() ==> o == b.cmp_spec(a),
                { b.cmp(a) };
            let r = sort_in_tasks(x, &c, PARALLEL_THRESHOLD);
            proof {
                assert(computes(c, natural_cmp::<T>(*order)));
            }
            r
        },
    };
    proof {
        if r.is_ok() {
            lemma_sort_net_sorted(old(x)@, natural_cmp::<T>(*order), true);
            if sorted_in(old(x)@, *order) && (forall|a: T, b: T|
                #[trigger] a.cmp_spec(&b) == Ordering::Equal ==> a == b) {
                lemma_sorted_input_kept(old(x)@, x@, *order);
            }
        }
    }
    r
}

/// Sorts `x` so that the comparator never reports `Greater` for an earlier
/// element against a later one.
pub fn sort_by<T, F>(x: &mut [T], comparator: &F) -> (r: Result<(), String>)
    where
        T: Send,
        F: Sync + Fn(&T, &T) -> Ordering,
    requires
        comparator_fn(*comparator),
    ensures
        r.is_ok() <==> valid_len(old(x)@.len()),
        r.is_ok() ==> final(x)@ == sort_net(old(x)@, cmp_of(*comparator), true),
        r.is_ok() ==> final(x)@.to_multiset() == old(x)@.to_multiset(),
        r.is_ok() && cmp_total(cmp_of(*comparator)) ==> sorted_by(
            final(x)@,
            le_dir(cmp_of(*comparator), true),
        ),
        r.is_err() ==> final(x)@ == old(x)@,
{
    sort_by_threshold(x, comparator, PARALLEL_THRESHOLD)
}

/// `sort_by` with the half-length from which splits run as tasks given by the
/// caller. The result does not depend on it.
pub fn sort_by_threshold<T, F>(x: &mut [T], comparator: &F, threshold: usize) -> (r: Result<(), String>)
    where
        T: Send,
        F: Sync + Fn(&T, &T) -> Ordering,
    requires
        comparator_fn(*comparator),
    ensures
        r.is_ok() <==> valid_len(old(x)@.len()),
        r.is_ok() ==> final(x)@ == sort_net(old(x)@, cmp_of(*comparator), true),
        r.is_ok() ==> final(x)@.to_multiset() == old(x)@.to_multiset(),
        r.is_ok() && cmp_total(cmp_of(*comparator)) ==> sorted_by(
            final(x)@,
            le_dir(cmp_of(*comparator), true),
        ),
        r.is_err() ==> final(x)@ == old(x)@,
{
    let r = sort_in_tasks(x, comparator, threshold);
    proof {
        assert(computes(*comparator, cmp_of(*comparator)));
        if r.is_ok() && cmp_total(cmp_of(*comparator)) {
            lemma_sort_net_sorted(old(x)@, cmp_of(*comparator), true);
        }
    }
    r
}

fn sort_in_tasks<T, F>(x: &mut [T], comparator: &F, threshold: usize) -> (r: Result<(), String>)
    where
        T: Send,
        F: Sync + Fn(&T, &T) -> Ordering,
    requires
        forall|a: &T, b: &T| #[trigger] comparator.requires((a, b)),
    ensures
        r.is_ok() <==> valid_len(old(x)@.len()),
        r.is_ok() ==> forall|c: spec_fn(T, T) -> Ordering|
            #[trigger] computes(*comparator, c) ==> final(x)@ == sort_net(old(x)@, c, true),
        r.is_ok() ==> final(x)@.to_multiset() == old(x)@.to_multiset(),
        r.is_err() ==> final(x)@ == old(x)@,
{
    if len_is_valid(x.len()) {
        do_sort(x, true, threshold, comparator);
        Ok(())
    } else {
        Err(invalid_length_message(x.len()))
    }
}

/// Relies on `rayon::join`: it returns once both closures have run to
/// completion, possibly at the same time on two workers of the pool.
#[verifier::external_body]
fn join_halves<T, F>(
    first: &mut [T],
    second: &mut [T],
    forward_first: bool,
    forward_second: bool,
    merge_only: bool,
    threshold: usize,
    comparator: &F,
)
    where
        T: Send,
        F: Sync + Fn(&T, &T) -> Ordering,
    requires
        forall|a: &T, b: &T| #[trigger] comparator.requires((a, b)),
    ensures
        final(first)@.len() == old(first)@.len(),
        final(second)@.len() == old(second)@.len(),
        final(first)@.to_multiset() == old(first)@.to_multiset(),
        final(second)@.to_multiset() == old(second)@.to_multiset(),
        forall|c: spec_fn(T, T) -> Ordering|
            #[trigger] computes(*comparator, c) ==> final(first)@ == pass_net(
                old(first)@,
                c,
                forward_first,
                merge_only,
            ) && final(second)@ == pass_net(old(second)@, c, forward_second, merge_only),
{
    rayon::join(
        || run_pass(first, forward_first, merge_only, threshold, comparator),
        || run_pass(second, forward_second, merge_only, threshold, comparator),
    );
}

fn run_pass<T, F>(x: &mut [T], forward: bool, merge_only: bool, threshold: usize, comparator: &F)
    where
        T: Send,
        F: Sync + Fn(&T, &T) -> Ordering,
    requires
        forall|a: &T, b: &T| #[trigger] comparator.requires((a, b)),
    ensures
        final(x)@.len() == old(x)@.len(),
        final(x)@.to_multiset() == old(x)@.to_multiset(),
        forall|c: spec_fn(T, T) -> Ordering|
            #[trigger] computes(*comparator, c) ==> final(x)@ == pass_net(old(x)@, c, forward, merge_only),
{
    if merge_only {
        sub_sort(x, forward, threshold, comparator);
    } else {
        do_sort(x, forward, threshold, comparator);
    }
}

fn do_sort<T, F>(x: &mut [T], forward: bool, threshold: usize, comparator: &F)
    where
        T: Send,
        F: Sync + Fn(&T, &T) -> Ordering,
    requires
        forall|a: &T, b: &T| #[trigger] comparator.requires((a, b)),
    ensures
        final(x)@.len() == old(x)@.len(),
        final(x)@.to_multiset() == old(x)@.to_multiset(),
        forall|c: spec_fn(T, T) -> Ordering|
            #[trigger] computes(*comparator, c) ==> final(x)@ == sort_net(old(x)@, c, forward),
    decreases old(x)@.len(),
{
    if x.len() > 1 {
        let mid_point = x.len() / 2;
        let ghost s0 = x@;
        let ghost mut first_done: Seq<T>;
        let ghost mut second_done: Seq<T>;
        {
            let (first, second) = x.split_at_mut(mid_point);
            if mid_point >= threshold {
                join_halves(first, second, true, false, false, threshold, comparator);
            } else {
                do_sort(first, true, threshold, comparator);
                do_sort(second, false, threshold, comparator);
            }
            proof {
                first_done = first@;
                second_done = second@;
            }
        }
        let ghost s1 = x@;
        proof {
            assert(s1.subrange(0, mid_point as int) =~= first_done);
            assert(s1.subrange(mid_point as int, s1.len() as int) =~= second_done);
            lemma_split_multiset(
                s0.subrange(0, mid_point as int),
                s0.subrange(mid_point as int, s0.len() as int),
                s1.subrange(0, mid_point as int),
                s1.subrange(mid_point as int, s1.len() as int),
            );
            assert(s0 =~= s0.subrange(0, mid_point as int) + s0.subrange(mid_point as int, s0.len() as int));
            assert(s1 =~= first_done + second_done);
        }
        sub_sort(x, forward, threshold, comparator);
    }
}

fn sub_sort<T, F>(x: &mut [T], forward: bool, threshold: usize, comparator: &F)
    where
        T: Send,
        F: Sync + Fn(&T, &T) -> Ordering,
    requires
        forall|a: &T, b: &T| #[trigger] comparator.requires((a, b)),
    ensures
        final(x)@.len() == old(x)@.len(),
        final(x)@.to_multiset() == old(x)@.to_multiset(),
        forall|c: spec_fn(T, T) -> Ordering|
            #[trigger] computes(*comparator, c) ==> final(x)@ == merge_net(old(x)@, le_dir(c, forward)),
    decreases old(x)@.len(),
{
    if x.len() > 1 {
        compare_and_swap(x, forward, comparator);
        let mid_point = x.len() / 2;
        let ghost s0 = x@;
        let ghost mut first_done: Seq<T>;
        let ghost mut second_done: Seq<T>;
        {
            let (first, second) = x.split_at_mut(mid_point);
            if mid_point >= threshold {
                join_halves(first, second, forward, forward, true, threshold, comparator);
            } else {
                sub_sort(first, forward, threshold, comparator);
                sub_sort(second, forward, threshold, comparator);
            }
            proof {
                first_done = first@;
                second_done = second@;
            }
        }
        let ghost s1 = x@;
        proof {
            assert(s1.subrange(0, mid_point as int) =~= first_done);
            assert(s1.subrange(mid_point as int, s1.len() as int) =~= second_done);
            lemma_split_multiset(
                s0.subrange(0, mid_point as int),
                s0.subrange(mid_point as int, s0.len() as int),
                s1.subrange(0, mid_point as int),
                s1.subrange(mid_point as int, s1.len() as int),
            );
            assert(s0 =~= s0.subrange(0, mid_point as int) + s0.subrange(mid_point as int, s0.len() as int));
            assert(s1 =~= first_done + second_done);
        }
    }
}

} // verus!
