//! The sequential engine: generic over the element type and the comparator.
use vstd::prelude::*;
use core::cmp::Ordering;
use vstd::std_specs::cmp::OrdSpec;
use crate::SortOrder;
use crate::network::{
    cmp_of, cmp_total, comparator_fn, computes, half_clean, le_dir, lemma_natural_total, lemma_sorted_input_kept,
    lemma_sort_net_sorted, lemma_split_multiset, lemma_swap_multiset, len_is_valid, merge_net,
    natural_cmp, sort_net, sorted_by, sorted_in, valid_len,
};
use crate::{invalid_length_message, swap_elems};

verus! {

/// Sorts `x` into the natural order of `T` in the given direction.
pub fn sort<T: Ord>(x: &mut [T], order: &SortOrder) -> (r: Result<(), String>)
    requires
        T::obeys_cmp_spec(),
        cmp_total(natural_cmp::<T>(SortOrder::Ascending)),
    ensures
        r.is_ok() <==> valid_len(old(x)@.len()),
        r.is_ok() ==> final(x)@ == sort_net(old(x)@, natural_cmp::<T>(*order), true),
        r.is_ok() ==> final(x)@.to_multiset() == old(x)@.to_multiset(),
        r.is_ok() ==> sorted_in(final(x)@, *order),
        r.is_ok() && sorted_in(old(x)@, *order) && (forall|a: T, b: T|
            #[trigger] a.cmp_spec(&b) == Ordering::Equal ==> a == b) ==> final(x)@ == old(x)@,
        r.is_err() ==> final(x)@ == old(x)@,
{
    proof {
        lemma_natural_total::<T>(*order);
    }
    let r = match *order {
        SortOrder::Ascending => {
            let c = |a: &T, b: &T| -> (o: Ordering)
                ensures
                    T::obeys_cmp_spec() ==> o == a.cmp_spec(b),
                { a.cmp(b) };
            let r = sort_with(x, &c);
            proof {
                assert(computes(c, natural_cmp::<T>(*order)));
            }
            r
        },
        SortOrder::Descending => {
            let c = |a: &T, b: &T| -> (o: Ordering)
                ensures
                    T::obeys_cmp_spec() ==> o == b.cmp_spec(a),
                { b.cmp(a) };
            let r = sort_with(x, &c);
            proof {
                assert(computes(c, natural_cmp::<T>(*order)));
            }
            r
        },
    };
    proof {
        if r.is_ok() {
            lemma_sort_net_sorted(old(x)@, natural_cmp::<T>(*order), true);
            if sorted_in(old(x)@, *order) && (forall|a: T, b: T|
                #[trigger] a.cmp_spec(&b) == Ordering::Equal ==> a == b) {
                lemma_sorted_input_kept(old(x)@, x@, *order);
            }
        }
    }
    r
}

/// Sorts `x` so that the comparator never reports `Greater` for an earlier
/// element against a later one.
pub fn sort_by<T, F>(x: &mut [T], comparator: &F) -> (r: Result<(), String>)
    where
        F: Fn(&T, &T) -> Ordering,
    requires
        comparator_fn(*comparator),
    ensures
        r.is_ok() <==> valid_len(old(x)@.len()),
        r.is_ok() ==> final(x)@ == sort_net(old(x)@, cmp_of(*comparator), true),
        r.is_ok() ==> final(x)@.to_multiset() == old(x)@.to_multiset(),
        r.is_ok() && cmp_total(cmp_of(*comparator)) ==> sorted_by(
            final(x)@,
            le_dir(cmp_of(*comparator), true),
        ),
        r.is_err() ==> final(x)@ == old(x)@,
{
    let r = sort_with(x, comparator);
    proof {
        assert(computes(*comparator, cmp_of(*comparator)));
        if r.is_ok() && cmp_total(cmp_of(*comparator)) {
            lemma_sort_net_sorted(old(x)@, cmp_of(*comparator), true);
        }
    }
    r
}

fn sort_with<T, F>(x: &mut [T], comparator: &F) -> (r: Result<(), String>)
    where
        F: Fn(&T, &T) -> Ordering,
    requires
        forall|a: &T, b: &T| #[trigger] comparator.requires((a, b)),
    ensures
        r.is_ok() <==> valid_len(old(x)@.len()),
        r.is_ok() ==> forall|c: spec_fn(T, T) -> Ordering|
            #[trigger] computes(*comparator, c) ==> final(x)@ == sort_net(old(x)@, c, true),
        r.is_ok() ==> final(x)@.to_multiset() == old(x)@.to_multiset(),
        r.is_err() ==> final(x)@ == old(x)@,
{
    if len_is_valid(x.len()) {
        do_sort(x, true, comparator);
        Ok(())
    } else {
        Err(invalid_length_message(x.len()))
    }
}

fn do_sort<T, F>(x: &mut [T], forward: bool, comparator: &F)
    where
        F: Fn(&T, &T) -> Ordering,
    requires
        forall|a: &T, b: &T| #[trigger] comparator.requires((a, b)),
    ensures
        final(x)@.len() == old(x)@.len(),
        final(x)@.to_multiset() == old(x)@.to_multiset(),
        forall|c: spec_fn(T, T) -> Ordering|
            #[trigger] computes(*comparator, c) ==> final(x)@ == sort_net(old(x)@, c, forward),
    decreases old(x)@.len(),
{
    if x.len() > 1 {
        let mid_point = x.len() / 2;
        let ghost s0 = x@;
        let ghost mut first_done: Seq<T>;
        let ghost mut second_done: Seq<T>;
        {
            let (first, second) = x.split_at_mut(mid_point);
            do_sort(first, true, comparator);
            do_sort(second, false, comparator);
            proof {
                first_done = first@;
                second_done = second@;
            }
        }
        let ghost s1 = x@;
        proof {
            assert(s1.subrange(0, mid_point as int) =~= first_done);
            assert(s1.subrange(mid_point as int, s1.len() as int) =~= second_done);
            lemma_split_multiset(
                s0.subrange(0, mid_point as int),
                s0.subrange(mid_point as int, s0.len() as int),
                s1.subrange(0, mid_point as int),
                s1.subrange(mid_point as int, s1.len() as int),
            );
            assert(s0 =~= s0.subrange(0, mid_point as int) + s0.subrange(mid_point as int, s0.len() as int));
            assert(s1 =~= first_done + second_done);
        }
        sub_sort(x, forward, comparator);
    }
}

fn sub_sort<T, F>(x: &mut [T], forward: bool, comparator: &F)
    where
        F: Fn(&T, &T) -> Ordering,
    requires
        forall|a: &T, b: &T| #[trigger] comparator.requires((a, b)),
    ensures
        final(x)@.len() == old(x)@.len(),
        final(x)@.to_multiset() == old(x)@.to_multiset(),
        forall|c: spec_fn(T, T) -> Ordering|
            #[trigger] computes(*comparator, c) ==> final(x)@ == merge_net(old(x)@, le_dir(c, forward)),
    decreases old(x)@.len(),
{
    if x.len() > 1 {
        compare_and_swap(x, forward, comparator);
        let mid_point = x.len() / 2;
        let ghost s0 = x@;
        let ghost mut first_done: Seq<T>;
        let ghost mut second_done: Seq<T>;
        {
            let (first, second) = x.split_at_mut(mid_point);
            sub_sort(first, forward, comparator);
            sub_sort(second, forward, comparator);
            proof {
                first_done = first@;
                second_done = second@;
            }
        }
        let ghost s1 = x@;
        proof {
            assert(s1.subrange(0, mid_point as int) =~= first_done);
            assert(s1.subrange(mid_point as int, s1.len() as int) =~= second_done);
            lemma_split_multiset(
                s0.subrange(0, mid_point as int),
                s0.subrange(mid_point as int, s0.len() as int),
                s1.subrange(0, mid_point as int),
                s1.subrange(mid_point as int, s1.len() as int),
            );
            assert(s0 =~= s0.subrange(0, mid_point as int) + s0.subrange(mid_point as int, s0.len() as int));
            assert(s1 =~= first_done + second_done);
        }
    }
}

/// One compare-and-swap pass over the pairs `(i, i + m)`, `m` half the length.
pub(crate) fn compare_and_swap<T, F>(x: &mut [T], forward: bool, comparator: &F)
    where
        F: Fn(&T, &T) -> Ordering,
    requires
        forall|a: &T, b: &T| #[trigger] comparator.requires((a, b)),
    ensures
        final(x)@.len() == old(x)@.len(),
        final(x)@.to_multiset() == old(x)@.to_multiset(),
        forall|c: spec_fn(T, T) -> Ordering|
            #[trigger] computes(*comparator, c) ==> final(x)@ == half_clean(old(x)@, le_dir(c, forward)),
        // a pair that compares equal is never exchanged
        forall|c: spec_fn(T, T) -> Ordering, k: int|
            #![trigger computes(*comparator, c), final(x)@[k]]
            computes(*comparator, c) && 0 <= k < old(x)@.len() / 2 && c(
                old(x)@[k],
                old(x)@[k + old(x)@.len() / 2],
            ) == Ordering::Equal ==> final(x)@[k] == old(x)@[k] && final(x)@[k + old(x)@.len() / 2]
                == old(x)@[k + old(x)@.len() / 2],
{
    let ghost s = x@;
    let mid_point = x.len() / 2;
    let mut i: usize = 0;
    while i < mid_point
        invariant
            forall|a: &T, b: &T| #[trigger] comparator.requires((a, b)),
            mid_point == s.len() / 2,
            x@.len() == s.len(),
            0 <= i <= mid_point,
            forall|c: spec_fn(T, T) -> Ordering|
                #[trigger] computes(*comparator, c) ==> forall|k: int|
                    (0 <= k < i || mid_point <= k < mid_point + i) ==> #[trigger] x@[k] == half_clean(
                        s,
                        le_dir(c, forward),
                    )[k],
            forall|k: int| i <= k < mid_point ==> #[trigger] x@[k] == s[k],
            forall|k: int| mid_point + i <= k < s.len() ==> #[trigger] x@[k] == s[k],
            x@.to_multiset() == s.to_multiset(),
        decreases mid_point - i,
    {
        let outcome = (*comparator)(&x[i], &x[mid_point + i]);
        let exchange = match outcome {
            Ordering::Greater => forward,
            Ordering::Less => !forward,
            Ordering::Equal => false,
        };
        let ghost before = x@;
        if exchange {
            proof {
                lemma_swap_multiset(x@, i as int, mid_point + i);
            }
            swap_elems(x, i, mid_point + i);
        }
        proof {
            assert forall|c: spec_fn(T, T) -> Ordering| #[trigger] computes(*comparator, c) implies forall|k: int|
                (0 <= k < i + 1 || mid_point <= k < mid_point + i + 1) ==> #[trigger] x@[k] == half_clean(
                    s,
                    le_dir(c, forward),
                )[k] by {
                let h = half_clean(s, le_dir(c, forward));
                assert(outcome == c(s[i as int], s[i + mid_point]));
                assert(exchange == !le_dir(c, forward)(s[i as int], s[i + mid_point]));
                assert forall|k: int| (0 <= k < i + 1 || mid_point <= k < mid_point + i + 1) implies #[trigger] x@[k] == h[k] by {
                    if k != i && k != i + mid_point {
                        assert(before[k] == h[k]);
                    }
                }
            }
        }
        i += 1;
    }
    proof {
        assert forall|c: spec_fn(T, T) -> Ordering| #[trigger] computes(*comparator, c) implies x@ == half_clean(s, le_dir(c, forward)) by {
            let h = half_clean(s, le_dir(c, forward));
            assert forall|k: int| 0 <= k < s.len() implies #[trigger] x@[k] == h[k] by {}
            assert(x@ =~= h);
        }
    }
}

} // verus!
