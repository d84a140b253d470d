//! The first form of the engine: `u32` elements and a `bool` direction.
use vstd::prelude::*;
use crate::SortOrder;
use crate::network::{
    cmp_total, half_clean, le_dir, lemma_sort_net_sorted, lemma_split_multiset, lemma_swap_multiset,
    merge_net, natural_cmp, sort_net, sorted_in, valid_len, lemma_sorted_input_kept,
};

verus! {

/// The order of `u32` is a total order.
pub proof fn lemma_u32_total()
    ensures
        cmp_total(natural_cmp::<u32>(SortOrder::Ascending)),
{
}

/// Sorts `x` ascending when `up` holds and descending otherwise. On a length
/// that is not a power of two the elements are only permuted.
pub fn sort(x: &mut [u32], up: bool)
    ensures
        final(x)@ == sort_net(old(x)@, natural_cmp::<u32>(SortOrder::Ascending), up),
        final(x)@.len() == old(x)@.len(),
        final(x)@.to_multiset() == old(x)@.to_multiset(),
        valid_len(old(x)@.len()) ==> forall|i: int, j: int|
            0 <= i < j < final(x)@.len() ==> if up {
                final(x)@[i] <= final(x)@[j]
            } else {
                final(x)@[i] >= final(x)@[j]
            },
        valid_len(old(x)@.len()) && up && (forall|i: int, j: int|
            0 <= i < j < old(x)@.len() ==> old(x)@[i] <= old(x)@[j]) ==> final(x)@ == old(x)@,
    decreases old(x)@.len(),
{
    if x.len() > 1 {
        let mid_point = x.len() / 2;
        let ghost s0 = x@;
        let ghost mut first_done: Seq<u32>;
        let ghost mut second_done: Seq<u32>;
        {
            let (first, second) = x.split_at_mut(mid_point);
            sort(first, true);
            sort(second, false);
            proof {
                first_done = first@;
                second_done = second@;
            }
        }
        let ghost s1 = x@;
        proof {
            assert(s1.subrange(0, mid_point as int) =~= first_done);
            assert(s1.subrange(mid_point as int, s1.len() as int) =~= second_done);
            lemma_split_multiset(
                s0.subrange(0, mid_point as int),
                s0.subrange(mid_point as int, s0.len() as int),
                s1.subrange(0, mid_point as int),
                s1.subrange(mid_point as int, s1.len() as int),
            );
            assert(s0 =~= s0.subrange(0, mid_point as int) + s0.subrange(mid_point as int, s0.len() as int));
            assert(s1 =~= first_done + second_done);
        }
        sub_sort(x, up);
    }
    proof {
        if valid_len(old(x)@.len()) {
            lemma_u32_total();
            lemma_sort_net_sorted(old(x)@, natural_cmp::<u32>(SortOrder::Ascending), up);
            let r = x@;
            assert forall|i: int, j: int| 0 <= i < j < r.len() implies if up {
                r[i] <= r[j]
            } else {
                r[i] >= r[j]
            } by {
                assert(le_dir(natural_cmp::<u32>(SortOrder::Ascending), up)(r[i], r[j]));
            }
            if up && (forall|i: int, j: int| 0 <= i < j < old(x)@.len() ==> old(x)@[i] <= old(x)@[j]) {
                let s = old(x)@;
                assert forall|i: int, j: int| 0 <= i < j < s.len() implies #[trigger] le_dir(
                    natural_cmp::<u32>(SortOrder::Ascending),
                    true,
                )(s[i], s[j]) by {
                    assert(s[i] <= s[j]);
                }
                assert(sorted_in(s, SortOrder::Ascending));
                assert(sorted_in(r, SortOrder::Ascending));
                lemma_sorted_input_kept(s, r, SortOrder::Ascending);
            }
        }
    }
}

fn sub_sort(x: &mut [u32], up: bool)
    ensures
        final(x)@ == merge_net(old(x)@, le_dir(natural_cmp::<u32>(SortOrder::Ascending), up)),
        final(x)@.len() == old(x)@.len(),
        final(x)@.to_multiset() == old(x)@.to_multiset(),
    decreases old(x)@.len(),
{
    if x.len() > 1 {
        compare_and_swap(x, up);
        let mid_point = x.len() / 2;
        let ghost s0 = x@;
        let ghost mut first_done: Seq<u32>;
        let ghost mut second_done: Seq<u32>;
        {
            let (first, second) = x.split_at_mut(mid_point);
            sub_sort(first, up);
            sub_sort(second, up);
            proof {
                first_done = first@;
                second_done = second@;
            }
        }
        let ghost s1 = x@;
        proof {
            assert(s1.subrange(0, mid_point as int) =~= first_done);
            assert(s1.subrange(mid_point as int, s1.len() as int) =~= second_done);
            lemma_split_multiset(
                s0.subrange(0, mid_point as int),
                s0.subrange(mid_point as int, s0.len() as int),
                s1.subrange(0, mid_point as int),
                s1.subrange(mid_point as int, s1.len() as int),
            );
            assert(s0 =~= s0.subrange(0, mid_point as int) + s0.subrange(mid_point as int, s0.len() as int));
            assert(s1 =~= first_done + second_done);
        }
    }
}

/// Orders each pair `(i, i + m)`; descending passes also exchange equal values,
/// which leaves the slice as it would be otherwise.
fn compare_and_swap(x: &mut [u32], up: bool)
    ensures
        final(x)@ == half_clean(old(x)@, le_dir(natural_cmp::<u32>(SortOrder::Ascending), up)),
        final(x)@.to_multiset() == old(x)@.to_multiset(),
{
    let ghost s = x@;
    let ghost h = half_clean(s, le_dir(natural_cmp::<u32>(SortOrder::Ascending), up));
    let mid_point = x.len() / 2;
    let mut i: usize = 0;
    while i < mid_point
        invariant
            h == half_clean(s, le_dir(natural_cmp::<u32>(SortOrder::Ascending), up)),
            mid_point == s.len() / 2,
            x@.len() == s.len(),
            s.len() <= usize::MAX,
            0 <= i <= mid_point,
            forall|k: int| 0 <= k < i ==> #[trigger] x@[k] == h[k],
            forall|k: int| mid_point <= k < mid_point + i ==> #[trigger] x@[k] == h[k],
            forall|k: int| i <= k < mid_point ==> #[trigger] x@[k] == s[k],
            forall|k: int| mid_point + i <= k < s.len() ==> #[trigger] x@[k] == s[k],
            x@.to_multiset() == s.to_multiset(),
        decreases mid_point - i,
    {
        let j = mid_point + i;
        if (x[i] > x[j]) == up {
            proof {
                lemma_swap_multiset(x@, i as int, j as int);
            }
            let t = x[i];
            x[i] = x[j];
            x[j] = t;
        }
        proof {
            assert(x@[i as int] == h[i as int]);
            assert(x@[j as int] == h[j as int]);
        }
        i += 1;
    }
    proof {
        assert forall|k: int| 0 <= k < s.len() implies #[trigger] x@[k] == h[k] by {}
        assert(x@ =~= h);
    }
}

} // verus!
