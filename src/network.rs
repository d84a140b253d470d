//! The mathematical model of the bitonic network and the proof that it sorts.
use vstd::prelude::*;
use core::cmp::Ordering;
use vstd::std_specs::cmp::OrdSpec;
use crate::SortOrder;

verus! {

/// `n` is a power of two (1, 2, 4, ...).
pub open spec fn is_pow2(n: nat) -> bool
    decreases n,
{
    if n <= 1 {
        n == 1
    } else {
        n % 2 == 0 && is_pow2(n / 2)
    }
}

/// The lengths the engine accepts: zero or a power of two.
pub open spec fn valid_len(n: nat) -> bool {
    n == 0 || is_pow2(n)
}

/// Decides `valid_len` by halving.
pub fn len_is_valid(n: usize) -> (r: bool)
    ensures
        r == valid_len(n as nat),
{
    if n == 0 {
        return true;
    }
    let mut m: usize = n;
    while m > 1 && m % 2 == 0
        invariant
            1 <= m <= n,
            is_pow2(n as nat) == is_pow2(m as nat),
        decreases m,
    {
        m = m / 2;
    }
    m == 1
}


// ---------------------------------------------------------------------------
// Orders
// ---------------------------------------------------------------------------

/// A three-way comparison that is a total preorder: `Greater` one way is `Less`
/// the other way, and "not greater" is transitive. Ties between distinct values
/// are allowed.
pub open spec fn cmp_total<T>(c: spec_fn(T, T) -> Ordering) -> bool {
    &&& forall|a: T, b: T| #[trigger] c(a, b) == Ordering::Greater <==> c(b, a) == Ordering::Less
    &&& forall|a: T, b: T, d: T|
        #![trigger c(a, b), c(b, d)]
        c(a, b) != Ordering::Greater && c(b, d) != Ordering::Greater ==> c(a, d)
            != Ordering::Greater
}

/// `a` may stand before `b` in a run of the given direction: forward runs are
/// non-decreasing under `c`, backward runs non-increasing.
pub open spec fn le_dir<T>(c: spec_fn(T, T) -> Ordering, forward: bool) -> spec_fn(T, T) -> bool {
    |a: T, b: T|
        if forward {
            c(a, b) != Ordering::Greater
        } else {
            c(a, b) != Ordering::Less
        }
}

/// `le` is total and transitive.
pub open spec fn total_preorder<T>(le: spec_fn(T, T) -> bool) -> bool {
    &&& forall|a: T, b: T| #[trigger] le(a, b) || le(b, a)
    &&& forall|a: T, b: T, d: T| #![trigger le(a, b), le(b, d)] le(a, b) && le(b, d) ==> le(a, d)
}

/// Every earlier element may stand before every later one.
pub open spec fn sorted_by<T>(s: Seq<T>, le: spec_fn(T, T) -> bool) -> bool {
    forall|i: int, j: int| 0 <= i < j < s.len() ==> #[trigger] le(s[i], s[j])
}

pub proof fn lemma_le_dir_total<T>(c: spec_fn(T, T) -> Ordering, forward: bool)
    requires
        cmp_total(c),
    ensures
        total_preorder(le_dir(c, forward)),
        forall|a: T, b: T| #[trigger] le_dir(c, forward)(a, b) <==> le_dir(c, !forward)(b, a),
{
    assert forall|a: T, b: T, d: T|
        #[trigger] le_dir(c, forward)(a, b) && #[trigger] le_dir(c, forward)(b, d) implies le_dir(c, forward)(a, d) by {
        if !forward {
            assert(c(b, a) != Ordering::Greater);
            assert(c(d, b) != Ordering::Greater);
            assert(c(d, a) != Ordering::Greater);
        }
    }
    assert forall|a: T, b: T| #[trigger] le_dir(c, forward)(a, b) || le_dir(c, forward)(b, a) by {
        assert(c(a, b) == Ordering::Greater <==> c(b, a) == Ordering::Less);
    }
    assert forall|a: T, b: T| #[trigger] le_dir(c, forward)(a, b) <==> le_dir(c, !forward)(b, a) by {
        assert(c(a, b) == Ordering::Greater <==> c(b, a) == Ordering::Less);
        assert(c(b, a) == Ordering::Greater <==> c(a, b) == Ordering::Less);
    }
}

/// The comparison that a comparator closure computes on a pair.
pub open spec fn cmp_of<T, F: Fn(&T, &T) -> Ordering>(f: F) -> spec_fn(T, T) -> Ordering {
    |a: T, b: T| choose|r: Ordering| f.ensures((&a, &b), r)
}

/// The closure accepts every pair, and whatever it returns is what `c` gives.
pub open spec fn computes<T, F: Fn(&T, &T) -> Ordering>(f: F, c: spec_fn(T, T) -> Ordering) -> bool {
    &&& forall|a: &T, b: &T| #[trigger] f.requires((a, b))
    &&& forall|a: &T, b: &T, r: Ordering| #[trigger] f.ensures((a, b), r) ==> r == c(*a, *b)
}

/// The closure accepts every pair and has one outcome for each.
pub open spec fn comparator_fn<T, F: Fn(&T, &T) -> Ordering>(f: F) -> bool {
    computes(f, cmp_of(f))
}

/// The natural order of `T`, reversed for `Descending`.
pub open spec fn natural_cmp<T: Ord>(order: SortOrder) -> spec_fn(T, T) -> Ordering {
    |a: T, b: T|
        match order {
            SortOrder::Ascending => a.cmp_spec(&b),
            SortOrder::Descending => b.cmp_spec(&a),
        }
}

/// `s` is in the natural order of `T`, reversed for `Descending`.
pub open spec fn sorted_in<T: Ord>(s: Seq<T>, order: SortOrder) -> bool {
    sorted_by(s, le_dir(natural_cmp::<T>(order), true))
}

/// Reversing a total preorder gives a total preorder.
pub proof fn lemma_natural_total<T: Ord>(order: SortOrder)
    requires
        cmp_total(natural_cmp::<T>(SortOrder::Ascending)),
    ensures
        cmp_total(natural_cmp::<T>(order)),
{
    let a = natural_cmp::<T>(SortOrder::Ascending);
    let c = natural_cmp::<T>(order);
    assert forall|x: T, y: T| #[trigger] c(x, y) == Ordering::Greater <==> c(y, x) == Ordering::Less by {
        assert(a(x, y) == Ordering::Greater <==> a(y, x) == Ordering::Less);
        assert(a(y, x) == Ordering::Greater <==> a(x, y) == Ordering::Less);
    }
    assert forall|x: T, y: T, z: T|
        #[trigger] c(x, y) != Ordering::Greater && #[trigger] c(y, z) != Ordering::Greater implies c(x, z)
            != Ordering::Greater by {
        if order == SortOrder::Descending {
            assert(a(z, y) != Ordering::Greater && a(y, x) != Ordering::Greater);
        }
    }
}

// ---------------------------------------------------------------------------
// The network
// ---------------------------------------------------------------------------

/// One compare-and-swap pass: with `m` half the length, each pair `(k, k + m)`
/// ends up ordered by `le`; a pair already ordered stays as it is.
pub open spec fn half_clean<T>(s: Seq<T>, le: spec_fn(T, T) -> bool) -> Seq<T> {
    let m = s.len() / 2;
    Seq::new(
        s.len(),
        |k: int|
            if k < m {
                if le(s[k], s[k + m]) {
                    s[k]
                } else {
                    s[k + m]
                }
            } else if k < 2 * m {
                if le(s[k - m], s[k]) {
                    s[k]
                } else {
                    s[k - m]
                }
            } else {
                s[k]
            },
    )
}

/// Bitonic merge: a pass over the whole, then a merge of each half.
pub open spec fn merge_net<T>(s: Seq<T>, le: spec_fn(T, T) -> bool) -> Seq<T>
    decreases s.len(),
{
    if s.len() <= 1 {
        s
    } else {
        let t = half_clean(s, le);
        let m = s.len() / 2;
        merge_net(t.subrange(0, m as int), le) + merge_net(t.subrange(m as int, s.len() as int), le)
    }
}

/// Bitonic sort: the first half forward, the second half backward, then a merge
/// of the whole in the requested direction.
pub open spec fn sort_net<T>(s: Seq<T>, c: spec_fn(T, T) -> Ordering, forward: bool) -> Seq<T>
    decreases s.len(),
{
    if s.len() <= 1 {
        s
    } else {
        let m = s.len() / 2;
        merge_net(
            sort_net(s.subrange(0, m as int), c, true) + sort_net(
                s.subrange(m as int, s.len() as int),
                c,
                false,
            ),
            le_dir(c, forward),
        )
    }
}

/// Exchanging two positions keeps the multiset of elements.
pub proof fn lemma_swap_multiset<T>(s: Seq<T>, i: int, j: int)
    requires
        0 <= i < s.len(),
        0 <= j < s.len(),
    ensures
        s.update(i, s[j]).update(j, s[i]).to_multiset() =~= s.to_multiset(),
{
    broadcast use vstd::seq_lib::to_multiset_update, vstd::seq_lib::to_multiset_contains,
        vstd::multiset::group_multiset_axioms;

    let s1 = s.update(i, s[j]);
    if i == j {
        assert(s1.update(j, s[i]) =~= s);
    } else {
        assert(s1[j] == s[j]);
        assert(s.contains(s[i]));
        assert(s1.contains(s1[j]));
        let m0 = s.to_multiset();
        let m1 = s1.to_multiset();
        assert(m1 =~= m0.insert(s[j]).remove(s[i]));
        assert(s1.update(j, s[i]).to_multiset() =~= m1.insert(s[i]).remove(s[j]));
        assert(m0.count(s[i]) > 0);
        assert(m1.count(s[j]) > 0);
    }
}

/// Two halves together hold what the whole holds.
pub proof fn lemma_split_multiset<T>(a: Seq<T>, b: Seq<T>, a2: Seq<T>, b2: Seq<T>)
    requires
        a.to_multiset() == a2.to_multiset(),
        b.to_multiset() == b2.to_multiset(),
    ensures
        (a + b).to_multiset() == (a2 + b2).to_multiset(),
{
    vstd::seq_lib::lemma_multiset_commutative(a, b);
    vstd::seq_lib::lemma_multiset_commutative(a2, b2);
}

// ---------------------------------------------------------------------------
// Zero-one images
// ---------------------------------------------------------------------------

/// The true entries lie in one block.
pub open spec fn convex(b: Seq<bool>) -> bool {
    forall|i: int, j: int, k: int|
        #![trigger b[i], b[j], b[k]]
        0 <= i < j < k < b.len() && b[i] && b[k] ==> b[j]
}

pub open spec fn negate(b: Seq<bool>) -> Seq<bool> {
    Seq::new(b.len(), |i: int| !b[i])
}

/// The true entries form one block when the sequence is read as a cycle.
pub open spec fn cyclic_block(b: Seq<bool>) -> bool {
    convex(b) || convex(negate(b))
}

pub open spec fn pair_and(b: Seq<bool>, m: int) -> Seq<bool> {
    Seq::new(m as nat, |k: int| b[k] && b[k + m])
}

pub open spec fn pair_or(b: Seq<bool>, m: int) -> Seq<bool> {
    Seq::new(m as nat, |k: int| b[k] || b[k + m])
}

proof fn lemma_clean_convex(b: Seq<bool>, m: int)
    requires
        m >= 1,
        b.len() == 2 * m,
        convex(b),
    ensures
        cyclic_block(pair_and(b, m)),
        cyclic_block(pair_or(b, m)),
        (forall|k: int| 0 <= k < m ==> !#[trigger] pair_and(b, m)[k]) || (forall|k: int|
            0 <= k < m ==> #[trigger] pair_or(b, m)[k]),
{
    let lo = pair_and(b, m);
    let hi = pair_or(b, m);
    if exists|i0: int| 0 <= i0 < m && #[trigger] b[i0] && b[i0 + m] {
        let i0 = choose|i0: int| 0 <= i0 < m && #[trigger] b[i0] && b[i0 + m];
        assert forall|k: int| 0 <= k < m implies #[trigger] hi[k] by {
            if k > i0 {
                assert(b[i0] && b[i0 + m] ==> b[k]);
            } else if k < i0 {
                assert(b[i0] && b[i0 + m] ==> b[k + m]);
            }
        }
        assert forall|i: int, j: int, k: int|
            0 <= i < j < k < lo.len() && lo[i] && lo[k] implies lo[j] by {
            assert(b[i] && b[k + m] ==> b[j]);
            assert(b[i] && b[k + m] ==> b[j + m]);
        }
        assert(convex(lo));
        assert(convex(negate(hi)));
    } else {
        assert forall|k: int| 0 <= k < m implies !#[trigger] lo[k] by {
            assert(!(b[k] && b[k + m]));
        }
        assert(convex(lo));
        if forall|k: int| m <= k < 2 * m ==> !#[trigger] b[k] {
            assert forall|i: int, j: int, k: int|
                0 <= i < j < k < hi.len() && hi[i] && hi[k] implies hi[j] by {
                assert(!b[i + m] && !b[k + m]);
                assert(b[i] && b[k] ==> b[j]);
            }
            assert(convex(hi));
        } else if forall|k: int| 0 <= k < m ==> !#[trigger] b[k] {
            assert forall|i: int, j: int, k: int|
                0 <= i < j < k < hi.len() && hi[i] && hi[k] implies hi[j] by {
                assert(!b[i] && !b[k]);
                assert(b[i + m] && b[k + m] ==> b[j + m]);
            }
            assert(convex(hi));
        } else {
            let q = choose|q: int| m <= q < 2 * m && b[q];
            let p = choose|p: int| 0 <= p < m && b[p];
            assert(b[m - 1]) by {
                if p < m - 1 {
                    assert(b[p] && b[q] ==> b[m - 1]);
                }
            }
            assert(b[m]) by {
                if q > m {
                    assert(b[p] && b[q] ==> b[m]);
                }
            }
            let nh = negate(hi);
            assert forall|i: int, j: int, k: int|
                0 <= i < j < k < nh.len() && nh[i] && nh[k] implies nh[j] by {
                assert(!b[i] && !b[i + m] && !b[k] && !b[k + m]);
                assert(b[j] && b[m - 1] ==> b[k]);
                assert(b[m] && b[j + m] ==> b[i + m]);
            }
            assert(convex(nh));
        }
    }
}

proof fn lemma_clean_cyclic(b: Seq<bool>, m: int)
    requires
        m >= 1,
        b.len() == 2 * m,
        cyclic_block(b),
    ensures
        cyclic_block(pair_and(b, m)),
        cyclic_block(pair_or(b, m)),
        (forall|k: int| 0 <= k < m ==> !#[trigger] pair_and(b, m)[k]) || (forall|k: int|
            0 <= k < m ==> #[trigger] pair_or(b, m)[k]),
{
    if convex(b) {
        lemma_clean_convex(b, m);
    } else {
        let nb = negate(b);
        lemma_clean_convex(nb, m);
        assert(pair_and(nb, m) =~= negate(pair_or(b, m)));
        assert(pair_or(nb, m) =~= negate(pair_and(b, m)));
        assert(negate(negate(pair_or(b, m))) =~= pair_or(b, m));
        assert(negate(negate(pair_and(b, m))) =~= pair_and(b, m));
        if forall|k: int| 0 <= k < m ==> !#[trigger] pair_and(nb, m)[k] {
            assert forall|k: int| 0 <= k < m implies #[trigger] pair_or(b, m)[k] by {
                assert(!pair_and(nb, m)[k]);
            }
        } else {
            assert forall|k: int| 0 <= k < m implies !#[trigger] pair_and(b, m)[k] by {
                assert(pair_or(nb, m)[k]);
            }
        }
    }
}

/// Which elements lie strictly above the threshold `t`.
pub open spec fn image<T>(s: Seq<T>, le: spec_fn(T, T) -> bool, t: T) -> Seq<bool> {
    Seq::new(s.len(), |i: int| !le(s[i], t))
}

/// For every threshold, the elements above it form one block read cyclically:
/// the shape of a rotated rise-then-fall sequence.
pub open spec fn bitonic<T>(s: Seq<T>, le: spec_fn(T, T) -> bool) -> bool {
    forall|t: T| #[trigger] cyclic_block(image(s, le, t))
}

/// Every earlier element may stand after every later one.
pub open spec fn sorted_rev<T>(s: Seq<T>, le: spec_fn(T, T) -> bool) -> bool {
    forall|i: int, j: int| 0 <= i < j < s.len() ==> #[trigger] le(s[j], s[i])
}

proof fn lemma_image_clean<T>(s: Seq<T>, le: spec_fn(T, T) -> bool, t: T, m: int)
    requires
        total_preorder(le),
        m >= 1,
        s.len() == 2 * m,
    ensures
        image(half_clean(s, le).subrange(0, m), le, t) =~= pair_and(image(s, le, t), m),
        image(half_clean(s, le).subrange(m, 2 * m), le, t) =~= pair_or(image(s, le, t), m),
{
    let h = half_clean(s, le);
    let b = image(s, le, t);
    assert forall|k: int| 0 <= k < m implies (!le(#[trigger] h[k], t)) == (b[k] && b[k + m]) && (!le(
        h[k + m],
        t,
    )) == (b[k] || b[k + m]) by {
        assert(le(s[k], s[k + m]) || le(s[k + m], s[k]));
        if le(s[k], s[k + m]) {
            assert(le(s[k + m], t) ==> le(s[k], t));
        } else {
            assert(le(s[k], t) ==> le(s[k + m], t));
        }
    }
}

proof fn lemma_merge_contains<T>(s: Seq<T>, le: spec_fn(T, T) -> bool)
    ensures
        merge_net(s, le).len() == s.len(),
        forall|k: int| 0 <= k < s.len() ==> s.contains(#[trigger] merge_net(s, le)[k]),
    decreases s.len(),
{
    if s.len() > 1 {
        let h = half_clean(s, le);
        let m = s.len() / 2;
        let h1 = h.subrange(0, m as int);
        let h2 = h.subrange(m as int, s.len() as int);
        lemma_merge_contains(h1, le);
        lemma_merge_contains(h2, le);
        let r = merge_net(s, le);
        assert(r == merge_net(h1, le) + merge_net(h2, le));
        assert forall|k: int| 0 <= k < s.len() implies s.contains(#[trigger] merge_net(s, le)[k]) by {
            if k < m {
                assert(r[k] == merge_net(h1, le)[k]);
                assert(h1.contains(merge_net(h1, le)[k]));
                let j = choose|j: int| 0 <= j < h1.len() && h1[j] == merge_net(h1, le)[k];
                assert(h1[j] == h[j]);
                if le(s[j], s[j + m]) {
                    assert(r[k] == s[j]);
                } else {
                    assert(r[k] == s[j + m]);
                }
            } else {
                assert(r[k] == merge_net(h2, le)[k - m]);
                assert(h2.contains(merge_net(h2, le)[k - m]));
                let j = choose|j: int| 0 <= j < h2.len() && h2[j] == merge_net(h2, le)[k - m];
                assert(h2[j] == h[j + m]);
                if j + m < 2 * m {
                    if le(s[j], s[j + m]) {
                        assert(r[k] == s[j + m]);
                    } else {
                        assert(r[k] == s[j]);
                    }
                } else {
                    assert(r[k] == s[j + m]);
                }
            }
        }
        assert(merge_net(s, le).len() == s.len());
    } else {
        assert forall|k: int| 0 <= k < s.len() implies s.contains(#[trigger] merge_net(s, le)[k]) by {
            assert(merge_net(s, le)[k] == s[k]);
        }
    }
}

proof fn lemma_pow2_half(n: nat)
    requires
        is_pow2(n),
        n > 1,
    ensures
        is_pow2(n / 2),
        n == 2 * (n / 2),
{
}

proof fn lemma_merge_sorted<T>(s: Seq<T>, le: spec_fn(T, T) -> bool)
    requires
        total_preorder(le),
        is_pow2(s.len()),
        bitonic(s, le),
    ensures
        sorted_by(merge_net(s, le), le),
    decreases s.len(),
{
    lemma_merge_contains(s, le);
    if s.len() > 1 {
        lemma_pow2_half(s.len());
        let h = half_clean(s, le);
        let m = (s.len() / 2) as int;
        let h1 = h.subrange(0, m);
        let h2 = h.subrange(m, 2 * m);
        assert forall|t: T| #[trigger] cyclic_block(image(h1, le, t)) by {
            lemma_image_clean(s, le, t, m);
            lemma_clean_cyclic(image(s, le, t), m);
        }
        assert forall|t: T| #[trigger] cyclic_block(image(h2, le, t)) by {
            lemma_image_clean(s, le, t, m);
            lemma_clean_cyclic(image(s, le, t), m);
        }
        assert(bitonic(h1, le));
        assert(bitonic(h2, le));
        // every element of the first half may precede every element of the second
        assert forall|i: int, j: int| 0 <= i < m && m <= j < 2 * m implies #[trigger] le(
            h[i],
            h[j],
        ) by {
            if !le(h[i], h[j]) {
                let t = h[j];
                lemma_image_clean(s, le, t, m);
                lemma_clean_cyclic(image(s, le, t), m);
                let b = image(s, le, t);
                assert(image(h1, le, t)[i]);
                assert(pair_and(b, m)[i]);
                assert(le(h[j], h[j]));
                assert(!image(h2, le, t)[j - m]);
                assert(!pair_or(b, m)[j - m]);
            }
        }
        lemma_merge_sorted(h1, le);
        lemma_merge_sorted(h2, le);
        lemma_merge_contains(h1, le);
        lemma_merge_contains(h2, le);
        let r1 = merge_net(h1, le);
        let r2 = merge_net(h2, le);
        let r = merge_net(s, le);
        assert(r == r1 + r2);
        assert forall|i: int, j: int| 0 <= i < j < r.len() implies #[trigger] le(r[i], r[j]) by {
            if j < m {
                assert(r[i] == r1[i] && r[j] == r1[j]);
            } else if i >= m {
                assert(r[i] == r2[i - m] && r[j] == r2[j - m]);
            } else {
                assert(h1.contains(r1[i]));
                assert(h2.contains(r2[j - m]));
                let a = choose|a: int| 0 <= a < h1.len() && h1[a] == r1[i];
                let b = choose|b: int| 0 <= b < h2.len() && h2[b] == r2[j - m];
                assert(le(h[a], h[b + m]));
            }
        }
    }
}

proof fn lemma_concat_bitonic<T>(a: Seq<T>, b: Seq<T>, le: spec_fn(T, T) -> bool)
    requires
        total_preorder(le),
        (sorted_by(a, le) && sorted_rev(b, le)) || (sorted_rev(a, le) && sorted_by(b, le)),
    ensures
        bitonic(a + b, le),
{
    let u = a + b;
    let n = a.len() as int;
    assert forall|t: T| #[trigger] cyclic_block(image(u, le, t)) by {
        let im = image(u, le, t);
        if sorted_by(a, le) && sorted_rev(b, le) {
            assert forall|i: int, j: int, k: int|
                0 <= i < j < k < im.len() && im[i] && im[k] implies im[j] by {
                if j < n {
                    assert(le(a[i], a[j]));
                    assert(le(u[j], t) ==> le(u[i], t));
                } else {
                    assert(le(b[k - n], b[j - n]));
                    assert(le(u[j], t) ==> le(u[k], t));
                }
            }
            assert(convex(im));
        } else {
            let ni = negate(im);
            assert forall|i: int, j: int, k: int|
                0 <= i < j < k < ni.len() && ni[i] && ni[k] implies ni[j] by {
                if j < n {
                    assert(le(a[j], a[i]));
                    assert(le(u[i], t) ==> le(u[j], t));
                } else {
                    assert(le(b[j - n], b[k - n]));
                    assert(le(u[k], t) ==> le(u[j], t));
                }
            }
            assert(convex(ni));
        }
    }
}

/// The network sorts every sequence of power-of-two length, in the direction
/// asked for, and keeps its length.
pub proof fn lemma_sort_net_sorted<T>(s: Seq<T>, c: spec_fn(T, T) -> Ordering, forward: bool)
    requires
        cmp_total(c),
        valid_len(s.len()),
    ensures
        sort_net(s, c, forward).len() == s.len(),
        sorted_by(sort_net(s, c, forward), le_dir(c, forward)),
    decreases s.len(),
{
    if s.len() > 1 {
        lemma_pow2_half(s.len());
        let m = (s.len() / 2) as int;
        let s1 = s.subrange(0, m);
        let s2 = s.subrange(m, s.len() as int);
        lemma_sort_net_sorted(s1, c, true);
        lemma_sort_net_sorted(s2, c, false);
        let a = sort_net(s1, c, true);
        let b = sort_net(s2, c, false);
        let le = le_dir(c, forward);
        lemma_le_dir_total(c, true);
        lemma_le_dir_total(c, false);
        if forward {
            assert(sorted_rev(b, le)) by {
                assert forall|i: int, j: int| 0 <= i < j < b.len() implies #[trigger] le(b[j], b[i]) by {
                    assert(le_dir(c, false)(b[i], b[j]));
                }
            }
        } else {
            assert(sorted_rev(a, le)) by {
                assert forall|i: int, j: int| 0 <= i < j < a.len() implies #[trigger] le(a[j], a[i]) by {
                    assert(le_dir(c, true)(a[i], a[j]));
                }
            }
        }
        lemma_concat_bitonic(a, b, le);
        lemma_merge_sorted(a + b, le);
        lemma_merge_contains(a + b, le);
    }
}

/// Two sequences sorted by the same order and holding the same elements are
/// equal when the order puts no two distinct values level.
pub proof fn lemma_sorted_unique<T>(a: Seq<T>, b: Seq<T>, le: spec_fn(T, T) -> bool)
    requires
        total_preorder(le),
        forall|x: T, y: T| #[trigger] le(x, y) && le(y, x) ==> x == y,
        sorted_by(a, le),
        sorted_by(b, le),
        a.to_multiset() == b.to_multiset(),
    ensures
        a == b,
    decreases a.len(),
{
    broadcast use vstd::seq_lib::to_multiset_contains, vstd::seq_lib::to_multiset_len,
        vstd::seq_lib::to_multiset_remove, vstd::multiset::group_multiset_axioms;

    assert(a.len() == a.to_multiset().len());
    assert(b.len() == b.to_multiset().len());
    if a.len() == 0 {
        assert(a =~= b);
    } else {
        assert(a.contains(a[0]));
        assert(a.to_multiset().count(a[0]) > 0);
        assert(b.to_multiset().count(a[0]) > 0);
        assert(b.contains(a[0]));
        let j = choose|j: int| 0 <= j < b.len() && b[j] == a[0];
        if j > 0 {
            assert(le(b[0], b[j]));
        }
        assert(b.contains(b[0]));
        assert(b.to_multiset().count(b[0]) > 0);
        assert(a.to_multiset().count(b[0]) > 0);
        assert(a.contains(b[0]));
        let i = choose|i: int| 0 <= i < a.len() && a[i] == b[0];
        if i > 0 {
            assert(le(a[0], a[i]));
        }
        assert(le(a[0], b[0]) && le(b[0], a[0]));
        assert(a[0] == b[0]);
        let a1 = a.remove(0);
        let b1 = b.remove(0);
        assert(a1.to_multiset() == a.to_multiset().remove(a[0]));
        assert(b1.to_multiset() == b.to_multiset().remove(b[0]));
        assert forall|p: int, q: int| 0 <= p < q < a1.len() implies #[trigger] le(a1[p], a1[q]) by {
            assert(le(a[p + 1], a[q + 1]));
        }
        assert forall|p: int, q: int| 0 <= p < q < b1.len() implies #[trigger] le(b1[p], b1[q]) by {
            assert(le(b[p + 1], b[q + 1]));
        }
        lemma_sorted_unique(a1, b1, le);
        assert forall|k: int| 0 <= k < a.len() implies a[k] == b[k] by {
            if k > 0 {
                assert(a[k] == a1[k - 1]);
                assert(b[k] == b1[k - 1]);
            }
        }
        assert(a =~= b);
    }
}

/// Sorting a sequence that is already in the requested natural order gives
/// it back unchanged, when that order has no ties between distinct values.
pub proof fn lemma_sorted_input_kept<T: Ord>(before: Seq<T>, after: Seq<T>, order: SortOrder)
    requires
        cmp_total(natural_cmp::<T>(SortOrder::Ascending)),
        forall|a: T, b: T| #[trigger] a.cmp_spec(&b) == Ordering::Equal ==> a == b,
        sorted_in(before, order),
        sorted_in(after, order),
        after.to_multiset() == before.to_multiset(),
    ensures
        after == before,
{
    lemma_natural_total::<T>(order);
    lemma_le_dir_total(natural_cmp::<T>(order), true);
    let le = le_dir(natural_cmp::<T>(order), true);
    assert forall|x: T, y: T| #[trigger] le(x, y) && le(y, x) implies x == y by {
        let c = natural_cmp::<T>(SortOrder::Ascending);
        assert(c(x, y) == Ordering::Greater <==> c(y, x) == Ordering::Less);
        assert(c(y, x) == Ordering::Greater <==> c(x, y) == Ordering::Less);
        assert(x.cmp_spec(&y) == Ordering::Equal);
    }
    lemma_sorted_unique(after, before, le);
}

} // verus!
