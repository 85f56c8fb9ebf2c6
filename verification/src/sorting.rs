//! The permutation that sorts a sequence of keys, with ties broken by
//! position, computed by a merge sort on indices.

use crate::order::lemma_less_chain;
use crate::order::lemma_tied_transitive;
use crate::order::lemma_trichotomy;
use crate::order::less;
use crate::order::ordered_before;
use crate::order::tied;
use crate::order::total_order;
use crate::permutation::is_permutation;
use vstd::prelude::*;
use vstd::seq_lib::*;

verus! {

/// Position `i` comes before position `j` in sorted order: its key is
/// smaller, or the keys are tied and `i` is the earlier position.
pub open spec fn precedes<T: Ord>(keys: Seq<T>, i: usize, j: usize) -> bool {
    less(keys[i as int], keys[j as int]) || (tied(keys[i as int], keys[j as int]) && i < j)
}

/// `perm` lists the positions of `keys` in sorted order: it is a permutation
/// of the positions, and each entry comes before all later ones.
pub open spec fn is_sort_permutation<T: Ord>(perm: Seq<usize>, keys: Seq<T>) -> bool {
    &&& perm.len() == keys.len()
    &&& is_permutation(perm)
    &&& forall|a: int, b: int|
        0 <= a < b < perm.len() ==> precedes(keys, #[trigger] perm[a], #[trigger] perm[b])
}

/// The sort permutation of `keys`.
pub open spec fn sorted_order<T: Ord>(keys: Seq<T>) -> Seq<usize> {
    choose|perm: Seq<usize>| is_sort_permutation(perm, keys)
}

/// Of two distinct positions exactly one comes before the other, and no
/// position comes before itself.
pub proof fn lemma_precedes_is_strict_total<T: Ord>(keys: Seq<T>, i: usize, j: usize)
    requires
        total_order::<T>(),
    ensures
        i == j ==> !precedes(keys, i, j),
        i != j ==> (precedes(keys, i, j) <==> !precedes(keys, j, i)),
{
    lemma_trichotomy(keys[i as int], keys[j as int]);
}

/// Coming before is transitive.
pub proof fn lemma_precedes_is_transitive<T: Ord>(keys: Seq<T>, i: usize, j: usize, k: usize)
    requires
        total_order::<T>(),
        precedes(keys, i, j),
        precedes(keys, j, k),
    ensures
        precedes(keys, i, k),
{
    let a = keys[i as int];
    let b = keys[j as int];
    let c = keys[k as int];
    if tied(a, b) && tied(b, c) {
        lemma_tied_transitive(a, b, c);
    } else {
        lemma_less_chain(a, b, c);
    }
}

/// No entry of `s` comes before an earlier entry.
spec fn weakly_ordered<T: Ord>(s: Seq<usize>, keys: Seq<T>) -> bool {
    forall|a: int, b: int|
        0 <= a < b < s.len() ==> !precedes(keys, #[trigger] s[b], #[trigger] s[a])
}

/// Every entry of `s` is below `bound`.
spec fn all_below(s: Seq<usize>, bound: nat) -> bool {
    forall|a: int| 0 <= a < s.len() ==> (#[trigger] s[a]) < bound
}

/// If `j` does not come before `i`, and `k` does not come before `j`, then
/// `k` does not come before `i`.
proof fn lemma_not_before_chain<T: Ord>(keys: Seq<T>, i: usize, j: usize, k: usize)
    requires
        total_order::<T>(),
        !precedes(keys, j, i),
        !precedes(keys, k, j),
    ensures
        !precedes(keys, k, i),
{
    lemma_precedes_is_strict_total(keys, i, j);
    lemma_precedes_is_strict_total(keys, j, k);
    lemma_precedes_is_strict_total(keys, i, k);
    if i != j && j != k && i != k {
        lemma_precedes_is_transitive(keys, i, j, k);
    }
}

/// Decides whether position `i` comes before position `j`.
fn comes_before<T: Ord>(keys: &[T], i: usize, j: usize) -> (r: bool)
    requires
        total_order::<T>(),
        i < keys@.len(),
        j < keys@.len(),
    ensures
        r == precedes(keys@, i, j),
{
    ordered_before(&keys[i], &keys[j], i < j)
}

/// Merges two ordered runs of positions into one.
fn merge<T: Ord>(keys: &[T], left: &Vec<usize>, right: &Vec<usize>) -> (out: Vec<usize>)
    requires
        total_order::<T>(),
        all_below(left@, keys@.len()),
        all_below(right@, keys@.len()),
        weakly_ordered(left@, keys@),
        weakly_ordered(right@, keys@),
    ensures
        out@.to_multiset() == left@.to_multiset().add(right@.to_multiset()),
        all_below(out@, keys@.len()),
        weakly_ordered(out@, keys@),
{
    let mut out: Vec<usize> = Vec::new();
    let mut i: usize = 0;
    let mut j: usize = 0;
    proof {
        let none = Seq::<usize>::empty();
        assert(left@.take(0) =~= none);
        assert(right@.take(0) =~= none);
        assert(out@ =~= none + none);
        lemma_multiset_commutative(none, none);
    }
    while i < left.len() || j < right.len()
        invariant
            total_order::<T>(),
            i <= left@.len(),
            j <= right@.len(),
            all_below(left@, keys@.len()),
            all_below(right@, keys@.len()),
            weakly_ordered(left@, keys@),
            weakly_ordered(right@, keys@),
            out@.to_multiset() == left@.take(i as int).to_multiset().add(
                right@.take(j as int).to_multiset(),
            ),
            all_below(out@, keys@.len()),
            weakly_ordered(out@, keys@),
            forall|a: int, b: int|
                0 <= a < out@.len() && i <= b < left@.len() ==> !precedes(
                    keys@,
                    #[trigger] left@[b],
                    #[trigger] out@[a],
                ),
            forall|a: int, b: int|
                0 <= a < out@.len() && j <= b < right@.len() ==> !precedes(
                    keys@,
                    #[trigger] right@[b],
                    #[trigger] out@[a],
                ),
        decreases (left@.len() - i) + (right@.len() - j),
    {
        let from_left: bool = if i == left.len() {
            false
        } else if j == right.len() {
            true
        } else {
            !comes_before(keys, right[j], left[i])
        };
        let ghost before = out@;
        if from_left {
            let x: usize = left[i];
            out.push(x);
            proof {
                assert(left@.take(i + 1) =~= left@.take(i as int).push(x));
                to_multiset_build(left@.take(i as int), x);
                to_multiset_build(before, x);
                assert(out@.to_multiset() =~= left@.take(i + 1).to_multiset().add(
                    right@.take(j as int).to_multiset(),
                ));
                assert forall|a: int, b: int|
                    0 <= a < out@.len() && j <= b < right@.len() implies !precedes(
                    keys@,
                    #[trigger] right@[b],
                    #[trigger] out@[a],
                ) by {
                    if a == before.len() && b > j {
                        assert(!precedes(keys@, right@[b], right@[j as int]));
                        lemma_not_before_chain(keys@, x, right@[j as int], right@[b]);
                    }
                }
            }
            i = i + 1;
        } else {
            let y: usize = right[j];
            out.push(y);
            proof {
                assert(right@.take(j + 1) =~= right@.take(j as int).push(y));
                to_multiset_build(right@.take(j as int), y);
                to_multiset_build(before, y);
                assert(out@.to_multiset() =~= left@.take(i as int).to_multiset().add(
                    right@.take(j + 1).to_multiset(),
                ));
                assert forall|a: int, b: int|
                    0 <= a < out@.len() && i <= b < left@.len() implies !precedes(
                    keys@,
                    #[trigger] left@[b],
                    #[trigger] out@[a],
                ) by {
                    if a == before.len() {
                        lemma_precedes_is_strict_total(keys@, y, left@[i as int]);
                        if b > i {
                            assert(!precedes(keys@, left@[b], left@[i as int]));
                            lemma_not_before_chain(keys@, y, left@[i as int], left@[b]);
                        }
                    }
                }
            }
            j = j + 1;
        }
    }
    proof {
        assert(left@.take(i as int) =~= left@);
        assert(right@.take(j as int) =~= right@);
    }
    out
}

/// Sorts a run of positions by merge sort.
fn merge_sort<T: Ord>(keys: &[T], items: Vec<usize>) -> (sorted: Vec<usize>)
    requires
        total_order::<T>(),
        all_below(items@, keys@.len()),
    ensures
        sorted@.to_multiset() == items@.to_multiset(),
        all_below(sorted@, keys@.len()),
        weakly_ordered(sorted@, keys@),
    decreases items@.len(),
{
    let n: usize = items.len();
    if n < 2 {
        return items;
    }
    let mut left = items;
    let right = left.split_off(n / 2);
    proof {
        assert(items@ =~= left@ + right@);
        lemma_multiset_commutative(left@, right@);
    }
    let left_sorted = merge_sort(keys, left);
    let right_sorted = merge_sort(keys, right);
    merge(keys, &left_sorted, &right_sorted)
}

/// The positions `0..n` in their own order.
spec fn identity(n: nat) -> Seq<usize> {
    Seq::new(n, |i: int| i as usize)
}

/// A sequence with the entries of `identity(n)`, in an order in which no
/// entry comes before an earlier one, is the sort permutation.
proof fn lemma_rearranged_identity_sorts<T: Ord>(s: Seq<usize>, keys: Seq<T>)
    requires
        total_order::<T>(),
        keys.len() <= usize::MAX,
        s.to_multiset() == identity(keys.len()).to_multiset(),
        weakly_ordered(s, keys),
    ensures
        is_sort_permutation(s, keys),
{
    let id = identity(keys.len());
    to_multiset_len(s);
    to_multiset_len(id);
    assert forall|a: int| 0 <= a < s.len() implies (#[trigger] s[a]) < s.len() by {
        assert(s.contains(s[a]));
        to_multiset_contains(s, s[a]);
        to_multiset_contains(id, s[a]);
        let i = choose|i: int| 0 <= i < id.len() && id[i] == s[a];
        assert(id[i] == i);
    }
    assert(id.no_duplicates());
    id.lemma_multiset_has_no_duplicates();
    s.lemma_multiset_has_no_duplicates_conv();
    assert forall|a: int, b: int| 0 <= a < b < s.len() implies precedes(
        keys,
        #[trigger] s[a],
        #[trigger] s[b],
    ) by {
        lemma_precedes_is_strict_total(keys, s[a], s[b]);
    }
}

/// Two sort permutations of the same keys are the same.
pub proof fn lemma_sort_permutation_is_unique<T: Ord>(p: Seq<usize>, q: Seq<usize>, keys: Seq<T>)
    requires
        total_order::<T>(),
        is_sort_permutation(p, keys),
        is_sort_permutation(q, keys),
    ensures
        p == q,
{
    lemma_agree_up_to(p, q, keys, p.len());
    assert(p =~= q);
}

/// Two sort permutations of the same keys agree on their first `k` entries.
proof fn lemma_agree_up_to<T: Ord>(p: Seq<usize>, q: Seq<usize>, keys: Seq<T>, k: nat)
    requires
        total_order::<T>(),
        is_sort_permutation(p, keys),
        is_sort_permutation(q, keys),
        k <= p.len(),
    ensures
        forall|i: int| 0 <= i < k ==> p[i] == q[i],
    decreases k,
{
    if k > 0 {
        let m = (k - 1) as int;
        lemma_agree_up_to(p, q, keys, m as nat);
        let v = p[m];
        let w = q[m];
        if v != w {
            crate::permutation::lemma_permutation_covers(q, v);
            crate::permutation::lemma_permutation_covers(p, w);
            let at_q = q.index_of(v);
            let at_p = p.index_of(w);
            // Both lie behind position m, so each of v and w comes before
            // the other.
            assert(at_q > m) by {
                if at_q < m {
                    assert(p[at_q] == q[at_q]);
                }
            }
            assert(at_p > m) by {
                if at_p < m {
                    assert(q[at_p] == p[at_p]);
                }
            }
            assert(precedes(keys, q[m], q[at_q]));
            assert(precedes(keys, p[m], p[at_p]));
            lemma_precedes_is_strict_total(keys, v, w);
        }
    }
}

/// Every sequence of keys has a sort permutation, and `sorted_order` is it.
pub proof fn lemma_sorted_order_sorts<T: Ord>(keys: Seq<T>)
    requires
        total_order::<T>(),
        keys.len() <= usize::MAX,
    ensures
        is_sort_permutation(sorted_order(keys), keys),
{
    let not_after = |i: usize, j: usize| !precedes(keys, j, i);
    assert(vstd::relations::total_ordering(not_after)) by {
        assert forall|x: usize| #[trigger] not_after(x, x) by {
            lemma_precedes_is_strict_total(keys, x, x);
        }
        assert forall|x: usize, y: usize| #[trigger]
            not_after(x, y) && #[trigger] not_after(y, x) implies x == y by {
            lemma_precedes_is_strict_total(keys, x, y);
        }
        assert forall|x: usize, y: usize, z: usize| #[trigger]
            not_after(x, y) && #[trigger] not_after(y, z) implies not_after(x, z) by {
            lemma_not_before_chain(keys, x, y, z);
        }
        assert forall|x: usize, y: usize| #[trigger]
            not_after(x, y) || #[trigger] not_after(y, x) by {
            lemma_precedes_is_strict_total(keys, x, y);
        }
    }
    let sorted = identity(keys.len()).sort_by(not_after);
    identity(keys.len()).lemma_sort_by_ensures(not_after);
    assert(weakly_ordered(sorted, keys)) by {
        assert forall|a: int, b: int| 0 <= a < b < sorted.len() implies !precedes(
            keys,
            #[trigger] sorted[b],
            #[trigger] sorted[a],
        ) by {
            assert(not_after(sorted[a], sorted[b]));
        }
    }
    lemma_rearranged_identity_sorts(sorted, keys);
}

/// No two keys are tied.
pub open spec fn tie_free<T: Ord>(keys: Seq<T>) -> bool {
    forall|i: int, j: int| 0 <= i < j < keys.len() ==> !tied(#[trigger] keys[i], #[trigger] keys[j])
}

/// `perm` is a permutation of the positions of `keys` along which no key is
/// smaller than an earlier one; nothing is asked of the order of tied keys.
pub open spec fn sorts_keys<T: Ord>(perm: Seq<usize>, keys: Seq<T>) -> bool {
    &&& perm.len() == keys.len()
    &&& is_permutation(perm)
    &&& forall|a: int, b: int|
        0 <= a < b < perm.len() ==> !less(
            keys[(#[trigger] perm[b]) as int],
            keys[(#[trigger] perm[a]) as int],
        )
}

/// Where no two keys are tied, every permutation that sorts the keys is the
/// sort permutation: how ties would be broken plays no part.
pub proof fn lemma_tie_free_sort_is_unique<T: Ord>(perm: Seq<usize>, keys: Seq<T>)
    requires
        total_order::<T>(),
        tie_free(keys),
        sorts_keys(perm, keys),
    ensures
        perm == sorted_order(keys),
{
    assert forall|a: int, b: int| 0 <= a < b < perm.len() implies precedes(
        keys,
        #[trigger] perm[a],
        #[trigger] perm[b],
    ) by {
        let i = perm[a] as int;
        let j = perm[b] as int;
        lemma_trichotomy(keys[i], keys[j]);
        if i < j {
            assert(!tied(keys[i], keys[j]));
        } else {
            assert(!tied(keys[j], keys[i]));
        }
    }
    assert(is_sort_permutation(perm, keys));
    lemma_sort_permutation_is_unique(perm, sorted_order(keys), keys);
}

/// Computes the sort permutation of `keys`: the positions `0..keys.len()`
/// ordered by key, positions with tied keys in increasing order.
pub fn sort_permutation<T: Ord>(keys: &[T]) -> (perm: Vec<usize>)
    requires
        total_order::<T>(),
    ensures
        is_sort_permutation(perm@, keys@),
        perm@ == sorted_order(keys@),
{
    let n: usize = keys.len();
    let mut items: Vec<usize> = Vec::new();
    let mut k: usize = 0;
    while k < n
        invariant
            k <= n,
            n == keys@.len(),
            items@ == identity(k as nat),
        decreases n - k,
    {
        items.push(k);
        k = k + 1;
        assert(items@ =~= identity(k as nat));
    }
    let perm = merge_sort(keys, items);
    proof {
        lemma_rearranged_identity_sorts(perm@, keys@);
        lemma_sort_permutation_is_unique(perm@, sorted_order(keys@), keys@);
    }
    perm
}

} // verus!
