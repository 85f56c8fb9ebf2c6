//! Permutations of `0..n` held as sequences of indices, and their inverses.

use vstd::prelude::*;
use vstd::seq_lib::*;
use vstd::set_lib::*;

verus! {

/// `p` is a bijection on `0..p.len()`: every entry is an index of `p`, and
/// no entry occurs twice.
pub open spec fn is_permutation(p: Seq<usize>) -> bool {
    &&& forall|i: int| 0 <= i < p.len() ==> (#[trigger] p[i]) < p.len()
    &&& forall|i: int, j: int| 0 <= i < j < p.len() ==> p[i] != p[j]
}

/// The inverse of `p`: at each value `v` it holds the position at which `p`
/// holds `v`.
pub open spec fn inverse(p: Seq<usize>) -> Seq<usize> {
    Seq::new(p.len(), |v: int| p.index_of(v as usize) as usize)
}

/// A permutation is no longer than there are values of `usize`.
pub proof fn lemma_permutation_len_bound(p: Seq<usize>)
    requires
        is_permutation(p),
    ensures
        p.len() <= usize::MAX + 1,
{
    let values = Seq::new(p.len(), |i: int| p[i] as int);
    let all = set_int_range(0, usize::MAX + 1);
    assert(values.no_duplicates());
    values.unique_seq_to_set();
    lemma_int_range(0, usize::MAX + 1);
    assert(values.to_set().subset_of(all)) by {
        assert forall|a: int| values.to_set().contains(a) implies all.contains(a) by {
            let i = choose|i: int| 0 <= i < values.len() && values[i] == a;
            assert(values[i] == p[i]);
        }
    }
    lemma_len_subset(values.to_set(), all);
}

/// A permutation takes every value below its length.
pub proof fn lemma_permutation_covers(p: Seq<usize>, v: usize)
    requires
        is_permutation(p),
        v < p.len(),
    ensures
        0 <= p.index_of(v) < p.len(),
        p[p.index_of(v)] == v,
{
    let n = p.len() as int;
    let values = Seq::new(p.len(), |i: int| p[i] as int);
    assert(values.no_duplicates());
    values.unique_seq_to_set();
    seq_to_set_is_finite(values);
    lemma_int_range(0, n);
    assert(values.to_set().subset_of(set_int_range(0, n))) by {
        assert forall|a: int| values.to_set().contains(a) implies set_int_range(0, n).contains(
            a,
        ) by {
            let i = choose|i: int| 0 <= i < values.len() && values[i] == a;
            assert(p[i] < p.len());
        }
    }
    lemma_subset_equality(values.to_set(), set_int_range(0, n));
    assert(set_int_range(0, n).contains(v as int));
    assert(values.contains(v as int));
    let i = choose|i: int| 0 <= i < values.len() && values[i] == v as int;
    assert(0 <= i < p.len() && p[i] == v);
}

/// The inverse of a permutation is a permutation, and each undoes the other.
pub proof fn lemma_inverse_undoes(p: Seq<usize>)
    requires
        is_permutation(p),
    ensures
        inverse(p).len() == p.len(),
        is_permutation(inverse(p)),
        forall|i: int| 0 <= i < p.len() ==> inverse(p)[#[trigger] p[i] as int] == i,
        forall|v: int| 0 <= v < p.len() ==> p[#[trigger] inverse(p)[v] as int] == v,
{
    let q = inverse(p);
    lemma_permutation_len_bound(p);
    assert forall|v: int| 0 <= v < p.len() implies q[v] < p.len() && p[#[trigger] q[v] as int]
        == v by {
        lemma_permutation_covers(p, v as usize);
    }
    assert forall|i: int| 0 <= i < p.len() implies q[#[trigger] p[i] as int] == i by {
        let v = p[i] as int;
        assert(p[q[v] as int] == v);
    }
    assert forall|v: int, w: int| 0 <= v < w < q.len() implies q[v] != q[w] by {
        assert(p[q[v] as int] == v);
        assert(p[q[w] as int] == w);
    }
}

/// Only the inverse sends every `p[i]` back to `i`.
pub proof fn lemma_inverse_is_unique(p: Seq<usize>, q: Seq<usize>)
    requires
        is_permutation(p),
        q.len() == p.len(),
        forall|i: int| 0 <= i < p.len() ==> q[#[trigger] p[i] as int] == i,
    ensures
        q == inverse(p),
{
    lemma_inverse_undoes(p);
    assert forall|v: int| 0 <= v < p.len() implies q[v] == inverse(p)[v] by {
        let i = inverse(p)[v] as int;
        assert(p[i] == v);
    }
    assert(q =~= inverse(p));
}

/// Inverting a permutation twice gives the permutation back.
pub proof fn lemma_inverse_is_involution(p: Seq<usize>)
    requires
        is_permutation(p),
    ensures
        inverse(inverse(p)) == p,
{
    lemma_inverse_undoes(p);
    lemma_inverse_is_unique(inverse(p), p);
}

/// Inverts a permutation: the result holds, at each value, the position at
/// which `permutation` holds that value.
pub fn invert_permutation(permutation: &[usize]) -> (result: Vec<usize>)
    requires
        is_permutation(permutation@),
    ensures
        result@ == inverse(permutation@),
        is_permutation(result@),
        forall|i: int|
            0 <= i < permutation@.len() ==> result@[#[trigger] permutation@[i] as int] == i,
{
    let n: usize = permutation.len();
    let mut result: Vec<usize> = vec![0; n];
    let mut i: usize = 0;
    while i < n
        invariant
            i <= n,
            n == permutation@.len(),
            result@.len() == n,
            is_permutation(permutation@),
            forall|k: int| 0 <= k < i ==> result@[#[trigger] permutation@[k] as int] == k,
        decreases n - i,
    {
        let j: usize = permutation[i];
        result[j] = i;
        i = i + 1;
    }
    proof {
        lemma_inverse_is_unique(permutation@, result@);
        lemma_inverse_undoes(permutation@);
    }
    result
}

} // verus!
