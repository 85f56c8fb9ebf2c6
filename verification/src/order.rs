//! The total order on keys, as the comparison of `Ord` describes it.

use std::cmp::Ordering;
use vstd::prelude::*;
use vstd::std_specs::cmp::OrdSpec;
use vstd::std_specs::cmp::PartialEqSpec;

verus! {

/// The comparison of `T` is a total order, and the executable comparison
/// agrees with its specification.
pub open spec fn total_order<T: Ord>() -> bool {
    vstd::laws_cmp::obeys_cmp::<T>()
}

/// `a` is strictly smaller than `b`.
pub open spec fn less<T: Ord>(a: T, b: T) -> bool {
    a.cmp_spec(&b) == Ordering::Less
}

/// `a` and `b` compare as equal: neither is smaller than the other.
pub open spec fn tied<T: Ord>(a: T, b: T) -> bool {
    a.cmp_spec(&b) == Ordering::Equal
}

/// Of two keys exactly one holds: the first is smaller, they are tied, or
/// the second is smaller.
pub proof fn lemma_trichotomy<T: Ord>(a: T, b: T)
    requires
        total_order::<T>(),
    ensures
        less(a, b) || tied(a, b) || less(b, a),
        !(less(a, b) && tied(a, b)),
        !(less(a, b) && less(b, a)),
        !(tied(a, b) && less(b, a)),
        tied(a, b) == tied(b, a),
{
    reveal(vstd::laws_cmp::obeys_cmp_ord);
    reveal(vstd::laws_cmp::obeys_cmp_partial_ord);
    reveal(vstd::laws_cmp::obeys_partial_cmp_spec_properties);
    reveal(vstd::laws_eq::obeys_eq_spec_properties);
    assert(a.eq_spec(&b) <==> b.eq_spec(&a));
}

/// A key smaller than a second, which is smaller than or tied with a
/// third, is smaller than the third; likewise with the tie in front.
pub proof fn lemma_less_chain<T: Ord>(a: T, b: T, c: T)
    requires
        total_order::<T>(),
        (less(a, b) && (less(b, c) || tied(b, c))) || (tied(a, b) && less(b, c)),
    ensures
        less(a, c),
{
    reveal(vstd::laws_cmp::obeys_cmp_ord);
    reveal(vstd::laws_cmp::obeys_cmp_partial_ord);
    reveal(vstd::laws_cmp::obeys_partial_cmp_spec_properties);
    reveal(vstd::laws_eq::obeys_eq_spec_properties);
    lemma_trichotomy(a, b);
    lemma_trichotomy(b, c);
    lemma_trichotomy(a, c);
    if tied(b, c) && tied(a, c) {
        // the tie between a and c would carry over to a and b
        assert(c.eq_spec(&b));
    } else if tied(a, b) && tied(a, c) {
        // the tie between a and c would carry over to b and c
        assert(b.eq_spec(&a));
    }
}

/// Keys tied with a common key are tied with each other.
pub proof fn lemma_tied_transitive<T: Ord>(a: T, b: T, c: T)
    requires
        total_order::<T>(),
        tied(a, b),
        tied(b, c),
    ensures
        tied(a, c),
{
    reveal(vstd::laws_cmp::obeys_cmp_ord);
    reveal(vstd::laws_cmp::obeys_cmp_partial_ord);
    reveal(vstd::laws_cmp::obeys_partial_cmp_spec_properties);
    reveal(vstd::laws_eq::obeys_eq_spec_properties);
    assert(a.eq_spec(&b) && b.eq_spec(&c));
}

/// Decides whether `a` comes before `b`, with `on_tie` as the answer for
/// tied keys.
pub fn ordered_before<T: Ord>(a: &T, b: &T, on_tie: bool) -> (r: bool)
    requires
        total_order::<T>(),
    ensures
        r == (less(*a, *b) || (tied(*a, *b) && on_tie)),
{
    proof {
        reveal(vstd::laws_cmp::obeys_cmp_ord);
    }
    match a.cmp(b) {
        Ordering::Less => true,
        Ordering::Equal => on_tie,
        Ordering::Greater => false,
    }
}

} // verus!
