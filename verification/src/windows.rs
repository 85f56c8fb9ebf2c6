//! Neighbouring entries of a sequence, taken two at a time.

use itertools::Itertools;
use vstd::prelude::*;

verus! {

/// The pairs of neighbours of `s`, in order: one pair fewer than `s` has
/// entries, and none where `s` has fewer than two.
pub open spec fn neighbours(s: Seq<usize>) -> Seq<(usize, usize)> {
    Seq::new(
        if s.len() == 0 {
            0
        } else {
            (s.len() - 1) as nat
        },
        |k: int| (s[k], s[k + 1]),
    )
}

/// Collects what `Itertools::tuple_windows` yields for pairs over the
/// entries of `order`. Taken on trust: the windows are the pairs of
/// neighbouring entries, each entry first with its successor, in the order
/// of `order`.
#[verifier::external_body]
pub(crate) fn consecutive_pairs(order: Vec<usize>) -> (pairs: Vec<(usize, usize)>)
    ensures
        pairs@ == neighbours(order@),
{
    order.into_iter().tuple_windows::<(usize, usize)>().collect()
}

} // verus!
