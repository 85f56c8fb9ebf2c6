//! The xi coefficient of a sequence of paired samples, held as an exact
//! fraction, in its directional and its symmetric form.

use crate::order::total_order;
use crate::permutation::inverse;
use crate::permutation::invert_permutation;
use crate::permutation::is_permutation;
use crate::permutation::lemma_inverse_undoes;
use crate::sorting::is_sort_permutation;
use crate::sorting::lemma_sort_permutation_is_unique;
use crate::sorting::lemma_sorted_order_sorts;
use crate::sorting::lemma_tie_free_sort_is_unique;
use crate::sorting::sort_permutation;
use crate::sorting::sorted_order;
use crate::sorting::sorts_keys;
use crate::sorting::tie_free;
use crate::windows::consecutive_pairs;
use crate::windows::neighbours;
use vstd::math::abs;
use vstd::prelude::*;

verus! {

/// Why no coefficient is given.
#[derive(Clone, Copy, Debug, PartialEq, Eq, Structural)]
pub enum XiError {
    /// Fewer than two samples: the denominator `len * len - 1` is not
    /// positive.
    DegenerateInput,
}

/// The coefficient `1 - 3 * distance / (len * len - 1)` of `len` samples,
/// held exactly by its two integers. `distance` is the sum, over the
/// samples taken in the order of their first coordinates, of the absolute
/// differences between the ranks of neighbouring second coordinates.
#[derive(Clone, Copy, Debug, PartialEq, Eq, Structural)]
pub struct Xi {
    pub distance: u128,
    pub len: usize,
}

impl Xi {
    /// The denominator `len * len - 1` of the coefficient.
    pub open spec fn denominator(self) -> int {
        self.len * self.len - 1
    }

    /// The numerator of the coefficient over `denominator`:
    /// `len * len - 1 - 3 * distance`.
    pub open spec fn numerator(self) -> int {
        self.len * self.len - 1 - 3 * self.distance
    }

    /// The coefficient is at least as large as `other`, compared as
    /// fractions with positive denominators.
    pub open spec fn at_least(self, other: Xi) -> bool {
        self.numerator() * other.denominator() >= other.numerator() * self.denominator()
    }
}

/// The first coordinates of the samples.
pub open spec fn firsts<T>(data: Seq<(T, T)>) -> Seq<T> {
    Seq::new(data.len(), |i: int| data[i].0)
}

/// The second coordinates of the samples.
pub open spec fn seconds<T>(data: Seq<(T, T)>) -> Seq<T> {
    Seq::new(data.len(), |i: int| data[i].1)
}

/// The samples with the two coordinates of each exchanged.
pub open spec fn swapped<T>(data: Seq<(T, T)>) -> Seq<(T, T)> {
    Seq::new(data.len(), |i: int| (data[i].1, data[i].0))
}

/// The absolute difference between the ranks of the entries of `order` at
/// positions `k` and `k + 1`.
pub open spec fn rank_step(order: Seq<usize>, rank: Seq<usize>, k: int) -> nat {
    abs(rank[order[k + 1] as int] - rank[order[k] as int])
}

/// The sum of the first `steps` rank steps along `order`.
pub open spec fn distance_over(order: Seq<usize>, rank: Seq<usize>, steps: nat) -> nat
    decreases steps,
{
    if steps == 0 {
        0
    } else {
        distance_over(order, rank, (steps - 1) as nat) + rank_step(order, rank, steps - 1)
    }
}

/// The sum of all rank steps along `order`: one for each pair of
/// neighbours.
pub open spec fn rank_distance(order: Seq<usize>, rank: Seq<usize>) -> nat {
    distance_over(order, rank, neighbours(order).len())
}

/// The distance of the directional coefficient: the samples are walked in
/// the sorted order of their first coordinates, and ranked by their second
/// coordinates.
pub open spec fn xi_distance<T: Ord>(data: Seq<(T, T)>) -> nat {
    rank_distance(sorted_order(firsts(data)), inverse(sorted_order(seconds(data))))
}

/// What `xi` returns for the samples `data`.
pub open spec fn xi_result<T: Ord>(data: Seq<(T, T)>) -> Result<Xi, XiError> {
    if data.len() < 2 {
        Err(XiError::DegenerateInput)
    } else {
        Ok(Xi { distance: xi_distance(data) as u128, len: data.len() as usize })
    }
}

/// The larger of two coefficients; the first where they are equal.
pub open spec fn larger(a: Xi, b: Xi) -> Xi {
    if a.at_least(b) {
        a
    } else {
        b
    }
}

/// What `sym_xi` returns for the samples `data`.
pub open spec fn sym_xi_result<T: Ord>(data: Seq<(T, T)>) -> Result<Xi, XiError> {
    match (xi_result(data), xi_result(swapped(data))) {
        (Ok(forward), Ok(backward)) => Ok(larger(forward, backward)),
        _ => Err(XiError::DegenerateInput),
    }
}

/// Copies out the first coordinates.
fn first_coordinates<T: Copy>(data: &[(T, T)]) -> (xs: Vec<T>)
    ensures
        xs@ == firsts(data@),
{
    let mut xs: Vec<T> = Vec::new();
    let mut i: usize = 0;
    while i < data.len()
        invariant
            i <= data@.len(),
            xs@ == firsts(data@).take(i as int),
        decreases data@.len() - i,
    {
        xs.push(data[i].0);
        i = i + 1;
        assert(xs@ =~= firsts(data@).take(i as int));
    }
    assert(xs@ =~= firsts(data@));
    xs
}

/// Copies out the second coordinates.
fn second_coordinates<T: Copy>(data: &[(T, T)]) -> (ys: Vec<T>)
    ensures
        ys@ == seconds(data@),
{
    let mut ys: Vec<T> = Vec::new();
    let mut i: usize = 0;
    while i < data.len()
        invariant
            i <= data@.len(),
            ys@ == seconds(data@).take(i as int),
        decreases data@.len() - i,
    {
        ys.push(data[i].1);
        i = i + 1;
        assert(ys@ =~= seconds(data@).take(i as int));
    }
    assert(ys@ =~= seconds(data@));
    ys
}

/// Sums the rank steps along `order`.
fn sum_rank_steps(order: Vec<usize>, rank: &Vec<usize>) -> (sum: u128)
    requires
        is_permutation(order@),
        rank@.len() == order@.len(),
    ensures
        sum == rank_distance(order@, rank@),
{
    let ghost walked = order@;
    let pairs = consecutive_pairs(order);
    let mut sum: u128 = 0;
    let mut k: usize = 0;
    while k < pairs.len()
        invariant
            k <= pairs@.len(),
            pairs@ == neighbours(walked),
            is_permutation(walked),
            rank@.len() == walked.len(),
            sum == distance_over(walked, rank@, k as nat),
            sum <= k * usize::MAX,
        decreases pairs@.len() - k,
    {
        let pair: (usize, usize) = pairs[k];
        let here: usize = rank[pair.0];
        let there: usize = rank[pair.1];
        let step: usize = if there >= here {
            there - here
        } else {
            here - there
        };
        assert((k + 1) * usize::MAX <= u128::MAX) by (nonlinear_arith)
            requires
                k + 1 <= usize::MAX,
                usize::MAX <= 0xffff_ffff_ffff_ffff,
        ;
        assert(k * usize::MAX + usize::MAX == (k + 1) * usize::MAX) by (nonlinear_arith);
        sum = sum + step as u128;
        k = k + 1;
    }
    sum
}

/// Copies the samples with the two coordinates of each exchanged.
fn swap_coordinates<T: Copy>(data: &[(T, T)]) -> (turned: Vec<(T, T)>)
    ensures
        turned@ == swapped(data@),
{
    let mut turned: Vec<(T, T)> = Vec::new();
    let mut i: usize = 0;
    while i < data.len()
        invariant
            i <= data@.len(),
            turned@ == swapped(data@).take(i as int),
        decreases data@.len() - i,
    {
        turned.push((data[i].1, data[i].0));
        i = i + 1;
        assert(turned@ =~= swapped(data@).take(i as int));
    }
    assert(turned@ =~= swapped(data@));
    turned
}

/// Of two coefficients of equally many samples, at least two, the one with
/// the smaller distance is the larger.
pub proof fn lemma_smaller_distance_is_larger(a: Xi, b: Xi)
    requires
        a.len == b.len,
        a.len >= 2,
    ensures
        a.at_least(b) <==> a.distance <= b.distance,
{
    let d = a.denominator();
    assert(d > 0) by (nonlinear_arith)
        requires
            d == a.len * a.len - 1,
            a.len >= 2,
    ;
    assert(a.numerator() * d >= b.numerator() * d <==> a.numerator() >= b.numerator())
        by (nonlinear_arith)
        requires
            d > 0,
    ;
}

/// Computes the directional coefficient of `data`: how far the second
/// coordinate is a function of the first. Samples with tied coordinates
/// are ordered by their position in `data`. Fewer than two samples are
/// refused as `DegenerateInput`, before anything is computed.
pub fn xi<T: Ord + Copy>(data: &[(T, T)]) -> (r: Result<Xi, XiError>)
    requires
        total_order::<T>(),
    ensures
        r == xi_result(data@),
        r matches Ok(c) ==> c.distance == xi_distance(data@) && c.len == data@.len(),
{
    let length: usize = data.len();
    if length < 2 {
        return Err(XiError::DegenerateInput);
    }
    let xs = first_coordinates(data);
    let ys = second_coordinates(data);
    let x_sort_permutation = sort_permutation(xs.as_slice());
    let y_sort_permutation = sort_permutation(ys.as_slice());
    let y_rank_by_index = invert_permutation(y_sort_permutation.as_slice());
    let sum = sum_rank_steps(x_sort_permutation, &y_rank_by_index);
    Ok(Xi { distance: sum, len: length })
}

/// Computes the symmetric coefficient of `data`: the larger of the
/// directional coefficients taken in the two directions. Fewer than two
/// samples are refused as `DegenerateInput`.
pub fn sym_xi<T: Ord + Copy>(data: &[(T, T)]) -> (r: Result<Xi, XiError>)
    requires
        total_order::<T>(),
    ensures
        r == sym_xi_result(data@),
        r is Err <==> data@.len() < 2,
{
    let turned = swap_coordinates(data);
    match (xi(data), xi(turned.as_slice())) {
        (Ok(forward), Ok(backward)) => {
            proof {
                lemma_smaller_distance_is_larger(forward, backward);
            }
            if forward.distance <= backward.distance {
                Ok(forward)
            } else {
                Ok(backward)
            }
        },
        _ => Err(XiError::DegenerateInput),
    }
}

/// Along a permutation, ranked by a permutation, every rank step is at most
/// `len - 1`.
proof fn lemma_distance_over_bound(order: Seq<usize>, rank: Seq<usize>, steps: nat)
    requires
        is_permutation(order),
        is_permutation(rank),
        rank.len() == order.len(),
        steps <= neighbours(order).len(),
    ensures
        distance_over(order, rank, steps) <= steps * (order.len() - 1),
    decreases steps,
{
    let n = order.len() as int;
    if steps > 0 {
        let before = (steps - 1) as nat;
        let k = before as int;
        lemma_distance_over_bound(order, rank, before);
        assert(rank[order[k] as int] < n && rank[order[k + 1] as int] < n);
        assert(rank_step(order, rank, k) <= n - 1);
        assert(before * (n - 1) + (n - 1) == steps * (n - 1)) by (nonlinear_arith)
            requires
                before + 1 == steps,
        ;
    } else {
        assert(steps * (n - 1) == 0) by (nonlinear_arith)
            requires
                steps == 0,
        ;
    }
}

/// The distance of `len` samples is at most `(len - 1) * (len - 1)`, and so
/// fits the field that holds it.
pub proof fn lemma_distance_bound<T: Ord>(data: Seq<(T, T)>)
    requires
        total_order::<T>(),
        1 <= data.len() <= usize::MAX,
    ensures
        xi_distance(data) <= (data.len() - 1) * (data.len() - 1),
        xi_distance(data) <= u128::MAX,
{
    let order = sorted_order(firsts(data));
    let by_second = sorted_order(seconds(data));
    lemma_sorted_order_sorts(firsts(data));
    lemma_sorted_order_sorts(seconds(data));
    lemma_inverse_undoes(by_second);
    lemma_distance_over_bound(order, inverse(by_second), neighbours(order).len());
    let n = data.len() as int;
    assert((n - 1) * (n - 1) <= u128::MAX) by (nonlinear_arith)
        requires
            1 <= n <= usize::MAX,
            usize::MAX <= 0xffff_ffff_ffff_ffff,
    ;
}

/// The samples alone determine the distance: whichever sort permutations
/// of the two coordinates it is computed from, it is the same.
pub proof fn lemma_distance_is_determined<T: Ord>(
    data: Seq<(T, T)>,
    by_first: Seq<usize>,
    by_second: Seq<usize>,
)
    requires
        total_order::<T>(),
        is_sort_permutation(by_first, firsts(data)),
        is_sort_permutation(by_second, seconds(data)),
    ensures
        rank_distance(by_first, inverse(by_second)) == xi_distance(data),
{
    lemma_sort_permutation_is_unique(by_first, sorted_order(firsts(data)), firsts(data));
    lemma_sort_permutation_is_unique(by_second, sorted_order(seconds(data)), seconds(data));
}

/// For samples without ties in either coordinate the distance does not
/// rest on how ties are broken: any permutations that sort the two
/// coordinates give it.
pub proof fn lemma_tie_free_distance<T: Ord>(
    data: Seq<(T, T)>,
    by_first: Seq<usize>,
    by_second: Seq<usize>,
)
    requires
        total_order::<T>(),
        tie_free(firsts(data)),
        tie_free(seconds(data)),
        sorts_keys(by_first, firsts(data)),
        sorts_keys(by_second, seconds(data)),
    ensures
        rank_distance(by_first, inverse(by_second)) == xi_distance(data),
{
    lemma_tie_free_sort_is_unique(by_first, firsts(data));
    lemma_tie_free_sort_is_unique(by_second, seconds(data));
}

/// Along a permutation ranked by its own inverse every rank step is one.
proof fn lemma_own_rank_steps(order: Seq<usize>, steps: nat)
    requires
        is_permutation(order),
        steps <= neighbours(order).len(),
    ensures
        distance_over(order, inverse(order), steps) == steps,
    decreases steps,
{
    if steps > 0 {
        lemma_own_rank_steps(order, (steps - 1) as nat);
        lemma_inverse_undoes(order);
        let k = steps - 1;
        assert(inverse(order)[order[k] as int] == k);
        assert(inverse(order)[order[k + 1] as int] == k + 1);
    }
}

/// Samples whose second coordinate equals the first have the distance
/// `len - 1`, so that their coefficient is `(len - 2) / (len + 1)`: it
/// falls short of one by `3 / (len + 1)`.
pub proof fn lemma_self_dependence<T: Ord>(data: Seq<(T, T)>)
    requires
        total_order::<T>(),
        2 <= data.len() <= usize::MAX,
        forall|i: int| 0 <= i < data.len() ==> (#[trigger] data[i]).0 == data[i].1,
    ensures
        xi_distance(data) == data.len() - 1,
        xi_result(data) matches Ok(c) && c.numerator() * (data.len() + 1) == (data.len() - 2)
            * c.denominator(),
{
    assert(firsts(data) =~= seconds(data));
    let order = sorted_order(firsts(data));
    lemma_sorted_order_sorts(firsts(data));
    lemma_own_rank_steps(order, neighbours(order).len());
    let n = data.len() as int;
    assert((n * n - 1 - 3 * (n - 1)) * (n + 1) == (n - 2) * (n * n - 1)) by (nonlinear_arith);
}

/// The coefficient of samples whose second coordinate equals the first
/// tends to one as the samples grow in number: it falls short of one by no
/// more than `1 / m` once there are `3 * m - 1` samples.
pub proof fn lemma_self_dependence_tends_to_one<T: Ord>(data: Seq<(T, T)>, m: nat)
    requires
        total_order::<T>(),
        2 <= data.len() <= usize::MAX,
        forall|i: int| 0 <= i < data.len() ==> (#[trigger] data[i]).0 == data[i].1,
        m >= 1,
        data.len() + 1 >= 3 * m,
    ensures
        xi_result(data) matches Ok(c) && c.denominator() > 0 && (c.denominator() - c.numerator())
            * m <= c.denominator(),
{
    lemma_self_dependence(data);
    let n = data.len() as int;
    assert(n * n - 1 > 0 && 3 * (n - 1) * m <= n * n - 1) by (nonlinear_arith)
        requires
            n >= 2,
            m >= 1,
            n + 1 >= 3 * m,
    ;
}

/// The symmetric coefficient does not change when the two coordinates of
/// every sample are exchanged.
pub proof fn lemma_sym_xi_is_symmetric<T: Ord>(data: Seq<(T, T)>)
    requires
        data.len() <= usize::MAX,
    ensures
        sym_xi_result(swapped(data)) == sym_xi_result(data),
{
    assert(swapped(swapped(data)) =~= data);
    if data.len() >= 2 {
        let forward = xi_result(data)->Ok_0;
        let backward = xi_result(swapped(data))->Ok_0;
        let d = forward.denominator();
        assert(d > 0) by (nonlinear_arith)
            requires
                d == forward.len * forward.len - 1,
                forward.len >= 2,
        ;
        assert(forward.numerator() * d == backward.numerator() * d ==> forward.numerator()
            == backward.numerator()) by (nonlinear_arith)
            requires
                d > 0,
        ;
    }
}

} // verus!
