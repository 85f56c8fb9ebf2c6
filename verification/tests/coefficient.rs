use ordered_float::NotNan;
use xi_correlation::sym_xi;
use xi_correlation::xi;
use xi_correlation::Xi;
use xi_correlation::XiError;

/// The coefficient as a floating-point number.
fn value(c: Xi) -> f64 {
    1.0 - (c.distance as f64 * 3.0) / ((c.len * c.len) as f64 - 1.0)
}

/// The positions `0..n` shuffled by a fixed linear congruential generator.
fn shuffled(n: usize, seed: u64) -> Vec<usize> {
    let mut state = seed;
    let mut v: Vec<usize> = (0..n).collect();
    for i in (1..n).rev() {
        state = state.wrapping_mul(6364136223846793005).wrapping_add(1442695040888963407);
        let j = ((state >> 33) as usize) % (i + 1);
        v.swap(i, j);
    }
    v
}

#[test]
fn increasing_samples_of_length_four() {
    let data = [(1, 1), (2, 2), (3, 3), (4, 4)];
    let c = xi(&data).unwrap();
    assert_eq!(c, Xi { distance: 3, len: 4 });
    assert_eq!(value(c), 0.4);
}

#[test]
fn decreasing_samples_of_length_four() {
    let data = [(1, 4), (2, 3), (3, 2), (4, 1)];
    let c = xi(&data).unwrap();
    assert_eq!(c, Xi { distance: 3, len: 4 });
    assert_eq!(value(c), 0.4);
}

#[test]
fn distance_sums_the_rank_differences_of_neighbours() {
    // Ranks of the second coordinate, in the order of the first: 2 0 3 4 1.
    let data = [(1, 3), (2, 1), (3, 4), (4, 5), (5, 2)];
    let c = xi(&data).unwrap();
    assert_eq!(c, Xi { distance: 9, len: 5 });
    assert_eq!(value(c), -0.125);
}

#[test]
fn samples_are_walked_in_the_order_of_the_first_coordinate() {
    // The same samples as above, given in another order.
    let data = [(4, 5), (2, 1), (5, 2), (1, 3), (3, 4)];
    assert_eq!(xi(&data), Ok(Xi { distance: 9, len: 5 }));
}

#[test]
fn symmetric_coefficient_is_the_larger_direction() {
    let data = [(1, 3), (2, 1), (3, 4), (4, 5), (5, 2)];
    let turned = [(3, 1), (1, 2), (4, 3), (5, 4), (2, 5)];
    assert_eq!(xi(&data), Ok(Xi { distance: 9, len: 5 }));
    assert_eq!(xi(&turned), Ok(Xi { distance: 10, len: 5 }));
    assert_eq!(sym_xi(&data), Ok(Xi { distance: 9, len: 5 }));
    assert_eq!(sym_xi(&turned), Ok(Xi { distance: 9, len: 5 }));
}

#[test]
fn symmetric_coefficient_ignores_which_coordinate_is_first() {
    let y = shuffled(300, 99);
    let data: Vec<(usize, usize)> = (0..300).map(|i| ((i * i) % 17, y[i])).collect();
    let turned: Vec<(usize, usize)> = data.iter().map(|(a, b)| (*b, *a)).collect();
    let forward = xi(&data).unwrap();
    let backward = xi(&turned).unwrap();
    assert_ne!(forward, backward);
    let s = sym_xi(&data).unwrap();
    assert_eq!(sym_xi(&turned), Ok(s));
    assert_eq!(value(s), value(forward).max(value(backward)));
}

#[test]
fn no_samples_are_degenerate() {
    let data: [(i32, i32); 0] = [];
    assert_eq!(xi(&data), Err(XiError::DegenerateInput));
    assert_eq!(sym_xi(&data), Err(XiError::DegenerateInput));
}

#[test]
fn one_sample_is_degenerate() {
    assert_eq!(xi(&[(5, 7)]), Err(XiError::DegenerateInput));
    assert_eq!(sym_xi(&[(5, 7)]), Err(XiError::DegenerateInput));
}

#[test]
fn two_samples() {
    assert_eq!(xi(&[(1, 2), (2, 1)]), Ok(Xi { distance: 1, len: 2 }));
    assert_eq!(value(Xi { distance: 1, len: 2 }), 0.0);
}

#[test]
fn tied_samples_are_ordered_by_position() {
    // First coordinates 1 1 0: order 2 0 1. Ranks of the second: 1 0 2.
    let data = [(1, 2), (1, 1), (0, 3)];
    assert_eq!(xi(&data), Ok(Xi { distance: 2, len: 3 }));
    // With the tied samples exchanged the walk is 2 0 1 over ranks 0 1 2.
    let exchanged = [(1, 1), (1, 2), (0, 3)];
    assert_eq!(xi(&exchanged), Ok(Xi { distance: 3, len: 3 }));
}

#[test]
fn constant_second_coordinate_is_ranked_by_position() {
    let data = [(3, 0), (1, 0), (2, 0)];
    // Order by first: 1 2 0; ranks by position: 0 1 2.
    assert_eq!(xi(&data), Ok(Xi { distance: 3, len: 3 }));
}

#[test]
fn second_coordinate_equal_to_the_first() {
    for n in [2usize, 3, 10, 1000] {
        let order = shuffled(n, 7);
        let data: Vec<(usize, usize)> = order.iter().map(|v| (*v, *v)).collect();
        let c = xi(&data).unwrap();
        assert_eq!(c, Xi { distance: (n - 1) as u128, len: n });
        let expected = 1.0 - 3.0 / (n as f64 + 1.0);
        assert!((value(c) - expected).abs() < 1e-12);
    }
    let c = xi(&(0..1000).map(|i| (i, i)).collect::<Vec<(i32, i32)>>()).unwrap();
    assert!(value(c) > 0.99);
}

#[test]
fn shuffled_second_coordinate_is_near_zero() {
    for seed in [1u64, 2, 3, 4, 5] {
        let y = shuffled(1000, seed);
        let data: Vec<(usize, usize)> = (0..1000).map(|i| (i, y[i])).collect();
        let c = xi(&data).unwrap();
        assert!(value(c).abs() < 0.1, "coefficient {} for seed {}", value(c), seed);
    }
}

#[test]
fn function_of_the_first_coordinate_scores_high_one_way_only() {
    // y = x * x on a symmetric range: y is a function of x, x is not one of y.
    let data: Vec<(i64, i64)> = (-500..500).map(|x| (x, x * x + x)).collect();
    let forward = value(xi(&data).unwrap());
    let turned: Vec<(i64, i64)> = data.iter().map(|(x, y)| (*y, *x)).collect();
    let backward = value(xi(&turned).unwrap());
    assert!(forward > 0.99);
    assert!(backward < forward);
    assert_eq!(value(sym_xi(&data).unwrap()), forward);
}

#[test]
fn same_samples_give_the_same_coefficient() {
    let y = shuffled(200, 11);
    let data: Vec<(usize, usize)> = (0..200).map(|i| ((i * 7919) % 200, y[i])).collect();
    let first = xi(&data).unwrap();
    let second = xi(&data).unwrap();
    assert_eq!(first, second);
    assert_eq!(value(first).to_bits(), value(second).to_bits());
}

#[test]
fn floating_point_samples_without_nan() {
    let raw = [(0.5, 2.25), (-1.5, 0.0), (3.0, -4.0), (2.0, 9.5)];
    let data: Vec<(NotNan<f64>, NotNan<f64>)> = raw
        .iter()
        .map(|(x, y)| (NotNan::new(*x).unwrap(), NotNan::new(*y).unwrap()))
        .collect();
    // Order by first: 1 0 3 2; ranks of the second: 2 1 0 3.
    assert_eq!(xi(&data), Ok(Xi { distance: 5, len: 4 }));
    assert_eq!(sym_xi(&data), Ok(Xi { distance: 5, len: 4 }));
}

#[test]
fn largest_distance_of_four_samples() {
    // Ranks 1 3 0 2 along the walk: steps 2 3 2.
    let data = [(1, 20), (2, 40), (3, 10), (4, 30)];
    let c = xi(&data).unwrap();
    assert_eq!(c, Xi { distance: 7, len: 4 });
    assert!((value(c) - (-0.4)).abs() < 1e-12);
}

/// The distance computed with the sorts of the standard library, which
/// leave the order of tied keys open.
fn distance_by_unstable_sort(data: &[(u64, u64)]) -> u128 {
    let mut by_first: Vec<usize> = (0..data.len()).collect();
    by_first.sort_unstable_by_key(|i| data[*i].0);
    let mut by_second: Vec<usize> = (0..data.len()).collect();
    by_second.sort_unstable_by_key(|i| data[*i].1);
    let mut rank = vec![0usize; data.len()];
    for (r, i) in by_second.iter().enumerate() {
        rank[*i] = r;
    }
    let mut sum: u128 = 0;
    for w in by_first.windows(2) {
        sum += rank[w[1]].abs_diff(rank[w[0]]) as u128;
    }
    sum
}

#[test]
fn without_ties_the_way_of_sorting_plays_no_part() {
    for seed in [21u64, 22, 23] {
        let x = shuffled(2000, seed);
        let y = shuffled(2000, seed + 100);
        let data: Vec<(u64, u64)> = (0..2000).map(|i| (x[i] as u64, y[i] as u64)).collect();
        let c = xi(&data).unwrap();
        assert_eq!(c.len, 2000);
        assert_eq!(c.distance, distance_by_unstable_sort(&data));
    }
}

#[test]
fn distance_stays_below_the_square_of_the_length() {
    for n in [2usize, 3, 5, 50] {
        // Ranks that jump between the two ends: 0, n-1, 1, n-2, ...
        let data: Vec<(usize, usize)> = (0..n)
            .map(|i| (i, if i % 2 == 0 { i / 2 } else { n - 1 - i / 2 }))
            .collect();
        let c = xi(&data).unwrap();
        assert!(c.distance <= ((n - 1) * (n - 1)) as u128);
        assert_eq!(c.distance, (n * (n - 1) / 2) as u128);
    }
}
