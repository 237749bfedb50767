use quack::accumulator::{calculate_difference, calculate_power_sums, compute_polynomial_coefficients};
use quack::field::{add_and_mod, div_and_mod, inverse, mul_and_mod, sub_and_mod, LARGE_PRIME_U32};
use quack::ModularInteger;

#[test]
fn test_mul_and_mod() {
    assert_eq!(mul_and_mod(429496702, 4), 1717986808, "no overflow");
    assert_eq!(mul_and_mod(429496702, 12), 858993395, "overflow");
}

#[test]
fn test_div_and_mod() {
    assert_eq!(div_and_mod(1717986808, 429496702), 4);
    assert_eq!(div_and_mod(858993395, 429496702), 12);
}

#[test]
fn test_calculate_power_sums() {
    assert_eq!(calculate_power_sums(&vec![2, 3, 5], 2), vec![10, 38]);
    assert_eq!(calculate_power_sums(&vec![2, 3, 5], 3), vec![10, 38, 160]);
    let one_large_num = calculate_power_sums(&vec![294967295], 3);
    assert_eq!(one_large_num, vec![294967295, 2507781770, 2201765005]);
    let two_large_nums = calculate_power_sums(&vec![294967295, 2294967295], 3);
    assert_eq!(two_large_nums, vec![2589934590, 1563208361, 4070406309]);
}

#[test]
fn test_calculate_difference() {
    let diff = calculate_difference(vec![2, 3, 4], &vec![1, 2, 3]);
    assert_eq!(diff, vec![1, 1, 1]);
    let diff = calculate_difference(vec![2, 3, 4], &vec![1, 2, 3, 4]);
    assert_eq!(diff, vec![1, 1, 1]);
    let overflow_diff = calculate_difference(vec![1], &vec![2]);
    assert_eq!(overflow_diff, vec![4294967028]);
}

#[test]
fn test_compute_polynomial_coefficients_small_numbers() {
    let x = vec![2, 3, 5];
    let power_sums_diff = calculate_power_sums(&x, 3);
    assert_eq!(power_sums_diff, vec![10, 38, 160]);
    let coeffs = compute_polynomial_coefficients(power_sums_diff);
    assert_eq!(coeffs, vec![1, LARGE_PRIME_U32 - 10, 31, LARGE_PRIME_U32 - 30]);
}

#[test]
fn test_compute_polynomial_coefficients_large_numbers() {
    let x = vec![4294966796, 3987231002];
    let power_sums_diff = calculate_power_sums(&x, 2);
    assert_eq!(power_sums_diff, vec![3987230769, 3419665331]);
    let coeffs = compute_polynomial_coefficients(power_sums_diff);
    let e1 = add_and_mod(x[0], x[1]);
    let e2 = mul_and_mod(x[0], x[1]);
    assert_eq!(coeffs, vec![1, LARGE_PRIME_U32 - e1, e2]);
}

#[test]
fn inverses() {
    assert_eq!(inverse(1), Some(1));
    assert_eq!(inverse(0), None);
    assert_eq!(inverse(LARGE_PRIME_U32), None);
    let u = inverse(2).unwrap();
    assert_eq!(mul_and_mod(u, 2), 1);
    assert_eq!(u, (LARGE_PRIME_U32 + 1) / 2);
    for b in [3u32, 7, 65536, 4294967028, 4294967295] {
        let u = inverse(b).unwrap();
        assert_eq!(mul_and_mod(u, b), 1);
    }
    assert_eq!(div_and_mod(5, 0), 0);
}

#[test]
fn field_edges() {
    assert_eq!(add_and_mod(u32::MAX, u32::MAX), ((2 * (u32::MAX as u64)) % 4294967029) as u32);
    assert_eq!(sub_and_mod(0, 1), 4294967028);
    assert_eq!(sub_and_mod(5, u32::MAX), 5 + 4294967029 - 266);
    assert_eq!(ModularInteger::new(4294967030).value(), 1);
    assert_eq!(ModularInteger::new(0).neg().value(), 0);
    assert_eq!(ModularInteger::new(3).sub(ModularInteger::new(5)).value(), 4294967027);
    assert_eq!(ModularInteger::new(3).add(ModularInteger::new(4294967028)).value(), 2);
    assert_eq!(ModularInteger::new(65536).mul(ModularInteger::new(65536)).value(), 267);
}
