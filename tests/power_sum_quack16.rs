use quack::field16::{mul_and_mod, sub_and_mod};
use quack::power_sum16::PowerSumQuackU16;

const THRESHOLD: usize = 3;

#[test]
fn test_quack_constructor_u16() {
    let quack = PowerSumQuackU16::new(THRESHOLD);
    assert_eq!(quack.threshold(), THRESHOLD);
    assert_eq!(quack.count(), 0);
    assert_eq!(quack.last_value(), None);
}

#[test]
fn test_quack_insert_and_remove_u16() {
    let mut quack = PowerSumQuackU16::new(THRESHOLD);
    quack.insert(10);
    assert_eq!(quack.count(), 1);
    assert_eq!(quack.last_value(), Some(10));
    quack.insert(20);
    quack.insert(30);
    assert_eq!(quack.count(), 3);
    assert_eq!(quack.last_value(), Some(30));
    quack.remove(10);
    assert_eq!(quack.count(), 2);
    assert_eq!(quack.last_value(), Some(30));
    quack.remove(30);
    assert_eq!(quack.count(), 1);
    assert_eq!(quack.last_value(), None);
}

#[test]
fn test_quack_to_coeffs_empty_u16() {
    let quack = PowerSumQuackU16::new(THRESHOLD);
    assert_eq!(quack.to_coeffs(), Vec::<u16>::new());
    let mut coeffs = vec![];
    quack.to_coeffs_preallocated(&mut coeffs);
    assert_eq!(coeffs, Vec::<u16>::new());
}

#[test]
fn test_quack_to_coeffs_small_u16() {
    const R1: u16 = 1;
    const R2: u16 = 2;

    let mut quack = PowerSumQuackU16::new(THRESHOLD);
    quack.insert(R1);
    quack.insert(R2);
    let expected = vec![
        sub_and_mod(0, (R1 + R2) as u32) as u16,
        mul_and_mod(R1 as u32, R2 as u32) as u16,
    ]; // x^2 - 3x + 2

    assert_eq!(quack.to_coeffs(), expected);
    let mut coeffs = (0..quack.count()).map(|_| 0).collect();
    quack.to_coeffs_preallocated(&mut coeffs);
    assert_eq!(coeffs, expected);
}

#[test]
fn test_decode_empty_u16() {
    let quack = PowerSumQuackU16::new(THRESHOLD);
    assert_eq!(quack.decode_with_log(&[]), Vec::<u16>::new());
    assert_eq!(quack.decode_with_log(&[1]), Vec::<u16>::new());
}

#[test]
fn test_insert_and_decode_u16() {
    const R1: u16 = 36167;
    const R2: u16 = 23330;
    const R3: u16 = 22343;
    const R4: u16 = 44875;
    const R5: u16 = 9187;

    let mut quack = PowerSumQuackU16::new(THRESHOLD);
    quack.insert(R1);
    quack.insert(R2);
    quack.insert(R3);

    assert_eq!(quack.decode_with_log(&[R1, R2, R3]), vec![R1, R2, R3]);
    assert_eq!(quack.decode_with_log(&[R3, R1, R2]), vec![R3, R1, R2]);

    assert_eq!(quack.decode_with_log(&[R1, R2, R3, R4]), vec![R1, R2, R3]);
    assert_eq!(quack.decode_with_log(&[R1, R4, R2, R3]), vec![R1, R2, R3]);
    assert_eq!(quack.decode_with_log(&[R4, R1, R2, R3]), vec![R1, R2, R3]);

    assert_eq!(quack.decode_with_log(&[R1, R5, R2, R3, R4]), vec![R1, R2, R3]);

    assert_eq!(quack.decode_with_log(&[R1, R2]), vec![R1, R2]);
    assert_eq!(quack.decode_with_log(&[]), Vec::<u16>::new());
    assert_eq!(quack.decode_with_log(&[R1, R2, R4]), vec![R1, R2]);
}

#[test]
fn test_remove_and_decode_u16() {
    const R1: u16 = 36167;
    const R2: u16 = 23330;
    const R3: u16 = 22343;
    const R4: u16 = 44875;
    const R5: u16 = 9187;

    let mut quack = PowerSumQuackU16::new(THRESHOLD);
    quack.insert(R5);
    quack.insert(R4);
    quack.insert(R3);
    quack.insert(R2);
    quack.insert(R1);
    quack.remove(R5);
    quack.remove(R4);

    assert_eq!(quack.decode_with_log(&[R1, R2, R3]), vec![R1, R2, R3]);
    assert_eq!(quack.decode_with_log(&[R1, R5, R2, R3, R4]), vec![R1, R2, R3]);
}

#[test]
fn test_decode_with_multiplicity_u16() {
    const R1: u16 = 10;
    const R2: u16 = 20;

    let mut quack = PowerSumQuackU16::new(THRESHOLD);
    quack.insert(R1);
    quack.insert(R1);

    assert_eq!(quack.decode_with_log(&[R1, R1]), vec![R1, R1]);
    assert_eq!(quack.decode_with_log(&[R1]), vec![R1]);
    assert_eq!(quack.decode_with_log(&[R1, R1, R1]), vec![R1, R1, R1]);
    assert_eq!(quack.decode_with_log(&[R1, R1, R2]), vec![R1, R1]);
    assert_eq!(quack.decode_with_log(&[R2, R1, R2]), vec![R1]);
}

#[test]
fn test_subtract_quacks_with_zero_difference_u16() {
    let q1 = one_to_five(THRESHOLD);
    let quack = q1.clone().sub(&q1);
    assert_eq!(quack.threshold(), THRESHOLD);
    assert_eq!(quack.count(), 0);
    assert_eq!(quack.last_value(), None);
    assert_eq!(quack.to_coeffs(), Vec::<u16>::new());
}

#[test]
fn test_subtract_quacks_with_nonzero_difference_u16() {
    let q1 = one_to_five(THRESHOLD);
    let mut q2 = PowerSumQuackU16::new(THRESHOLD);
    q2.insert(1);
    q2.insert(2);

    let quack = q1.sub(&q2);
    assert_eq!(quack.threshold(), THRESHOLD);
    assert_eq!(quack.count(), 3);
    assert_eq!(quack.last_value(), None);
    assert_eq!(quack.to_coeffs().len(), 3);
    assert_eq!(quack.decode_with_log(&[1, 2, 3, 4, 5]), vec![3, 4, 5]);
}

#[test]
fn test_quack_to_coeffs_big_u16() {
    const R1: u32 = 36167;
    const R2: u32 = 23330;
    const R3: u32 = 22343;
    let modulus: u32 = 65521;

    let mut quack = PowerSumQuackU16::new(THRESHOLD);
    quack.insert(R1 as u16);
    quack.insert(R2 as u16);
    quack.insert(R3 as u16);
    let expected = vec![
        sub_and_mod(0, (R1 + R2 + R3) % modulus) as u16,
        ((R1 * R2 % modulus + R2 * R3 + R1 * R3) % modulus) as u16,
        sub_and_mod(0, (((R1 * R2) % modulus) * R3) % modulus) as u16,
    ];

    assert_eq!(quack.to_coeffs(), expected);
    let mut coeffs = (0..quack.count()).map(|_| 0).collect();
    quack.to_coeffs_preallocated(&mut coeffs);
    assert_eq!(coeffs, expected);
}

fn one_to_five(threshold: usize) -> PowerSumQuackU16 {
    let mut q = PowerSumQuackU16::new(threshold);
    for x in 1..=5 {
        q.insert(x);
    }
    q
}

