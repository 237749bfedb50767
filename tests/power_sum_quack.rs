use quack::{ModularInteger, PowerSumQuackU32};

const THRESHOLD: usize = 3;

#[test]
fn test_quack_constructor_u32() {
    let quack = PowerSumQuackU32::new(THRESHOLD);
    assert_eq!(quack.threshold(), THRESHOLD);
    assert_eq!(quack.count(), 0);
    assert_eq!(quack.last_value(), None);
}

#[test]
fn test_quack_insert_and_remove_u32() {
    let mut quack = PowerSumQuackU32::new(THRESHOLD);
    quack.insert(10);
    assert_eq!(quack.count(), 1);
    assert_eq!(quack.last_value(), Some(10));
    quack.insert(20);
    quack.insert(30);
    assert_eq!(quack.count(), 3);
    assert_eq!(quack.last_value(), Some(30));
    quack.remove(10);
    assert_eq!(quack.count(), 2);
    assert_eq!(quack.last_value(), Some(30));
    quack.remove(30);
    assert_eq!(quack.count(), 1);
    assert_eq!(quack.last_value(), None);
}

#[test]
fn test_quack_to_coeffs_empty_u32() {
    let quack = PowerSumQuackU32::new(THRESHOLD);
    assert_eq!(quack.to_coeffs(), Vec::<u32>::new());
    let mut coeffs = vec![];
    quack.to_coeffs_preallocated(&mut coeffs);
    assert_eq!(coeffs, Vec::<u32>::new());
}

#[test]
fn test_quack_to_coeffs_small_u32() {
    const R1: u32 = 1;
    const R2: u32 = 2;

    let mut quack = PowerSumQuackU32::new(THRESHOLD);
    quack.insert(R1);
    quack.insert(R2);
    let expected = vec![
        ModularInteger::new(R1 + R2).neg().value(),
        ModularInteger::new(R1 * R2).value(),
    ]; // x^2 - 3x + 2

    assert_eq!(quack.to_coeffs(), expected);
    let mut coeffs = (0..quack.count()).map(|_| 0).collect();
    quack.to_coeffs_preallocated(&mut coeffs);
    assert_eq!(coeffs, expected);
}

#[test]
fn test_quack_to_coeffs_big_u32() {
    const R1: u64 = 3616712547;
    const R2: u64 = 2333013068;
    const R3: u64 = 2234311686;
    let modulus = ModularInteger::modulus_big();

    let mut quack = PowerSumQuackU32::new(THRESHOLD);
    quack.insert(R1 as u32);
    quack.insert(R2 as u32);
    quack.insert(R3 as u32);
    let expected = vec![
        ModularInteger::new(((R1 + R2 + R3) % modulus) as u32).neg().value(),
        ModularInteger::new(((R1 * R2 % modulus + R2 * R3 + R1 * R3) % modulus) as u32).value(),
        ModularInteger::new(((((R1 * R2) % modulus) * R3) % modulus) as u32).neg().value(),
    ];

    assert_eq!(quack.to_coeffs(), expected);
    let mut coeffs = (0..quack.count()).map(|_| 0).collect();
    quack.to_coeffs_preallocated(&mut coeffs);
    assert_eq!(coeffs, expected);
}

#[test]
fn test_decode_empty_u32() {
    let quack = PowerSumQuackU32::new(THRESHOLD);
    assert_eq!(quack.decode_with_log(&[]), Vec::<u32>::new());
    assert_eq!(quack.decode_with_log(&[1]), Vec::<u32>::new());
}

#[test]
fn test_insert_and_decode_u32() {
    const R1: u32 = 3616712547;
    const R2: u32 = 2333013068;
    const R3: u32 = 2234311686;
    const R4: u32 = 448751902;
    const R5: u32 = 918748965;

    let mut quack = PowerSumQuackU32::new(THRESHOLD);
    quack.insert(R1);
    quack.insert(R2);
    quack.insert(R3);

    assert_eq!(quack.decode_with_log(&[R1, R2, R3]), vec![R1, R2, R3]);
    assert_eq!(quack.decode_with_log(&[R3, R1, R2]), vec![R3, R1, R2]);

    assert_eq!(quack.decode_with_log(&[R1, R2, R3, R4]), vec![R1, R2, R3]);
    assert_eq!(quack.decode_with_log(&[R1, R4, R2, R3]), vec![R1, R2, R3]);
    assert_eq!(quack.decode_with_log(&[R4, R1, R2, R3]), vec![R1, R2, R3]);

    assert_eq!(quack.decode_with_log(&[R1, R5, R2, R3, R4]), vec![R1, R2, R3]);

    assert_eq!(quack.decode_with_log(&[R1, R2]), vec![R1, R2]);
    assert_eq!(quack.decode_with_log(&[]), Vec::<u32>::new());
    assert_eq!(quack.decode_with_log(&[R1, R2, R4]), vec![R1, R2]);
}

#[test]
fn test_remove_and_decode_u32() {
    const R1: u32 = 3616712547;
    const R2: u32 = 2333013068;
    const R3: u32 = 2234311686;
    const R4: u32 = 448751902;
    const R5: u32 = 918748965;

    let mut quack = PowerSumQuackU32::new(THRESHOLD);
    quack.insert(R5);
    quack.insert(R4);
    quack.insert(R3);
    quack.insert(R2);
    quack.insert(R1);
    quack.remove(R5);
    quack.remove(R4);

    assert_eq!(quack.decode_with_log(&[R1, R2, R3]), vec![R1, R2, R3]);
    assert_eq!(quack.decode_with_log(&[R1, R5, R2, R3, R4]), vec![R1, R2, R3]);
}

#[test]
fn test_serialize_and_deserialize_u32() {
    let mut buf = [0u8; 1500];
    let mut q1 = PowerSumQuackU32::new(10);
    q1.insert(1);
    q1.insert(2);
    q1.insert(3);
    let len = q1.serialize(&mut buf);
    assert_eq!(len, 8 + 4 * 10);
    let q2 = PowerSumQuackU32::deserialize(&buf[..len]);
    assert_eq!(q1.count(), q2.count());
    assert_eq!(q1.last_value(), q2.last_value());
    assert_eq!(q1.to_coeffs(), q2.to_coeffs());

    let mut q3 = PowerSumQuackU32::new(10);
    q3.deserialize_prealloc(&buf[..len]);
    assert_eq!(q3.count(), q2.count());
    assert_eq!(q3.last_value(), q2.last_value());
    assert_eq!(q3.to_coeffs(), q2.to_coeffs());
}

#[test]
fn test_serialize_with_hint_u32() {
    let mut buf = [0u8; 1500];
    let mut q1 = PowerSumQuackU32::new(10);
    q1.insert(1);
    q1.insert(2);
    q1.insert(3);
    let num_symbols = 3;
    let len = q1.serialize_with_hint(&mut buf, num_symbols);
    assert_eq!(len, 8 + 4 * num_symbols);
    let q2 = PowerSumQuackU32::deserialize(&buf[..len]);
    assert_eq!(q1.count(), q2.count());
    assert_eq!(q1.last_value(), q2.last_value());
    assert_eq!(q1.power_sums().len(), 10);
    assert_eq!(q2.power_sums().len(), num_symbols);
}

#[test]
fn test_decode_with_multiplicity_u32() {
    const R1: u32 = 10;
    const R2: u32 = 20;

    let mut quack = PowerSumQuackU32::new(THRESHOLD);
    quack.insert(R1);
    quack.insert(R1);

    assert_eq!(quack.decode_with_log(&[R1, R1]), vec![R1, R1]);
    assert_eq!(quack.decode_with_log(&[R1]), vec![R1]);
    assert_eq!(quack.decode_with_log(&[R1, R1, R1]), vec![R1, R1, R1]);
    assert_eq!(quack.decode_with_log(&[R1, R1, R2]), vec![R1, R1]);
    assert_eq!(quack.decode_with_log(&[R2, R1, R2]), vec![R1]);
}

fn one_to_five(threshold: usize) -> PowerSumQuackU32 {
    let mut q = PowerSumQuackU32::new(threshold);
    for x in 1..=5 {
        q.insert(x);
    }
    q
}

#[test]
fn test_subtract_quacks_with_zero_difference_u32() {
    let q1 = one_to_five(THRESHOLD);
    let quack = q1.clone().sub(&q1);
    assert_eq!(quack.threshold(), THRESHOLD);
    assert_eq!(quack.count(), 0);
    assert_eq!(quack.last_value(), None);
    assert_eq!(quack.to_coeffs(), Vec::<u32>::new());
}

#[test]
fn test_subtract_quacks_with_nonzero_difference_u32() {
    let q1 = one_to_five(THRESHOLD);
    let mut q2 = PowerSumQuackU32::new(THRESHOLD);
    q2.insert(1);
    q2.insert(2);

    let quack = q1.sub(&q2);
    assert_eq!(quack.threshold(), THRESHOLD);
    assert_eq!(quack.count(), 3);
    assert_eq!(quack.last_value(), None);
    assert_eq!(quack.to_coeffs().len(), 3);
    assert_eq!(quack.decode_with_log(&[1, 2, 3, 4, 5]), vec![3, 4, 5]);
}

#[test]
fn test_subtract_quacks_with_different_threshold_u32_lt() {
    let q1 = one_to_five(THRESHOLD);
    let mut q2 = PowerSumQuackU32::new(THRESHOLD + 1);
    q2.insert(1);
    q2.insert(2);

    let quack = q1.sub(&q2);
    assert_eq!(quack.threshold(), THRESHOLD);
    assert_eq!(quack.count(), 3);
    assert_eq!(quack.last_value(), None);
    assert_eq!(quack.to_coeffs().len(), 3);
    assert_eq!(quack.decode_with_log(&[1, 2, 3, 4, 5]), vec![3, 4, 5]);
}

#[test]
fn test_subtract_quacks_with_different_threshold_u32_gt() {
    let q1 = one_to_five(THRESHOLD + 1);
    let mut q2 = PowerSumQuackU32::new(THRESHOLD);
    q2.insert(1);
    q2.insert(2);

    let quack = q1.sub(&q2);
    assert_eq!(quack.threshold(), THRESHOLD);
    assert_eq!(quack.count(), 3);
    assert_eq!(quack.last_value(), None);
    assert_eq!(quack.to_coeffs().len(), 3);
    assert_eq!(quack.decode_with_log(&[1, 2, 3, 4, 5]), vec![3, 4, 5]);
}

#[test]
fn subtract_assign_matches_sub() {
    let mut q1 = one_to_five(THRESHOLD);
    let mut q2 = PowerSumQuackU32::new(THRESHOLD);
    q2.insert(4);
    q2.insert(5);
    let diff = q1.sub(&q2);
    q1.sub_assign(&q2);
    assert_eq!(q1, diff);
    assert_eq!(q1.decode_with_log(&[1, 2, 3, 4, 5]), vec![1, 2, 3]);
}

#[test]
fn dropped_pair_decodes_from_log() {
    // {1..5} less {3, 4, 5} leaves {1, 2}
    let q1 = one_to_five(THRESHOLD);
    let mut q2 = PowerSumQuackU32::new(THRESHOLD);
    for x in 3..=5 {
        q2.insert(x);
    }
    let diff = q1.sub(&q2);
    assert_eq!(diff.count(), 2);
    assert_eq!(diff.decode_with_log(&[1, 2, 3, 4, 5]), vec![1, 2]);
}

#[test]
fn insert_then_subtract_is_singleton() {
    let a = one_to_five(THRESHOLD);
    let mut ax = a.clone();
    ax.insert(77);
    let mut single = PowerSumQuackU32::new(THRESHOLD);
    single.insert(77);
    let diff = ax.sub(&a);
    assert_eq!(diff.power_sums(), single.power_sums());
    assert_eq!(single.power_sums(), &vec![77, 77 * 77, 77 * 77 * 77]);
}

#[test]
fn insertion_order_does_not_matter() {
    let mut a = PowerSumQuackU32::new(5);
    let mut b = PowerSumQuackU32::new(5);
    for x in [9, 4000000000, 17, 9, 123456] {
        a.insert(x);
    }
    for x in [123456, 9, 9, 17, 4000000000] {
        b.insert(x);
    }
    assert_eq!(a.power_sums(), b.power_sums());
    assert_eq!(a.count(), b.count());
}

#[test]
fn serialize_unknown_last_value_as_zero() {
    let mut buf = [0u8; 64];
    let q = one_to_five(THRESHOLD).sub(&PowerSumQuackU32::new(THRESHOLD));
    let len = q.serialize(&mut buf);
    assert_eq!(&buf[0..8], &[5, 0, 0, 0, 0, 0, 0, 0]);
    let q2 = PowerSumQuackU32::deserialize(&buf[..len]);
    assert_eq!(q2.last_value(), Some(0));
    assert_eq!(q2.power_sums(), q.power_sums());
    assert_eq!(&buf[8..12], &15u32.to_le_bytes());
}

#[test]
fn last_value_is_the_element_itself() {
    let mut q = PowerSumQuackU32::new(THRESHOLD);
    q.insert(u32::MAX);
    assert_eq!(q.last_value(), Some(u32::MAX));
    q.remove(u32::MAX);
    assert_eq!(q.last_value(), None);
}
