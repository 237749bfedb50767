use quack::accumulator::{check_digest_from_removed_set, elem_image, elem_to_u32};
use quack::{AdditiveMsetHash, NaiveAccumulator, PowerSumAccumulator, ValidationResult};

fn be(i: u32) -> Vec<u8> {
    i.to_be_bytes().to_vec()
}

fn log_of(n: u32) -> Vec<Vec<u8>> {
    (0..n).map(|i| be(i.wrapping_mul(2654435761))).collect()
}

#[test]
fn naive_test_not_equals() {
    let acc1 = NaiveAccumulator::new();
    let acc2 = NaiveAccumulator::new();
    assert_ne!(acc1, acc2, "different digest nonce");
}

#[test]
fn power_sum_test_not_equals() {
    let acc1 = PowerSumAccumulator::new(100, None);
    let acc2 = PowerSumAccumulator::new(100, None);
    assert_ne!(acc1, acc2, "different digest nonce");
}

#[test]
fn test_check_digest_no_drop() {
    let n_logged = 100;
    let elems = (0..(n_logged as u32)).map(|i| i.to_be_bytes().into_iter().collect::<Vec<_>>()).collect::<Vec<_>>();
    let mut d = AdditiveMsetHash::new();
    for e in &elems {
        d.add(e);
    }
    assert!(check_digest_from_removed_set(&d, &elems, &vec![]));
}

#[test]
fn check_digest_with_removed_elements() {
    let elems: Vec<Vec<u8>> = (0..20u32).map(be).collect();
    let mut d = AdditiveMsetHash::new();
    for (i, e) in elems.iter().enumerate() {
        if i != 3 && i != 11 {
            d.add(e);
        }
    }
    let removed = vec![elem_to_u32(&elems[3]), elem_to_u32(&elems[11])];
    assert!(check_digest_from_removed_set(&d, &elems, &removed));
    // an image with no preimage in the log
    let missing = vec![elem_to_u32(&elems[3]), elem_to_u32(&be(1000))];
    assert!(!check_digest_from_removed_set(&d, &elems, &missing));
    // the wrong element removed
    let wrong = vec![elem_to_u32(&elems[3]), elem_to_u32(&elems[12])];
    assert!(!check_digest_from_removed_set(&d, &elems, &wrong));
}

#[test]
fn djb_images() {
    assert_eq!(elem_to_u32(&[]), 5381);
    assert_eq!(elem_to_u32(&[69, 122]), 5862308);
    assert_eq!(elem_to_u32(&[70, 89]), 5862308);
    assert_eq!(elem_to_u32(b"abcEzpie"), 1686394568);
    assert_eq!(elem_image(b"abcEzpie"), 1686394568 & 0x7fff_ffff);
}

fn psum(threshold: usize, elems: &[u32]) -> PowerSumAccumulator {
    let mut acc = PowerSumAccumulator::new(threshold, Some(42));
    for &x in elems {
        acc.process(&be(x));
    }
    acc
}

fn log_list(elems: &[u32]) -> Vec<Vec<u8>> {
    elems.iter().map(|&x| be(x)).collect()
}

#[test]
fn power_sum_all_received_is_valid() {
    let acc = psum(3, &[1, 2, 3, 4, 5]);
    assert_eq!(acc.validate(&log_list(&[1, 2, 3, 4, 5])), ValidationResult::Valid);
    assert_eq!(acc.total(), 5);
}

#[test]
fn power_sum_two_dropped_is_valid() {
    let acc = psum(3, &[3, 4, 5]);
    assert_eq!(acc.validate(&log_list(&[1, 2, 3, 4, 5])), ValidationResult::Valid);
}

#[test]
fn power_sum_extra_log_entry_is_valid() {
    let acc = psum(3, &[1, 2, 3, 4, 5]);
    assert_eq!(acc.validate(&log_list(&[1, 2, 3, 4, 5, 6])), ValidationResult::Valid);
}

#[test]
fn power_sum_short_log_is_invalid() {
    let acc = psum(3, &[1, 2, 3, 4, 5]);
    assert_eq!(acc.validate(&log_list(&[1, 2, 3, 4])), ValidationResult::Invalid);
}

#[test]
fn power_sum_exceeds_threshold() {
    let acc = psum(3, &[1]);
    assert_eq!(acc.validate(&log_list(&[1, 2, 3, 4, 5])), ValidationResult::PsumExceedsThreshold);
}

#[test]
fn power_sum_malicious_is_invalid() {
    let log = log_of(100);
    let mut acc = PowerSumAccumulator::new(10, Some(7));
    for (i, e) in log.iter().enumerate() {
        if i == 17 {
            acc.process(&[0xff; 4]);
        } else if i % 25 != 3 {
            acc.process(e);
        }
    }
    assert!(!acc.validate(&log).is_valid());
}

#[test]
fn power_sum_malicious_none_dropped_is_invalid() {
    let log = log_of(100);
    let mut acc = PowerSumAccumulator::new(10, None);
    for (i, e) in log.iter().enumerate() {
        if i == 50 {
            acc.process(&[0xff; 4]);
        } else {
            acc.process(e);
        }
    }
    assert_eq!(acc.validate(&log), ValidationResult::Invalid);
}

#[test]
fn power_sum_many_dropped_is_valid() {
    let log = log_of(1000);
    let mut acc = PowerSumAccumulator::new(10, None);
    for (i, e) in log.iter().enumerate() {
        if i % 100 != 7 {
            acc.process(e);
        }
    }
    assert_eq!(acc.validate(&log), ValidationResult::Valid);
}

#[test]
fn power_sum_duplicate_packets() {
    let acc = psum(4, &[9, 9, 1]);
    let result = acc.validate(&log_list(&[9, 1, 9, 9, 2]));
    assert!(result.is_valid());
}

#[test]
fn power_sum_batch_and_reset() {
    let mut acc = PowerSumAccumulator::new(5, Some(1));
    acc.process_batch(&log_list(&[1, 2, 3]));
    assert_eq!(acc.total(), 3);
    assert_eq!(acc.validate(&log_list(&[3, 2, 1])), ValidationResult::Valid);
    acc.reset();
    assert_eq!(acc.total(), 0);
    assert_eq!(acc.power_sums(), &vec![0, 0, 0, 0, 0]);
}

#[test]
fn validation_result_is_valid() {
    assert!(ValidationResult::Valid.is_valid());
    assert!(ValidationResult::PsumCollisionsValid.is_valid());
    assert!(ValidationResult::IbltIlpValid.is_valid());
    assert!(!ValidationResult::Invalid.is_valid());
    assert!(!ValidationResult::PsumExceedsThreshold.is_valid());
    assert!(!ValidationResult::PsumErrorFindingRoots.is_valid());
    assert!(!ValidationResult::PsumCollisionsInvalid.is_valid());
    assert!(!ValidationResult::IbltIlpInvalid.is_valid());
}

fn gen_elems(n: usize, salt: u32) -> Vec<Vec<u8>> {
    (0..n as u32).map(|i| (0..4u32).flat_map(|k| (i * 7 + k + salt).to_be_bytes()).collect()).collect()
}

#[test]
fn power_sum_empty_serialization() {
    let acc1 = PowerSumAccumulator::new(100, None);
    let acc2 = PowerSumAccumulator::from_bytes(&acc1.to_bytes()).unwrap();
    assert_eq!(acc1, acc2);
}

#[test]
fn power_sum_serialization_with_data() {
    let mut acc1 = PowerSumAccumulator::new(100, None);
    let acc2 = PowerSumAccumulator::from_bytes(&acc1.to_bytes()).unwrap();
    acc1.process_batch(&gen_elems(10, 1));
    let acc3 = PowerSumAccumulator::from_bytes(&acc1.to_bytes()).unwrap();
    assert_ne!(acc1, acc2);
    assert_eq!(acc1, acc3);
}

#[test]
fn power_sum_bad_wire_forms() {
    let acc = PowerSumAccumulator::new(2, Some(3));
    let mut bytes = acc.to_bytes();
    assert_eq!(bytes.len(), 52 + 4 * 2);
    assert!(PowerSumAccumulator::from_bytes(&bytes[..51].to_vec()).is_none());
    assert!(PowerSumAccumulator::from_bytes(&bytes[..54].to_vec()).is_none());
    bytes[52..56].copy_from_slice(&4294967029u32.to_le_bytes());
    assert!(PowerSumAccumulator::from_bytes(&bytes).is_none());
}

#[test]
fn naive_empty_log_is_valid() {
    let acc = NaiveAccumulator::new();
    assert!(acc.validate(&vec![]));
}

#[test]
fn check_digest_drops_one_preimage_per_image() {
    // "Ez" and "FY" share a DJB hash
    let elems: Vec<Vec<u8>> = vec![b"Ez".to_vec(), b"FY".to_vec(), b"ab".to_vec(), b"cd".to_vec()];
    assert_eq!(elem_to_u32(b"Ez"), elem_to_u32(b"FY"));
    let removed = vec![elem_to_u32(b"Ez"), elem_to_u32(b"ab")];
    let mut d = AdditiveMsetHash::new();
    d.add(b"FY");
    d.add(b"cd");
    assert!(check_digest_from_removed_set(&d, &elems, &removed));
    // dropping both preimages of one image and none of the other is not a choice
    let mut both = AdditiveMsetHash::new();
    both.add(b"ab");
    both.add(b"cd");
    assert!(!check_digest_from_removed_set(&both, &elems, &removed));
}
