use quack::accumulator::{check_digest_from_removed_set, elem_to_u32};
use quack::iblt::{calculate_difference_iblt, IBLTAccumulator, InvBloomLookupTable};
use quack::{AdditiveMsetHash, ValidationResult};
use rand::Rng;
use rand::SeedableRng;
use rand_chacha::ChaCha8Rng;
use std::collections::HashSet;

const NBYTES: usize = 16;

fn init_iblt() -> InvBloomLookupTable {
    InvBloomLookupTable::new(8, 100, 2)
}

fn vvsum(vec: &Vec<u32>) -> usize {
    vec.iter().sum::<u32>() as usize
}

fn data_is_nonzero(vec: &Vec<u32>) -> bool {
    vec.iter().any(|&x| x != 0)
}

fn gen_elems_with_seed(n: usize, seed: u64) -> Vec<Vec<u8>> {
    let mut rng = ChaCha8Rng::seed_from_u64(seed);
    (0..n).map(|_| (0..NBYTES).map(|_| rng.gen::<u8>()).collect()).collect()
}

fn be_log(n: u32) -> Vec<Vec<u8>> {
    (0..n).map(|i| i.to_be_bytes().into_iter().collect::<Vec<_>>()).collect()
}

#[test]
fn test_new_iblt() {
    let iblt = init_iblt();
    assert_eq!(iblt.num_entries(), 100);
    assert_eq!(iblt.num_hashes(), 2);
    assert_eq!(vvsum(iblt.counters()), 0);
    assert_eq!(vvsum(iblt.data()), 0);
}

#[test]
fn test_new_iblt_with_seed() {
    let iblt1 = InvBloomLookupTable::new_with_seed(111, 8, 100, 2);
    let iblt2 = InvBloomLookupTable::new_with_seed(222, 8, 100, 2);
    let iblt3 = InvBloomLookupTable::new_with_seed(111, 8, 100, 2);
    assert!(!iblt1.equals(&iblt2));
    assert!(iblt1.equals(&iblt3));
}

#[test]
fn test_equals() {
    let mut iblt1 = init_iblt();
    let iblt2 = init_iblt();
    assert!(!iblt1.equals(&iblt2), "different random state");
    let iblt3 = iblt1.empty_clone();
    assert!(iblt1.equals(&iblt3), "empty clone duplicates random state");
    iblt1.insert(&1234_u32.to_be_bytes());
    let iblt4 = iblt1.empty_clone();
    assert!(!iblt1.equals(&iblt4), "empty clone removes data");
    assert!(iblt1.equals(&iblt1), "reflexive equality");
    assert!(iblt2.equals(&iblt2), "reflexive equality");
}

#[test]
fn test_insert_without_overflow() {
    let mut iblt = init_iblt();
    let elem = 1234_u32.to_be_bytes();
    let indexes = iblt.indexes(&elem);
    for &idx in &indexes {
        assert_eq!(iblt.counters()[idx], 0);
        assert_eq!(iblt.data()[idx], 0);
    }
    assert!(!iblt.insert(&elem), "element did not exist already");
    assert_eq!(vvsum(iblt.counters()), 1 * iblt.num_hashes() as usize);
    for &idx in &indexes {
        assert_ne!(iblt.counters()[idx], 0);
        assert_ne!(iblt.data()[idx], 0);
    }
    assert!(iblt.insert(&elem), "added element twice");
    assert_eq!(vvsum(iblt.counters()), 2 * iblt.num_hashes() as usize);
    for &idx in &indexes {
        assert_ne!(iblt.counters()[idx], 0);
        assert_ne!(iblt.data()[idx], 0);
    }
}

#[test]
fn iblt_test_empty_clone() {
    let mut iblt1 = init_iblt();
    iblt1.insert(&1234_u32.to_be_bytes());
    iblt1.insert(&5678_u32.to_be_bytes());
    let iblt2 = iblt1.empty_clone();
    assert!(vvsum(iblt1.counters()) > 0);
    assert_eq!(vvsum(iblt2.counters()), 0);
    assert!(data_is_nonzero(iblt1.data()));
    assert_eq!(vvsum(iblt2.data()), 0);
    assert_eq!(iblt1.indexes(&1234_u32.to_be_bytes()), iblt2.indexes(&1234_u32.to_be_bytes()));
}

#[test]
fn test_insert_with_counter_overflow() {
    let mut iblt = InvBloomLookupTable::new(1, 10, 1);
    let elem = 1234_u64.to_be_bytes();
    let elem_u32 = elem_to_u32(&elem);
    let i = iblt.indexes(&elem)[0];

    iblt.insert(&elem);
    assert_eq!(iblt.counters()[i], 1);
    assert_eq!(iblt.data()[i], elem_u32);

    iblt.insert(&elem);
    assert_eq!(iblt.counters()[i], 0);
    assert_eq!(iblt.data()[i], elem_u32 * 2);
}

#[test]
fn test_insert_with_data_wraparound() {
    let mut iblt = InvBloomLookupTable::new(2, 10, 1);
    let elem = 9983_u32.to_be_bytes();
    let elem_u32 = elem_to_u32(&elem);
    assert_eq!(elem_u32, 2086475114, "DJB hash of 9983 is very big");
    let i = iblt.indexes(&elem)[0];

    iblt.insert(&elem);
    assert_eq!(iblt.counters()[i], 1);
    assert_eq!(iblt.data()[i], elem_u32);

    iblt.insert(&elem);
    iblt.insert(&elem);
    assert_eq!(iblt.counters()[i], 3);
    assert!(iblt.data()[i] < elem_u32);
}

#[test]
fn test_eliminate_all_elems_without_duplicates() {
    let mut iblt = InvBloomLookupTable::new_with_seed(111, 8, 10, 2);
    let mut hashes = HashSet::new();
    let n: usize = 6;
    for i in 0..n {
        let elem = (i as u32).to_be_bytes();
        iblt.insert(&elem);
        hashes.insert(elem_to_u32(&elem));
    }
    assert_eq!(vvsum(iblt.counters()), n * (iblt.num_hashes() as usize));
    assert_eq!(hashes.len(), n, "djb hashes are unique in this test");

    let elems = iblt.eliminate_elems().unwrap();
    assert_eq!(elems.len(), n);
    assert_eq!(vvsum(iblt.counters()), 0);
    assert_eq!(vvsum(iblt.data()), 0);
    for i in 0..n {
        let elem = elem_to_u32(&(i as u32).to_be_bytes());
        assert!(hashes.remove(&elem));
    }
}

#[test]
fn test_eliminate_all_elems_with_duplicates() {
    let mut iblt = InvBloomLookupTable::new_with_seed(111, 8, 10, 2);
    let mut hashes = HashSet::new();
    let n: usize = 8;
    for i in 0..n {
        let elem = (i as u32).to_be_bytes();
        iblt.insert(&elem);
        hashes.insert(elem_to_u32(&elem));
    }
    assert_eq!(vvsum(iblt.counters()), n * (iblt.num_hashes() as usize));
    assert_eq!(hashes.len(), n, "djb hashes are unique in this test");

    let elems = iblt.eliminate_elems().unwrap();
    assert!(elems.len() < n);
    assert_eq!(vvsum(iblt.counters()), (n - elems.len()) * (iblt.num_hashes() as usize));
    assert!(data_is_nonzero(iblt.data()));
}

#[test]
fn iblt_test_not_equals() {
    let acc1 = IBLTAccumulator::new(100, None);
    let acc2 = IBLTAccumulator::new(100, None);
    assert!(!acc1.equals(&acc2), "different digest nonce");
}

#[test]
fn test_calculate_difference_iblt_inverse() {
    let n_dropped = 0;
    let log = be_log(100);
    let mut iblt = InvBloomLookupTable::new_with_seed(111, 4, 10, 3);
    for elem in &log {
        iblt.insert(&elem);
    }
    let diff = calculate_difference_iblt(n_dropped, &log, &iblt);
    assert!(diff.is_some());
    assert_eq!(vvsum(diff.unwrap().counters()), 0);
}

#[test]
fn test_calculate_difference_iblt() {
    let n_logged = 100;
    let n_dropped = 60;
    let log = be_log(n_logged as u32);

    let bpe = 4;
    let mut d1 = InvBloomLookupTable::new_with_seed(111, bpe, 60, 3);
    let mut d2 = InvBloomLookupTable::new_with_seed(111, bpe, 60, 3);
    for i in 0..n_logged {
        d1.insert(&log[i]);
    }
    for i in 0..(n_logged - n_dropped) {
        d2.insert(&log[i]);
    }

    let diff = {
        let diff = calculate_difference_iblt(n_dropped, &log, &d2);
        assert!(diff.is_some());
        diff.unwrap()
    };

    let (mut counter_no_wrap, mut counter_wrap) = (1 << 31, 1 << 31);
    let (mut data_no_wrap, mut data_wrap) = (1 << 31, 1 << 31);
    for i in 0..(d1.num_entries() as usize) {
        if d1.counters()[i] >= d2.counters()[i] {
            counter_no_wrap = i;
        } else {
            counter_wrap = i;
        }
        if d1.data()[i] >= d2.data()[i] {
            data_no_wrap = i;
        } else {
            data_wrap = i;
        }
    }
    assert!(counter_no_wrap < (d1.num_entries() as usize));
    assert!(counter_wrap < (d1.num_entries() as usize));
    assert!(data_no_wrap < (d1.num_entries() as usize));
    assert!(data_wrap < (d1.num_entries() as usize));

    assert_eq!(diff.counters()[counter_no_wrap], d1.counters()[counter_no_wrap] - d2.counters()[counter_no_wrap]);
    assert_eq!(
        diff.counters()[counter_wrap],
        ((1 << bpe) - 1) - d2.counters()[counter_wrap] + d1.counters()[counter_wrap] + 1
    );
    assert_eq!(diff.data()[data_no_wrap], d1.data()[data_no_wrap] - d2.data()[data_no_wrap]);
    assert_eq!(diff.data()[data_wrap], u32::max_value() - d2.data()[data_wrap] + d1.data()[data_wrap] + 1);
}

#[test]
fn test_calculate_difference_iblt_with_wraparound_from_low_threshold() {
    let n_logged = 100;
    let n_dropped = 60;
    let log = be_log(n_logged as u32);
    let mut d1 = InvBloomLookupTable::new_with_seed(111, 4, 6, 3);
    let mut d2 = InvBloomLookupTable::new_with_seed(111, 4, 6, 3);
    for i in 0..n_logged {
        d1.insert(&log[i]);
    }
    for i in 0..(n_logged - n_dropped) {
        d2.insert(&log[i]);
    }
    assert!(calculate_difference_iblt(n_dropped, &log, &d2).is_none());
}

#[test]
fn test_calculate_difference_iblt_with_malicious_wraparound() {
    let n_logged = 100;
    let n_dropped = 60;
    let log_start_i = 40;
    let log = be_log(n_logged as u32);
    let mut d1 = InvBloomLookupTable::new_with_seed(111, 4, 60, 3);
    let mut d2 = InvBloomLookupTable::new_with_seed(111, 4, 60, 3);
    for i in log_start_i..n_logged {
        d1.insert(&log[i]);
    }
    for i in 0..(n_logged - n_dropped) {
        d2.insert(&log[i]);
    }
    assert!(calculate_difference_iblt(n_dropped, &log[log_start_i..].to_vec(), &d2).is_none());
}

#[test]
fn test_check_digest_removed_elem_does_not_exist() {
    let elems = be_log(100);
    let hashes: HashSet<_> = elems.iter().map(|e| elem_to_u32(e)).collect();
    assert_eq!(elems.len(), hashes.len(), "DJB hashes are unique in this test");
    let mut d = AdditiveMsetHash::new();
    for e in &elems {
        d.add(e);
    }
    let removed_hash: u32 = 111;
    assert!(!hashes.contains(&removed_hash), "check no collision");
    assert!(!check_digest_from_removed_set(&d, &elems, &vec![removed_hash]));
}

#[test]
fn test_check_digest_subset_no_collisions() {
    let n_logged = 100;
    let n_dropped = 20;
    let elems = be_log(n_logged as u32);
    let hashes: HashSet<_> = elems.iter().map(|e| elem_to_u32(e)).collect();
    assert_eq!(elems.len(), hashes.len(), "DJB hashes are unique in this test");
    let mut d = AdditiveMsetHash::new();
    for i in n_dropped..n_logged {
        d.add(&elems[i]);
    }
    let removed: Vec<u32> = (0..n_dropped).map(|i| elem_to_u32(&elems[i])).collect();
    assert_eq!(removed.iter().collect::<HashSet<_>>().len(), n_dropped);
    assert!(check_digest_from_removed_set(&d, &elems, &removed));
}

#[test]
fn test_check_digest_subset_with_collisions() {
    let n_logged = 10000;
    let n_dropped = 40;
    let (drop_i, drop_j) = (223, 6875);
    let elems = gen_elems_with_seed(n_logged, 112);
    assert_eq!(elem_to_u32(&elems[drop_i]), elem_to_u32(&elems[drop_j]));

    let mut d = AdditiveMsetHash::new();
    for i in n_dropped..n_logged {
        if i == drop_i {
            continue;
        }
        d.add(&elems[i]);
    }
    let mut removed: Vec<u32> = (0..n_dropped).map(|i| elem_to_u32(&elems[i])).collect();
    removed.push(elem_to_u32(&elems[drop_i]));
    assert_eq!(removed.iter().collect::<HashSet<_>>().len(), n_dropped + 1);
    assert!(check_digest_from_removed_set(&d, &elems, &removed));
}

fn iblt_run(threshold: usize, log: &Vec<Vec<u8>>, dropped: &[usize], malicious: Option<usize>) -> ValidationResult {
    let mut acc = IBLTAccumulator::new(threshold, Some(99));
    for (i, e) in log.iter().enumerate() {
        if malicious == Some(i) {
            acc.process(&[0u8; NBYTES]);
        } else if !dropped.contains(&i) {
            acc.process(e);
        }
    }
    acc.validate(log)
}

#[test]
fn iblt_none_dropped() {
    let log = gen_elems_with_seed(100, 1);
    assert_eq!(iblt_run(100, &log, &[], None), ValidationResult::Valid);
}

#[test]
fn iblt_one_dropped() {
    let log = gen_elems_with_seed(100, 2);
    assert!(iblt_run(100, &log, &[17], None).is_valid());
}

#[test]
fn iblt_ten_of_a_hundred_dropped() {
    let log = gen_elems_with_seed(100, 3);
    let dropped = [3, 14, 15, 29, 41, 55, 62, 77, 81, 99];
    assert!(iblt_run(1000, &log, &dropped, None).is_valid());
}

#[test]
fn iblt_one_malicious_and_none_dropped() {
    let log = gen_elems_with_seed(100, 4);
    assert!(!iblt_run(100, &log, &[], Some(50)).is_valid());
}

#[test]
fn iblt_one_malicious_and_one_dropped() {
    let log = gen_elems_with_seed(100, 5);
    assert!(!iblt_run(1000, &log, &[8], Some(50)).is_valid());
}

#[test]
fn iblt_short_log_is_invalid() {
    let log = gen_elems_with_seed(10, 6);
    let mut acc = IBLTAccumulator::new(10, Some(1));
    acc.process_batch(&log);
    assert_eq!(acc.total(), 10);
    assert_eq!(acc.validate(&log[..9].to_vec()), ValidationResult::Invalid);
    acc.reset();
    assert_eq!(acc.total(), 0);
}

#[test]
fn seeded_accumulators_are_equal() {
    let a = IBLTAccumulator::new_with_params(10, 8, 10, 2, Some(4));
    let b = IBLTAccumulator::new_with_params(10, 8, 10, 2, Some(4));
    assert!(a.equals(&b));
    assert_eq!(a.total(), 0);
}
