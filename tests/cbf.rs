use quack::cbf::{CBFAccumulator, CounterOverflow, CountingBloomFilter};
use quack::ValidationResult;
use rand::Rng;
use rand::SeedableRng;
use rand_chacha::ChaCha8Rng;

fn init_cbf() -> CountingBloomFilter {
    CountingBloomFilter::new(8, 96, 2, None)
}

fn cells(cbf: &CountingBloomFilter) -> Vec<u32> {
    (0..cbf.num_entries() as usize).map(|i| cbf.counters().get(i)).collect()
}

fn vvsum(cbf: &CountingBloomFilter) -> usize {
    cells(cbf).iter().sum::<u32>() as usize
}

fn e(x: u32) -> [u8; 4] {
    x.to_be_bytes()
}

#[test]
fn init_cbf_random_state() {
    let cbf1 = init_cbf();
    let cbf2 = init_cbf();
    assert_ne!(cbf1.indexes(&e(1234)), cbf2.indexes(&e(1234)));
    assert_eq!(cbf1.num_entries(), 96);
    assert_eq!(cbf1.num_hashes(), 2);
    assert_eq!(vvsum(&cbf1), 0);
}

#[test]
fn test_insert() {
    let mut cbf = init_cbf();
    assert!(!cbf.insert(&e(1234)).unwrap(), "element did not exist already");
    assert_eq!(vvsum(&cbf), 1 * cbf.num_hashes() as usize);
    assert!(cbf.insert(&e(1234)).unwrap());
    assert!(cbf.insert(&e(1234)).unwrap());
    assert_eq!(vvsum(&cbf), 3 * cbf.num_hashes() as usize);
    assert!(!cbf.insert(&e(5678)).unwrap());
    assert_eq!(vvsum(&cbf), 4 * cbf.num_hashes() as usize);
}

#[test]
fn test_contains() {
    let mut cbf = init_cbf();
    cbf.insert(&e(1234)).unwrap();
    cbf.insert(&e(1234)).unwrap();
    cbf.insert(&e(1234)).unwrap();
    cbf.insert(&e(5678)).unwrap();
    assert!(cbf.contains(&e(1234)));
    assert!(cbf.contains(&e(5678)));
    let seeded = CountingBloomFilter::new(8, 96, 2, Some(7));
    assert!(!seeded.contains(&e(3456)));
}

#[test]
fn test_indexes() {
    let mut cbf = init_cbf();
    cbf.insert(&e(1234)).unwrap();
    cbf.insert(&e(1234)).unwrap();
    cbf.insert(&e(1234)).unwrap();
    cbf.insert(&e(5678)).unwrap();
    let indexes = cbf.indexes(&e(1234));
    assert_eq!(indexes.len(), cbf.num_hashes() as usize);
    assert_eq!(indexes, cbf.indexes(&e(1234)), "indexes are deterministic");
    for i in indexes {
        assert!(cbf.counters().get(i) >= 3);
    }
    for i in cbf.indexes(&e(5678)) {
        assert!(cbf.counters().get(i) >= 1);
    }
}

#[test]
fn cbf_test_empty_clone() {
    let mut cbf1 = init_cbf();
    cbf1.insert(&e(1234)).unwrap();
    cbf1.insert(&e(5678)).unwrap();
    let cbf2 = cbf1.empty_clone();
    assert!(vvsum(&cbf1) > 0);
    assert_eq!(vvsum(&cbf2), 0);
    assert_eq!(cbf1.indexes(&e(1234)), cbf2.indexes(&e(1234)));
}

#[test]
fn counter_overflow_is_an_error() {
    let mut cbf = CountingBloomFilter::new(1, 10, 1, Some(3));
    assert_eq!(cbf.insert(&e(1234)), Ok(false));
    assert_eq!(cbf.insert(&e(1234)), Err(CounterOverflow));
}

fn gen_elems(n: usize, seed: u64) -> Vec<Vec<u8>> {
    let mut rng = ChaCha8Rng::seed_from_u64(seed);
    (0..n).map(|_| (0..16).map(|_| rng.gen::<u8>()).collect()).collect()
}

fn cbf_run(threshold: usize, log: &Vec<Vec<u8>>, dropped: &[usize], malicious: Option<usize>) -> ValidationResult {
    let mut acc = CBFAccumulator::new(threshold, Some(5));
    for (i, x) in log.iter().enumerate() {
        if malicious == Some(i) {
            acc.process(&[0u8; 16]).unwrap();
        } else if !dropped.contains(&i) {
            acc.process(x).unwrap();
        }
    }
    acc.validate(log)
}

#[test]
fn cbf_none_dropped() {
    let log = gen_elems(100, 1);
    assert_eq!(cbf_run(100, &log, &[], None), ValidationResult::Valid);
}

#[test]
fn cbf_one_dropped() {
    let log = gen_elems(100, 2);
    assert_eq!(cbf_run(100, &log, &[40], None), ValidationResult::Valid);
}

#[test]
fn cbf_two_dropped() {
    let log = gen_elems(100, 3);
    assert_eq!(cbf_run(100, &log, &[4, 90], None), ValidationResult::Valid);
}

#[test]
fn cbf_one_malicious_and_none_dropped() {
    let log = gen_elems(100, 4);
    assert_eq!(cbf_run(100, &log, &[], Some(10)), ValidationResult::Invalid);
}

#[test]
fn cbf_one_malicious_and_one_dropped() {
    let log = gen_elems(100, 5);
    assert_eq!(cbf_run(100, &log, &[3], Some(10)), ValidationResult::Invalid);
}

#[test]
fn cbf_short_log_is_invalid() {
    let log = gen_elems(10, 6);
    let mut acc = CBFAccumulator::new(10, Some(1));
    acc.process_batch(&log).unwrap();
    assert_eq!(acc.total(), 10);
    assert_eq!(acc.validate(&log[..9].to_vec()), ValidationResult::Invalid);
}

#[test]
fn overflow_leaves_filter_unchanged() {
    let mut cbf = CountingBloomFilter::new(1, 10, 1, Some(3));
    cbf.insert(&e(1234)).unwrap();
    let before = cells(&cbf);
    assert!(cbf.insert(&e(1234)).is_err());
    assert_eq!(cells(&cbf), before);
}

#[test]
fn negative_difference_cell_is_invalid() {
    let log: Vec<Vec<u8>> = (0..20u32).map(|i| i.to_be_bytes().to_vec()).collect();
    let mut acc = CBFAccumulator::new(10, Some(9));
    for x in &log[..10] {
        acc.process(x).unwrap();
    }
    acc.process(&[9, 9, 9, 9]).unwrap();
    assert_eq!(acc.validate(&log), ValidationResult::Invalid);
}
