use quack::cbf::CBFAccumulator;
use quack::iblt::IBLTAccumulator;
use quack::{NaiveAccumulator, PowerSumAccumulator};
use rand::Rng;
use rand::SeedableRng;
use rand_chacha::ChaCha8Rng;

const MALICIOUS_ELEM: [u8; 16] = [0xff; 16];

/// A log of `num_logged` packets, the packets a router processes when it
/// drops `num_dropped` of them (indexes may repeat) and, if `malicious`,
/// replaces one with `MALICIOUS_ELEM`.
fn scenario(seed: u64, num_logged: usize, num_dropped: usize, malicious: bool) -> (Vec<Vec<u8>>, Vec<Vec<u8>>) {
    let mut rng = ChaCha8Rng::seed_from_u64(seed);
    let elems: Vec<Vec<u8>> = (0..num_logged)
        .map(|_| loop {
            let e: Vec<u8> = (0..16).map(|_| rng.gen::<u8>()).collect();
            if e != MALICIOUS_ELEM.to_vec() {
                break e;
            }
        })
        .collect();
    let dropped_is: Vec<usize> = (0..num_dropped).map(|_| rng.gen_range(0..num_logged)).collect();
    let malicious_i: usize = rng.gen_range(0..num_logged);
    let mut processed = vec![];
    for i in 0..elems.len() {
        if malicious && malicious_i == i {
            processed.push(MALICIOUS_ELEM.to_vec());
        } else if !dropped_is.contains(&i) {
            processed.push(elems[i].clone());
        }
    }
    (elems, processed)
}

fn naive(num_logged: usize, num_dropped: usize, malicious: bool) -> bool {
    let (log, processed) = scenario(11, num_logged, num_dropped, malicious);
    let mut acc = NaiveAccumulator::new();
    acc.process_batch(&processed);
    acc.validate(&log)
}

fn power_sum(threshold: usize, num_logged: usize, num_dropped: usize, malicious: bool) -> bool {
    let (log, processed) = scenario(12, num_logged, num_dropped, malicious);
    let mut acc = PowerSumAccumulator::new(threshold, None);
    acc.process_batch(&processed);
    acc.validate(&log).is_valid()
}

fn cbf(threshold: usize, num_logged: usize, num_dropped: usize, malicious: bool) -> bool {
    let (log, processed) = scenario(13, num_logged, num_dropped, malicious);
    let mut acc = CBFAccumulator::new(threshold, None);
    acc.process_batch(&processed).unwrap();
    acc.validate(&log).is_valid()
}

fn iblt(threshold: usize, num_logged: usize, num_dropped: usize, malicious: bool) -> bool {
    let (log, processed) = scenario(14, num_logged, num_dropped, malicious);
    let mut acc = IBLTAccumulator::new(threshold, None);
    acc.process_batch(&processed);
    acc.validate(&log).is_valid()
}

#[test]
fn naive_none_dropped() {
    assert!(naive(100, 0, false));
}

#[test]
fn naive_one_dropped() {
    assert!(naive(100, 1, false));
}

#[test]
fn naive_one_malicious_and_none_dropped() {
    assert!(!naive(100, 0, true));
}

#[test]
fn naive_one_malicious_and_one_dropped() {
    assert!(!naive(100, 1, true));
}

#[test]
fn power_sum_none_dropped() {
    assert!(power_sum(100, 100, 0, false));
}

#[test]
fn power_sum_one_dropped() {
    assert!(power_sum(100, 100, 1, false));
}

#[test]
fn power_sum_two_dropped() {
    assert!(power_sum(100, 100, 2, false));
}

#[test]
fn power_sum_many_dropped() {
    assert!(power_sum(1000, 1000, 10, false));
}

#[test]
fn power_sum_one_malicious_and_none_dropped() {
    assert!(!power_sum(100, 100, 0, true));
}

#[test]
fn power_sum_one_malicious_and_one_dropped() {
    assert!(!power_sum(100, 100, 1, true));
}

#[test]
fn power_sum_one_malicious_and_many_dropped() {
    assert!(!power_sum(1000, 1000, 10, true));
}

#[test]
fn cbf_many_dropped() {
    assert!(cbf(1000, 1000, 10, false));
}

#[test]
fn cbf_one_malicious_and_many_dropped() {
    assert!(!cbf(100, 1000, 10, true));
}

#[test]
fn iblt_many_dropped_without_ilp_solver() {
    assert!(iblt(1000, 1000, 10, false));
}

#[test]
fn iblt_one_malicious_and_many_dropped() {
    assert!(!iblt(100, 1000, 10, true));
}
