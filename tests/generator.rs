use quack::generator::{malicious_elem, LoadGeneratorExact, LoadGeneratorInner, SeedGenerator};

const SEED: Option<u64> = Some(1234);
const NUM_LOGGED: usize = 10000;

fn drain(g: &mut LoadGeneratorExact) -> Vec<Vec<u8>> {
    let mut processed = vec![];
    while let Some(elem) = g.next() {
        processed.push(elem);
    }
    processed
}

#[test]
fn no_elements_are_dropped_exact() {
    let mut g = LoadGeneratorExact::new(SEED, NUM_LOGGED, 0, false);
    let processed = drain(&mut g);
    assert_eq!(g.log().len(), g.num_logged());
    assert_eq!(g.num_logged(), NUM_LOGGED);
    assert_eq!(g.num_dropped(), 0);
    assert_eq!(processed.len(), g.num_logged() - g.num_dropped());
}

#[test]
fn all_elements_are_dropped_exact() {
    let mut g = LoadGeneratorExact::new(SEED, NUM_LOGGED, NUM_LOGGED, false);
    let processed = drain(&mut g);
    assert_eq!(g.log().len(), g.num_logged());
    assert_eq!(g.num_logged(), NUM_LOGGED);
    assert_eq!(g.num_dropped(), NUM_LOGGED);
    assert_eq!(processed.len(), g.num_logged() - g.num_dropped());
}

#[test]
fn some_elements_are_dropped_exact() {
    let mut g = LoadGeneratorExact::new(SEED, NUM_LOGGED, 100, false);
    let processed = drain(&mut g);
    assert_eq!(g.log().len(), g.num_logged());
    assert_eq!(g.num_logged(), NUM_LOGGED);
    assert_eq!(g.num_dropped(), 100);
    assert_eq!(processed.len(), g.num_logged() - g.num_dropped());
}

#[test]
fn malicious_element_is_generated_but_not_logged_exact() {
    let mut g = LoadGeneratorExact::new(SEED, NUM_LOGGED, 100, true);
    let processed = drain(&mut g);
    assert_eq!(g.log().len(), g.num_logged());
    assert_eq!(g.num_logged(), NUM_LOGGED);
    assert_eq!(g.num_dropped(), 100);
    assert!(!g.log().contains(&malicious_elem()));
    assert!(processed.contains(&malicious_elem()));
}

#[test]
fn malicious_element_is_not_dropped_exact() {
    let mut g = LoadGeneratorExact::new(SEED, 101, 100, true);
    let processed = drain(&mut g);
    assert_eq!(g.num_dropped(), 100);
    assert_eq!(processed.len(), 1);
}

#[test]
fn seed_load_generator_exact() {
    let mut g1 = LoadGeneratorExact::new(SEED, NUM_LOGGED, 0, false);
    let mut g2 = LoadGeneratorExact::new(SEED, NUM_LOGGED, 0, false);
    let mut g3 = LoadGeneratorExact::new(None, NUM_LOGGED, 0, false);
    let p1 = drain(&mut g1);
    let p2 = drain(&mut g2);
    let p3 = drain(&mut g3);
    assert_eq!(p1, p2);
    assert_ne!(p1, p3);
}

#[test]
fn test_seed_generator() {
    let mut g1 = SeedGenerator::new(Some(7));
    let mut g2 = SeedGenerator::new(Some(7));
    let mut g3 = SeedGenerator::new(None);
    let s1 = g1.next();
    assert!(s1.is_some());
    assert_eq!(s1, g2.next());
    assert_ne!(g1.next(), s1);
    assert!(g3.next().is_none());
}
