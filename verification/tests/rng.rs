use tensor_graph::rng::Rng;

#[test]
fn matches_the_reference_implementation() {
    let mut r = Rng::from_state([1, 2, 3, 4]);
    assert_eq!(r.next_u64(), 41_943_041);
    assert_eq!(r.next_u64(), 58_720_359);
    assert_eq!(r.next_u64(), 3_588_806_011_781_223);
    assert_eq!(r.next_u64(), 3_591_011_842_654_386);
}

#[test]
fn seeding_matches_the_reference_splitmix64() {
    let mut r = Rng::new(42);
    assert_eq!(r.next_u64(), 15_021_278_609_987_233_951);
}

#[test]
fn a_seed_is_reproducible_and_seeds_differ() {
    let mut a = Rng::new(42);
    let mut b = Rng::new(42);
    let mut c = Rng::new(43);
    let x = a.next_u64();
    assert_eq!(x, b.next_u64());
    assert_ne!(x, c.next_u64());
}

#[test]
fn zero_state_stays_zero() {
    let mut r = Rng::from_state([0, 0, 0, 0]);
    assert_eq!(r.next_u64(), 0);
    assert_eq!(r.next_u64(), 0);
}

#[test]
fn streams_from_one_seed_agree_for_many_steps() {
    let mut a = Rng::new(7);
    let mut b = Rng::new(7);
    for _ in 0..1000 {
        assert_eq!(a.next_u64(), b.next_u64());
    }
}
