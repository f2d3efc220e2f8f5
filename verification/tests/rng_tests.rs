use ereea::rng::SeedRng;

#[test]
fn draws_are_deterministic_per_seed() {
    let mut a = SeedRng::new(12345);
    let mut b = SeedRng::new(12345);
    for bound in [1usize, 2, 7, 50, 30, 1000] {
        assert_eq!(a.below(bound), b.below(bound));
    }
}

#[test]
fn draws_stay_below_their_bound() {
    let mut r = SeedRng::new(99);
    for _ in 0..200 {
        assert!(r.below(7) < 7);
        assert!(r.below(1) == 0);
        assert!(r.below(50) < 50);
    }
}

#[test]
fn different_seeds_give_different_streams() {
    let mut a = SeedRng::new(1);
    let mut b = SeedRng::new(2);
    let va: Vec<usize> = (0..16).map(|_| a.below(1000)).collect();
    let vb: Vec<usize> = (0..16).map(|_| b.below(1000)).collect();
    assert_ne!(va, vb);
}
