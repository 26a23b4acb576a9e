use atom_hash::xorshift::Rng;

#[test]
fn test1() {
    let mut rng1 = Rng::new(1);
    let mut rng2 = Rng::new(2);
    for _ in 1..1000 {
        assert_ne!(rng1.rand(), rng2.rand());
    }
}

#[test]
fn rng_first_draw_from_one() {
    let mut rng = Rng::new(1);
    assert_eq!(rng.rand(), 270369);
    assert_eq!(rng.get_state(), 270369);
    assert_eq!(rng.get_iteration(), 1);
}

#[test]
fn rng_bounded_draw() {
    let mut rng = Rng::new(1);
    assert_eq!(rng.get_random(10), 9);
    assert_eq!(rng.get_iteration(), 1);
}

#[test]
fn rng_reseed_keeps_count() {
    let mut rng = Rng::new(5);
    let _ = rng.rand();
    let _ = rng.rand();
    rng.seed(1);
    assert_eq!(rng.get_state(), 1);
    assert_eq!(rng.get_iteration(), 2);
    assert_eq!(rng.rand(), 270369);
}
