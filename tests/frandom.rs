use randbench::frandom::{next_rand, GlobalRng, LocalRng, INCREMENT, MULTIPLIER};

#[test]
fn test_global_rng() {
    let rng = GlobalRng::new();
    let mut last = 0;
    for _ in 0..100 {
        let cur = rng.random();
        assert!(cur != last);
        last = cur;
    }
}

#[test]
fn frandom_test_global_rng() {
    let rng = GlobalRng::from_seed(GlobalRng::STD_SEED);
    let mut last = 0;
    for _ in 0..100 {
        let cur = rng.random();
        assert!(cur != last);
        last = cur;
    }
}

#[test]
fn next_rand_is_one_step() {
    assert_eq!(next_rand(0), INCREMENT);
    assert_eq!(next_rand(1), MULTIPLIER.wrapping_add(INCREMENT));
    assert_eq!(next_rand(1), 2862933558814942250);
    assert_eq!(next_rand(u64::MAX), INCREMENT.wrapping_sub(MULTIPLIER));
}

#[test]
fn global_rng_installs_each_step() {
    let rng = GlobalRng::from_seed(0);
    assert_eq!(rng.random(), 3037000493);
    assert_eq!(rng.random(), 7130919190303094438);
}

#[test]
fn global_rng_default_uses_std_seed() {
    let a = GlobalRng::default();
    let b = GlobalRng::new();
    assert_eq!(a.random(), 7259739503297971805);
    assert_eq!(b.random(), 7259739503297971805);
}

#[test]
fn local_rng_seeded_from_two_draws() {
    let global = GlobalRng::new();
    let mut first = global.local_rng();
    let mut second = global.local_rng();
    assert_eq!(first.random(), 13555220483266718539);
    assert_eq!(second.random(), 1618626547298544007);
    let a: Vec<u64> = (0..8).map(|_| first.random()).collect();
    let b: Vec<u64> = (0..8).map(|_| second.random()).collect();
    assert_ne!(a, b);
}

#[test]
fn local_rng_from_draws_xors_them() {
    let mut rng = LocalRng::from_draws(7259739503297971805, 15610065271740722454);
    assert_eq!(rng.random(), 13555220483266718539);
    let mut same = LocalRng::from_draws(5, 5);
    assert_eq!(same.random(), 0);
}

#[test]
fn local_rng_new_takes_one_draw() {
    let global = GlobalRng::new();
    let mut rng = LocalRng::new(&global);
    assert_eq!(rng.random(), 7259739503297971805);
    assert_eq!(global.random(), 15610065271740722454);
}

#[test]
fn local_rng_hands_out_state_then_steps() {
    let mut rng = LocalRng::from_seed(1);
    assert_eq!(rng.random(), 1);
    assert_eq!(rng.random(), 2862933558814942250);
    assert_eq!(rng.random(), 11788423209769308335);
    let mut last = rng.random();
    for _ in 0..100 {
        let cur = rng.random();
        assert!(cur != last);
        last = cur;
    }
}

#[test]
fn shared_rng_draws_are_distinct() {
    let rng = GlobalRng::from_seed(42);
    let mut all: Vec<u64> = (0..4000).map(|_| rng.random()).collect();
    all.sort();
    all.dedup();
    assert_eq!(all.len(), 4000);
}
