use patina_guest::prng::Prng;

#[test]
fn splitmix_reference_stream_from_zero() {
    let mut rng = Prng(0);
    assert_eq!(rng.next(), 0xe220a8397b1dcdaf);
    assert_eq!(rng.next(), 0x6e789e6aa1b965f4);
    assert_eq!(rng.next(), 0x06c45d188009454f);
}

#[test]
fn splitmix_reference_stream_and_state() {
    let mut rng = Prng(1234567);
    let drawn: Vec<u64> = (0..5).map(|_| rng.next()).collect();
    assert_eq!(
        drawn,
        vec![
            6457827717110365317,
            3203168211198807973,
            9817491932198370423,
            4593380528125082431,
            16408922859458223821,
        ]
    );
    assert_eq!(rng.0, 0x1715609f7c8742f0);
}

#[test]
fn same_seed_same_stream() {
    let mut a = Prng(99);
    let mut b = Prng(99);
    for _ in 0..100 {
        assert_eq!(a.next(), b.next());
    }
}

#[test]
fn draws_do_not_repeat_early() {
    let mut rng = Prng(5);
    let mut drawn: Vec<u64> = (0..2000).map(|_| rng.next()).collect();
    drawn.sort();
    drawn.dedup();
    assert_eq!(drawn.len(), 2000);
}

#[test]
fn ranges_hold_and_are_covered() {
    let mut rng = Prng(42);
    let drawn: Vec<u64> = (0..8).map(|_| rng.range(10, 20)).collect();
    assert_eq!(drawn, vec![19, 15, 12, 11, 12, 19, 17, 12]);
    let mut seen = vec![false; 11];
    for _ in 0..1000 {
        let v = rng.range(10, 20);
        assert!((10..=20).contains(&v));
        seen[(v - 10) as usize] = true;
    }
    assert!(seen.iter().all(|s| *s));
}

#[test]
fn range_of_one_value_and_widest_range() {
    let mut rng = Prng(3);
    assert_eq!(rng.range(7, 7), 7);
    assert_eq!(rng.range(u64::MAX, u64::MAX), u64::MAX);
    let before = Prng(rng.0).next();
    assert_eq!(rng.range(0, u64::MAX - 1), before % u64::MAX);
    let before = Prng(rng.0).next();
    assert_eq!(rng.range(0, u64::MAX), before);
}

#[test]
fn chances() {
    let mut rng = Prng(42);
    for _ in 0..8 {
        rng.next();
    }
    let drawn: Vec<bool> = (0..8).map(|_| rng.chance(500)).collect();
    assert_eq!(drawn, vec![true, false, true, false, true, true, false, true]);
    for _ in 0..200 {
        assert!(!rng.chance(0));
        assert!(rng.chance(1000));
    }
}
