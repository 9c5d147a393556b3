use stair_core::rng::Rng;

#[test]
fn mulberry32_sequence_from_seed_1() {
    let mut r = Rng::new(1);
    assert_eq!(r.next_u32(), 2693262067);
    assert_eq!(r.next_u32(), 11749833);
    assert_eq!(r.next_u32(), 2265367787);
    assert_eq!(r.next_u32(), 4213581821);
}

#[test]
fn mulberry32_sequence_from_seed_42() {
    let mut r = Rng::new(42);
    assert_eq!(r.next_u32(), 2581720956);
    assert_eq!(r.next_u32(), 1925393290);
    assert_eq!(r.next_u32(), 3661312704);
    assert_eq!(r.next_u32(), 2876485805);
}

#[test]
fn seed_keeps_low_32_bits() {
    let mut a = Rng::new((1u64 << 32) + 1);
    let mut b = Rng::new(1);
    for _ in 0..8 {
        assert_eq!(a.next_u32(), b.next_u32());
    }
}

#[test]
fn same_seed_same_stream_other_seed_other_stream() {
    let draw = |seed: u64| {
        let mut r = Rng::new(seed);
        (0..16).map(|_| r.next_u32()).collect::<Vec<u32>>()
    };
    assert_eq!(draw(3), draw(3));
    assert_ne!(draw(3), draw(4));
}

#[test]
fn pick_of_one_draws_nothing() {
    let mut a = Rng::new(7);
    let mut b = Rng::new(7);
    assert_eq!(a.pick(&[9u8]), 9);
    assert_eq!(a.next_u32(), b.next_u32());
}

#[test]
fn pick_scales_the_draw_to_the_length() {
    // the first draw from seed 1 is 2693262067; 2693262067 * 5 / 2^32 = 3.13…
    let mut r = Rng::new(1);
    assert_eq!(r.pick(&[10, 11, 12, 13, 14]), 13);
    let mut r = Rng::new(1);
    let twelve: Vec<u32> = (0..12).collect();
    assert_eq!(r.pick(&twelve), 7);
    // a pick of several advances the generator by one draw
    let mut r = Rng::new(1);
    r.pick(&[1, 2]);
    assert_eq!(r.next_u32(), 11749833);
}

#[test]
fn pick_stays_in_range() {
    let mut r = Rng::new(99);
    let xs = [0usize, 1, 2];
    let mut seen = [false; 3];
    for _ in 0..200 {
        let x = r.pick(&xs);
        assert!(x < 3);
        seen[x] = true;
    }
    assert!(seen.iter().all(|s| *s));
}

#[test]
fn pick_on_a_long_slice_rounds_like_f64() {
    // first draw from seed 483 is 2874523733; 2874523733 / 2^32 * 8831747 in f64
    // rounds up to 5910887.0000…, where the exact quotient is 5910886.99…
    let xs: Vec<u32> = (0..8_831_747).collect();
    let mut r = Rng::new(483);
    assert_eq!(r.pick(&xs), 5_910_887);
}

#[test]
fn pick_index_matches_the_f64_formula() {
    let lens = [2usize, 3, 12, 1000, 2_097_153, 2_097_785, 8_831_747, 12_345_679];
    for (k, &n) in lens.iter().enumerate() {
        let xs: Vec<usize> = (0..n).collect();
        for seed in 0..50u64 {
            let mut twin = Rng::new(seed * 7919 + k as u64);
            let mut r = Rng::new(seed * 7919 + k as u64);
            let u = twin.next_u32();
            let expect = ((u as f64 / 4294967296.0 * n as f64) as usize).min(n - 1);
            assert_eq!(r.pick(&xs), expect);
        }
    }
}
