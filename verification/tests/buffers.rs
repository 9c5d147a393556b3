use stair_core::dsp::delay::{Delay, Quantum};
use stair_core::dsp::shaper::Ring;

#[test]
fn delay_capacity_is_a_power_of_two() {
    assert_eq!(Delay::new(0, 0.0f64).capacity(), 2);
    assert_eq!(Delay::new(2, 0.0f64).capacity(), 2);
    assert_eq!(Delay::new(5, 0.0f64).capacity(), 8);
    assert_eq!(Delay::new(1024, 0.0f64).capacity(), 1024);
    assert_eq!(Delay::new(1025, 0.0f64).capacity(), 2048);
    // 2.5 s at 48 kHz + 4
    assert_eq!(Delay::new(120004, 0.0f64).capacity(), 131072);
}

#[test]
fn delay_reads_back_what_was_pushed() {
    let mut d = Delay::new(8, 0i32);
    for x in 1..=5 {
        d.push(x);
    }
    let n = d.capacity();
    let w = d.write_pos();
    assert_eq!(w, 5);
    // k samples ago sits at w + n - k
    assert_eq!(d.at(w + n - 1), 5);
    assert_eq!(d.at(w + n - 3), 3);
    assert_eq!(d.at(w + n - 6), 0);
    for x in 6..=12 {
        d.push(x);
    }
    let w = d.write_pos();
    assert_eq!(w, 4);
    assert_eq!(d.at(w + n - 1), 12);
    assert_eq!(d.at(w + n - 8), 5);
}

#[test]
fn delay_clear_silences_and_rewinds() {
    let mut d = Delay::new(4, 0.0f64);
    d.push(1.0);
    d.push(2.0);
    d.clear(0.0);
    assert_eq!(d.write_pos(), 0);
    for i in 0..d.capacity() {
        assert_eq!(d.at(i), 0.0);
    }
}

#[test]
fn quantum_lags_by_128() {
    let mut q = Quantum::new(0i64);
    let outs: Vec<i64> = (1..=300).map(|x| q.process(x)).collect();
    assert!(outs[..128].iter().all(|y| *y == 0));
    for k in 128..300 {
        assert_eq!(outs[k], (k - 127) as i64);
    }
    q.clear(-1);
    assert_eq!(q.process(7), -1);
}

#[test]
fn ring_keeps_last_n() {
    let mut r = Ring::new(4, 0u32);
    assert_eq!(r.len(), 4);
    for x in 1..=10 {
        r.push(x);
    }
    assert_eq!(r.ago(0), 10);
    assert_eq!(r.ago(1), 9);
    assert_eq!(r.ago(3), 7);
}

use stair_core::dsp::wavetable::bit_reverse;

#[test]
fn bit_reversal_of_eight() {
    let mut v: Vec<u32> = (0..8).collect();
    bit_reverse(&mut v);
    assert_eq!(v, vec![0, 4, 2, 6, 1, 5, 3, 7]);
}

#[test]
fn bit_reversal_small_and_large() {
    let mut one = vec![5u8];
    bit_reverse(&mut one);
    assert_eq!(one, vec![5]);
    let mut two = vec![1u8, 2];
    bit_reverse(&mut two);
    assert_eq!(two, vec![1, 2]);
    let mut v: Vec<usize> = (0..2048).collect();
    bit_reverse(&mut v);
    for (i, x) in v.iter().enumerate() {
        assert_eq!(*x, i.reverse_bits() >> (usize::BITS - 11));
    }
}

#[test]
fn bit_reversal_twice_is_identity() {
    let orig: Vec<u64> = (0..4096).map(|i| i * 7 + 3).collect();
    let mut v = orig.clone();
    bit_reverse(&mut v);
    assert_ne!(v, orig);
    bit_reverse(&mut v);
    assert_eq!(v, orig);
}
