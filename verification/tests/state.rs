use hopfield::state::State;
use rand::Rng;
use std::cell::RefCell;

#[test]
fn from_bits_works() {
    let v: u32 = 0b0011;
    let mut u = vec![0.0; 8];

    u.from_bits(16, v);

    assert_eq!(u[0], 1.);
    assert_eq!(u[1], 1.);
    assert_eq!(u[2], -1.);
    assert_eq!(u[3], -1.);
}

#[test]
fn from_bits_with_mask_works() {
    let v: u32 = 0b1101;
    let m: u32 = 0b1011;
    let mut u = vec![0.0; 8];

    u.from_bits_with_mask(16, v, m);

    assert_eq!(u[0], 1.);
    assert_eq!(u[1], -1.);
    assert_eq!(u[2], 0.);
    assert_eq!(u[3], 1.);
}

#[test]
fn decay_decreases_value() {
    let mut v = vec![10.0_f64; 8];

    v.decay(0.5);

    for i in 0..8 {
        assert!(v[i] < 10.0);
    }
}

#[test]
fn add_pattern() {
    let mut v = vec![1.0_f64; 8];
    let p = vec![1.0_f64, 2.0, 3.0, 4.0, 5.0, 6.0, 7.0, 8.0];

    v.add_pattern(&p, 0.5);

    for i in 0..8 {
        assert_eq!(v[i], 1.0 + ((i as f64) + 1.0) * 0.5);
    }
}

#[test]
fn add_noise_is_bounded() {
    let mut v = vec![1.0_f64; 10000];
    let rng = RefCell::new(rand::rng());

    v.add_noise(&|| rng.borrow_mut().random_range(-1.0..1.0));

    for i in 0..8 {
        assert!(v[i] <= 2.0);
        assert!(v[i] >= 0.0);
    }
}

#[test]
fn add_noise_stays_within_the_amount_everywhere() {
    let amount = 0.25_f64;
    let mut v = vec![3.0_f64; 2000];
    let rng = RefCell::new(rand::rng());

    v.add_noise(&|| rng.borrow_mut().random_range(-amount..amount));

    for x in v.iter() {
        assert!(*x >= 3.0 - amount);
        assert!(*x <= 3.0 + amount);
    }
    assert!(v.iter().any(|x| *x != 3.0));
}

#[test]
fn add_noise_draws_once_per_entry() {
    let calls = RefCell::new(0i64);
    let mut v: Vec<i64> = vec![10, 20, 30];
    v.add_noise(&|| {
        *calls.borrow_mut() += 1;
        *calls.borrow()
    });
    assert_eq!(v, vec![11, 22, 33]);
    assert_eq!(*calls.borrow(), 3);
}

#[test]
fn from_bits_fills_all_eight_slots() {
    let mut u = vec![0.0; 8];
    u.from_bits(16, 0b0011u32);
    assert_eq!(u, vec![1., 1., -1., -1., -1., -1., -1., -1.]);

    let mut w = vec![0.0; 8];
    w.from_bits_with_mask(16, 0b1101u32, 0b1011u32);
    assert_eq!(w, vec![1., -1., 0., 1., 0., 0., 0., 0.]);
}

#[test]
fn from_bits_leaves_the_rest_untouched() {
    let mut u: Vec<i32> = vec![7; 6];
    u.from_bits(3, 0b101u8);
    assert_eq!(u, vec![1, -1, 1, 7, 7, 7]);

    let mut w: Vec<i32> = vec![7; 6];
    w.from_bits(0, u64::MAX);
    assert_eq!(w, vec![7; 6]);
}

#[test]
fn from_bits_beyond_the_word_reads_zero_bits() {
    let mut u: Vec<i32> = vec![0; 70];
    u.from_bits(70, u64::MAX);
    for i in 0..64 {
        assert_eq!(u[i], 1);
    }
    for i in 64..70 {
        assert_eq!(u[i], -1);
    }
    let mut w: Vec<i32> = vec![5; 70];
    w.from_bits_with_mask(70, u64::MAX, u64::MAX);
    for i in 64..70 {
        assert_eq!(w[i], 0);
    }
    assert_eq!(w[63], 1);
}

#[test]
fn from_bits_beyond_a_narrow_word_reads_zero_bits() {
    let mut u: Vec<i32> = vec![0; 12];
    u.from_bits(12, u8::MAX);
    for i in 0..8 {
        assert_eq!(u[i], 1);
    }
    for i in 8..12 {
        assert_eq!(u[i], -1);
    }
}

#[test]
fn from_bits_reads_the_top_bit() {
    let mut u: Vec<i64> = vec![0; 64];
    u.from_bits(64, 1u64 << 63);
    for i in 0..63 {
        assert_eq!(u[i], -1);
    }
    assert_eq!(u[63], 1);
}

#[test]
fn copy_from_truncates_silently() {
    let mut short = vec![0.0_f64; 3];
    short.copy_from(&[1., 2., 3., 4., 5.]);
    assert_eq!(short, vec![1., 2., 3.]);

    let mut long = vec![9.0_f64; 5];
    long.copy_from(&[1., 2.]);
    assert_eq!(long, vec![1., 2., 9., 9., 9.]);

    let mut same = vec![9.0_f64; 2];
    same.copy_from(&[]);
    assert_eq!(same, vec![9., 9.]);
}

#[test]
fn copy_from_twice_is_copy_from_once() {
    let x = vec![0.5_f64, -1.5, 2.5];
    let mut once = vec![7.0_f64; 5];
    once.copy_from(&x);
    let mut twice = vec![7.0_f64; 5];
    twice.copy_from(&x);
    twice.copy_from(&x);
    assert_eq!(once, twice);
}

#[test]
fn copy_from_works_on_a_borrowed_slice() {
    let mut store = [0i32; 4];
    let view: &mut [i32] = &mut store;
    view.copy_from(&[4, 3]);
    assert_eq!(store, [4, 3, 0, 0]);
}

#[test]
fn decay_scales_every_entry() {
    let mut v: Vec<i32> = vec![1, -2, 3];
    v.decay(-3);
    assert_eq!(v, vec![-3, 6, -9]);
    let mut e: Vec<i32> = Vec::new();
    e.decay(2);
    assert!(e.is_empty());
}

#[test]
fn add_pattern_covers_the_common_prefix() {
    let mut v: Vec<i32> = vec![1, 1, 1, 1];
    v.add_pattern(&[10, 20], 3);
    assert_eq!(v, vec![31, 61, 1, 1]);
    let mut w: Vec<i32> = vec![1, 1];
    w.add_pattern(&[10, 20, 30, 40], 2);
    assert_eq!(w, vec![21, 41]);
}
