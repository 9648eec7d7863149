use hopfield::dmatrix::DMatrix;
use hopfield::modern::activation;
use hopfield::modern::energy;
use hopfield::modern::learn;
use hopfield::modern::lse;
use hopfield::modern::update_state_sync;
use hopfield::state::State;

#[test]
fn learned_patterns_are_added() {
    let mut m = DMatrix::new(1, 4, 0.);
    let p1: Vec<f64> = vec![1.; 4];
    let p2: Vec<f64> = vec![2.; 4];

    learn(&mut m, &p1);
    learn(&mut m, &p2);

    for c in 0..4 {
        assert_eq!(*m.get(0, c), 0.);
    }
    for c in 0..4 {
        assert_eq!(*m.get(1, c), 1.);
    }
    for c in 0..4 {
        assert_eq!(*m.get(2, c), 2.);
    }
}

#[test]
fn can_recall_pattern() {
    let mut m = DMatrix::new(1, 8, 0.);
    let p: Vec<f64> = vec![1., 1., -1., -1., 1., 1., -1., -1.];
    let a: Vec<f64> = vec![1., 0., -1., 0., 0., 1., 0., 0.];
    let mut output: Vec<f64> = vec![0.; 8];

    learn(&mut m, &p);

    update_state_sync(&m, &a, &mut output, &|x: f64| x.exp(), f64::EPSILON);

    println!("output: {:?}", output);
    for i in 0..8 {
        assert_eq!(output[i], p[i]);
    }
}

#[test]
fn recall_from_an_initially_empty_store() {
    let mut m: DMatrix<f64> = DMatrix::new(0, 8, 0.);
    let p: Vec<f64> = vec![1., -1., -1., 1., 1., -1., 1., -1.];
    let a: Vec<f64> = vec![1., -1., 0., 0., 1., 0., 0., 0.];
    let mut output: Vec<f64> = vec![0.; 8];
    learn(&mut m, &p);
    update_state_sync(&m, &a, &mut output, &|x: f64| x.exp(), f64::EPSILON);
    assert_eq!(output, p);
}

#[test]
fn recall_picks_the_closest_exemplar() {
    let mut m: DMatrix<f64> = DMatrix::new(0, 4, 0.);
    learn(&mut m, &[1., 1., 1., 1.]);
    learn(&mut m, &[-1., -1., 1., 1.]);
    let mut output = vec![0.; 4];
    update_state_sync(&m, &[-1., -1., 0., 1.], &mut output, &|x: f64| x.exp(), f64::EPSILON);
    assert_eq!(output, vec![-1., -1., 1., 1.]);
}

#[test]
fn activation_takes_the_sign() {
    let mut v = vec![0.5, -0.5, 0., -3.];
    activation(&mut v);
    assert_eq!(v, vec![1., -1., 1., -1.]);
}

#[test]
fn softmax_normalizes() {
    let mut v = vec![0.0_f64, 0.0];
    v.softmax(&|x: f64| x.exp(), f64::EPSILON);
    assert_eq!(v, vec![0.5, 0.5]);

    let mut w = vec![1.0_f64, 2.0, 3.0];
    w.softmax(&|x: f64| x.exp(), f64::EPSILON);
    let sum: f64 = w.iter().sum();
    assert!((sum - 1.).abs() < 1e-12);
    assert!((w[2] - 0.6652409557748219).abs() < 1e-12);
    assert!((w[0] - 0.09003057317038046).abs() < 1e-12);
}

#[test]
fn softmax_leaves_raw_exponentials_when_the_sum_vanishes() {
    let mut v = vec![-1000.0_f64, -2000.0];
    v.softmax(&|x: f64| x.exp(), f64::EPSILON);
    assert_eq!(v, vec![0., 0.]);

    let mut e: Vec<f64> = Vec::new();
    e.softmax(&|x: f64| x.exp(), f64::EPSILON);
    assert!(e.is_empty());
}

#[test]
fn softmax_on_integers_with_a_given_exponential() {
    let mut v: Vec<i64> = vec![1, 2, 3];
    v.softmax(&|x: i64| 10 * x, 0);
    assert_eq!(v, vec![0, 0, 0]);
    let mut w: Vec<i64> = vec![6];
    w.softmax(&|x: i64| x, 10);
    assert_eq!(w, vec![6]);
    let mut u: Vec<i64> = vec![6];
    u.softmax(&|x: i64| x, 5);
    assert_eq!(u, vec![1]);
}

#[test]
fn error_norm_compares_with_the_pattern() {
    let same = vec![1.0_f64, -1., 1., -1.];
    assert_eq!(same.error_norm(&[1., -1., 1., -1.], f64::EPSILON), 0.);
    assert_eq!(same.error_norm(&[-1., 1., -1., 1.], f64::EPSILON), 2.);
    assert_eq!(same.error_norm(&[1., 1., 1., 1.], f64::EPSILON), 1.);
    assert_eq!(same.error_norm(&[2., -2.], f64::EPSILON), 0.);
    assert_eq!(same.error_norm(&[1., -1., 1., 1.], f64::EPSILON), 0.5);
}

#[test]
fn error_norm_of_a_zero_pattern_is_zero() {
    let state = vec![1.0_f64, -1., 1.];
    assert_eq!(state.error_norm(&[0., 0., 0.], f64::EPSILON), 0.);
    assert_eq!(state.error_norm(&[], f64::EPSILON), 0.);
    let empty: Vec<f64> = Vec::new();
    assert_eq!(empty.error_norm(&[1., 1.], f64::EPSILON), 0.);
}

#[test]
fn lse_is_the_log_of_the_sum_of_exponentials() {
    let r = lse(2.0_f64, &[0., 0.], &|x: f64| x.exp(), &|x: f64| x.ln());
    assert!((r - 0.34657359027997264).abs() < 1e-12);
    let one = lse(1.0_f64, &[3.], &|x: f64| x.exp(), &|x: f64| x.ln());
    assert!((one - 3.).abs() < 1e-12);
}

#[test]
fn energy_is_pinned() {
    let mut m: DMatrix<f64> = DMatrix::new(1, 2, 0.);
    learn(&mut m, &[1., 2.]);
    let e = energy(&m, &[3., 1.], &|x: f64| x.exp(), &|x: f64| x.ln());
    let want = -(1.0_f64.exp() + 2.0_f64.exp());
    assert!((e - want).abs() < 1e-9);
    assert!((e + 10.107337927389695).abs() < 1e-9);
}
