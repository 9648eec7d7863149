use hopfield::classic::energy;
use hopfield::classic::hebb_learn;
use hopfield::classic::initialize_weights;
use hopfield::classic::storkey_learn;
use hopfield::classic::update_state_async;
use hopfield::classic::update_state_sync;
use hopfield::smatrix::SMatrix;
use hopfield::threshold::activation;
use rand::Rng;
use std::cell::RefCell;

fn sample_weights() -> SMatrix<f64> {
    SMatrix::from_fn2(3, &|r, c| match (r, c) {
        (0, 1) => 1.,
        (0, 2) => -2.,
        (1, 2) => 3.,
        _ => 0.,
    })
}

#[test]
fn activation_is_a_hard_threshold() {
    assert_eq!(activation(0.5_f64, 0.5), 1.);
    assert_eq!(activation(0.49_f64, 0.5), -1.);
    assert_eq!(activation(-3_i32, -3), 1);
    assert_eq!(activation(-4_i32, -3), -1);
}

#[test]
fn sync_update_reads_one_snapshot() {
    let w = sample_weights();
    let input = vec![1., -1., 1.];
    let mut output = vec![0.; 3];
    update_state_sync(&w, &[0., 0., 0.], &input, &mut output);
    assert_eq!(output, vec![-1., 1., -1.]);

    update_state_sync(&w, &[-3., 5., -5.], &input, &mut output);
    assert_eq!(output, vec![1., -1., 1.]);
}

#[test]
fn sync_update_is_bounded_by_the_shortest_buffer() {
    let w = sample_weights();
    let mut short = vec![9.; 2];
    update_state_sync(&w, &[0., 0., 0.], &[1., -1., 1.], &mut short);
    assert_eq!(short, vec![-1., 1.]);

    let mut long = vec![9.; 5];
    update_state_sync(&w, &[0., 0., 0.], &[1., -1., 1.], &mut long);
    assert_eq!(long, vec![-1., 1., -1., 9., 9.]);

    let mut untouched = vec![9.; 3];
    update_state_sync(&w, &[], &[], &mut untouched);
    assert_eq!(untouched, vec![9.; 3]);
}

#[test]
fn async_update_reads_the_current_state() {
    let w = sample_weights();
    let bias = [0., 0., 0.];
    let mut state = vec![1., -1., 1.];
    update_state_async(&w, &bias, &mut state, 0);
    assert_eq!(state, vec![-1., -1., 1.]);
    update_state_async(&w, &bias, &mut state, 1);
    assert_eq!(state, vec![-1., 1., 1.]);
    update_state_async(&w, &bias, &mut state, 2);
    assert_eq!(state, vec![-1., 1., 1.]);
}

#[test]
fn energy_counts_every_pair_twice() {
    let w = sample_weights();
    let e = energy(&w, &[1., 2., 3.], &[1., -1., 1.]);
    assert_eq!(e, 10.);
    let none: f64 = energy(&w, &[], &[]);
    assert_eq!(none, 0.);
}

#[test]
fn energy_on_integers() {
    let w: SMatrix<i64> = SMatrix::from_fn2(2, &|r, c| if r == c { 0 } else { 4 });
    assert_eq!(energy(&w, &[1, 1], &[1, -1]), 8);
    assert_eq!(energy(&w, &[1, 1], &[1, 1]), -10);
}

#[test]
fn hebb_learn_adds_the_scaled_outer_product() {
    let mut w: SMatrix<f64> = SMatrix::from_fn2(4, &|r, c| if r == c { 7. } else { 0. });
    let p = [1., -1., 1., -1.];
    hebb_learn(&mut w, &p);
    for r in 0..4 {
        for c in 0..4 {
            let want = if r == c { 7. } else { 0.25 * p[r] * p[c] };
            assert_eq!(*w.get(r, c), want);
        }
    }
    hebb_learn(&mut w, &p);
    assert_eq!(*w.get(0, 1), -0.5);
    assert_eq!(*w.get(2, 0), 0.5);
    assert_eq!(*w.get(3, 3), 7.);
}

#[test]
fn storkey_learn_uses_the_fields_before_the_update() {
    let mut w: SMatrix<f64> = SMatrix::new(3, 0.);
    let p = [1., -1., 1.];
    storkey_learn(&mut w, &p, 0.5);
    assert_eq!(*w.get(0, 1), -0.5);
    assert_eq!(*w.get(0, 2), 0.5);
    assert_eq!(*w.get(1, 2), -0.5);
    assert_eq!(*w.get(1, 0), -0.5);

    storkey_learn(&mut w, &p, 0.5);
    assert_eq!(*w.get(0, 1), 0.);
    assert_eq!(*w.get(0, 2), 0.);
    assert_eq!(*w.get(1, 2), 0.);
    for r in 0..3 {
        assert_eq!(*w.get(r, r), 0.);
    }
}

#[test]
fn storkey_learn_on_integers() {
    let mut w: SMatrix<i64> = SMatrix::from_fn2(2, &|r, c| if r == c { 0 } else { 2 });
    storkey_learn(&mut w, &[1, -1], 3);
    // h = [-2, 2]; term = 3 * (-1 - 1*2 - (-2)*(-1)) = -15
    assert_eq!(*w.get(0, 1), -13);
    assert_eq!(*w.get(1, 0), -13);
    assert_eq!(*w.get(0, 0), 0);
}

#[test]
fn learning_keeps_the_diagonal_and_the_symmetry() {
    let mut w: SMatrix<f64> = SMatrix::from_fn2(6, &|r, c| if r == c { 1.5 } else { 0. });
    let patterns = [
        [1., -1., 1., -1., 1., -1.],
        [1., 1., 1., -1., -1., -1.],
        [-1., 1., 1., 1., -1., 1.],
    ];
    for round in 0..4 {
        for p in patterns.iter() {
            if round % 2 == 0 {
                hebb_learn(&mut w, p);
            } else {
                storkey_learn(&mut w, p, 0.01);
            }
        }
    }
    let mut moved = false;
    for r in 0..6 {
        assert_eq!(*w.get(r, r), 1.5);
        for c in 0..6 {
            assert_eq!(*w.get(r, c), *w.get(c, r));
            if r != c && *w.get(r, c) != 0. {
                moved = true;
            }
        }
    }
    assert!(moved);
}

#[test]
fn initialize_weights_clears_the_diagonal_and_draws_the_rest() {
    let rng = RefCell::new(rand::rng());
    let amount = 0.1_f64;
    let mut w: SMatrix<f64> = SMatrix::new(20, 5.);
    initialize_weights(&mut w, &|| rng.borrow_mut().random_range(-amount..amount));
    let mut distinct = false;
    for r in 0..20 {
        assert_eq!(*w.get(r, r), 0.);
        for c in 0..20 {
            assert_eq!(*w.get(r, c), *w.get(c, r));
            if r != c {
                assert!(*w.get(r, c) >= -amount && *w.get(r, c) <= amount);
                if *w.get(r, c) != *w.get(0, 1) {
                    distinct = true;
                }
            }
        }
    }
    assert!(distinct);
}

#[test]
fn initialize_weights_draws_once_for_each_pair() {
    let calls = RefCell::new(0i32);
    let mut w: SMatrix<i32> = SMatrix::new(4, -1);
    initialize_weights(&mut w, &|| {
        *calls.borrow_mut() += 1;
        *calls.borrow()
    });
    assert_eq!(*calls.borrow(), 6);
    assert_eq!(*w.get(0, 1), 1);
    assert_eq!(*w.get(0, 3), 3);
    assert_eq!(*w.get(1, 2), 4);
    assert_eq!(*w.get(3, 2), 6);
    assert_eq!(*w.get(2, 2), 0);
}

#[test]
fn a_stored_pattern_is_a_fixed_point() {
    let p = [1., -1., 1., 1., -1., -1., 1., -1.];
    let mut w: SMatrix<f64> = SMatrix::new(8, 0.);
    hebb_learn(&mut w, &p);
    let mut probe = p.to_vec();
    probe[2] = -1.;
    let mut out = vec![0.; 8];
    update_state_sync(&w, &[0.; 8], &probe, &mut out);
    assert_eq!(out, p.to_vec());
}
