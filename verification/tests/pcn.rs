use hopfield::pcn::PCN;
use hopfield::state::State;

fn tanh(x: f64) -> f64 {
    x.tanh()
}

fn identity(x: f64) -> f64 {
    x
}

#[test]
fn can_set_sensor_value() {
    let mut pcn = PCN::new(2, 4, 8, tanh, f64::EPSILON);
    let s = vec![1., 1., -1., -1., 1., 1., -1., -1.];

    pcn.sensors_mut().copy_from(&s);

    for i in 0..8 {
        assert_eq!(pcn.sensors()[i], s[i]);
    }
}

#[test]
fn can_learn_a_pattern() {
    const SENSORS: usize = 16;
    const MEMORY: usize = 8;

    let mut pcn = PCN::new(3, MEMORY, SENSORS, tanh, f64::EPSILON);
    let mut s = vec![0.; SENSORS];
    let mut m = vec![0.; MEMORY];

    for i in 0..SENSORS {
        s[i] = if i % 2 == 0 { 1. } else { -1. };
    }
    for i in 0..MEMORY {
        m[i] = if i % 2 == 0 { 1. } else { -1. };
    }

    const T: usize = 1000;
    const U: usize = 10;
    const GAMMA: f64 = 0.1;
    const ALPHA: f64 = 0.1;

    for _i in 0..U {
        pcn.inference(&m, &s, GAMMA, T);
        pcn.learn(ALPHA);
    }

    let mut pattern = vec![0.; SENSORS];
    for i in 0..(SENSORS / 2) {
        pattern[i] = if i % 2 == 0 { 1. } else { -1. };
    }

    pcn.memory_mut().copy_from(&m);
    pcn.sensors_mut().copy_from(&pattern);

    pcn.inference_with_sensors(&m, &pattern, GAMMA, T);

    for i in 0..SENSORS {
        assert!((pcn.sensors()[i] - s[i]).abs() < 0.1);
    }

    assert!(pcn.global_error() < 0.1);
}

#[test]
fn will_not_recall_pattern_it_hasnt_learned() {
    const SENSORS: usize = 16;
    const MEMORY: usize = 8;

    let mut pcn = PCN::new(2, MEMORY, SENSORS, tanh, f64::EPSILON);
    let mut s = vec![0.; SENSORS];
    let mut m = vec![0.; MEMORY];

    for i in 0..SENSORS {
        s[i] = if i < (SENSORS / 2) { 1. } else { -1. };
    }
    for i in 0..MEMORY {
        m[i] = if i % 2 == 0 { 1. } else { -1. };
    }

    const T: usize = 1000;
    const U: usize = 10;
    const GAMMA: f64 = 0.1;
    const ALPHA: f64 = 0.1;

    for _i in 0..U {
        pcn.inference(&m, &s, GAMMA, T);
        pcn.learn(ALPHA);
    }

    let mut pattern = vec![0.; SENSORS];
    for i in 0..(SENSORS / 2) {
        pattern[i] = if i % 2 == 0 { 1. } else { -1. };
    }

    pcn.inference_with_sensors(&m, &pattern, GAMMA, T);

    pcn.memory_mut().copy_from(&m);
    pcn.error(&s);

    assert!(pcn.global_error() >= 5.0);
}

#[test]
fn a_new_network_is_at_rest() {
    let pcn = PCN::new(4, 3, 5, tanh, f64::EPSILON);
    assert_eq!(pcn.layers(), 4);
    assert_eq!(pcn.sensors(), &[0.; 5]);
    assert_eq!(pcn.memory(), &[0.; 3]);
    for i in 0..4 {
        let width = if i == 0 { 5 } else { 3 };
        assert_eq!(pcn.neurons(i), vec![0.; width].as_slice());
        assert_eq!(pcn.predictions(i), vec![0.; width].as_slice());
        assert_eq!(pcn.errors(i), vec![0.; width].as_slice());
    }
    for i in 0..3 {
        let rows = if i == 0 { 5 } else { 3 };
        assert_eq!(pcn.weights(i).rows(), rows);
        assert_eq!(pcn.weights(i).cols(), 3);
        for r in 0..rows {
            for c in 0..3 {
                assert_eq!(*pcn.weights(i).get(r, c), 0.);
            }
        }
    }
    assert_eq!(pcn.global_error(), 0.);
}

#[test]
fn error_treats_a_zero_sensor_as_missing() {
    let mut pcn = PCN::new(2, 2, 3, identity, f64::EPSILON);
    pcn.sensors_mut().copy_from(&[4., 5., 6.]);
    pcn.memory_mut().copy_from(&[1., 2.]);
    pcn.prediction(&[0.5, 0.5]);
    assert_eq!(pcn.predictions(1), &[0.5, 0.5]);
    assert_eq!(pcn.predictions(0), &[0., 0., 0.]);
    pcn.error(&[1., 0., -1.]);
    assert_eq!(pcn.errors(0), &[1., 5., -1.]);
    assert_eq!(pcn.errors(1), &[0.5, 1.5]);
    assert_eq!(pcn.global_error(), 0.5 * (1. + 25. + 1. + 0.25 + 2.25));
}

#[test]
fn learn_corrects_weights_and_memory() {
    let mut pcn = PCN::new(2, 2, 3, identity, f64::EPSILON);
    pcn.inference(&[1., 2.], &[1., -1., 0.5], 0.25, 0);
    assert_eq!(pcn.sensors(), &[1., -1., 0.5]);
    assert_eq!(pcn.memory(), &[1., 2.]);
    pcn.prediction(&[3., 2.]);
    pcn.error(&[1., -1., 0.5]);
    assert_eq!(pcn.errors(0), &[1., -1., 0.5]);
    assert_eq!(pcn.errors(1), &[-2., 0.]);
    pcn.learn(0.5);
    let w = pcn.weights(0);
    assert_eq!(*w.get(0, 0), 0.5);
    assert_eq!(*w.get(0, 1), -0.5);
    assert_eq!(*w.get(1, 0), -0.5);
    assert_eq!(*w.get(1, 1), 0.5);
    assert_eq!(*w.get(2, 0), 0.25);
    assert_eq!(*w.get(2, 1), -0.25);
    assert_eq!(pcn.memory(), &[2., 2.]);
    assert_eq!(pcn.sensors(), &[1., -1., 0.5]);
}

#[test]
fn inference_steps_move_hidden_and_missing_sensor_neurons() {
    let mut pcn = PCN::new(2, 2, 3, identity, f64::EPSILON);
    pcn.inference(&[1., 2.], &[1., -1., 0.5], 0.25, 0);
    pcn.prediction(&[3., 2.]);
    pcn.error(&[1., -1., 0.5]);
    pcn.learn(0.5);
    // weights: [[.5, -.5], [-.5, .5], [.25, -.25]]; memory [2, 2]
    pcn.prediction(&[2., 2.]);
    assert_eq!(pcn.predictions(0), &[0., 0., 0.]);
    pcn.error(&[1., 0., 0.5]);
    assert_eq!(pcn.errors(0), &[1., -1., 0.5]);
    assert_eq!(pcn.errors(1), &[0., 0.]);

    pcn.inference_sensor_step(&[1., 0., 0.5], 0.25);
    assert_eq!(pcn.sensors(), &[1., -0.75, 0.5]);

    // back-projected sensor error: [.5 + .5 + .125, -.5 - .5 - .125]
    // slope of the identity at 2: 1 - 4 = -3
    pcn.inference_step(0.25);
    assert_eq!(pcn.memory(), &[2. + 0.25 * (-3. * 1.125), 2. + 0.25 * (-3. * -1.125)]);
    assert_eq!(pcn.sensors(), &[1., -0.75, 0.5]);
}

#[test]
fn inference_keeps_the_sensor_layer_clamped() {
    let mut pcn = PCN::new(3, 4, 6, tanh, f64::EPSILON);
    let s = [1., -1., 1., -1., 1., -1.];
    let m = [1., -1., 1., -1.];
    pcn.inference(&m, &s, 0.1, 50);
    pcn.learn(0.1);
    pcn.inference(&m, &s, 0.1, 50);
    assert_eq!(pcn.sensors(), &s);
}

#[test]
fn filling_in_keeps_the_observed_sensors() {
    let mut pcn = PCN::new(3, 4, 6, tanh, f64::EPSILON);
    let s = [1., -1., 1., -1., 1., -1.];
    let m = [1., -1., 1., -1.];
    for _round in 0..5 {
        pcn.inference(&m, &s, 0.1, 100);
        pcn.learn(0.1);
    }
    let probe = [1., -1., 1., 0., 0., 0.];
    pcn.inference_with_sensors(&m, &probe, 0.1, 100);
    assert_eq!(&pcn.sensors()[..3], &probe[..3]);
    assert!(pcn.sensors()[3] != 0.);
}
