//! A predictive-coding network: a stack of layers in which every layer
//! predicts the activity of the layer below it, and both the hidden activity
//! and the weights move to reduce the prediction errors.
//!
//! Layer `0` is the sensor layer and the last layer is the memory layer.
//! The weights between layer `i` and layer `i + 1` have a row for each
//! neuron of layer `i` and a column for each neuron of layer `i + 1`.

use vstd::prelude::*;
use vstd::std_specs::convert::FromSpec;
use vstd::std_specs::ops::AddSpec;
use vstd::std_specs::ops::DivSpec;
use vstd::std_specs::ops::MulSpec;
use vstd::std_specs::ops::NegSpec;
use vstd::std_specs::ops::SubSpec;
use core::ops::Add;
use core::ops::Div;
use core::ops::Mul;
use core::ops::Neg;
use core::ops::Sub;
use crate::algebra::applied;
use crate::algebra::dot_defined;
use crate::algebra::is_function;
use crate::algebra::mapped;
use crate::algebra::obeys_field;
use crate::algebra::one;
use crate::algebra::zero;
use crate::dmatrix::back_project;
use crate::dmatrix::column_of;
use crate::dmatrix::project;
use crate::dmatrix::DMatrix;
use crate::state::filled;
use crate::state::magnitude;
use crate::state::magnitude_defined;
use crate::state::overwritten;
use crate::state::State;
use crate::threshold::at_most;
use crate::threshold::obeys_order;

verus! {

/// The state of a network as plain sequences: for every layer its neurons,
/// the prediction of them from above and the error of that prediction; for
/// every layer but the last the weights, row by row; the activation function
/// and the bound below which a sensor value counts as missing.
pub struct Layers<T, A> {
    pub weights: Seq<Seq<Seq<T>>>,
    pub neurons: Seq<Seq<T>>,
    pub predictions: Seq<Seq<T>>,
    pub errors: Seq<Seq<T>>,
    pub act: A,
    pub epsilon: T,
}

impl<T, A> Layers<T, A> {
    /// Number of layers.
    pub open spec fn depth(self) -> int {
        self.neurons.len() as int
    }

    /// Number of neurons in layer `i`.
    pub open spec fn width(self, i: int) -> int {
        self.neurons[i].len() as int
    }

    /// The three vectors of every layer have one length, and the weights
    /// below layer `i + 1` have a row for each neuron of layer `i` and a
    /// column for each neuron of layer `i + 1`.
    pub open spec fn shaped(self) -> bool {
        &&& self.depth() >= 2
        &&& self.predictions.len() == self.depth()
        &&& self.errors.len() == self.depth()
        &&& self.weights.len() == self.depth() - 1
        &&& forall|i: int|
            0 <= i < self.depth() ==> (#[trigger] self.predictions[i]).len() == self.width(i)
        &&& forall|i: int|
            0 <= i < self.depth() ==> (#[trigger] self.errors[i]).len() == self.width(i)
        &&& forall|i: int|
            0 <= i < self.depth() - 1 ==> (#[trigger] self.weights[i]).len() == self.width(i)
        &&& forall|i: int, r: int|
            0 <= i < self.depth() - 1 && 0 <= r < self.width(i) ==> (#[trigger] self.weights[i][r]).len()
                == self.width(i + 1)
    }
}

/// `a[j] - b[j]` for every entry of `a`.
pub open spec fn differences<T: Sub<Output = T>>(a: Seq<T>, b: Seq<T>) -> Seq<T> {
    Seq::new(a.len(), |j: int| a[j].sub_spec(b[j]))
}

/// A sensor value that counts as not observed: its magnitude is at most
/// `epsilon`.
pub open spec fn is_missing<T: Neg<Output = T> + PartialOrd + From<i8>>(x: T, epsilon: T) -> bool {
    at_most(magnitude(x), epsilon)
}

/// The sensor values where they are observed, and the network's own sensor
/// neurons where they are missing.
pub open spec fn observed<T: Neg<Output = T> + PartialOrd + From<i8>>(
    sensors: Seq<T>,
    neurons: Seq<T>,
    epsilon: T,
) -> Seq<T> {
    Seq::new(
        neurons.len(),
        |j: int|
            if is_missing(sensors[j], epsilon) {
                neurons[j]
            } else {
                sensors[j]
            },
    )
}

/// `a[j] - b[j]` may be computed for every entry of `a`.
pub open spec fn differences_defined<T: Sub<Output = T>>(a: Seq<T>, b: Seq<T>) -> bool {
    forall|j: int| 0 <= j < a.len() ==> (#[trigger] a[j]).sub_req(b[j])
}

/// Every step of `predicted(m, memory)` may be computed.
pub open spec fn prediction_defined<T: Add<Output = T> + Mul<Output = T> + From<i8>, A: Fn(T) -> T>(
    m: Layers<T, A>,
) -> bool {
    forall|i: int, r: int|
        0 <= i < m.depth() - 1 && 0 <= r < m.width(i) ==> dot_defined(
            zero::<T>(),
            #[trigger] m.weights[i][r],
            mapped(&m.act, m.neurons[i + 1]),
            m.width(i + 1),
        )
}

/// Every step of `with_errors(m, sensors)` may be computed.
pub open spec fn error_defined<
    T: Sub<Output = T> + Neg<Output = T> + PartialOrd + From<i8>,
    A,
>(m: Layers<T, A>, sensors: Seq<T>) -> bool {
    &&& forall|j: int| 0 <= j < m.width(0) ==> magnitude_defined(#[trigger] sensors[j])
    &&& differences_defined(observed(sensors, m.neurons[0], m.epsilon), m.predictions[0])
    &&& forall|i: int|
        1 <= i < m.depth() ==> differences_defined(#[trigger] m.neurons[i], m.predictions[i])
}

/// The state after the top-down pass: the prediction of the memory layer is
/// overwritten by `memory`, and every layer below is predicted from the
/// activated neurons of the layer above it.
pub open spec fn predicted<T: Add<Output = T> + Mul<Output = T> + From<i8>, A: Fn(T) -> T>(
    m: Layers<T, A>,
    memory: Seq<T>,
) -> Layers<T, A> {
    Layers {
        predictions: Seq::new(
            m.depth() as nat,
            |i: int|
                if i == m.depth() - 1 {
                    overwritten(m.predictions[i], memory)
                } else {
                    project(m.weights[i], mapped(&m.act, m.neurons[i + 1]))
                },
        ),
        ..m
    }
}

/// The state after the errors are taken: in the sensor layer, what is
/// observed minus what is predicted; in every other layer, the neurons
/// minus their prediction.
pub open spec fn with_errors<
    T: Sub<Output = T> + Neg<Output = T> + PartialOrd + From<i8>,
    A,
>(m: Layers<T, A>, sensors: Seq<T>) -> Layers<T, A> {
    Layers {
        errors: Seq::new(
            m.depth() as nat,
            |i: int|
                if i == 0 {
                    differences(observed(sensors, m.neurons[0], m.epsilon), m.predictions[0])
                } else {
                    differences(m.neurons[i], m.predictions[i])
                },
        ),
        ..m
    }
}

/// The slope of the activation at `x`: `1 - act(x) * act(x)`.
pub open spec fn slope<T: Sub<Output = T> + Mul<Output = T> + From<i8>, A: Fn(T) -> T>(
    act: &A,
    x: T,
) -> T {
    one::<T>().sub_spec(applied(act, x).mul_spec(applied(act, x)))
}

/// The slope of the activation at `x` may be computed.
pub open spec fn slope_defined<T: Sub<Output = T> + Mul<Output = T> + From<i8>, A: Fn(T) -> T>(
    act: &A,
    x: T,
) -> bool {
    &&& applied(act, x).mul_req(applied(act, x))
    &&& one::<T>().sub_req(applied(act, x).mul_spec(applied(act, x)))
}

/// Every step of `nudged(act, below, below_error, error, x, gamma)` may be
/// computed.
pub open spec fn nudge_defined<
    T: Add<Output = T> + Sub<Output = T> + Mul<Output = T> + Neg<Output = T> + From<i8>,
    A: Fn(T) -> T,
>(act: &A, below: Seq<Seq<T>>, below_error: Seq<T>, error: Seq<T>, x: Seq<T>, gamma: T) -> bool {
    let b = back_project(below, below_error, x.len() as int);
    &&& forall|c: int|
        0 <= c < x.len() ==> dot_defined(
            zero::<T>(),
            below_error,
            #[trigger] column_of(below, c),
            below.len() as int,
        )
    &&& forall|j: int|
        0 <= j < x.len() ==> {
            let pull = slope(act, #[trigger] x[j]).mul_spec(b[j]);
            let push = error[j].neg_spec();
            &&& slope_defined(act, x[j])
            &&& error[j].neg_req()
            &&& slope(act, x[j]).mul_req(b[j])
            &&& push.add_req(pull)
            &&& gamma.mul_req(push.add_spec(pull))
            &&& x[j].add_req(gamma.mul_spec(push.add_spec(pull)))
        }
}

/// Every step of `hidden_step(m, gamma)` may be computed.
pub open spec fn hidden_step_defined<
    T: Add<Output = T> + Sub<Output = T> + Mul<Output = T> + Neg<Output = T> + From<i8>,
    A: Fn(T) -> T,
>(m: Layers<T, A>, gamma: T) -> bool {
    forall|i: int|
        1 <= i < m.depth() ==> nudge_defined(
            &m.act,
            m.weights[i - 1],
            m.errors[i - 1],
            m.errors[i],
            #[trigger] m.neurons[i],
            gamma,
        )
}

/// Every step of `sensor_step(m, mask, gamma)` may be computed.
pub open spec fn sensor_step_defined<
    T: Sub<Output = T> + Mul<Output = T> + Neg<Output = T> + PartialOrd + From<i8>,
    A,
>(m: Layers<T, A>, mask: Seq<T>, gamma: T) -> bool {
    forall|j: int|
        0 <= j < m.width(0) ==> {
            &&& magnitude_defined(#[trigger] mask[j])
            &&& is_missing(mask[j], m.epsilon) ==> {
                &&& gamma.mul_req(m.errors[0][j])
                &&& m.neurons[0][j].sub_req(gamma.mul_spec(m.errors[0][j]))
            }
        }
}

/// The neurons of a hidden layer after one step of inference:
/// `x[j] + gamma * (-e[j] + slope(x[j]) * b[j])`, where `e` is the layer's
/// own error and `b` recombines the rows of the weights below the layer
/// with the error of the layer below.
pub open spec fn nudged<
    T: Add<Output = T> + Sub<Output = T> + Mul<Output = T> + Neg<Output = T> + From<i8>,
    A: Fn(T) -> T,
>(act: &A, below: Seq<Seq<T>>, below_error: Seq<T>, error: Seq<T>, x: Seq<T>, gamma: T) -> Seq<T> {
    Seq::new(
        x.len(),
        |j: int|
            x[j].add_spec(
                gamma.mul_spec(
                    error[j].neg_spec().add_spec(
                        slope(act, x[j]).mul_spec(
                            back_project(below, below_error, x.len() as int)[j],
                        ),
                    ),
                ),
            ),
    )
}

/// The state after one step of inference on the hidden layers: every layer
/// but the sensor layer is nudged, all of them from the same errors.
pub open spec fn hidden_step<
    T: Add<Output = T> + Sub<Output = T> + Mul<Output = T> + Neg<Output = T> + From<i8>,
    A: Fn(T) -> T,
>(m: Layers<T, A>, gamma: T) -> Layers<T, A> {
    Layers {
        neurons: Seq::new(
            m.depth() as nat,
            |i: int|
                if i == 0 {
                    m.neurons[0]
                } else {
                    nudged(&m.act, m.weights[i - 1], m.errors[i - 1], m.errors[i], m.neurons[i], gamma)
                },
        ),
        ..m
    }
}

/// The sensor neurons after one step of filling in: where `mask` is
/// missing, `x[j] - gamma * e[j]`; elsewhere `x[j]`.
pub open spec fn filled_in<T: Sub<Output = T> + Mul<Output = T> + Neg<Output = T> + PartialOrd + From<i8>>(
    x: Seq<T>,
    error: Seq<T>,
    mask: Seq<T>,
    gamma: T,
    epsilon: T,
) -> Seq<T> {
    Seq::new(
        x.len(),
        |j: int|
            if is_missing(mask[j], epsilon) {
                x[j].sub_spec(gamma.mul_spec(error[j]))
            } else {
                x[j]
            },
    )
}

/// The state after one step of inference on the sensor layer.
pub open spec fn sensor_step<
    T: Sub<Output = T> + Mul<Output = T> + Neg<Output = T> + PartialOrd + From<i8>,
    A,
>(m: Layers<T, A>, mask: Seq<T>, gamma: T) -> Layers<T, A> {
    Layers {
        neurons: m.neurons.update(
            0,
            filled_in(m.neurons[0], m.errors[0], mask, gamma, m.epsilon),
        ),
        ..m
    }
}

/// The state with the memory layer and the sensor layer overwritten by the
/// given patterns.
pub open spec fn clamped<T, A>(m: Layers<T, A>, memory: Seq<T>, sensors: Seq<T>) -> Layers<T, A> {
    Layers {
        neurons: m.neurons.update(
            m.depth() - 1,
            overwritten(m.neurons[m.depth() - 1], memory),
        ).update(0, overwritten(m.neurons[0], sensors)),
        ..m
    }
}

/// The state after `steps` rounds of prediction, error and a step of
/// inference on the hidden layers.
pub open spec fn settled<
    T: Add<Output = T> + Sub<Output = T> + Mul<Output = T> + Neg<Output = T> + PartialOrd + From<
        i8,
    >,
    A: Fn(T) -> T,
>(m: Layers<T, A>, memory: Seq<T>, sensors: Seq<T>, gamma: T, steps: int) -> Layers<T, A>
    decreases steps,
{
    if steps <= 0 {
        m
    } else {
        hidden_step(
            with_errors(predicted(settled(m, memory, sensors, gamma, steps - 1), memory), sensors),
            gamma,
        )
    }
}

/// The state after `steps` rounds of prediction, error, a step of inference
/// on the sensor layer and one on the hidden layers.
pub open spec fn completed<
    T: Add<Output = T> + Sub<Output = T> + Mul<Output = T> + Neg<Output = T> + PartialOrd + From<
        i8,
    >,
    A: Fn(T) -> T,
>(m: Layers<T, A>, memory: Seq<T>, sensors: Seq<T>, gamma: T, steps: int) -> Layers<T, A>
    decreases steps,
{
    if steps <= 0 {
        m
    } else {
        hidden_step(
            sensor_step(
                with_errors(
                    predicted(completed(m, memory, sensors, gamma, steps - 1), memory),
                    sensors,
                ),
                sensors,
                gamma,
            ),
            gamma,
        )
    }
}

/// Every step of `settled(m, memory, sensors, gamma, steps)` may be computed.
pub open spec fn settled_defined<
    T: Add<Output = T> + Sub<Output = T> + Mul<Output = T> + Neg<Output = T> + PartialOrd + From<
        i8,
    >,
    A: Fn(T) -> T,
>(m: Layers<T, A>, memory: Seq<T>, sensors: Seq<T>, gamma: T, steps: int) -> bool
    decreases steps,
{
    steps <= 0 || {
        let before = settled(m, memory, sensors, gamma, steps - 1);
        &&& settled_defined(m, memory, sensors, gamma, steps - 1)
        &&& prediction_defined(before)
        &&& error_defined(predicted(before, memory), sensors)
        &&& hidden_step_defined(with_errors(predicted(before, memory), sensors), gamma)
    }
}

/// Every step of `completed(m, memory, sensors, gamma, steps)` may be
/// computed.
pub open spec fn completed_defined<
    T: Add<Output = T> + Sub<Output = T> + Mul<Output = T> + Neg<Output = T> + PartialOrd + From<
        i8,
    >,
    A: Fn(T) -> T,
>(m: Layers<T, A>, memory: Seq<T>, sensors: Seq<T>, gamma: T, steps: int) -> bool
    decreases steps,
{
    steps <= 0 || {
        let before = completed(m, memory, sensors, gamma, steps - 1);
        let seen = with_errors(predicted(before, memory), sensors);
        &&& completed_defined(m, memory, sensors, gamma, steps - 1)
        &&& prediction_defined(before)
        &&& error_defined(predicted(before, memory), sensors)
        &&& sensor_step_defined(seen, sensors, gamma)
        &&& hidden_step_defined(sensor_step(seen, sensors, gamma), gamma)
    }
}

proof fn lemma_settled_prefix<
    T: Add<Output = T> + Sub<Output = T> + Mul<Output = T> + Neg<Output = T> + PartialOrd + From<
        i8,
    >,
    A: Fn(T) -> T,
>(m: Layers<T, A>, memory: Seq<T>, sensors: Seq<T>, gamma: T, steps: int, k: int)
    requires
        settled_defined(m, memory, sensors, gamma, steps),
        k <= steps,
    ensures
        settled_defined(m, memory, sensors, gamma, k),
    decreases steps - k,
{
    if k < steps && steps > 0 {
        lemma_settled_prefix(m, memory, sensors, gamma, steps - 1, k);
    }
}

proof fn lemma_completed_prefix<
    T: Add<Output = T> + Sub<Output = T> + Mul<Output = T> + Neg<Output = T> + PartialOrd + From<
        i8,
    >,
    A: Fn(T) -> T,
>(m: Layers<T, A>, memory: Seq<T>, sensors: Seq<T>, gamma: T, steps: int, k: int)
    requires
        completed_defined(m, memory, sensors, gamma, steps),
        k <= steps,
    ensures
        completed_defined(m, memory, sensors, gamma, k),
    decreases steps - k,
{
    if k < steps && steps > 0 {
        lemma_completed_prefix(m, memory, sensors, gamma, steps - 1, k);
    }
}

/// Inference on the hidden layers alone never moves the sensor layer, and
/// changes neither the number of layers nor the weights.
pub proof fn lemma_settled_keeps_sensors<
    T: Add<Output = T> + Sub<Output = T> + Mul<Output = T> + Neg<Output = T> + PartialOrd + From<
        i8,
    >,
    A: Fn(T) -> T,
>(m: Layers<T, A>, memory: Seq<T>, sensors: Seq<T>, gamma: T, steps: int)
    requires
        m.depth() >= 1,
    ensures
        settled(m, memory, sensors, gamma, steps).depth() == m.depth(),
        settled(m, memory, sensors, gamma, steps).neurons[0] == m.neurons[0],
        settled(m, memory, sensors, gamma, steps).weights == m.weights,
    decreases steps,
{
    if steps > 0 {
        lemma_settled_keeps_sensors(m, memory, sensors, gamma, steps - 1);
    }
}

/// Inference that fills in the missing sensor entries never moves a sensor
/// neuron whose entry in the sensor pattern is observed.
pub proof fn lemma_completed_keeps_observed<
    T: Add<Output = T> + Sub<Output = T> + Mul<Output = T> + Neg<Output = T> + PartialOrd + From<
        i8,
    >,
    A: Fn(T) -> T,
>(m: Layers<T, A>, memory: Seq<T>, sensors: Seq<T>, gamma: T, steps: int, j: int)
    requires
        m.depth() >= 1,
        0 <= j < m.width(0),
        !is_missing(sensors[j], m.epsilon),
    ensures
        completed(m, memory, sensors, gamma, steps).depth() == m.depth(),
        completed(m, memory, sensors, gamma, steps).epsilon == m.epsilon,
        completed(m, memory, sensors, gamma, steps).width(0) == m.width(0),
        completed(m, memory, sensors, gamma, steps).neurons[0][j] == m.neurons[0][j],
    decreases steps,
{
    if steps > 0 {
        lemma_completed_keeps_observed(m, memory, sensors, gamma, steps - 1, j);
    }
}

/// `acc + e[0]*e[0] + ... + e[n-1]*e[n-1]`, accumulated from the left.
pub open spec fn squares_from<T: Add<Output = T> + Mul<Output = T>>(acc: T, e: Seq<T>, n: int) -> T
    decreases n,
{
    if n <= 0 {
        acc
    } else {
        squares_from(acc, e, n - 1).add_spec(e[n - 1].mul_spec(e[n - 1]))
    }
}

/// Every step of `squares_from(acc, e, n)` may be computed.
pub open spec fn squares_defined<T: Add<Output = T> + Mul<Output = T>>(
    acc: T,
    e: Seq<T>,
    n: int,
) -> bool
    decreases n,
{
    n <= 0 || {
        &&& squares_defined(acc, e, n - 1)
        &&& e[n - 1].mul_req(e[n - 1])
        &&& squares_from(acc, e, n - 1).add_req(e[n - 1].mul_spec(e[n - 1]))
    }
}

proof fn lemma_squares_prefix<T: Add<Output = T> + Mul<Output = T>>(
    acc: T,
    e: Seq<T>,
    n: int,
    k: int,
)
    requires
        squares_defined(acc, e, n),
        k <= n,
    ensures
        squares_defined(acc, e, k),
    decreases n - k,
{
    if k < n && n > 0 {
        lemma_squares_prefix(acc, e, n - 1, k);
    }
}

/// The sum of the squared errors of the first `k` layers, layer by layer.
pub open spec fn squared_error<T: Add<Output = T> + Mul<Output = T> + From<i8>>(
    errors: Seq<Seq<T>>,
    k: int,
) -> T
    decreases k,
{
    if k <= 0 {
        zero::<T>()
    } else {
        squares_from(squared_error(errors, k - 1), errors[k - 1], errors[k - 1].len() as int)
    }
}

/// Every step of `squared_error(errors, k)` may be computed.
pub open spec fn squared_error_defined<T: Add<Output = T> + Mul<Output = T> + From<i8>>(
    errors: Seq<Seq<T>>,
    k: int,
) -> bool
    decreases k,
{
    k <= 0 || {
        &&& squared_error_defined(errors, k - 1)
        &&& squares_defined(
            squared_error(errors, k - 1),
            errors[k - 1],
            errors[k - 1].len() as int,
        )
    }
}

proof fn lemma_squared_error_prefix<T: Add<Output = T> + Mul<Output = T> + From<i8>>(
    errors: Seq<Seq<T>>,
    n: int,
    k: int,
)
    requires
        squared_error_defined(errors, n),
        k <= n,
    ensures
        squared_error_defined(errors, k),
    decreases n - k,
{
    if k < n && n > 0 {
        lemma_squared_error_prefix(errors, n - 1, k);
    }
}

/// Half the sum of the squared errors of all layers may be computed.
pub open spec fn global_error_defined<
    T: Add<Output = T> + Mul<Output = T> + Div<Output = T> + From<i8>,
>(errors: Seq<Seq<T>>) -> bool {
    &&& squared_error_defined(errors, errors.len() as int)
    &&& one::<T>().div_req(T::from_spec(2i8))
    &&& squared_error(errors, errors.len() as int).mul_req(half::<T>())
}

/// One half, as the element type computes it: `1 / 2`.
pub open spec fn half<T: Div<Output = T> + From<i8>>() -> T {
    one::<T>().div_spec(T::from_spec(2i8))
}

/// The weights below a layer after learning: entry `(r, c)` grows by
/// `alpha * error[r] * act(x[c])`.
pub open spec fn learned_weights<T: Add<Output = T> + Mul<Output = T>, A: Fn(T) -> T>(
    act: &A,
    w: Seq<Seq<T>>,
    error: Seq<T>,
    x: Seq<T>,
    alpha: T,
) -> Seq<Seq<T>> {
    Seq::new(
        w.len(),
        |r: int|
            Seq::new(
                w[r].len(),
                |c: int| w[r][c].add_spec(alpha.mul_spec(error[r]).mul_spec(applied(act, x[c]))),
            ),
    )
}

/// Every step of `learned(m, alpha)` may be computed.
pub open spec fn learn_defined<
    T: Add<Output = T> + Sub<Output = T> + Mul<Output = T>,
    A: Fn(T) -> T,
>(m: Layers<T, A>, alpha: T) -> bool {
    let top = m.depth() - 1;
    &&& forall|i: int, r: int, c: int|
        0 <= i < top && 0 <= r < m.width(i) && 0 <= c < m.width(i + 1) ==> {
            let step = alpha.mul_spec(m.errors[i][r]);
            let seen = applied(&m.act, m.neurons[i][c]);
            &&& alpha.mul_req(m.errors[i][r])
            &&& step.mul_req(seen)
            &&& (#[trigger] m.weights[i][r][c]).add_req(step.mul_spec(seen))
        }
    &&& forall|j: int|
        0 <= j < m.width(top) ==> {
            &&& alpha.mul_req(#[trigger] m.errors[top][j])
            &&& m.neurons[top][j].sub_req(alpha.mul_spec(m.errors[top][j]))
        }
}

/// The memory neurons after learning: `x[j] - alpha * e[j]`.
pub open spec fn descended<T: Sub<Output = T> + Mul<Output = T>>(
    x: Seq<T>,
    error: Seq<T>,
    alpha: T,
) -> Seq<T> {
    Seq::new(x.len(), |j: int| x[j].sub_spec(alpha.mul_spec(error[j])))
}

/// The state after one step of learning: all weights are corrected by the
/// error of their layer and the activated neurons of that same layer, and
/// the memory neurons descend along their error.
pub open spec fn learned<
    T: Add<Output = T> + Sub<Output = T> + Mul<Output = T>,
    A: Fn(T) -> T,
>(m: Layers<T, A>, alpha: T) -> Layers<T, A> {
    Layers {
        weights: Seq::new(
            m.weights.len(),
            |i: int| learned_weights(&m.act, m.weights[i], m.errors[i], m.neurons[i], alpha),
        ),
        neurons: m.neurons.update(
            m.depth() - 1,
            descended(m.neurons[m.depth() - 1], m.errors[m.depth() - 1], alpha),
        ),
        ..m
    }
}

/// A network of `layers` layers: `d` sensor neurons and `n` neurons in every
/// other layer.
pub struct PCN<T, A> {
    weights: Vec<DMatrix<T>>,
    neurons: Vec<Vec<T>>,
    predictions: Vec<Vec<T>>,
    errors: Vec<Vec<T>>,
    layers: usize,
    act: A,
    epsilon: T,
}

/// The views of the vectors of `v`.
pub open spec fn views<T>(v: Seq<Vec<T>>) -> Seq<Seq<T>> {
    Seq::new(v.len(), |i: int| v[i]@)
}

impl<T, A> View for PCN<T, A> {
    type V = Layers<T, A>;

    closed spec fn view(&self) -> Layers<T, A> {
        Layers {
            weights: Seq::new(self.weights@.len(), |i: int| self.weights@[i]@),
            neurons: views(self.neurons@),
            predictions: views(self.predictions@),
            errors: views(self.errors@),
            act: self.act,
            epsilon: self.epsilon,
        }
    }
}

impl<
    T: Copy + Add<Output = T> + Sub<Output = T> + Mul<Output = T> + Div<Output = T> + Neg<
        Output = T,
    > + PartialOrd + From<i8>,
    A: Fn(T) -> T,
> PCN<T, A> {
    /// The network is well shaped, its matrices are well formed, and its
    /// activation is a function.
    pub closed spec fn wf(&self) -> bool {
        &&& self.layers >= 2
        &&& self.neurons@.len() == self.layers
        &&& self.predictions@.len() == self.layers
        &&& self.errors@.len() == self.layers
        &&& self.weights@.len() == self.layers - 1
        &&& is_function(&self.act)
        &&& forall|i: int|
            0 <= i < self.layers ==> (#[trigger] self.predictions@[i])@.len()
                == self.neurons@[i]@.len()
        &&& forall|i: int|
            0 <= i < self.layers ==> (#[trigger] self.errors@[i])@.len() == self.neurons@[i]@.len()
        &&& forall|i: int|
            0 <= i < self.layers - 1 ==> {
                &&& (#[trigger] self.weights@[i]).wf()
                &&& self.weights@[i].height() == self.neurons@[i]@.len()
                &&& self.weights@[i].width() == self.neurons@[i + 1]@.len()
            }
    }

    /// A well-formed network is well shaped, and its activation is a
    /// function.
    pub proof fn lemma_wf_shaped(&self)
        requires
            self.wf(),
        ensures
            self@.shaped(),
            is_function(&self@.act),
    {
        assert forall|i: int| 0 <= i < self@.depth() implies (#[trigger] self@.predictions[i]).len()
            == self@.width(i) by {
            assert(self.predictions@[i]@.len() == self.neurons@[i]@.len());
        }
        assert forall|i: int| 0 <= i < self@.depth() implies (#[trigger] self@.errors[i]).len()
            == self@.width(i) by {
            assert(self.errors@[i]@.len() == self.neurons@[i]@.len());
        }
        assert forall|i: int| 0 <= i < self@.depth() - 1 implies (#[trigger] self@.weights[i]).len()
            == self@.width(i) by {
            assert(self.weights@[i].wf());
        }
        assert forall|i: int, r: int|
            0 <= i < self@.depth() - 1 && 0 <= r < self@.width(i) implies (
        #[trigger] self@.weights[i][r]).len() == self@.width(i + 1) by {
            assert(self.weights@[i].wf());
        }
    }

    /// A network whose neurons alone have changed, in value and not in
    /// number, is still well formed.
    proof fn lemma_neurons_moved(&self, before: &Self)
        requires
            before.wf(),
            self.weights == before.weights,
            self.predictions == before.predictions,
            self.errors == before.errors,
            self.act == before.act,
            self.layers == before.layers,
            self.neurons@.len() == before.neurons@.len(),
            forall|k: int|
                0 <= k < self.neurons@.len() ==> (#[trigger] self.neurons@[k])@.len()
                    == before.neurons@[k]@.len(),
        ensures
            self.wf(),
    {
        assert forall|i: int| 0 <= i < self.layers implies (#[trigger] self.predictions@[i])@.len()
            == self.neurons@[i]@.len() by {
            assert(before.predictions@[i]@.len() == before.neurons@[i]@.len());
        }
        assert forall|i: int| 0 <= i < self.layers implies (#[trigger] self.errors@[i])@.len()
            == self.neurons@[i]@.len() by {
            assert(before.errors@[i]@.len() == before.neurons@[i]@.len());
        }
        assert forall|i: int| 0 <= i < self.layers - 1 implies {
            &&& (#[trigger] self.weights@[i]).wf()
            &&& self.weights@[i].height() == self.neurons@[i]@.len()
            &&& self.weights@[i].width() == self.neurons@[i + 1]@.len()
        } by {
            assert(before.weights@[i].wf());
        }
    }

    /// A network at rest: every neuron, prediction, error and weight is `0`.
    /// `act` is the activation function (the hyperbolic tangent, in the
    /// usual network) and `epsilon` the bound below which a sensor value
    /// counts as missing.
    pub fn new(layers: usize, n: usize, d: usize, act: A, epsilon: T) -> (p: Self)
        requires
            layers > 1,
            n > 0,
            d > 1,
            d * n <= usize::MAX,
            n * n <= usize::MAX,
            T::obeys_from_spec(),
            is_function(&act),
        ensures
            p.wf(),
            p@.depth() == layers,
            p@.width(0) == d,
            forall|i: int| 1 <= i < layers ==> #[trigger] p@.width(i) == n,
            forall|i: int, j: int|
                0 <= i < layers && 0 <= j < p@.width(i) ==> {
                    &&& (#[trigger] p@.neurons[i][j]) == zero::<T>()
                    &&& p@.predictions[i][j] == zero::<T>()
                    &&& p@.errors[i][j] == zero::<T>()
                },
            forall|i: int, r: int, c: int|
                0 <= i < layers - 1 && 0 <= r < p@.width(i) && 0 <= c < n ==> (
                #[trigger] p@.weights[i][r][c]) == zero::<T>(),
            p@.act == act,
            p@.epsilon == epsilon,
    {
        let origin = T::from(0i8);
        let mut weights: Vec<DMatrix<T>> = Vec::new();
        weights.push(DMatrix::new(d, n, origin));
        let mut i: usize = 0;
        while i < layers - 2
            invariant
                i <= layers - 2,
                n * n <= usize::MAX,
                weights@.len() == i + 1,
                forall|k: int|
                    0 <= k < weights@.len() ==> {
                        &&& (#[trigger] weights@[k]).wf()
                        &&& weights@[k].height() == (if k == 0 { d } else { n })
                        &&& weights@[k].width() == n
                        &&& forall|r: int, c: int|
                            0 <= r < weights@[k].height() && 0 <= c < n ==> #[trigger] weights@[k].at(
                                r,
                                c,
                            ) == origin
                    },
            decreases layers - 2 - i,
        {
            weights.push(DMatrix::new(n, n, origin));
            i += 1;
        }
        let mut neurons: Vec<Vec<T>> = Vec::new();
        let mut predictions: Vec<Vec<T>> = Vec::new();
        let mut errors: Vec<Vec<T>> = Vec::new();
        neurons.push(filled(d, origin));
        predictions.push(filled(d, origin));
        errors.push(filled(d, origin));
        let mut i: usize = 0;
        while i < layers - 1
            invariant
                i <= layers - 1,
                neurons@.len() == i + 1,
                predictions@.len() == i + 1,
                errors@.len() == i + 1,
                forall|k: int|
                    0 <= k < i + 1 ==> {
                        &&& (#[trigger] neurons@[k])@ == Seq::new(
                            (if k == 0 { d } else { n }) as nat,
                            |j: int| origin,
                        )
                        &&& predictions@[k]@ == neurons@[k]@
                        &&& errors@[k]@ == neurons@[k]@
                    },
            decreases layers - 1 - i,
        {
            neurons.push(filled(n, origin));
            predictions.push(filled(n, origin));
            errors.push(filled(n, origin));
            i += 1;
        }
        let p = Self { weights, neurons, predictions, errors, layers, act, epsilon };
        proof {
            assert forall|i: int| 0 <= i < layers implies (#[trigger] p.predictions@[i])@.len()
                == p.neurons@[i]@.len() by {
                assert(p.predictions@[i]@ == p.neurons@[i]@);
            }
            assert forall|i: int| 0 <= i < layers implies (#[trigger] p.errors@[i])@.len()
                == p.neurons@[i]@.len() by {
                assert(p.errors@[i]@ == p.neurons@[i]@);
            }
            assert forall|i: int| 0 <= i < layers - 1 implies {
                &&& (#[trigger] p.weights@[i]).wf()
                &&& p.weights@[i].height() == p.neurons@[i]@.len()
                &&& p.weights@[i].width() == p.neurons@[i + 1]@.len()
            } by {
                assert(p.neurons@[i]@.len() == (if i == 0 { d } else { n }));
                assert(p.neurons@[i + 1]@.len() == n);
            }
            assert(p.wf());
            assert forall|i: int, j: int| 0 <= i < layers && 0 <= j < p@.width(i) implies {
                &&& (#[trigger] p@.neurons[i][j]) == zero::<T>()
                &&& p@.predictions[i][j] == zero::<T>()
                &&& p@.errors[i][j] == zero::<T>()
            } by {
                assert(p.predictions@[i]@ == p.neurons@[i]@);
                assert(p.errors@[i]@ == p.neurons@[i]@);
            }
            assert forall|i: int| 1 <= i < layers implies #[trigger] p@.width(i) == n by {
                assert(p.neurons@[i]@.len() == n);
            }
            assert(p.neurons@[0]@.len() == d);
            assert forall|i: int, r: int, c: int|
                0 <= i < layers - 1 && 0 <= r < p@.width(i) && 0 <= c < n implies (
            #[trigger] p@.weights[i][r][c]) == zero::<T>() by {
                assert(p.weights@[i].wf());
                assert(p.neurons@[i]@.len() == (if i == 0 { d } else { n }));
                assert(p.weights@[i].at(r, c) == origin);
            }
        }
        p
    }

    /// The neurons of the memory layer.
    pub fn memory(&self) -> (m: &[T])
        requires
            self.wf(),
        ensures
            m@ == self@.neurons[self@.depth() - 1],
    {
        self.neurons[self.layers - 1].as_slice()
    }

    /// The neurons of the sensor layer.
    pub fn sensors(&self) -> (s: &[T])
        requires
            self.wf(),
        ensures
            s@ == self@.neurons[0],
    {
        self.neurons[0].as_slice()
    }

    /// Number of layers.
    pub fn layers(&self) -> (n: usize)
        requires
            self.wf(),
        ensures
            n == self@.depth(),
    {
        self.layers
    }

    /// The neurons of layer `i`.
    pub fn neurons(&self, i: usize) -> (v: &[T])
        requires
            self.wf(),
            i < self@.depth(),
        ensures
            v@ == self@.neurons[i as int],
    {
        self.neurons[i].as_slice()
    }

    /// The prediction of layer `i`.
    pub fn predictions(&self, i: usize) -> (v: &[T])
        requires
            self.wf(),
            i < self@.depth(),
        ensures
            v@ == self@.predictions[i as int],
    {
        self.predictions[i].as_slice()
    }

    /// The error of layer `i`.
    pub fn errors(&self, i: usize) -> (v: &[T])
        requires
            self.wf(),
            i < self@.depth(),
        ensures
            v@ == self@.errors[i as int],
    {
        self.errors[i].as_slice()
    }

    /// The weights between layer `i` and layer `i + 1`.
    pub fn weights(&self, i: usize) -> (w: &DMatrix<T>)
        requires
            self.wf(),
            i + 1 < self@.depth(),
        ensures
            w@ == self@.weights[i as int],
            w.wf(),
            w.height() == self@.width(i as int),
            w.width() == self@.width(i + 1),
    {
        &self.weights[i]
    }

    /// The neurons of the memory layer, to be written. The network stays
    /// well formed, since a slice keeps its length.
    pub fn memory_mut(&mut self) -> (m: &mut [T])
        requires
            old(self).wf(),
        ensures
            m@ == old(self)@.neurons[old(self)@.depth() - 1],
            final(self)@.neurons == old(self)@.neurons.update(
                old(self)@.depth() - 1,
                final(m)@,
            ),
            final(self)@.weights == old(self)@.weights,
            final(self)@.predictions == old(self)@.predictions,
            final(self)@.errors == old(self)@.errors,
            final(self)@.act == old(self)@.act,
            final(self)@.epsilon == old(self)@.epsilon,
            final(m)@.len() == m@.len() ==> final(self).wf(),
    {
        let top = self.layers - 1;
        self.neurons[top].as_mut_slice()
    }

    /// The neurons of the sensor layer, to be written.
    pub fn sensors_mut(&mut self) -> (s: &mut [T])
        requires
            old(self).wf(),
        ensures
            s@ == old(self)@.neurons[0],
            final(self)@.neurons == old(self)@.neurons.update(0, final(s)@),
            final(self)@.weights == old(self)@.weights,
            final(self)@.predictions == old(self)@.predictions,
            final(self)@.errors == old(self)@.errors,
            final(self)@.act == old(self)@.act,
            final(self)@.epsilon == old(self)@.epsilon,
            final(s)@.len() == s@.len() ==> final(self).wf(),
    {
        self.neurons[0].as_mut_slice()
    }

    /// The activation function applied to every entry of `src`.
    fn activated(act: &A, src: &[T]) -> (v: Vec<T>)
        requires
            is_function(act),
        ensures
            v@ == mapped(act, src@),
    {
        let n = src.len();
        let mut v: Vec<T> = Vec::with_capacity(n);
        let mut j: usize = 0;
        while j < n
            invariant
                j <= n,
                n == src@.len(),
                is_function(act),
                v@.len() == j,
                forall|k: int| 0 <= k < j ==> v@[k] == applied(act, src@[k]),
            decreases n - j,
        {
            v.push(act(src[j]));
            j += 1;
        }
        assert(v@ =~= mapped(act, src@));
        v
    }

    /// The top-down pass: seeds the prediction of the memory layer with
    /// `memory_values` and predicts every layer below from the layer above.
    pub fn prediction(&mut self, memory_values: &[T])
        requires
            old(self).wf(),
            obeys_field::<T>(),
            T::obeys_from_spec(),
            prediction_defined(old(self)@),
        ensures
            final(self).wf(),
            final(self)@ == predicted(old(self)@, memory_values@),
    {
        let top = self.layers - 1;
        self.predictions[top].copy_from(memory_values);
        let mut i: usize = top;
        while i > 0
            invariant
                i <= top,
                top == self.layers - 1,
                self.wf(),
                obeys_field::<T>(),
                T::obeys_from_spec(),
                prediction_defined(old(self)@),
                self.weights == old(self).weights,
                self.neurons == old(self).neurons,
                self.errors == old(self).errors,
                self.act == old(self).act,
                self.epsilon == old(self).epsilon,
                self.layers == old(self).layers,
                self.predictions@.len() == old(self).predictions@.len(),
                self.predictions@[top as int]@ == overwritten(
                    old(self).predictions@[top as int]@,
                    memory_values@,
                ),
                forall|k: int|
                    i <= k < top ==> (#[trigger] self.predictions@[k])@ == project(
                        self.weights@[k]@,
                        mapped(&self.act, self.neurons@[k + 1]@),
                    ),
            decreases i,
        {
            i -= 1;
            let signal = Self::activated(&self.act, self.neurons[i + 1].as_slice());
            proof {
                let w = self.weights@[i as int];
                assert(w.wf());
                assert forall|r: int| 0 <= r < w.height() implies dot_defined(
                    T::from_spec(0i8),
                    #[trigger] w.row(r),
                    signal@,
                    w.width(),
                ) by {
                    assert(old(self)@.weights[i as int][r] == w.row(r));
                    assert(old(self)@.width(i as int) == w.height());
                    assert(old(self)@.neurons[i + 1] == self.neurons@[i + 1]@);
                }
                assert(self.predictions@[i as int]@.len() == self.neurons@[i as int]@.len());
            }
            self.weights[i].mul_vec(signal.as_slice(), self.predictions[i].as_mut_slice());
        }
        proof {
            let goal = predicted(old(self)@, memory_values@);
            assert forall|k: int| 0 <= k < self.layers implies #[trigger] self@.predictions[k]
                == goal.predictions[k] by {
                if k < top {
                    assert(self.predictions@[k]@ == project(
                        self.weights@[k]@,
                        mapped(&self.act, self.neurons@[k + 1]@),
                    ));
                }
            }
            assert(self@.predictions =~= goal.predictions);
            assert(self@.weights =~= goal.weights);
            assert(self@.neurons =~= goal.neurons);
            assert(self@.errors =~= goal.errors);
        }
    }

    /// Takes the prediction errors. A sensor value whose magnitude is at
    /// most the network's bound counts as missing, and the network's own
    /// sensor neuron stands in for it.
    pub fn error(&mut self, sensor_values: &[T])
        requires
            old(self).wf(),
            old(self)@.width(0) <= sensor_values@.len(),
            obeys_field::<T>(),
            obeys_order::<T>(),
            T::obeys_from_spec(),
            error_defined(old(self)@, sensor_values@),
        ensures
            final(self).wf(),
            final(self)@ == with_errors(old(self)@, sensor_values@),
    {
        let origin = T::from(0i8);
        let width = self.neurons[0].len();
        let mut j: usize = 0;
        while j < width
            invariant
                j <= width,
                width == self.neurons@[0]@.len(),
                width <= sensor_values@.len(),
                self.wf(),
                obeys_field::<T>(),
                error_defined(old(self)@, sensor_values@),
                obeys_order::<T>(),
                origin == zero::<T>(),
                self.weights == old(self).weights,
                self.neurons == old(self).neurons,
                self.predictions == old(self).predictions,
                self.act == old(self).act,
                self.epsilon == old(self).epsilon,
                self.layers == old(self).layers,
                self.errors@.len() == old(self).errors@.len(),
                forall|k: int| 1 <= k < self.errors@.len() ==> self.errors@[k] == old(self).errors@[k],
                forall|k: int|
                    0 <= k < j ==> self.errors@[0]@[k] == differences(
                        observed(sensor_values@, self.neurons@[0]@, self.epsilon),
                        self.predictions@[0]@,
                    )[k],
            decreases width - j,
        {
            proof {
                assert(self.predictions@[0]@.len() == self.neurons@[0]@.len());
                assert(self.errors@[0]@.len() == self.neurons@[0]@.len());
            }
            proof {
                assert(magnitude_defined(sensor_values@[j as int]));
                let seen = observed(sensor_values@, old(self)@.neurons[0], old(self)@.epsilon);
                assert(seen[j as int].sub_req(old(self)@.predictions[0][j as int]));
            }
            let s = sensor_values[j];
            let m = if s >= origin { s } else { s.neg() };
            if m <= self.epsilon {
                let e = self.neurons[0][j] - self.predictions[0][j];
                self.errors[0][j] = e;
            } else {
                let e = s - self.predictions[0][j];
                self.errors[0][j] = e;
            }
            j += 1;
        }
        proof {
            assert(self.errors@[0]@.len() == self.neurons@[0]@.len());
            assert(self.errors@[0]@ =~= differences(
                observed(sensor_values@, self.neurons@[0]@, self.epsilon),
                self.predictions@[0]@,
            ));
        }
        let mut i: usize = 1;
        while i < self.layers
            invariant
                1 <= i <= self.layers,
                self.wf(),
                obeys_field::<T>(),
                error_defined(old(self)@, sensor_values@),
                self.weights == old(self).weights,
                self.neurons == old(self).neurons,
                self.predictions == old(self).predictions,
                self.act == old(self).act,
                self.epsilon == old(self).epsilon,
                self.layers == old(self).layers,
                self.errors@.len() == old(self).errors@.len(),
                self.errors@[0]@ == differences(
                    observed(sensor_values@, self.neurons@[0]@, self.epsilon),
                    self.predictions@[0]@,
                ),
                forall|k: int|
                    1 <= k < i ==> (#[trigger] self.errors@[k])@ == differences(
                        self.neurons@[k]@,
                        self.predictions@[k]@,
                    ),
            decreases self.layers - i,
        {
            let n = self.neurons[i].len();
            let mut j: usize = 0;
            while j < n
                invariant
                    j <= n,
                    1 <= i < self.layers,
                    n == self.neurons@[i as int]@.len(),
                    self.wf(),
                    obeys_field::<T>(),
                error_defined(old(self)@, sensor_values@),
                    self.weights == old(self).weights,
                    self.neurons == old(self).neurons,
                    self.predictions == old(self).predictions,
                    self.act == old(self).act,
                    self.epsilon == old(self).epsilon,
                    self.layers == old(self).layers,
                    self.errors@.len() == old(self).errors@.len(),
                    self.errors@[0]@ == differences(
                        observed(sensor_values@, self.neurons@[0]@, self.epsilon),
                        self.predictions@[0]@,
                    ),
                    forall|k: int|
                        1 <= k < i ==> (#[trigger] self.errors@[k])@ == differences(
                            self.neurons@[k]@,
                            self.predictions@[k]@,
                        ),
                    forall|k: int|
                        0 <= k < j ==> self.errors@[i as int]@[k] == differences(
                            self.neurons@[i as int]@,
                            self.predictions@[i as int]@,
                        )[k],
                decreases n - j,
            {
                proof {
                    assert(self.predictions@[i as int]@.len() == self.neurons@[i as int]@.len());
                    assert(self.errors@[i as int]@.len() == self.neurons@[i as int]@.len());
                }
                proof {
                    assert(differences_defined(
                        old(self)@.neurons[i as int],
                        old(self)@.predictions[i as int],
                    ));
                    assert(old(self)@.neurons[i as int][j as int].sub_req(
                        old(self)@.predictions[i as int][j as int],
                    ));
                }
                let e = self.neurons[i][j] - self.predictions[i][j];
                self.errors[i][j] = e;
                j += 1;
            }
            proof {
                assert(self.errors@[i as int]@.len() == self.neurons@[i as int]@.len());
                assert(self.errors@[i as int]@ =~= differences(
                    self.neurons@[i as int]@,
                    self.predictions@[i as int]@,
                ));
            }
            i += 1;
        }
        proof {
            let goal = with_errors(old(self)@, sensor_values@);
            assert forall|k: int| 0 <= k < self.layers implies #[trigger] self@.errors[k]
                == goal.errors[k] by {
                if k > 0 {
                    assert(self.errors@[k]@ == differences(
                        self.neurons@[k]@,
                        self.predictions@[k]@,
                    ));
                }
            }
            assert(self@.errors =~= goal.errors);
            assert(self@.weights =~= goal.weights);
            assert(self@.neurons =~= goal.neurons);
            assert(self@.predictions =~= goal.predictions);
        }
    }

    /// Half the sum of the squares of all errors.
    pub fn global_error(&self) -> (g: T)
        requires
            self.wf(),
            obeys_field::<T>(),
            T::obeys_from_spec(),
            global_error_defined(self@.errors),
        ensures
            g == squared_error(self@.errors, self@.depth()).mul_spec(half::<T>()),
    {
        let mut acc = T::from(0i8);
        let mut i: usize = 0;
        while i < self.layers
            invariant
                i <= self.layers,
                self.wf(),
                obeys_field::<T>(),
                global_error_defined(self@.errors),
                acc == squared_error(self@.errors, i as int),
            decreases self.layers - i,
        {
            proof {
                lemma_squared_error_prefix(self@.errors, self.layers as int, i as int + 1);
            }
            let n = self.errors[i].len();
            let ghost start = acc;
            let mut j: usize = 0;
            while j < n
                invariant
                    j <= n,
                    i < self.layers,
                    self.wf(),
                    n == self.errors@[i as int]@.len(),
                    obeys_field::<T>(),
                    squares_defined(start, self.errors@[i as int]@, n as int),
                    acc == squares_from(start, self.errors@[i as int]@, j as int),
                decreases n - j,
            {
                proof {
                    lemma_squares_prefix(start, self.errors@[i as int]@, n as int, j as int + 1);
                }
                let e = self.errors[i][j];
                acc = acc + e * e;
                j += 1;
            }
            i += 1;
        }
        acc * (T::from(1i8) / T::from(2i8))
    }

    /// One step of inference on the sensor layer: a sensor neuron whose
    /// entry in `sensor_mask` is missing moves against its error; the
    /// others stay.
    pub fn inference_sensor_step(&mut self, sensor_mask: &[T], gamma: T)
        requires
            old(self).wf(),
            old(self)@.width(0) <= sensor_mask@.len(),
            obeys_field::<T>(),
            obeys_order::<T>(),
            T::obeys_from_spec(),
            sensor_step_defined(old(self)@, sensor_mask@, gamma),
        ensures
            final(self).wf(),
            final(self)@ == sensor_step(old(self)@, sensor_mask@, gamma),
    {
        let origin = T::from(0i8);
        let width = self.neurons[0].len();
        let mut j: usize = 0;
        while j < width
            invariant
                j <= width,
                width == old(self).neurons@[0]@.len(),
                width <= sensor_mask@.len(),
                self.wf(),
                old(self).wf(),
                obeys_field::<T>(),
                sensor_step_defined(old(self)@, sensor_mask@, gamma),
                obeys_order::<T>(),
                origin == zero::<T>(),
                self.weights == old(self).weights,
                self.predictions == old(self).predictions,
                self.errors == old(self).errors,
                self.act == old(self).act,
                self.epsilon == old(self).epsilon,
                self.layers == old(self).layers,
                self.neurons@.len() == old(self).neurons@.len(),
                self.neurons@[0]@.len() == width,
                forall|k: int|
                    1 <= k < self.neurons@.len() ==> self.neurons@[k] == old(self).neurons@[k],
                forall|k: int|
                    0 <= k < j ==> self.neurons@[0]@[k] == filled_in(
                        old(self).neurons@[0]@,
                        self.errors@[0]@,
                        sensor_mask@,
                        gamma,
                        self.epsilon,
                    )[k],
                forall|k: int| j <= k < width ==> self.neurons@[0]@[k] == old(self).neurons@[0]@[k],
            decreases width - j,
        {
            proof {
                assert(self.errors@[0]@.len() == self.neurons@[0]@.len());
            }
            proof {
                assert(magnitude_defined(sensor_mask@[j as int]));
                assert(old(self)@.errors[0] == self.errors@[0]@);
                assert(old(self)@.neurons[0] == old(self).neurons@[0]@);
            }
            let s = sensor_mask[j];
            let m = if s >= origin { s } else { s.neg() };
            if m <= self.epsilon {
                let x = self.neurons[0][j] - gamma * self.errors[0][j];
                self.neurons[0][j] = x;
            }
            proof {
                self.lemma_neurons_moved(&*old(self));
            }
            j += 1;
        }
        proof {
            let goal = sensor_step(old(self)@, sensor_mask@, gamma);
            assert(self.neurons@[0]@ =~= goal.neurons[0]);
            assert(self@.neurons =~= goal.neurons);
            assert(self@.weights =~= goal.weights);
            assert(self@.predictions =~= goal.predictions);
            assert(self@.errors =~= goal.errors);
        }
    }

    /// The slope of the activation at every entry of `src`.
    fn slopes(act: &A, src: &[T]) -> (v: Vec<T>)
        requires
            is_function(act),
            obeys_field::<T>(),
            T::obeys_from_spec(),
            forall|j: int| 0 <= j < src@.len() ==> slope_defined(act, #[trigger] src@[j]),
        ensures
            v@ == Seq::new(src@.len(), |j: int| slope(act, src@[j])),
    {
        let n = src.len();
        let unit = T::from(1i8);
        let mut v: Vec<T> = Vec::with_capacity(n);
        let mut j: usize = 0;
        while j < n
            invariant
                j <= n,
                n == src@.len(),
                is_function(act),
                obeys_field::<T>(),
                unit == one::<T>(),
                forall|k: int| 0 <= k < src@.len() ==> slope_defined(act, #[trigger] src@[k]),
                v@.len() == j,
                forall|k: int| 0 <= k < j ==> v@[k] == slope(act, src@[k]),
            decreases n - j,
        {
            assert(slope_defined(act, src@[j as int]));
            let t = act(src[j]);
            v.push(unit - t * t);
            j += 1;
        }
        assert(v@ =~= Seq::new(src@.len(), |j: int| slope(act, src@[j])));
        v
    }

    /// One step of inference on the hidden layers, all of them moved from
    /// the errors as they are at the call.
    pub fn inference_step(&mut self, gamma: T)
        requires
            old(self).wf(),
            obeys_field::<T>(),
            T::obeys_from_spec(),
            hidden_step_defined(old(self)@, gamma),
        ensures
            final(self).wf(),
            final(self)@ == hidden_step(old(self)@, gamma),
    {
        let mut i: usize = 1;
        while i < self.layers
            invariant
                1 <= i <= self.layers,
                self.wf(),
                old(self).wf(),
                obeys_field::<T>(),
                hidden_step_defined(old(self)@, gamma),
                T::obeys_from_spec(),
                self.weights == old(self).weights,
                self.predictions == old(self).predictions,
                self.errors == old(self).errors,
                self.act == old(self).act,
                self.epsilon == old(self).epsilon,
                self.layers == old(self).layers,
                self.neurons@.len() == old(self).neurons@.len(),
                forall|k: int|
                    0 <= k < self.neurons@.len() ==> (#[trigger] self.neurons@[k])@.len() == old(
                        self,
                    ).neurons@[k]@.len(),
                self.neurons@[0] == old(self).neurons@[0],
                forall|k: int| i <= k < self.neurons@.len() ==> self.neurons@[k] == old(self).neurons@[k],
                forall|k: int|
                    1 <= k < i ==> (#[trigger] self.neurons@[k])@ == nudged(
                        &self.act,
                        self.weights@[k - 1]@,
                        self.errors@[k - 1]@,
                        self.errors@[k]@,
                        old(self).neurons@[k]@,
                        gamma,
                    ),
            decreases self.layers - i,
        {
            let n = self.neurons[i].len();
            proof {
                assert(old(self)@.neurons[i as int] == self.neurons@[i as int]@);
                assert(old(self)@.weights[i - 1] == self.weights@[i - 1]@);
                assert(old(self)@.errors[i - 1] == self.errors@[i - 1]@);
                assert(old(self)@.errors[i as int] == self.errors@[i as int]@);
                assert(nudge_defined(
                    &self.act,
                    self.weights@[i - 1]@,
                    self.errors@[i - 1]@,
                    self.errors@[i as int]@,
                    self.neurons@[i as int]@,
                    gamma,
                ));
            }
            let ad = Self::slopes(&self.act, self.neurons[i].as_slice());
            let mut et = filled(n, T::from(0i8));
            proof {
                let w = self.weights@[i - 1];
                assert(w.wf());
                assert(self.errors@[i - 1]@.len() == self.neurons@[i - 1]@.len());
                assert(self.errors@[i as int]@.len() == self.neurons@[i as int]@.len());
                assert forall|c: int| 0 <= c < w.width() implies dot_defined(
                    T::from_spec(0i8),
                    self.errors@[i - 1]@,
                    #[trigger] w.column(c),
                    w.height(),
                ) by {
                    assert(column_of(w@, c) =~= w.column(c));
                }
            }
            self.weights[i - 1].trans_mul_vec(self.errors[i - 1].as_slice(), et.as_mut_slice());
            let mut j: usize = 0;
            while j < n
                invariant
                    j <= n,
                    1 <= i < self.layers,
                    n == old(self).neurons@[i as int]@.len(),
                    self.wf(),
                    old(self).wf(),
                    obeys_field::<T>(),
                hidden_step_defined(old(self)@, gamma),
                self.weights == old(self).weights,
                self.predictions == old(self).predictions,
                self.errors == old(self).errors,
                self.act == old(self).act,
                self.epsilon == old(self).epsilon,
                self.layers == old(self).layers,
                    self.neurons@.len() == old(self).neurons@.len(),
                    forall|k: int|
                        0 <= k < self.neurons@.len() ==> (#[trigger] self.neurons@[k])@.len()
                            == old(self).neurons@[k]@.len(),
                    self.neurons@[0] == old(self).neurons@[0],
                    forall|k: int|
                        i < k < self.neurons@.len() ==> self.neurons@[k] == old(self).neurons@[k],
                    forall|k: int|
                        1 <= k < i ==> (#[trigger] self.neurons@[k])@ == nudged(
                            &self.act,
                            self.weights@[k - 1]@,
                            self.errors@[k - 1]@,
                            self.errors@[k]@,
                            old(self).neurons@[k]@,
                            gamma,
                        ),
                    ad@ == Seq::new(
                        n as nat,
                        |q: int| slope(&self.act, old(self).neurons@[i as int]@[q]),
                    ),
                    nudge_defined(
                        &self.act,
                        self.weights@[i - 1]@,
                        self.errors@[i - 1]@,
                        self.errors@[i as int]@,
                        old(self).neurons@[i as int]@,
                        gamma,
                    ),
                    et@ == back_project(self.weights@[i - 1]@, self.errors@[i - 1]@, n as int),
                    forall|k: int|
                        0 <= k < j ==> self.neurons@[i as int]@[k] == nudged(
                            &self.act,
                            self.weights@[i - 1]@,
                            self.errors@[i - 1]@,
                            self.errors@[i as int]@,
                            old(self).neurons@[i as int]@,
                            gamma,
                        )[k],
                    forall|k: int|
                        j <= k < n ==> self.neurons@[i as int]@[k] == old(self).neurons@[i as int]@[k],
                decreases n - j,
            {
                proof {
                    assert(self.errors@[i as int]@.len() == self.neurons@[i as int]@.len());
                }
                proof {
                    let x0 = old(self).neurons@[i as int]@;
                    assert(slope_defined(&self.act, x0[j as int]));
                }
                let x = self.neurons[i][j] + gamma * (self.errors[i][j].neg() + ad[j] * et[j]);
                self.neurons[i][j] = x;
                proof {
                    self.lemma_neurons_moved(&*old(self));
                }
                j += 1;
            }
            proof {
                assert(self.neurons@[i as int]@ =~= nudged(
                    &self.act,
                    self.weights@[i - 1]@,
                    self.errors@[i - 1]@,
                    self.errors@[i as int]@,
                    old(self).neurons@[i as int]@,
                    gamma,
                ));
            }
            i += 1;
        }
        proof {
            let goal = hidden_step(old(self)@, gamma);
            assert forall|k: int| 0 <= k < self.layers implies #[trigger] self@.neurons[k]
                == goal.neurons[k] by {
                if k > 0 {
                    assert(self.neurons@[k]@ == nudged(
                        &self.act,
                        self.weights@[k - 1]@,
                        self.errors@[k - 1]@,
                        self.errors@[k]@,
                        old(self).neurons@[k]@,
                        gamma,
                    ));
                }
            }
            assert(self@.neurons =~= goal.neurons);
            assert(self@.weights =~= goal.weights);
            assert(self@.predictions =~= goal.predictions);
            assert(self@.errors =~= goal.errors);
        }
    }

    /// Clamps the memory and the sensor layer to the given patterns, then
    /// repeats `steps` times: predict, take the errors, and move the hidden
    /// layers. The sensor layer stays as it was clamped.
    pub fn inference(&mut self, memory_pattern: &[T], sensor_pattern: &[T], gamma: T, steps: usize)
        requires
            old(self).wf(),
            steps > 0 ==> old(self)@.width(0) <= sensor_pattern@.len(),
            obeys_field::<T>(),
            obeys_order::<T>(),
            T::obeys_from_spec(),
            settled_defined(
                clamped(old(self)@, memory_pattern@, sensor_pattern@),
                memory_pattern@,
                sensor_pattern@,
                gamma,
                steps as int,
            ),
        ensures
            final(self).wf(),
            final(self)@ == settled(
                clamped(old(self)@, memory_pattern@, sensor_pattern@),
                memory_pattern@,
                sensor_pattern@,
                gamma,
                steps as int,
            ),
    {
        self.clamp(memory_pattern, sensor_pattern);
        let ghost start = self@;
        let mut k: usize = 0;
        while k < steps
            invariant
                k <= steps,
                self.wf(),
                steps > 0 ==> self@.width(0) <= sensor_pattern@.len(),
                obeys_field::<T>(),
                settled_defined(start, memory_pattern@, sensor_pattern@, gamma, steps as int),
                obeys_order::<T>(),
                T::obeys_from_spec(),
                self@ == settled(start, memory_pattern@, sensor_pattern@, gamma, k as int),
            decreases steps - k,
        {
            proof {
                lemma_settled_prefix(start, memory_pattern@, sensor_pattern@, gamma, steps as int, k as int + 1);
            }
            self.prediction(memory_pattern);
            self.error(sensor_pattern);
            self.inference_step(gamma);
            proof {
                self.lemma_wf_shaped();
            }
            k += 1;
        }
    }

    /// As `inference`, but in every round the sensor neurons whose entry in
    /// `sensor_pattern` is missing are moved too, so that they are filled in.
    pub fn inference_with_sensors(
        &mut self,
        memory_pattern: &[T],
        sensor_pattern: &[T],
        gamma: T,
        steps: usize,
    )
        requires
            old(self).wf(),
            steps > 0 ==> old(self)@.width(0) <= sensor_pattern@.len(),
            obeys_field::<T>(),
            obeys_order::<T>(),
            T::obeys_from_spec(),
            completed_defined(
                clamped(old(self)@, memory_pattern@, sensor_pattern@),
                memory_pattern@,
                sensor_pattern@,
                gamma,
                steps as int,
            ),
        ensures
            final(self).wf(),
            final(self)@ == completed(
                clamped(old(self)@, memory_pattern@, sensor_pattern@),
                memory_pattern@,
                sensor_pattern@,
                gamma,
                steps as int,
            ),
    {
        self.clamp(memory_pattern, sensor_pattern);
        let ghost start = self@;
        let mut k: usize = 0;
        while k < steps
            invariant
                k <= steps,
                self.wf(),
                steps > 0 ==> self@.width(0) <= sensor_pattern@.len(),
                obeys_field::<T>(),
                completed_defined(start, memory_pattern@, sensor_pattern@, gamma, steps as int),
                obeys_order::<T>(),
                T::obeys_from_spec(),
                self@ == completed(start, memory_pattern@, sensor_pattern@, gamma, k as int),
            decreases steps - k,
        {
            proof {
                lemma_completed_prefix(start, memory_pattern@, sensor_pattern@, gamma, steps as int, k as int + 1);
            }
            self.prediction(memory_pattern);
            self.error(sensor_pattern);
            self.inference_sensor_step(sensor_pattern, gamma);
            self.inference_step(gamma);
            proof {
                self.lemma_wf_shaped();
            }
            k += 1;
        }
    }

    /// Overwrites the memory layer and the sensor layer, as far as the
    /// patterns reach.
    fn clamp(&mut self, memory_pattern: &[T], sensor_pattern: &[T])
        requires
            old(self).wf(),
        ensures
            final(self).wf(),
            final(self)@ == clamped(old(self)@, memory_pattern@, sensor_pattern@),
            final(self)@.width(0) == old(self)@.width(0),
    {
        let top = self.layers - 1;
        self.neurons[top].copy_from(memory_pattern);
        self.neurons[0].copy_from(sensor_pattern);
        proof {
            let goal = clamped(old(self)@, memory_pattern@, sensor_pattern@);
            self.lemma_neurons_moved(&*old(self));
            assert(self@.neurons =~= goal.neurons);
            assert(self@.weights =~= goal.weights);
            assert(self@.predictions =~= goal.predictions);
            assert(self@.errors =~= goal.errors);
        }
    }

    /// One step of learning from the errors as they are: every weight
    /// `(r, c)` below layer `i + 1` grows by `alpha * error_i[r] *
    /// act(neurons_i[c])`, and the memory neurons move against their error.
    /// No layer may be wider than the layer below it.
    pub fn learn(&mut self, alpha: T)
        requires
            old(self).wf(),
            forall|i: int|
                0 <= i < old(self)@.depth() - 1 ==> #[trigger] old(self)@.width(i + 1) <= old(
                    self,
                )@.width(i),
            obeys_field::<T>(),
            learn_defined(old(self)@, alpha),
        ensures
            final(self).wf(),
            final(self)@ == learned(old(self)@, alpha),
    {
        let top = self.layers - 1;
        let mut i: usize = 0;
        proof {
            assert forall|k: int| 0 <= k < top implies old(self).neurons@[k + 1]@.len() <= (
            #[trigger] old(self).neurons@[k])@.len() by {
                assert(old(self)@.width(k + 1) <= old(self)@.width(k));
            }
        }
        while i < top
            invariant
                i <= top,
                top == self.layers - 1,
                self.wf(),
                old(self).wf(),
                obeys_field::<T>(),
                learn_defined(old(self)@, alpha),
                self.neurons == old(self).neurons,
                self.predictions == old(self).predictions,
                self.errors == old(self).errors,
                self.act == old(self).act,
                self.epsilon == old(self).epsilon,
                self.layers == old(self).layers,
                self.weights@.len() == old(self).weights@.len(),
                forall|k: int|
                    0 <= k < top ==> old(self).neurons@[k + 1]@.len() <= (#[trigger] old(
                        self,
                    ).neurons@[k])@.len(),
                forall|k: int| i <= k < top ==> self.weights@[k] == old(self).weights@[k],
                forall|k: int|
                    0 <= k < i ==> (#[trigger] self.weights@[k])@ == learned_weights(
                        &self.act,
                        old(self).weights@[k]@,
                        self.errors@[k]@,
                        self.neurons@[k]@,
                        alpha,
                    ),
            decreases top - i,
        {
            let rows = self.weights[i].rows();
            let cols = self.weights[i].cols();
            proof {
                assert(self.weights@[i as int].wf());
                assert(old(self).neurons@[i + 1]@.len() <= old(self).neurons@[i as int]@.len());
                assert(self.errors@[i as int]@.len() == self.neurons@[i as int]@.len());
            }
            let mut r: usize = 0;
            while r < rows
                invariant
                    r <= rows,
                    i < top,
                    top == self.layers - 1,
                    old(self).wf(),
                    obeys_field::<T>(),
                learn_defined(old(self)@, alpha),
                    is_function(&self.act),
                self.neurons == old(self).neurons,
                self.predictions == old(self).predictions,
                self.errors == old(self).errors,
                self.act == old(self).act,
                self.epsilon == old(self).epsilon,
                self.layers == old(self).layers,
                    self.weights@.len() == old(self).weights@.len(),
                    rows == self.neurons@[i as int]@.len(),
                    cols == self.neurons@[i + 1]@.len(),
                    cols <= rows,
                    rows == self.errors@[i as int]@.len(),
                    self.weights@[i as int].wf(),
                    self.weights@[i as int].height() == rows,
                    self.weights@[i as int].width() == cols,
                    forall|k: int|
                        0 <= k < top && k != i ==> {
                            &&& (#[trigger] self.weights@[k]).wf()
                            &&& self.weights@[k].height() == self.neurons@[k]@.len()
                            &&& self.weights@[k].width() == self.neurons@[k + 1]@.len()
                        },
                    forall|k: int| i < k < top ==> self.weights@[k] == old(self).weights@[k],
                    forall|k: int|
                        0 <= k < i ==> (#[trigger] self.weights@[k])@ == learned_weights(
                            &self.act,
                            old(self).weights@[k]@,
                            self.errors@[k]@,
                            self.neurons@[k]@,
                            alpha,
                        ),
                    forall|a: int, b: int|
                        0 <= a < rows && 0 <= b < cols ==> #[trigger] self.weights@[i as int]@[a][b]
                            == (if a < r {
                            learned_weights(
                                &self.act,
                                old(self).weights@[i as int]@,
                                self.errors@[i as int]@,
                                self.neurons@[i as int]@,
                                alpha,
                            )[a][b]
                        } else {
                            old(self).weights@[i as int]@[a][b]
                        }),
                decreases rows - r,
            {
                let mut c: usize = 0;
                while c < cols
                    invariant
                        c <= cols,
                        r < rows,
                        i < top,
                        top == self.layers - 1,
                        old(self).wf(),
                        obeys_field::<T>(),
                learn_defined(old(self)@, alpha),
                        is_function(&self.act),
                self.neurons == old(self).neurons,
                self.predictions == old(self).predictions,
                self.errors == old(self).errors,
                self.act == old(self).act,
                self.epsilon == old(self).epsilon,
                self.layers == old(self).layers,
                        self.weights@.len() == old(self).weights@.len(),
                        rows == self.neurons@[i as int]@.len(),
                        cols == self.neurons@[i + 1]@.len(),
                        cols <= rows,
                        rows == self.errors@[i as int]@.len(),
                        self.weights@[i as int].wf(),
                        self.weights@[i as int].height() == rows,
                        self.weights@[i as int].width() == cols,
                        forall|k: int|
                            0 <= k < top && k != i ==> {
                            &&& (#[trigger] self.weights@[k]).wf()
                            &&& self.weights@[k].height() == self.neurons@[k]@.len()
                            &&& self.weights@[k].width() == self.neurons@[k + 1]@.len()
                        },
                        forall|k: int| i < k < top ==> self.weights@[k] == old(self).weights@[k],
                        forall|k: int|
                            0 <= k < i ==> (#[trigger] self.weights@[k])@ == learned_weights(
                                &self.act,
                                old(self).weights@[k]@,
                                self.errors@[k]@,
                                self.neurons@[k]@,
                                alpha,
                            ),
                        forall|a: int, b: int|
                            0 <= a < rows && 0 <= b < cols ==> #[trigger] self.weights@[i as int]@[a][b]
                                == (if a < r || (a == r && b < c) {
                                learned_weights(
                                    &self.act,
                                    old(self).weights@[i as int]@,
                                    self.errors@[i as int]@,
                                    self.neurons@[i as int]@,
                                    alpha,
                                )[a][b]
                            } else {
                                old(self).weights@[i as int]@[a][b]
                            }),
                    decreases cols - c,
                {
                    proof {
                        assert(old(self).weights@[i as int].wf());
                        assert(self.weights@[i as int]@[r as int][c as int] == old(
                            self,
                        ).weights@[i as int]@[r as int][c as int]);
                        assert(old(self)@.weights[i as int][r as int][c as int] == old(
                            self,
                        ).weights@[i as int]@[r as int][c as int]);
                        assert(old(self)@.errors[i as int] == self.errors@[i as int]@);
                        assert(old(self)@.neurons[i as int] == self.neurons@[i as int]@);
                        assert(old(self)@.width(i as int) == rows);
                        assert(old(self)@.width(i + 1) == cols);
                    }
                    let t = (self.act)(self.neurons[i][c]);
                    let v = *self.weights[i].get(r, c) + alpha * self.errors[i][r] * t;
                    self.weights[i].set(r, c, v);
                    c += 1;
                }
                r += 1;
            }
            proof {
                assert(old(self).weights@[i as int].wf());
                let goal = learned_weights(
                    &self.act,
                    old(self).weights@[i as int]@,
                    self.errors@[i as int]@,
                    self.neurons@[i as int]@,
                    alpha,
                );
                assert forall|a: int| 0 <= a < rows implies #[trigger] self.weights@[i as int]@[a]
                    =~= goal[a] by {
                    assert forall|b: int| 0 <= b < cols implies self.weights@[i as int]@[a][b]
                        == goal[a][b] by {}
                }
                assert(self.weights@[i as int]@ =~= goal);
            }
            i += 1;
        }
        let n = self.neurons[top].len();
        let mut j: usize = 0;
        let ghost mid = *self;
        while j < n
            invariant
                j <= n,
                top == self.layers - 1,
                n == old(self).neurons@[top as int]@.len(),
                self.wf(),
                old(self).wf(),
                obeys_field::<T>(),
                learn_defined(old(self)@, alpha),
                mid.wf(),
                mid.neurons == old(self).neurons,
                mid.predictions == old(self).predictions,
                mid.errors == old(self).errors,
                mid.act == old(self).act,
                mid.layers == old(self).layers,
                self.weights == mid.weights,
                self.predictions == old(self).predictions,
                self.errors == old(self).errors,
                self.act == old(self).act,
                self.epsilon == old(self).epsilon,
                self.layers == old(self).layers,
                self.neurons@.len() == old(self).neurons@.len(),
                self.neurons@[top as int]@.len() == n,
                forall|k: int| 0 <= k < top ==> self.neurons@[k] == old(self).neurons@[k],
                forall|k: int|
                    0 <= k < j ==> self.neurons@[top as int]@[k] == descended(
                        old(self).neurons@[top as int]@,
                        self.errors@[top as int]@,
                        alpha,
                    )[k],
                forall|k: int|
                    j <= k < n ==> self.neurons@[top as int]@[k] == old(self).neurons@[top as int]@[k],
            decreases n - j,
        {
            proof {
                assert(self.errors@[top as int]@.len() == self.neurons@[top as int]@.len());
                assert(old(self)@.errors[top as int] == self.errors@[top as int]@);
                assert(old(self)@.neurons[top as int] == old(self).neurons@[top as int]@);
                assert(old(self)@.depth() - 1 == top);
                assert(old(self)@.width(top as int) == n);
                assert(alpha.mul_req(old(self)@.errors[top as int][j as int]));
            }
            let x = self.neurons[top][j] - alpha * self.errors[top][j];
            self.neurons[top][j] = x;
            proof {
                self.lemma_neurons_moved(&mid);
            }
            j += 1;
        }
        proof {
            let goal = learned(old(self)@, alpha);
            assert(self.neurons@[top as int]@ =~= goal.neurons[top as int]);
            assert(self@.neurons =~= goal.neurons);
            assert forall|k: int| 0 <= k < top implies #[trigger] self@.weights[k] == goal.weights[k] by {
                assert(mid.weights@[k]@ == learned_weights(
                    &mid.act,
                    old(self).weights@[k]@,
                    mid.errors@[k]@,
                    mid.neurons@[k]@,
                    alpha,
                ));
            }
            assert(self@.weights =~= goal.weights);
            assert(self@.predictions =~= goal.predictions);
            assert(self@.errors =~= goal.errors);
        }
    }
}

} // verus!
