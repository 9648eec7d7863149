//! The modern, continuous Hopfield network: every learned pattern is kept as
//! a row of a dense matrix, and recall weighs the rows by the softmax of
//! their scores against the probe.

use vstd::prelude::*;
use vstd::std_specs::convert::FromSpec;
use vstd::std_specs::ops::AddSpec;
use vstd::std_specs::ops::DivSpec;
use vstd::std_specs::ops::MulSpec;
use vstd::std_specs::ops::NegSpec;
use vstd::std_specs::ops::SubSpec;
use core::ops::Add;
use core::ops::Div;
use core::ops::Mul;
use core::ops::Neg;
use core::ops::Sub;
use crate::algebra::applied;
use crate::algebra::is_function;
use crate::algebra::lemma_sum_defined_prefix;
use crate::algebra::obeys_field;
use crate::algebra::sum_defined;
use crate::algebra::sum_from;
use crate::algebra::zero;
use crate::dmatrix::back_project;
use crate::dmatrix::project;
use crate::dmatrix::DMatrix;
use crate::state::filled;
use crate::state::softmax_defined;
use crate::state::softmaxed;
use crate::state::State;
use crate::threshold::bipolar;
use crate::threshold::obeys_order;

verus! {

/// Every entry replaced by its sign: `+1` where it is at least `0`, `-1`
/// elsewhere.
pub open spec fn thresholded<T: PartialOrd + From<i8>>(s: Seq<T>) -> Seq<T> {
    Seq::new(s.len(), |i: int| bipolar(s[i], zero::<T>()))
}

/// The pattern that the network recalls for the probe `input`.
pub open spec fn recalled<
    T: Add<Output = T> + Mul<Output = T> + Div<Output = T> + PartialOrd + From<i8>,
    E: Fn(T) -> T,
>(mat: &DMatrix<T>, input: Seq<T>, exp: &E, epsilon: T) -> Seq<T> {
    thresholded(back_project(mat@, softmaxed(project(mat@, input), exp, epsilon), mat.width()))
}

/// Every step of `recalled(mat, input, exp, epsilon)` may be computed.
pub open spec fn recall_defined<
    T: Add<Output = T> + Mul<Output = T> + Div<Output = T> + PartialOrd + From<i8>,
    E: Fn(T) -> T,
>(mat: &DMatrix<T>, input: Seq<T>, exp: &E, epsilon: T) -> bool {
    &&& mat.project_defined(input)
    &&& softmax_defined(project(mat@, input), exp, epsilon)
    &&& mat.back_project_defined(softmaxed(project(mat@, input), exp, epsilon))
}

/// Replaces every entry of `state` by its sign.
pub fn activation<T: Copy + PartialOrd + From<i8>>(state: &mut [T])
    requires
        obeys_order::<T>(),
        T::obeys_from_spec(),
    ensures
        final(state)@ == thresholded(old(state)@),
{
    let n = state.len();
    let origin = T::from(0i8);
    let mut i: usize = 0;
    while i < n
        invariant
            i <= n,
            n == state@.len(),
            state@.len() == old(state)@.len(),
            obeys_order::<T>(),
            T::obeys_from_spec(),
            origin == zero::<T>(),
            forall|k: int| 0 <= k < i ==> state@[k] == bipolar(old(state)@[k], origin),
            forall|k: int| i <= k < n ==> state@[k] == old(state)@[k],
        decreases n - i,
    {
        let a = crate::threshold::activation(state[i], origin);
        state[i] = a;
        i += 1;
    }
    assert(state@ =~= thresholded(old(state)@));
}

/// Recalls a pattern: scores `input_state` against every stored row, turns
/// the scores into weights by softmax, recombines the rows with those
/// weights, and takes the sign of each entry. `exp` is the element type's
/// exponential function and `epsilon` the bound of the softmax.
pub fn update_state_sync<
    T: Copy + Add<Output = T> + Sub<Output = T> + Mul<Output = T> + Div<Output = T> + Neg<
        Output = T,
    > + PartialOrd + From<i8>,
    E: Fn(T) -> T,
>(mat: &DMatrix<T>, input_state: &[T], output_state: &mut [T], exp: &E, epsilon: T)
    requires
        mat.wf(),
        input_state@.len() == mat.width(),
        old(output_state)@.len() == mat.width(),
        obeys_field::<T>(),
        obeys_order::<T>(),
        T::obeys_from_spec(),
        is_function(exp),
        recall_defined(mat, input_state@, exp, epsilon),
    ensures
        final(output_state)@ == recalled(mat, input_state@, exp, epsilon),
{
    let mut weights = filled(mat.rows(), T::from(0i8));
    mat.mul_vec(input_state, &mut weights);
    weights.softmax(exp, epsilon);
    mat.trans_mul_vec(&weights, output_state);
    activation(output_state);
}

/// Stores `pattern` as one more row.
pub fn learn<T: Copy>(mat: &mut DMatrix<T>, pattern: &[T])
    requires
        old(mat).wf(),
        old(mat).width() == pattern@.len(),
        old(mat).height() < usize::MAX,
    ensures
        final(mat).wf(),
        final(mat).height() == old(mat).height() + 1,
        final(mat).width() == old(mat).width(),
        final(mat)@ == old(mat)@.push(pattern@),
{
    mat.add_row(pattern);
}

/// The exponentials of `beta * x[i]`.
pub open spec fn scaled_exponentials<T: Mul<Output = T>, E: Fn(T) -> T>(
    beta: T,
    x: Seq<T>,
    exp: &E,
) -> Seq<T> {
    Seq::new(x.len(), |i: int| applied(exp, beta.mul_spec(x[i])))
}

/// The log-sum-exp of `x` at inverse temperature `beta`:
/// `ln(sum exp(beta * x[i])) / beta`.
pub open spec fn log_sum_exp<
    T: Add<Output = T> + Mul<Output = T> + Div<Output = T> + From<i8>,
    E: Fn(T) -> T,
    L: Fn(T) -> T,
>(beta: T, x: Seq<T>, exp: &E, ln: &L) -> T {
    applied(ln, sum_from(zero::<T>(), scaled_exponentials(beta, x, exp), x.len() as int)).div_spec(
        beta,
    )
}

/// Every step of `log_sum_exp(beta, x, exp, ln)` may be computed.
pub open spec fn log_sum_exp_defined<
    T: Add<Output = T> + Mul<Output = T> + Div<Output = T> + From<i8>,
    E: Fn(T) -> T,
    L: Fn(T) -> T,
>(beta: T, x: Seq<T>, exp: &E, ln: &L) -> bool {
    let terms = scaled_exponentials(beta, x, exp);
    &&& forall|i: int| 0 <= i < x.len() ==> beta.mul_req(#[trigger] x[i])
    &&& sum_defined(zero::<T>(), terms, x.len() as int)
    &&& applied(ln, sum_from(zero::<T>(), terms, x.len() as int)).div_req(beta)
}

/// Computes `log_sum_exp`; `exp` and `ln` are the element type's exponential
/// function and natural logarithm.
pub fn lse<
    T: Copy + Add<Output = T> + Sub<Output = T> + Mul<Output = T> + Div<Output = T> + Neg<
        Output = T,
    > + From<i8>,
    E: Fn(T) -> T,
    L: Fn(T) -> T,
>(beta: T, x: &[T], exp: &E, ln: &L) -> (r: T)
    requires
        obeys_field::<T>(),
        T::obeys_from_spec(),
        is_function(exp),
        is_function(ln),
        log_sum_exp_defined(beta, x@, exp, ln),
    ensures
        r == log_sum_exp(beta, x@, exp, ln),
{
    let n = x.len();
    let mut acc = T::from(0i8);
    let mut i: usize = 0;
    while i < n
        invariant
            i <= n,
            n == x@.len(),
            obeys_field::<T>(),
            is_function(exp),
            log_sum_exp_defined(beta, x@, exp, ln),
            acc == sum_from(zero::<T>(), scaled_exponentials(beta, x@, exp), i as int),
        decreases n - i,
    {
        proof {
            lemma_sum_defined_prefix(
                zero::<T>(),
                scaled_exponentials(beta, x@, exp),
                n as int,
                i as int + 1,
            );
            assert(beta.mul_req(x@[i as int]));
        }
        acc = acc + exp(beta * x[i]);
        i += 1;
    }
    ln(acc) / beta
}

/// The energy of `pattern`: `-exp(log_sum_exp(1, p))`, where `p` recombines
/// the stored rows with `pattern` as the weights.
pub open spec fn energy_of<
    T: Add<Output = T> + Mul<Output = T> + Div<Output = T> + Neg<Output = T> + From<i8>,
    E: Fn(T) -> T,
    L: Fn(T) -> T,
>(mat: &DMatrix<T>, pattern: Seq<T>, exp: &E, ln: &L) -> T {
    applied(
        exp,
        log_sum_exp(T::from_spec(1i8), back_project(mat@, pattern, mat.width()), exp, ln),
    ).neg_spec()
}

/// Every step of `energy_of(mat, pattern, exp, ln)` may be computed.
pub open spec fn energy_defined<
    T: Add<Output = T> + Mul<Output = T> + Div<Output = T> + Neg<Output = T> + From<i8>,
    E: Fn(T) -> T,
    L: Fn(T) -> T,
>(mat: &DMatrix<T>, pattern: Seq<T>, exp: &E, ln: &L) -> bool {
    let projection = back_project(mat@, pattern, mat.width());
    &&& mat.back_project_defined(pattern)
    &&& log_sum_exp_defined(T::from_spec(1i8), projection, exp, ln)
    &&& applied(exp, log_sum_exp(T::from_spec(1i8), projection, exp, ln)).neg_req()
}

/// Computes `energy_of`. The pattern is both as long as a row and the
/// weights of a recombination of the rows, so the matrix must be square.
pub fn energy<
    T: Copy + Add<Output = T> + Sub<Output = T> + Mul<Output = T> + Div<Output = T> + Neg<
        Output = T,
    > + From<i8>,
    E: Fn(T) -> T,
    L: Fn(T) -> T,
>(mat: &DMatrix<T>, pattern: &[T], exp: &E, ln: &L) -> (e: T)
    requires
        mat.wf(),
        mat.width() == pattern@.len(),
        mat.height() == pattern@.len(),
        obeys_field::<T>(),
        T::obeys_from_spec(),
        is_function(exp),
        is_function(ln),
        energy_defined(mat, pattern@, exp, ln),
    ensures
        e == energy_of(mat, pattern@, exp, ln),
{
    let mut projection = filled(mat.rows(), T::from(0i8));
    mat.trans_mul_vec(pattern, &mut projection);
    let l = lse(T::from(1i8), &projection, exp, ln);
    exp(l).neg()
}

} // verus!
