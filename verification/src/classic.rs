//! The classic Hopfield network: bipolar neurons, a symmetric weight matrix
//! without self-connections, and the Hebbian and Storkey learning rules.

use vstd::prelude::*;
use vstd::std_specs::convert::FromSpec;
use vstd::std_specs::ops::AddSpec;
use vstd::std_specs::ops::DivSpec;
use vstd::std_specs::ops::MulSpec;
use vstd::std_specs::ops::SubSpec;
use core::ops::Add;
use core::ops::Div;
use core::ops::Mul;
use core::ops::Sub;
use crate::algebra::dot_defined;
use crate::algebra::dot_from;
use crate::algebra::min_len;
use crate::algebra::obeys_ring;
use crate::algebra::one;
use crate::algebra::zero;
use crate::smatrix::SMatrix;
use crate::threshold::activation;
use crate::threshold::bipolar;
use crate::threshold::obeys_order;

verus! {

/// The local field of neuron `i`: the weighted sum of the state over the
/// neurons that both the weights and the state have.
pub open spec fn local_field<T: Add<Output = T> + Mul<Output = T> + From<i8>>(
    weights: &SMatrix<T>,
    state: Seq<T>,
    i: int,
) -> T {
    dot_from(zero::<T>(), weights.row(i), state, min_len(weights.dim(), state.len() as int))
}

/// The local field of neuron `i` may be computed.
pub open spec fn local_field_defined<T: Add<Output = T> + Mul<Output = T> + From<i8>>(
    weights: &SMatrix<T>,
    state: Seq<T>,
    i: int,
) -> bool {
    dot_defined(zero::<T>(), weights.row(i), state, min_len(weights.dim(), state.len() as int))
}

/// Number of neurons that one synchronous update touches.
pub open spec fn sync_len(rows: int, input: int, output: int) -> int {
    min_len(min_len(rows, input), output)
}

/// Sets the diagonal to `0` and every weight off the diagonal to a value
/// drawn from `draw`, one draw for each pair of neurons.
pub fn initialize_weights<T: From<i8>, F: Fn() -> T>(weights: &mut SMatrix<T>, draw: &F)
    requires
        old(weights).wf(),
        draw.requires(()),
    ensures
        final(weights).wf(),
        final(weights).dim() == old(weights).dim(),
        forall|r: int|
            0 <= r < old(weights).dim() && T::obeys_from_spec() ==> #[trigger] final(weights).at(
                r,
                r,
            ) == zero::<T>(),
        forall|r: int, c: int|
            0 <= r < old(weights).dim() && 0 <= c < old(weights).dim() && r != c
                ==> draw.ensures((), #[trigger] final(weights).at(r, c)),
{
    let rows = weights.rows();
    let mut r: usize = 0;
    while r < rows
        invariant
            r <= rows,
            rows == weights.dim(),
            weights.wf(),
            draw.requires(()),
            forall|i: int|
                0 <= i < r && T::obeys_from_spec() ==> #[trigger] weights.at(i, i) == zero::<T>(),
            forall|i: int, j: int|
                0 <= i < r && i < j < rows ==> draw.ensures((), #[trigger] weights.at(i, j)),
        decreases rows - r,
    {
        let mut c: usize = r;
        while c < rows
            invariant
                r <= c <= rows,
                r < rows,
                rows == weights.dim(),
                weights.wf(),
                draw.requires(()),
                forall|i: int|
                    0 <= i < r + (if c > r { 1int } else { 0int }) && T::obeys_from_spec()
                        ==> #[trigger] weights.at(i, i) == zero::<T>(),
                forall|i: int, j: int|
                    0 <= i <= r && i < j < rows && (i < r || j < c) ==> draw.ensures(
                        (),
                        #[trigger] weights.at(i, j),
                    ),
            decreases rows - c,
        {
            if c == r {
                weights.set(r, c, T::from(0i8));
            } else {
                weights.set(r, c, draw());
            }
            c += 1;
        }
        r += 1;
    }
    proof {
        assert forall|i: int, j: int|
            0 <= i < rows && 0 <= j < rows && i != j implies draw.ensures(
            (),
            #[trigger] weights.at(i, j),
        ) by {
            if j < i {
                weights.lemma_symmetric(i, j);
                assert(draw.ensures((), weights.at(j, i)));
            }
        }
    }
}

/// Updates all neurons at once: every output is computed from the same
/// `input_state`. Entries of `output_state` beyond the neurons that the
/// weights, the input and the output all have are left as they were.
pub fn update_state_sync<T: Copy + Add<Output = T> + Mul<Output = T> + PartialOrd + From<i8>>(
    weights: &SMatrix<T>,
    bias: &[T],
    input_state: &[T],
    output_state: &mut [T],
)
    requires
        weights.wf(),
        obeys_ring::<T>(),
        obeys_order::<T>(),
        T::obeys_from_spec(),
        sync_len(weights.dim(), input_state@.len() as int, old(output_state)@.len() as int)
            <= bias@.len(),
        forall|i: int|
            0 <= i < sync_len(
                weights.dim(),
                input_state@.len() as int,
                old(output_state)@.len() as int,
            ) ==> #[trigger] local_field_defined(weights, input_state@, i),
    ensures
        final(output_state)@.len() == old(output_state)@.len(),
        forall|i: int|
            0 <= i < old(output_state)@.len() ==> #[trigger] final(output_state)@[i] == (if i
                < sync_len(
                weights.dim(),
                input_state@.len() as int,
                old(output_state)@.len() as int,
            ) {
                bipolar(local_field(weights, input_state@, i), bias@[i])
            } else {
                old(output_state)@[i]
            }),
{
    let rows = weights.rows();
    let l1 = if rows <= input_state.len() { rows } else { input_state.len() };
    let l = if l1 <= output_state.len() { l1 } else { output_state.len() };
    let origin = T::from(0i8);
    let mut i: usize = 0;
    while i < l
        invariant
            i <= l,
            l == sync_len(
                weights.dim(),
                input_state@.len() as int,
                old(output_state)@.len() as int,
            ),
            l <= bias@.len(),
            weights.wf(),
            obeys_ring::<T>(),
            obeys_order::<T>(),
            T::obeys_from_spec(),
            origin == zero::<T>(),
            output_state@.len() == old(output_state)@.len(),
            forall|k: int| 0 <= k < l ==> #[trigger] local_field_defined(weights, input_state@, k),
            forall|k: int|
                0 <= k < i ==> #[trigger] output_state@[k] == bipolar(
                    local_field(weights, input_state@, k),
                    bias@[k],
                ),
            forall|k: int|
                i <= k < output_state@.len() ==> #[trigger] output_state@[k] == old(output_state)@[k],
        decreases l - i,
    {
        assert(local_field_defined(weights, input_state@, i as int));
        let field = weights.row_mul(i, input_state, origin);
        output_state[i] = activation(field, bias[i]);
        i += 1;
    }
}

/// Updates the neuron `index` alone, from the state as it is now.
pub fn update_state_async<T: Copy + Add<Output = T> + Mul<Output = T> + PartialOrd + From<i8>>(
    weights: &SMatrix<T>,
    bias: &[T],
    state: &mut [T],
    index: usize,
)
    requires
        weights.wf(),
        obeys_ring::<T>(),
        obeys_order::<T>(),
        T::obeys_from_spec(),
        index < old(state)@.len(),
        index < weights.dim(),
        index < bias@.len(),
        local_field_defined(weights, old(state)@, index as int),
    ensures
        final(state)@ == old(state)@.update(
            index as int,
            bipolar(local_field(weights, old(state)@, index as int), bias@[index as int]),
        ),
{
    let field = weights.row_mul(index, &*state, T::from(0i8));
    let new_state_value = activation(field, bias[index]);
    state[index] = new_state_value;
}

/// The energy after the first `n` columns of row `r` have been subtracted
/// from `acc`: `acc - w(r,0)*s(r)*s(0) - ... - w(r,n-1)*s(r)*s(n-1)`.
pub open spec fn energy_row<T: Sub<Output = T> + Mul<Output = T>>(
    weights: &SMatrix<T>,
    state: Seq<T>,
    acc: T,
    r: int,
    n: int,
) -> T
    decreases n,
{
    if n <= 0 {
        acc
    } else {
        energy_row(weights, state, acc, r, n - 1).sub_spec(
            weights.at(r, n - 1).mul_spec(state[r]).mul_spec(state[n - 1]),
        )
    }
}

/// Every step of `energy_row(weights, state, acc, r, n)` may be computed.
pub open spec fn energy_row_defined<T: Sub<Output = T> + Mul<Output = T>>(
    weights: &SMatrix<T>,
    state: Seq<T>,
    acc: T,
    r: int,
    n: int,
) -> bool
    decreases n,
{
    n <= 0 || {
        &&& energy_row_defined(weights, state, acc, r, n - 1)
        &&& weights.at(r, n - 1).mul_req(state[r])
        &&& weights.at(r, n - 1).mul_spec(state[r]).mul_req(state[n - 1])
        &&& energy_row(weights, state, acc, r, n - 1).sub_req(
            weights.at(r, n - 1).mul_spec(state[r]).mul_spec(state[n - 1]),
        )
    }
}

/// The energy accumulated over the first `k` rows: for each row in turn, the
/// full row of pair terms and then the bias term are subtracted, from `0`.
pub open spec fn energy_upto<T: Sub<Output = T> + Mul<Output = T> + From<i8>>(
    weights: &SMatrix<T>,
    bias: Seq<T>,
    state: Seq<T>,
    k: int,
) -> T
    decreases k,
{
    if k <= 0 {
        zero::<T>()
    } else {
        energy_row(
            weights,
            state,
            energy_upto(weights, bias, state, k - 1),
            k - 1,
            state.len() as int,
        ).sub_spec(bias[k - 1].mul_spec(state[k - 1]))
    }
}

/// Every step of `energy_upto(weights, bias, state, k)` may be computed.
pub open spec fn energy_defined<T: Sub<Output = T> + Mul<Output = T> + From<i8>>(
    weights: &SMatrix<T>,
    bias: Seq<T>,
    state: Seq<T>,
    k: int,
) -> bool
    decreases k,
{
    k <= 0 || {
        &&& energy_defined(weights, bias, state, k - 1)
        &&& energy_row_defined(
            weights,
            state,
            energy_upto(weights, bias, state, k - 1),
            k - 1,
            state.len() as int,
        )
        &&& bias[k - 1].mul_req(state[k - 1])
        &&& energy_row(
            weights,
            state,
            energy_upto(weights, bias, state, k - 1),
            k - 1,
            state.len() as int,
        ).sub_req(bias[k - 1].mul_spec(state[k - 1]))
    }
}

proof fn lemma_energy_row_prefix<T: Sub<Output = T> + Mul<Output = T>>(
    weights: &SMatrix<T>,
    state: Seq<T>,
    acc: T,
    r: int,
    n: int,
    j: int,
)
    requires
        energy_row_defined(weights, state, acc, r, n),
        j <= n,
    ensures
        energy_row_defined(weights, state, acc, r, j),
    decreases n - j,
{
    if j < n && n > 0 {
        lemma_energy_row_prefix(weights, state, acc, r, n - 1, j);
    }
}

proof fn lemma_energy_prefix<T: Sub<Output = T> + Mul<Output = T> + From<i8>>(
    weights: &SMatrix<T>,
    bias: Seq<T>,
    state: Seq<T>,
    k: int,
    j: int,
)
    requires
        energy_defined(weights, bias, state, k),
        j <= k,
    ensures
        energy_defined(weights, bias, state, j),
    decreases k - j,
{
    if j < k && k > 0 {
        lemma_energy_prefix(weights, bias, state, k - 1, j);
    }
}

/// The energy of `state`: the sum over all ordered pairs `(r, c)` of
/// `-w(r,c)*s(r)*s(c)`, each pair of neurons counted twice, and over all
/// neurons of `-bias(r)*s(r)`.
pub fn energy<T: Copy + Sub<Output = T> + Mul<Output = T> + From<i8>>(
    weights: &SMatrix<T>,
    bias: &[T],
    state: &[T],
) -> (e: T)
    requires
        weights.wf(),
        state@.len() <= weights.dim(),
        state@.len() <= bias@.len(),
        T::obeys_sub_spec(),
        T::obeys_mul_spec(),
        T::obeys_from_spec(),
        energy_defined(weights, bias@, state@, state@.len() as int),
    ensures
        e == energy_upto(weights, bias@, state@, state@.len() as int),
{
    let n = state.len();
    let mut acc = T::from(0i8);
    let mut r: usize = 0;
    while r < n
        invariant
            r <= n,
            n == state@.len(),
            n <= weights.dim(),
            n <= bias@.len(),
            weights.wf(),
            T::obeys_sub_spec(),
            T::obeys_mul_spec(),
            energy_defined(weights, bias@, state@, n as int),
            acc == energy_upto(weights, bias@, state@, r as int),
        decreases n - r,
    {
        proof {
            lemma_energy_prefix(weights, bias@, state@, n as int, r as int + 1);
        }
        let ghost start = acc;
        let mut c: usize = 0;
        while c < n
            invariant
                c <= n,
                r < n,
                n == state@.len(),
                n <= weights.dim(),
                weights.wf(),
                T::obeys_sub_spec(),
                T::obeys_mul_spec(),
                energy_row_defined(weights, state@, start, r as int, n as int),
                acc == energy_row(weights, state@, start, r as int, c as int),
            decreases n - c,
        {
            proof {
                lemma_energy_row_prefix(weights, state@, start, r as int, n as int, c as int + 1);
            }
            acc = acc - *weights.get(r, c) * state[r] * state[c];
            c += 1;
        }
        acc = acc - bias[r] * state[r];
        r += 1;
    }
    acc
}

/// `n` counted in the element type: `0 + 1 + ... + 1`, with `n` ones.
pub open spec fn counted<T: Add<Output = T> + From<i8>>(n: int) -> T
    decreases n,
{
    if n <= 0 {
        zero::<T>()
    } else {
        counted::<T>(n - 1).add_spec(one::<T>())
    }
}

/// Every step of `counted(n)` may be computed.
pub open spec fn counted_defined<T: Add<Output = T> + From<i8>>(n: int) -> bool
    decreases n,
{
    n <= 0 || (counted_defined::<T>(n - 1) && counted::<T>(n - 1).add_req(one::<T>()))
}

proof fn lemma_counted_prefix<T: Add<Output = T> + From<i8>>(n: int, j: int)
    requires
        counted_defined::<T>(n),
        j <= n,
    ensures
        counted_defined::<T>(j),
    decreases n - j,
{
    if j < n && n > 0 {
        lemma_counted_prefix::<T>(n - 1, j);
    }
}

/// The factor of the Hebbian rule for patterns of `n` neurons: `1 / n`.
pub open spec fn hebb_scale<T: Add<Output = T> + Div<Output = T> + From<i8>>(n: int) -> T {
    one::<T>().div_spec(counted::<T>(n))
}

/// What the Hebbian rule adds to the weight between neurons `r` and `c`.
pub open spec fn hebb_term<T: Mul<Output = T>>(scale: T, pattern: Seq<T>, r: int, c: int) -> T {
    scale.mul_spec(pattern[r]).mul_spec(pattern[c])
}

/// The Hebbian update of the weight `w` between `r` and `c` may be computed.
pub open spec fn hebb_defined<T: Add<Output = T> + Mul<Output = T>>(
    w: T,
    scale: T,
    pattern: Seq<T>,
    r: int,
    c: int,
) -> bool {
    &&& scale.mul_req(pattern[r])
    &&& scale.mul_spec(pattern[r]).mul_req(pattern[c])
    &&& w.add_req(hebb_term(scale, pattern, r, c))
}

/// Hebbian learning of one pattern: the weight between two different
/// neurons `r < c` grows by `(1 / N) * pattern[r] * pattern[c]`, where `N`
/// is the length of the pattern. The diagonal is not touched.
///
/// The element type need not convert from a length, so `N` is counted in it.
pub fn hebb_learn<
    T: Copy + Add<Output = T> + Mul<Output = T> + Div<Output = T> + From<i8>,
>(weights: &mut SMatrix<T>, pattern: &[T])
    requires
        old(weights).wf(),
        old(weights).dim() <= pattern@.len(),
        obeys_ring::<T>(),
        T::obeys_div_spec(),
        T::obeys_from_spec(),
        counted_defined::<T>(pattern@.len() as int),
        one::<T>().div_req(counted::<T>(pattern@.len() as int)),
        forall|r: int, c: int|
            0 <= r < c < old(weights).dim() ==> hebb_defined(
                #[trigger] old(weights).at(r, c),
                hebb_scale::<T>(pattern@.len() as int),
                pattern@,
                r,
                c,
            ),
    ensures
        final(weights).wf(),
        final(weights).dim() == old(weights).dim(),
        forall|r: int|
            0 <= r < old(weights).dim() ==> #[trigger] final(weights).at(r, r) == old(weights).at(
                r,
                r,
            ),
        forall|r: int, c: int|
            0 <= r < c < old(weights).dim() ==> #[trigger] final(weights).at(r, c) == old(
                weights,
            ).at(r, c).add_spec(hebb_term(hebb_scale::<T>(pattern@.len() as int), pattern@, r, c)),
        forall|r: int, c: int|
            0 <= c < r < old(weights).dim() ==> #[trigger] final(weights).at(r, c)
                == final(weights).at(c, r),
{
    let len = pattern.len();
    let mut count = T::from(0i8);
    let unit = T::from(1i8);
    let mut k: usize = 0;
    while k < len
        invariant
            k <= len,
            len == pattern@.len(),
            T::obeys_add_spec(),
            unit == one::<T>(),
            counted_defined::<T>(len as int),
            count == counted::<T>(k as int),
        decreases len - k,
    {
        proof {
            lemma_counted_prefix::<T>(len as int, k as int + 1);
        }
        count = count + unit;
        k += 1;
    }
    let n_inv = unit / count;
    let rows = weights.rows();
    let mut r: usize = 0;
    while r < rows
        invariant
            r <= rows,
            rows == old(weights).dim(),
            weights.dim() == rows,
            rows <= pattern@.len(),
            weights.wf(),
            obeys_ring::<T>(),
            n_inv == hebb_scale::<T>(pattern@.len() as int),
            forall|i: int, j: int|
                0 <= i < j < rows ==> hebb_defined(
                    #[trigger] old(weights).at(i, j),
                    n_inv,
                    pattern@,
                    i,
                    j,
                ),
            forall|i: int| 0 <= i < rows ==> #[trigger] weights.at(i, i) == old(weights).at(i, i),
            forall|i: int, j: int|
                0 <= i < j < rows ==> #[trigger] weights.at(i, j) == (if i < r {
                    old(weights).at(i, j).add_spec(hebb_term(n_inv, pattern@, i, j))
                } else {
                    old(weights).at(i, j)
                }),
        decreases rows - r,
    {
        let mut c: usize = r + 1;
        while c < rows
            invariant
                r < c <= rows,
                r < rows,
                rows == old(weights).dim(),
                weights.dim() == rows,
                rows <= pattern@.len(),
                weights.wf(),
                obeys_ring::<T>(),
                forall|i: int, j: int|
                    0 <= i < j < rows ==> hebb_defined(
                        #[trigger] old(weights).at(i, j),
                        n_inv,
                        pattern@,
                        i,
                        j,
                    ),
                forall|i: int|
                    0 <= i < rows ==> #[trigger] weights.at(i, i) == old(weights).at(i, i),
                forall|i: int, j: int|
                    0 <= i < j < rows ==> #[trigger] weights.at(i, j) == (if i < r || (i == r && j
                        < c) {
                        old(weights).at(i, j).add_spec(hebb_term(n_inv, pattern@, i, j))
                    } else {
                        old(weights).at(i, j)
                    }),
            decreases rows - c,
        {
            assert(weights.at(r as int, c as int) == old(weights).at(r as int, c as int));
            assert(hebb_defined(old(weights).at(r as int, c as int), n_inv, pattern@, r as int, c as int));
            let v = *weights.get(r, c) + n_inv * pattern[r] * pattern[c];
            weights.set(r, c, v);
            c += 1;
        }
        r += 1;
    }
    proof {
        assert forall|i: int, j: int| 0 <= j < i < rows implies #[trigger] weights.at(i, j)
            == weights.at(j, i) by {
            weights.lemma_symmetric(i, j);
        }
    }
}

/// The local fields of all neurons under `pattern`.
pub open spec fn local_fields<T: Add<Output = T> + Mul<Output = T> + From<i8>>(
    weights: &SMatrix<T>,
    pattern: Seq<T>,
) -> Seq<T> {
    Seq::new(pattern.len(), |i: int| local_field(weights, pattern, i))
}

/// What the Storkey rule adds to the weight between neurons `r` and `c`:
/// `amount * (p[r]*p[c] - p[r]*h[c] - h[r]*p[c])`, with `h` the local fields.
pub open spec fn storkey_term<T: Sub<Output = T> + Mul<Output = T>>(
    amount: T,
    p: Seq<T>,
    h: Seq<T>,
    r: int,
    c: int,
) -> T {
    amount.mul_spec(
        p[r].mul_spec(p[c]).sub_spec(p[r].mul_spec(h[c])).sub_spec(h[r].mul_spec(p[c])),
    )
}

/// The Storkey update of the weight `w` between `r` and `c` may be computed.
pub open spec fn storkey_defined<T: Add<Output = T> + Sub<Output = T> + Mul<Output = T>>(
    w: T,
    amount: T,
    p: Seq<T>,
    h: Seq<T>,
    r: int,
    c: int,
) -> bool {
    &&& p[r].mul_req(p[c])
    &&& p[r].mul_req(h[c])
    &&& h[r].mul_req(p[c])
    &&& p[r].mul_spec(p[c]).sub_req(p[r].mul_spec(h[c]))
    &&& p[r].mul_spec(p[c]).sub_spec(p[r].mul_spec(h[c])).sub_req(h[r].mul_spec(p[c]))
    &&& amount.mul_req(
        p[r].mul_spec(p[c]).sub_spec(p[r].mul_spec(h[c])).sub_spec(h[r].mul_spec(p[c])),
    )
    &&& w.add_req(storkey_term(amount, p, h, r, c))
}

/// Storkey learning of one pattern, in its reduced form: the local fields
/// are taken under the weights as they are before the call, and the weight
/// between two different neurons `r < c` grows by
/// `amount * (p[r]*p[c] - p[r]*h[c] - h[r]*p[c])`. The diagonal is not
/// touched.
pub fn storkey_learn<
    T: Copy + Add<Output = T> + Sub<Output = T> + Mul<Output = T> + From<i8>,
>(weights: &mut SMatrix<T>, pattern: &[T], amount: T)
    requires
        old(weights).wf(),
        old(weights).dim() == pattern@.len(),
        obeys_ring::<T>(),
        T::obeys_sub_spec(),
        T::obeys_from_spec(),
        forall|i: int|
            0 <= i < pattern@.len() ==> #[trigger] local_field_defined(old(weights), pattern@, i),
        forall|r: int, c: int|
            0 <= r < c < old(weights).dim() ==> storkey_defined(
                #[trigger] old(weights).at(r, c),
                amount,
                pattern@,
                local_fields(old(weights), pattern@),
                r,
                c,
            ),
    ensures
        final(weights).wf(),
        final(weights).dim() == old(weights).dim(),
        forall|r: int|
            0 <= r < old(weights).dim() ==> #[trigger] final(weights).at(r, r) == old(weights).at(
                r,
                r,
            ),
        forall|r: int, c: int|
            0 <= r < c < old(weights).dim() ==> #[trigger] final(weights).at(r, c) == old(
                weights,
            ).at(r, c).add_spec(
                storkey_term(amount, pattern@, local_fields(old(weights), pattern@), r, c),
            ),
        forall|r: int, c: int|
            0 <= c < r < old(weights).dim() ==> #[trigger] final(weights).at(r, c)
                == final(weights).at(c, r),
{
    let len = pattern.len();
    let origin = T::from(0i8);
    let mut h: Vec<T> = Vec::with_capacity(len);
    let mut k: usize = 0;
    while k < len
        invariant
            k <= len,
            len == pattern@.len(),
            len == weights.dim(),
            *weights == *old(weights),
            weights.wf(),
            obeys_ring::<T>(),
            origin == zero::<T>(),
            h@.len() == k,
            forall|i: int|
                0 <= i < len ==> #[trigger] local_field_defined(old(weights), pattern@, i),
            forall|i: int| 0 <= i < k ==> #[trigger] h@[i] == local_field(old(weights), pattern@, i),
        decreases len - k,
    {
        assert(local_field_defined(old(weights), pattern@, k as int));
        let field = weights.row_mul(k, pattern, origin);
        h.push(field);
        k += 1;
    }
    assert(h@ =~= local_fields(old(weights), pattern@));
    let rows = weights.rows();
    let mut r: usize = 0;
    while r < rows
        invariant
            r <= rows,
            rows == old(weights).dim(),
            weights.dim() == rows,
            rows == pattern@.len(),
            weights.wf(),
            obeys_ring::<T>(),
            T::obeys_sub_spec(),
            h@ == local_fields(old(weights), pattern@),
            forall|i: int, j: int|
                0 <= i < j < rows ==> storkey_defined(
                    #[trigger] old(weights).at(i, j),
                    amount,
                    pattern@,
                    h@,
                    i,
                    j,
                ),
            forall|i: int| 0 <= i < rows ==> #[trigger] weights.at(i, i) == old(weights).at(i, i),
            forall|i: int, j: int|
                0 <= i < j < rows ==> #[trigger] weights.at(i, j) == (if i < r {
                    old(weights).at(i, j).add_spec(storkey_term(amount, pattern@, h@, i, j))
                } else {
                    old(weights).at(i, j)
                }),
        decreases rows - r,
    {
        let mut c: usize = r + 1;
        while c < rows
            invariant
                r < c <= rows,
                r < rows,
                rows == old(weights).dim(),
                weights.dim() == rows,
                rows == pattern@.len(),
                weights.wf(),
                obeys_ring::<T>(),
                T::obeys_sub_spec(),
                h@ == local_fields(old(weights), pattern@),
                forall|i: int, j: int|
                    0 <= i < j < rows ==> storkey_defined(
                        #[trigger] old(weights).at(i, j),
                        amount,
                        pattern@,
                        h@,
                        i,
                        j,
                    ),
                forall|i: int|
                    0 <= i < rows ==> #[trigger] weights.at(i, i) == old(weights).at(i, i),
                forall|i: int, j: int|
                    0 <= i < j < rows ==> #[trigger] weights.at(i, j) == (if i < r || (i == r && j
                        < c) {
                        old(weights).at(i, j).add_spec(storkey_term(amount, pattern@, h@, i, j))
                    } else {
                        old(weights).at(i, j)
                    }),
            decreases rows - c,
        {
            assert(weights.at(r as int, c as int) == old(weights).at(r as int, c as int));
            assert(storkey_defined(
                old(weights).at(r as int, c as int),
                amount,
                pattern@,
                h@,
                r as int,
                c as int,
            ));
            let v = *weights.get(r, c) + amount * (pattern[r] * pattern[c] - pattern[r] * h[c]
                - h[r] * pattern[c]);
            weights.set(r, c, v);
            c += 1;
        }
        r += 1;
    }
    proof {
        assert forall|i: int, j: int| 0 <= j < i < rows implies #[trigger] weights.at(i, j)
            == weights.at(j, i) by {
            weights.lemma_symmetric(i, j);
        }
    }
}

} // verus!
