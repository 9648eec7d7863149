//! Sums of products over sequences, in the order in which the loops of this
//! library accumulate them.
//!
//! The element type is any type with `+` and `*`. What the operators compute,
//! and when they may be applied, is taken from their operator specifications,
//! so a sum is stated term by term, from the left: nothing here assumes that
//! addition is associative.

use vstd::prelude::*;
use vstd::std_specs::convert::FromSpec;
use vstd::std_specs::ops::AddSpec;
use vstd::std_specs::ops::DivSpec;
use vstd::std_specs::ops::MulSpec;
use vstd::std_specs::ops::NegSpec;
use vstd::std_specs::ops::SubSpec;
use core::ops::Add;
use core::ops::Div;
use core::ops::Mul;
use core::ops::Neg;
use core::ops::Sub;

verus! {

/// The element type's `+` and `*` compute what their specifications say.
pub open spec fn obeys_ring<T: Add<Output = T> + Mul<Output = T>>() -> bool {
    T::obeys_add_spec() && T::obeys_mul_spec()
}

/// `init + a[0]*b[0] + ... + a[n-1]*b[n-1]`, accumulated from the left.
pub open spec fn dot_from<T: Add<Output = T> + Mul<Output = T>>(
    init: T,
    a: Seq<T>,
    b: Seq<T>,
    n: int,
) -> T
    decreases n,
{
    if n <= 0 {
        init
    } else {
        dot_from(init, a, b, n - 1).add_spec(a[n - 1].mul_spec(b[n - 1]))
    }
}

/// Every product and every partial sum of `dot_from(init, a, b, n)` may be
/// computed (for machine integers: none overflows).
pub open spec fn dot_defined<T: Add<Output = T> + Mul<Output = T>>(
    init: T,
    a: Seq<T>,
    b: Seq<T>,
    n: int,
) -> bool
    decreases n,
{
    n <= 0 || {
        &&& dot_defined(init, a, b, n - 1)
        &&& a[n - 1].mul_req(b[n - 1])
        &&& dot_from(init, a, b, n - 1).add_req(a[n - 1].mul_spec(b[n - 1]))
    }
}

/// A sum that may be computed up to `n` terms may be computed up to `k <= n`.
pub proof fn lemma_dot_defined_prefix<T: Add<Output = T> + Mul<Output = T>>(
    init: T,
    a: Seq<T>,
    b: Seq<T>,
    n: int,
    k: int,
)
    requires
        dot_defined(init, a, b, n),
        k <= n,
    ensures
        dot_defined(init, a, b, k),
    decreases n - k,
{
    if k < n && n > 0 {
        lemma_dot_defined_prefix(init, a, b, n - 1, k);
    }
}

/// The element type's `+`, `-`, `*`, `/` and negation compute what their
/// specifications say.
pub open spec fn obeys_field<
    T: Add<Output = T> + Sub<Output = T> + Mul<Output = T> + Div<Output = T> + Neg<Output = T>,
>() -> bool {
    &&& T::obeys_add_spec()
    &&& T::obeys_sub_spec()
    &&& T::obeys_mul_spec()
    &&& T::obeys_div_spec()
    &&& T::obeys_neg_spec()
}

/// `init + a[0] + ... + a[n-1]`, accumulated from the left.
pub open spec fn sum_from<T: Add<Output = T>>(init: T, a: Seq<T>, n: int) -> T
    decreases n,
{
    if n <= 0 {
        init
    } else {
        sum_from(init, a, n - 1).add_spec(a[n - 1])
    }
}

/// Every partial sum of `sum_from(init, a, n)` may be computed.
pub open spec fn sum_defined<T: Add<Output = T>>(init: T, a: Seq<T>, n: int) -> bool
    decreases n,
{
    n <= 0 || (sum_defined(init, a, n - 1) && sum_from(init, a, n - 1).add_req(a[n - 1]))
}

/// A sum that may be computed up to `n` terms may be computed up to `k <= n`.
pub proof fn lemma_sum_defined_prefix<T: Add<Output = T>>(init: T, a: Seq<T>, n: int, k: int)
    requires
        sum_defined(init, a, n),
        k <= n,
    ensures
        sum_defined(init, a, k),
    decreases n - k,
{
    if k < n && n > 0 {
        lemma_sum_defined_prefix(init, a, n - 1, k);
    }
}

/// `f` accepts every argument and gives one result for each, so that it can
/// be spoken of as a function.
pub open spec fn is_function<T, F: Fn(T) -> T>(f: &F) -> bool {
    &&& forall|x: T| #[trigger] f.requires((x,))
    &&& forall|x: T, y: T, z: T|
        #[trigger] f.ensures((x,), y) && #[trigger] f.ensures((x,), z) ==> y == z
}

/// The result of `f` on `x`, for an `f` that `is_function`.
pub open spec fn applied<T, F: Fn(T) -> T>(f: &F, x: T) -> T {
    choose|y: T| f.ensures((x,), y)
}

/// `f` applied to every entry of `s`.
pub open spec fn mapped<T, F: Fn(T) -> T>(f: &F, s: Seq<T>) -> Seq<T> {
    Seq::new(s.len(), |i: int| applied(f, s[i]))
}

/// The element type's `0`.
pub open spec fn zero<T: From<i8>>() -> T {
    T::from_spec(0i8)
}

/// The element type's `1`.
pub open spec fn one<T: From<i8>>() -> T {
    T::from_spec(1i8)
}

/// The smaller of two lengths.
pub open spec fn min_len(a: int, b: int) -> int {
    if a <= b {
        a
    } else {
        b
    }
}

} // verus!
