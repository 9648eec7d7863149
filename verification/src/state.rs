//! Operations on the state of a network: a vector of activations, one per
//! neuron, changed in place.

use vstd::prelude::*;
use vstd::std_specs::convert::FromSpec;
use vstd::std_specs::convert::IntoSpec;
use vstd::std_specs::ops::AddSpec;
use vstd::std_specs::ops::DivSpec;
use vstd::std_specs::ops::MulSpec;
use vstd::std_specs::ops::NegSpec;
use vstd::std_specs::ops::SubSpec;
use core::ops::Add;
use core::ops::Div;
use core::ops::Mul;
use core::ops::Neg;
use core::ops::Sub;
use crate::algebra::dot_defined;
use crate::algebra::dot_from;
use crate::algebra::is_function;
use crate::algebra::lemma_dot_defined_prefix;
use crate::algebra::lemma_sum_defined_prefix;
use crate::algebra::mapped;
use crate::algebra::min_len;
use crate::algebra::obeys_field;
use crate::algebra::one;
use crate::algebra::sum_defined;
use crate::algebra::sum_from;
use crate::algebra::zero;
use crate::threshold::at_least;
use crate::threshold::greater_than;
use crate::threshold::less_than;
use crate::threshold::obeys_order;

verus! {

/// `old` with its first `src.len()` entries (as far as it has them) replaced
/// by those of `src`.
pub open spec fn overwritten<T>(old: Seq<T>, src: Seq<T>) -> Seq<T> {
    Seq::new(
        old.len(),
        |i: int|
            if i < src.len() {
                src[i]
            } else {
                old[i]
            },
    )
}

/// Every entry of `old` multiplied by `d`.
pub open spec fn scaled<T: Mul<Output = T>>(old: Seq<T>, d: T) -> Seq<T> {
    Seq::new(old.len(), |i: int| old[i].mul_spec(d))
}

/// `old[i] + pattern[i] * amount` on the entries that both have; the rest of
/// `old` as it was.
pub open spec fn blended<T: Add<Output = T> + Mul<Output = T>>(
    old: Seq<T>,
    pattern: Seq<T>,
    amount: T,
) -> Seq<T> {
    Seq::new(
        old.len(),
        |i: int|
            if i < pattern.len() {
                old[i].add_spec(pattern[i].mul_spec(amount))
            } else {
                old[i]
            },
    )
}

/// Bit `i` of `bits`, counted from the least significant; bits beyond the
/// width of the word are zero.
pub open spec fn bit_at(bits: u64, i: int) -> bool {
    0 <= i < 64 && (bits >> (i as u64)) & 1 == 1
}

/// `old` with its first `count` entries (as far as it has them) decoded from
/// `bits`: `plus` where the bit is set, `minus` where it is clear.
pub open spec fn decoded<T>(old: Seq<T>, count: int, bits: u64, plus: T, minus: T) -> Seq<T> {
    Seq::new(
        old.len(),
        |i: int|
            if i < count {
                if bit_at(bits, i) {
                    plus
                } else {
                    minus
                }
            } else {
                old[i]
            },
    )
}

/// `old` with its first `count` entries (as far as it has them) decoded from
/// `bits`: `plus` where the mask bit and the bit are set, `minus` where the
/// mask bit is set and the bit is clear, `zero` where the mask bit is clear.
pub open spec fn decoded_masked<T>(
    old: Seq<T>,
    count: int,
    bits: u64,
    mask: u64,
    plus: T,
    minus: T,
    zero: T,
) -> Seq<T> {
    Seq::new(
        old.len(),
        |i: int|
            if i < count {
                if bit_at(mask, i) {
                    if bit_at(bits, i) {
                        plus
                    } else {
                        minus
                    }
                } else {
                    zero
                }
            } else {
                old[i]
            },
    )
}

/// The word that is left of `bits` after `i` shifts to the right by one.
pub open spec fn shifted(bits: u64, i: int) -> u64 {
    if 0 <= i < 64 {
        bits >> (i as u64)
    } else {
        0
    }
}

/// Any value that `draw` can give may be added to `a`.
pub open spec fn accepts_noise<T: Add<Output = T>, F: Fn() -> T>(draw: &F, a: T) -> bool {
    forall|x: T| #[trigger] draw.ensures((), x) ==> a.add_req(x)
}

/// `b` is `a` plus a value that `draw` can give.
pub open spec fn is_noised<T: Add<Output = T>, F: Fn() -> T>(draw: &F, a: T, b: T) -> bool {
    exists|x: T| #[trigger] draw.ensures((), x) && b == a.add_spec(x)
}

proof fn lemma_shift_step(bits: u64, i: int)
    requires
        0 <= i,
    ensures
        shifted(bits, i) >> 1 == shifted(bits, i + 1),
        shifted(bits, 0) == bits,
        (shifted(bits, i) & 1 == 1) == bit_at(bits, i),
{
    assert(bits >> 0 == bits) by (bit_vector);
    if i < 64 {
        let k = i as u64;
        assert((bits >> k) >> 1 == (if k < 63 {
            bits >> ((k + 1) as u64)
        } else {
            0
        })) by (bit_vector)
            requires
                k < 64,
        ;
    } else {
        assert(0u64 >> 1 == 0) by (bit_vector);
        assert(0u64 & 1 == 0) by (bit_vector);
    }
}

/// The magnitude of `x`: `x` where it is at least `0`, `-x` elsewhere.
pub open spec fn magnitude<T: Neg<Output = T> + PartialOrd + From<i8>>(x: T) -> T {
    if at_least(x, zero::<T>()) {
        x
    } else {
        x.neg_spec()
    }
}

/// The magnitude of `x` may be computed.
pub open spec fn magnitude_defined<T: Neg<Output = T> + PartialOrd + From<i8>>(x: T) -> bool {
    at_least(x, zero::<T>()) || x.neg_req()
}

/// The magnitudes of the entries of `s`.
pub open spec fn magnitudes<T: Neg<Output = T> + PartialOrd + From<i8>>(s: Seq<T>) -> Seq<T> {
    Seq::new(s.len(), |i: int| magnitude(s[i]))
}

/// How far `state` is from `pattern`: `1 - (state . pattern) / sum |pattern[i]|`
/// over the entries that both have, and `0` where that sum of magnitudes is
/// below `epsilon`.
pub open spec fn norm_error<
    T: Add<Output = T> + Sub<Output = T> + Mul<Output = T> + Div<Output = T> + Neg<
        Output = T,
    > + PartialOrd + From<i8>,
>(state: Seq<T>, pattern: Seq<T>, epsilon: T) -> T {
    let n = min_len(state.len() as int, pattern.len() as int);
    let acc = dot_from(zero::<T>(), state, pattern, n);
    let pat_acc = sum_from(zero::<T>(), magnitudes(pattern), n);
    if less_than(pat_acc, epsilon) {
        zero::<T>()
    } else {
        one::<T>().sub_spec(acc.div_spec(pat_acc))
    }
}

/// Every step of `norm_error(state, pattern, epsilon)` may be computed.
pub open spec fn norm_error_defined<
    T: Add<Output = T> + Sub<Output = T> + Mul<Output = T> + Div<Output = T> + Neg<
        Output = T,
    > + PartialOrd + From<i8>,
>(state: Seq<T>, pattern: Seq<T>, epsilon: T) -> bool {
    let n = min_len(state.len() as int, pattern.len() as int);
    let acc = dot_from(zero::<T>(), state, pattern, n);
    let pat_acc = sum_from(zero::<T>(), magnitudes(pattern), n);
    &&& dot_defined(zero::<T>(), state, pattern, n)
    &&& forall|i: int| 0 <= i < n ==> magnitude_defined(#[trigger] pattern[i])
    &&& sum_defined(zero::<T>(), magnitudes(pattern), n)
    &&& !less_than(pat_acc, epsilon) ==> {
        &&& acc.div_req(pat_acc)
        &&& one::<T>().sub_req(acc.div_spec(pat_acc))
    }
}

/// Every entry of `s` divided by `d`.
pub open spec fn divided<T: Div<Output = T>>(s: Seq<T>, d: T) -> Seq<T> {
    Seq::new(s.len(), |i: int| s[i].div_spec(d))
}

/// The softmax of `old` under the exponential `exp`: each entry's
/// exponential, divided by the sum of all of them where that sum is above
/// `epsilon`, and left as it is where it is not.
pub open spec fn softmaxed<T: Add<Output = T> + Div<Output = T> + PartialOrd + From<i8>, E: Fn(T) -> T>(
    old: Seq<T>,
    exp: &E,
    epsilon: T,
) -> Seq<T> {
    let e = mapped(exp, old);
    let acc = sum_from(zero::<T>(), e, old.len() as int);
    if old.len() > 0 && greater_than(acc, epsilon) {
        divided(e, acc)
    } else {
        e
    }
}

/// With exact integers, noise that stays within `amount` moves an entry by
/// no more than `amount`.
pub proof fn lemma_noise_bounded<F: Fn() -> i64>(draw: &F, v: i64, noisy: i64, amount: i64)
    requires
        forall|x: i64| #[trigger] draw.ensures((), x) ==> -amount <= x <= amount,
        accepts_noise(draw, v),
        is_noised(draw, v, noisy),
    ensures
        v - amount <= noisy <= v + amount,
{
    let x = choose|x: i64| #[trigger] draw.ensures((), x) && noisy == v.add_spec(x);
    assert(v.add_req(x));
}

/// Every step of `softmaxed(old, exp, epsilon)` may be computed.
pub open spec fn softmax_defined<
    T: Add<Output = T> + Div<Output = T> + PartialOrd + From<i8>,
    E: Fn(T) -> T,
>(old: Seq<T>, exp: &E, epsilon: T) -> bool {
    let e = mapped(exp, old);
    let acc = sum_from(zero::<T>(), e, old.len() as int);
    &&& sum_defined(zero::<T>(), e, old.len() as int)
    &&& old.len() > 0 && greater_than(acc, epsilon) ==> forall|i: int|
        0 <= i < old.len() ==> (#[trigger] e[i]).div_req(acc)
}

/// Copying the same source twice is the same as copying it once.
pub proof fn lemma_copy_from_idempotent<T>(buf: Seq<T>, src: Seq<T>)
    ensures
        overwritten(overwritten(buf, src), src) == overwritten(buf, src),
{
    assert(overwritten(overwritten(buf, src), src) =~= overwritten(buf, src));
}

/// A fresh buffer of `n` entries, each equal to `x`.
pub fn filled<T: Copy>(n: usize, x: T) -> (v: Vec<T>)
    ensures
        v@ == Seq::new(n as nat, |i: int| x),
{
    let mut v: Vec<T> = Vec::with_capacity(n);
    let mut i: usize = 0;
    while i < n
        invariant
            i <= n,
            v@.len() == i,
            forall|k: int| 0 <= k < i ==> v@[k] == x,
        decreases n - i,
    {
        v.push(x);
        i += 1;
    }
    assert(v@ =~= Seq::new(n as nat, |i: int| x));
    v
}

/// The state-vector operations, on any buffer that can be borrowed as a slice.
pub trait State<
    T: Copy + Add<Output = T> + Sub<Output = T> + Mul<Output = T> + Div<Output = T> + Neg<
        Output = T,
    > + PartialOrd + From<i8>,
> {
    /// The activations, in order.
    spec fn values(&self) -> Seq<T>;

    /// Overwrites the entries that `pattern` has a value for.
    fn copy_from(&mut self, pattern: &[T])
        ensures
            final(self).values() == overwritten(old(self).values(), pattern@),
    ;

    /// Multiplies every entry by `d`.
    fn decay(&mut self, d: T)
        requires
            T::obeys_mul_spec(),
            forall|i: int|
                0 <= i < old(self).values().len() ==> (#[trigger] old(self).values()[i]).mul_req(d),
        ensures
            final(self).values() == scaled(old(self).values(), d),
    ;

    /// Adds `pattern`, scaled by `amount`, entry by entry.
    fn add_pattern(&mut self, pattern: &[T], amount: T)
        requires
            T::obeys_add_spec(),
            T::obeys_mul_spec(),
            forall|i: int|
                0 <= i < old(self).values().len() && i < pattern@.len() ==> {
                    &&& (#[trigger] pattern@[i]).mul_req(amount)
                    &&& old(self).values()[i].add_req(pattern@[i].mul_spec(amount))
                },
        ensures
            final(self).values() == blended(old(self).values(), pattern@, amount),
    ;

    /// Adds to every entry a value drawn from `draw`, one draw per entry.
    fn add_noise<F: Fn() -> T>(&mut self, draw: &F)
        requires
            T::obeys_add_spec(),
            draw.requires(()),
            forall|i: int|
                0 <= i < old(self).values().len() ==> accepts_noise(
                    draw,
                    #[trigger] old(self).values()[i],
                ),
        ensures
            final(self).values().len() == old(self).values().len(),
            forall|i: int|
                0 <= i < old(self).values().len() ==> is_noised(
                    draw,
                    old(self).values()[i],
                    #[trigger] final(self).values()[i],
                ),
    ;

    /// The dissimilarity between this state and `pattern`; `epsilon` is the
    /// bound below which the pattern counts as all zero.
    fn error_norm(&self, pattern: &[T], epsilon: T) -> (e: T)
        requires
            obeys_field::<T>(),
            obeys_order::<T>(),
            T::obeys_from_spec(),
            norm_error_defined(self.values(), pattern@, epsilon),
        ensures
            e == norm_error(self.values(), pattern@, epsilon),
    ;

    /// Replaces every entry by its exponential, and divides by their sum
    /// unless that sum is no more than `epsilon`. `exp` is the element
    /// type's exponential function.
    fn softmax<E: Fn(T) -> T>(&mut self, exp: &E, epsilon: T)
        requires
            obeys_field::<T>(),
            obeys_order::<T>(),
            T::obeys_from_spec(),
            is_function(exp),
            softmax_defined(old(self).values(), exp, epsilon),
        ensures
            final(self).values() == softmaxed(old(self).values(), exp, epsilon),
    ;

    /// Decodes the low `count` bits of `bits` into the first entries: `1`
    /// for a set bit, `-1` for a clear one, bit 0 first. `bits` is any
    /// unsigned word of up to 64 bits.
    fn from_bits<S: Into<u64>>(&mut self, count: usize, bits: S)
        ensures
            T::obeys_from_spec() && S::obeys_into_spec() ==> final(self).values() == decoded(
                old(self).values(),
                count as int,
                bits.into_spec(),
                T::from_spec(1i8),
                T::from_spec(-1i8),
            ),
    ;

    /// As `from_bits`, but an entry whose bit in `mask` is clear becomes `0`.
    fn from_bits_with_mask<S: Into<u64>>(&mut self, count: usize, bits: S, mask: S)
        ensures
            T::obeys_from_spec() && S::obeys_into_spec() ==> final(self).values()
                == decoded_masked(
                old(self).values(),
                count as int,
                bits.into_spec(),
                mask.into_spec(),
                T::from_spec(1i8),
                T::from_spec(-1i8),
                T::from_spec(0i8),
            ),
    ;
}

impl<
    T: Copy + Add<Output = T> + Sub<Output = T> + Mul<Output = T> + Div<Output = T> + Neg<
        Output = T,
    > + PartialOrd + From<i8>,
> State<T> for [T] {
    open spec fn values(&self) -> Seq<T> {
        self@
    }

    fn copy_from(&mut self, pattern: &[T]) {
        let n = if self.len() <= pattern.len() { self.len() } else { pattern.len() };
        let mut i: usize = 0;
        while i < n
            invariant
                i <= n,
                n <= pattern@.len(),
                n <= self@.len(),
                self@.len() == old(self)@.len(),
                n == old(self)@.len() || n == pattern@.len(),
                forall|k: int| 0 <= k < i ==> self@[k] == pattern@[k],
                forall|k: int| i <= k < self@.len() ==> self@[k] == old(self)@[k],
            decreases n - i,
        {
            self[i] = pattern[i];
            i += 1;
        }
        assert(self@ =~= overwritten(old(self)@, pattern@));
    }

    fn decay(&mut self, d: T) {
        let n = self.len();
        let mut i: usize = 0;
        while i < n
            invariant
                i <= n,
                n == self@.len(),
                self@.len() == old(self)@.len(),
                T::obeys_mul_spec(),
                forall|k: int| 0 <= k < n ==> (#[trigger] old(self).values()[k]).mul_req(d),
                forall|k: int| 0 <= k < i ==> self@[k] == old(self)@[k].mul_spec(d),
                forall|k: int| i <= k < n ==> self@[k] == old(self)@[k],
            decreases n - i,
        {
            assert(old(self).values()[i as int].mul_req(d));
            let x = self[i] * d;
            self[i] = x;
            i += 1;
        }
        assert(self@ =~= scaled(old(self)@, d));
    }

    fn add_pattern(&mut self, pattern: &[T], amount: T) {
        let n = if self.len() <= pattern.len() { self.len() } else { pattern.len() };
        let mut i: usize = 0;
        while i < n
            invariant
                i <= n,
                n <= pattern@.len(),
                n <= self@.len(),
                self@.len() == old(self)@.len(),
                n == old(self)@.len() || n == pattern@.len(),
                T::obeys_add_spec(),
                T::obeys_mul_spec(),
                forall|k: int|
                    0 <= k < old(self)@.len() && k < pattern@.len() ==> {
                        &&& (#[trigger] pattern@[k]).mul_req(amount)
                        &&& old(self)@[k].add_req(pattern@[k].mul_spec(amount))
                    },
                forall|k: int|
                    0 <= k < i ==> self@[k] == old(self)@[k].add_spec(
                        pattern@[k].mul_spec(amount),
                    ),
                forall|k: int| i <= k < self@.len() ==> self@[k] == old(self)@[k],
            decreases n - i,
        {
            let x = self[i] + pattern[i] * amount;
            self[i] = x;
            i += 1;
        }
        assert(self@ =~= blended(old(self)@, pattern@, amount));
    }

    fn add_noise<F: Fn() -> T>(&mut self, draw: &F) {
        let n = self.len();
        let mut i: usize = 0;
        while i < n
            invariant
                i <= n,
                n == self@.len(),
                self@.len() == old(self)@.len(),
                T::obeys_add_spec(),
                draw.requires(()),
                forall|k: int| 0 <= k < n ==> accepts_noise(draw, #[trigger] old(self).values()[k]),
                forall|k: int| 0 <= k < i ==> is_noised(draw, old(self)@[k], #[trigger] self@[k]),
                forall|k: int| i <= k < n ==> self@[k] == old(self)@[k],
            decreases n - i,
        {
            let x = draw();
            assert(accepts_noise(draw, old(self).values()[i as int]));
            let y = self[i] + x;
            self[i] = y;
            i += 1;
        }
    }

    fn error_norm(&self, pattern: &[T], epsilon: T) -> (e: T) {
        let n = if self.len() <= pattern.len() { self.len() } else { pattern.len() };
        let origin = T::from(0i8);
        let mut acc = origin;
        let mut pat_acc = origin;
        let mut i: usize = 0;
        while i < n
            invariant
                i <= n,
                n == min_len(self@.len() as int, pattern@.len() as int),
                obeys_field::<T>(),
                obeys_order::<T>(),
                origin == zero::<T>(),
                norm_error_defined(self@, pattern@, epsilon),
                acc == dot_from(origin, self@, pattern@, i as int),
                pat_acc == sum_from(origin, magnitudes(pattern@), i as int),
            decreases n - i,
        {
            proof {
                lemma_dot_defined_prefix(origin, self@, pattern@, n as int, i as int + 1);
                lemma_sum_defined_prefix(origin, magnitudes(pattern@), n as int, i as int + 1);
            }
            acc = acc + self[i] * pattern[i];
            let p = pattern[i];
            let m = if p >= origin { p } else { p.neg() };
            pat_acc = pat_acc + m;
            i += 1;
        }
        if pat_acc < epsilon {
            origin
        } else {
            T::from(1i8) - acc / pat_acc
        }
    }

    fn softmax<E: Fn(T) -> T>(&mut self, exp: &E, epsilon: T) {
        let n = self.len();
        if n > 0 {
            let mut acc = T::from(0i8);
            let ghost e = mapped(exp, old(self)@);
            let mut i: usize = 0;
            while i < n
                invariant
                    i <= n,
                    n == self@.len(),
                    self@.len() == old(self)@.len(),
                    obeys_field::<T>(),
                    is_function(exp),
                    e == mapped(exp, old(self)@),
                    sum_defined(zero::<T>(), e, n as int),
                    acc == sum_from(zero::<T>(), e, i as int),
                    forall|k: int| 0 <= k < i ==> self@[k] == e[k],
                    forall|k: int| i <= k < n ==> self@[k] == old(self)@[k],
                decreases n - i,
            {
                proof {
                    lemma_sum_defined_prefix(zero::<T>(), e, n as int, i as int + 1);
                }
                let v = exp(self[i]);
                acc = acc + v;
                self[i] = v;
                i += 1;
            }
            assert(self@ =~= e);
            if acc > epsilon {
                let mut j: usize = 0;
                while j < n
                    invariant
                        j <= n,
                        n == self@.len(),
                        n == e.len(),
                        obeys_field::<T>(),
                        forall|k: int| 0 <= k < n ==> (#[trigger] e[k]).div_req(acc),
                        forall|k: int| 0 <= k < j ==> self@[k] == e[k].div_spec(acc),
                        forall|k: int| j <= k < n ==> self@[k] == e[k],
                    decreases n - j,
                {
                    assert(e[j as int].div_req(acc));
                    let q = self[j] / acc;
                    self[j] = q;
                    j += 1;
                }
                assert(self@ =~= divided(e, acc));
            }
        } else {
            assert(self@ =~= mapped(exp, old(self)@));
        }
    }

    fn from_bits<S: Into<u64>>(&mut self, count: usize, bits: S) {
        let bits: u64 = bits.into();
        let plus = T::from(1i8);
        let minus = T::from(-1i8);
        let n = if count <= self.len() { count } else { self.len() };
        let mut b = bits;
        let mut i: usize = 0;
        proof {
            lemma_shift_step(bits, 0);
        }
        while i < n
            invariant
                i <= n,
                n <= self@.len(),
                n <= count,
                n == count || n == self@.len(),
                self@.len() == old(self)@.len(),
                b == shifted(bits, i as int),
                forall|k: int|
                    0 <= k < i ==> self@[k] == decoded(old(self)@, count as int, bits, plus, minus)[k],
                forall|k: int| i <= k < self@.len() ==> self@[k] == old(self)@[k],
            decreases n - i,
        {
            proof {
                lemma_shift_step(bits, i as int);
            }
            if b & 1 == 1 {
                self[i] = plus;
            } else {
                self[i] = minus;
            }
            b = b >> 1;
            i += 1;
        }
        assert(self@ =~= decoded(old(self)@, count as int, bits, plus, minus));
    }

    fn from_bits_with_mask<S: Into<u64>>(&mut self, count: usize, bits: S, mask: S) {
        let bits: u64 = bits.into();
        let mask: u64 = mask.into();
        let plus = T::from(1i8);
        let minus = T::from(-1i8);
        let zero = T::from(0i8);
        let n = if count <= self.len() { count } else { self.len() };
        let mut b = bits;
        let mut m = mask;
        let mut i: usize = 0;
        proof {
            lemma_shift_step(bits, 0);
            lemma_shift_step(mask, 0);
        }
        while i < n
            invariant
                i <= n,
                n <= self@.len(),
                n <= count,
                n == count || n == self@.len(),
                self@.len() == old(self)@.len(),
                b == shifted(bits, i as int),
                m == shifted(mask, i as int),
                forall|k: int|
                    0 <= k < i ==> self@[k] == decoded_masked(
                        old(self)@,
                        count as int,
                        bits,
                        mask,
                        plus,
                        minus,
                        zero,
                    )[k],
                forall|k: int| i <= k < self@.len() ==> self@[k] == old(self)@[k],
            decreases n - i,
        {
            proof {
                lemma_shift_step(bits, i as int);
                lemma_shift_step(mask, i as int);
            }
            if m & 1 == 1 {
                if b & 1 == 1 {
                    self[i] = plus;
                } else {
                    self[i] = minus;
                }
            } else {
                self[i] = zero;
            }
            b = b >> 1;
            m = m >> 1;
            i += 1;
        }
        assert(self@ =~= decoded_masked(old(self)@, count as int, bits, mask, plus, minus, zero));
    }
}

} // verus!
