//! The hard threshold that turns a local field into a bipolar activation.

use vstd::prelude::*;
use vstd::std_specs::cmp::PartialOrdSpec;
use vstd::std_specs::convert::FromSpec;
use core::cmp::Ordering;

verus! {

/// The element type's comparisons compute what their specification says.
pub open spec fn obeys_order<T: PartialOrd>() -> bool {
    T::obeys_partial_cmp_spec()
}

/// `v >= bias`.
pub open spec fn at_least<T: PartialOrd>(v: T, bias: T) -> bool {
    v.partial_cmp_spec(&bias) matches Some(Ordering::Greater | Ordering::Equal)
}

/// `a < b`.
pub open spec fn less_than<T: PartialOrd>(a: T, b: T) -> bool {
    a.partial_cmp_spec(&b) == Some(Ordering::Less)
}

/// `a <= b`.
pub open spec fn at_most<T: PartialOrd>(a: T, b: T) -> bool {
    a.partial_cmp_spec(&b) matches Some(Ordering::Less | Ordering::Equal)
}

/// `a > b`.
pub open spec fn greater_than<T: PartialOrd>(a: T, b: T) -> bool {
    a.partial_cmp_spec(&b) == Some(Ordering::Greater)
}

/// `+1` where the field reaches the bias, `-1` where it does not.
pub open spec fn bipolar<T: PartialOrd + From<i8>>(v: T, bias: T) -> T {
    if at_least(v, bias) {
        T::from_spec(1i8)
    } else {
        T::from_spec(-1i8)
    }
}

/// The activation of a neuron with local field `v` and bias `bias`.
pub fn activation<T: PartialOrd + From<i8>>(v: T, bias: T) -> (a: T)
    requires
        obeys_order::<T>(),
        T::obeys_from_spec(),
    ensures
        a == bipolar(v, bias),
{
    if v >= bias {
        T::from(1i8)
    } else {
        T::from(-1i8)
    }
}

} // verus!
