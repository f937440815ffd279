//! The numeric element types: what the arithmetic of the library asks of them.

use core::ops::{Add, Mul, Sub};
use vstd::prelude::*;
use vstd::std_specs::ops::{AddSpec, MulSpec, SubSpec};

verus! {

/// An element type whose values stand for integers and whose `+`, `-` and `*`
/// compute exactly whenever the exact result can be held.
pub trait Scalar: Copy + Add<Output = Self> + Sub<Output = Self> + Mul<Output = Self> {
    /// The integer that this value stands for.
    spec fn value(self) -> int;

    /// Whether the type can hold the integer `v`.
    spec fn holds(v: int) -> bool;

    /// The additive identity.
    fn zero_value() -> (z: Self)
        ensures
            z.value() == 0,
    ;

    /// The multiplicative identity.
    fn one_value() -> (o: Self)
        ensures
            o.value() == 1,
    ;

    /// Every value stands for an integer that the type holds, and for no
    /// other value's integer; 0 and 1 can be held.
    proof fn lemma_value(a: Self, b: Self)
        ensures
            Self::holds(a.value()),
            a.value() == b.value() ==> a == b,
            Self::holds(0),
            Self::holds(1),
    ;

    /// `a + b` is defined exactly when the sum can be held, and is then the sum.
    proof fn lemma_sum(a: Self, b: Self)
        ensures
            Self::obeys_add_spec(),
            a.add_req(b) <==> Self::holds(a.value() + b.value()),
            a.add_req(b) ==> a.add_spec(b).value() == a.value() + b.value(),
    ;

    /// `a - b` is defined exactly when the difference can be held, and is then
    /// the difference.
    proof fn lemma_difference(a: Self, b: Self)
        ensures
            Self::obeys_sub_spec(),
            a.sub_req(b) <==> Self::holds(a.value() - b.value()),
            a.sub_req(b) ==> a.sub_spec(b).value() == a.value() - b.value(),
    ;

    /// `a * b` is defined exactly when the product can be held, and is then the
    /// product.
    proof fn lemma_product(a: Self, b: Self)
        ensures
            Self::obeys_mul_spec(),
            a.mul_req(b) <==> Self::holds(a.value() * b.value()),
            a.mul_req(b) ==> a.mul_spec(b).value() == a.value() * b.value(),
    ;
}

/// `num::Zero::zero` for `u8` returns 0.
pub assume_specification[ <u8 as num::Zero>::zero ]() -> (z: u8)
    ensures
        z == 0,
;

/// `num::One::one` for `u8` returns 1.
pub assume_specification[ <u8 as num::One>::one ]() -> (o: u8)
    ensures
        o == 1,
;

impl Scalar for u8 {
    open spec fn value(self) -> int {
        self as int
    }

    open spec fn holds(v: int) -> bool {
        u8::MIN <= v <= u8::MAX
    }

    fn zero_value() -> (z: Self) {
        num::Zero::zero()
    }

    fn one_value() -> (o: Self) {
        num::One::one()
    }

    proof fn lemma_value(a: Self, b: Self) {
    }

    proof fn lemma_sum(a: Self, b: Self) {
    }

    proof fn lemma_difference(a: Self, b: Self) {
    }

    proof fn lemma_product(a: Self, b: Self) {
    }
}

/// `num::Zero::zero` for `u16` returns 0.
pub assume_specification[ <u16 as num::Zero>::zero ]() -> (z: u16)
    ensures
        z == 0,
;

/// `num::One::one` for `u16` returns 1.
pub assume_specification[ <u16 as num::One>::one ]() -> (o: u16)
    ensures
        o == 1,
;

impl Scalar for u16 {
    open spec fn value(self) -> int {
        self as int
    }

    open spec fn holds(v: int) -> bool {
        u16::MIN <= v <= u16::MAX
    }

    fn zero_value() -> (z: Self) {
        num::Zero::zero()
    }

    fn one_value() -> (o: Self) {
        num::One::one()
    }

    proof fn lemma_value(a: Self, b: Self) {
    }

    proof fn lemma_sum(a: Self, b: Self) {
    }

    proof fn lemma_difference(a: Self, b: Self) {
    }

    proof fn lemma_product(a: Self, b: Self) {
    }
}

/// `num::Zero::zero` for `u32` returns 0.
pub assume_specification[ <u32 as num::Zero>::zero ]() -> (z: u32)
    ensures
        z == 0,
;

/// `num::One::one` for `u32` returns 1.
pub assume_specification[ <u32 as num::One>::one ]() -> (o: u32)
    ensures
        o == 1,
;

impl Scalar for u32 {
    open spec fn value(self) -> int {
        self as int
    }

    open spec fn holds(v: int) -> bool {
        u32::MIN <= v <= u32::MAX
    }

    fn zero_value() -> (z: Self) {
        num::Zero::zero()
    }

    fn one_value() -> (o: Self) {
        num::One::one()
    }

    proof fn lemma_value(a: Self, b: Self) {
    }

    proof fn lemma_sum(a: Self, b: Self) {
    }

    proof fn lemma_difference(a: Self, b: Self) {
    }

    proof fn lemma_product(a: Self, b: Self) {
    }
}

/// `num::Zero::zero` for `u64` returns 0.
pub assume_specification[ <u64 as num::Zero>::zero ]() -> (z: u64)
    ensures
        z == 0,
;

/// `num::One::one` for `u64` returns 1.
pub assume_specification[ <u64 as num::One>::one ]() -> (o: u64)
    ensures
        o == 1,
;

impl Scalar for u64 {
    open spec fn value(self) -> int {
        self as int
    }

    open spec fn holds(v: int) -> bool {
        u64::MIN <= v <= u64::MAX
    }

    fn zero_value() -> (z: Self) {
        num::Zero::zero()
    }

    fn one_value() -> (o: Self) {
        num::One::one()
    }

    proof fn lemma_value(a: Self, b: Self) {
    }

    proof fn lemma_sum(a: Self, b: Self) {
    }

    proof fn lemma_difference(a: Self, b: Self) {
    }

    proof fn lemma_product(a: Self, b: Self) {
    }
}

/// `num::Zero::zero` for `u128` returns 0.
pub assume_specification[ <u128 as num::Zero>::zero ]() -> (z: u128)
    ensures
        z == 0,
;

/// `num::One::one` for `u128` returns 1.
pub assume_specification[ <u128 as num::One>::one ]() -> (o: u128)
    ensures
        o == 1,
;

impl Scalar for u128 {
    open spec fn value(self) -> int {
        self as int
    }

    open spec fn holds(v: int) -> bool {
        u128::MIN <= v <= u128::MAX
    }

    fn zero_value() -> (z: Self) {
        num::Zero::zero()
    }

    fn one_value() -> (o: Self) {
        num::One::one()
    }

    proof fn lemma_value(a: Self, b: Self) {
    }

    proof fn lemma_sum(a: Self, b: Self) {
    }

    proof fn lemma_difference(a: Self, b: Self) {
    }

    proof fn lemma_product(a: Self, b: Self) {
    }
}

/// `num::Zero::zero` for `usize` returns 0.
pub assume_specification[ <usize as num::Zero>::zero ]() -> (z: usize)
    ensures
        z == 0,
;

/// `num::One::one` for `usize` returns 1.
pub assume_specification[ <usize as num::One>::one ]() -> (o: usize)
    ensures
        o == 1,
;

impl Scalar for usize {
    open spec fn value(self) -> int {
        self as int
    }

    open spec fn holds(v: int) -> bool {
        usize::MIN <= v <= usize::MAX
    }

    fn zero_value() -> (z: Self) {
        num::Zero::zero()
    }

    fn one_value() -> (o: Self) {
        num::One::one()
    }

    proof fn lemma_value(a: Self, b: Self) {
    }

    proof fn lemma_sum(a: Self, b: Self) {
    }

    proof fn lemma_difference(a: Self, b: Self) {
    }

    proof fn lemma_product(a: Self, b: Self) {
    }
}

/// `num::Zero::zero` for `i8` returns 0.
pub assume_specification[ <i8 as num::Zero>::zero ]() -> (z: i8)
    ensures
        z == 0,
;

/// `num::One::one` for `i8` returns 1.
pub assume_specification[ <i8 as num::One>::one ]() -> (o: i8)
    ensures
        o == 1,
;

impl Scalar for i8 {
    open spec fn value(self) -> int {
        self as int
    }

    open spec fn holds(v: int) -> bool {
        i8::MIN <= v <= i8::MAX
    }

    fn zero_value() -> (z: Self) {
        num::Zero::zero()
    }

    fn one_value() -> (o: Self) {
        num::One::one()
    }

    proof fn lemma_value(a: Self, b: Self) {
    }

    proof fn lemma_sum(a: Self, b: Self) {
    }

    proof fn lemma_difference(a: Self, b: Self) {
    }

    proof fn lemma_product(a: Self, b: Self) {
    }
}

/// `num::Zero::zero` for `i16` returns 0.
pub assume_specification[ <i16 as num::Zero>::zero ]() -> (z: i16)
    ensures
        z == 0,
;

/// `num::One::one` for `i16` returns 1.
pub assume_specification[ <i16 as num::One>::one ]() -> (o: i16)
    ensures
        o == 1,
;

impl Scalar for i16 {
    open spec fn value(self) -> int {
        self as int
    }

    open spec fn holds(v: int) -> bool {
        i16::MIN <= v <= i16::MAX
    }

    fn zero_value() -> (z: Self) {
        num::Zero::zero()
    }

    fn one_value() -> (o: Self) {
        num::One::one()
    }

    proof fn lemma_value(a: Self, b: Self) {
    }

    proof fn lemma_sum(a: Self, b: Self) {
    }

    proof fn lemma_difference(a: Self, b: Self) {
    }

    proof fn lemma_product(a: Self, b: Self) {
    }
}

/// `num::Zero::zero` for `i32` returns 0.
pub assume_specification[ <i32 as num::Zero>::zero ]() -> (z: i32)
    ensures
        z == 0,
;

/// `num::One::one` for `i32` returns 1.
pub assume_specification[ <i32 as num::One>::one ]() -> (o: i32)
    ensures
        o == 1,
;

impl Scalar for i32 {
    open spec fn value(self) -> int {
        self as int
    }

    open spec fn holds(v: int) -> bool {
        i32::MIN <= v <= i32::MAX
    }

    fn zero_value() -> (z: Self) {
        num::Zero::zero()
    }

    fn one_value() -> (o: Self) {
        num::One::one()
    }

    proof fn lemma_value(a: Self, b: Self) {
    }

    proof fn lemma_sum(a: Self, b: Self) {
    }

    proof fn lemma_difference(a: Self, b: Self) {
    }

    proof fn lemma_product(a: Self, b: Self) {
    }
}

/// `num::Zero::zero` for `i64` returns 0.
pub assume_specification[ <i64 as num::Zero>::zero ]() -> (z: i64)
    ensures
        z == 0,
;

/// `num::One::one` for `i64` returns 1.
pub assume_specification[ <i64 as num::One>::one ]() -> (o: i64)
    ensures
        o == 1,
;

impl Scalar for i64 {
    open spec fn value(self) -> int {
        self as int
    }

    open spec fn holds(v: int) -> bool {
        i64::MIN <= v <= i64::MAX
    }

    fn zero_value() -> (z: Self) {
        num::Zero::zero()
    }

    fn one_value() -> (o: Self) {
        num::One::one()
    }

    proof fn lemma_value(a: Self, b: Self) {
    }

    proof fn lemma_sum(a: Self, b: Self) {
    }

    proof fn lemma_difference(a: Self, b: Self) {
    }

    proof fn lemma_product(a: Self, b: Self) {
    }
}

/// `num::Zero::zero` for `i128` returns 0.
pub assume_specification[ <i128 as num::Zero>::zero ]() -> (z: i128)
    ensures
        z == 0,
;

/// `num::One::one` for `i128` returns 1.
pub assume_specification[ <i128 as num::One>::one ]() -> (o: i128)
    ensures
        o == 1,
;

impl Scalar for i128 {
    open spec fn value(self) -> int {
        self as int
    }

    open spec fn holds(v: int) -> bool {
        i128::MIN <= v <= i128::MAX
    }

    fn zero_value() -> (z: Self) {
        num::Zero::zero()
    }

    fn one_value() -> (o: Self) {
        num::One::one()
    }

    proof fn lemma_value(a: Self, b: Self) {
    }

    proof fn lemma_sum(a: Self, b: Self) {
    }

    proof fn lemma_difference(a: Self, b: Self) {
    }

    proof fn lemma_product(a: Self, b: Self) {
    }
}

/// `num::Zero::zero` for `isize` returns 0.
pub assume_specification[ <isize as num::Zero>::zero ]() -> (z: isize)
    ensures
        z == 0,
;

/// `num::One::one` for `isize` returns 1.
pub assume_specification[ <isize as num::One>::one ]() -> (o: isize)
    ensures
        o == 1,
;

impl Scalar for isize {
    open spec fn value(self) -> int {
        self as int
    }

    open spec fn holds(v: int) -> bool {
        isize::MIN <= v <= isize::MAX
    }

    fn zero_value() -> (z: Self) {
        num::Zero::zero()
    }

    fn one_value() -> (o: Self) {
        num::One::one()
    }

    proof fn lemma_value(a: Self, b: Self) {
    }

    proof fn lemma_sum(a: Self, b: Self) {
    }

    proof fn lemma_difference(a: Self, b: Self) {
    }

    proof fn lemma_product(a: Self, b: Self) {
    }
}

} // verus!
