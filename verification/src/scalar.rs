//! What a type must offer to be stored in an array, and to be computed with.

use vstd::prelude::*;
use std::fmt::Display;
use std::ops::{Add, Mul, Sub};
use vstd::std_specs::ops::{AddSpec, MulSpec, SubSpec};

verus! {

/// The least that an element of an array must offer: it can be cloned, shown
/// and compared, and its clone is the value itself.
pub trait Scalar: Clone + Display + PartialOrd + Sized {
    /// The name under which the type is shown.
    spec fn element_name_text() -> Seq<char>;

    /// The name under which the type is shown.
    fn element_name() -> (name: &'static str)
        ensures
            name@ == Self::element_name_text(),
    ;

    /// A clone of a scalar is equal to the scalar.
    proof fn lemma_clone_is_exact(value: Self, copy: Self)
        requires
            cloned(value, copy),
        ensures
            value == copy,
    ;
}

/// The least that linear algebra needs of a scalar: a sum, a difference, a
/// product, the zero that sums start from and the one that products start
/// from.
pub trait Arithmetic<T>: Add<Output = T> + Sub<Output = T> + Mul<Output = T> + Sized {
    /// The additive identity.
    const ZERO: Self;

    /// The multiplicative identity.
    const ONE: Self;

    /// The operators of the type compute what their specifications say.
    proof fn lemma_operators_obey_specification()
        ensures
            Self::obeys_add_spec(),
            Self::obeys_sub_spec(),
            Self::obeys_mul_spec(),
    ;
}

/// A copy of a scalar, made by its `clone`.
pub fn duplicate<T: Scalar>(value: &T) -> (copy: T)
    ensures
        copy == *value,
{
    let copy = value.clone();
    proof {
        T::lemma_clone_is_exact(*value, copy);
    }
    copy
}

/// A copy of a buffer of scalars, made by its `clone`.
pub fn duplicate_buffer<T: Scalar>(buffer: &Vec<T>) -> (copy: Vec<T>)
    ensures
        copy@ == buffer@,
{
    let copy = buffer.clone();
    proof {
        assert forall|i: int| 0 <= i < buffer@.len() implies buffer@[i] == copy@[i] by {
            T::lemma_clone_is_exact(buffer@[i], copy@[i]);
        }
        assert(copy@ =~= buffer@);
    }
    copy
}

/// The one of every built-in integer type is the integer 1.
pub proof fn lemma_integer_one()
    ensures
        <usize as Arithmetic<usize>>::ONE == 1,
        <isize as Arithmetic<isize>>::ONE == 1,
        <u8 as Arithmetic<u8>>::ONE == 1,
        <u16 as Arithmetic<u16>>::ONE == 1,
        <u32 as Arithmetic<u32>>::ONE == 1,
        <u64 as Arithmetic<u64>>::ONE == 1,
        <i8 as Arithmetic<i8>>::ONE == 1,
        <i16 as Arithmetic<i16>>::ONE == 1,
        <i32 as Arithmetic<i32>>::ONE == 1,
        <i64 as Arithmetic<i64>>::ONE == 1,
{
}

/// The zero of every built-in integer type is the integer 0.
pub proof fn lemma_integer_zero()
    ensures
        <usize as Arithmetic<usize>>::ZERO == 0,
        <isize as Arithmetic<isize>>::ZERO == 0,
        <u8 as Arithmetic<u8>>::ZERO == 0,
        <u16 as Arithmetic<u16>>::ZERO == 0,
        <u32 as Arithmetic<u32>>::ZERO == 0,
        <u64 as Arithmetic<u64>>::ZERO == 0,
        <i8 as Arithmetic<i8>>::ZERO == 0,
        <i16 as Arithmetic<i16>>::ZERO == 0,
        <i32 as Arithmetic<i32>>::ZERO == 0,
        <i64 as Arithmetic<i64>>::ZERO == 0,
{
}

/// Taking away what was added gives back what was there: the mark of a
/// scalar type whose sums can be undone, as in a field.
pub open spec fn subtraction_undoes_addition<T: Add<Output = T> + Sub<Output = T>>() -> bool {
    forall|x: T, y: T| #[trigger] x.add_spec(y).sub_spec(y) == x
}

/// A sum that can be computed can be taken back: the difference of the sum
/// and what was added can be computed too.
pub open spec fn sums_can_be_taken_back<T: Add<Output = T> + Sub<Output = T>>() -> bool {
    forall|x: T, y: T| #[trigger] x.add_req(y) ==> x.add_spec(y).sub_req(y)
}

/// In every built-in integer type, taking away what was added gives back what
/// was there.
pub proof fn lemma_integers_undo_addition()
    ensures
        subtraction_undoes_addition::<usize>(),
        subtraction_undoes_addition::<isize>(),
        subtraction_undoes_addition::<u8>(),
        subtraction_undoes_addition::<u16>(),
        subtraction_undoes_addition::<u32>(),
        subtraction_undoes_addition::<u64>(),
        subtraction_undoes_addition::<i8>(),
        subtraction_undoes_addition::<i16>(),
        subtraction_undoes_addition::<i32>(),
        subtraction_undoes_addition::<i64>(),
{
    assert forall|x: usize, y: usize| #[trigger] x.add_spec(y).sub_spec(y) == x by {
        assert(((x + y) as usize - y) as usize == x) by (bit_vector);
    }
    assert forall|x: isize, y: isize| #[trigger] x.add_spec(y).sub_spec(y) == x by {
        assert(((x + y) as isize - y) as isize == x) by (bit_vector);
    }
    assert forall|x: u8, y: u8| #[trigger] x.add_spec(y).sub_spec(y) == x by {
        assert(((x + y) as u8 - y) as u8 == x) by (bit_vector);
    }
    assert forall|x: u16, y: u16| #[trigger] x.add_spec(y).sub_spec(y) == x by {
        assert(((x + y) as u16 - y) as u16 == x) by (bit_vector);
    }
    assert forall|x: u32, y: u32| #[trigger] x.add_spec(y).sub_spec(y) == x by {
        assert(((x + y) as u32 - y) as u32 == x) by (bit_vector);
    }
    assert forall|x: u64, y: u64| #[trigger] x.add_spec(y).sub_spec(y) == x by {
        assert(((x + y) as u64 - y) as u64 == x) by (bit_vector);
    }
    assert forall|x: i8, y: i8| #[trigger] x.add_spec(y).sub_spec(y) == x by {
        assert(((x + y) as i8 - y) as i8 == x) by (bit_vector);
    }
    assert forall|x: i16, y: i16| #[trigger] x.add_spec(y).sub_spec(y) == x by {
        assert(((x + y) as i16 - y) as i16 == x) by (bit_vector);
    }
    assert forall|x: i32, y: i32| #[trigger] x.add_spec(y).sub_spec(y) == x by {
        assert(((x + y) as i32 - y) as i32 == x) by (bit_vector);
    }
    assert forall|x: i64, y: i64| #[trigger] x.add_spec(y).sub_spec(y) == x by {
        assert(((x + y) as i64 - y) as i64 == x) by (bit_vector);
    }
}

/// In every built-in integer type, a sum that can be computed can be taken
/// back.
pub proof fn lemma_integer_sums_can_be_taken_back()
    ensures
        sums_can_be_taken_back::<usize>(),
        sums_can_be_taken_back::<isize>(),
        sums_can_be_taken_back::<u8>(),
        sums_can_be_taken_back::<u16>(),
        sums_can_be_taken_back::<u32>(),
        sums_can_be_taken_back::<u64>(),
        sums_can_be_taken_back::<i8>(),
        sums_can_be_taken_back::<i16>(),
        sums_can_be_taken_back::<i32>(),
        sums_can_be_taken_back::<i64>(),
{
}

impl Scalar for usize {
    open spec fn element_name_text() -> Seq<char> {
        "usize"@
    }

    fn element_name() -> (name: &'static str) {
        "usize"
    }

    proof fn lemma_clone_is_exact(value: Self, copy: Self) {
    }
}

impl Arithmetic<usize> for usize {
    const ZERO: Self = 0;

    const ONE: Self = 1;

    proof fn lemma_operators_obey_specification() {
    }
}

impl Scalar for isize {
    open spec fn element_name_text() -> Seq<char> {
        "isize"@
    }

    fn element_name() -> (name: &'static str) {
        "isize"
    }

    proof fn lemma_clone_is_exact(value: Self, copy: Self) {
    }
}

impl Arithmetic<isize> for isize {
    const ZERO: Self = 0;

    const ONE: Self = 1;

    proof fn lemma_operators_obey_specification() {
    }
}

impl Scalar for u8 {
    open spec fn element_name_text() -> Seq<char> {
        "u8"@
    }

    fn element_name() -> (name: &'static str) {
        "u8"
    }

    proof fn lemma_clone_is_exact(value: Self, copy: Self) {
    }
}

impl Arithmetic<u8> for u8 {
    const ZERO: Self = 0;

    const ONE: Self = 1;

    proof fn lemma_operators_obey_specification() {
    }
}

impl Scalar for u16 {
    open spec fn element_name_text() -> Seq<char> {
        "u16"@
    }

    fn element_name() -> (name: &'static str) {
        "u16"
    }

    proof fn lemma_clone_is_exact(value: Self, copy: Self) {
    }
}

impl Arithmetic<u16> for u16 {
    const ZERO: Self = 0;

    const ONE: Self = 1;

    proof fn lemma_operators_obey_specification() {
    }
}

impl Scalar for u32 {
    open spec fn element_name_text() -> Seq<char> {
        "u32"@
    }

    fn element_name() -> (name: &'static str) {
        "u32"
    }

    proof fn lemma_clone_is_exact(value: Self, copy: Self) {
    }
}

impl Arithmetic<u32> for u32 {
    const ZERO: Self = 0;

    const ONE: Self = 1;

    proof fn lemma_operators_obey_specification() {
    }
}

impl Scalar for u64 {
    open spec fn element_name_text() -> Seq<char> {
        "u64"@
    }

    fn element_name() -> (name: &'static str) {
        "u64"
    }

    proof fn lemma_clone_is_exact(value: Self, copy: Self) {
    }
}

impl Arithmetic<u64> for u64 {
    const ZERO: Self = 0;

    const ONE: Self = 1;

    proof fn lemma_operators_obey_specification() {
    }
}

impl Scalar for i8 {
    open spec fn element_name_text() -> Seq<char> {
        "i8"@
    }

    fn element_name() -> (name: &'static str) {
        "i8"
    }

    proof fn lemma_clone_is_exact(value: Self, copy: Self) {
    }
}

impl Arithmetic<i8> for i8 {
    const ZERO: Self = 0;

    const ONE: Self = 1;

    proof fn lemma_operators_obey_specification() {
    }
}

impl Scalar for i16 {
    open spec fn element_name_text() -> Seq<char> {
        "i16"@
    }

    fn element_name() -> (name: &'static str) {
        "i16"
    }

    proof fn lemma_clone_is_exact(value: Self, copy: Self) {
    }
}

impl Arithmetic<i16> for i16 {
    const ZERO: Self = 0;

    const ONE: Self = 1;

    proof fn lemma_operators_obey_specification() {
    }
}

impl Scalar for i32 {
    open spec fn element_name_text() -> Seq<char> {
        "i32"@
    }

    fn element_name() -> (name: &'static str) {
        "i32"
    }

    proof fn lemma_clone_is_exact(value: Self, copy: Self) {
    }
}

impl Arithmetic<i32> for i32 {
    const ZERO: Self = 0;

    const ONE: Self = 1;

    proof fn lemma_operators_obey_specification() {
    }
}

impl Scalar for i64 {
    open spec fn element_name_text() -> Seq<char> {
        "i64"@
    }

    fn element_name() -> (name: &'static str) {
        "i64"
    }

    proof fn lemma_clone_is_exact(value: Self, copy: Self) {
    }
}

impl Arithmetic<i64> for i64 {
    const ZERO: Self = 0;

    const ONE: Self = 1;

    proof fn lemma_operators_obey_specification() {
    }
}

} // verus!
