//! The hierarchy of algebraic structures, from magma to field.
//!
//! A structure is a type that names a carrier set and its operation. Each
//! executable operation has a specification function beside it, and the
//! structure's laws are proof functions over those: a type implements
//! `Associative` only by proving that its operation is associative.

use std::marker::PhantomData;
use vstd::prelude::*;

verus! {

/// A type with an additive identity.
pub trait Zero: Sized {
    /// The additive identity.
    spec fn zero_spec() -> Self;

    fn zero() -> (r: Self)
        ensures
            r == Self::zero_spec(),
    ;
}

/// A type with a multiplicative identity.
pub trait One: Sized {
    /// The multiplicative identity.
    spec fn one_spec() -> Self;

    fn one() -> (r: Self)
        ensures
            r == Self::one_spec(),
    ;
}

/// A set closed under a binary operation.
pub trait Magma {
    type Set;

    /// The operation, as a mathematical function.
    spec fn op_spec(a: Self::Set, b: Self::Set) -> Self::Set;

    fn op(a: Self::Set, b: Self::Set) -> (r: Self::Set)
        ensures
            r == Self::op_spec(a, b),
    ;
}

/// A magma with a distinguished element, the candidate identity.
pub trait Identity: Magma {
    /// The distinguished element.
    spec fn id_spec() -> Self::Set;

    fn id() -> (r: Self::Set)
        ensures
            r == Self::id_spec(),
    ;
}

/// A magma with a unary operation, the candidate inverse.
pub trait Inverse: Magma {
    /// The unary operation, as a mathematical function.
    spec fn inv_spec(a: Self::Set) -> Self::Set;

    fn inv(a: Self::Set) -> (r: Self::Set)
        ensures
            r == Self::inv_spec(a),
    ;
}

/// A magma whose operation is associative.
pub trait Associative: Magma {
    /// `(a . b) . c == a . (b . c)`
    proof fn associative(a: Self::Set, b: Self::Set, c: Self::Set)
        ensures
            Self::op_spec(Self::op_spec(a, b), c) == Self::op_spec(a, Self::op_spec(b, c)),
    ;
}

/// A magma whose operation is commutative.
pub trait Commutative: Magma {
    /// `a . b == b . a`
    proof fn commutative(a: Self::Set, b: Self::Set)
        ensures
            Self::op_spec(a, b) == Self::op_spec(b, a),
    ;
}

/// An associative magma.
pub trait SemiGroup: Magma + Associative {
}

/// A semigroup whose distinguished element is a two-sided identity.
pub trait Monoid: SemiGroup + Identity {
    /// `a . e == a` and `e . a == a`
    proof fn identity(a: Self::Set)
        ensures
            Self::op_spec(a, Self::id_spec()) == a,
            Self::op_spec(Self::id_spec(), a) == a,
    ;
}

/// A monoid whose unary operation gives two-sided inverses.
pub trait Group: Monoid + Inverse {
    /// `a . inv(a) == e` and `inv(a) . a == e`
    proof fn inverse(a: Self::Set)
        ensures
            Self::op_spec(a, Self::inv_spec(a)) == Self::id_spec(),
            Self::op_spec(Self::inv_spec(a), a) == Self::id_spec(),
    ;
}

/// A commutative group.
pub trait Abel: Group + Commutative {
}

/// An operation that distributes over the operation of `Add`, from both
/// sides.
pub trait Distributive<Add: Magma> {
    /// `a . (b + c) == a . b + a . c` and `(b + c) . a == b . a + c . a`
    proof fn distributive(a: Add::Set, b: Add::Set, c: Add::Set) where
        Self: Magma<Set = Add::Set>,

        ensures
            Self::op_spec(a, Add::op_spec(b, c)) == Add::op_spec(
                Self::op_spec(a, b),
                Self::op_spec(a, c),
            ),
            Self::op_spec(Add::op_spec(b, c), a) == Add::op_spec(
                Self::op_spec(b, a),
                Self::op_spec(c, a),
            ),
    ;
}

/// A semigroup that forms a ring together with the abelian group `Add`.
pub trait Ring<Add: Abel>: SemiGroup {
}

/// A ring whose own operation forms a group.
pub trait Field<Add: Abel>: Ring<Add> + Group {
}

/// In a group, composing with an element and then with its inverse changes
/// nothing.
pub proof fn lemma_cancel<T: Group>(a: T::Set, b: T::Set)
    ensures
        T::op_spec(T::op_spec(a, b), T::inv_spec(b)) == a,
        T::op_spec(T::op_spec(a, T::inv_spec(b)), b) == a,
{
    T::associative(a, b, T::inv_spec(b));
    T::associative(a, T::inv_spec(b), b);
    T::inverse(b);
    T::identity(a);
}

/// In a group, the inverse of a composition is the composition of the
/// inverses in the opposite order.
pub proof fn lemma_inverse_of_op<T: Group>(a: T::Set, b: T::Set)
    ensures
        T::inv_spec(T::op_spec(a, b)) == T::op_spec(T::inv_spec(b), T::inv_spec(a)),
{
    let c = T::op_spec(a, b);
    let r = T::op_spec(T::inv_spec(b), T::inv_spec(a));
    // c . r == e
    T::associative(c, T::inv_spec(b), T::inv_spec(a));
    lemma_cancel::<T>(a, b);
    T::inverse(a);
    assert(T::op_spec(c, r) == T::id_spec());
    // inv(c) == inv(c) . (c . r) == (inv(c) . c) . r == r
    T::identity(T::inv_spec(c));
    T::associative(T::inv_spec(c), c, r);
    T::inverse(c);
    T::identity(r);
}

/// In a group, the inverse of the inverse of an element is the element.
pub proof fn lemma_inverse_of_inverse<T: Group>(a: T::Set)
    ensures
        T::inv_spec(T::inv_spec(a)) == a,
{
    let b = T::inv_spec(a);
    // inv(b) == (a . b) . inv(b) == a
    lemma_cancel::<T>(a, b);
    T::inverse(a);
    T::identity(T::inv_spec(b));
}

/// Addition on `T` as an algebraic structure.
///
/// On the primitive integers the operation is addition modulo two to the
/// width of the type, which is total and makes the signed integers an abelian
/// group and the unsigned integers a commutative monoid.
pub struct AddOp<T> {
    _marker: PhantomData<T>,
}

impl<T> Identity for AddOp<T> where Self: Magma<Set = T>, T: Zero {
    open spec fn id_spec() -> T {
        T::zero_spec()
    }

    fn id() -> T {
        T::zero()
    }
}

impl<T> SemiGroup for AddOp<T> where Self: Magma + Associative {
}

impl<T> Abel for AddOp<T> where Self: Group + Commutative {
}

impl Zero for u8 {
    open spec fn zero_spec() -> u8 {
        0
    }

    fn zero() -> u8 {
        0
    }
}

impl One for u8 {
    open spec fn one_spec() -> u8 {
        1
    }

    fn one() -> u8 {
        1
    }
}

impl Zero for u16 {
    open spec fn zero_spec() -> u16 {
        0
    }

    fn zero() -> u16 {
        0
    }
}

impl One for u16 {
    open spec fn one_spec() -> u16 {
        1
    }

    fn one() -> u16 {
        1
    }
}

impl Zero for u32 {
    open spec fn zero_spec() -> u32 {
        0
    }

    fn zero() -> u32 {
        0
    }
}

impl One for u32 {
    open spec fn one_spec() -> u32 {
        1
    }

    fn one() -> u32 {
        1
    }
}

impl Zero for u64 {
    open spec fn zero_spec() -> u64 {
        0
    }

    fn zero() -> u64 {
        0
    }
}

impl One for u64 {
    open spec fn one_spec() -> u64 {
        1
    }

    fn one() -> u64 {
        1
    }
}

impl Zero for u128 {
    open spec fn zero_spec() -> u128 {
        0
    }

    fn zero() -> u128 {
        0
    }
}

impl One for u128 {
    open spec fn one_spec() -> u128 {
        1
    }

    fn one() -> u128 {
        1
    }
}

impl Zero for usize {
    open spec fn zero_spec() -> usize {
        0
    }

    fn zero() -> usize {
        0
    }
}

impl One for usize {
    open spec fn one_spec() -> usize {
        1
    }

    fn one() -> usize {
        1
    }
}

impl Zero for i8 {
    open spec fn zero_spec() -> i8 {
        0
    }

    fn zero() -> i8 {
        0
    }
}

impl One for i8 {
    open spec fn one_spec() -> i8 {
        1
    }

    fn one() -> i8 {
        1
    }
}

impl Zero for i16 {
    open spec fn zero_spec() -> i16 {
        0
    }

    fn zero() -> i16 {
        0
    }
}

impl One for i16 {
    open spec fn one_spec() -> i16 {
        1
    }

    fn one() -> i16 {
        1
    }
}

impl Zero for i32 {
    open spec fn zero_spec() -> i32 {
        0
    }

    fn zero() -> i32 {
        0
    }
}

impl One for i32 {
    open spec fn one_spec() -> i32 {
        1
    }

    fn one() -> i32 {
        1
    }
}

impl Zero for i64 {
    open spec fn zero_spec() -> i64 {
        0
    }

    fn zero() -> i64 {
        0
    }
}

impl One for i64 {
    open spec fn one_spec() -> i64 {
        1
    }

    fn one() -> i64 {
        1
    }
}

impl Zero for i128 {
    open spec fn zero_spec() -> i128 {
        0
    }

    fn zero() -> i128 {
        0
    }
}

impl One for i128 {
    open spec fn one_spec() -> i128 {
        1
    }

    fn one() -> i128 {
        1
    }
}

impl Zero for isize {
    open spec fn zero_spec() -> isize {
        0
    }

    fn zero() -> isize {
        0
    }
}

impl One for isize {
    open spec fn one_spec() -> isize {
        1
    }

    fn one() -> isize {
        1
    }
}

impl Magma for AddOp<u8> {
    type Set = u8;

    open spec fn op_spec(a: u8, b: u8) -> u8 {
        vstd::wrapping::u8_specs::wrapping_add(a, b)
    }

    fn op(a: u8, b: u8) -> u8 {
        a.wrapping_add(b)
    }
}

impl Associative for AddOp<u8> {
    proof fn associative(a: u8, b: u8, c: u8) {
    }
}

impl Commutative for AddOp<u8> {
    proof fn commutative(a: u8, b: u8) {
    }
}

impl Monoid for AddOp<u8> {
    proof fn identity(a: u8) {
    }
}

impl Magma for AddOp<u16> {
    type Set = u16;

    open spec fn op_spec(a: u16, b: u16) -> u16 {
        vstd::wrapping::u16_specs::wrapping_add(a, b)
    }

    fn op(a: u16, b: u16) -> u16 {
        a.wrapping_add(b)
    }
}

impl Associative for AddOp<u16> {
    proof fn associative(a: u16, b: u16, c: u16) {
    }
}

impl Commutative for AddOp<u16> {
    proof fn commutative(a: u16, b: u16) {
    }
}

impl Monoid for AddOp<u16> {
    proof fn identity(a: u16) {
    }
}

impl Magma for AddOp<u32> {
    type Set = u32;

    open spec fn op_spec(a: u32, b: u32) -> u32 {
        vstd::wrapping::u32_specs::wrapping_add(a, b)
    }

    fn op(a: u32, b: u32) -> u32 {
        a.wrapping_add(b)
    }
}

impl Associative for AddOp<u32> {
    proof fn associative(a: u32, b: u32, c: u32) {
    }
}

impl Commutative for AddOp<u32> {
    proof fn commutative(a: u32, b: u32) {
    }
}

impl Monoid for AddOp<u32> {
    proof fn identity(a: u32) {
    }
}

impl Magma for AddOp<u64> {
    type Set = u64;

    open spec fn op_spec(a: u64, b: u64) -> u64 {
        vstd::wrapping::u64_specs::wrapping_add(a, b)
    }

    fn op(a: u64, b: u64) -> u64 {
        a.wrapping_add(b)
    }
}

impl Associative for AddOp<u64> {
    proof fn associative(a: u64, b: u64, c: u64) {
    }
}

impl Commutative for AddOp<u64> {
    proof fn commutative(a: u64, b: u64) {
    }
}

impl Monoid for AddOp<u64> {
    proof fn identity(a: u64) {
    }
}

impl Magma for AddOp<u128> {
    type Set = u128;

    open spec fn op_spec(a: u128, b: u128) -> u128 {
        vstd::wrapping::u128_specs::wrapping_add(a, b)
    }

    fn op(a: u128, b: u128) -> u128 {
        a.wrapping_add(b)
    }
}

impl Associative for AddOp<u128> {
    proof fn associative(a: u128, b: u128, c: u128) {
    }
}

impl Commutative for AddOp<u128> {
    proof fn commutative(a: u128, b: u128) {
    }
}

impl Monoid for AddOp<u128> {
    proof fn identity(a: u128) {
    }
}

impl Magma for AddOp<usize> {
    type Set = usize;

    open spec fn op_spec(a: usize, b: usize) -> usize {
        vstd::wrapping::usize_specs::wrapping_add(a, b)
    }

    fn op(a: usize, b: usize) -> usize {
        a.wrapping_add(b)
    }
}

impl Associative for AddOp<usize> {
    proof fn associative(a: usize, b: usize, c: usize) {
    }
}

impl Commutative for AddOp<usize> {
    proof fn commutative(a: usize, b: usize) {
    }
}

impl Monoid for AddOp<usize> {
    proof fn identity(a: usize) {
    }
}

impl Magma for AddOp<i8> {
    type Set = i8;

    open spec fn op_spec(a: i8, b: i8) -> i8 {
        vstd::wrapping::i8_specs::wrapping_add(a, b)
    }

    fn op(a: i8, b: i8) -> i8 {
        a.wrapping_add(b)
    }
}

impl Associative for AddOp<i8> {
    proof fn associative(a: i8, b: i8, c: i8) {
    }
}

impl Commutative for AddOp<i8> {
    proof fn commutative(a: i8, b: i8) {
    }
}

impl Monoid for AddOp<i8> {
    proof fn identity(a: i8) {
    }
}

impl Inverse for AddOp<i8> {
    open spec fn inv_spec(a: i8) -> i8 {
        vstd::wrapping::i8_specs::wrapping_sub(0, a)
    }

    fn inv(a: i8) -> i8 {
        0i8.wrapping_sub(a)
    }
}

impl Group for AddOp<i8> {
    proof fn inverse(a: i8) {
    }
}

impl Magma for AddOp<i16> {
    type Set = i16;

    open spec fn op_spec(a: i16, b: i16) -> i16 {
        vstd::wrapping::i16_specs::wrapping_add(a, b)
    }

    fn op(a: i16, b: i16) -> i16 {
        a.wrapping_add(b)
    }
}

impl Associative for AddOp<i16> {
    proof fn associative(a: i16, b: i16, c: i16) {
    }
}

impl Commutative for AddOp<i16> {
    proof fn commutative(a: i16, b: i16) {
    }
}

impl Monoid for AddOp<i16> {
    proof fn identity(a: i16) {
    }
}

impl Inverse for AddOp<i16> {
    open spec fn inv_spec(a: i16) -> i16 {
        vstd::wrapping::i16_specs::wrapping_sub(0, a)
    }

    fn inv(a: i16) -> i16 {
        0i16.wrapping_sub(a)
    }
}

impl Group for AddOp<i16> {
    proof fn inverse(a: i16) {
    }
}

impl Magma for AddOp<i32> {
    type Set = i32;

    open spec fn op_spec(a: i32, b: i32) -> i32 {
        vstd::wrapping::i32_specs::wrapping_add(a, b)
    }

    fn op(a: i32, b: i32) -> i32 {
        a.wrapping_add(b)
    }
}

impl Associative for AddOp<i32> {
    proof fn associative(a: i32, b: i32, c: i32) {
    }
}

impl Commutative for AddOp<i32> {
    proof fn commutative(a: i32, b: i32) {
    }
}

impl Monoid for AddOp<i32> {
    proof fn identity(a: i32) {
    }
}

impl Inverse for AddOp<i32> {
    open spec fn inv_spec(a: i32) -> i32 {
        vstd::wrapping::i32_specs::wrapping_sub(0, a)
    }

    fn inv(a: i32) -> i32 {
        0i32.wrapping_sub(a)
    }
}

impl Group for AddOp<i32> {
    proof fn inverse(a: i32) {
    }
}

impl Magma for AddOp<i64> {
    type Set = i64;

    open spec fn op_spec(a: i64, b: i64) -> i64 {
        vstd::wrapping::i64_specs::wrapping_add(a, b)
    }

    fn op(a: i64, b: i64) -> i64 {
        a.wrapping_add(b)
    }
}

impl Associative for AddOp<i64> {
    proof fn associative(a: i64, b: i64, c: i64) {
    }
}

impl Commutative for AddOp<i64> {
    proof fn commutative(a: i64, b: i64) {
    }
}

impl Monoid for AddOp<i64> {
    proof fn identity(a: i64) {
    }
}

impl Inverse for AddOp<i64> {
    open spec fn inv_spec(a: i64) -> i64 {
        vstd::wrapping::i64_specs::wrapping_sub(0, a)
    }

    fn inv(a: i64) -> i64 {
        0i64.wrapping_sub(a)
    }
}

impl Group for AddOp<i64> {
    proof fn inverse(a: i64) {
    }
}

impl Magma for AddOp<i128> {
    type Set = i128;

    open spec fn op_spec(a: i128, b: i128) -> i128 {
        vstd::wrapping::i128_specs::wrapping_add(a, b)
    }

    fn op(a: i128, b: i128) -> i128 {
        a.wrapping_add(b)
    }
}

impl Associative for AddOp<i128> {
    proof fn associative(a: i128, b: i128, c: i128) {
    }
}

impl Commutative for AddOp<i128> {
    proof fn commutative(a: i128, b: i128) {
    }
}

impl Monoid for AddOp<i128> {
    proof fn identity(a: i128) {
    }
}

impl Inverse for AddOp<i128> {
    open spec fn inv_spec(a: i128) -> i128 {
        vstd::wrapping::i128_specs::wrapping_sub(0, a)
    }

    fn inv(a: i128) -> i128 {
        0i128.wrapping_sub(a)
    }
}

impl Group for AddOp<i128> {
    proof fn inverse(a: i128) {
    }
}

impl Magma for AddOp<isize> {
    type Set = isize;

    open spec fn op_spec(a: isize, b: isize) -> isize {
        vstd::wrapping::isize_specs::wrapping_add(a, b)
    }

    fn op(a: isize, b: isize) -> isize {
        a.wrapping_add(b)
    }
}

impl Associative for AddOp<isize> {
    proof fn associative(a: isize, b: isize, c: isize) {
    }
}

impl Commutative for AddOp<isize> {
    proof fn commutative(a: isize, b: isize) {
    }
}

impl Monoid for AddOp<isize> {
    proof fn identity(a: isize) {
    }
}

impl Inverse for AddOp<isize> {
    open spec fn inv_spec(a: isize) -> isize {
        vstd::wrapping::isize_specs::wrapping_sub(0, a)
    }

    fn inv(a: isize) -> isize {
        0isize.wrapping_sub(a)
    }
}

impl Group for AddOp<isize> {
    proof fn inverse(a: isize) {
    }
}

} // verus!
