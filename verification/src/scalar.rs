use vstd::prelude::*;

verus! {

/// A number that a matrix can hold.
///
/// Each operation is a total function of its operands, named by a spec function
/// of the same meaning. Nothing else is assumed of the arithmetic: it may round,
/// saturate or wrap. Algebraic identities that a proof needs are asked for where
/// they are used, see [`unital`] and [`zero_absorbs`].
pub trait Scalar: Sized + Copy {
    /// The additive unit.
    spec fn zero_spec() -> Self;

    /// The multiplicative unit.
    spec fn one_spec() -> Self;

    /// The width of the band around zero, and below each integer, inside which
    /// a value counts as noise.
    spec fn epsilon_spec() -> Self;

    /// `self + rhs`.
    spec fn plus_spec(self, rhs: Self) -> Self;

    /// `self - rhs`.
    spec fn minus_spec(self, rhs: Self) -> Self;

    /// `self * rhs`.
    spec fn times_spec(self, rhs: Self) -> Self;

    /// `self / rhs`.
    spec fn over_spec(self, rhs: Self) -> Self;

    /// The largest integer that is not above `self`.
    spec fn floor_spec(self) -> Self;

    /// The integer nearest to `self`.
    spec fn round_spec(self) -> Self;

    /// Whether the two scalars are the same number.
    spec fn same_spec(self, rhs: Self) -> bool;

    /// Whether `self` is strictly smaller than `rhs`.
    spec fn below_spec(self, rhs: Self) -> bool;

    fn zero() -> (r: Self)
        ensures
            r == Self::zero_spec(),
    ;

    fn one() -> (r: Self)
        ensures
            r == Self::one_spec(),
    ;

    fn epsilon() -> (r: Self)
        ensures
            r == Self::epsilon_spec(),
    ;

    fn plus(self, rhs: Self) -> (r: Self)
        ensures
            r == self.plus_spec(rhs),
    ;

    fn minus(self, rhs: Self) -> (r: Self)
        ensures
            r == self.minus_spec(rhs),
    ;

    fn times(self, rhs: Self) -> (r: Self)
        ensures
            r == self.times_spec(rhs),
    ;

    fn over(self, rhs: Self) -> (r: Self)
        ensures
            r == self.over_spec(rhs),
    ;

    fn floor(self) -> (r: Self)
        ensures
            r == self.floor_spec(),
    ;

    fn round(self) -> (r: Self)
        ensures
            r == self.round_spec(),
    ;

    fn same(self, rhs: Self) -> (r: bool)
        ensures
            r == self.same_spec(rhs),
    ;

    fn below(self, rhs: Self) -> (r: bool)
        ensures
            r == self.below_spec(rhs),
    ;
}

/// `x` behaves against zero and one as a number should: adding or subtracting
/// zero and multiplying by one leave it as it is, and multiplying it by zero
/// gives zero.
pub open spec fn unital<T: Scalar>(x: T) -> bool {
    &&& T::zero_spec().plus_spec(x) == x
    &&& x.plus_spec(T::zero_spec()) == x
    &&& x.minus_spec(T::zero_spec()) == x
    &&& T::one_spec().times_spec(x) == x
    &&& x.times_spec(T::one_spec()) == x
    &&& T::zero_spec().times_spec(x) == T::zero_spec()
    &&& x.times_spec(T::zero_spec()) == T::zero_spec()
}

/// Every product with zero is zero, whatever the other factor.
pub open spec fn zero_absorbs<T: Scalar>() -> bool {
    forall|x: T|
        #![trigger x.times_spec(T::zero_spec())]
        #![trigger T::zero_spec().times_spec(x)]
        x.times_spec(T::zero_spec()) == T::zero_spec() && T::zero_spec().times_spec(x)
            == T::zero_spec()
}

} // verus!
