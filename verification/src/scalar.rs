use vstd::prelude::*;

verus! {

/// The numbers that points, centroids and distance bounds are made of.
///
/// Every operation is total and is a function of its arguments alone: for each
/// executable method there is a specification function of the same name with
/// `_spec` appended, and the method returns exactly that value. The clustering
/// code is proved for every such type, so its contracts fix the order in which
/// the operations are applied but assume no algebraic law of them: they hold
/// as they stand for arithmetic that rounds.
pub trait Scalar: Copy {
    /// The value of [`Scalar::zero`].
    spec fn zero_spec() -> Self;

    /// The neutral element that sums start from.
    fn zero() -> (r: Self)
        ensures
            r == Self::zero_spec(),
    ;

    /// The value of [`Scalar::max_value`].
    spec fn max_value_spec() -> Self;

    /// The largest finite scalar, from which a search for a minimum starts.
    fn max_value() -> (r: Self)
        ensures
            r == Self::max_value_spec(),
    ;

    /// The value of [`Scalar::from_u8`].
    spec fn from_u8_spec(byte: u8) -> Self;

    /// The scalar that stands for a byte.
    fn from_u8(byte: u8) -> (r: Self)
        ensures
            r == Self::from_u8_spec(byte),
    ;

    /// The value of [`Scalar::to_u8`].
    spec fn to_u8_spec(self) -> u8;

    /// The scalar cut down to a byte: the fraction is dropped, not rounded.
    fn to_u8(self) -> (r: u8)
        ensures
            r == self.to_u8_spec(),
    ;

    /// The value of [`Scalar::from_count`].
    spec fn from_count_spec(count: usize) -> Self;

    /// The scalar that stands for a number of points.
    fn from_count(count: usize) -> (r: Self)
        ensures
            r == Self::from_count_spec(count),
    ;

    /// The value of [`Scalar::plus`].
    spec fn plus_spec(self, rhs: Self) -> Self;

    /// `self + rhs`.
    fn plus(self, rhs: Self) -> (r: Self)
        ensures
            r == self.plus_spec(rhs),
    ;

    /// The value of [`Scalar::minus`].
    spec fn minus_spec(self, rhs: Self) -> Self;

    /// `self - rhs`.
    fn minus(self, rhs: Self) -> (r: Self)
        ensures
            r == self.minus_spec(rhs),
    ;

    /// The value of [`Scalar::over`].
    spec fn over_spec(self, rhs: Self) -> Self;

    /// `self / rhs`, defined for every divisor, zero included.
    fn over(self, rhs: Self) -> (r: Self)
        ensures
            r == self.over_spec(rhs),
    ;

    /// The value of [`Scalar::squared`].
    spec fn squared_spec(self) -> Self;

    /// `self` raised to the second power.
    fn squared(self) -> (r: Self)
        ensures
            r == self.squared_spec(),
    ;

    /// The value of [`Scalar::sqrt`].
    spec fn sqrt_spec(self) -> Self;

    /// The square root of `self`.
    fn sqrt(self) -> (r: Self)
        ensures
            r == self.sqrt_spec(),
    ;

    /// The value of [`Scalar::lt`].
    spec fn lt_spec(self, rhs: Self) -> bool;

    /// Whether `self < rhs`. Need not be total: a value that is not a number
    /// is below nothing and nothing is below it.
    fn lt(self, rhs: Self) -> (b: bool)
        ensures
            b == self.lt_spec(rhs),
    ;

    /// The value of [`Scalar::larger`].
    spec fn larger_spec(self, rhs: Self) -> Self;

    /// The larger of `self` and `rhs`.
    fn larger(self, rhs: Self) -> (r: Self)
        ensures
            r == self.larger_spec(rhs),
    ;

    /// The value of [`Scalar::total_lt`].
    spec fn total_lt_spec(self, rhs: Self) -> bool;

    /// Whether `self` comes strictly before `rhs` in the total order of the
    /// scalars, which ranks every value, also one that is not a number.
    fn total_lt(self, rhs: Self) -> (b: bool)
        ensures
            b == self.total_lt_spec(rhs),
    ;

    /// The value of [`Scalar::is_sign_negative`].
    spec fn is_sign_negative_spec(self) -> bool;

    /// Whether `self` carries a negative sign.
    fn is_sign_negative(self) -> (b: bool)
        ensures
            b == self.is_sign_negative_spec(),
    ;
}

} // verus!
