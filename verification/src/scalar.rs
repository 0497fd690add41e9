//! The numbers that the matrices are made of.
use vstd::prelude::*;

verus! {

/// The operations of a number type, as mathematical functions. The contracts
/// and the laws of this crate are stated over these functions, of which no
/// property is assumed.
///
/// An implementation defines each of them, as the one for the real numbers below does.
pub trait Arithmetic: Sized {
    /// The neutral element of addition.
    spec fn zero_spec() -> Self;

    /// The neutral element of multiplication.
    spec fn one_spec() -> Self;

    /// The number `n`.
    spec fn of_u32(n: u32) -> Self;

    /// The distance that counts as negligible next to one.
    spec fn epsilon_spec() -> Self;

    /// `self + rhs`
    spec fn plus(self, rhs: Self) -> Self;

    /// `self - rhs`
    spec fn minus(self, rhs: Self) -> Self;

    /// `self * rhs`
    spec fn times(self, rhs: Self) -> Self;

    /// `self / rhs`
    spec fn over(self, rhs: Self) -> Self;

    /// `-self`
    spec fn negated(self) -> Self;

    /// The square root.
    spec fn root(self) -> Self;

    /// The absolute value.
    spec fn magnitude(self) -> Self;

    /// Whether the value is equal to zero.
    spec fn vanishes(self) -> bool;

    /// Whether the value carries a minus sign. A zero may carry one.
    spec fn has_minus_sign(self) -> bool;

    /// Whether the value is not a number.
    spec fn undefined(self) -> bool;

    /// `self < rhs`
    spec fn below(self, rhs: Self) -> bool;

    /// `self <= rhs`
    spec fn at_most(self, rhs: Self) -> bool;
}

/// A number type for the factorization and the solvers, such as a floating
/// point type. The user of the library supplies it.
///
/// Each method computes the function of `Arithmetic` that its contract names.
/// No property of these functions is assumed, so what is proved of the
/// factorization and of the solvers holds whatever the rounding is: all that is
/// asked of an implementation is that the result of a method is determined by
/// its arguments, as the function says. An implementation in code that is not
/// verified has to see to that itself. All NaNs count as one value, so that it gives
/// one fixed answer for every NaN, also where it is asked for the sign.
pub trait Real: Arithmetic + Copy {
    fn zero() -> (r: Self)
        ensures
            r == Self::zero_spec(),
    ;

    fn one() -> (r: Self)
        ensures
            r == Self::one_spec(),
    ;

    fn from_u32(n: u32) -> (r: Self)
        ensures
            r == Self::of_u32(n),
    ;

    fn default_epsilon() -> (r: Self)
        ensures
            r == Self::epsilon_spec(),
    ;

    fn add(self, rhs: Self) -> (r: Self)
        ensures
            r == self.plus(rhs),
    ;

    fn sub(self, rhs: Self) -> (r: Self)
        ensures
            r == self.minus(rhs),
    ;

    fn mul(self, rhs: Self) -> (r: Self)
        ensures
            r == self.times(rhs),
    ;

    fn div(self, rhs: Self) -> (r: Self)
        ensures
            r == self.over(rhs),
    ;

    fn neg(self) -> (r: Self)
        ensures
            r == self.negated(),
    ;

    fn sqrt(self) -> (r: Self)
        ensures
            r == self.root(),
    ;

    fn abs(self) -> (r: Self)
        ensures
            r == self.magnitude(),
    ;

    fn is_zero(self) -> (r: bool)
        ensures
            r == self.vanishes(),
    ;

    fn is_negative(self) -> (r: bool)
        ensures
            r == self.has_minus_sign(),
    ;

    fn is_nan(self) -> (r: bool)
        ensures
            r == self.undefined(),
    ;

    fn lt(self, rhs: Self) -> (r: bool)
        ensures
            r == self.below(rhs),
    ;

    fn le(self, rhs: Self) -> (r: bool)
        ensures
            r == self.at_most(rhs),
    ;
}

/// Arithmetic without rounding: `val` reads every value of the number type as
/// a real number, and each operation computes what it stands for.
///
/// The laws of the factorization and of the solvers that only hold up to
/// rounding are stated under this hypothesis.
pub open spec fn exact<F: Arithmetic>(val: spec_fn(F) -> real) -> bool {
    &&& val(F::zero_spec()) == 0 as real
    &&& val(F::one_spec()) == 1 as real
    &&& forall|a: F, b: F| val(#[trigger] a.plus(b)) == val(a) + val(b)
    &&& forall|a: F, b: F| val(#[trigger] a.minus(b)) == val(a) - val(b)
    &&& forall|a: F, b: F| val(#[trigger] a.times(b)) == val(a) * val(b)
    &&& forall|a: F, b: F|
        val(b) != 0 as real ==> val(#[trigger] a.over(b)) == val(a) / val(b)
    &&& forall|a: F| val(#[trigger] a.negated()) == -val(a)
    &&& forall|a: F|
        val(a) >= 0 as real ==> val(#[trigger] a.root()) >= 0 as real && val(a.root()) * val(
            a.root(),
        ) == val(a)
    &&& forall|a: F|
        val(#[trigger] a.magnitude()) == if val(a) < 0 as real {
            -val(a)
        } else {
            val(a)
        }
    &&& forall|a: F| #[trigger] a.vanishes() <==> val(a) == 0 as real
    &&& forall|a: F|
        (val(a) < 0 as real ==> #[trigger] a.has_minus_sign()) && (a.has_minus_sign() ==> val(a)
            <= 0 as real)
    &&& forall|a: F| !(#[trigger] a.undefined())
    &&& forall|a: F, b: F| #[trigger] a.below(b) <==> val(a) < val(b)
    &&& forall|a: F, b: F| #[trigger] a.at_most(b) <==> val(a) <= val(b)
}

/// The absolute value of a real number.
pub open spec fn absolute(x: real) -> real {
    if x < 0 as real {
        -x
    } else {
        x
    }
}

/// Whether `c` is within the relative error `u` of `e`.
#[verifier::opaque]
pub open spec fn near(u: real, c: real, e: real) -> bool {
    absolute(c - e) <= u * absolute(e)
}

/// Arithmetic with rounding: `val` reads every value of the number type as a real number, and
/// each operation computes what it stands for up to the relative error `u`. This is the standard
/// model of floating point arithmetic without overflow and underflow.
pub open spec fn rounded<F: Arithmetic>(val: spec_fn(F) -> real, u: real) -> bool {
    &&& (0 as real) <= u
    &&& u < 1 as real
    &&& val(F::zero_spec()) == 0 as real
    &&& val(F::one_spec()) == 1 as real
    &&& forall|a: F, b: F| near(u, val(#[trigger] a.plus(b)), val(a) + val(b))
    &&& forall|a: F, b: F| near(u, val(#[trigger] a.minus(b)), val(a) - val(b))
    &&& forall|a: F, b: F| near(u, val(#[trigger] a.times(b)), val(a) * val(b))
    &&& forall|a: F, b: F|
        val(b) != 0 as real ==> near(u, val(#[trigger] a.over(b)), val(a) / val(b))
    &&& forall|a: F| val(#[trigger] a.negated()) == -val(a)
    &&& forall|a: F|
        val(a) >= 0 as real ==> {
            let r = val(#[trigger] a.root());
            &&& r >= 0 as real
            &&& (1 as real - u) * (1 as real - u) * val(a) <= r * r
            &&& r * r <= (1 as real + u) * (1 as real + u) * val(a)
        }
    &&& forall|a: F| val(#[trigger] a.magnitude()) == absolute(val(a))
    &&& forall|a: F| #[trigger] a.vanishes() <==> val(a) == 0 as real
    &&& forall|a: F|
        (val(a) < 0 as real ==> #[trigger] a.has_minus_sign()) && (a.has_minus_sign() ==> val(a)
            <= 0 as real)
    &&& forall|a: F, b: F| #[trigger] a.below(b) <==> val(a) < val(b)
    &&& forall|a: F, b: F| #[trigger] a.at_most(b) <==> val(a) <= val(b)
}

/// Arithmetic without rounding is arithmetic with rounding, with the relative error zero.
pub proof fn law_exact_is_rounded<F: Arithmetic>(val: spec_fn(F) -> real)
    requires
        exact(val),
    ensures
        rounded(val, 0 as real),
{
    let zero = 0 as real;
    assert forall|c: real, e: real| c == e implies #[trigger] near(zero, c, e) by {
        reveal(near);
        let x = absolute(e);
        assert(zero * x == 0 as real) by (nonlinear_arith)
            requires
                zero == 0 as real,
        ;
    }
    assert forall|a: F| val(a) >= zero implies {
        let r = val(#[trigger] a.root());
        &&& r >= zero
        &&& (1 as real - zero) * (1 as real - zero) * val(a) <= r * r
        &&& r * r <= (1 as real + zero) * (1 as real + zero) * val(a)
    } by {
        let (x, p, q) = (val(a), 1 as real - zero, 1 as real + zero);
        assert(p * p * x == x && q * q * x == x) by (nonlinear_arith)
            requires
                p == 1 as real,
                q == 1 as real,
        ;
    }
}

/// The real numbers, which no executable type holds. They are the model of
/// arithmetic without rounding.
impl Arithmetic for real {
    open spec fn zero_spec() -> real {
        0 as real
    }

    open spec fn one_spec() -> real {
        1 as real
    }

    open spec fn of_u32(n: u32) -> real {
        n as int as real
    }

    open spec fn epsilon_spec() -> real {
        0 as real
    }

    open spec fn plus(self, rhs: real) -> real {
        self + rhs
    }

    open spec fn minus(self, rhs: real) -> real {
        self - rhs
    }

    open spec fn times(self, rhs: real) -> real {
        self * rhs
    }

    open spec fn over(self, rhs: real) -> real {
        self / rhs
    }

    open spec fn negated(self) -> real {
        -self
    }

    open spec fn root(self) -> real {
        choose|r: real| is_root(r, self)
    }

    open spec fn magnitude(self) -> real {
        if self < 0 as real {
            -self
        } else {
            self
        }
    }

    open spec fn vanishes(self) -> bool {
        self == 0 as real
    }

    open spec fn has_minus_sign(self) -> bool {
        self < 0 as real
    }

    open spec fn undefined(self) -> bool {
        false
    }

    open spec fn below(self, rhs: real) -> bool {
        self < rhs
    }

    open spec fn at_most(self, rhs: real) -> bool {
        self <= rhs
    }
}

/// Whether `r` is the square root of `x`.
pub open spec fn is_root(r: real, x: real) -> bool {
    r >= 0 as real && r * r == x
}

/// Whether `x` has a square root.
pub open spec fn has_root(x: real) -> bool {
    exists|r: real| is_root(r, x)
}

/// The arithmetic of the real numbers is exact, since every real number that
/// is not negative has a square root.
pub proof fn law_real_arithmetic_is_exact()
    requires
        forall|x: real| x >= 0 as real ==> #[trigger] has_root(x),
    ensures
        exact::<real>(|x: real| x),
{
    assert forall|a: real| a >= 0 as real implies is_root(#[trigger] a.root(), a) by {
        assert(has_root(a));
    }
}

} // verus!
