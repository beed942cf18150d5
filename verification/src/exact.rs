//! Functions of real numbers, for contracts on what a formula comes to in exact arithmetic.
use vstd::prelude::*;

verus! {

/// A number between 0 and 1.
pub open spec fn in_unit_interval(v: real) -> bool {
    0 as real <= v && v <= 1 as real
}

/// The exponential of a sum is the product of the exponentials, at these two numbers.
pub open spec fn sum_becomes_product(exp: spec_fn(real) -> real, x: real, y: real) -> bool {
    exp(x + y) == exp(x) * exp(y)
}

/// `exp` is positive, never falls, and makes products of sums.
pub open spec fn is_exponential(exp: spec_fn(real) -> real) -> bool {
    &&& forall|x: real| #[trigger] exp(x) > 0 as real
    &&& forall|x: real, y: real| x <= y ==> #[trigger] exp(x) <= #[trigger] exp(y)
    &&& forall|x: real, y: real| #[trigger] sum_becomes_product(exp, x, y)
}

/// `f` lies between 0 and 1, never falls, and makes up one at opposite points.
pub open spec fn is_sigmoid(f: spec_fn(real) -> real) -> bool {
    &&& forall|x: real| in_unit_interval(#[trigger] f(x))
    &&& forall|x: real, y: real| x <= y ==> #[trigger] f(x) <= #[trigger] f(y)
    &&& forall|x: real, y: real|
        x + y == 0 as real ==> #[trigger] f(x) + #[trigger] f(y) == 1 as real
}

/// The logistic function `1 / (1 + exp(-x))`.
pub open spec fn logistic(exp: spec_fn(real) -> real) -> spec_fn(real) -> real {
    |x: real| (1 as real) / (1 as real + exp(-x))
}

/// An exponential is one at zero, and its values at opposite points are each other's inverse.
pub proof fn lemma_exponential_at_opposites(exp: spec_fn(real) -> real, x: real)
    requires
        is_exponential(exp),
    ensures
        exp(0 as real) == 1 as real,
        exp(x) * exp(-x) == 1 as real,
{
    let zero = 0 as real;
    assert(sum_becomes_product(exp, zero, zero));
    assert(zero + zero == zero);
    let e = exp(zero);
    assert(e == 1 as real) by (nonlinear_arith)
        requires
            e == e * e,
            e > 0 as real,
    ;
    assert(sum_becomes_product(exp, x, -x));
    assert(x + -x == zero);
}

/// The logistic function of an exponential lies between 0 and 1, never falls, and makes up one at
/// opposite points.
pub proof fn law_logistic_is_a_sigmoid(exp: spec_fn(real) -> real)
    requires
        is_exponential(exp),
    ensures
        is_sigmoid(logistic(exp)),
{
    let f = logistic(exp);
    let one = 1 as real;
    assert forall|x: real| in_unit_interval(#[trigger] f(x)) by {
        let e = exp(-x);
        assert(0 as real <= one / (one + e) && one / (one + e) <= one) by (nonlinear_arith)
            requires
                e > 0 as real,
                one == 1 as real,
        ;
    }
    assert forall|x: real, y: real| x <= y implies #[trigger] f(x) <= #[trigger] f(y) by {
        let (a, b) = (exp(-x), exp(-y));
        assert(-y <= -x);
        assert(one / (one + a) <= one / (one + b)) by (nonlinear_arith)
            requires
                b <= a,
                b > 0 as real,
                one == 1 as real,
        ;
    }
    assert forall|x: real, y: real| x + y == 0 as real implies #[trigger] f(x) + #[trigger] f(y)
        == 1 as real by {
        assert(y == -x);
        assert(-y == x);
        lemma_exponential_at_opposites(exp, x);
        let (a, b) = (exp(-x), exp(-y));
        assert(one / (one + a) + one / (one + b) == one) by (nonlinear_arith)
            requires
                a * b == one,
                a > 0 as real,
                b > 0 as real,
                one == 1 as real,
        ;
    }
}

} // verus!
