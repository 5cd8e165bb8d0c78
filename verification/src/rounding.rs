//! What floating-point results keep of exact ones.
//!
//! A finite double has an exact value, an integer in units of the smallest double. What IEEE 754
//! promises of the distance between a result and the exact one is listed here for the laws that
//! need it: nothing else in the library rests on it.
use vstd::prelude::*;
use vstd::arithmetic::power2::{
    lemma_pow2_pos, lemma_pow2_strictly_increases, lemma_pow2_unfold, pow2,
};
use crate::double::{Arithmetic, Double, Op, HALF, INFINITY, ONE, SIGN, ZERO};

verus! {

/// The weight of the lowest bit of the exponent.
pub const EXPONENT: u64 = 0x0010_0000_0000_0000;

/// The value of a magnitude in units of the smallest double.
pub open spec fn units(magnitude: int) -> int {
    let exponent = magnitude / EXPONENT as int;
    let fraction = magnitude % EXPONENT as int;
    if exponent <= 0 {
        fraction
    } else {
        (EXPONENT + fraction) * pow2((exponent - 1) as nat)
    }
}

/// Two to the power `n`, for the exponents of ordinary doubles.
pub open spec fn two_to(n: int) -> Double {
    Double::from_bits(((1023 + n) * EXPONENT) as u64)
}

impl Double {
    /// The exact value of a finite double, in units of the smallest one.
    pub open spec fn exact(self) -> int {
        if self.bits >= SIGN {
            -units(self.magnitude())
        } else {
            units(self.magnitude())
        }
    }
}

proof fn lemma_units_grow(a: int, b: int)
    requires
        0 <= a <= b,
    ensures
        0 <= units(a) <= units(b),
        a < b ==> units(a) < units(b),
{
    let step = EXPONENT as int;
    let (ea, fa) = (a / step, a % step);
    let (eb, fb) = (b / step, b % step);
    assert(a == ea * step + fa && 0 <= fa < step) by (nonlinear_arith)
        requires
            step > 0,
            ea == a / step,
            fa == a % step,
    ;
    assert(b == eb * step + fb && 0 <= fb < step) by (nonlinear_arith)
        requires
            step > 0,
            eb == b / step,
            fb == b % step,
    ;
    assert(0 <= ea <= eb) by (nonlinear_arith)
        requires
            step > 0,
            0 <= a <= b,
            ea == a / step,
            eb == b / step,
    ;
    if ea > 0 {
        lemma_pow2_pos((ea - 1) as nat);
        let p = pow2((ea - 1) as nat) as int;
        assert(0 <= (step + fa) * p) by (nonlinear_arith)
            requires
                step > 0,
                fa >= 0,
                p > 0,
        ;
        if ea == eb {
            assert(fa <= fb && (a < b ==> fa < fb));
            assert((step + fa) * p <= (step + fb) * p) by (nonlinear_arith)
                requires
                    fa <= fb,
                    p > 0,
            ;
            assert(fa < fb ==> (step + fa) * p < (step + fb) * p) by (nonlinear_arith)
                requires
                    p > 0,
            ;
        } else {
            let q = pow2((eb - 1) as nat) as int;
            lemma_pow2_unfold(ea as nat);
            if ea < eb - 1 {
                lemma_pow2_strictly_increases(ea as nat, (eb - 1) as nat);
            }
            assert(2 * p <= q);
            assert((step + fa) * p < (step + fb) * q) by (nonlinear_arith)
                requires
                    0 <= fa < step,
                    0 <= fb,
                    0 < p,
                    2 * p <= q,
            ;
        }
    } else if eb > 0 {
        lemma_pow2_pos((eb - 1) as nat);
        let q = pow2((eb - 1) as nat) as int;
        assert(fa < (step + fb) * q) by (nonlinear_arith)
            requires
                0 <= fa < step,
                0 <= fb,
                q >= 1,
        ;
    }
}

/// The order of doubles is that of their exact values.
pub proof fn law_exact_orders(a: Double, b: Double)
    requires
        !a.is_nan(),
        !b.is_nan(),
    ensures
        a.le(b) <==> a.exact() <= b.exact(),
        a.is_zero() <==> a.exact() == 0,
{
    let (m, n) = (a.magnitude(), b.magnitude());
    assert(units(0) == 0);
    lemma_units_grow(0, m);
    lemma_units_grow(0, n);
    if m <= n {
        lemma_units_grow(m, n);
    } else {
        lemma_units_grow(n, m);
    }
}

impl Arithmetic {
    /// What IEEE 754 promises since each result is the exact one, rounded to the nearest double.
    pub open spec fn rounds(&self) -> bool {
        &&& self.rounds_sums()
        &&& self.parts_neighbours()
        &&& self.rounds_products()
        &&& self.rounds_quotients()
        &&& self.rounds_counts()
        &&& self.adds_powers()
        &&& self.multiplies_powers()
        &&& self.scales_by_powers()
    }

    /// Sums commute, are numbers unless infinities meet, and keep their size when both signs
    /// are flipped; what is positive is not lost in a difference.
    #[verifier::opaque]
    pub open spec fn rounds_sums(&self) -> bool {
        let zero = Double::from_bits(ZERO);
        &&& forall|a: Double, b: Double|
            #![trigger self.value(Op::Sum, a.bits, b.bits)]
            !self.plus(a, b).is_nan() ==> self.plus(b, a) == self.plus(a, b)
        &&& forall|a: Double, b: Double|
            #![trigger self.value(Op::Sum, a.bits, b.bits)]
            !a.is_nan() && b.is_finite() ==> !self.plus(a, b).is_nan()
        &&& forall|a: Double, b: Double|
            #![trigger self.value(Op::Sum, a.neg().bits, b.neg().bits)]
            zero.le(a) && zero.le(b) ==> self.plus(a.neg(), b.neg()).same(self.plus(a, b).neg())
        &&& forall|a: Double, b: Double|
            #![trigger self.value(Op::Difference, a.bits, b.bits)]
            a.is_finite() && b.is_finite() && b.lt(a) ==> zero.lt(self.minus(a, b))
    }

    /// A number between 0 and 1 has no neighbour further away than 2^-53.
    #[verifier::opaque]
    pub open spec fn parts_neighbours(&self) -> bool {
        let zero = Double::from_bits(ZERO);
        let one = Double::from_bits(ONE);
        &&& forall|m: Double, h: Double|
            #![trigger self.value(Op::Sum, m.bits, h.bits)]
            zero.le(m) && m.lt(one) && two_to(-53).le(h) ==> m.lt(self.plus(m, h))
        &&& forall|m: Double, h: Double|
            #![trigger self.value(Op::Difference, m.bits, h.bits)]
            zero.lt(m) && m.lt(one) && two_to(-53).le(h) ==> self.minus(m, h).lt(m)
        &&& forall|m: Double|
            #![trigger self.value(Op::Difference, ONE, m.bits)]
            zero.le(m) && m.lt(one) ==> two_to(-53).le(self.minus(one, m))
    }

    /// Products commute, keep order where nothing is negative, and carry signs; a square has
    /// none, and an infinity times zero is nothing.
    #[verifier::opaque]
    pub open spec fn rounds_products(&self) -> bool {
        let zero = Double::from_bits(ZERO);
        &&& forall|a: Double, b: Double|
            #![trigger self.value(Op::Product, a.bits, b.bits)]
            !self.times(a, b).is_nan() ==> self.times(b, a) == self.times(a, b)
        &&& forall|a: Double, b: Double, x: Double, y: Double|
            #![trigger self.value(Op::Product, a.bits, b.bits),
                self.value(Op::Product, x.bits, y.bits)]
            zero.le(a) && a.le(x) && zero.le(b) && b.le(y) && !self.times(a, b).is_nan()
                && !self.times(x, y).is_nan() ==> self.times(a, b).le(self.times(x, y))
        &&& forall|a: Double|
            #![trigger self.value(Op::Product, a.bits, a.bits)]
            !a.is_nan() ==> self.times(a, a).bits <= INFINITY
        &&& forall|a: Double, b: Double|
            #![trigger self.value(Op::Product, a.bits, b.neg().bits)]
            !self.times(a, b).is_nan() ==> self.times(a, b.neg()) == self.times(a, b).neg()
        &&& forall|a: Double, b: Double|
            #![trigger self.value(Op::Product, a.bits, b.bits)]
            !a.is_finite() && b.is_zero() ==> self.times(a, b).is_nan()
    }

    /// Quotients keep order, in the numerator and against it in the divisor, and carry signs;
    /// they are numbers unless zeros or infinities meet.
    #[verifier::opaque]
    pub open spec fn rounds_quotients(&self) -> bool {
        let zero = Double::from_bits(ZERO);
        let one = Double::from_bits(ONE);
        &&& forall|a: Double, d: Double|
            #![trigger self.value(Op::Quotient, a.bits, d.bits)]
            zero.le(a) && d.bits <= INFINITY && !(a.is_zero() && d.is_zero()) && (a.is_finite()
                || d.is_finite()) ==> zero.le(self.over(a, d))
        &&& forall|a: Double, b: Double, d: Double|
            #![trigger self.value(Op::Quotient, a.bits, d.bits),
                self.value(Op::Quotient, b.bits, d.bits)]
            a.le(b) && zero.lt(d) && !self.over(a, d).is_nan() && !self.over(b, d).is_nan()
                ==> self.over(a, d).le(self.over(b, d))
        &&& forall|a: Double, d: Double, e: Double|
            #![trigger self.value(Op::Quotient, a.bits, d.bits),
                self.value(Op::Quotient, a.bits, e.bits)]
            zero.le(a) && d.bits <= INFINITY && e.bits <= INFINITY && d.le(e) && !self.over(
                a,
                d,
            ).is_nan() && !self.over(a, e).is_nan() ==> self.over(a, e).le(self.over(a, d))
        &&& forall|a: Double|
            #![trigger self.value(Op::Quotient, a.bits, ONE)]
            !a.is_nan() ==> self.over(a, one) == a
        &&& forall|a: Double, d: Double|
            #![trigger self.value(Op::Quotient, a.neg().bits, d.bits)]
            !self.over(a, d).is_nan() ==> self.over(a.neg(), d) == self.over(a, d).neg()
    }

    /// Counts are rounded in order.
    #[verifier::opaque]
    pub open spec fn rounds_counts(&self) -> bool {
        let one = Double::from_bits(ONE);
        &&& self.of_count(1) == one
        &&& forall|m: u64, n: u64|
            #![trigger self.value(Op::OfCount, m, 0), self.value(Op::OfCount, n, 0)]
            m <= n ==> self.of_count(m).le(self.of_count(n))
        &&& forall|n: u64| #![trigger self.value(Op::OfCount, n, 0)] self.of_count(n).le(two_to(64))
    }

    /// A power of two is not moved by a number that is smaller by more than its precision.
    #[verifier::opaque]
    pub open spec fn adds_powers(&self) -> bool {
        let zero = Double::from_bits(ZERO);
        &&& forall|m: int, x: Double|
            #![trigger self.value(Op::Sum, two_to(m).bits, x.bits)]
            -968 <= m <= 1023 && zero.le(x) && x.le(two_to(m - 54)) ==> self.plus(two_to(m), x)
                == two_to(m)
    }

    /// Products and quotients of powers of two are not rounded.
    #[verifier::opaque]
    pub open spec fn multiplies_powers(&self) -> bool {
        &&& forall|m: int, n: int|
            #![trigger self.value(Op::Product, two_to(m).bits, two_to(n).bits)]
            -1022 <= m <= 1023 && -1022 <= n <= 1023 && -1022 <= m + n <= 1023 ==> self.times(
                two_to(m),
                two_to(n),
            ) == two_to(m + n)
        &&& forall|m: int, n: int|
            #![trigger self.value(Op::Quotient, two_to(m).bits, two_to(n).bits)]
            -1022 <= m <= 1023 && -1022 <= n <= 1023 && -1022 <= m - n <= 1023 ==> self.over(
                two_to(m),
                two_to(n),
            ) == two_to(m - n)
    }

    /// A power of two scales sums without rounding, and is what is left when the rest cancels.
    #[verifier::opaque]
    pub open spec fn scales_by_powers(&self) -> bool {
        let zero = Double::from_bits(ZERO);
        &&& forall|m: int, a: Double, b: Double|
            #![trigger self.times(two_to(m), self.plus(a, b))]
            0 <= m <= 1023 && zero.le(a) && zero.le(b) && self.times(
                two_to(m),
                self.plus(a, b),
            ).is_finite() ==> self.plus(self.times(two_to(m), a), self.times(two_to(m), b))
                == self.times(two_to(m), self.plus(a, b))
        &&& forall|m: int, x: Double|
            #![trigger self.value(Op::Product, two_to(m).bits, x.bits)]
            0 <= m <= 1023 && zero.lt(x) && self.times(two_to(m), x).is_finite() ==> self.over(
                self.times(two_to(m), x),
                x,
            ) == two_to(m)
    }

    /// What a library of mathematical functions gives: a logarithm of every number that is not
    /// negative, an exponential that is not negative, a square that is the number times itself,
    /// and powers of a half that lie between 0 and 1 and do not grow with the exponent.
    #[verifier::opaque]
    pub open spec fn has_functions(&self) -> bool {
        let zero = Double::from_bits(ZERO);
        let half = Double::from_bits(HALF);
        &&& forall|x: Double|
            #![trigger self.value(Op::Logarithm, x.bits, 0)]
            zero.le(x) ==> !self.ln(x).is_nan()
        &&& forall|x: Double|
            #![trigger self.value(Op::Exponential, x.bits, 0)]
            !x.is_nan() ==> zero.le(self.exp(x))
        &&& forall|x: Double|
            #![trigger self.value(Op::IntegerPower, x.bits, 2)]
            !x.is_nan() ==> self.integer_power(x, 2) == self.times(x, x)
        &&& forall|x: Double|
            #![trigger self.value(Op::Power, HALF, x.bits)]
            zero.le(x) ==> zero.le(self.power(half, x)) && self.power(half, x).le(
                Double::from_bits(ONE),
            )
        &&& forall|x: Double, y: Double|
            #![trigger self.value(Op::Power, HALF, x.bits), self.value(Op::Power, HALF, y.bits)]
            zero.le(x) && x.le(y) ==> self.power(half, y).le(self.power(half, x))
    }
}

/// The distance between two whole numbers.
pub open spec fn gap(a: int, b: int) -> int {
    if a < b {
        b - a
    } else {
        a - b
    }
}

/// One, in units of the smallest double.
pub open spec fn unit() -> int {
    Double::from_bits(ONE).exact()
}

impl Arithmetic {
    /// What IEEE 754 promises of differences: they are sums with the sign of what is taken off
    /// turned round, they tell which operand is the larger, and a NaN is handed on.
    #[verifier::opaque]
    pub open spec fn rounds_differences(&self) -> bool {
        let zero = Double::from_bits(ZERO);
        &&& forall|a: Double, b: Double|
            #![trigger self.value(Op::Difference, a.bits, b.bits)]
            a.is_nan() || b.is_nan() ==> self.minus(a, b).is_nan()
        &&& forall|a: Double, b: Double|
            #![trigger self.value(Op::Difference, a.bits, b.bits)]
            !a.is_nan() && !b.is_nan() && (a.is_finite() || b.is_finite()) ==> !self.minus(
                a,
                b,
            ).is_nan() && self.minus(a, b) == self.plus(a, b.neg())
        &&& forall|a: Double, b: Double|
            #![trigger self.value(Op::Difference, a.bits, b.bits)]
            a.is_finite() && b.is_finite() ==> {
                &&& a.lt(b) ==> self.minus(a, b).lt(zero)
                &&& b.lt(a) ==> zero.lt(self.minus(a, b))
                &&& a.same(b) ==> self.minus(a, b).is_zero()
            }
    }

    /// How near results are to the exact ones: where either is no more than 2^k, so is the other,
    /// the two lie within 2^(k-53) of each other, and counts up to 2^53 are exact.
    #[verifier::opaque]
    pub open spec fn is_accurate(&self) -> bool {
        &&& forall|a: Double, b: Double, k: int|
            #![trigger self.value(Op::Sum, a.bits, b.bits), two_to(k)]
            -900 <= k <= 1000 && a.is_finite() && b.is_finite() && (self.plus(a, b).abs().le(
                two_to(k),
            ) || gap(a.exact() + b.exact(), 0) <= two_to(k).exact()) ==> {
                &&& self.plus(a, b).abs().le(two_to(k))
                &&& gap(self.plus(a, b).exact(), a.exact() + b.exact()) <= two_to(k - 53).exact()
            }
        &&& forall|a: Double, b: Double, k: int|
            #![trigger self.value(Op::Difference, a.bits, b.bits), two_to(k)]
            -900 <= k <= 1000 && a.is_finite() && b.is_finite() && (self.minus(a, b).abs().le(
                two_to(k),
            ) || gap(a.exact(), b.exact()) <= two_to(k).exact()) ==> {
                &&& self.minus(a, b).abs().le(two_to(k))
                &&& gap(self.minus(a, b).exact(), a.exact() - b.exact()) <= two_to(k - 53).exact()
            }
        &&& forall|a: Double, b: Double, k: int|
            #![trigger self.value(Op::Product, a.bits, b.bits), two_to(k)]
            -900 <= k <= 1000 && a.is_finite() && b.is_finite() && (self.times(a, b).abs().le(
                two_to(k),
            ) || gap(a.exact() * b.exact(), 0) <= two_to(k).exact() * unit()) ==> {
                &&& self.times(a, b).abs().le(two_to(k))
                &&& gap(self.times(a, b).exact() * unit(), a.exact() * b.exact()) <= two_to(
                    k - 53,
                ).exact() * unit()
            }
        &&& forall|a: Double, b: Double, k: int|
            #![trigger self.value(Op::Quotient, a.bits, b.bits), two_to(k)]
            -900 <= k <= 1000 && a.is_finite() && b.is_finite() && !b.is_zero() && (self.over(
                a,
                b,
            ).abs().le(two_to(k)) || gap(a.exact() * unit(), 0) <= two_to(k).exact() * gap(
                b.exact(),
                0,
            )) ==> {
                &&& self.over(a, b).abs().le(two_to(k))
                &&& gap(self.over(a, b).exact() * b.exact(), a.exact() * unit()) <= two_to(
                    k - 53,
                ).exact() * gap(b.exact(), 0)
            }
        &&& forall|n: u64|
            #![trigger self.value(Op::OfCount, n, 0)]
            n <= 0x20_0000_0000_0000 ==> self.of_count(n).exact() == n * unit()
    }
}

impl Arithmetic {
    /// What rounding up gives: a whole number that is not below the one rounded, and less than
    /// one above it.
    #[verifier::opaque]
    pub open spec fn rounds_up(&self) -> bool {
        forall|x: Double|
            #![trigger self.value(Op::Ceiling, x.bits, 0)]
            x.is_finite() ==> {
                &&& self.ceil(x).is_finite()
                &&& x.exact() <= self.ceil(x).exact() < x.exact() + unit()
                &&& self.ceil(x).exact() % unit() == 0
            }
    }
}

impl Arithmetic {
    /// What rounding down gives: a whole number that is not above the one rounded, and less than
    /// one below it.
    #[verifier::opaque]
    pub open spec fn rounds_down(&self) -> bool {
        forall|x: Double|
            #![trigger self.value(Op::Floor, x.bits, 0)]
            x.is_finite() ==> {
                &&& self.floor(x).is_finite()
                &&& x.exact() - unit() < self.floor(x).exact() <= x.exact()
                &&& self.floor(x).exact() % unit() == 0
            }
    }

    /// What rounding leaves alone: a number over itself is one, and one times a number is the
    /// number.
    #[verifier::opaque]
    pub open spec fn keeps_one(&self) -> bool {
        let one = Double::from_bits(ONE);
        &&& forall|x: Double|
            #![trigger self.value(Op::Quotient, x.bits, x.bits)]
            x.is_finite() && !x.is_zero() ==> self.over(x, x) == one
        &&& forall|x: Double|
            #![trigger self.value(Op::Product, ONE, x.bits)]
            !x.is_nan() ==> self.times(one, x) == x
    }
}

impl Arithmetic {
    /// How near square roots are: up to 4, the square of a root is within 2^-50 of what the root
    /// was taken of.
    #[verifier::opaque]
    pub open spec fn has_roots(&self) -> bool {
        forall|x: Double|
            #![trigger self.value(Op::SquareRoot, x.bits, 0)]
            Double::from_bits(ZERO).le(x) && x.le(two_to(2)) ==> {
                let root = self.sqrt(x);
                &&& Double::from_bits(ZERO).le(root)
                &&& root.le(two_to(1))
                &&& gap(root.exact() * root.exact(), x.exact() * unit()) <= two_to(-50).exact()
                    * unit()
            }
    }
}

impl Arithmetic {
    /// What cutting to an index gives: the whole part of a number that is not negative and not
    /// above 2^53.
    #[verifier::opaque]
    pub open spec fn cuts(&self) -> bool {
        forall|x: Double|
            #![trigger self.value(Op::ToIndex, x.bits, 0)]
            Double::from_bits(ZERO).le(x) && x.le(two_to(53)) ==> self.to_index(x) * unit()
                <= x.exact() < (self.to_index(x) + 1) * unit()
    }
}

impl Arithmetic {
    /// How exponentials fade: up to 1 they lie between 0 and 4, and up to -16 no higher than 2^-20.
    #[verifier::opaque]
    pub open spec fn fades(&self) -> bool {
        let zero = Double::from_bits(ZERO);
        forall|x: Double|
            #![trigger self.value(Op::Exponential, x.bits, 0)]
            x.is_finite() && x.le(Double::from_bits(ONE)) ==> {
                &&& zero.le(self.exp(x))
                &&& self.exp(x).le(two_to(2))
                &&& x.le(two_to(4).neg()) ==> self.exp(x).le(two_to(-20))
            }
    }
}

impl Arithmetic {
    /// What the hyperbolic tangent gives: it lies between -1 and 1, has the sign of its argument,
    /// and keeps order.
    #[verifier::opaque]
    pub open spec fn bends(&self) -> bool {
        let zero = Double::from_bits(ZERO);
        let one = Double::from_bits(ONE);
        &&& forall|x: Double|
            #![trigger self.value(Op::HyperbolicTangent, x.bits, 0)]
            !x.is_nan() ==> {
                &&& self.tanh(x).abs().le(one)
                &&& zero.le(x) ==> zero.le(self.tanh(x))
                &&& x.le(zero) ==> self.tanh(x).le(zero)
            }
        &&& forall|x: Double, y: Double|
            #![trigger self.value(Op::HyperbolicTangent, x.bits, 0),
                self.value(Op::HyperbolicTangent, y.bits, 0)]
            x.le(y) ==> self.tanh(x).le(self.tanh(y))
    }
}

/// 11
pub const ELEVEN: u64 = 0x4026_0000_0000_0000;

/// 1 - 2^-14
pub const NEARLY_ONE: u64 = 0x3FEF_FF80_0000_0000;

impl Arithmetic {
    /// The probability with the log-odds `x`.
    pub open spec fn probability_at(&self, x: Double) -> Double {
        let one = Double::from_bits(ONE);
        self.over(one, self.plus(one, self.exp(x.neg())))
    }

    /// The log-odds of a probability.
    pub open spec fn log_odds_of(&self, p: Double) -> Double {
        self.ln(self.over(p, self.minus(Double::from_bits(ONE), p)))
    }

    /// What a library of mathematical functions gives of log-odds: the logarithm keeps order,
    /// hands on a NaN, and is no more than 11 up to 2^15; a probability and its log-odds lead to
    /// each other, within 2^-20 where the log-odds are no more than 16 and within 2^-30 where the
    /// probability keeps 2^-14 from certainty; and a half to the powers 0 and 1 is one and a half.
    #[verifier::opaque]
    pub open spec fn has_log_odds(&self) -> bool {
        let zero = Double::from_bits(ZERO);
        let one = Double::from_bits(ONE);
        let half = Double::from_bits(HALF);
        &&& forall|x: Double, y: Double|
            #![trigger self.value(Op::Logarithm, x.bits, 0), self.value(Op::Logarithm, y.bits, 0)]
            zero.le(x) && x.le(y) ==> self.ln(x).le(self.ln(y))
        &&& forall|x: Double|
            #![trigger self.value(Op::Logarithm, x.bits, 0)]
            x.is_nan() ==> self.ln(x).is_nan()
        &&& forall|x: Double|
            #![trigger self.value(Op::Logarithm, x.bits, 0)]
            two_to(-15).le(x) && x.le(two_to(15)) ==> self.ln(x).abs().le(Double::from_bits(ELEVEN))
        &&& forall|x: Double|
            #![trigger self.probability_at(x)]
            x.abs().le(two_to(4)) ==> {
                let back = self.log_odds_of(self.probability_at(x));
                &&& back.is_finite()
                &&& gap(back.exact(), x.exact()) <= two_to(-20).exact()
            }
        &&& forall|p: Double|
            #![trigger self.log_odds_of(p)]
            two_to(-14).le(p) && p.le(Double::from_bits(NEARLY_ONE)) ==> {
                let back = self.probability_at(self.log_odds_of(p));
                &&& back.is_finite()
                &&& gap(back.exact(), p.exact()) <= two_to(-30).exact()
            }
        &&& self.power(half, zero) == one
        &&& self.power(half, one) == half
    }
}

/// The exact value of a power of two, and of the one above it.
pub proof fn lemma_exact_power(n: int)
    requires
        -1022 <= n <= 1023,
    ensures
        two_to(n).exact() == pow2((n + 1074) as nat),
        two_to(n).exact() > 0,
        n < 1023 ==> two_to(n + 1).exact() == 2 * two_to(n).exact(),
        unit() == pow2(1074),
        unit() > 0,
        Double::from_bits(ZERO).exact() == 0,
{
    lemma_exact_of_bits(n);
    lemma_exact_of_bits(0);
    if n < 1023 {
        lemma_exact_of_bits(n + 1);
        lemma_pow2_unfold((n + 1 + 1074) as nat);
    }
    lemma_pow2_pos((n + 1074) as nat);
    lemma_pow2_pos(1074);
    assert(two_to(0) == Double::from_bits(ONE));
    assert(units(0) == 0);
}

proof fn lemma_exact_of_bits(n: int)
    requires
        -1022 <= n <= 1023,
    ensures
        two_to(n).exact() == pow2((n + 1074) as nat),
{
    let step = EXPONENT as int;
    let e = 1023 + n;
    assert(0 < e * step <= 2046 * step) by (nonlinear_arith)
        requires
            1 <= e <= 2046,
            step > 0,
    ;
    let m = two_to(n).magnitude();
    assert(m == e * step);
    assert(m / step == e && m % step == 0) by (nonlinear_arith)
        requires
            m == e * step,
            step > 0,
    ;
    assert(two_to(n).exact() == (step + 0) * pow2((e - 1) as nat));
    vstd::arithmetic::power2::lemma_pow2_adds(52, (e - 1) as nat);
    assert(pow2(52) == 0x10_0000_0000_0000) by {
        vstd::arithmetic::power2::lemma2_to64();
        vstd::arithmetic::power2::lemma_pow2_adds(32, 20);
        assert(pow2(20) == 0x10_0000);
        assert(pow2(32) == 0x1_0000_0000);
    }
}

/// A sum near 2^k is near the exact one.
pub proof fn lemma_sum_near(c: &Arithmetic, a: Double, b: Double, k: int)
    requires
        c.is_accurate(),
        -900 <= k <= 1000,
        a.is_finite(),
        b.is_finite(),
        gap(a.exact() + b.exact(), 0) <= two_to(k).exact() || c.plus(a, b).abs().le(two_to(k)),
    ensures
        c.plus(a, b).abs().le(two_to(k)),
        c.plus(a, b).is_finite(),
        gap(c.plus(a, b).exact(), a.exact() + b.exact()) <= two_to(k - 53).exact(),
{
    reveal(Arithmetic::is_accurate);
    law_powers_are_ordered(k, k);
}

/// A difference near 2^k is near the exact one.
pub proof fn lemma_difference_near(c: &Arithmetic, a: Double, b: Double, k: int)
    requires
        c.is_accurate(),
        -900 <= k <= 1000,
        a.is_finite(),
        b.is_finite(),
        gap(a.exact(), b.exact()) <= two_to(k).exact() || c.minus(a, b).abs().le(two_to(k)),
    ensures
        c.minus(a, b).abs().le(two_to(k)),
        c.minus(a, b).is_finite(),
        gap(c.minus(a, b).exact(), a.exact() - b.exact()) <= two_to(k - 53).exact(),
{
    reveal(Arithmetic::is_accurate);
    law_powers_are_ordered(k, k);
}

/// A product near 2^k is near the exact one.
pub proof fn lemma_product_near(c: &Arithmetic, a: Double, b: Double, k: int)
    requires
        c.is_accurate(),
        -900 <= k <= 1000,
        a.is_finite(),
        b.is_finite(),
        gap(a.exact() * b.exact(), 0) <= two_to(k).exact() * unit() || c.times(a, b).abs().le(
            two_to(k),
        ),
    ensures
        c.times(a, b).abs().le(two_to(k)),
        c.times(a, b).is_finite(),
        gap(c.times(a, b).exact() * unit(), a.exact() * b.exact()) <= two_to(k - 53).exact()
            * unit(),
{
    reveal(Arithmetic::is_accurate);
    law_powers_are_ordered(k, k);
}

/// A quotient near 2^k is near the exact one.
pub proof fn lemma_quotient_near(c: &Arithmetic, a: Double, b: Double, k: int)
    requires
        c.is_accurate(),
        -900 <= k <= 1000,
        a.is_finite(),
        b.is_finite(),
        !b.is_zero(),
        gap(a.exact() * unit(), 0) <= two_to(k).exact() * gap(b.exact(), 0) || c.over(
            a,
            b,
        ).abs().le(two_to(k)),
    ensures
        c.over(a, b).abs().le(two_to(k)),
        c.over(a, b).is_finite(),
        gap(c.over(a, b).exact() * b.exact(), a.exact() * unit()) <= two_to(k - 53).exact() * gap(
            b.exact(),
            0,
        ),
{
    reveal(Arithmetic::is_accurate);
    law_powers_are_ordered(k, k);
}

/// A factor that two numbers share says nothing of how near they are.
pub proof fn lemma_cancel(x: int, y: int, near: int, factor: int)
    requires
        factor > 0,
        gap(x * factor, y * factor) <= near * factor,
    ensures
        gap(x, y) <= near,
{
    assert(x * factor - y * factor == (x - y) * factor) by (nonlinear_arith);
    assert(x - y <= near) by (nonlinear_arith)
        requires
            factor > 0,
            (x - y) * factor <= near * factor,
    ;
    assert(y * factor - x * factor == (y - x) * factor) by (nonlinear_arith);
    assert(y - x <= near) by (nonlinear_arith)
        requires
            factor > 0,
            (y - x) * factor <= near * factor,
    ;
}

/// The size of a number bounds its exact value both ways.
pub proof fn lemma_size(x: Double, most: Double)
    requires
        x.abs().le(most),
    ensures
        -most.exact() <= x.exact() <= most.exact(),
        gap(x.exact(), 0) <= most.exact(),
{
    let zero = Double::from_bits(ZERO);
    law_exact_orders(x.abs(), most);
    law_exact_orders(zero, x.abs());
    law_exact_orders(zero, zero);
    assert(x.exact() == x.abs().exact() || x.exact() == -x.abs().exact());
}

/// What is left to one of 1 - 2^-14.
pub proof fn lemma_nearly_one()
    ensures
        Double::from_bits(NEARLY_ONE).exact() + two_to(-14).exact() == unit(),
        Double::from_bits(ELEVEN).exact() == 11 * unit(),
{
    let step = EXPONENT as int;
    let m = NEARLY_ONE as int;
    assert(m / step == 1022 && m % step == 0xF_FF80_0000_0000);
    lemma_exact_power(-14);
    lemma_exact_power(0);
    let p = pow2(1021) as int;
    vstd::arithmetic::power2::lemma2_to64();
    vstd::arithmetic::power2::lemma_pow2_adds(32, 7);
    vstd::arithmetic::power2::lemma_pow2_adds(32, 21);
    vstd::arithmetic::power2::lemma_pow2_adds(39, 1021);
    vstd::arithmetic::power2::lemma_pow2_adds(53, 1021);
    assert(pow2(39) == 0x80_0000_0000);
    assert(pow2(53) == 0x20_0000_0000_0000);
    assert(Double::from_bits(NEARLY_ONE).exact() == (step + 0xF_FF80_0000_0000) * p);
    assert((step + 0xF_FF80_0000_0000) * p + 0x80_0000_0000 * p == 0x20_0000_0000_0000 * p)
        by (nonlinear_arith)
        requires
            step == 0x10_0000_0000_0000,
    ;
    let t = ELEVEN as int;
    assert(t / step == 1026 && t % step == 0x6_0000_0000_0000);
    let q = pow2(1025) as int;
    assert(Double::from_bits(ELEVEN).exact() == (step + 0x6_0000_0000_0000) * q);
    vstd::arithmetic::power2::lemma_pow2_adds(49, 1025);
    vstd::arithmetic::power2::lemma_pow2_adds(32, 17);
    assert(pow2(49) == 0x2_0000_0000_0000);
    assert((step + 0x6_0000_0000_0000) * q == 11 * (0x2_0000_0000_0000 * q)) by (nonlinear_arith)
        requires
            step == 0x10_0000_0000_0000,
    ;
}

/// A larger power of two is the larger number, and all of them are positive.
pub proof fn law_powers_are_ordered(m: int, n: int)
    requires
        -1022 <= m <= n <= 1023,
    ensures
        two_to(m).le(two_to(n)),
        m < n ==> two_to(m).lt(two_to(n)),
        two_to(m).gt(Double::from_bits(ZERO)),
        two_to(m).is_finite(),
        two_to(m).bits < INFINITY,
        two_to(0) == Double::from_bits(ONE),
{
    assert(two_to(m).bits == (1023 + m) * EXPONENT) by {
        assert(0 < (1023 + m) * EXPONENT <= 2046 * EXPONENT) by (nonlinear_arith)
            requires
                -1022 <= m <= 1023,
        ;
    }
    assert(two_to(n).bits == (1023 + n) * EXPONENT) by {
        assert(0 < (1023 + n) * EXPONENT <= 2046 * EXPONENT) by (nonlinear_arith)
            requires
                -1022 <= n <= 1023,
        ;
    }
}

/// Adding a number that is not negative never lowers, whichever side it stands on.
pub proof fn lemma_sum_grows(c: &Arithmetic, a: Double, b: Double)
    requires
        c.is_ieee(),
        c.rounds(),
        a.is_finite(),
        b.is_finite(),
        a.ge(Double::from_bits(ZERO)),
        b.ge(Double::from_bits(ZERO)),
    ensures
        a.le(c.plus(a, b)),
        b.le(c.plus(a, b)),
{
    reveal(Arithmetic::rounds_sums);
    assert(a.le(c.plus(a, b)));
    assert(b.le(c.plus(b, a)));
}

/// A sum that is no larger than a power of two stays so when a much smaller number is added.
pub proof fn lemma_sum_stays(c: &Arithmetic, a: Double, b: Double, m: int)
    requires
        c.is_ieee(),
        c.keeps_order(),
        c.rounds(),
        -968 <= m <= 1023,
        a.ge(Double::from_bits(ZERO)),
        b.ge(Double::from_bits(ZERO)),
        a.le(two_to(m)),
        b.le(two_to(m - 54)),
    ensures
        c.plus(a, b).le(two_to(m)),
        c.plus(a, b).ge(Double::from_bits(ZERO)),
        c.plus(a, b).is_finite(),
{
    reveal(Arithmetic::rounds_sums);
    reveal(Arithmetic::adds_powers);
    law_powers_are_ordered(m - 54, m);
    let (large, small) = (two_to(m), two_to(m - 54));
    assert(a.is_finite() && b.is_finite());
    assert(c.plus(a, b).le(c.plus(a, small)));
    assert(c.plus(a, small) == c.plus(small, a));
    assert(c.plus(small, a).le(c.plus(small, large)));
    assert(c.plus(large, small) == large);
}

} // verus!
