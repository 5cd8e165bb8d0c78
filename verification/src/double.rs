//! Double-precision numbers as their 64-bit patterns.
//!
//! What a pattern alone decides (which numbers are finite, how two of them
//! compare, sign changes, extremes) is computed here, exactly, on integers.
//! What needs a floating-point unit (sums, products, roots, printing) is done by
//! an [`Arithmetic`], which is built around the caller's own unit and adds
//! nothing to it but the promise that equal operands give equal results.
use vstd::prelude::*;

verus! {

/// The weight of the sign bit.
pub const SIGN: u64 = 0x8000_0000_0000_0000;

/// The pattern of positive infinity. Every larger magnitude is a NaN.
pub const INFINITY: u64 = 0x7FF0_0000_0000_0000;

/// 0.0
pub const ZERO: u64 = 0;

/// 0.5
pub const HALF: u64 = 0x3FE0_0000_0000_0000;

/// 1.0
pub const ONE: u64 = 0x3FF0_0000_0000_0000;

/// 2.0
pub const TWO: u64 = 0x4000_0000_0000_0000;

/// A double-precision number, held as its IEEE 754 bit pattern.
#[derive(Clone, Copy, Debug, PartialEq, Eq, Structural)]
pub struct Double {
    pub bits: u64,
}

impl Double {
    /// The number with the given bit pattern.
    #[verifier::allow_in_spec]
    pub fn from_bits(bits: u64) -> Double
        returns
            (Double { bits }),
    {
        Double { bits }
    }

    /// The pattern without its sign bit.
    pub open spec fn magnitude(self) -> int {
        if self.bits >= SIGN {
            self.bits - SIGN
        } else {
            self.bits as int
        }
    }

    /// An integer that orders the numbers that are not NaN; both zeros map to 0.
    pub open spec fn rank(self) -> int {
        if self.bits >= SIGN {
            -self.magnitude()
        } else {
            self.magnitude()
        }
    }

    /// An integer that orders every pattern as `f64::total_cmp` does: a negative
    /// zero below a positive one, NaNs at both ends.
    pub open spec fn total_rank(self) -> int {
        if self.bits >= SIGN {
            -self.magnitude() - 1
        } else {
            self.magnitude()
        }
    }

    /// Whether the value is not a number.
    #[verifier::allow_in_spec]
    pub fn is_nan(self) -> bool
        returns
            self.magnitude() > INFINITY,
    {
        if self.bits >= SIGN {
            self.bits - SIGN > INFINITY
        } else {
            self.bits > INFINITY
        }
    }

    /// Whether the value is neither an infinity nor a NaN.
    #[verifier::allow_in_spec]
    pub fn is_finite(self) -> bool
        returns
            self.magnitude() < INFINITY,
    {
        if self.bits >= SIGN {
            self.bits - SIGN < INFINITY
        } else {
            self.bits < INFINITY
        }
    }

    /// `self < other`: false whenever either side is a NaN.
    #[verifier::allow_in_spec]
    pub fn lt(self, other: Double) -> bool
        returns
            !self.is_nan() && !other.is_nan() && self.rank() < other.rank(),
    {
        if self.is_nan() || other.is_nan() {
            return false;
        }
        if self.bits >= SIGN {
            if other.bits >= SIGN {
                self.bits > other.bits
            } else {
                self.bits > SIGN || other.bits > 0
            }
        } else {
            other.bits < SIGN && self.bits < other.bits
        }
    }

    /// `self <= other`: false whenever either side is a NaN.
    #[verifier::allow_in_spec]
    pub fn le(self, other: Double) -> bool
        returns
            !self.is_nan() && !other.is_nan() && self.rank() <= other.rank(),
    {
        !self.is_nan() && !other.is_nan() && !other.lt(self)
    }

    /// `self > other`.
    #[verifier::allow_in_spec]
    pub fn gt(self, other: Double) -> bool
        returns
            other.lt(self),
    {
        other.lt(self)
    }

    /// `self >= other`.
    #[verifier::allow_in_spec]
    pub fn ge(self, other: Double) -> bool
        returns
            other.le(self),
    {
        other.le(self)
    }

    /// `self == other` as numbers: the two zeros are the same, a NaN is the same
    /// as nothing.
    #[verifier::allow_in_spec]
    pub fn same(self, other: Double) -> bool
        returns
            !self.is_nan() && !other.is_nan() && self.rank() == other.rank(),
    {
        self.le(other) && other.le(self)
    }

    /// Whether `self` stands before `other` in the total order of all patterns.
    #[verifier::allow_in_spec]
    pub fn total_lt(self, other: Double) -> bool
        returns
            self.total_rank() < other.total_rank(),
    {
        if self.bits >= SIGN {
            other.bits < SIGN || self.bits > other.bits
        } else {
            other.bits < SIGN && self.bits < other.bits
        }
    }

    /// The value with its sign flipped.
    pub open spec fn negated(self) -> Double {
        Double {
            bits: (if self.bits >= SIGN {
                self.bits - SIGN
            } else {
                self.bits + SIGN
            }) as u64,
        }
    }

    /// `-self`.
    #[verifier::when_used_as_spec(negated)]
    pub fn neg(self) -> (r: Double)
        ensures
            r == self.negated(),
    {
        if self.bits >= SIGN {
            Double { bits: self.bits - SIGN }
        } else {
            Double { bits: self.bits + SIGN }
        }
    }

    /// The absolute value.
    #[verifier::allow_in_spec]
    pub fn abs(self) -> Double
        returns
            (Double { bits: self.magnitude() as u64 }),
    {
        if self.bits >= SIGN {
            Double { bits: self.bits - SIGN }
        } else {
            self
        }
    }

    /// 1.0 or -1.0 by the sign bit, and a NaN for a NaN.
    #[verifier::allow_in_spec]
    pub fn signum(self) -> Double
        returns
            (if self.is_nan() {
                self
            } else if self.bits >= SIGN {
                (Double { bits: 0xBFF0_0000_0000_0000 })
            } else {
                (Double { bits: ONE })
            }),
    {
        if self.is_nan() {
            self
        } else if self.bits >= SIGN {
            Double { bits: 0xBFF0_0000_0000_0000 }
        } else {
            Double { bits: ONE }
        }
    }

    /// The larger of the two; a NaN gives way to the other operand.
    #[verifier::allow_in_spec]
    pub fn larger(self, other: Double) -> Double
        returns
            (if self.is_nan() || self.lt(other) {
                other
            } else {
                self
            }),
    {
        if self.is_nan() || self.lt(other) {
            other
        } else {
            self
        }
    }

    /// The smaller of the two; a NaN gives way to the other operand.
    #[verifier::allow_in_spec]
    pub fn smaller(self, other: Double) -> Double
        returns
            (if self.is_nan() || other.lt(self) {
                other
            } else {
                self
            }),
    {
        if self.is_nan() || other.lt(self) {
            other
        } else {
            self
        }
    }

    /// `self` held within `[low, high]`; a NaN stays a NaN.
    #[verifier::allow_in_spec]
    pub fn clamp(self, low: Double, high: Double) -> Double
        returns
            (if self.lt(low) {
                low
            } else if high.lt(self) {
                high
            } else {
                self
            }),
    {
        if self.lt(low) {
            low
        } else if high.lt(self) {
            high
        } else {
            self
        }
    }
}

/// The operations that a floating-point unit provides.
///
/// Operands and results are bit patterns, except where a variant says that one
/// of them is an integer.
#[derive(Clone, Copy, Debug, PartialEq, Eq, Structural)]
pub enum Op {
    Sum,
    Difference,
    Product,
    Quotient,
    SquareRoot,
    Exponential,
    Logarithm,
    HyperbolicTangent,
    Power,
    /// The second operand is an integer exponent.
    IntegerPower,
    Floor,
    Ceiling,
    /// The first operand is an integer; the result is the nearest number.
    OfCount,
    /// The result is an integer: the operand cut to an array index.
    ToIndex,
}

/// How a number is printed.
#[derive(Clone, Copy, Debug, PartialEq, Eq, Structural)]
pub enum Style {
    /// The shortest digits that give the number back.
    Shortest,
    /// Two digits after the point.
    TwoPlaces,
    /// Four digits after the point.
    FourPlaces,
}

/// Whether `f` answers every call, and equal calls with equal results.
pub open spec fn is_function<F: Fn(Op, u64, u64) -> u64>(f: F) -> bool {
    &&& forall|op: Op, a: u64, b: u64| call_requires(f, (op, a, b))
    &&& forall|op: Op, a: u64, b: u64, r1: u64, r2: u64|
        #![trigger call_ensures(f, (op, a, b), r1), call_ensures(f, (op, a, b), r2)]
        call_ensures(f, (op, a, b), r1) && call_ensures(f, (op, a, b), r2) ==> r1 == r2
}

/// Whether `g` answers every call, and equal calls with equal text.
pub open spec fn is_printer<G: Fn(Style, Double) -> String>(g: G) -> bool {
    &&& forall|style: Style, x: Double| call_requires(g, (style, x))
    &&& forall|style: Style, x: Double, r1: String, r2: String|
        #![trigger call_ensures(g, (style, x), r1), call_ensures(g, (style, x), r2)]
        call_ensures(g, (style, x), r1) && call_ensures(g, (style, x), r2) ==> r1@ == r2@
}

trait Unit {
    spec fn accepts(&self, op: Op, a: u64, b: u64) -> bool;

    spec fn yields(&self, op: Op, a: u64, b: u64, r: u64) -> bool;

    fn run(&self, op: Op, a: u64, b: u64) -> (r: u64)
        requires
            self.accepts(op, a, b),
        ensures
            self.yields(op, a, b, r),
    ;
}

impl<F: Fn(Op, u64, u64) -> u64> Unit for F {
    spec fn accepts(&self, op: Op, a: u64, b: u64) -> bool {
        call_requires(*self, (op, a, b))
    }

    spec fn yields(&self, op: Op, a: u64, b: u64, r: u64) -> bool {
        call_ensures(*self, (op, a, b), r)
    }

    fn run(&self, op: Op, a: u64, b: u64) -> (r: u64) {
        self(op, a, b)
    }
}

trait Printer {
    spec fn prints(&self, style: Style, x: Double) -> bool;

    spec fn writes(&self, style: Style, x: Double, r: String) -> bool;

    fn print(&self, style: Style, x: Double) -> (r: String)
        requires
            self.prints(style, x),
        ensures
            self.writes(style, x, r),
    ;
}

impl<G: Fn(Style, Double) -> String> Printer for G {
    spec fn prints(&self, style: Style, x: Double) -> bool {
        call_requires(*self, (style, x))
    }

    spec fn writes(&self, style: Style, x: Double, r: String) -> bool {
        call_ensures(*self, (style, x), r)
    }

    fn print(&self, style: Style, x: Double) -> (r: String) {
        self(style, x)
    }
}

/// Double-precision arithmetic and printing, as the caller's unit performs them.
pub struct Arithmetic {
    unit: Box<dyn Unit>,
    printer: Box<dyn Printer>,
}

impl Arithmetic {
    #[verifier::type_invariant]
    spec fn inv(&self) -> bool {
        &&& forall|op: Op, a: u64, b: u64| self.unit.accepts(op, a, b)
        &&& forall|op: Op, a: u64, b: u64, r1: u64, r2: u64|
            #![trigger self.unit.yields(op, a, b, r1), self.unit.yields(op, a, b, r2)]
            self.unit.yields(op, a, b, r1) && self.unit.yields(op, a, b, r2) ==> r1 == r2
        &&& forall|style: Style, x: Double| self.printer.prints(style, x)
        &&& forall|style: Style, x: Double, r1: String, r2: String|
            #![trigger self.printer.writes(style, x, r1), self.printer.writes(style, x, r2)]
            self.printer.writes(style, x, r1) && self.printer.writes(style, x, r2) ==> r1@ == r2@
    }

    /// What the unit gives for an operation and its operands.
    pub closed spec fn value(&self, op: Op, a: u64, b: u64) -> u64 {
        choose|r: u64| self.unit.yields(op, a, b, r)
    }

    /// What the printer writes for a number.
    pub closed spec fn text_of(&self, style: Style, x: Double) -> Seq<char> {
        (choose|r: String| self.printer.writes(style, x, r))@
    }

    /// Arithmetic by the unit `unit`, printing by `printer`.
    pub fn new<F, G>(unit: F, printer: G) -> (c: Self) where
        F: Fn(Op, u64, u64) -> u64 + 'static,
        G: Fn(Style, Double) -> String + 'static,

        requires
            is_function(unit),
            is_printer(printer),
        ensures
            forall|op: Op, a: u64, b: u64, r: u64|
                #![trigger call_ensures(unit, (op, a, b), r)]
                call_ensures(unit, (op, a, b), r) ==> c.value(op, a, b) == r,
            forall|style: Style, x: Double, r: String|
                #![trigger call_ensures(printer, (style, x), r)]
                call_ensures(printer, (style, x), r) ==> c.text_of(style, x) == r@,
    {
        let boxed_unit: Box<dyn Unit> = Box::new(unit);
        let boxed_printer: Box<dyn Printer> = Box::new(printer);
        let c = Arithmetic { unit: boxed_unit, printer: boxed_printer };
        proof {
            use_type_invariant(&c);
            assert forall|op: Op, a: u64, b: u64, r: u64|
                #![trigger call_ensures(unit, (op, a, b), r)]
                call_ensures(unit, (op, a, b), r) implies c.value(op, a, b) == r by {
                assert(unit.yields(op, a, b, r));
                assert(c.unit.yields(op, a, b, r));
                assert(c.unit.yields(op, a, b, c.value(op, a, b)));
            }
            assert forall|style: Style, x: Double, r: String|
                #![trigger call_ensures(printer, (style, x), r)]
                call_ensures(printer, (style, x), r) implies c.text_of(style, x) == r@ by {
                assert(printer.writes(style, x, r));
                assert(c.printer.writes(style, x, r));
                let w = choose|w: String| c.printer.writes(style, x, w);
                assert(c.printer.writes(style, x, w));
            }
        }
        c
    }

    fn run(&self, op: Op, a: u64, b: u64) -> (r: u64)
        ensures
            r == self.value(op, a, b),
    {
        proof {
            use_type_invariant(self);
        }
        self.unit.run(op, a, b)
    }

    /// `x` printed in the given style.
    pub fn text(&self, style: Style, x: Double) -> (r: String)
        ensures
            r@ == self.text_of(style, x),
    {
        proof {
            use_type_invariant(self);
        }
        let r = self.printer.print(style, x);
        assert(self.printer.writes(style, x, r));
        r
    }

    /// `a + b`
    #[verifier::allow_in_spec]
    pub fn plus(&self, a: Double, b: Double) -> Double
        returns
            (Double { bits: self.value(Op::Sum, a.bits, b.bits) }),
    {
        Double { bits: self.run(Op::Sum, a.bits, b.bits) }
    }

    /// `a - b`
    #[verifier::allow_in_spec]
    pub fn minus(&self, a: Double, b: Double) -> Double
        returns
            (Double { bits: self.value(Op::Difference, a.bits, b.bits) }),
    {
        Double { bits: self.run(Op::Difference, a.bits, b.bits) }
    }

    /// `a * b`
    #[verifier::allow_in_spec]
    pub fn times(&self, a: Double, b: Double) -> Double
        returns
            (Double { bits: self.value(Op::Product, a.bits, b.bits) }),
    {
        Double { bits: self.run(Op::Product, a.bits, b.bits) }
    }

    /// `a / b`
    #[verifier::allow_in_spec]
    pub fn over(&self, a: Double, b: Double) -> Double
        returns
            (Double { bits: self.value(Op::Quotient, a.bits, b.bits) }),
    {
        Double { bits: self.run(Op::Quotient, a.bits, b.bits) }
    }

    /// The square root of `a`.
    #[verifier::allow_in_spec]
    pub fn sqrt(&self, a: Double) -> Double
        returns
            (Double { bits: self.value(Op::SquareRoot, a.bits, 0) }),
    {
        Double { bits: self.run(Op::SquareRoot, a.bits, 0) }
    }

    /// e to the power `a`.
    #[verifier::allow_in_spec]
    pub fn exp(&self, a: Double) -> Double
        returns
            (Double { bits: self.value(Op::Exponential, a.bits, 0) }),
    {
        Double { bits: self.run(Op::Exponential, a.bits, 0) }
    }

    /// The natural logarithm of `a`.
    #[verifier::allow_in_spec]
    pub fn ln(&self, a: Double) -> Double
        returns
            (Double { bits: self.value(Op::Logarithm, a.bits, 0) }),
    {
        Double { bits: self.run(Op::Logarithm, a.bits, 0) }
    }

    /// The hyperbolic tangent of `a`.
    #[verifier::allow_in_spec]
    pub fn tanh(&self, a: Double) -> Double
        returns
            (Double { bits: self.value(Op::HyperbolicTangent, a.bits, 0) }),
    {
        Double { bits: self.run(Op::HyperbolicTangent, a.bits, 0) }
    }

    /// `a` to the power `b`.
    #[verifier::allow_in_spec]
    pub fn power(&self, a: Double, b: Double) -> Double
        returns
            (Double { bits: self.value(Op::Power, a.bits, b.bits) }),
    {
        Double { bits: self.run(Op::Power, a.bits, b.bits) }
    }

    /// `a` to the power of the integer `n`.
    #[verifier::allow_in_spec]
    pub fn integer_power(&self, a: Double, n: u64) -> Double
        returns
            (Double { bits: self.value(Op::IntegerPower, a.bits, n) }),
    {
        Double { bits: self.run(Op::IntegerPower, a.bits, n) }
    }

    /// The largest whole number not above `a`.
    #[verifier::allow_in_spec]
    pub fn floor(&self, a: Double) -> Double
        returns
            (Double { bits: self.value(Op::Floor, a.bits, 0) }),
    {
        Double { bits: self.run(Op::Floor, a.bits, 0) }
    }

    /// The smallest whole number not below `a`.
    #[verifier::allow_in_spec]
    pub fn ceil(&self, a: Double) -> Double
        returns
            (Double { bits: self.value(Op::Ceiling, a.bits, 0) }),
    {
        Double { bits: self.run(Op::Ceiling, a.bits, 0) }
    }

    /// The number nearest to the integer `n`.
    #[verifier::allow_in_spec]
    pub fn of_count(&self, n: u64) -> Double
        returns
            (Double { bits: self.value(Op::OfCount, n, 0) }),
    {
        Double { bits: self.run(Op::OfCount, n, 0) }
    }

    /// The number nearest to the signed integer `n`.
    pub open spec fn signed(&self, n: i64) -> Double {
        if n < 0 {
            self.of_count((-n) as u64).neg()
        } else {
            self.of_count(n as u64)
        }
    }

    /// The number nearest to the signed integer `n`.
    #[verifier::when_used_as_spec(signed)]
    pub fn of_signed(&self, n: i64) -> (r: Double)
        ensures
            r == self.signed(n),
    {
        if n < 0 {
            let m: u64 = (-(n as i128)) as u64;
            self.of_count(m).neg()
        } else {
            self.of_count(n as u64)
        }
    }

    /// The integer that `a` is cut to as an array index.
    #[verifier::allow_in_spec]
    pub fn to_index(&self, a: Double) -> u64
        returns
            self.value(Op::ToIndex, a.bits, 0),
    {
        self.run(Op::ToIndex, a.bits, 0)
    }
}

impl Double {
    /// Whether the value is one of the two zeros.
    pub open spec fn is_zero(self) -> bool {
        self.magnitude() == 0
    }
}

impl Arithmetic {
    /// What IEEE 754 promises of sums and differences with an operand that is zero or not
    /// negative, of a number less itself, of products and quotients with zero, and of the
    /// exponential at zero. Laws that need a unit to be a floating-point unit ask for this.
    pub open spec fn is_ieee(&self) -> bool {
        &&& forall|x: Double|
            #![trigger self.value(Op::Difference, x.bits, x.bits)]
            x.is_finite() ==> self.minus(x, x).is_zero()
        &&& forall|x: Double, h: Double|
            #![trigger self.value(Op::Difference, x.bits, h.bits)]
            x.is_finite() && h.ge(Double::from_bits(ZERO)) ==> self.minus(x, h).le(x)
        &&& forall|x: Double, h: Double|
            #![trigger self.value(Op::Sum, x.bits, h.bits)]
            x.is_finite() && h.ge(Double::from_bits(ZERO)) ==> x.le(self.plus(x, h))
        &&& forall|x: Double, z: Double|
            #![trigger self.value(Op::Sum, x.bits, z.bits)]
            !x.is_nan() && z.is_zero() ==> (if x.is_zero() {
                self.plus(x, z).is_zero()
            } else {
                self.plus(x, z) == x
            })
        &&& forall|w: Double, z: Double|
            #![trigger self.value(Op::Product, w.bits, z.bits)]
            w.is_finite() && z.is_zero() ==> self.times(w, z).is_zero()
        &&& forall|z: Double, w: Double|
            #![trigger self.value(Op::Quotient, z.bits, w.bits)]
            z.is_zero() && !w.is_zero() && !w.is_nan() ==> self.over(z, w).is_zero()
        &&& forall|z: Double|
            #![trigger self.value(Op::Exponential, z.bits, 0)]
            z.is_zero() ==> self.exp(z) == Double::from_bits(ONE)
    }

    /// What IEEE 754 promises of the order of results, since each is the exact one rounded and
    /// rounding keeps order; of the sign of sums, products, quotients and roots of operands that
    /// are not negative; of counts; and of a NaN, which every operation hands on. Laws that
    /// compare two results ask for this too.
    pub open spec fn keeps_order(&self) -> bool {
        let zero = Double::from_bits(ZERO);
        let one = Double::from_bits(ONE);
        &&& forall|x: Double, a: Double, b: Double|
            #![trigger self.value(Op::Sum, x.bits, a.bits), self.value(Op::Sum, x.bits, b.bits)]
            a.le(b) && !self.plus(x, a).is_nan() && !self.plus(x, b).is_nan() ==> self.plus(
                x,
                a,
            ).le(self.plus(x, b))
        &&& forall|x: Double, a: Double, b: Double|
            #![trigger self.value(Op::Difference, a.bits, x.bits),
                self.value(Op::Difference, b.bits, x.bits)]
            a.le(b) && !self.minus(a, x).is_nan() && !self.minus(b, x).is_nan() ==> self.minus(
                a,
                x,
            ).le(self.minus(b, x))
        &&& forall|x: Double, a: Double, b: Double|
            #![trigger self.value(Op::Difference, x.bits, a.bits),
                self.value(Op::Difference, x.bits, b.bits)]
            a.le(b) && !self.minus(x, a).is_nan() && !self.minus(x, b).is_nan() ==> self.minus(
                x,
                b,
            ).le(self.minus(x, a))
        &&& forall|k: Double, a: Double, b: Double|
            #![trigger self.value(Op::Product, k.bits, a.bits),
                self.value(Op::Product, k.bits, b.bits)]
            k.ge(zero) && a.le(b) && !self.times(k, a).is_nan() && !self.times(k, b).is_nan()
                ==> self.times(k, a).le(self.times(k, b))
        &&& forall|a: Double, b: Double|
            #![trigger self.value(Op::SquareRoot, a.bits, 0), self.value(Op::SquareRoot, b.bits, 0)]
            zero.le(a) && a.le(b) ==> self.sqrt(a).le(self.sqrt(b))
        &&& forall|a: Double|
            #![trigger self.value(Op::SquareRoot, a.bits, 0)]
            if zero.le(a) {
                zero.le(self.sqrt(a))
            } else {
                self.sqrt(a).is_nan()
            }
        &&& forall|a: Double, b: Double|
            #![trigger self.value(Op::Sum, a.bits, b.bits)]
            zero.le(a) && zero.le(b) ==> zero.le(self.plus(a, b))
        &&& forall|z: Double, x: Double|
            #![trigger self.value(Op::Sum, z.bits, x.bits)]
            z.is_zero() && !x.is_nan() ==> (if x.is_zero() {
                self.plus(z, x).is_zero()
            } else {
                self.plus(z, x) == x
            })
        &&& forall|a: Double, b: Double|
            #![trigger self.value(Op::Product, a.bits, b.bits)]
            a.is_finite() && zero.le(a) && zero.le(b) && (b.is_finite() || zero.lt(a)) ==> zero.le(
                self.times(a, b),
            )
        &&& forall|a: Double|
            #![trigger self.value(Op::Product, a.bits, ONE)]
            a.is_finite() ==> self.times(a, one) == a
        &&& forall|b: Double|
            #![trigger self.value(Op::Quotient, ONE, b.bits)]
            zero.lt(b) ==> zero.le(self.over(one, b))
        &&& forall|x: Double|
            #![trigger self.value(Op::IntegerPower, x.bits, 2)]
            zero.le(x) && x.le(one) ==> zero.le(self.integer_power(x, 2)) && self.integer_power(
                x,
                2,
            ).le(one)
        &&& forall|a: Double, b: Double|
            #![trigger self.value(Op::Sum, a.bits, b.bits)]
            a.is_nan() || b.is_nan() ==> self.plus(a, b).is_nan()
        &&& forall|a: Double, b: Double|
            #![trigger self.value(Op::Product, a.bits, b.bits)]
            a.is_nan() || b.is_nan() ==> self.times(a, b).is_nan()
        &&& forall|a: Double, b: Double|
            #![trigger self.value(Op::Quotient, a.bits, b.bits)]
            a.is_nan() || b.is_nan() ==> self.over(a, b).is_nan()
        &&& forall|a: Double|
            #![trigger self.value(Op::Exponential, a.bits, 0)]
            a.is_nan() ==> self.exp(a).is_nan()
        &&& forall|n: u64|
            #![trigger self.value(Op::OfCount, n, 0)]
            zero.le(self.of_count(n)) && self.of_count(n).is_finite()
    }
}

/// Less-than on numbers is irreflexive and transitive, and no number that is not
/// a NaN is ordered against itself or left out of the comparison with another.
pub proof fn law_order(a: Double, b: Double, c: Double)
    ensures
        !a.lt(a),
        a.lt(b) && b.lt(c) ==> a.lt(c),
        a.lt(b) ==> !b.le(a),
        !a.is_nan() && !b.is_nan() ==> a.lt(b) || b.lt(a) || a.same(b),
{
}

/// A NaN clears no comparison, in either position.
pub proof fn law_nan_compares_false(nan: Double, x: Double)
    requires
        nan.is_nan(),
    ensures
        !nan.lt(x),
        !x.lt(nan),
        !nan.le(x),
        !x.le(nan),
        !nan.same(x),
{
}

/// Clamping into an interval that is not empty ends inside it.
pub proof fn law_clamp_inside(x: Double, low: Double, high: Double)
    requires
        !x.is_nan(),
        low.le(high),
    ensures
        low.le(x.clamp(low, high)),
        x.clamp(low, high).le(high),
{
}

/// Clamping leaves alone what is inside the interval, and takes what is outside to the nearer end.
pub proof fn law_clamp_moves_only_what_is_outside(x: Double, low: Double, high: Double)
    requires
        !x.is_nan(),
        low.le(high),
    ensures
        low.le(x) && x.le(high) ==> x.clamp(low, high) == x,
        x.lt(low) ==> x.clamp(low, high) == low,
        high.lt(x) ==> x.clamp(low, high) == high,
{
}

/// The larger of two numbers is one of them and not below either, the smaller one of them and not
/// above either; where one is a NaN, both give the other.
pub proof fn law_larger_and_smaller(a: Double, b: Double)
    ensures
        a.larger(b) == a || a.larger(b) == b,
        a.smaller(b) == a || a.smaller(b) == b,
        !a.is_nan() && !b.is_nan() ==> a.le(a.larger(b)) && b.le(a.larger(b)),
        !a.is_nan() && !b.is_nan() ==> a.smaller(b).le(a) && a.smaller(b).le(b),
        a.is_nan() ==> a.larger(b) == b && a.smaller(b) == b,
        b.is_nan() && !a.is_nan() ==> a.larger(b) == a && a.smaller(b) == a,
{
}

/// Turning the sign round twice changes nothing, and turns the order round once; a size is not
/// negative, and is the number or the number with its sign turned round.
pub proof fn law_signs(a: Double, b: Double)
    ensures
        a.neg().neg() == a,
        a.lt(b) <==> b.neg().lt(a.neg()),
        !a.is_nan() ==> Double::from_bits(ZERO).le(a.abs()),
        a.abs() == a || a.abs() == a.neg(),
        a.is_nan() <==> a.abs().is_nan(),
        a.lt(Double::from_bits(ZERO)) ==> a.signum() == Double::from_bits(ONE).neg(),
        Double::from_bits(ZERO).lt(a) ==> a.signum() == Double::from_bits(ONE),
{
}

/// The total order goes as less-than does wherever that decides, and decides between any two
/// patterns that differ.
pub proof fn law_total_order_extends_less_than(a: Double, b: Double)
    ensures
        a.lt(b) ==> a.total_lt(b),
        a != b ==> a.total_lt(b) || b.total_lt(a),
        !(a.total_lt(b) && b.total_lt(a)),
{
}

} // verus!
