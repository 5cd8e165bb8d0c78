//! Checks at the boundary: a value that is not finite, or out of its range, is refused
//! before it can reach a comparison that it would silently pass.
use vstd::prelude::*;
use crate::double::{Arithmetic, Double, Style, ONE, ZERO};

verus! {

/// Which field was refused, and why.
#[derive(Debug, Clone, PartialEq)]
pub struct ValidationError {
    pub field: &'static str,
    pub message: String,
}

/// A refused field with its message.
pub struct Fault {
    pub field: Seq<char>,
    pub message: Seq<char>,
}

impl ValidationError {
    /// The error as a fault.
    pub open spec fn fault(&self) -> Fault {
        Fault { field: self.field@, message: self.message@ }
    }

    /// The error as text: the field, a colon, the message.
    pub fn to_text(&self) -> (r: String)
        ensures
            r@ == self.field@ + ": "@ + self.message@,
    {
        let mut s = self.field.to_owned();
        s.append(": ");
        s.append(self.message.as_str());
        s
    }
}

/// What a check refused, if anything.
pub open spec fn fault_in(r: Result<(), ValidationError>) -> Option<Fault> {
    match r {
        Ok(_) => None,
        Err(e) => Some(e.fault()),
    }
}

/// The first of two faults.
pub open spec fn first_fault(a: Option<Fault>, b: Option<Fault>) -> Option<Fault> {
    if a is Some {
        a
    } else {
        b
    }
}

/// Whether `value` lies in `[0, 1]`.
pub open spec fn is_probability(value: Double) -> bool {
    value.is_finite() && Double::from_bits(ZERO).le(value) && value.le(Double::from_bits(ONE))
}

/// Whether `value` is finite and above zero.
pub open spec fn is_positive(value: Double) -> bool {
    value.is_finite() && value.gt(Double::from_bits(ZERO))
}

/// Whether `value` is finite and not below zero.
pub open spec fn is_non_negative(value: Double) -> bool {
    value.is_finite() && value.ge(Double::from_bits(ZERO))
}

/// The fault that a field holding `value` has, where it is not finite.
pub open spec fn finite_fault(c: &Arithmetic, field: Seq<char>, value: Double) -> Option<Fault> {
    if value.is_finite() {
        None
    } else {
        Some(
            Fault {
                field,
                message: "must be finite, got "@ + c.text_of(Style::Shortest, value),
            },
        )
    }
}

/// The fault of a field that must be a probability.
pub open spec fn probability_fault(c: &Arithmetic, field: Seq<char>, value: Double) -> Option<
    Fault,
> {
    if value.is_finite() && !is_probability(value) {
        Some(
            Fault {
                field,
                message: "must be a probability in [0,1], got "@ + c.text_of(
                    Style::Shortest,
                    value,
                ),
            },
        )
    } else {
        finite_fault(c, field, value)
    }
}

/// The fault of a field that must be positive.
pub open spec fn positive_fault(c: &Arithmetic, field: Seq<char>, value: Double) -> Option<Fault> {
    if value.is_finite() && !is_positive(value) {
        Some(
            Fault {
                field,
                message: "must be positive, got "@ + c.text_of(Style::Shortest, value),
            },
        )
    } else {
        finite_fault(c, field, value)
    }
}

/// The fault of a field that must not be negative.
pub open spec fn non_negative_fault(c: &Arithmetic, field: Seq<char>, value: Double) -> Option<
    Fault,
> {
    if value.is_finite() && !is_non_negative(value) {
        Some(
            Fault {
                field,
                message: "must be non-negative, got "@ + c.text_of(Style::Shortest, value),
            },
        )
    } else {
        finite_fault(c, field, value)
    }
}

fn refusal(c: &Arithmetic, field: &'static str, lead: &str, value: Double) -> (e: ValidationError)
    ensures
        e.fault() == (Fault { field: field@, message: lead@ + c.text_of(Style::Shortest, value) }),
{
    let mut message = lead.to_owned();
    message.append(c.text(Style::Shortest, value).as_str());
    ValidationError { field, message }
}

/// Accepts a finite value.
pub fn finite(c: &Arithmetic, field: &'static str, value: Double) -> (r: Result<
    (),
    ValidationError,
>)
    ensures
        r is Ok <==> value.is_finite(),
        fault_in(r) == finite_fault(c, field@, value),
{
    if value.is_finite() {
        Ok(())
    } else {
        Err(refusal(c, field, "must be finite, got ", value))
    }
}

/// Accepts a value in `[0, 1]`, the convention for prices and probabilities.
pub fn probability(c: &Arithmetic, field: &'static str, value: Double) -> (r: Result<
    (),
    ValidationError,
>)
    ensures
        r is Ok <==> is_probability(value),
        fault_in(r) == probability_fault(c, field@, value),
{
    match finite(c, field, value) {
        Err(e) => return Err(e),
        Ok(_) => {},
    }
    if Double::from_bits(ZERO).le(value) && value.le(Double::from_bits(ONE)) {
        Ok(())
    } else {
        Err(refusal(c, field, "must be a probability in [0,1], got ", value))
    }
}

/// Accepts a finite value above zero.
pub fn positive(c: &Arithmetic, field: &'static str, value: Double) -> (r: Result<
    (),
    ValidationError,
>)
    ensures
        r is Ok <==> is_positive(value),
        fault_in(r) == positive_fault(c, field@, value),
{
    match finite(c, field, value) {
        Err(e) => return Err(e),
        Ok(_) => {},
    }
    if value.gt(Double::from_bits(ZERO)) {
        Ok(())
    } else {
        Err(refusal(c, field, "must be positive, got ", value))
    }
}

/// Accepts a finite value not below zero.
pub fn non_negative(c: &Arithmetic, field: &'static str, value: Double) -> (r: Result<
    (),
    ValidationError,
>)
    ensures
        r is Ok <==> is_non_negative(value),
        fault_in(r) == non_negative_fault(c, field@, value),
{
    match finite(c, field, value) {
        Err(e) => return Err(e),
        Ok(_) => {},
    }
    if value.ge(Double::from_bits(ZERO)) {
        Ok(())
    } else {
        Err(refusal(c, field, "must be non-negative, got ", value))
    }
}

/// No check lets a value through that is not finite.
pub proof fn law_non_finite_fails_every_check(c: &Arithmetic, field: Seq<char>, value: Double)
    requires
        !value.is_finite(),
    ensures
        finite_fault(c, field, value) is Some,
        probability_fault(c, field, value) is Some,
        positive_fault(c, field, value) is Some,
        non_negative_fault(c, field, value) is Some,
{
}

} // verus!
