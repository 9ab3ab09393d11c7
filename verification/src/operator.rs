//! The four arithmetic operators: symbol parsing, BIDMAS ordering, and
//! application to numeric values.

use vstd::prelude::*;
use crate::numeric::NumericValue;
use crate::numeric::spec_add;
use crate::numeric::spec_sub;
use crate::numeric::spec_mul;
use crate::numeric::spec_div;

verus! {

/// Returned when an operator symbol is not one of `+ - * /`.
#[derive(Debug, Clone, Copy, PartialEq, Eq, Structural)]
pub struct UnknownOperatorError;

/// One of the four arithmetic operations.
#[derive(Debug, Clone, Copy, PartialEq, Eq, Structural, Hash)]
pub enum Operator {
    Add,
    Subtract,
    Multiply,
    Divide,
}

/// The result of applying an operator to two values.  Opaque so that
/// reasoning about the buffer need not unfold the arithmetic definitions;
/// reveal it where an operator's identity matters.
#[verifier::opaque]
pub open spec fn spec_apply(op: Operator, a: NumericValue, b: NumericValue) -> NumericValue {
    match op {
        Operator::Add => spec_add(a, b),
        Operator::Subtract => spec_sub(a, b),
        Operator::Multiply => spec_mul(a, b),
        Operator::Divide => spec_div(a, b),
    }
}

impl Operator {
    /// BIDMAS order class: multiply and divide (2) bind before add and
    /// subtract (3).
    pub open spec fn spec_order(self) -> int {
        match self {
            Operator::Multiply => 2,
            Operator::Divide => 2,
            Operator::Add => 3,
            Operator::Subtract => 3,
        }
    }

    /// The operator's symbol.
    pub open spec fn spec_id(self) -> char {
        match self {
            Operator::Add => '+',
            Operator::Subtract => '-',
            Operator::Multiply => '*',
            Operator::Divide => '/',
        }
    }

    /// The division operator.
    pub fn divide() -> (r: Operator)
        ensures
            r == Operator::Divide,
    {
        Operator::Divide
    }

    /// The multiplication operator.
    pub fn multiply() -> (r: Operator)
        ensures
            r == Operator::Multiply,
    {
        Operator::Multiply
    }

    /// The addition operator.
    pub fn add() -> (r: Operator)
        ensures
            r == Operator::Add,
    {
        Operator::Add
    }

    /// The subtraction operator.
    pub fn subtract() -> (r: Operator)
        ensures
            r == Operator::Subtract,
    {
        Operator::Subtract
    }

    /// The operator's symbol character.
    pub fn id(&self) -> (c: char)
        ensures
            c == self.spec_id(),
    {
        match self {
            Operator::Add => '+',
            Operator::Subtract => '-',
            Operator::Multiply => '*',
            Operator::Divide => '/',
        }
    }

    /// True when `self` comes after `other` in the BIDMAS order of
    /// operations, that is, `other` binds more tightly.
    pub fn after(&self, other: &Operator) -> (r: bool)
        ensures
            r == (self.spec_order() > other.spec_order()),
    {
        self.order() > other.order()
    }

    /// Same ordering test under the name the buffer logic uses: `self` is
    /// "before" in entry order when it was deferred to `other`.
    pub fn before(&self, other: &Operator) -> (r: bool)
        ensures
            r == (self.spec_order() > other.spec_order()),
    {
        self.order() > other.order()
    }

    fn order(&self) -> (r: u32)
        ensures
            r == self.spec_order(),
    {
        match self {
            Operator::Multiply => 2,
            Operator::Divide => 2,
            Operator::Add => 3,
            Operator::Subtract => 3,
        }
    }

    /// Applies the operator to two values.
    pub fn apply(&self, a: NumericValue, b: NumericValue) -> (r: NumericValue)
        requires
            a.wf(),
            b.wf(),
        ensures
            r == spec_apply(*self, a, b),
            r.wf(),
    {
        proof {
            reveal(spec_apply);
        }
        match self {
            Operator::Add => a.add_values(b),
            Operator::Subtract => a.sub_values(b),
            Operator::Multiply => a.mul_values(b),
            Operator::Divide => a.div_values(b),
        }
    }

    /// Parses an operator from its symbol; every other symbol is rejected
    /// with `UnknownOperatorError`.
    pub fn from_symbol(s: &str) -> (r: Result<Operator, UnknownOperatorError>)
        ensures
            (r == Ok::<Operator, UnknownOperatorError>(Operator::Add)) <==> s@ == seq!['+'],
            (r == Ok::<Operator, UnknownOperatorError>(Operator::Subtract)) <==> s@ == seq!['-'],
            (r == Ok::<Operator, UnknownOperatorError>(Operator::Multiply)) <==> s@ == seq!['*'],
            (r == Ok::<Operator, UnknownOperatorError>(Operator::Divide)) <==> s@ == seq!['/'],
            (r is Err) <==> (s@ != seq!['+'] && s@ != seq!['-'] && s@ != seq!['*'] && s@
                != seq!['/']),
    {
        let n = s.unicode_len();
        if n != 1 {
            proof {
                assert(s@ != seq!['+'] && s@ != seq!['-'] && s@ != seq!['*'] && s@ != seq!['/']);
            }
            return Err(UnknownOperatorError);
        }
        let c = s.get_char(0);
        proof {
            assert(s@ =~= seq![s@[0]]);
        }
        match c {
            '+' => Ok(Operator::Add),
            '-' => Ok(Operator::Subtract),
            '*' => Ok(Operator::Multiply),
            '/' => Ok(Operator::Divide),
            _ => Err(UnknownOperatorError),
        }
    }
}

} // verus!
