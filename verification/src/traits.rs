use vstd::prelude::*;

use crate::errors::UndefinedError;
use crate::expression::Expression;

verus! {

/// What every node of an expression tree offers: consuming itself and
/// returning its normal form, or the undefined form that stopped it. The
/// exact outcome of each implementation is stated on `Expression::simplify`,
/// which every implementation goes through.
pub trait Simplify {
    /// Consumes the value and simplifies it.
    fn simplify(self) -> Result<Expression, UndefinedError>;
}

impl Simplify for crate::types::Integer {
    fn simplify(self) -> Result<Expression, UndefinedError> {
        Expression::Integer(self).simplify()
    }
}

impl Simplify for crate::types::Rational {
    fn simplify(self) -> Result<Expression, UndefinedError> {
        Expression::Rational(self).simplify()
    }
}

impl Simplify for crate::types::Variable {
    fn simplify(self) -> Result<Expression, UndefinedError> {
        Expression::Variable(self).simplify()
    }
}

impl Simplify for crate::types::Sum {
    fn simplify(self) -> Result<Expression, UndefinedError> {
        Expression::Sum(self).simplify()
    }
}

impl Simplify for crate::types::Product {
    fn simplify(self) -> Result<Expression, UndefinedError> {
        Expression::Product(self).simplify()
    }
}

impl Simplify for crate::types::Power {
    fn simplify(self) -> Result<Expression, UndefinedError> {
        Expression::Power(self).simplify()
    }
}

impl Simplify for crate::types::Function {
    fn simplify(self) -> Result<Expression, UndefinedError> {
        Expression::Function(self).simplify()
    }
}

} // verus!
