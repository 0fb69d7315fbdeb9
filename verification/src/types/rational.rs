use vstd::prelude::*;

use crate::arith::{abs32, abs_int, gcd_nat, gcd_u64, lemma_gcd_pos};
use crate::errors::UndefinedError;
use crate::expression::{res_view, Expression};
use crate::model::rat_norm;
use crate::types::Integer;

verus! {

/// Folds a numerator and a denominator into normal form, exactly as
/// `rat_norm` states it. The bounds admit every product and cross-sum of
/// machine-word values the simplifier forms.
pub fn fold_rational(p: i128, q: i128) -> (r: Result<Expression, UndefinedError>)
    requires
        -0x8000_0000_0000_0000 <= p <= 0x8000_0000_0000_0000,
        -0x8000_0000_0000_0000 <= q <= 0x8000_0000_0000_0000,
    ensures
        res_view(r) == rat_norm(p as int, q as int),
{
    if q == 0 {
        return Err(UndefinedError::DivisionByZero);
    }
    let ap: u64 = if p < 0 {
        (-p) as u64
    } else {
        p as u64
    };
    let aq: u64 = if q < 0 {
        (-q) as u64
    } else {
        q as u64
    };
    let neg: bool = (p < 0) != (q < 0);
    proof {
        assert(ap as nat == abs_int(p as int));
        assert(aq as nat == abs_int(q as int));
    }
    if ap % aq == 0 {
        let k = ap / aq;
        if neg {
            if k <= 0x8000_0000u64 {
                Ok(Expression::Integer(Integer((-(k as i64)) as i32)))
            } else {
                Err(UndefinedError::Overflow)
            }
        } else {
            if k <= 0x7fff_ffffu64 {
                Ok(Expression::Integer(Integer(k as i32)))
            } else {
                Err(UndefinedError::Overflow)
            }
        }
    } else {
        let g = gcd_u64(ap, aq);
        proof {
            lemma_gcd_pos(ap as nat, aq as nat);
        }
        let kn = ap / g;
        let kd = aq / g;
        if neg {
            if kn <= 0x8000_0000u64 && kd <= 0x7fff_ffffu64 {
                Ok(Expression::Rational(Rational((-(kn as i64)) as i32, kd as i32)))
            } else {
                Err(UndefinedError::Overflow)
            }
        } else {
            if kn <= 0x7fff_ffffu64 && kd <= 0x7fff_ffffu64 {
                Ok(Expression::Rational(Rational(kn as i32, kd as i32)))
            } else {
                Err(UndefinedError::Overflow)
            }
        }
    }
}

/// A ratio of two signed machine-word integers. Simplification brings it to
/// lowest terms with a positive denominator, or collapses it to an integer.
#[derive(Debug, Clone, Copy, PartialEq, Eq)]
pub struct Rational(pub i32, pub i32);

impl View for Rational {
    type V = (int, int);

    open spec fn view(&self) -> (int, int) {
        (self.0 as int, self.1 as int)
    }
}

impl Rational {
    /// Wraps a numerator and a denominator; nothing is reduced here.
    pub fn new(num: i32, den: i32) -> (r: Rational)
        ensures
            r@ == (num as int, den as int),
    {
        Rational(num, den)
    }

    /// The greatest common divisor of the magnitudes of numerator and
    /// denominator, widened so that the extreme values fit.
    pub fn gcd(&self) -> (g: i64)
        ensures
            g as nat == gcd_nat(abs_int(self@.0), abs_int(self@.1)),
    {
        let a = abs32(self.0);
        let b = abs32(self.1);
        let g = gcd_u64(a, b);
        proof {
            crate::arith::lemma_gcd_bound(a as nat, b as nat);
        }
        g as i64
    }

    /// The numerator.
    pub fn num(&self) -> (n: i32)
        ensures
            n as int == self@.0,
    {
        self.0
    }

    /// The denominator.
    pub fn den(&self) -> (d: i32)
        ensures
            d as int == self@.1,
    {
        self.1
    }
}

} // verus!
