use vstd::prelude::*;

use crate::arith::{
    abs32, abs_int, lemma_abs_div, lemma_abs_mod, lemma_pow_int_ge_base, pow_fold, pow_int,
    pow_within, radical_scan,
};
use crate::ast::{esize, esize_seq, Expr};
use crate::errors::UndefinedError;
use crate::expression::{
    pair_vec, res_view, simplify_fueled, view_of, views_of, Expression,
};
use crate::model::{neg_of, pow_int_base, pow_int_exp, pow_int_exp_list, pow_pair, pow_radical};
use crate::types::{Integer, Rational};
use crate::types::rational::fold_rational;

verus! {

/// A base raised to an exponent; both children are owned expression trees.
#[derive(Debug, PartialEq, Eq)]
pub struct Power {
    pub base: Box<Expression>,
    pub exp: Box<Expression>,
}

impl View for Power {
    type V = Expr;

    open spec fn view(&self) -> Expr {
        Expr::Pow(Box::new(view_of(*self.base)), Box::new(view_of(*self.exp)))
    }
}

impl Power {
    /// Builds a power from its two children.
    pub fn new(base: Expression, exp: Expression) -> (r: Power)
        ensures
            r@ == Expr::Pow(Box::new(view_of(base)), Box::new(view_of(exp))),
    {
        Power { base: Box::new(base), exp: Box::new(exp) }
    }
}

/// Raises one simplified expression to another, exactly as `pow_pair`
/// states it.
#[verifier::rlimit(60)]
#[verifier::spinoff_prover]
pub(crate) fn pow_pair_fueled(v: Expression, w: Expression, fuel: u64) -> (r: Result<
    Expression,
    UndefinedError,
>)
    ensures
        res_view(r) == pow_pair(view_of(v), view_of(w), fuel as nat),
    decreases fuel as nat, esize(view_of(v)) + 1, 0nat,
{
    if fuel == 0 {
        return Err(UndefinedError::DepthExceeded);
    }
    match (v, w) {
        (Expression::Integer(n), Expression::Rational(q)) => with_radical(n.0, q.0, q.1, fuel),
        (Expression::Integer(n), w) => with_integer_base(n.0, w),
        (v, Expression::Integer(n)) => with_integer_exp(v, n.0, fuel),
        (Expression::Rational(a), w) => {
            let w2 = w.deep_clone();
            let p1 = Expression::Power(Power::new(Expression::Integer(Integer(a.0)), w));
            let negw = Expression::Product(
                crate::types::Product(pair_vec(Expression::Integer(Integer(-1)), w2)),
            );
            let p2 = Expression::Power(Power::new(Expression::Integer(Integer(a.1)), negw));
            simplify_fueled(
                Expression::Product(crate::types::Product(pair_vec(p1, p2))),
                fuel - 1,
            )
        },
        (v, w) => Ok(Expression::Power(Power::new(v, w))),
    }
}

/// Folds an integer base under an arbitrary exponent, exactly as
/// `pow_int_base` states it.
#[verifier::rlimit(60)]
#[verifier::spinoff_prover]
pub(crate) fn with_integer_base(n: i32, w: Expression) -> (r: Result<Expression, UndefinedError>)
    ensures
        res_view(r) == pow_int_base(n as int, view_of(w)),
{
    if n == 0 {
        match w {
            Expression::Integer(m) => if m.0 > 0 {
                Ok(Expression::Integer(Integer(0)))
            } else {
                Err(UndefinedError::IndeterminateZeroPowerZero)
            },
            Expression::Rational(q) => {
                proof {
                    assert(-0x4000_0000_0000_0000 <= (q.0 as int) * (q.1 as int)
                        <= 0x4000_0000_0000_0000) by (nonlinear_arith)
                        requires
                            -0x8000_0000 <= q.0 as int <= 0x7fff_ffff,
                            -0x8000_0000 <= q.1 as int <= 0x7fff_ffff,
                    ;
                }
                let s: i64 = (q.0 as i64) * (q.1 as i64);
                if s > 0 {
                    Ok(Expression::Integer(Integer(0)))
                } else {
                    Err(UndefinedError::IndeterminateZeroPowerZero)
                }
            },
            _ => Err(UndefinedError::IndeterminateZeroPowerZero),
        }
    } else if n == 1 || n == -1 {
        Ok(Expression::Integer(Integer(n)))
    } else {
        match w {
            Expression::Integer(m) => {
                if m.0 < 0 {
                    let k: u32 = abs32(m.0) as u32;
                    match pow_fold(n as i64, k) {
                        Ok(v) => fold_rational(1, v as i128),
                        Err(er) => Err(er),
                    }
                } else {
                    match pow_fold(n as i64, m.0 as u32) {
                        Ok(v) => Ok(Expression::Integer(Integer(v))),
                        Err(er) => Err(er),
                    }
                }
            },
            w => Ok(Expression::Power(Power::new(Expression::Integer(Integer(n)), w))),
        }
    }
}

/// Folds a wide integer base, known to be within one word of the machine
/// range, under an integer exponent; what radical extraction hands back.
fn radical_component(n: i64, p: i32) -> (r: Result<Expression, UndefinedError>)
    requires
        -0x8000_0000 <= n <= 0x8000_0000,
    ensures
        res_view(r) == pow_int_base(n as int, Expr::Int(p as int)),
{
    if n == 0 {
        if p > 0 {
            Ok(Expression::Integer(Integer(0)))
        } else {
            Err(UndefinedError::IndeterminateZeroPowerZero)
        }
    } else if n == 1 || n == -1 {
        Ok(Expression::Integer(Integer(n as i32)))
    } else if p < 0 {
        let k: u32 = abs32(p) as u32;
        match pow_fold(n, k) {
            Ok(v) => fold_rational(1, v as i128),
            Err(er) => Err(er),
        }
    } else {
        match pow_fold(n, p as u32) {
            Ok(v) => Ok(Expression::Integer(Integer(v))),
            Err(er) => Err(er),
        }
    }
}

/// Distributes an integer exponent, exactly as `pow_int_exp` states it.
#[verifier::rlimit(60)]
#[verifier::spinoff_prover]
pub(crate) fn with_integer_exp(v: Expression, n: i32, fuel: u64) -> (r: Result<
    Expression,
    UndefinedError,
>)
    ensures
        res_view(r) == pow_int_exp(view_of(v), n as int, fuel as nat),
    decreases fuel as nat, esize(view_of(v)), 0nat,
{
    if fuel == 0 {
        return Err(UndefinedError::DepthExceeded);
    }
    if n == 0 {
        return Ok(Expression::Integer(Integer(1)));
    }
    if n == 1 {
        return Ok(v);
    }
    let ghost vv = view_of(v);
    match v {
        Expression::Rational(q) => {
            if n < 0 {
                let k: u32 = abs32(n) as u32;
                match pow_fold(q.1 as i64, k) {
                    Ok(pb) => match pow_fold(q.0 as i64, k) {
                        Ok(pa) => fold_rational(pb as i128, pa as i128),
                        Err(er) => Err(er),
                    },
                    Err(er) => Err(er),
                }
            } else {
                match pow_fold(q.0 as i64, n as u32) {
                    Ok(pa) => match pow_fold(q.1 as i64, n as u32) {
                        Ok(pb) => fold_rational(pa as i128, pb as i128),
                        Err(er) => Err(er),
                    },
                    Err(er) => Err(er),
                }
            }
        },
        Expression::Power(p) => {
            let pb = p.base;
            let pe = p.exp;
            proof {
                assert(esize(vv) == 1 + esize(view_of(*pb)) + esize(view_of(*pe)));
            }
            match simplify_fueled(
                Expression::Product(
                    crate::types::Product(pair_vec(*pe, Expression::Integer(Integer(n)))),
                ),
                fuel - 1,
            ) {
                Ok(u) => match u {
                    Expression::Integer(m) => with_integer_exp(*pb, m.0, fuel),
                    u => Ok(Expression::Power(Power { base: pb, exp: Box::new(u) })),
                },
                Err(er) => Err(er),
            }
        },
        Expression::Product(pr) => {
            proof {
                assert(esize(vv) == 1 + esize_seq(views_of(pr.0@)));
            }
            match distribute_exp(pr.0, n, fuel) {
                Ok(rs) => simplify_fueled(
                    Expression::Product(crate::types::Product(rs)),
                    fuel - 1,
                ),
                Err(er) => Err(er),
            }
        },
        v => Ok(Expression::Power(Power::new(v, Expression::Integer(Integer(n))))),
    }
}

/// Distributes an integer exponent over each factor in order, exactly as
/// `pow_int_exp_list` states it.
fn distribute_exp(fs: Vec<Expression>, n: i32, fuel: u64) -> (r: Result<
    Vec<Expression>,
    UndefinedError,
>)
    ensures
        match r {
            Ok(out) => pow_int_exp_list(views_of(fs@), n as int, fuel as nat)
                == Ok::<Seq<Expr>, UndefinedError>(views_of(out@)),
            Err(er) => pow_int_exp_list(views_of(fs@), n as int, fuel as nat)
                == Err::<Seq<Expr>, UndefinedError>(er),
        },
    decreases fuel as nat, esize_seq(views_of(fs@)), 1nat,
{
    let ghost orig = fs@;
    proof {
        crate::expression::lemma_views_of(orig);
    }
    if fs.len() == 0 {
        let out: Vec<Expression> = Vec::new();
        proof {
            crate::expression::lemma_views_of(out@);
            assert(views_of(out@) =~= Seq::<Expr>::empty());
        }
        return Ok(out);
    }
    let mut fs = fs;
    let first = fs.remove(0);
    proof {
        assert(fs@ =~= orig.subrange(1, orig.len() as int));
        assert(view_of(first) == views_of(orig)[0]) by {
            crate::expression::lemma_views_of(orig);
        }
        assert(esize(views_of(orig)[0]) <= esize_seq(views_of(orig))) by {
            crate::ast::lemma_esize_seq_elem(views_of(orig), 0);
        }
        crate::expression::lemma_views_of_subrange(orig, 1, orig.len() as int);
        assert(esize(views_of(orig)[0]) >= 1);
        assert(esize_seq(views_of(orig)) == esize(views_of(orig)[0]) + esize_seq(
            views_of(orig).subrange(1, views_of(orig).len() as int),
        ));
        assert(views_of(fs@) =~= views_of(orig).subrange(1, views_of(orig).len() as int));
    }
    match with_integer_exp(first, n, fuel) {
        Ok(v) => match distribute_exp(fs, n, fuel) {
            Ok(mut rest) => {
                let ghost pre_rest = rest@;
                let ghost rv = views_of(rest@);
                let ghost vvv = view_of(v);
                rest.insert(0, v);
                proof {
                    crate::expression::lemma_views_of(pre_rest);
                    crate::expression::lemma_views_of(rest@);
                    assert(rest@ =~= seq![v] + pre_rest);
                    assert(views_of(rest@) =~= seq![vvv] + rv);
                }
                Ok(rest)
            },
            Err(er) => Err(er),
        },
        Err(er) => Err(er),
    }
}

/// Extracts radicals for an integer base under a rational exponent, exactly
/// as `pow_radical` states it.
#[verifier::rlimit(60)]
#[verifier::spinoff_prover]
pub(crate) fn with_radical(n: i32, pnum: i32, qden: i32, fuel: u64) -> (r: Result<
    Expression,
    UndefinedError,
>)
    ensures
        res_view(r) == pow_radical(n as int, pnum as int, qden as int, fuel as nat),
    decreases fuel as nat, 0nat, 0nat,
{
    if fuel == 0 {
        return Err(UndefinedError::DepthExceeded);
    }
    let aq = abs32(qden);
    proof {
        lemma_abs_mod(qden as int, 2);
    }
    if aq % 2 == 0 && n < 0 {
        return Err(UndefinedError::EvenRootOfNegative);
    }
    let qexp: u32 = aq as u32;
    let (inside, outside) = radical_extract(n, qexp);
    match radical_component(outside, pnum) {
        Ok(o) => match radical_component(inside, pnum) {
            Ok(inner) => crate::types::product::prod_pair_fueled(
                o,
                Expression::Power(
                    Power::new(inner, Expression::Rational(Rational(1, qden))),
                ),
                fuel - 1,
            ),
            Err(er) => Err(er),
        },
        Err(er) => Err(er),
    }
}

/// The trial-division loop of radical extraction, exactly as `radical_scan`
/// states it, with the bounds the scan maintains.
fn radical_extract(n: i32, qexp: u32) -> (r: (i64, i64))
    ensures
        (r.0 as int, r.1 as int) == radical_scan(n as int, 1, 2, qexp as nat),
        -0x8000_0000 <= r.0 <= 0x8000_0000,
        1 <= r.1 <= 0x8000_0000,
{
    let mut inside: i64 = n as i64;
    let mut outside: i64 = 1;
    let mut d: i64 = 2;
    loop
        invariant
            radical_scan(n as int, 1, 2, qexp as nat) == radical_scan(
                inside as int,
                outside as int,
                d as int,
                qexp as nat,
            ),
            -0x8000_0000 <= inside <= 0x8000_0000,
            1 <= outside,
            2 <= d <= 0x8000_0002,
            (inside == 0) == (n == 0),
            n == 0 ==> outside == 1,
            n != 0 ==> (outside as int) * (abs_int(inside as int) as int) <= abs_int(
                n as int,
            ) as int,
        decreases abs_int(inside as int),
            (if d as int <= abs_int(inside as int) + 1 {
                abs_int(inside as int) + 1 - d
            } else {
                0int
            }),
    {
        let ai: i64 = if inside < 0 {
            -inside
        } else {
            inside
        };
        proof {
            assert(ai as int == abs_int(inside as int) as int);
            if n != 0 {
                assert((outside as int) * 1 <= (outside as int) * (abs_int(inside as int) as int))
                    by (nonlinear_arith)
                    requires
                        outside as int >= 1,
                        abs_int(inside as int) >= 1,
                ;
            }
        }
        if qexp == 0 || d > ai {
            return (inside, outside);
        }
        match pow_within(d, qexp, ai) {
            None => {
                return (inside, outside);
            },
            Some(e) => {
                proof {
                    lemma_pow_int_ge_base(d as int, qexp as nat);
                    lemma_abs_mod(inside as int, e as int);
                }
                let aiu = ai as u64;
                let eu = e as u64;
                if aiu % eu == 0 {
                    let k = aiu / eu;
                    proof {
                        lemma_abs_div(inside as int, e as int);
                        vstd::arithmetic::div_mod::lemma_fundamental_div_mod(ai as int, e as int);
                        assert(ai as int == (e as int) * (k as int));
                        assert(k >= 1) by {
                            if k == 0 {
                                assert((e as int) * 0 == 0) by (nonlinear_arith);
                            }
                        }
                        // the new inside is strictly smaller in magnitude
                        assert((e as int) * (k as int) > k as int) by (nonlinear_arith)
                            requires
                                e as int >= 2,
                                k as int >= 1,
                        ;
                        // the extracted part keeps the budget
                        assert((d as int) * (k as int) <= (e as int) * (k as int))
                            by (nonlinear_arith)
                            requires
                                d as int <= e as int,
                                k as int >= 0,
                        ;
                        assert((outside as int) * ((d as int) * (k as int)) <= (outside as int) * (
                        (e as int) * (k as int))) by (nonlinear_arith)
                            requires
                                outside as int >= 1,
                                (d as int) * (k as int) <= (e as int) * (k as int),
                        ;
                        assert((outside as int) * ((e as int) * (k as int)) == (outside as int) * (
                        ai as int)) by (nonlinear_arith)
                            requires
                                ai as int == (e as int) * (k as int),
                        ;
                        assert(((outside as int) * (d as int)) * (k as int) == (outside as int) * (
                        (d as int) * (k as int))) by (nonlinear_arith);
                        assert(1 <= (outside as int) * (d as int) <= 0x4000_0000_0000_0000)
                            by (nonlinear_arith)
                            requires
                                1 <= outside as int <= 0x8000_0000,
                                2 <= d as int <= 0x8000_0000,
                        ;
                    }
                    let newin: i64 = if inside < 0 {
                        -(k as i64)
                    } else {
                        k as i64
                    };
                    let newout = outside * d;
                    inside = newin;
                    outside = newout;
                } else {
                    d = d + 1;
                }
            },
        }
    }
}

} // verus!
