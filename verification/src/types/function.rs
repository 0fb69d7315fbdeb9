use vstd::prelude::*;

use crate::arith::log_scan;
use crate::ast::{esize, esize_seq, Expr, FuncKind};
use crate::errors::UndefinedError;
use crate::expression::{
    lemma_views_of, lemma_views_of_push, pair_vec, res_view, simplify_fueled, view_of, views_of,
    Expression,
};
use crate::model::{func_apply, func_log, func_ln, neg_of};
use crate::types::{Integer, Power, Product, Rational, Sum};

verus! {

/// A named unary function. Four names are distinguished by the simplifier;
/// any other identifier is kept as an opaque symbolic function.
#[derive(Debug, PartialEq, Eq)]
pub enum Function {
    Sqrt(Box<Expression>),
    Cbrt(Box<Expression>),
    Log(Box<Expression>),
    Ln(Box<Expression>),
    Other(String, Box<Expression>),
}

impl View for Function {
    type V = Expr;

    open spec fn view(&self) -> Expr {
        match self {
            Function::Sqrt(a) => Expr::Func(FuncKind::Sqrt, Box::new(view_of(**a))),
            Function::Cbrt(a) => Expr::Func(FuncKind::Cbrt, Box::new(view_of(**a))),
            Function::Log(a) => Expr::Func(FuncKind::Log, Box::new(view_of(**a))),
            Function::Ln(a) => Expr::Func(FuncKind::Ln, Box::new(view_of(**a))),
            Function::Other(n, a) => Expr::Func(FuncKind::Other(n@), Box::new(view_of(**a))),
        }
    }
}

/// The function kind a given identifier names.
pub open spec fn kind_of_name(name: Seq<char>) -> FuncKind {
    if name == "sqrt"@ {
        FuncKind::Sqrt
    } else if name == "cbrt"@ {
        FuncKind::Cbrt
    } else if name == "log"@ {
        FuncKind::Log
    } else if name == "ln"@ {
        FuncKind::Ln
    } else {
        FuncKind::Other(name)
    }
}

/// Wraps every factor as an argument of the named logarithm.
fn wrap_each(fs: Vec<Expression>, natural: bool) -> (r: Vec<Expression>)
    ensures
        views_of(r@) == views_of(fs@).map_values(
            |x: Expr|
                Expr::Func(
                    if natural {
                        FuncKind::Ln
                    } else {
                        FuncKind::Log
                    },
                    Box::new(x),
                ),
        ),
{
    let ghost orig = fs@;
    let ghost ov = views_of(fs@);
    let ghost target = ov.map_values(
        |x: Expr|
            Expr::Func(
                if natural {
                    FuncKind::Ln
                } else {
                    FuncKind::Log
                },
                Box::new(x),
            ),
    );
    proof {
        lemma_views_of(orig);
    }
    let n: usize = fs.len();
    let mut fs = fs;
    let mut out: Vec<Expression> = Vec::new();
    let mut i: usize = 0;
    proof {
        assert(views_of(out@) =~= target.take(0));
    }
    while fs.len() > 0
        invariant
            i <= orig.len(),
            orig.len() == n as nat,
            fs@.len() == orig.len() - i,
            fs@ =~= orig.skip(i as int),
            ov.len() == orig.len(),
            target.len() == orig.len(),
            forall|j: int| 0 <= j < orig.len() ==> ov[j] == view_of(orig[j]),
            forall|j: int| 0 <= j < orig.len() ==> target[j] == Expr::Func(
                if natural {
                    FuncKind::Ln
                } else {
                    FuncKind::Log
                },
                Box::new(ov[j]),
            ),
            views_of(out@) =~= target.take(i as int),
        decreases fs@.len(),
    {
        let e = fs.remove(0);
        proof {
            assert(fs@ =~= orig.skip(i as int + 1));
            assert(view_of(e) == ov[i as int]);
        }
        let ghost pre_out = out@;
        let wrapped = if natural {
            Expression::Function(Function::Ln(Box::new(e)))
        } else {
            Expression::Function(Function::Log(Box::new(e)))
        };
        out.push(wrapped);
        proof {
            lemma_views_of_push(pre_out, wrapped);
            assert(views_of(out@) =~= target.take(i as int + 1));
        }
        i += 1;
    }
    proof {
        assert(target.take(orig.len() as int) =~= target);
    }
    out
}

impl Function {
    /// Rewrites a square root: the argument goes under the exponent one half
    /// and is simplified; a power that keeps exactly that exponent is wrapped
    /// back as a square root for readable output.
    #[verifier::rlimit(100)]
    pub(crate) fn simplify_sqrt(u: Expression, fuel: u64) -> (r: Result<Expression, UndefinedError>)
        ensures
            res_view(r) == func_apply(FuncKind::Sqrt, view_of(u), fuel as nat),
        decreases fuel as nat, 0nat, 0nat,
    {
        if fuel == 0 {
            return Err(UndefinedError::DepthExceeded);
        }
        match simplify_fueled(
            Expression::Power(Power::new(u, Expression::Rational(Rational(1, 2)))),
            fuel - 1,
        ) {
            Err(er) => Err(er),
            Ok(v) => match v {
                Expression::Power(p) => {
                    let half = crate::expression::is_rational_value(&*p.exp, 1, 2);
                    if half {
                        Ok(Expression::Function(Function::Sqrt(p.base)))
                    } else {
                        Ok(Expression::Power(p))
                    }
                },
                v => Ok(v),
            },
        }
    }

    /// Rewrites a cube root through the exponent one third, as the square
    /// root is rewritten through one half.
    #[verifier::rlimit(100)]
    pub(crate) fn simplify_cbrt(u: Expression, fuel: u64) -> (r: Result<Expression, UndefinedError>)
        ensures
            res_view(r) == func_apply(FuncKind::Cbrt, view_of(u), fuel as nat),
        decreases fuel as nat, 0nat, 0nat,
    {
        if fuel == 0 {
            return Err(UndefinedError::DepthExceeded);
        }
        match simplify_fueled(
            Expression::Power(Power::new(u, Expression::Rational(Rational(1, 3)))),
            fuel - 1,
        ) {
            Err(er) => Err(er),
            Ok(v) => match v {
                Expression::Power(p) => {
                    let third = crate::expression::is_rational_value(&*p.exp, 1, 3);
                    if third {
                        Ok(Expression::Function(Function::Cbrt(p.base)))
                    } else {
                        Ok(Expression::Power(p))
                    }
                },
                v => Ok(v),
            },
        }
    }

    /// Applies the base-ten logarithm rules, exactly as `func_log` states
    /// them.
    #[verifier::rlimit(60)]
    #[verifier::spinoff_prover]
    pub(crate) fn simplify_log(u: Expression, fuel: u64) -> (r: Result<Expression, UndefinedError>)
        ensures
            res_view(r) == func_log(view_of(u), fuel as nat),
        decreases fuel as nat, 0nat, 0nat,
    {
        if fuel == 0 {
            return Err(UndefinedError::DepthExceeded);
        }
        match u {
            Expression::Power(p) => {
                let lg = log_node(*p.base, false);
                simplify_prod2(*p.exp, lg, fuel - 1)
            },
            Expression::Product(p) => {
                let wrapped = wrap_each(p.0, false);
                let node = Expression::Sum(Sum(wrapped));
                proof {
                    assert(view_of(node) is Sum);
                }
                simplify_fueled(node, fuel - 1)
            },
            Expression::Rational(q) => {
                let l1 = log_node(int_node(q.0), false);
                let l2 = log_node(int_node(q.1), false);
                let neg = neg_node(l2);
                simplify_sum2(l1, neg, fuel - 1)
            },
            Expression::Integer(m) => {
                if m.0 <= 0 {
                    Err(UndefinedError::NonPositiveLogarithm)
                } else {
                    let (pw, k) = ten_scan(m.0);
                    if pw == m.0 as i64 {
                        Ok(Expression::Integer(Integer(k)))
                    } else {
                        Ok(log_node(Expression::Integer(Integer(m.0)), false))
                    }
                }
            },
            u => Ok(log_node(u, false)),
        }
    }

    /// Applies the natural logarithm rules, exactly as `func_ln` states
    /// them.
    #[verifier::rlimit(60)]
    #[verifier::spinoff_prover]
    pub(crate) fn simplify_ln(u: Expression, fuel: u64) -> (r: Result<Expression, UndefinedError>)
        ensures
            res_view(r) == func_ln(view_of(u), fuel as nat),
        decreases fuel as nat, 0nat, 0nat,
    {
        if fuel == 0 {
            return Err(UndefinedError::DepthExceeded);
        }
        match u {
            Expression::Power(p) => {
                let lg = log_node(*p.base, true);
                simplify_prod2(*p.exp, lg, fuel - 1)
            },
            Expression::Product(p) => {
                let wrapped = wrap_each(p.0, true);
                let node = Expression::Sum(Sum(wrapped));
                proof {
                    assert(view_of(node) is Sum);
                }
                simplify_fueled(node, fuel - 1)
            },
            Expression::Rational(q) => {
                let l1 = log_node(int_node(q.0), true);
                let l2 = log_node(int_node(q.1), true);
                let neg = neg_node(l2);
                simplify_sum2(l1, neg, fuel - 1)
            },
            Expression::Variable(v) => {
                if crate::strings::eq_str(v.0.as_str(), "e") {
                    Ok(Expression::Integer(Integer(1)))
                } else {
                    Ok(log_node(Expression::Variable(v), true))
                }
            },
            Expression::Integer(m) => {
                if m.0 == 1 {
                    Ok(Expression::Integer(Integer(0)))
                } else if m.0 <= 0 {
                    Err(UndefinedError::NonPositiveLogarithm)
                } else {
                    Ok(log_node(Expression::Integer(Integer(m.0)), true))
                }
            },
            u => Ok(log_node(u, true)),
        }
    }
}

/// Wraps an expression as the argument of the named logarithm.
fn log_node(e: Expression, natural: bool) -> (r: Expression)
    ensures
        view_of(r) == Expr::Func(
            if natural {
                FuncKind::Ln
            } else {
                FuncKind::Log
            },
            Box::new(view_of(e)),
        ),
{
    if natural {
        Expression::Function(Function::Ln(Box::new(e)))
    } else {
        Expression::Function(Function::Log(Box::new(e)))
    }
}

/// An integer leaf.
fn int_node(n: i32) -> (r: Expression)
    ensures
        view_of(r) == Expr::Int(n as int),
{
    Expression::Integer(Integer(n))
}

/// A negation, written the way the surface language writes it.
fn neg_node(e: Expression) -> (r: Expression)
    ensures
        view_of(r) == neg_of(view_of(e)),
{
    let ghost evv = view_of(e);
    let v = pair_vec(Expression::Integer(Integer(-1)), e);
    proof {
        assert(views_of(v@) == seq![Expr::Int(-1), evv]);
    }
    Expression::Product(Product(v))
}

/// Simplifies the sum of exactly two expressions, exactly as the model
/// simplifies that two-term sum node.
pub(crate) fn simplify_sum2(a: Expression, b: Expression, fuel: u64) -> (r: Result<
    Expression,
    UndefinedError,
>)
    ensures
        res_view(r) == crate::model::simp_expr(
            Expr::Sum(seq![view_of(a), view_of(b)]),
            fuel as nat,
        ),
    decreases fuel as nat, esize(view_of(a)) + esize(view_of(b)) + 2, 0nat,
{
    let ghost va = view_of(a);
    let ghost vb = view_of(b);
    let node = Expression::Sum(Sum(pair_vec(a, b)));
    proof {
        assert(seq![va, vb].subrange(1, 2) =~= seq![vb]);
        crate::ast::lemma_esize_singleton(vb);
        assert(esize_seq(seq![va, vb]) == esize(va) + esize(vb));
        assert(view_of(node) == Expr::Sum(seq![va, vb]));
        assert(esize(view_of(node)) == 1 + esize(va) + esize(vb));
    }
    simplify_fueled(node, fuel)
}

/// Simplifies the product of exactly two expressions, exactly as the model
/// simplifies that two-factor product node.
pub(crate) fn simplify_prod2(a: Expression, b: Expression, fuel: u64) -> (r: Result<
    Expression,
    UndefinedError,
>)
    ensures
        res_view(r) == crate::model::simp_expr(
            Expr::Prod(seq![view_of(a), view_of(b)]),
            fuel as nat,
        ),
    decreases fuel as nat, esize(view_of(a)) + esize(view_of(b)) + 2, 0nat,
{
    let ghost va = view_of(a);
    let ghost vb = view_of(b);
    let node = Expression::Product(Product(pair_vec(a, b)));
    proof {
        assert(seq![va, vb].subrange(1, 2) =~= seq![vb]);
        crate::ast::lemma_esize_singleton(vb);
        assert(esize_seq(seq![va, vb]) == esize(va) + esize(vb));
        assert(view_of(node) == Expr::Prod(seq![va, vb]));
        assert(esize(view_of(node)) == 1 + esize(va) + esize(vb));
    }
    simplify_fueled(node, fuel)
}

/// Runs the power-of-ten scan for the base-ten logarithm of a positive
/// integer, exactly as `log_scan` states it.
fn ten_scan(n: i32) -> (r: (i64, i32))
    requires
        n >= 1,
    ensures
        (r.0 as int, r.1 as int) == log_scan(n as int, 1, 0),
{
    let n64 = n as i64;
    let mut pw: i64 = 1;
    let mut k: i32 = 0;
    while pw < n64
        invariant
            1 <= pw,
            pw as int == pow_ten(k as nat),
            0 <= k <= 0x1000_0000,
            pw <= 0x10_0000_0000i64,
            n64 == n as i64,
            1 <= n64 <= 0x7fff_ffff,
            log_scan(n as int, 1, 0) == log_scan(n as int, pw as int, k as int),
        decreases (if pw < n64 {
            n64 - pw
        } else {
            0int
        }),
    {
        proof {
            lemma_pow_ten_bounds(k as nat);
            assert(pow_ten((k + 1) as nat) == 10 * pow_ten(k as nat));
        }
        pw = pw * 10;
        k = k + 1;
    }
    (pw, k)
}

/// Ten raised to a count.
pub open spec fn pow_ten(k: nat) -> int
    decreases k,
{
    if k == 0 {
        1
    } else {
        10 * pow_ten((k - 1) as nat)
    }
}

/// Powers of ten outgrow any linear bound on their exponent.
proof fn lemma_pow_ten_bounds(k: nat)
    ensures
        pow_ten(k) >= 9 * k + 1,
    decreases k,
{
    if k > 0 {
        lemma_pow_ten_bounds((k - 1) as nat);
        assert(10 * pow_ten((k - 1) as nat) >= 9 * k + 1) by (nonlinear_arith)
            requires
                k >= 1,
                pow_ten((k - 1) as nat) >= 9 * (k - 1) + 1,
        ;
    }
}

impl Function {
    /// Builds the function a given identifier names, applied to an argument.
    pub fn new(name: String, arg: Expression) -> (r: Function)
        ensures
            r@ == Expr::Func(kind_of_name(name@), Box::new(view_of(arg))),
    {
        let a = Box::new(arg);
        if crate::strings::eq_str(name.as_str(), "sqrt") {
            Function::Sqrt(a)
        } else if crate::strings::eq_str(name.as_str(), "cbrt") {
            Function::Cbrt(a)
        } else if crate::strings::eq_str(name.as_str(), "log") {
            Function::Log(a)
        } else if crate::strings::eq_str(name.as_str(), "ln") {
            Function::Ln(a)
        } else {
            Function::Other(name, a)
        }
    }
}

} // verus!
