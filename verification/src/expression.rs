use vstd::prelude::*;

use crate::ast::{esize, esize_seq, lemma_esize_seq_elem, spec_base, spec_term, Expr, FuncKind};
use crate::types::{Function, Integer, Power, Product, Rational, Sum, Variable};

verus! {

/// A symbolic expression: a tagged union over the numeric and symbolic
/// leaves and the compound nodes. Expressions are value trees; each compound
/// exclusively owns its children.
#[derive(Debug, PartialEq, Eq)]
pub enum Expression {
    Integer(Integer),
    Rational(Rational),
    Variable(Variable),
    Sum(Sum),
    Product(Product),
    Power(Power),
    Function(Function),
}

/// The mathematical value an expression tree stands for.
pub open spec fn view_of(e: Expression) -> Expr
    decreases e,
{
    match e {
        Expression::Integer(i) => Expr::Int(i.0 as int),
        Expression::Rational(r) => Expr::Rat(r.0 as int, r.1 as int),
        Expression::Variable(v) => Expr::Var(v.0@),
        Expression::Power(p) => Expr::Pow(
            Box::new(view_of(*p.base)),
            Box::new(view_of(*p.exp)),
        ),
        Expression::Product(p) => Expr::Prod(views_of(p.0@)),
        Expression::Sum(s) => Expr::Sum(views_of(s.0@)),
        Expression::Function(f) => match f {
            Function::Sqrt(a) => Expr::Func(FuncKind::Sqrt, Box::new(view_of(*a))),
            Function::Cbrt(a) => Expr::Func(FuncKind::Cbrt, Box::new(view_of(*a))),
            Function::Log(a) => Expr::Func(FuncKind::Log, Box::new(view_of(*a))),
            Function::Ln(a) => Expr::Func(FuncKind::Ln, Box::new(view_of(*a))),
            Function::Other(n, a) => Expr::Func(FuncKind::Other(n@), Box::new(view_of(*a))),
        },
    }
}

/// The mathematical values of a sequence of expression trees, in order.
pub open spec fn views_of(s: Seq<Expression>) -> Seq<Expr>
    decreases s,
{
    if s.len() == 0 {
        Seq::empty()
    } else {
        seq![view_of(s[0])] + views_of(s.subrange(1, s.len() as int))
    }
}

impl View for Expression {
    type V = Expr;

    open spec fn view(&self) -> Expr {
        view_of(*self)
    }
}

/// `views_of` maps `view_of` over the sequence, element by element.
pub proof fn lemma_views_of(s: Seq<Expression>)
    ensures
        views_of(s).len() == s.len(),
        forall|i: int| 0 <= i < s.len() ==> views_of(s)[i] == view_of(s[i]),
    decreases s.len(),
{
    if s.len() > 0 {
        lemma_views_of(s.subrange(1, s.len() as int));
    }
}

/// Taking views commutes with taking a subrange.
pub proof fn lemma_views_of_subrange(s: Seq<Expression>, i: int, j: int)
    requires
        0 <= i <= j <= s.len(),
    ensures
        views_of(s.subrange(i, j)) == views_of(s).subrange(i, j),
{
    lemma_views_of(s);
    lemma_views_of(s.subrange(i, j));
    assert(views_of(s.subrange(i, j)) =~= views_of(s).subrange(i, j));
}

/// Taking views commutes with appending one element.
pub proof fn lemma_views_of_push(s: Seq<Expression>, x: Expression)
    ensures
        views_of(s.push(x)) == views_of(s).push(view_of(x)),
{
    lemma_views_of(s);
    lemma_views_of(s.push(x));
    assert(views_of(s.push(x)) =~= views_of(s).push(view_of(x)));
}

/// Relies on `core::slice::from_ref`: the returned slice holds exactly the
/// one referenced value.
pub assume_specification<T>[ core::slice::from_ref::<T> ](x: &T) -> (r: &[T])
    ensures
        r@ == seq![*x],
;

impl Expression {
    /// The base of this expression viewed as a power: a power's own base,
    /// any other expression itself.
    pub fn base(&self) -> (r: &Expression)
        ensures
            view_of(*r) == spec_base(self@),
    {
        match self {
            Expression::Power(p) => &*p.base,
            e => e,
        }
    }

    /// The term part of this expression: a product delegates to its factors,
    /// any other expression is its own singleton term. Asked only where the
    /// factor list is not empty.
    pub fn term(&self) -> (r: &[Expression])
        requires
            match self@ {
                Expr::Prod(fs) => fs.len() > 0,
                _ => true,
            },
        ensures
            views_of(r@) == spec_term(self@),
    {
        match self {
            Expression::Product(p) => {
                proof {
                    lemma_views_of(p.0@);
                }
                p.term()
            },
            u => {
                let r = core::slice::from_ref(u);
                proof {
                    lemma_views_of(r@);
                    assert(views_of(r@) =~= seq![view_of(*u)]);
                }
                r
            },
        }
    }
}

/// The view of a simplification outcome: the model value on success, the
/// same error otherwise.
pub open spec fn res_view(r: Result<Expression, crate::errors::UndefinedError>) -> Result<
    Expr,
    crate::errors::UndefinedError,
> {
    match r {
        Ok(e) => Ok(view_of(e)),
        Err(er) => Err(er),
    }
}

/// Whether an expression is the integer one.
pub fn is_one(e: &Expression) -> (b: bool)
    ensures
        b == (e@ == Expr::Int(1)),
{
    match e {
        Expression::Integer(i) => i.0 == 1,
        _ => false,
    }
}

/// Whether an expression is exactly the given rational pair.
pub fn is_rational_value(e: &Expression, num: i32, den: i32) -> (b: bool)
    ensures
        b == (e@ == Expr::Rat(num as int, den as int)),
{
    match e {
        Expression::Rational(q) => q.0 == num && q.1 == den,
        _ => false,
    }
}

/// Whether an expression is the integer zero.
pub fn is_zero(e: &Expression) -> (b: bool)
    ensures
        b == (e@ == Expr::Int(0)),
{
    match e {
        Expression::Integer(i) => i.0 == 0,
        _ => false,
    }
}

/// Whether some element of a vector is the integer zero.
pub fn contains_zero(v: &Vec<Expression>) -> (b: bool)
    ensures
        b == views_of(v@).contains(Expr::Int(0)),
{
    proof {
        lemma_views_of(v@);
    }
    let mut i: usize = 0;
    while i < v.len()
        invariant
            i <= v@.len(),
            views_of(v@).len() == v@.len(),
            forall|j: int| 0 <= j < v@.len() ==> views_of(v@)[j] == view_of(v@[j]),
            forall|j: int| 0 <= j < i ==> views_of(v@)[j] != Expr::Int(0),
        decreases v@.len() - i,
    {
        if is_zero(&v[i]) {
            proof {
                assert(views_of(v@)[i as int] == Expr::Int(0));
            }
            return true;
        }
        i += 1;
    }
    proof {
        assert(forall|j: int| 0 <= j < views_of(v@).len() ==> views_of(v@)[j] != Expr::Int(0));
    }
    false
}

/// A vector of two expressions, in order.
pub fn pair_vec(a: Expression, b: Expression) -> (v: Vec<Expression>)
    ensures
        views_of(v@) == seq![view_of(a), view_of(b)],
{
    let mut v: Vec<Expression> = Vec::new();
    let ghost va = view_of(a);
    let ghost vb = view_of(b);
    v.push(a);
    v.push(b);
    proof {
        lemma_views_of(v@);
        assert(views_of(v@) =~= seq![va, vb]);
    }
    v
}

/// A vector of one expression.
pub fn singleton_vec(a: Expression) -> (v: Vec<Expression>)
    ensures
        views_of(v@) == seq![view_of(a)],
{
    let mut v: Vec<Expression> = Vec::new();
    let ghost va = view_of(a);
    v.push(a);
    proof {
        lemma_views_of(v@);
        assert(views_of(v@) =~= seq![va]);
    }
    v
}

/// An expression taken apart as a product's factor list.
pub fn into_factors(e: Expression) -> (v: Vec<Expression>)
    ensures
        views_of(v@) == crate::ast::to_factors(view_of(e)),
{
    match e {
        Expression::Product(p) => p.0,
        u => singleton_vec(u),
    }
}

/// An expression taken apart as a sum's term list.
pub fn into_terms(e: Expression) -> (v: Vec<Expression>)
    ensures
        views_of(v@) == crate::ast::to_terms(view_of(e)),
{
    match e {
        Expression::Sum(s) => s.0,
        u => singleton_vec(u),
    }
}

/// An expression taken apart as a base and an exponent: a power splits into
/// its children, anything else is itself to the first power.
pub fn into_power_parts(e: Expression) -> (r: (Expression, Expression))
    ensures
        view_of(r.0) == crate::ast::spec_base(view_of(e)),
        view_of(r.1) == crate::ast::spec_exponent(view_of(e)),
{
    match e {
        Expression::Power(p) => (*p.base, *p.exp),
        u => (u, Expression::Integer(Integer(1))),
    }
}

/// The term part of any expression, total even on an empty factor list.
pub fn term_slice(e: &Expression) -> (r: &[Expression])
    ensures
        views_of(r@) == spec_term(e@),
{
    proof {
        if let Expression::Product(p) = e {
            lemma_views_of(p.0@);
        }
    }
    match e {
        Expression::Product(p) => {
            if p.0.len() > 0 {
                match &p.0[0] {
                    Expression::Integer(_) | Expression::Rational(_) => {
                        let r = vstd::slice::slice_subrange(p.0.as_slice(), 1, p.0.len());
                        proof {
                            lemma_views_of_subrange(p.0@, 1, p.0@.len() as int);
                        }
                        r
                    },
                    _ => p.0.as_slice(),
                }
            } else {
                p.0.as_slice()
            }
        },
        u => {
            let r = core::slice::from_ref(u);
            proof {
                lemma_views_of(r@);
                assert(views_of(r@) =~= seq![view_of(*u)]);
            }
            r
        },
    }
}

/// The coefficient of any expression viewed as a product: its own value when
/// numeric, a leading numeric factor of a product, or the integer one.
pub fn coeff_value(e: &Expression) -> (r: Expression)
    ensures
        view_of(r) == crate::ast::coeff_of_factors(crate::ast::to_factors(e@)),
{
    match e {
        Expression::Integer(i) => Expression::Integer(Integer(i.0)),
        Expression::Rational(q) => Expression::Rational(Rational(q.0, q.1)),
        Expression::Product(p) => {
            proof {
                lemma_views_of(p.0@);
            }
            if p.0.len() > 0 {
                match &p.0[0] {
                    Expression::Integer(i) => Expression::Integer(Integer(i.0)),
                    Expression::Rational(q) => Expression::Rational(Rational(q.0, q.1)),
                    _ => Expression::Integer(Integer(1)),
                }
            } else {
                Expression::Integer(Integer(1))
            }
        },
        _ => Expression::Integer(Integer(1)),
    }
}

impl Expression {
    /// A deep copy: expressions are value trees, so cloning copies every node.
    pub fn deep_clone(&self) -> (r: Expression)
        ensures
            r@ == self@,
        decreases esize(self@), 0nat,
    {
        match self {
            Expression::Integer(i) => Expression::Integer(Integer(i.0)),
            Expression::Rational(r) => Expression::Rational(Rational(r.0, r.1)),
            Expression::Variable(v) => Expression::Variable(Variable(v.0.clone())),
            Expression::Power(p) => Expression::Power(
                Power { base: Box::new(p.base.deep_clone()), exp: Box::new(p.exp.deep_clone()) },
            ),
            Expression::Product(p) => Expression::Product(Product(clone_exprs(p.0.as_slice()))),
            Expression::Sum(s) => Expression::Sum(Sum(clone_exprs(s.0.as_slice()))),
            Expression::Function(f) => Expression::Function(
                match f {
                    Function::Sqrt(a) => Function::Sqrt(Box::new(a.deep_clone())),
                    Function::Cbrt(a) => Function::Cbrt(Box::new(a.deep_clone())),
                    Function::Log(a) => Function::Log(Box::new(a.deep_clone())),
                    Function::Ln(a) => Function::Ln(Box::new(a.deep_clone())),
                    Function::Other(n, a) => Function::Other(n.clone(), Box::new(a.deep_clone())),
                },
            ),
        }
    }
}

/// A deep copy of a sequence of expression trees.
pub fn clone_exprs(x: &[Expression]) -> (r: Vec<Expression>)
    ensures
        views_of(r@) == views_of(x@),
    decreases esize_seq(views_of(x@)), 1nat,
{
    proof {
        lemma_views_of(x@);
    }
    let mut out: Vec<Expression> = Vec::new();
    let mut i: usize = 0;
    while i < x.len()
        invariant
            i <= x@.len(),
            views_of(x@).len() == x@.len(),
            forall|j: int| 0 <= j < x@.len() ==> views_of(x@)[j] == view_of(x@[j]),
            views_of(out@).len() == i,
            views_of(out@) =~= views_of(x@).take(i as int),
        decreases x@.len() - i,
    {
        proof {
            lemma_esize_seq_elem(views_of(x@), i as int);
        }
        let ghost before = out@;
        let e = vstd::slice::slice_index_get(x, i).deep_clone();
        out.push(e);
        proof {
            lemma_views_of_push(before, out@[out@.len() - 1]);
            assert(views_of(out@) =~= views_of(x@).take(i as int + 1));
        }
        i += 1;
    }
    proof {
        assert(views_of(x@).take(x@.len() as int) =~= views_of(x@));
    }
    out
}

/// The default rewriting depth budget of the public entry points.
pub const SIMPLIFY_FUEL: u64 = 4096;

impl Expression {
    /// Simplifies the expression under the default rewriting budget,
    /// exactly as the model `simp_expr` states it: the normal form on
    /// success, or the undefined form that stopped the rewrite.
    pub fn simplify(self) -> (r: Result<Expression, crate::errors::UndefinedError>)
        ensures
            res_view(r) == crate::model::simp_expr(view_of(self), SIMPLIFY_FUEL as nat),
    {
        simplify_fueled(self, SIMPLIFY_FUEL)
    }
}

/// Simplifies an expression under an explicit rewriting budget, exactly as
/// the model `simp_expr` states it.
#[verifier::rlimit(100)]
#[verifier::spinoff_prover]
pub fn simplify_fueled(e: Expression, fuel: u64) -> (r: Result<
    Expression,
    crate::errors::UndefinedError,
>)
    ensures
        res_view(r) == crate::model::simp_expr(view_of(e), fuel as nat),
    decreases fuel as nat, esize(view_of(e)), 0nat,
{
    if fuel == 0 {
        return Err(crate::errors::UndefinedError::DepthExceeded);
    }
    let ghost ev = view_of(e);
    match e {
        Expression::Integer(i) => Ok(Expression::Integer(i)),
        Expression::Variable(v) => Ok(Expression::Variable(v)),
        Expression::Rational(r0) => crate::types::rational::fold_rational(
            r0.0 as i128,
            r0.1 as i128,
        ),
        Expression::Power(p) => {
            proof {
                assert(esize(ev) == 1 + esize(view_of(*p.base)) + esize(view_of(*p.exp)));
            }
            match simplify_fueled(*p.base, fuel) {
                Err(er) => Err(er),
                Ok(v) => match simplify_fueled(*p.exp, fuel) {
                    Err(er) => Err(er),
                    Ok(w) => crate::types::power::pow_pair_fueled(v, w, fuel - 1),
                },
            }
        },
        Expression::Product(pr) => {
            proof {
                assert(esize(ev) == 1 + esize_seq(views_of(pr.0@)));
                assert(crate::model::simp_expr(ev, fuel as nat) == crate::model::simp_prod_node(
                    views_of(pr.0@),
                    fuel as nat,
                ));
            }
            product_node(pr.0, fuel)
        },
        Expression::Sum(sm) => {
            proof {
                assert(esize(ev) == 1 + esize_seq(views_of(sm.0@)));
                assert(crate::model::simp_expr(ev, fuel as nat) == crate::model::simp_sum_node(
                    views_of(sm.0@),
                    fuel as nat,
                ));
            }
            sum_node(sm.0, fuel)
        },
        Expression::Function(fun) => {
            proof {
                match &fun {
                    Function::Sqrt(a) => {
                        assert(esize(ev) == 1 + esize(view_of(**a)));
                    },
                    Function::Cbrt(a) => {
                        assert(esize(ev) == 1 + esize(view_of(**a)));
                    },
                    Function::Log(a) => {
                        assert(esize(ev) == 1 + esize(view_of(**a)));
                    },
                    Function::Ln(a) => {
                        assert(esize(ev) == 1 + esize(view_of(**a)));
                    },
                    Function::Other(_, a) => {
                        assert(esize(ev) == 1 + esize(view_of(**a)));
                    },
                }
            }
            function_node(fun, fuel)
        },
    }
}

/// Simplifies a product node: children first, then sort, the zero check and
/// the fold; exactly as `simp_prod_node` states it.
#[verifier::rlimit(60)]
#[verifier::spinoff_prover]
fn product_node(fs: Vec<Expression>, fuel: u64) -> (r: Result<
    Expression,
    crate::errors::UndefinedError,
>)
    requires
        fuel >= 1,
    ensures
        res_view(r) == crate::model::simp_prod_node(views_of(fs@), fuel as nat),
    decreases fuel as nat, esize_seq(views_of(fs@)), 2nat,
{
    match simplify_children(fs, fuel) {
        Err(er) => Err(er),
        Ok(vs) => {
            let sorted = crate::order::sort_vec(vs);
            if contains_zero(&sorted) {
                Ok(Expression::Integer(Integer(0)))
            } else {
                crate::types::product::product_combine(sorted, fuel - 1)
            }
        },
    }
}

/// Simplifies a sum node: children first, then sort and fold; exactly as
/// `simp_sum_node` states it.
#[verifier::rlimit(60)]
#[verifier::spinoff_prover]
fn sum_node(ts: Vec<Expression>, fuel: u64) -> (r: Result<
    Expression,
    crate::errors::UndefinedError,
>)
    requires
        fuel >= 1,
    ensures
        res_view(r) == crate::model::simp_sum_node(views_of(ts@), fuel as nat),
    decreases fuel as nat, esize_seq(views_of(ts@)), 2nat,
{
    match simplify_children(ts, fuel) {
        Err(er) => Err(er),
        Ok(vs) => {
            let sorted = crate::order::sort_vec(vs);
            crate::types::sum::sum_combine(sorted, fuel - 1)
        },
    }
}

/// Simplifies a function node: the argument first, then the named rules;
/// exactly as `simp_func_node` states it.
#[verifier::rlimit(60)]
#[verifier::spinoff_prover]
fn function_node(fun: Function, fuel: u64) -> (r: Result<
    Expression,
    crate::errors::UndefinedError,
>)
    requires
        fuel >= 1,
    ensures
        match fun@ {
            Expr::Func(k, a) => res_view(r) == crate::model::simp_func_node(k, *a, fuel as nat),
            _ => false,
        },
    decreases fuel as nat,
        (match fun@ {
            Expr::Func(_, a) => esize(*a),
            _ => 0,
        }),
        2nat,
{
    match fun {
        Function::Sqrt(a) => match simplify_fueled(*a, fuel) {
            Ok(u) => Function::simplify_sqrt(u, fuel - 1),
            Err(er) => Err(er),
        },
        Function::Cbrt(a) => match simplify_fueled(*a, fuel) {
            Ok(u) => Function::simplify_cbrt(u, fuel - 1),
            Err(er) => Err(er),
        },
        Function::Log(a) => match simplify_fueled(*a, fuel) {
            Ok(u) => {
                proof {
                    assert(crate::model::func_apply(
                        crate::ast::FuncKind::Log,
                        view_of(u),
                        (fuel - 1) as nat,
                    ) == crate::model::func_log(view_of(u), (fuel - 1) as nat));
                }
                Function::simplify_log(u, fuel - 1)
            },
            Err(er) => Err(er),
        },
        Function::Ln(a) => match simplify_fueled(*a, fuel) {
            Ok(u) => {
                proof {
                    assert(crate::model::func_apply(
                        crate::ast::FuncKind::Ln,
                        view_of(u),
                        (fuel - 1) as nat,
                    ) == crate::model::func_ln(view_of(u), (fuel - 1) as nat));
                }
                Function::simplify_ln(u, fuel - 1)
            },
            Err(er) => Err(er),
        },
        Function::Other(nm, a) => match simplify_fueled(*a, fuel) {
            Ok(u) => {
                if fuel == 1 {
                    Err(crate::errors::UndefinedError::DepthExceeded)
                } else {
                    Ok(Expression::Function(Function::Other(nm, Box::new(u))))
                }
            },
            Err(er) => Err(er),
        },
    }
}

/// Simplifies each child in order, exactly as `simp_list` states it.
pub(crate) fn simplify_children(v: Vec<Expression>, fuel: u64) -> (r: Result<
    Vec<Expression>,
    crate::errors::UndefinedError,
>)
    ensures
        match r {
            Ok(out) => crate::model::simp_list(views_of(v@), fuel as nat) == Ok::<
                Seq<Expr>,
                crate::errors::UndefinedError,
            >(views_of(out@)),
            Err(er) => crate::model::simp_list(views_of(v@), fuel as nat) == Err::<
                Seq<Expr>,
                crate::errors::UndefinedError,
            >(er),
        },
    decreases fuel as nat, esize_seq(views_of(v@)), 1nat,
{
    let ghost orig = v@;
    proof {
        lemma_views_of(orig);
    }
    if v.len() == 0 {
        let out: Vec<Expression> = Vec::new();
        proof {
            lemma_views_of(out@);
            assert(views_of(out@) =~= Seq::<Expr>::empty());
        }
        return Ok(out);
    }
    let mut v = v;
    let first = v.remove(0);
    proof {
        assert(v@ =~= orig.subrange(1, orig.len() as int));
        assert(view_of(first) == views_of(orig)[0]);
        crate::ast::lemma_esize_seq_elem(views_of(orig), 0);
        assert(esize(views_of(orig)[0]) >= 1);
        assert(esize_seq(views_of(orig)) == esize(views_of(orig)[0]) + esize_seq(
            views_of(orig).subrange(1, views_of(orig).len() as int),
        ));
        lemma_views_of_subrange(orig, 1, orig.len() as int);
        assert(views_of(v@) =~= views_of(orig).subrange(1, views_of(orig).len() as int));
    }
    match simplify_fueled(first, fuel) {
        Ok(fv) => match simplify_children(v, fuel) {
            Ok(mut rest) => {
                let ghost pre_rest = rest@;
                let ghost rv = views_of(rest@);
                let ghost fvv = view_of(fv);
                rest.insert(0, fv);
                proof {
                    lemma_views_of(pre_rest);
                    lemma_views_of(rest@);
                    assert(rest@ =~= seq![fv] + pre_rest);
                    assert(views_of(rest@) =~= seq![fvv] + rv);
                }
                Ok(rest)
            },
            Err(er) => Err(er),
        },
        Err(er) => Err(er),
    }
}

/// Whether two expression trees are structurally equal, decided bottom-up.
pub fn expr_eq(a: &Expression, b: &Expression) -> (r: bool)
    ensures
        r == (a@ == b@),
    decreases esize(a@), 0nat,
{
    match (a, b) {
        (Expression::Integer(x), Expression::Integer(y)) => x.0 == y.0,
        (Expression::Rational(x), Expression::Rational(y)) => x.0 == y.0 && x.1 == y.1,
        (Expression::Variable(x), Expression::Variable(y)) => crate::strings::eq_str(
            x.0.as_str(),
            y.0.as_str(),
        ),
        (Expression::Power(p), Expression::Power(q)) => expr_eq(&*p.base, &*q.base) && expr_eq(
            &*p.exp,
            &*q.exp,
        ),
        (Expression::Product(p), Expression::Product(q)) => {
            proof {
                lemma_views_of(p.0@);
                lemma_views_of(q.0@);
            }
            exprs_eq(p.0.as_slice(), q.0.as_slice())
        },
        (Expression::Sum(s), Expression::Sum(t)) => {
            proof {
                lemma_views_of(s.0@);
                lemma_views_of(t.0@);
            }
            exprs_eq(s.0.as_slice(), t.0.as_slice())
        },
        (Expression::Function(f), Expression::Function(g)) => match (f, g) {
            (Function::Sqrt(x), Function::Sqrt(y)) => expr_eq(&**x, &**y),
            (Function::Cbrt(x), Function::Cbrt(y)) => expr_eq(&**x, &**y),
            (Function::Log(x), Function::Log(y)) => expr_eq(&**x, &**y),
            (Function::Ln(x), Function::Ln(y)) => expr_eq(&**x, &**y),
            (Function::Other(n, x), Function::Other(m, y)) => crate::strings::eq_str(
                n.as_str(),
                m.as_str(),
            ) && expr_eq(&**x, &**y),
            _ => false,
        },
        _ => false,
    }
}

/// Whether two sequences of expression trees are equal element by element.
pub fn exprs_eq(x: &[Expression], y: &[Expression]) -> (r: bool)
    ensures
        r == (views_of(x@) == views_of(y@)),
    decreases esize_seq(views_of(x@)), 1nat,
{
    proof {
        lemma_views_of(x@);
        lemma_views_of(y@);
    }
    if x.len() != y.len() {
        return false;
    }
    let mut i: usize = 0;
    while i < x.len()
        invariant
            i <= x@.len(),
            x@.len() == y@.len(),
            views_of(x@).len() == x@.len(),
            views_of(y@).len() == y@.len(),
            forall|j: int| 0 <= j < i ==> views_of(x@)[j] == views_of(y@)[j],
            forall|j: int| 0 <= j < x@.len() ==> views_of(x@)[j] == view_of(x@[j]),
            forall|j: int| 0 <= j < y@.len() ==> views_of(y@)[j] == view_of(y@[j]),
        decreases x@.len() - i,
    {
        proof {
            lemma_esize_seq_elem(views_of(x@), i as int);
        }
        let xe = vstd::slice::slice_index_get(x, i);
        let ye = vstd::slice::slice_index_get(y, i);
        if !expr_eq(xe, ye) {
            proof {
                assert(views_of(x@)[i as int] != views_of(y@)[i as int]);
            }
            return false;
        }
        i += 1;
    }
    proof {
        assert(views_of(x@) =~= views_of(y@));
    }
    true
}

} // verus!
