use vstd::prelude::*;
use vstd::slice::slice_subrange;

use core::cmp::Ordering;

use crate::ast::{coeff_of_factors, spec_base, term_of_factors, Expr};
use crate::errors::UndefinedError;
use crate::expression::{
    is_one, into_factors, into_power_parts, lemma_views_of, lemma_views_of_push,
    lemma_views_of_subrange, pair_vec, res_view, simplify_fueled, singleton_vec, view_of, views_of,
    expr_eq, Expression, SIMPLIFY_FUEL,
};
use crate::model::{prod_list, prod_merge, prod_pair};
use crate::order::cmp_expr;
use crate::types::{Integer, Power, Sum};

verus! {

/// An ordered sequence of factors to be multiplied.
#[derive(Debug, PartialEq, Eq)]
pub struct Product(pub Vec<Expression>);

impl View for Product {
    type V = Seq<Expr>;

    open spec fn view(&self) -> Seq<Expr> {
        views_of(self.0@)
    }
}

impl Product {
    /// Builds a product from its factors.
    pub fn new(values: Vec<Expression>) -> (r: Product)
        ensures
            r@ == views_of(values@),
    {
        Product(values)
    }

    /// The factors, in order.
    pub fn values(&self) -> (r: &[Expression])
        ensures
            views_of(r@) == self@,
    {
        self.0.as_slice()
    }

    /// The factors after a leading numeric coefficient, or all of them when
    /// no factor leads with a number. Asked only of nonempty products.
    pub fn term(&self) -> (r: &[Expression])
        requires
            self@.len() > 0,
        ensures
            views_of(r@) == term_of_factors(self@),
    {
        proof {
            crate::expression::lemma_views_of(self.0@);
        }
        match &self.0[0] {
            Expression::Integer(_) | Expression::Rational(_) => {
                let r = slice_subrange(self.0.as_slice(), 1, self.0.len());
                proof {
                    crate::expression::lemma_views_of_subrange(self.0@, 1, self.0@.len() as int);
                }
                r
            },
            _ => self.0.as_slice(),
        }
    }

    /// The leading numeric coefficient, where there is one.
    pub fn coeff(&self) -> (r: Option<&Expression>)
        ensures
            match r {
                Some(c) => self@.len() > 0 && self@[0].is_numeric() && view_of(*c) == self@[0]
                    && view_of(*c) == coeff_of_factors(self@),
                None => self@.len() == 0 || !self@[0].is_numeric(),
            },
    {
        proof {
            crate::expression::lemma_views_of(self.0@);
        }
        if self.0.len() == 0 {
            return None;
        }
        match &self.0[0] {
            n @ Expression::Integer(_) => Some(n),
            q @ Expression::Rational(_) => Some(q),
            _ => None,
        }
    }

    /// Appends one more factor.
    pub fn adjoin(self, value: Expression) -> (r: Self)
        ensures
            r@ == self@.push(view_of(value)),
    {
        let ghost orig = self.0@;
        let mut v = self.0;
        v.push(value);
        proof {
            crate::expression::lemma_views_of_push(orig, value);
        }
        Product(v)
    }

    /// Multiplies two expressions under the default rewriting budget,
    /// exactly as `prod_pair` states it.
    pub fn with_two_args(u1: Expression, u2: Expression) -> (r: Result<
        Expression,
        UndefinedError,
    >)
        ensures
            res_view(r) == prod_pair(view_of(u1), view_of(u2), SIMPLIFY_FUEL as nat),
    {
        prod_pair_fueled(u1, u2, SIMPLIFY_FUEL)
    }
}

/// Multiplies two simplified expressions, exactly as `prod_pair` states it.
#[verifier::rlimit(60)]
#[verifier::spinoff_prover]
pub(crate) fn prod_pair_fueled(u1: Expression, u2: Expression, fuel: u64) -> (r: Result<
    Expression,
    UndefinedError,
>)
    ensures
        res_view(r) == prod_pair(view_of(u1), view_of(u2), fuel as nat),
    decreases fuel as nat, 0nat, 0nat,
{
    if fuel == 0 {
        return Err(UndefinedError::DepthExceeded);
    }
    if is_one(&u1) {
        return Ok(u2);
    }
    if is_one(&u2) {
        return Ok(u1);
    }
    match (&u1, &u2) {
        (Expression::Integer(x), Expression::Integer(y)) => {
            proof {
                assert(-0x4000_0000_0000_0000 <= (x.0 as int) * (y.0 as int)
                    <= 0x4000_0000_0000_0000) by (nonlinear_arith)
                    requires
                        -0x8000_0000 <= x.0 as int <= 0x7fff_ffff,
                        -0x8000_0000 <= y.0 as int <= 0x7fff_ffff,
                ;
            }
            let v: i64 = (x.0 as i64) * (y.0 as i64);
            return if -0x8000_0000i64 <= v && v <= 0x7fff_ffffi64 {
                Ok(Expression::Integer(Integer(v as i32)))
            } else {
                Err(UndefinedError::Overflow)
            };
        },
        (Expression::Rational(a), Expression::Rational(b)) => {
            proof {
                lemma_i32_products(a.0 as int, b.0 as int);
                lemma_i32_products(a.1 as int, b.1 as int);
            }
            return crate::types::rational::fold_rational(
                (a.0 as i128) * (b.0 as i128),
                (a.1 as i128) * (b.1 as i128),
            );
        },
        (Expression::Integer(x), Expression::Rational(b)) => {
            proof {
                lemma_i32_products(b.0 as int, x.0 as int);
            }
            return crate::types::rational::fold_rational(
                (b.0 as i128) * (x.0 as i128),
                b.1 as i128,
            );
        },
        (Expression::Rational(a), Expression::Integer(y)) => {
            proof {
                lemma_i32_products(a.0 as int, y.0 as int);
            }
            return crate::types::rational::fold_rational(
                (a.0 as i128) * (y.0 as i128),
                a.1 as i128,
            );
        },
        _ => {},
    }
    let beq = expr_eq(u1.base(), u2.base());
    if beq {
        let (b1, e1) = into_power_parts(u1);
        let (b2, e2) = into_power_parts(u2);
        match simplify_fueled(Expression::Sum(Sum(pair_vec(e1, e2))), fuel - 1) {
            Ok(s) => simplify_fueled(Expression::Power(Power::new(b1, s)), fuel - 1),
            Err(er) => Err(er),
        }
    } else {
        match (u1, u2) {
            (Expression::Product(p), Expression::Product(q)) => {
                match merge_products_fueled(p.0, q.0, fuel - 1) {
                    Ok(r) => Ok(Expression::Product(Product(r))),
                    Err(er) => Err(er),
                }
            },
            (Expression::Product(p), u) => {
                match merge_products_fueled(p.0, singleton_vec(u), fuel - 1) {
                    Ok(r) => Ok(Expression::Product(Product(r))),
                    Err(er) => Err(er),
                }
            },
            (u, Expression::Product(q)) => {
                match merge_products_fueled(q.0, singleton_vec(u), fuel - 1) {
                    Ok(r) => Ok(Expression::Product(Product(r))),
                    Err(er) => Err(er),
                }
            },
            (u1, u2) => match cmp_expr(&u2, &u1) {
                Ordering::Less => Ok(Expression::Product(Product(pair_vec(u2, u1)))),
                _ => Ok(Expression::Product(Product(pair_vec(u1, u2)))),
            },
        }
    }
}

/// Products of machine-word values stay far inside the next word.
pub(crate) proof fn lemma_i32_products(a: int, b: int)
    requires
        -0x8000_0000 <= a <= 0x7fff_ffff,
        -0x8000_0000 <= b <= 0x7fff_ffff,
    ensures
        -0x4000_0000_0000_0000 <= a * b <= 0x4000_0000_0000_0000,
{
    assert(-0x4000_0000_0000_0000 <= a * b <= 0x4000_0000_0000_0000) by (nonlinear_arith)
        requires
            -0x8000_0000 <= a <= 0x7fff_ffff,
            -0x8000_0000 <= b <= 0x7fff_ffff,
    ;
}

/// Merges two factor vectors from their tails, exactly as `prod_merge`
/// states it.
#[verifier::rlimit(60)]
#[verifier::spinoff_prover]
pub(crate) fn merge_products_fueled(p: Vec<Expression>, q: Vec<Expression>, fuel: u64) -> (r:
    Result<Vec<Expression>, UndefinedError>)
    ensures
        match r {
            Ok(out) => prod_merge(views_of(p@), views_of(q@), fuel as nat) == Ok::<
                Seq<Expr>,
                UndefinedError,
            >(views_of(out@)),
            Err(er) => prod_merge(views_of(p@), views_of(q@), fuel as nat) == Err::<
                Seq<Expr>,
                UndefinedError,
            >(er),
        },
    decreases fuel as nat, p@.len() + q@.len(), 0nat,
{
    if fuel == 0 {
        return Err(UndefinedError::DepthExceeded);
    }
    let ghost pre_p = p@;
    let ghost pre_q = q@;
    let ghost vp = views_of(p@);
    let ghost vq = views_of(q@);
    proof {
        lemma_views_of(p@);
        lemma_views_of(q@);
    }
    let mut p = p;
    let mut q = q;
    if p.len() == 0 {
        return Ok(q);
    }
    if q.len() == 0 {
        return Ok(p);
    }
    let p1 = p.pop().unwrap();
    let q1 = q.pop().unwrap();
    proof {
        lemma_views_of_subrange(pre_p, 0, pre_p.len() - 1);
        lemma_views_of_subrange(pre_q, 0, pre_q.len() - 1);
        assert(p@ =~= pre_p.subrange(0, pre_p.len() - 1));
        assert(q@ =~= pre_q.subrange(0, pre_q.len() - 1));
        assert(views_of(p@) == vp.subrange(0, vp.len() - 1));
        assert(views_of(q@) == vq.subrange(0, vq.len() - 1));
        assert(view_of(p1) == vp[vp.len() - 1]);
        assert(view_of(q1) == vq[vq.len() - 1]);
    }
    match prod_pair_fueled(p1.deep_clone(), q1.deep_clone(), fuel - 1) {
        Err(er) => Err(er),
        Ok(h) => {
            if is_one(&h) {
                merge_products_fueled(p, q, fuel)
            } else {
                let keep_right = match &h {
                    Expression::Product(hs) => {
                        proof {
                            lemma_views_of(hs.0@);
                        }
                        hs.0.len() > 0 && expr_eq(&hs.0[0], &p1) && expr_eq(
                            &hs.0[hs.0.len() - 1],
                            &q1,
                        )
                    },
                    _ => false,
                };
                match h {
                    Expression::Product(_) => {
                        if keep_right {
                            p.push(p1);
                            proof {
                                assert(p@ =~= pre_p);
                                assert(views_of(p@) == vp);
                            }
                            match merge_products_fueled(p, q, fuel) {
                                Ok(mut r) => {
                                    let ghost pre_r = r@;
                                    let ghost rv = views_of(r@);
                                    let ghost q1v = view_of(q1);
                                    r.push(q1);
                                    proof {
                                        lemma_views_of_push(pre_r, q1);
                                        assert(views_of(r@) == rv.push(q1v));
                                    }
                                    Ok(r)
                                },
                                Err(er) => Err(er),
                            }
                        } else {
                            q.push(q1);
                            proof {
                                assert(q@ =~= pre_q);
                                assert(views_of(q@) == vq);
                            }
                            match merge_products_fueled(p, q, fuel) {
                                Ok(mut r) => {
                                    let ghost pre_r = r@;
                                    let ghost rv = views_of(r@);
                                    let ghost p1v = view_of(p1);
                                    r.push(p1);
                                    proof {
                                        lemma_views_of_push(pre_r, p1);
                                        assert(views_of(r@) == rv.push(p1v));
                                    }
                                    Ok(r)
                                },
                                Err(er) => Err(er),
                            }
                        }
                    },
                    h => {
                        let ghost hv = view_of(h);
                        match merge_products_fueled(p, q, fuel) {
                            Ok(mut r) => {
                                let ghost pre_r = r@;
                                let ghost rv = views_of(r@);
                                r.push(h);
                                proof {
                                    lemma_views_of_push(pre_r, h);
                                    assert(views_of(r@) == rv.push(hv));
                                }
                                Ok(r)
                            },
                            Err(er) => Err(er),
                        }
                    },
                }
            }
        },
    }
}

/// Folds an already-simplified, sorted, zero-free factor vector, exactly as
/// `prod_list` states it.
#[verifier::rlimit(60)]
#[verifier::spinoff_prover]
pub(crate) fn product_combine(vs: Vec<Expression>, fuel: u64) -> (r: Result<
    Expression,
    UndefinedError,
>)
    ensures
        res_view(r) == prod_list(views_of(vs@), fuel as nat),
    decreases fuel as nat, vs@.len(), 0nat,
{
    if fuel == 0 {
        return Err(UndefinedError::DepthExceeded);
    }
    let ghost pre_vs = vs@;
    let ghost vv = views_of(vs@);
    proof {
        lemma_views_of(vs@);
    }
    let mut vs = vs;
    if vs.len() == 0 {
        Ok(Expression::Integer(Integer(1)))
    } else if vs.len() == 1 {
        let u = vs.pop().unwrap();
        proof {
            assert(view_of(u) == vv[0]);
        }
        Ok(u)
    } else if vs.len() == 2 {
        let u1 = vs.pop().unwrap();
        let u2 = vs.pop().unwrap();
        proof {
            assert(view_of(u1) == vv[1]);
            assert(view_of(u2) == vv[0]);
        }
        prod_pair_fueled(u1, u2, fuel - 1)
    } else {
        let u0 = vs.pop().unwrap();
        proof {
            assert(view_of(u0) == vv[vv.len() - 1]);
            lemma_views_of_subrange(pre_vs, 0, pre_vs.len() - 1);
            assert(vs@ =~= pre_vs.subrange(0, pre_vs.len() - 1));
            assert(views_of(vs@) == vv.subrange(0, vv.len() - 1));
        }
        match product_combine(vs, fuel) {
            Ok(rest) => {
                let pfac = into_factors(rest);
                match merge_products_fueled(pfac, singleton_vec(u0), fuel - 1) {
                    Ok(r) => {
                        let mut r = r;
                        proof {
                            lemma_views_of(r@);
                        }
                        if r.len() == 0 {
                            Ok(Expression::Integer(Integer(1)))
                        } else if r.len() == 1 {
                            proof {
                                lemma_views_of(r@);
                            }
                            let u = r.pop().unwrap();
                            Ok(u)
                        } else {
                            Ok(Expression::Product(Product(r)))
                        }
                    },
                    Err(er) => Err(er),
                }
            },
            Err(er) => Err(er),
        }
    }
}

} // verus!
