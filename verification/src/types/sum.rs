use vstd::prelude::*;

use core::cmp::Ordering;

use crate::ast::{coeff_of_factors, spec_term, term_of_factors, to_factors, Expr};
use crate::errors::UndefinedError;
use crate::expression::{
    coeff_value, expr_eq, exprs_eq, into_factors, into_terms, is_zero, lemma_views_of,
    lemma_views_of_push, lemma_views_of_subrange, pair_vec, res_view, simplify_fueled,
    singleton_vec, term_slice, view_of, views_of, Expression,
};
use crate::model::{sum_list, sum_merge, sum_pair};
use crate::order::cmp_expr;
use crate::types::{Integer, Product};

verus! {

/// An ordered sequence of terms to be added.
#[derive(Debug, PartialEq, Eq)]
pub struct Sum(pub Vec<Expression>);

impl View for Sum {
    type V = Seq<Expr>;

    open spec fn view(&self) -> Seq<Expr> {
        views_of(self.0@)
    }
}

impl Sum {
    /// Builds a sum from its terms.
    pub fn new(values: Vec<Expression>) -> (r: Sum)
        ensures
            r@ == views_of(values@),
    {
        Sum(values)
    }

    /// The terms, in order.
    pub fn values(&self) -> (r: &[Expression])
        ensures
            views_of(r@) == self@,
    {
        self.0.as_slice()
    }
}

/// Adds two simplified expressions, exactly as `sum_pair` states it.
#[verifier::rlimit(60)]
#[verifier::spinoff_prover]
pub(crate) fn sum_pair_fueled(u1: Expression, u2: Expression, fuel: u64) -> (r: Result<
    Expression,
    UndefinedError,
>)
    ensures
        res_view(r) == sum_pair(view_of(u1), view_of(u2), fuel as nat),
    decreases fuel as nat, 0nat, 0nat,
{
    if fuel == 0 {
        return Err(UndefinedError::DepthExceeded);
    }
    if is_zero(&u1) {
        return Ok(u2);
    }
    if is_zero(&u2) {
        return Ok(u1);
    }
    match (&u1, &u2) {
        (Expression::Integer(x), Expression::Integer(y)) => {
            let v: i64 = (x.0 as i64) + (y.0 as i64);
            return if -0x8000_0000i64 <= v && v <= 0x7fff_ffffi64 {
                Ok(Expression::Integer(Integer(v as i32)))
            } else {
                Err(UndefinedError::Overflow)
            };
        },
        (Expression::Rational(a), Expression::Rational(b)) => {
            proof {
                crate::types::product::lemma_i32_products(a.0 as int, b.1 as int);
                crate::types::product::lemma_i32_products(b.0 as int, a.1 as int);
                crate::types::product::lemma_i32_products(a.1 as int, b.1 as int);
            }
            return crate::types::rational::fold_rational(
                (a.0 as i128) * (b.1 as i128) + (b.0 as i128) * (a.1 as i128),
                (a.1 as i128) * (b.1 as i128),
            );
        },
        (Expression::Integer(x), Expression::Rational(b)) => {
            proof {
                crate::types::product::lemma_i32_products(x.0 as int, b.1 as int);
            }
            return crate::types::rational::fold_rational(
                (x.0 as i128) * (b.1 as i128) + (b.0 as i128),
                b.1 as i128,
            );
        },
        (Expression::Rational(a), Expression::Integer(y)) => {
            proof {
                crate::types::product::lemma_i32_products(y.0 as int, a.1 as int);
            }
            return crate::types::rational::fold_rational(
                (y.0 as i128) * (a.1 as i128) + (a.0 as i128),
                a.1 as i128,
            );
        },
        _ => {},
    }
    let teq = exprs_eq(term_slice(&u1), term_slice(&u2));
    if teq {
        proof {
            assert(spec_term(view_of(u1)) == spec_term(view_of(u2)));
        }
        let c1 = coeff_value(&u1);
        let c2 = coeff_value(&u2);
        match simplify_fueled(Expression::Sum(Sum(pair_vec(c1, c2))), fuel - 1) {
            Err(er) => Err(er),
            Ok(s) => {
                let mut fs = into_factors(u1);
                let ghost fv = views_of(fs@);
                proof {
                    lemma_views_of(fs@);
                }
                if fs.len() > 0 && leading_numeric(&fs) {
                    let ghost pre = fs@;
                    let _dropped = fs.remove(0);
                    proof {
                        lemma_views_of_subrange(pre, 1, pre.len() as int);
                        assert(fs@ =~= pre.subrange(1, pre.len() as int));
                        assert(views_of(fs@) == term_of_factors(fv));
                    }
                } else {
                    proof {
                        assert(views_of(fs@) == term_of_factors(fv));
                    }
                }
                let ghost pre2 = fs@;
                let ghost tv = views_of(fs@);
                let ghost sv = view_of(s);
                fs.push(s);
                proof {
                    lemma_views_of_push(pre2, fs@[fs@.len() - 1]);
                    assert(views_of(fs@) == tv.push(sv));
                }
                simplify_fueled(Expression::Product(Product(fs)), fuel - 1)
            },
        }
    } else {
        match (u1, u2) {
            (Expression::Sum(p), Expression::Sum(q)) => {
                match merge_sums_fueled(p.0, q.0, fuel - 1) {
                    Ok(r) => Ok(Expression::Sum(Sum(r))),
                    Err(er) => Err(er),
                }
            },
            (Expression::Sum(p), u) => {
                match merge_sums_fueled(p.0, singleton_vec(u), fuel - 1) {
                    Ok(r) => Ok(Expression::Sum(Sum(r))),
                    Err(er) => Err(er),
                }
            },
            (u, Expression::Sum(q)) => {
                match merge_sums_fueled(q.0, singleton_vec(u), fuel - 1) {
                    Ok(r) => Ok(Expression::Sum(Sum(r))),
                    Err(er) => Err(er),
                }
            },
            (u1, u2) => match cmp_expr(&u2, &u1) {
                Ordering::Less => Ok(Expression::Sum(Sum(pair_vec(u2, u1)))),
                _ => Ok(Expression::Sum(Sum(pair_vec(u1, u2)))),
            },
        }
    }
}

/// Whether the first element of a factor vector is numeric.
fn leading_numeric(fs: &Vec<Expression>) -> (b: bool)
    requires
        fs@.len() > 0,
    ensures
        b == views_of(fs@)[0].is_numeric(),
{
    proof {
        lemma_views_of(fs@);
    }
    match &fs[0] {
        Expression::Integer(_) => true,
        Expression::Rational(_) => true,
        _ => false,
    }
}

/// Merges two term vectors from their tails, exactly as `sum_merge` states
/// it.
#[verifier::rlimit(60)]
#[verifier::spinoff_prover]
pub(crate) fn merge_sums_fueled(p: Vec<Expression>, q: Vec<Expression>, fuel: u64) -> (r: Result<
    Vec<Expression>,
    UndefinedError,
>)
    ensures
        match r {
            Ok(out) => sum_merge(views_of(p@), views_of(q@), fuel as nat) == Ok::<
                Seq<Expr>,
                UndefinedError,
            >(views_of(out@)),
            Err(er) => sum_merge(views_of(p@), views_of(q@), fuel as nat) == Err::<
                Seq<Expr>,
                UndefinedError,
            >(er),
        },
    decreases fuel as nat, p@.len() + q@.len(), 0nat,
{
    if fuel == 0 {
        return Err(UndefinedError::DepthExceeded);
    }
    let ghost pre_p = p@;
    let ghost pre_q = q@;
    let ghost vp = views_of(p@);
    let ghost vq = views_of(q@);
    proof {
        lemma_views_of(p@);
        lemma_views_of(q@);
    }
    let mut p = p;
    let mut q = q;
    if p.len() == 0 {
        return Ok(q);
    }
    if q.len() == 0 {
        return Ok(p);
    }
    let p1 = p.pop().unwrap();
    let q1 = q.pop().unwrap();
    proof {
        lemma_views_of_subrange(pre_p, 0, pre_p.len() - 1);
        lemma_views_of_subrange(pre_q, 0, pre_q.len() - 1);
        assert(p@ =~= pre_p.subrange(0, pre_p.len() - 1));
        assert(q@ =~= pre_q.subrange(0, pre_q.len() - 1));
        assert(views_of(p@) == vp.subrange(0, vp.len() - 1));
        assert(views_of(q@) == vq.subrange(0, vq.len() - 1));
        assert(view_of(p1) == vp[vp.len() - 1]);
        assert(view_of(q1) == vq[vq.len() - 1]);
    }
    match sum_pair_fueled(p1.deep_clone(), q1.deep_clone(), fuel - 1) {
        Err(er) => Err(er),
        Ok(h) => {
            if is_zero(&h) {
                merge_sums_fueled(p, q, fuel)
            } else {
                let keep_right = match &h {
                    Expression::Sum(hs) => {
                        proof {
                            lemma_views_of(hs.0@);
                        }
                        hs.0.len() > 0 && expr_eq(&hs.0[0], &p1) && expr_eq(
                            &hs.0[hs.0.len() - 1],
                            &q1,
                        )
                    },
                    _ => false,
                };
                match h {
                    Expression::Sum(_) => {
                        if keep_right {
                            p.push(p1);
                            proof {
                                assert(p@ =~= pre_p);
                                assert(views_of(p@) == vp);
                            }
                            match merge_sums_fueled(p, q, fuel) {
                                Ok(mut r) => {
                                    let ghost pre_r = r@;
                                    let ghost rv = views_of(r@);
                                    let ghost q1v = view_of(q1);
                                    r.push(q1);
                                    proof {
                                        lemma_views_of_push(pre_r, q1);
                                        assert(views_of(r@) == rv.push(q1v));
                                    }
                                    Ok(r)
                                },
                                Err(er) => Err(er),
                            }
                        } else {
                            q.push(q1);
                            proof {
                                assert(q@ =~= pre_q);
                                assert(views_of(q@) == vq);
                            }
                            match merge_sums_fueled(p, q, fuel) {
                                Ok(mut r) => {
                                    let ghost pre_r = r@;
                                    let ghost rv = views_of(r@);
                                    let ghost p1v = view_of(p1);
                                    r.push(p1);
                                    proof {
                                        lemma_views_of_push(pre_r, p1);
                                        assert(views_of(r@) == rv.push(p1v));
                                    }
                                    Ok(r)
                                },
                                Err(er) => Err(er),
                            }
                        }
                    },
                    h => {
                        let ghost hv = view_of(h);
                        match merge_sums_fueled(p, q, fuel) {
                            Ok(mut r) => {
                                let ghost pre_r = r@;
                                let ghost rv = views_of(r@);
                                r.push(h);
                                proof {
                                    lemma_views_of_push(pre_r, h);
                                    assert(views_of(r@) == rv.push(hv));
                                }
                                Ok(r)
                            },
                            Err(er) => Err(er),
                        }
                    },
                }
            }
        },
    }
}

/// Folds an already-simplified, sorted term vector, exactly as `sum_list`
/// states it.
#[verifier::rlimit(60)]
#[verifier::spinoff_prover]
pub(crate) fn sum_combine(vs: Vec<Expression>, fuel: u64) -> (r: Result<Expression, UndefinedError>)
    ensures
        res_view(r) == sum_list(views_of(vs@), fuel as nat),
    decreases fuel as nat, vs@.len(), 0nat,
{
    if fuel == 0 {
        return Err(UndefinedError::DepthExceeded);
    }
    let ghost pre_vs = vs@;
    let ghost vv = views_of(vs@);
    proof {
        lemma_views_of(vs@);
    }
    let mut vs = vs;
    if vs.len() == 0 {
        Ok(Expression::Integer(Integer(0)))
    } else if vs.len() == 1 {
        let u = vs.pop().unwrap();
        proof {
            assert(view_of(u) == vv[0]);
        }
        Ok(u)
    } else if vs.len() == 2 {
        let u1 = vs.pop().unwrap();
        let u2 = vs.pop().unwrap();
        proof {
            assert(view_of(u1) == vv[1]);
            assert(view_of(u2) == vv[0]);
        }
        sum_pair_fueled(u1, u2, fuel - 1)
    } else {
        let u0 = vs.pop().unwrap();
        proof {
            assert(view_of(u0) == vv[vv.len() - 1]);
            lemma_views_of_subrange(pre_vs, 0, pre_vs.len() - 1);
            assert(vs@ =~= pre_vs.subrange(0, pre_vs.len() - 1));
            assert(views_of(vs@) == vv.subrange(0, vv.len() - 1));
        }
        match sum_combine(vs, fuel) {
            Ok(rest) => {
                let pterms = into_terms(rest);
                match merge_sums_fueled(pterms, singleton_vec(u0), fuel - 1) {
                    Ok(r) => {
                        let mut r = r;
                        proof {
                            lemma_views_of(r@);
                        }
                        if r.len() == 0 {
                            Ok(Expression::Integer(Integer(0)))
                        } else if r.len() == 1 {
                            proof {
                                lemma_views_of(r@);
                            }
                            let u = r.pop().unwrap();
                            Ok(u)
                        } else {
                            Ok(Expression::Sum(Sum(r)))
                        }
                    },
                    Err(er) => Err(er),
                }
            },
            Err(er) => Err(er),
        }
    }
}

} // verus!
