use vstd::prelude::*;

use crate::arith::{abs_int, fits_i32, gcd_nat, log_scan, pow_int, pow_step, radical_scan};
use crate::ast::{
    coeff_of_factors, esize, esize_seq, spec_base, spec_exponent, spec_term, term_of_factors,
    to_factors, to_terms, Expr, FuncKind,
};
use crate::errors::UndefinedError;
use crate::order::{sort_exprs, spec_cmp};

verus! {

/// The normal form of `p/q`: an error on a zero denominator; the exact
/// integer where the denominator divides the numerator; otherwise the
/// fraction in lowest terms with positive denominator. A value that leaves
/// the machine word is an overflow error.
pub open spec fn rat_norm(p: int, q: int) -> Result<Expr, UndefinedError> {
    if q == 0 {
        Err(UndefinedError::DivisionByZero)
    } else {
        let ap = abs_int(p);
        let aq = abs_int(q);
        let neg = (p < 0) != (q < 0);
        if ap % aq == 0 {
            let v: int = if neg {
                -((ap / aq) as int)
            } else {
                (ap / aq) as int
            };
            if fits_i32(v) {
                Ok(Expr::Int(v))
            } else {
                Err(UndefinedError::Overflow)
            }
        } else {
            let g = gcd_nat(ap, aq);
            let np: int = if neg {
                -((ap / g) as int)
            } else {
                (ap / g) as int
            };
            let nd: int = (aq / g) as int;
            if fits_i32(np) && fits_i32(nd) {
                Ok(Expr::Rat(np, nd))
            } else {
                Err(UndefinedError::Overflow)
            }
        }
    }
}

/// One negation, written the way the surface language writes it.
pub open spec fn neg_of(e: Expr) -> Expr {
    Expr::Prod(seq![Expr::Int(-1), e])
}

/// The simplifier itself: a bottom-up rewriter. Children are simplified
/// first; each compound then combines its simplified children. The fuel
/// bounds the nesting depth of rewriting; an exhausted budget reports
/// `DepthExceeded` rather than recursing further.
pub open spec fn simp_expr(e: Expr, f: nat) -> Result<Expr, UndefinedError>
    decreases f, esize(e), 0nat,
{
    if f == 0 {
        Err(UndefinedError::DepthExceeded)
    } else {
        match e {
            Expr::Int(_) => Ok(e),
            Expr::Var(_) => Ok(e),
            Expr::Rat(p, q) => rat_norm(p, q),
            Expr::Pow(b, x) => match simp_expr(*b, f) {
                Ok(v) => match simp_expr(*x, f) {
                    Ok(w) => pow_pair(v, w, (f - 1) as nat),
                    Err(er) => Err(er),
                },
                Err(er) => Err(er),
            },
            Expr::Prod(fs) => match simp_list(fs, f) {
                Ok(vs) => {
                    let sorted = sort_exprs(vs);
                    if sorted.contains(Expr::Int(0)) {
                        Ok(Expr::Int(0))
                    } else {
                        prod_list(sorted, (f - 1) as nat)
                    }
                },
                Err(er) => Err(er),
            },
            Expr::Sum(ts) => match simp_list(ts, f) {
                Ok(vs) => sum_list(sort_exprs(vs), (f - 1) as nat),
                Err(er) => Err(er),
            },
            Expr::Func(k, a) => match simp_expr(*a, f) {
                Ok(u) => func_apply(k, u, (f - 1) as nat),
                Err(er) => Err(er),
            },
        }
    }
}

/// What simplification does at a product node: simplify the children, sort
/// them, collapse to zero when a zero factor appears, and fold the rest.
pub open spec fn simp_prod_node(fs: Seq<Expr>, f: nat) -> Result<Expr, UndefinedError> {
    match simp_list(fs, f) {
        Ok(vs) => {
            let sorted = sort_exprs(vs);
            if sorted.contains(Expr::Int(0)) {
                Ok(Expr::Int(0))
            } else {
                prod_list(sorted, (f - 1) as nat)
            }
        },
        Err(er) => Err(er),
    }
}

/// What simplification does at a sum node: simplify the children, sort them,
/// and fold.
pub open spec fn simp_sum_node(ts: Seq<Expr>, f: nat) -> Result<Expr, UndefinedError> {
    match simp_list(ts, f) {
        Ok(vs) => sum_list(sort_exprs(vs), (f - 1) as nat),
        Err(er) => Err(er),
    }
}

/// What simplification does at a function node: simplify the argument, then
/// apply the named function's rules.
pub open spec fn simp_func_node(k: FuncKind, a: Expr, f: nat) -> Result<Expr, UndefinedError> {
    match simp_expr(a, f) {
        Ok(u) => func_apply(k, u, (f - 1) as nat),
        Err(er) => Err(er),
    }
}

/// Simplifies each child in order, stopping at the first error.
pub open spec fn simp_list(s: Seq<Expr>, f: nat) -> Result<Seq<Expr>, UndefinedError>
    decreases f, esize_seq(s), 1nat,
    via simp_list_decreases
{
    if s.len() == 0 {
        Ok(Seq::empty())
    } else {
        match simp_expr(s[0], f) {
            Ok(v) => match simp_list(s.subrange(1, s.len() as int), f) {
                Ok(rest) => Ok(seq![v] + rest),
                Err(er) => Err(er),
            },
            Err(er) => Err(er),
        }
    }
}

#[via_fn]
proof fn simp_list_decreases(s: Seq<Expr>, f: nat) {
    if s.len() > 0 {
        assert(esize(s[0]) >= 1);
        assert(esize_seq(s) == esize(s[0]) + esize_seq(s.subrange(1, s.len() as int)));
    }
}

/// Combines an already-simplified, sorted, zero-free factor list: the empty
/// product is one, a single factor stands alone, and longer lists fold from
/// the right through `prod_pair` and the sorted merge.
pub open spec fn prod_list(vs: Seq<Expr>, f: nat) -> Result<Expr, UndefinedError>
    decreases f, vs.len(), 0nat,
{
    if f == 0 {
        Err(UndefinedError::DepthExceeded)
    } else if vs.len() == 0 {
        Ok(Expr::Int(1))
    } else if vs.len() == 1 {
        Ok(vs[0])
    } else if vs.len() == 2 {
        prod_pair(vs[1], vs[0], (f - 1) as nat)
    } else {
        match prod_list(vs.subrange(0, vs.len() - 1), f) {
            Ok(rest) => match prod_merge(to_factors(rest), seq![vs[vs.len() - 1]], (f - 1) as nat) {
                Ok(r) => if r.len() == 0 {
                    Ok(Expr::Int(1))
                } else if r.len() == 1 {
                    Ok(r[0])
                } else {
                    Ok(Expr::Prod(r))
                },
                Err(er) => Err(er),
            },
            Err(er) => Err(er),
        }
    }
}

/// Multiplies two simplified expressions. The first matching rule applies:
/// a factor one disappears; numbers fold exactly; like bases combine by
/// adding exponents; products merge; what remains is paired in order.
pub open spec fn prod_pair(u1: Expr, u2: Expr, f: nat) -> Result<Expr, UndefinedError>
    decreases f, 0nat, 0nat,
{
    if f == 0 {
        Err(UndefinedError::DepthExceeded)
    } else if u1 == Expr::Int(1) {
        Ok(u2)
    } else if u2 == Expr::Int(1) {
        Ok(u1)
    } else {
        match (u1, u2) {
            (Expr::Int(n), Expr::Int(m)) => {
                let v = n * m;
                if fits_i32(v) {
                    Ok(Expr::Int(v))
                } else {
                    Err(UndefinedError::Overflow)
                }
            },
            (Expr::Rat(p1, d1), Expr::Rat(p2, d2)) => rat_norm(p1 * p2, d1 * d2),
            (Expr::Int(n), Expr::Rat(p, d)) => rat_norm(p * n, d),
            (Expr::Rat(p, d), Expr::Int(n)) => rat_norm(p * n, d),
            _ => if spec_base(u1) == spec_base(u2) {
                let b = spec_base(u1);
                let e1 = spec_exponent(u1);
                let e2 = spec_exponent(u2);
                match simp_expr(Expr::Sum(seq![e1, e2]), (f - 1) as nat) {
                    Ok(s) => simp_expr(Expr::Pow(Box::new(b), Box::new(s)), (f - 1) as nat),
                    Err(er) => Err(er),
                }
            } else {
                match (u1, u2) {
                    (Expr::Prod(p), Expr::Prod(q)) => match prod_merge(p, q, (f - 1) as nat) {
                        Ok(r) => Ok(Expr::Prod(r)),
                        Err(er) => Err(er),
                    },
                    (Expr::Prod(p), _) => match prod_merge(p, seq![u2], (f - 1) as nat) {
                        Ok(r) => Ok(Expr::Prod(r)),
                        Err(er) => Err(er),
                    },
                    (_, Expr::Prod(q)) => match prod_merge(q, seq![u1], (f - 1) as nat) {
                        Ok(r) => Ok(Expr::Prod(r)),
                        Err(er) => Err(er),
                    },
                    _ => if spec_cmp(u2, u1) is Less {
                        Ok(Expr::Prod(seq![u2, u1]))
                    } else {
                        Ok(Expr::Prod(seq![u1, u2]))
                    },
                }
            },
        }
    }
}

/// Merges two factor lists from their tails, combining like factors and
/// dropping the pairs that cancel to one; order is preserved.
pub open spec fn prod_merge(p: Seq<Expr>, q: Seq<Expr>, f: nat) -> Result<
    Seq<Expr>,
    UndefinedError,
>
    decreases f, p.len() + q.len(), 0nat,
{
    if f == 0 {
        Err(UndefinedError::DepthExceeded)
    } else if p.len() == 0 {
        Ok(q)
    } else if q.len() == 0 {
        Ok(p)
    } else {
        let p1 = p[p.len() - 1];
        let q1 = q[q.len() - 1];
        let pp = p.subrange(0, p.len() - 1);
        let qq = q.subrange(0, q.len() - 1);
        match prod_pair(p1, q1, (f - 1) as nat) {
            Ok(h) => if h == Expr::Int(1) {
                prod_merge(pp, qq, f)
            } else {
                match h {
                    Expr::Prod(hs) => if hs.len() > 0 && hs[0] == p1 && hs[hs.len() - 1] == q1 {
                        match prod_merge(p, qq, f) {
                            Ok(r) => Ok(r.push(q1)),
                            Err(er) => Err(er),
                        }
                    } else {
                        match prod_merge(pp, q, f) {
                            Ok(r) => Ok(r.push(p1)),
                            Err(er) => Err(er),
                        }
                    },
                    _ => match prod_merge(pp, qq, f) {
                        Ok(r) => Ok(r.push(h)),
                        Err(er) => Err(er),
                    },
                }
            },
            Err(er) => Err(er),
        }
    }
}

/// Combines an already-simplified, sorted term list: the empty sum is zero,
/// a single term stands alone, and longer lists fold from the right through
/// `sum_pair` and the sorted merge.
pub open spec fn sum_list(vs: Seq<Expr>, f: nat) -> Result<Expr, UndefinedError>
    decreases f, vs.len(), 0nat,
{
    if f == 0 {
        Err(UndefinedError::DepthExceeded)
    } else if vs.len() == 0 {
        Ok(Expr::Int(0))
    } else if vs.len() == 1 {
        Ok(vs[0])
    } else if vs.len() == 2 {
        sum_pair(vs[1], vs[0], (f - 1) as nat)
    } else {
        match sum_list(vs.subrange(0, vs.len() - 1), f) {
            Ok(rest) => match sum_merge(to_terms(rest), seq![vs[vs.len() - 1]], (f - 1) as nat) {
                Ok(r) => if r.len() == 0 {
                    Ok(Expr::Int(0))
                } else if r.len() == 1 {
                    Ok(r[0])
                } else {
                    Ok(Expr::Sum(r))
                },
                Err(er) => Err(er),
            },
            Err(er) => Err(er),
        }
    }
}

/// Adds two simplified expressions: a zero disappears; numbers fold exactly;
/// like terms combine by adding coefficients; sums merge; what remains is
/// paired in order.
pub open spec fn sum_pair(u1: Expr, u2: Expr, f: nat) -> Result<Expr, UndefinedError>
    decreases f, 0nat, 0nat,
{
    if f == 0 {
        Err(UndefinedError::DepthExceeded)
    } else if u1 == Expr::Int(0) {
        Ok(u2)
    } else if u2 == Expr::Int(0) {
        Ok(u1)
    } else {
        match (u1, u2) {
            (Expr::Int(n), Expr::Int(m)) => {
                let v = n + m;
                if fits_i32(v) {
                    Ok(Expr::Int(v))
                } else {
                    Err(UndefinedError::Overflow)
                }
            },
            (Expr::Rat(p1, d1), Expr::Rat(p2, d2)) => rat_norm(p1 * d2 + p2 * d1, d1 * d2),
            (Expr::Int(n), Expr::Rat(p, d)) => rat_norm(n * d + p, d),
            (Expr::Rat(p, d), Expr::Int(n)) => rat_norm(n * d + p, d),
            _ => if spec_term(u1) == spec_term(u2) {
                let fs1 = to_factors(u1);
                let fs2 = to_factors(u2);
                let c1 = coeff_of_factors(fs1);
                let c2 = coeff_of_factors(fs2);
                match simp_expr(Expr::Sum(seq![c1, c2]), (f - 1) as nat) {
                    Ok(s) => simp_expr(
                        Expr::Prod(term_of_factors(fs1).push(s)),
                        (f - 1) as nat,
                    ),
                    Err(er) => Err(er),
                }
            } else {
                match (u1, u2) {
                    (Expr::Sum(p), Expr::Sum(q)) => match sum_merge(p, q, (f - 1) as nat) {
                        Ok(r) => Ok(Expr::Sum(r)),
                        Err(er) => Err(er),
                    },
                    (Expr::Sum(p), _) => match sum_merge(p, seq![u2], (f - 1) as nat) {
                        Ok(r) => Ok(Expr::Sum(r)),
                        Err(er) => Err(er),
                    },
                    (_, Expr::Sum(q)) => match sum_merge(q, seq![u1], (f - 1) as nat) {
                        Ok(r) => Ok(Expr::Sum(r)),
                        Err(er) => Err(er),
                    },
                    _ => if spec_cmp(u2, u1) is Less {
                        Ok(Expr::Sum(seq![u2, u1]))
                    } else {
                        Ok(Expr::Sum(seq![u1, u2]))
                    },
                }
            },
        }
    }
}

/// Merges two term lists from their tails, combining like terms and dropping
/// the pairs that cancel to zero; order is preserved.
pub open spec fn sum_merge(p: Seq<Expr>, q: Seq<Expr>, f: nat) -> Result<Seq<Expr>, UndefinedError>
    decreases f, p.len() + q.len(), 0nat,
{
    if f == 0 {
        Err(UndefinedError::DepthExceeded)
    } else if p.len() == 0 {
        Ok(q)
    } else if q.len() == 0 {
        Ok(p)
    } else {
        let p1 = p[p.len() - 1];
        let q1 = q[q.len() - 1];
        let pp = p.subrange(0, p.len() - 1);
        let qq = q.subrange(0, q.len() - 1);
        match sum_pair(p1, q1, (f - 1) as nat) {
            Ok(h) => if h == Expr::Int(0) {
                sum_merge(pp, qq, f)
            } else {
                match h {
                    Expr::Sum(hs) => if hs.len() > 0 && hs[0] == p1 && hs[hs.len() - 1] == q1 {
                        match sum_merge(p, qq, f) {
                            Ok(r) => Ok(r.push(q1)),
                            Err(er) => Err(er),
                        }
                    } else {
                        match sum_merge(pp, q, f) {
                            Ok(r) => Ok(r.push(p1)),
                            Err(er) => Err(er),
                        }
                    },
                    _ => match sum_merge(pp, qq, f) {
                        Ok(r) => Ok(r.push(h)),
                        Err(er) => Err(er),
                    },
                }
            },
            Err(er) => Err(er),
        }
    }
}

/// Raises one simplified expression to another: an integer base with a
/// rational exponent extracts radicals; an integer base otherwise folds
/// through `pow_int_base`; an integer exponent distributes and folds through
/// `pow_int_exp`; a rational base distributes over numerator and denominator;
/// everything else stands as a power.
pub open spec fn pow_pair(v: Expr, w: Expr, f: nat) -> Result<Expr, UndefinedError>
    decreases f, esize(v) + 1, 0nat,
{
    if f == 0 {
        Err(UndefinedError::DepthExceeded)
    } else {
        match (v, w) {
            (Expr::Int(n), Expr::Rat(p, q)) => pow_radical(n, p, q, f),
            (Expr::Int(n), _) => pow_int_base(n, w),
            (_, Expr::Int(n)) => pow_int_exp(v, n, f),
            (Expr::Rat(a, b), _) => simp_expr(
                Expr::Prod(
                    seq![
                        Expr::Pow(Box::new(Expr::Int(a)), Box::new(w)),
                        Expr::Pow(Box::new(Expr::Int(b)), Box::new(neg_of(w))),
                    ],
                ),
                (f - 1) as nat,
            ),
            _ => Ok(Expr::Pow(Box::new(v), Box::new(w))),
        }
    }
}

/// An integer base under an arbitrary exponent: zero survives only a
/// positive numeric exponent; one and minus one absorb any exponent; an
/// integer exponent folds exactly, a negative one through a reciprocal.
pub open spec fn pow_int_base(n: int, w: Expr) -> Result<Expr, UndefinedError> {
    if n == 0 {
        match w {
            Expr::Int(m) => if m > 0 {
                Ok(Expr::Int(0))
            } else {
                Err(UndefinedError::IndeterminateZeroPowerZero)
            },
            Expr::Rat(p, q) => if p * q > 0 {
                Ok(Expr::Int(0))
            } else {
                Err(UndefinedError::IndeterminateZeroPowerZero)
            },
            _ => Err(UndefinedError::IndeterminateZeroPowerZero),
        }
    } else if n == 1 || n == -1 {
        Ok(Expr::Int(n))
    } else {
        match w {
            Expr::Int(m) => if m < 0 {
                match pow_step(n, abs_int(m)) {
                    Ok(v) => rat_norm(1, v),
                    Err(er) => Err(er),
                }
            } else {
                match pow_step(n, m as nat) {
                    Ok(v) => Ok(Expr::Int(v)),
                    Err(er) => Err(er),
                }
            },
            _ => Ok(Expr::Pow(Box::new(Expr::Int(n)), Box::new(w))),
        }
    }
}

/// An arbitrary simplified base under an integer exponent: zero and one
/// exponents collapse; a rational base folds; a power multiplies exponents
/// and folds again when that stays integral; a product distributes the
/// exponent over its factors.
pub open spec fn pow_int_exp(v: Expr, n: int, f: nat) -> Result<Expr, UndefinedError>
    decreases f, esize(v), 0nat,
{
    if f == 0 {
        Err(UndefinedError::DepthExceeded)
    } else if n == 0 {
        Ok(Expr::Int(1))
    } else if n == 1 {
        Ok(v)
    } else {
        match v {
            Expr::Rat(a, b) => if n < 0 {
                match pow_step(b, abs_int(n)) {
                    Ok(pb) => match pow_step(a, abs_int(n)) {
                        Ok(pa) => rat_norm(pb, pa),
                        Err(er) => Err(er),
                    },
                    Err(er) => Err(er),
                }
            } else {
                match pow_step(a, n as nat) {
                    Ok(pa) => match pow_step(b, n as nat) {
                        Ok(pb) => rat_norm(pa, pb),
                        Err(er) => Err(er),
                    },
                    Err(er) => Err(er),
                }
            },
            Expr::Pow(b2, e2) => match simp_expr(
                Expr::Prod(seq![*e2, Expr::Int(n)]),
                (f - 1) as nat,
            ) {
                Ok(u) => match u {
                    Expr::Int(m) => pow_int_exp(*b2, m, f),
                    _ => Ok(Expr::Pow(b2, Box::new(u))),
                },
                Err(er) => Err(er),
            },
            Expr::Prod(fs) => match pow_int_exp_list(fs, n, f) {
                Ok(rs) => simp_expr(Expr::Prod(rs), (f - 1) as nat),
                Err(er) => Err(er),
            },
            _ => Ok(Expr::Pow(Box::new(v), Box::new(Expr::Int(n)))),
        }
    }
}

/// Distributes an integer exponent over each factor in order, stopping at
/// the first error.
pub open spec fn pow_int_exp_list(s: Seq<Expr>, n: int, f: nat) -> Result<
    Seq<Expr>,
    UndefinedError,
>
    decreases f, esize_seq(s), 1nat,
    via pow_int_exp_list_decreases
{
    if s.len() == 0 {
        Ok(Seq::empty())
    } else {
        match pow_int_exp(s[0], n, f) {
            Ok(v) => match pow_int_exp_list(s.subrange(1, s.len() as int), n, f) {
                Ok(rest) => Ok(seq![v] + rest),
                Err(er) => Err(er),
            },
            Err(er) => Err(er),
        }
    }
}

#[via_fn]
proof fn pow_int_exp_list_decreases(s: Seq<Expr>, n: int, f: nat) {
    if s.len() > 0 {
        assert(esize(s[0]) >= 1);
        assert(esize_seq(s) == esize(s[0]) + esize_seq(s.subrange(1, s.len() as int)));
    }
}

/// Radical extraction for an integer base under a rational exponent: an even
/// root of a negative fails; otherwise every perfect `q`-th power is divided
/// out, the extracted part is raised to the numerator exactly, and what
/// stays inside keeps the root.
pub open spec fn pow_radical(n: int, p: int, q: int, f: nat) -> Result<Expr, UndefinedError>
    decreases f, 0nat, 0nat,
{
    if f == 0 {
        Err(UndefinedError::DepthExceeded)
    } else if q % 2 == 0 && n < 0 {
        Err(UndefinedError::EvenRootOfNegative)
    } else {
        let scanned = radical_scan(n, 1, 2, abs_int(q));
        let inside = scanned.0;
        let outside = scanned.1;
        match pow_int_base(outside, Expr::Int(p)) {
            Ok(o) => match pow_int_base(inside, Expr::Int(p)) {
                Ok(inner) => prod_pair(
                    o,
                    Expr::Pow(Box::new(inner), Box::new(Expr::Rat(1, q))),
                    (f - 1) as nat,
                ),
                Err(er) => Err(er),
            },
            Err(er) => Err(er),
        }
    }
}

/// Applies a named function to its simplified argument.
pub open spec fn func_apply(k: FuncKind, u: Expr, f: nat) -> Result<Expr, UndefinedError>
    decreases f, 0nat, 1nat,
{
    if f == 0 {
        Err(UndefinedError::DepthExceeded)
    } else {
        match k {
            FuncKind::Sqrt => match simp_expr(
                Expr::Pow(Box::new(u), Box::new(Expr::Rat(1, 2))),
                (f - 1) as nat,
            ) {
                Ok(v) => match v {
                    Expr::Pow(b, e) => if *e == Expr::Rat(1, 2) {
                        Ok(Expr::Func(FuncKind::Sqrt, b))
                    } else {
                        Ok(Expr::Pow(b, e))
                    },
                    _ => Ok(v),
                },
                Err(er) => Err(er),
            },
            FuncKind::Cbrt => match simp_expr(
                Expr::Pow(Box::new(u), Box::new(Expr::Rat(1, 3))),
                (f - 1) as nat,
            ) {
                Ok(v) => match v {
                    Expr::Pow(b, e) => if *e == Expr::Rat(1, 3) {
                        Ok(Expr::Func(FuncKind::Cbrt, b))
                    } else {
                        Ok(Expr::Pow(b, e))
                    },
                    _ => Ok(v),
                },
                Err(er) => Err(er),
            },
            FuncKind::Log => func_log(u, f),
            FuncKind::Ln => func_ln(u, f),
            FuncKind::Other(name) => Ok(Expr::Func(FuncKind::Other(name), Box::new(u))),
        }
    }
}

/// The base-ten logarithm rules: a power pulls its exponent out, a product
/// becomes a sum of logarithms, a rational subtracts, a non-positive integer
/// fails, a perfect power of ten evaluates, and anything else stays symbolic.
pub open spec fn func_log(u: Expr, f: nat) -> Result<Expr, UndefinedError>
    decreases f, 0nat, 0nat,
{
    if f == 0 {
        Err(UndefinedError::DepthExceeded)
    } else {
        match u {
            Expr::Pow(b, e) => simp_expr(
                Expr::Prod(seq![*e, Expr::Func(FuncKind::Log, b)]),
                (f - 1) as nat,
            ),
            Expr::Prod(fs) => simp_expr(
                Expr::Sum(fs.map_values(|x: Expr| Expr::Func(FuncKind::Log, Box::new(x)))),
                (f - 1) as nat,
            ),
            Expr::Rat(p, q) => simp_expr(
                Expr::Sum(
                    seq![
                        Expr::Func(FuncKind::Log, Box::new(Expr::Int(p))),
                        neg_of(Expr::Func(FuncKind::Log, Box::new(Expr::Int(q)))),
                    ],
                ),
                (f - 1) as nat,
            ),
            Expr::Int(n) => if n <= 0 {
                Err(UndefinedError::NonPositiveLogarithm)
            } else {
                let scanned = log_scan(n, 1, 0);
                if scanned.0 == n {
                    Ok(Expr::Int(scanned.1))
                } else {
                    Ok(Expr::Func(FuncKind::Log, Box::new(u)))
                }
            },
            _ => Ok(Expr::Func(FuncKind::Log, Box::new(u))),
        }
    }
}

/// The natural logarithm rules: as for the base-ten logarithm, but the
/// variable `e` gives one, the integer one gives zero, and no power of a
/// base is detected.
pub open spec fn func_ln(u: Expr, f: nat) -> Result<Expr, UndefinedError>
    decreases f, 0nat, 0nat,
{
    if f == 0 {
        Err(UndefinedError::DepthExceeded)
    } else {
        match u {
            Expr::Pow(b, e) => simp_expr(
                Expr::Prod(seq![*e, Expr::Func(FuncKind::Ln, b)]),
                (f - 1) as nat,
            ),
            Expr::Prod(fs) => simp_expr(
                Expr::Sum(fs.map_values(|x: Expr| Expr::Func(FuncKind::Ln, Box::new(x)))),
                (f - 1) as nat,
            ),
            Expr::Rat(p, q) => simp_expr(
                Expr::Sum(
                    seq![
                        Expr::Func(FuncKind::Ln, Box::new(Expr::Int(p))),
                        neg_of(Expr::Func(FuncKind::Ln, Box::new(Expr::Int(q)))),
                    ],
                ),
                (f - 1) as nat,
            ),
            Expr::Var(name) => if name == "e"@ {
                Ok(Expr::Int(1))
            } else {
                Ok(Expr::Func(FuncKind::Ln, Box::new(u)))
            },
            Expr::Int(n) => if n == 1 {
                Ok(Expr::Int(0))
            } else if n <= 0 {
                Err(UndefinedError::NonPositiveLogarithm)
            } else {
                Ok(Expr::Func(FuncKind::Ln, Box::new(u)))
            },
            _ => Ok(Expr::Func(FuncKind::Ln, Box::new(u))),
        }
    }
}

} // verus!
