use vstd::prelude::*;

use crate::arith::{
    abs_int, fits_i32, gcd_nat, lemma_abs_mod, lemma_gcd_coprime, lemma_gcd_divides,
    lemma_gcd_greatest, lemma_gcd_pos, pow_int,
};
use crate::ast::Expr;
use crate::errors::UndefinedError;
use crate::model::{
    prod_list, prod_merge, prod_pair, rat_norm, simp_expr, simp_list, sum_list, sum_merge,
    sum_pair,
};
use crate::order::{insert_sorted, sort_exprs};

verus! {

/// Whether every element of a sequence is a numeric leaf.
pub open spec fn all_numeric(s: Seq<Expr>) -> bool {
    forall|i: int| 0 <= i < s.len() ==> s[i].is_numeric()
}

/// Folding a numerator over a denominator gives a numeric leaf, or one of
/// the two arithmetic errors; it never runs out of depth.
pub proof fn lemma_rat_norm_numeric(p: int, q: int)
    ensures
        match rat_norm(p, q) {
            Ok(e) => e.is_numeric(),
            Err(er) => er == UndefinedError::DivisionByZero || er == UndefinedError::Overflow,
        },
{
}

/// The product of two numeric leaves folds to a numeric leaf, or fails with
/// an arithmetic error; depth is never the obstacle.
pub proof fn lemma_prod_pair_numeric(u1: Expr, u2: Expr, f: nat)
    requires
        u1.is_numeric(),
        u2.is_numeric(),
        f >= 1,
    ensures
        match prod_pair(u1, u2, f) {
            Ok(e) => e.is_numeric(),
            Err(er) => er != UndefinedError::DepthExceeded,
        },
{
    match (u1, u2) {
        (Expr::Int(_), Expr::Int(_)) => {},
        (Expr::Rat(p1, d1), Expr::Rat(p2, d2)) => {
            lemma_rat_norm_numeric(p1 * p2, d1 * d2);
        },
        (Expr::Int(n), Expr::Rat(p, d)) => {
            lemma_rat_norm_numeric(p * n, d);
        },
        (Expr::Rat(p, d), Expr::Int(n)) => {
            lemma_rat_norm_numeric(p * n, d);
        },
        _ => {},
    }
}

/// The sum of two numeric leaves folds to a numeric leaf, or fails with an
/// arithmetic error; depth is never the obstacle.
pub proof fn lemma_sum_pair_numeric(u1: Expr, u2: Expr, f: nat)
    requires
        u1.is_numeric(),
        u2.is_numeric(),
        f >= 1,
    ensures
        match sum_pair(u1, u2, f) {
            Ok(e) => e.is_numeric(),
            Err(er) => er != UndefinedError::DepthExceeded,
        },
{
    match (u1, u2) {
        (Expr::Int(_), Expr::Int(_)) => {},
        (Expr::Rat(p1, d1), Expr::Rat(p2, d2)) => {
            lemma_rat_norm_numeric(p1 * d2 + p2 * d1, d1 * d2);
        },
        (Expr::Int(n), Expr::Rat(p, d)) => {
            lemma_rat_norm_numeric(n * d + p, d);
        },
        (Expr::Rat(p, d), Expr::Int(n)) => {
            lemma_rat_norm_numeric(n * d + p, d);
        },
        _ => {},
    }
}

/// Merging two singleton numeric factor lists leaves at most one numeric
/// factor.
pub proof fn lemma_prod_merge_single_numeric(x: Expr, y: Expr, f: nat)
    requires
        x.is_numeric(),
        y.is_numeric(),
        f >= 2,
    ensures
        match prod_merge(seq![x], seq![y], f) {
            Ok(r) => all_numeric(r) && r.len() <= 1,
            Err(er) => er != UndefinedError::DepthExceeded,
        },
{
    let p = seq![x];
    let q = seq![y];
    assert(p[p.len() - 1] == x);
    assert(q[q.len() - 1] == y);
    lemma_prod_pair_numeric(x, y, (f - 1) as nat);
    match prod_pair(x, y, (f - 1) as nat) {
        Ok(h) => {
            assert(p.subrange(0, 0) =~= Seq::<Expr>::empty());
            assert(q.subrange(0, 0) =~= Seq::<Expr>::empty());
            if h == Expr::Int(1) {
                assert(prod_merge(Seq::<Expr>::empty(), Seq::<Expr>::empty(), f) == Ok::<
                    Seq<Expr>,
                    UndefinedError,
                >(Seq::<Expr>::empty()));
            } else {
                assert(!(h is Prod));
                assert(prod_merge(Seq::<Expr>::empty(), Seq::<Expr>::empty(), f) == Ok::<
                    Seq<Expr>,
                    UndefinedError,
                >(Seq::<Expr>::empty()));
                assert(Seq::<Expr>::empty().push(h) =~= seq![h]);
            }
        },
        Err(_) => {},
    }
}

/// Merging two singleton numeric term lists leaves at most one numeric term.
pub proof fn lemma_sum_merge_single_numeric(x: Expr, y: Expr, f: nat)
    requires
        x.is_numeric(),
        y.is_numeric(),
        f >= 2,
    ensures
        match sum_merge(seq![x], seq![y], f) {
            Ok(r) => all_numeric(r) && r.len() <= 1,
            Err(er) => er != UndefinedError::DepthExceeded,
        },
{
    let p = seq![x];
    let q = seq![y];
    assert(p[p.len() - 1] == x);
    assert(q[q.len() - 1] == y);
    lemma_sum_pair_numeric(x, y, (f - 1) as nat);
    match sum_pair(x, y, (f - 1) as nat) {
        Ok(h) => {
            assert(p.subrange(0, 0) =~= Seq::<Expr>::empty());
            assert(q.subrange(0, 0) =~= Seq::<Expr>::empty());
            if h == Expr::Int(0) {
                assert(sum_merge(Seq::<Expr>::empty(), Seq::<Expr>::empty(), f) == Ok::<
                    Seq<Expr>,
                    UndefinedError,
                >(Seq::<Expr>::empty()));
            } else {
                assert(!(h is Sum));
                assert(sum_merge(Seq::<Expr>::empty(), Seq::<Expr>::empty(), f) == Ok::<
                    Seq<Expr>,
                    UndefinedError,
                >(Seq::<Expr>::empty()));
                assert(Seq::<Expr>::empty().push(h) =~= seq![h]);
            }
        },
        Err(_) => {},
    }
}

/// Folding a list of numeric factors gives a single numeric leaf, or fails
/// with an arithmetic error; depth is never the obstacle.
pub proof fn lemma_prod_list_numeric(vs: Seq<Expr>, f: nat)
    requires
        all_numeric(vs),
        f >= 3,
    ensures
        match prod_list(vs, f) {
            Ok(e) => e.is_numeric(),
            Err(er) => er != UndefinedError::DepthExceeded,
        },
    decreases vs.len(),
{
    if vs.len() == 2 {
        lemma_prod_pair_numeric(vs[1], vs[0], (f - 1) as nat);
    } else if vs.len() > 2 {
        let prefix = vs.subrange(0, vs.len() - 1);
        lemma_prod_list_numeric(prefix, f);
        match prod_list(prefix, f) {
            Ok(rest) => {
                assert(crate::ast::to_factors(rest) =~= seq![rest]);
                lemma_prod_merge_single_numeric(rest, vs[vs.len() - 1], (f - 1) as nat);
            },
            Err(_) => {},
        }
    }
}

/// Folding a list of numeric terms gives a single numeric leaf, or fails
/// with an arithmetic error; depth is never the obstacle.
pub proof fn lemma_sum_list_numeric(vs: Seq<Expr>, f: nat)
    requires
        all_numeric(vs),
        f >= 3,
    ensures
        match sum_list(vs, f) {
            Ok(e) => e.is_numeric(),
            Err(er) => er != UndefinedError::DepthExceeded,
        },
    decreases vs.len(),
{
    if vs.len() == 2 {
        lemma_sum_pair_numeric(vs[1], vs[0], (f - 1) as nat);
    } else if vs.len() > 2 {
        let prefix = vs.subrange(0, vs.len() - 1);
        lemma_sum_list_numeric(prefix, f);
        match sum_list(prefix, f) {
            Ok(rest) => {
                assert(crate::ast::to_terms(rest) =~= seq![rest]);
                lemma_sum_merge_single_numeric(rest, vs[vs.len() - 1], (f - 1) as nat);
            },
            Err(_) => {},
        }
    }
}

/// Simplifying numeric children keeps them numeric, and keeps their count.
pub proof fn lemma_simp_list_numeric(s: Seq<Expr>, f: nat)
    requires
        all_numeric(s),
        f >= 1,
    ensures
        match simp_list(s, f) {
            Ok(vs) => all_numeric(vs) && vs.len() == s.len(),
            Err(er) => er != UndefinedError::DepthExceeded,
        },
    decreases s.len(),
{
    if s.len() > 0 {
        match s[0] {
            Expr::Rat(p, q) => {
                lemma_rat_norm_numeric(p, q);
            },
            _ => {},
        }
        let rest = s.subrange(1, s.len() as int);
        lemma_simp_list_numeric(rest, f);
        match simp_expr(s[0], f) {
            Ok(v) => {
                match simp_list(rest, f) {
                    Ok(tail) => {
                        let whole = seq![v] + tail;
                        assert(all_numeric(whole)) by {
                            assert(forall|i: int|
                                0 <= i < whole.len() ==> #[trigger] whole[i] == if i == 0 {
                                    v
                                } else {
                                    tail[i - 1]
                                });
                        }
                    },
                    Err(_) => {},
                }
            },
            Err(_) => {},
        }
    }
}

/// Inserting a numeric leaf into a numeric sequence keeps every element
/// numeric and grows the length by one.
pub proof fn lemma_insert_sorted_numeric(x: Expr, s: Seq<Expr>)
    requires
        x.is_numeric(),
        all_numeric(s),
    ensures
        all_numeric(insert_sorted(x, s)),
        insert_sorted(x, s).len() == s.len() + 1,
    decreases s.len(),
{
    if s.len() > 0 && !(crate::order::spec_cmp(x, s[0]) is Less) {
        let rest = s.subrange(1, s.len() as int);
        lemma_insert_sorted_numeric(x, rest);
        let inner = insert_sorted(x, rest);
        assert(all_numeric(seq![s[0]] + inner)) by {
            assert(forall|i: int|
                0 <= i < (seq![s[0]] + inner).len() ==> #[trigger] (seq![s[0]] + inner)[i]
                    == if i == 0 {
                    s[0]
                } else {
                    inner[i - 1]
                });
        }
    }
}

/// Sorting a numeric sequence keeps every element numeric and the length.
pub proof fn lemma_sort_numeric(s: Seq<Expr>)
    requires
        all_numeric(s),
    ensures
        all_numeric(sort_exprs(s)),
        sort_exprs(s).len() == s.len(),
    decreases s.len(),
{
    if s.len() > 0 {
        let prefix = s.subrange(0, s.len() - 1);
        lemma_sort_numeric(prefix);
        lemma_insert_sorted_numeric(s[s.len() - 1], sort_exprs(prefix));
    }
}

/// Numeric folding, the product side: a product whose children are all
/// numeric simplifies to a single integer or rational, or fails with an
/// arithmetic error; the rewriting depth is never the obstacle once four
/// layers are available.
pub proof fn lemma_numeric_product_folds(fs: Seq<Expr>, f: nat)
    requires
        all_numeric(fs),
        f >= 4,
    ensures
        match simp_expr(Expr::Prod(fs), f) {
            Ok(e) => e.is_numeric(),
            Err(er) => er != UndefinedError::DepthExceeded,
        },
{
    lemma_simp_list_numeric(fs, f);
    match simp_list(fs, f) {
        Ok(vs) => {
            lemma_sort_numeric(vs);
            if !sort_exprs(vs).contains(Expr::Int(0)) {
                lemma_prod_list_numeric(sort_exprs(vs), (f - 1) as nat);
            }
        },
        Err(_) => {},
    }
}

/// Numeric folding, the sum side: a sum whose children are all numeric
/// simplifies to a single integer or rational, or fails with an arithmetic
/// error; the rewriting depth is never the obstacle once four layers are
/// available.
pub proof fn lemma_numeric_sum_folds(ts: Seq<Expr>, f: nat)
    requires
        all_numeric(ts),
        f >= 4,
    ensures
        match simp_expr(Expr::Sum(ts), f) {
            Ok(e) => e.is_numeric(),
            Err(er) => er != UndefinedError::DepthExceeded,
        },
{
    lemma_simp_list_numeric(ts, f);
    match simp_list(ts, f) {
        Ok(vs) => {
            lemma_sort_numeric(vs);
            lemma_sum_list_numeric(sort_exprs(vs), (f - 1) as nat);
        },
        Err(_) => {},
    }
}

/// Well-formedness of the numeric leaves: a rational that simplification
/// returns is in lowest terms, with a denominator of at least two that does
/// not divide the numerator, and both parts fit the machine word; an integer
/// it returns fits the machine word; nothing but a numeric leaf comes back
/// from folding a numerator over a denominator.
pub proof fn lemma_rat_norm_canonical(p: int, q: int)
    ensures
        match rat_norm(p, q) {
            Ok(e) => match e {
                Expr::Int(v) => fits_i32(v),
                Expr::Rat(a, b) => fits_i32(a) && fits_i32(b) && 2 <= b && a % b != 0
                    && gcd_nat(abs_int(a), abs_int(b)) == 1,
                _ => false,
            },
            Err(_) => true,
        },
{
    if q != 0 {
        let ap = abs_int(p);
        let aq = abs_int(q);
        if ap % aq != 0 {
            let g = gcd_nat(ap, aq);
            lemma_gcd_pos(ap, aq);
            lemma_gcd_divides(ap, aq);
            lemma_gcd_coprime(ap, aq);
            let na = ap / g;
            let nb = aq / g;
            vstd::arithmetic::div_mod::lemma_fundamental_div_mod(ap as int, g as int);
            vstd::arithmetic::div_mod::lemma_fundamental_div_mod(aq as int, g as int);
            assert(ap as int == g * na);
            assert(aq as int == g * nb);
            // the denominator cannot collapse to one: the division was not exact
            if nb == 1 {
                assert(aq as int == g * 1);
                assert(ap % aq == 0);
                assert(false);
            }
            if nb == 0 {
                assert(g * 0 == 0) by (nonlinear_arith);
                assert(false);
            }
            let final_num: int = if (p < 0) != (q < 0) {
                -(na as int)
            } else {
                na as int
            };
            if rat_norm(p, q) is Ok {
                assert(abs_int(final_num) == na);
                // the denominator does not divide the numerator
                if final_num % (nb as int) == 0 {
                    lemma_abs_mod(final_num, nb as int);
                    assert(na % nb == 0);
                    lemma_gcd_greatest(na, nb, nb);
                    vstd::arithmetic::div_mod::lemma_mod_self_0(nb as int);
                    assert(gcd_nat(na, nb) % nb == 0);
                    assert(1nat % nb == 1) by {
                        vstd::arithmetic::div_mod::lemma_small_mod(1nat, nb);
                    }
                    assert(false);
                }
            }
        }
    }
}

/// Idempotence on the numeric leaves: whatever normal form the fold of a
/// numerator over a denominator returns, folding it again returns the same
/// value unchanged.
pub proof fn lemma_rat_norm_idempotent(p: int, q: int)
    ensures
        match rat_norm(p, q) {
            Ok(e) => match e {
                Expr::Rat(a, b) => rat_norm(a, b) == Ok::<Expr, UndefinedError>(Expr::Rat(a, b)),
                _ => true,
            },
            Err(_) => true,
        },
{
    lemma_rat_norm_canonical(p, q);
    if rat_norm(p, q) is Ok {
        match rat_norm(p, q) {
            Ok(e) => match e {
                Expr::Rat(a, b) => {
                    let aa = abs_int(a);
                    let ab = abs_int(b);
                    lemma_abs_mod(a, b);
                    assert(aa % ab != 0);
                    assert(gcd_nat(aa, ab) == 1);
                    lemma_gcd_pos(aa, ab);
                    vstd::arithmetic::div_mod::lemma_fundamental_div_mod(aa as int, 1int);
                    assert(aa as int / 1int == aa as int);
                    assert(ab as int / 1int == ab as int);
                    assert(aa / 1nat == aa);
                    assert(ab / 1nat == ab);
                },
                _ => {},
            },
            Err(_) => {},
        }
    }
}

/// Idempotence on simplified numeric leaves and variables: simplifying what
/// a numeric fold returned, or an integer or a variable, gives it back
/// unchanged.
pub proof fn lemma_simplify_idempotent_leaves(e: Expr, f: nat)
    requires
        f >= 1,
    ensures
        e is Int ==> simp_expr(e, f) == Ok::<Expr, UndefinedError>(e),
        e is Var ==> simp_expr(e, f) == Ok::<Expr, UndefinedError>(e),
        match e {
            Expr::Rat(p, q) => match rat_norm(p, q) {
                Ok(s) => simp_expr(s, f) == Ok::<Expr, UndefinedError>(s),
                Err(_) => true,
            },
            _ => true,
        },
{
    match e {
        Expr::Rat(p, q) => {
            lemma_rat_norm_idempotent(p, q);
            match rat_norm(p, q) {
                Ok(s) => {
                    match s {
                        Expr::Rat(a, b) => {
                            assert(simp_expr(s, f) == rat_norm(a, b));
                        },
                        _ => {},
                    }
                },
                Err(_) => {},
            }
        },
        _ => {},
    }
}

/// The running invariant of the trial-division scan: the extracted part to
/// the root's power, times what stays inside, is what the scan started with;
/// and every divisor already tried fails to divide what is inside.
pub proof fn lemma_radical_scan_invariant(inside: int, outside: int, d: int, q: nat)
    requires
        q >= 1,
        d >= 2,
        outside >= 1,
        forall|d2: int| 2 <= d2 < d ==> inside % pow_int(d2, q) != 0,
    ensures
        ({
            let scanned = crate::arith::radical_scan(inside, outside, d, q);
            &&& pow_int(scanned.1, q) * scanned.0 == pow_int(outside, q) * inside
            &&& scanned.1 >= 1
            &&& forall|d2: int|
                2 <= d2 && pow_int(d2, q) <= abs_int(scanned.0) ==> scanned.0 % pow_int(d2, q)
                    != 0
        }),
    decreases abs_int(inside),
        (if d <= abs_int(inside) + 1 {
            abs_int(inside) + 1 - d
        } else {
            0int
        }),
{
    let e = pow_int(d, q);
    crate::arith::lemma_pow_int_ge_base(d, q);
    if d <= abs_int(inside) && e <= abs_int(inside) {
        if inside % e == 0 {
            let t = inside / e;
            vstd::arithmetic::div_mod::lemma_fundamental_div_mod(inside, e);
            assert(inside == e * t);
            assert(t != 0) by {
                if t == 0 {
                    assert(e * t == 0) by (nonlinear_arith)
                        requires
                            t == 0,
                    ;
                }
            }
            if t > 0 {
                assert(e * t > t) by (nonlinear_arith)
                    requires
                        e >= 2,
                        t >= 1,
                ;
            } else {
                assert(e * t < t) by (nonlinear_arith)
                    requires
                        e >= 2,
                        t <= -1,
                ;
            }
            assert(abs_int(t) < abs_int(inside));
            // divisors below d still fail on the quotient
            assert forall|d2: int| 2 <= d2 < d implies t % pow_int(d2, q) != 0 by {
                let e2 = pow_int(d2, q);
                crate::arith::lemma_pow_int_ge_base(d2, q);
                if t % e2 == 0 {
                    crate::arith::lemma_divides_product(e2, t, e);
                    assert(t * e == inside) by (nonlinear_arith)
                        requires
                            inside == e * t,
                    ;
                }
            }
            assert(outside * d >= 1) by (nonlinear_arith)
                requires
                    outside >= 1,
                    d >= 2,
            ;
            lemma_radical_scan_invariant(t, outside * d, d, q);
            let scanned = crate::arith::radical_scan(t, outside * d, d, q);
            crate::arith::lemma_pow_int_mul(outside, d, q);
            assert(pow_int(scanned.1, q) * scanned.0 == (pow_int(outside, q) * pow_int(d, q)) * t);
            assert((pow_int(outside, q) * pow_int(d, q)) * t == pow_int(outside, q) * (e * t))
                by (nonlinear_arith)
                requires
                    e == pow_int(d, q),
            ;
        } else {
            lemma_radical_scan_invariant(inside, outside, d + 1, q);
        }
    } else {
        // the scan stops here; no divisor from d upward can apply
        assert forall|d2: int|
            2 <= d2 && pow_int(d2, q) <= abs_int(inside) implies inside % pow_int(d2, q) != 0 by {
            if d2 >= d {
                crate::arith::lemma_pow_int_ge_base(d2, q);
                if d > abs_int(inside) {
                    assert(pow_int(d2, q) >= d2 >= d > abs_int(inside));
                } else {
                    crate::arith::lemma_pow_int_base_le(d, d2, q);
                    assert(pow_int(d2, q) >= pow_int(d, q) > abs_int(inside));
                }
            }
        }
    }
}

/// Radical factoring: for an integer under a `q`-th root, the scan splits it
/// into an extracted part and what stays inside, their recombination gives
/// the integer back, and no perfect `q`-th power above one divides what
/// stays inside.
pub proof fn lemma_radical_factoring(n: int, q: nat)
    requires
        q >= 1,
    ensures
        ({
            let scanned = crate::arith::radical_scan(n, 1, 2, q);
            &&& pow_int(scanned.1, q) * scanned.0 == n
            &&& scanned.1 >= 1
            &&& forall|d: int|
                2 <= d && pow_int(d, q) <= abs_int(scanned.0) ==> scanned.0 % pow_int(d, q) != 0
        }),
{
    lemma_radical_scan_invariant(n, 1, 2, q);
    crate::arith::lemma_pow_int_one(q);
}

} // verus!
