use vstd::prelude::*;

use core::cmp::Ordering;

use crate::ast::{esize, esize_seq, lemma_esize_seq_elem, lemma_esize_singleton, Expr};
use crate::display::spec_disp;
use crate::expression::{expr_eq, lemma_views_of, view_of, views_of, Expression};
use crate::strings::{cmp_str, str_cmp};
use crate::types::Integer;

verus! {

/// Numeric order, as an `Ordering`.
pub open spec fn cmp_int(a: int, b: int) -> Ordering {
    if a < b {
        Ordering::Less
    } else if a == b {
        Ordering::Equal
    } else {
        Ordering::Greater
    }
}

/// The total order the simplifier sorts children by. Numbers come first, in
/// numeric order; products and sums compare lexicographically, a lone
/// expression standing for its own singleton; powers compare by base and
/// then exponent, a lone expression standing for itself to the first power;
/// functions and variables compare by their printed forms.
pub open spec fn spec_cmp(a: Expr, b: Expr) -> Ordering
    decreases esize(a) + esize(b), 0nat,
    via spec_cmp_decreases
{
    match (a, b) {
        (Expr::Int(n), Expr::Int(m)) => cmp_int(n, m),
        (Expr::Int(_), _) => Ordering::Less,
        (_, Expr::Int(_)) => Ordering::Greater,
        (Expr::Rat(p1, q1), Expr::Rat(p2, q2)) => cmp_int(p1 * q2, q1 * p2),
        (Expr::Rat(_, _), _) => Ordering::Less,
        (_, Expr::Rat(_, _)) => Ordering::Greater,
        (Expr::Prod(fs), Expr::Prod(gs)) => cmp_seq(fs, gs),
        (Expr::Prod(fs), _) => cmp_seq(fs, seq![b]),
        (_, Expr::Prod(gs)) => cmp_seq(seq![a], gs),
        (Expr::Pow(b1, e1), Expr::Pow(b2, e2)) => if *b1 != *b2 {
            spec_cmp(*b1, *b2)
        } else {
            spec_cmp(*e1, *e2)
        },
        (Expr::Pow(b1, e1), _) => if *b1 != b {
            spec_cmp(*b1, b)
        } else {
            spec_cmp(*e1, Expr::Int(1))
        },
        (_, Expr::Pow(b2, e2)) => if a != *b2 {
            spec_cmp(a, *b2)
        } else {
            spec_cmp(Expr::Int(1), *e2)
        },
        (Expr::Sum(ts), Expr::Sum(us)) => cmp_seq(ts, us),
        (Expr::Sum(ts), _) => cmp_seq(ts, seq![b]),
        (_, Expr::Sum(us)) => cmp_seq(seq![a], us),
        (Expr::Func(_, _), Expr::Func(_, _)) => str_cmp(spec_disp(a), spec_disp(b)),
        (Expr::Func(_, _), Expr::Var(w)) => str_cmp(spec_disp(a), w),
        (Expr::Var(v), Expr::Func(_, _)) => str_cmp(v, spec_disp(b)),
        (Expr::Var(v), Expr::Var(w)) => str_cmp(v, w),
    }
}

#[via_fn]
proof fn spec_cmp_decreases(a: Expr, b: Expr) {
    lemma_esize_singleton(a);
    lemma_esize_singleton(b);
}

/// Lexicographic order on child sequences: the first unequal pair decides,
/// and a strict prefix comes before the longer sequence.
pub open spec fn cmp_seq(x: Seq<Expr>, y: Seq<Expr>) -> Ordering
    decreases esize_seq(x) + esize_seq(y), 1nat,
    via cmp_seq_decreases
{
    if x.len() == 0 && y.len() == 0 {
        Ordering::Equal
    } else if x.len() == 0 {
        Ordering::Less
    } else if y.len() == 0 {
        Ordering::Greater
    } else {
        match spec_cmp(x[0], y[0]) {
            Ordering::Equal => cmp_seq(
                x.subrange(1, x.len() as int),
                y.subrange(1, y.len() as int),
            ),
            c => c,
        }
    }
}

#[via_fn]
proof fn cmp_seq_decreases(x: Seq<Expr>, y: Seq<Expr>) {
    if x.len() > 0 {
        assert(esize(x[0]) >= 1);
        assert(esize_seq(x) == esize(x[0]) + esize_seq(x.subrange(1, x.len() as int)));
    }
    if y.len() > 0 {
        assert(esize(y[0]) >= 1);
        assert(esize_seq(y) == esize(y[0]) + esize_seq(y.subrange(1, y.len() as int)));
    }
}

/// Compares two expressions under the simplifier's total order.
pub fn cmp_expr(a: &Expression, b: &Expression) -> (o: Ordering)
    ensures
        o == spec_cmp(a@, b@),
    decreases esize(a@) + esize(b@), 0nat,
{
    proof {
        lemma_esize_singleton(a@);
        lemma_esize_singleton(b@);
    }
    match (a, b) {
        (Expression::Integer(x), Expression::Integer(y)) => if x.0 < y.0 {
            Ordering::Less
        } else if x.0 == y.0 {
            Ordering::Equal
        } else {
            Ordering::Greater
        },
        (Expression::Integer(_), _) => Ordering::Less,
        (_, Expression::Integer(_)) => Ordering::Greater,
        (Expression::Rational(x), Expression::Rational(y)) => {
            proof {
                assert(-0x4000_0000_0000_0000 <= (x.0 as int) * (y.1 as int)
                    <= 0x4000_0000_0000_0000) by (nonlinear_arith)
                    requires
                        -0x8000_0000 <= x.0 as int <= 0x7fff_ffff,
                        -0x8000_0000 <= y.1 as int <= 0x7fff_ffff,
                ;
                assert(-0x4000_0000_0000_0000 <= (x.1 as int) * (y.0 as int)
                    <= 0x4000_0000_0000_0000) by (nonlinear_arith)
                    requires
                        -0x8000_0000 <= x.1 as int <= 0x7fff_ffff,
                        -0x8000_0000 <= y.0 as int <= 0x7fff_ffff,
                ;
            }
            let l: i64 = (x.0 as i64) * (y.1 as i64);
            let r: i64 = (x.1 as i64) * (y.0 as i64);
            if l < r {
                Ordering::Less
            } else if l == r {
                Ordering::Equal
            } else {
                Ordering::Greater
            }
        },
        (Expression::Rational(_), _) => Ordering::Less,
        (_, Expression::Rational(_)) => Ordering::Greater,
        (Expression::Product(p), Expression::Product(q)) => {
            cmp_exprs(p.0.as_slice(), q.0.as_slice())
        },
        (Expression::Product(p), u) => {
            let s = core::slice::from_ref(u);
            proof {
                lemma_views_of(s@);
                assert(views_of(s@) =~= seq![view_of(*u)]);
            }
            cmp_exprs(p.0.as_slice(), s)
        },
        (u, Expression::Product(q)) => {
            let s = core::slice::from_ref(u);
            proof {
                lemma_views_of(s@);
                assert(views_of(s@) =~= seq![view_of(*u)]);
            }
            cmp_exprs(s, q.0.as_slice())
        },
        (Expression::Power(p), Expression::Power(q)) => {
            if !expr_eq(&*p.base, &*q.base) {
                cmp_expr(&*p.base, &*q.base)
            } else {
                cmp_expr(&*p.exp, &*q.exp)
            }
        },
        (Expression::Power(p), u) => {
            if !expr_eq(&*p.base, u) {
                cmp_expr(&*p.base, u)
            } else {
                let one = Expression::Integer(Integer(1));
                cmp_expr(&*p.exp, &one)
            }
        },
        (u, Expression::Power(q)) => {
            if !expr_eq(u, &*q.base) {
                cmp_expr(u, &*q.base)
            } else {
                let one = Expression::Integer(Integer(1));
                cmp_expr(&one, &*q.exp)
            }
        },
        (Expression::Sum(s), Expression::Sum(t)) => cmp_exprs(s.0.as_slice(), t.0.as_slice()),
        (Expression::Sum(s), u) => {
            let single = core::slice::from_ref(u);
            proof {
                lemma_views_of(single@);
                assert(views_of(single@) =~= seq![view_of(*u)]);
            }
            cmp_exprs(s.0.as_slice(), single)
        },
        (u, Expression::Sum(t)) => {
            let single = core::slice::from_ref(u);
            proof {
                lemma_views_of(single@);
                assert(views_of(single@) =~= seq![view_of(*u)]);
            }
            cmp_exprs(single, t.0.as_slice())
        },
        (Expression::Function(_), Expression::Function(_)) => {
            let sa = a.display_string();
            let sb = b.display_string();
            cmp_str(sa.as_str(), sb.as_str())
        },
        (Expression::Function(_), Expression::Variable(w)) => {
            let sa = a.display_string();
            cmp_str(sa.as_str(), w.0.as_str())
        },
        (Expression::Variable(v), Expression::Function(_)) => {
            let sb = b.display_string();
            cmp_str(v.0.as_str(), sb.as_str())
        },
        (Expression::Variable(v), Expression::Variable(w)) => cmp_str(v.0.as_str(), w.0.as_str()),
    }
}

/// The simplifier's order is antisymmetric: swapping the two sides mirrors
/// the outcome.
pub proof fn lemma_cmp_flip(a: Expr, b: Expr)
    ensures
        spec_cmp(b, a) == crate::strings::flip(spec_cmp(a, b)),
    decreases esize(a) + esize(b), 0nat,
{
    lemma_esize_singleton(a);
    lemma_esize_singleton(b);
    match (a, b) {
        (Expr::Rat(p1, q1), Expr::Rat(p2, q2)) => {
            assert(p2 * q1 == q1 * p2) by (nonlinear_arith);
            assert(q2 * p1 == p1 * q2) by (nonlinear_arith);
        },
        (Expr::Prod(fs), Expr::Prod(gs)) => {
            lemma_cmp_seq_flip(fs, gs);
        },
        (Expr::Prod(fs), _) => {
            if !(b is Int) && !(b is Rat) {
                lemma_cmp_seq_flip(fs, seq![b]);
            }
        },
        (_, Expr::Prod(gs)) => {
            if !(a is Int) && !(a is Rat) {
                lemma_cmp_seq_flip(seq![a], gs);
            }
        },
        (Expr::Pow(b1, e1), Expr::Pow(b2, e2)) => {
            if *b1 != *b2 {
                lemma_cmp_flip(*b1, *b2);
            } else {
                lemma_cmp_flip(*e1, *e2);
            }
        },
        (Expr::Pow(b1, e1), _) => {
            if !(b is Int) && !(b is Rat) {
                if *b1 != b {
                    lemma_cmp_flip(*b1, b);
                } else {
                    lemma_cmp_flip(*e1, Expr::Int(1));
                }
            }
        },
        (_, Expr::Pow(b2, e2)) => {
            if !(a is Int) && !(a is Rat) {
                if a != *b2 {
                    lemma_cmp_flip(a, *b2);
                } else {
                    lemma_cmp_flip(Expr::Int(1), *e2);
                }
            }
        },
        (Expr::Sum(ts), Expr::Sum(us)) => {
            lemma_cmp_seq_flip(ts, us);
        },
        (Expr::Sum(ts), _) => {
            if !(b is Int) && !(b is Rat) {
                lemma_cmp_seq_flip(ts, seq![b]);
            }
        },
        (_, Expr::Sum(us)) => {
            if !(a is Int) && !(a is Rat) {
                lemma_cmp_seq_flip(seq![a], us);
            }
        },
        (Expr::Func(_, _), Expr::Func(_, _)) => {
            crate::strings::lemma_str_cmp_flip(spec_disp(a), spec_disp(b));
        },
        (Expr::Func(_, _), Expr::Var(w)) => {
            crate::strings::lemma_str_cmp_flip(spec_disp(a), w);
        },
        (Expr::Var(v), Expr::Func(_, _)) => {
            crate::strings::lemma_str_cmp_flip(v, spec_disp(b));
        },
        (Expr::Var(v), Expr::Var(w)) => {
            crate::strings::lemma_str_cmp_flip(v, w);
        },
        _ => {},
    }
}

/// Lexicographic comparison of child sequences is antisymmetric.
pub proof fn lemma_cmp_seq_flip(x: Seq<Expr>, y: Seq<Expr>)
    ensures
        cmp_seq(y, x) == crate::strings::flip(cmp_seq(x, y)),
    decreases esize_seq(x) + esize_seq(y), 1nat,
{
    if x.len() > 0 && y.len() > 0 {
        assert(esize(x[0]) >= 1);
        assert(esize(y[0]) >= 1);
        assert(esize_seq(x) == esize(x[0]) + esize_seq(x.subrange(1, x.len() as int)));
        assert(esize_seq(y) == esize(y[0]) + esize_seq(y.subrange(1, y.len() as int)));
        lemma_cmp_flip(x[0], y[0]);
        match spec_cmp(x[0], y[0]) {
            Ordering::Equal => {
                lemma_cmp_seq_flip(
                    x.subrange(1, x.len() as int),
                    y.subrange(1, y.len() as int),
                );
            },
            _ => {},
        }
    }
}

/// Whether consecutive children never decrease under the simplifier's order.
pub open spec fn nondecreasing(s: Seq<Expr>) -> bool {
    forall|i: int| 0 <= i < s.len() - 1 ==> !(#[trigger] spec_cmp(s[i + 1], s[i]) is Less)
}

/// Inserting into a non-decreasing sequence keeps it non-decreasing.
pub proof fn lemma_insert_sorted_nondecreasing(x: Expr, s: Seq<Expr>)
    requires
        nondecreasing(s),
    ensures
        nondecreasing(insert_sorted(x, s)),
    decreases s.len(),
{
    if s.len() == 0 {
    } else if spec_cmp(x, s[0]) is Less {
        let r = seq![x] + s;
        lemma_cmp_flip(x, s[0]);
        assert forall|i: int|
            0 <= i < r.len() - 1 implies !(#[trigger] spec_cmp(r[i + 1], r[i]) is Less) by {
            if i == 0 {
                assert(r[0] == x && r[1] == s[0]);
                assert(spec_cmp(s[0], x) == crate::strings::flip(spec_cmp(x, s[0])));
            } else {
                assert(r[i] == s[i - 1] && r[i + 1] == s[i]);
                assert(!(spec_cmp(s[(i - 1) + 1], s[i - 1]) is Less));
            }
        }
    } else {
        let rest = s.subrange(1, s.len() as int);
        assert(nondecreasing(rest)) by {
            assert(forall|i: int|
                0 <= i < rest.len() - 1 ==> rest[i] == s[i + 1] && #[trigger] rest[i + 1] == s[i
                    + 2]);
        }
        lemma_insert_sorted_nondecreasing(x, rest);
        let inner = insert_sorted(x, rest);
        let r = seq![s[0]] + inner;
        assert forall|i: int|
            0 <= i < r.len() - 1 implies !(#[trigger] spec_cmp(r[i + 1], r[i]) is Less) by {
            if i == 0 {
                assert(r[0] == s[0] && r[1] == inner[0]);
                if rest.len() == 0 {
                    assert(inner[0] == x);
                } else if spec_cmp(x, rest[0]) is Less {
                    assert(inner[0] == (seq![x] + rest)[0]);
                    assert(inner[0] == x);
                } else {
                    assert(inner[0] == (seq![rest[0]] + insert_sorted(
                        x,
                        rest.subrange(1, rest.len() as int),
                    ))[0]);
                    assert(inner[0] == rest[0]);
                    assert(rest[0] == s[1]);
                }
            } else {
                assert(r[i] == inner[i - 1] && r[i + 1] == inner[i]);
                assert(!(spec_cmp(inner[(i - 1) + 1], inner[i - 1]) is Less));
            }
        }
    }
}

/// Order stability: the sort applied to the simplified children of a sum or
/// a product leaves them in non-decreasing order under the total order.
pub proof fn lemma_sort_nondecreasing(s: Seq<Expr>)
    ensures
        nondecreasing(sort_exprs(s)),
    decreases s.len(),
{
    if s.len() > 0 {
        lemma_sort_nondecreasing(s.subrange(0, s.len() - 1));
        lemma_insert_sorted_nondecreasing(
            s[s.len() - 1],
            sort_exprs(s.subrange(0, s.len() - 1)),
        );
    }
}

/// Inserts an element into a sorted sequence, after any element it does not
/// strictly precede; insertion sort built on this is stable.
pub open spec fn insert_sorted(x: Expr, s: Seq<Expr>) -> Seq<Expr>
    decreases s,
{
    if s.len() == 0 {
        seq![x]
    } else if spec_cmp(x, s[0]) is Less {
        seq![x] + s
    } else {
        seq![s[0]] + insert_sorted(x, s.subrange(1, s.len() as int))
    }
}

/// The stable sort that orders children before merging: each element in turn
/// is inserted into the sorted sequence of those before it.
pub open spec fn sort_exprs(s: Seq<Expr>) -> Seq<Expr>
    decreases s,
{
    if s.len() == 0 {
        Seq::empty()
    } else {
        insert_sorted(s[s.len() - 1], sort_exprs(s.subrange(0, s.len() - 1)))
    }
}

/// Where the first strictly-preceded element sits at position `j`, insertion
/// places the new element exactly there.
pub proof fn lemma_insert_at(x: Expr, s: Seq<Expr>, j: int)
    requires
        0 <= j <= s.len(),
        forall|k: int| 0 <= k < j ==> !(spec_cmp(x, s[k]) is Less),
        j < s.len() ==> spec_cmp(x, s[j]) is Less,
    ensures
        insert_sorted(x, s) == s.take(j) + seq![x] + s.skip(j),
    decreases s.len(),
{
    if j == 0 {
        if s.len() == 0 {
            assert(insert_sorted(x, s) =~= s.take(0) + seq![x] + s.skip(0));
        } else {
            assert(insert_sorted(x, s) =~= s.take(0) + seq![x] + s.skip(0));
        }
    } else {
        let rest = s.subrange(1, s.len() as int);
        assert(forall|k: int| 0 <= k < j - 1 ==> rest[k] == s[k + 1]);
        lemma_insert_at(x, rest, j - 1);
        assert(seq![s[0]] + (rest.take(j - 1) + seq![x] + rest.skip(j - 1)) =~= s.take(j)
            + seq![x] + s.skip(j));
    }
}

/// Inserts an expression into a vector already sorted by `spec_cmp`, exactly
/// where `insert_sorted` places it.
pub fn insert_expr(out: &mut Vec<Expression>, x: Expression)
    ensures
        views_of(final(out)@) == insert_sorted(view_of(x), views_of(old(out)@)),
{
    let ghost s = views_of(out@);
    proof {
        lemma_views_of(out@);
    }
    let mut j: usize = 0;
    let mut hit: bool = false;
    while j < out.len() && !hit
        invariant
            0 <= j <= out@.len(),
            s == views_of(out@),
            s.len() == out@.len(),
            forall|k: int| 0 <= k < out@.len() ==> s[k] == view_of(out@[k]),
            forall|k: int| 0 <= k < j ==> !(spec_cmp(view_of(x), s[k]) is Less),
            hit ==> j < out@.len() && spec_cmp(view_of(x), s[j as int]) is Less,
        decreases out@.len() - j + (if hit { 0int } else { 1int }),
    {
        let c = cmp_expr(&x, &out[j]);
        match c {
            Ordering::Less => {
                hit = true;
            },
            _ => {
                j += 1;
            },
        }
    }
    proof {
        lemma_insert_at(view_of(x), s, j as int);
    }
    let ghost before = out@;
    out.insert(j, x);
    proof {
        lemma_views_of(out@);
        assert(out@ =~= before.take(j as int) + seq![x] + before.skip(j as int));
        assert(views_of(out@) =~= s.take(j as int) + seq![view_of(x)] + s.skip(j as int));
    }
}

/// Sorts a vector of expressions under the simplifier's total order, exactly
/// as `sort_exprs` states it.
pub fn sort_vec(v: Vec<Expression>) -> (r: Vec<Expression>)
    ensures
        views_of(r@) == sort_exprs(views_of(v@)),
{
    let ghost orig = v@;
    let n: usize = v.len();
    let mut rest = v;
    let mut out: Vec<Expression> = Vec::new();
    proof {
        lemma_views_of(orig);
        assert(orig.skip(0) =~= orig);
        assert(views_of(Seq::<Expression>::empty()) =~= Seq::<Expr>::empty());
        assert(views_of(orig).take(0) =~= Seq::<Expr>::empty());
        assert(sort_exprs(views_of(orig).take(0)) =~= Seq::<Expr>::empty());
    }
    let mut i: usize = 0;
    while rest.len() > 0
        invariant
            i <= orig.len(),
            orig.len() == n as nat,
            rest@.len() == orig.len() - i,
            rest@ =~= orig.skip(i as int),
            views_of(out@) == sort_exprs(views_of(orig).take(i as int)),
        decreases orig.len() - i,
    {
        proof {
            lemma_views_of(orig);
            lemma_views_of(rest@);
        }
        let e = rest.remove(0);
        proof {
            assert(rest@ =~= orig.skip(i as int + 1));
            assert(view_of(e) == views_of(orig)[i as int]);
        }
        insert_expr(&mut out, e);
        proof {
            let vs = views_of(orig);
            let t = vs.take(i as int + 1);
            assert(t.subrange(0, t.len() - 1) =~= vs.take(i as int));
            assert(t[t.len() - 1] == vs[i as int]);
            assert(sort_exprs(t) == insert_sorted(vs[i as int], sort_exprs(vs.take(i as int))));
        }
        i += 1;
    }
    proof {
        assert(views_of(orig).take(orig.len() as int) =~= views_of(orig));
    }
    out
}

/// Compares two child sequences lexicographically.
pub fn cmp_exprs(x: &[Expression], y: &[Expression]) -> (o: Ordering)
    ensures
        o == cmp_seq(views_of(x@), views_of(y@)),
    decreases esize_seq(views_of(x@)) + esize_seq(views_of(y@)), 1nat,
{
    let ghost vx = views_of(x@);
    let ghost vy = views_of(y@);
    proof {
        lemma_views_of(x@);
        lemma_views_of(y@);
        assert(vx.skip(0) =~= vx);
        assert(vy.skip(0) =~= vy);
    }
    let mut i: usize = 0;
    loop
        invariant
            i <= x@.len(),
            i <= y@.len(),
            vx == views_of(x@),
            vy == views_of(y@),
            vx.len() == x@.len(),
            vy.len() == y@.len(),
            forall|j: int| 0 <= j < x@.len() ==> vx[j] == view_of(x@[j]),
            forall|j: int| 0 <= j < y@.len() ==> vy[j] == view_of(y@[j]),
            cmp_seq(vx, vy) == cmp_seq(vx.skip(i as int), vy.skip(i as int)),
        decreases x@.len() - i,
    {
        if i == x.len() || i == y.len() {
            if i < y.len() {
                return Ordering::Less;
            } else if i < x.len() {
                return Ordering::Greater;
            } else {
                return Ordering::Equal;
            }
        }
        let xe = vstd::slice::slice_index_get(x, i);
        let ye = vstd::slice::slice_index_get(y, i);
        proof {
            lemma_esize_seq_elem(vx, i as int);
            lemma_esize_seq_elem(vy, i as int);
            assert(vx.skip(i as int)[0] == vx[i as int]);
            assert(vy.skip(i as int)[0] == vy[i as int]);
        }
        let c = cmp_expr(xe, ye);
        match c {
            Ordering::Equal => {
                proof {
                    let sx = vx.skip(i as int);
                    let sy = vy.skip(i as int);
                    assert(sx.subrange(1, sx.len() as int) =~= vx.skip(i as int + 1));
                    assert(sy.subrange(1, sy.len() as int) =~= vy.skip(i as int + 1));
                }
                i += 1;
            },
            _ => {
                return c;
            },
        }
    }
}

} // verus!
