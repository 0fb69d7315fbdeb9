use vstd::prelude::*;
use vstd::string::StringExecFns;

use crate::ast::{esize, esize_seq, lemma_esize_seq_elem, Expr, FuncKind};
use crate::expression::{lemma_views_of, view_of, views_of, Expression};
use crate::types::Function;

verus! {

/// The single character that prints a decimal digit.
pub open spec fn digit_seq(d: nat) -> Seq<char> {
    if d == 0 {
        "0"@
    } else if d == 1 {
        "1"@
    } else if d == 2 {
        "2"@
    } else if d == 3 {
        "3"@
    } else if d == 4 {
        "4"@
    } else if d == 5 {
        "5"@
    } else if d == 6 {
        "6"@
    } else if d == 7 {
        "7"@
    } else if d == 8 {
        "8"@
    } else {
        "9"@
    }
}

/// The decimal digits of a non-negative number, most significant first.
pub open spec fn spec_udigits(n: nat) -> Seq<char>
    decreases n,
{
    if n < 10 {
        digit_seq(n)
    } else {
        spec_udigits(n / 10) + digit_seq(n % 10)
    }
}

/// The decimal printing of an integer, a minus sign leading a negative one.
pub open spec fn int_chars(n: int) -> Seq<char> {
    if n < 0 {
        "-"@ + spec_udigits((-n) as nat)
    } else {
        spec_udigits(n as nat)
    }
}

/// The characters that print a function's name.
pub open spec fn kind_chars(k: FuncKind) -> Seq<char> {
    match k {
        FuncKind::Sqrt => "sqrt"@,
        FuncKind::Cbrt => "cbrt"@,
        FuncKind::Log => "log"@,
        FuncKind::Ln => "ln"@,
        FuncKind::Other(s) => s,
    }
}

/// The display form of an expression. Parentheses are always emitted around
/// compounds; the form is verbose but lossless.
pub open spec fn spec_disp(e: Expr) -> Seq<char>
    decreases e,
{
    match e {
        Expr::Int(n) => int_chars(n),
        Expr::Rat(p, q) => int_chars(p) + "/"@ + int_chars(q),
        Expr::Var(s) => s,
        Expr::Pow(b, x) => "("@ + spec_disp(*b) + ")^("@ + spec_disp(*x) + ")"@,
        Expr::Sum(ts) => "("@ + spec_join(ts, " + "@) + ")"@,
        Expr::Prod(fs) => "("@ + spec_join(fs, " * "@) + ")"@,
        Expr::Func(k, a) => kind_chars(k) + "("@ + spec_disp(*a) + ")"@,
    }
}

/// The display forms of a sequence of expressions, joined by a separator.
pub open spec fn spec_join(s: Seq<Expr>, sep: Seq<char>) -> Seq<char>
    decreases s,
{
    if s.len() == 0 {
        Seq::empty()
    } else if s.len() == 1 {
        spec_disp(s[0])
    } else {
        spec_disp(s[0]) + sep + spec_join(s.subrange(1, s.len() as int), sep)
    }
}

/// Extending a joined prefix by one more element appends a separator and the
/// element's display form.
pub proof fn lemma_join_step(s: Seq<Expr>, sep: Seq<char>, i: int)
    requires
        1 <= i < s.len(),
    ensures
        spec_join(s.take(i + 1), sep) == spec_join(s.take(i), sep) + sep + spec_disp(s[i]),
    decreases i,
{
    let a = s.take(i + 1);
    let b = s.take(i);
    if i == 1 {
        assert(a.subrange(1, a.len() as int) =~= seq![s[1]]);
        assert(spec_join(seq![s[1]], sep) == spec_disp(s[1]));
        assert(spec_join(a, sep) =~= spec_disp(s[0]) + sep + spec_disp(s[1]));
        assert(spec_join(b, sep) == spec_disp(s[0]));
        assert(spec_join(b, sep) + sep + spec_disp(s[1]) =~= spec_disp(s[0]) + sep + spec_disp(
            s[1],
        ));
    } else {
        let rest = s.subrange(1, s.len() as int);
        lemma_join_step(rest, sep, i - 1);
        assert(a.subrange(1, a.len() as int) =~= rest.take(i));
        assert(b.subrange(1, b.len() as int) =~= rest.take(i - 1));
        assert(rest[i - 1] == s[i]);
        assert(spec_join(a, sep) == spec_disp(s[0]) + sep + spec_join(rest.take(i), sep));
        assert(spec_join(b, sep) == spec_disp(s[0]) + sep + spec_join(rest.take(i - 1), sep));
        assert((spec_disp(s[0]) + sep + (spec_join(rest.take(i - 1), sep) + sep + spec_disp(s[i])))
            =~= (spec_disp(s[0]) + sep + spec_join(rest.take(i - 1), sep)) + sep + spec_disp(s[i]));
    }
}

/// The single-character string that prints a decimal digit.
fn digit_str(d: u64) -> (s: &'static str)
    requires
        d < 10,
    ensures
        s@ == digit_seq(d as nat),
{
    match d {
        0 => "0",
        1 => "1",
        2 => "2",
        3 => "3",
        4 => "4",
        5 => "5",
        6 => "6",
        7 => "7",
        8 => "8",
        _ => "9",
    }
}

/// Prints a non-negative number in decimal.
fn udigits_string(n: u64) -> (s: String)
    ensures
        s@ == spec_udigits(n as nat),
    decreases n,
{
    if n < 10 {
        digit_str(n).to_owned()
    } else {
        let mut s = udigits_string(n / 10);
        s.append(digit_str(n % 10));
        s
    }
}

/// Prints a machine integer in decimal.
fn int_string(n: i32) -> (s: String)
    ensures
        s@ == int_chars(n as int),
{
    if n < 0 {
        let mut s = "-".to_owned();
        let m = crate::arith::abs32(n);
        s.append(udigits_string(m).as_str());
        s
    } else {
        udigits_string(n as u64)
    }
}

/// Prints a separated, parenthesized list of children.
fn join_display(items: &[Expression], sep: &str) -> (s: String)
    ensures
        s@ == "("@ + spec_join(views_of(items@), sep@) + ")"@,
    decreases esize_seq(views_of(items@)), 1nat,
{
    proof {
        lemma_views_of(items@);
    }
    let ghost vs = views_of(items@);
    let mut out = "(".to_owned();
    let mut i: usize = 0;
    while i < items.len()
        invariant
            i <= items@.len(),
            vs == views_of(items@),
            vs.len() == items@.len(),
            forall|j: int| 0 <= j < items@.len() ==> vs[j] == view_of(items@[j]),
            i == 0 ==> out@ == "("@,
            i > 0 ==> out@ == "("@ + spec_join(vs.take(i as int), sep@),
        decreases items@.len() - i,
    {
        proof {
            lemma_esize_seq_elem(vs, i as int);
        }
        if i > 0 {
            out.append(sep);
        }
        let piece = vstd::slice::slice_index_get(items, i).display_string();
        out.append(piece.as_str());
        proof {
            if i == 0 {
                assert(vs.take(1).len() == 1);
                assert(vs.take(1)[0] == vs[0]);
                assert(spec_join(vs.take(1), sep@) == spec_disp(vs[0]));
            } else {
                lemma_join_step(vs, sep@, i as int);
            }
        }
        i += 1;
    }
    out.append(")");
    proof {
        assert(vs.take(vs.len() as int) =~= vs);
        if items@.len() == 0 {
            assert(out@ =~= "("@ + spec_join(vs, sep@) + ")"@);
        }
    }
    out
}

impl Expression {
    /// Prints the expression in the display form `spec_disp` states.
    pub fn display_string(&self) -> (s: String)
        ensures
            s@ == spec_disp(self@),
        decreases esize(self@), 0nat,
    {
        match self {
            Expression::Integer(i) => int_string(i.0),
            Expression::Rational(r) => {
                let mut s = int_string(r.0);
                s.append("/");
                s.append(int_string(r.1).as_str());
                s
            },
            Expression::Variable(v) => v.0.clone(),
            Expression::Power(p) => {
                let mut s = "(".to_owned();
                s.append(p.base.display_string().as_str());
                s.append(")^(");
                s.append(p.exp.display_string().as_str());
                s.append(")");
                s
            },
            Expression::Product(p) => join_display(p.0.as_slice(), " * "),
            Expression::Sum(t) => join_display(t.0.as_slice(), " + "),
            Expression::Function(f) => {
                let mut s = match f {
                    Function::Sqrt(_) => "sqrt".to_owned(),
                    Function::Cbrt(_) => "cbrt".to_owned(),
                    Function::Log(_) => "log".to_owned(),
                    Function::Ln(_) => "ln".to_owned(),
                    Function::Other(n, _) => n.clone(),
                };
                let a = match f {
                    Function::Sqrt(a) => a,
                    Function::Cbrt(a) => a,
                    Function::Log(a) => a,
                    Function::Ln(a) => a,
                    Function::Other(_, a) => a,
                };
                s.append("(");
                s.append(a.display_string().as_str());
                s.append(")");
                s
            },
        }
    }
}

} // verus!
