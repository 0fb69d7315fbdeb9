use vstd::prelude::*;
use vstd::string::StringExecFns;

use crate::ast::Expr;
use crate::expression::{pair_vec, singleton_vec, view_of, views_of, Expression};
use crate::lexer::{Tok, Token};
use crate::types::{Function, Integer, Power, Product, Rational, Sum, Variable};

verus! {

/// A token stream the parser refuses.
#[derive(Debug, Clone, PartialEq, Eq, Structural)]
pub enum ParseError {
    /// A token where the grammar allows none, or leftovers after a full
    /// expression.
    InvalidSyntax,
    /// An empty token stream.
    EmptyExpression,
}

/// The message that describes a parsing error.
pub open spec fn parse_error_text(e: ParseError) -> Seq<char> {
    match e {
        ParseError::InvalidSyntax => "invalid syntax"@,
        ParseError::EmptyExpression => "empty expression"@,
    }
}

impl ParseError {
    /// The printable description of the error.
    pub fn message(&self) -> (s: &'static str)
        ensures
            s@ == parse_error_text(*self),
    {
        match self {
            ParseError::InvalidSyntax => "invalid syntax",
            ParseError::EmptyExpression => "empty expression",
        }
    }
}

/// A negation, as the grammar writes it: minus one times the operand.
pub open spec fn p_neg(e: Expr) -> Expr {
    Expr::Prod(seq![Expr::Int(-1), e])
}

/// A reciprocal, as the grammar writes division: the divisor to the power
/// minus one.
pub open spec fn p_inv(e: Expr) -> Expr {
    Expr::Pow(Box::new(e), Box::new(Expr::Int(-1)))
}

/// The addition level of the grammar: multiplications joined by plus and
/// minus, a minus negating its operand; the whole run becomes one sum.
pub open spec fn g_addition(ts: Seq<Tok>, i: int) -> Result<(Expr, int), ParseError>
    decreases ts.len() - i, 8int,
{
    if i < 0 {
        Err(ParseError::InvalidSyntax)
    } else {
        match g_multiplication(ts, i) {
            Ok((first, j)) => if i < j <= ts.len() {
                match g_addition_rest(ts, j, seq![first]) {
                    Ok((values, k)) => Ok((Expr::Sum(values), k)),
                    Err(e) => Err(e),
                }
            } else {
                Err(ParseError::InvalidSyntax)
            },
            Err(e) => Err(e),
        }
    }
}

/// Collects further summands while a plus or a minus follows.
pub open spec fn g_addition_rest(ts: Seq<Tok>, i: int, acc: Seq<Expr>) -> Result<
    (Seq<Expr>, int),
    ParseError,
>
    decreases ts.len() - i, 7int,
{
    if 0 <= i < ts.len() && (ts[i] is Plus || ts[i] is Minus) {
        match g_multiplication(ts, i + 1) {
            Ok((e, j)) => if i + 1 < j <= ts.len() {
                let item = if ts[i] is Minus {
                    p_neg(e)
                } else {
                    e
                };
                g_addition_rest(ts, j, acc.push(item))
            } else {
                Err(ParseError::InvalidSyntax)
            },
            Err(e) => Err(e),
        }
    } else {
        Ok((acc, i))
    }
}

/// The multiplication level: exponentiations joined by star and slash, a
/// slash inverting its operand; the whole run becomes one product.
pub open spec fn g_multiplication(ts: Seq<Tok>, i: int) -> Result<(Expr, int), ParseError>
    decreases ts.len() - i, 6int,
{
    if i < 0 {
        Err(ParseError::InvalidSyntax)
    } else {
        match g_exponentiation(ts, i) {
            Ok((first, j)) => if i < j <= ts.len() {
                match g_multiplication_rest(ts, j, seq![first]) {
                    Ok((values, k)) => Ok((Expr::Prod(values), k)),
                    Err(e) => Err(e),
                }
            } else {
                Err(ParseError::InvalidSyntax)
            },
            Err(e) => Err(e),
        }
    }
}

/// Collects further factors while a star or a slash follows.
pub open spec fn g_multiplication_rest(ts: Seq<Tok>, i: int, acc: Seq<Expr>) -> Result<
    (Seq<Expr>, int),
    ParseError,
>
    decreases ts.len() - i, 5int,
{
    if 0 <= i < ts.len() && (ts[i] is Star || ts[i] is Slash) {
        match g_exponentiation(ts, i + 1) {
            Ok((e, j)) => if i + 1 < j <= ts.len() {
                let item = if ts[i] is Slash {
                    p_inv(e)
                } else {
                    e
                };
                g_multiplication_rest(ts, j, acc.push(item))
            } else {
                Err(ParseError::InvalidSyntax)
            },
            Err(e) => Err(e),
        }
    } else {
        Ok((acc, i))
    }
}

/// The exponentiation level: carets bind right-associatively, rewriting the
/// accumulated power so the new operand nests into the exponent.
pub open spec fn g_exponentiation(ts: Seq<Tok>, i: int) -> Result<(Expr, int), ParseError>
    decreases ts.len() - i, 4int,
{
    if i < 0 {
        Err(ParseError::InvalidSyntax)
    } else {
        match g_unary(ts, i) {
            Ok((first, j)) => if i < j <= ts.len() {
                g_exponentiation_rest(ts, j, first)
            } else {
                Err(ParseError::InvalidSyntax)
            },
            Err(e) => Err(e),
        }
    }
}

/// Folds further caret operands into the accumulated result.
pub open spec fn g_exponentiation_rest(ts: Seq<Tok>, i: int, acc: Expr) -> Result<
    (Expr, int),
    ParseError,
>
    decreases ts.len() - i, 3int,
{
    if 0 <= i < ts.len() && ts[i] is Caret {
        match g_unary(ts, i + 1) {
            Ok((e, j)) => if i + 1 < j <= ts.len() {
                let folded = match acc {
                    Expr::Pow(b, x) => Expr::Pow(b, Box::new(Expr::Pow(x, Box::new(e)))),
                    other => Expr::Pow(Box::new(other), Box::new(e)),
                };
                g_exponentiation_rest(ts, j, folded)
            } else {
                Err(ParseError::InvalidSyntax)
            },
            Err(e) => Err(e),
        }
    } else {
        Ok((acc, i))
    }
}

/// The unary level: an optional leading minus negates the basic expression.
pub open spec fn g_unary(ts: Seq<Tok>, i: int) -> Result<(Expr, int), ParseError>
    decreases ts.len() - i, 2int,
{
    if 0 <= i < ts.len() && ts[i] is Minus {
        match g_basic(ts, i + 1) {
            Ok((e, j)) => Ok((p_neg(e), j)),
            Err(e) => Err(e),
        }
    } else {
        g_basic(ts, i)
    }
}

/// The basic level: a literal, an identifier (a function call when a basic
/// expression follows, a variable otherwise), an absolute value between
/// pipes, or a parenthesized or bracketed expression; closing delimiters are
/// consumed when present.
pub open spec fn g_basic(ts: Seq<Tok>, i: int) -> Result<(Expr, int), ParseError>
    decreases ts.len() - i, 1int,
{
    if 0 <= i < ts.len() {
        match ts[i] {
            Tok::Integer(n) => Ok((Expr::Int(n), i + 1)),
            Tok::Decimal(n, d) => Ok((Expr::Rat(n, d), i + 1)),
            Tok::Identifier(name) => match g_basic(ts, i + 1) {
                Ok((arg, j)) => Ok(
                    (
                        Expr::Func(
                            crate::types::function::kind_of_name(name),
                            Box::new(arg),
                        ),
                        j,
                    ),
                ),
                Err(_) => Ok((Expr::Var(name), i + 1)),
            },
            Tok::Pipe => match g_addition(ts, i + 1) {
                Ok((e, j)) => {
                    let k = if 0 <= j < ts.len() && ts[j] is Pipe {
                        j + 1
                    } else {
                        j
                    };
                    Ok((Expr::Func(crate::types::function::kind_of_name("abs"@), Box::new(e)), k))
                },
                Err(e) => Err(e),
            },
            Tok::LeftParen => match g_addition(ts, i + 1) {
                Ok((e, j)) => {
                    let k = if 0 <= j < ts.len() && ts[j] is RightParen {
                        j + 1
                    } else {
                        j
                    };
                    Ok((e, k))
                },
                Err(e) => Err(e),
            },
            Tok::LeftBrack => match g_addition(ts, i + 1) {
                Ok((e, j)) => {
                    let k = if 0 <= j < ts.len() && ts[j] is RightBrack {
                        j + 1
                    } else {
                        j
                    };
                    Ok((e, k))
                },
                Err(e) => Err(e),
            },
            _ => Err(ParseError::InvalidSyntax),
        }
    } else {
        Err(ParseError::InvalidSyntax)
    }
}

/// The whole grammar: an empty stream is refused, and so are leftovers
/// after one full expression.
pub open spec fn g_parse(ts: Seq<Tok>) -> Result<Expr, ParseError> {
    if ts.len() == 0 {
        Err(ParseError::EmptyExpression)
    } else {
        match g_addition(ts, 0) {
            Ok((e, j)) => if j == ts.len() {
                Ok(e)
            } else {
                Err(ParseError::InvalidSyntax)
            },
            Err(e) => Err(e),
        }
    }
}

/// The recursive-descent parser over a token stream.
#[derive(Debug)]
pub struct Parser {
    pub tokens: Vec<Token>,
}

impl Parser {
    /// Wraps a token stream.
    pub fn new(tokens: Vec<Token>) -> (r: Parser)
        ensures
            crate::lexer::toks_of(r.tokens@) == crate::lexer::toks_of(tokens@),
    {
        Parser { tokens }
    }

    /// Parses the whole stream into one unsimplified expression, exactly as
    /// `g_parse` states it.
    pub fn parse(&self) -> (r: Result<Expression, ParseError>)
        ensures
            match r {
                Ok(e) => g_parse(crate::lexer::toks_of(self.tokens@)) == Ok::<Expr, ParseError>(
                    view_of(e),
                ),
                Err(er) => g_parse(crate::lexer::toks_of(self.tokens@)) == Err::<
                    Expr,
                    ParseError,
                >(er),
            },
    {
        let ghost gs = crate::lexer::toks_of(self.tokens@);
        proof {
            crate::lexer::lemma_toks_of(self.tokens@);
        }
        if self.tokens.len() == 0 {
            return Err(ParseError::EmptyExpression);
        }
        match p_addition(&self.tokens, 0) {
            Ok((e, j)) => if j == self.tokens.len() {
                Ok(e)
            } else {
                Err(ParseError::InvalidSyntax)
            },
            Err(er) => Err(er),
        }
    }
}

/// The addition level, exactly as `g_addition` states it.
#[verifier::rlimit(60)]
#[verifier::spinoff_prover]
fn p_addition(ts: &Vec<Token>, i: usize) -> (r: Result<(Expression, usize), ParseError>)
    requires
        i <= ts@.len(),
    ensures
        match r {
            Ok(p) => i < p.1 <= ts@.len() && g_addition(crate::lexer::toks_of(ts@), i as int)
                == Ok::<(Expr, int), ParseError>((view_of(p.0), p.1 as int)),
            Err(er) => g_addition(crate::lexer::toks_of(ts@), i as int) == Err::<
                (Expr, int),
                ParseError,
            >(er),
        },
    decreases ts@.len() - i, 8int,
{
    proof {
        crate::lexer::lemma_toks_of(ts@);
    }
    match p_multiplication(ts, i) {
        Err(er) => Err(er),
        Ok((first, j)) => {
            let acc = singleton_vec(first);
            match p_addition_rest(ts, j, acc) {
                Ok((values, k)) => Ok((Expression::Sum(Sum(values)), k)),
                Err(er) => Err(er),
            }
        },
    }
}

/// Further summands, exactly as `g_addition_rest` states it.
#[verifier::rlimit(60)]
#[verifier::spinoff_prover]
fn p_addition_rest(ts: &Vec<Token>, i: usize, acc: Vec<Expression>) -> (r: Result<
    (Vec<Expression>, usize),
    ParseError,
>)
    requires
        i <= ts@.len(),
    ensures
        match r {
            Ok(p) => i <= p.1 <= ts@.len() && g_addition_rest(
                crate::lexer::toks_of(ts@),
                i as int,
                views_of(acc@),
            ) == Ok::<(Seq<Expr>, int), ParseError>((views_of(p.0@), p.1 as int)),
            Err(er) => g_addition_rest(crate::lexer::toks_of(ts@), i as int, views_of(acc@))
                == Err::<(Seq<Expr>, int), ParseError>(er),
        },
    decreases ts@.len() - i, 7int,
{
    proof {
        crate::lexer::lemma_toks_of(ts@);
    }
    if i < ts.len() {
        let is_plus = matches!(&ts[i], Token::Plus);
        let is_minus = matches!(&ts[i], Token::Minus);
        if is_plus || is_minus {
            match p_multiplication(ts, i + 1) {
                Err(er) => Err(er),
                Ok((e, j)) => {
                    let item = if is_minus {
                        neg_node(e)
                    } else {
                        e
                    };
                    let ghost pre = acc@;
                    let ghost iv = view_of(item);
                    let mut acc = acc;
                    acc.push(item);
                    proof {
                        crate::expression::lemma_views_of_push(pre, acc@[acc@.len() - 1]);
                        assert(views_of(acc@) == views_of(pre).push(iv));
                    }
                    p_addition_rest(ts, j, acc)
                },
            }
        } else {
            Ok((acc, i))
        }
    } else {
        Ok((acc, i))
    }
}

/// The multiplication level, exactly as `g_multiplication` states it.
#[verifier::rlimit(60)]
#[verifier::spinoff_prover]
fn p_multiplication(ts: &Vec<Token>, i: usize) -> (r: Result<(Expression, usize), ParseError>)
    requires
        i <= ts@.len(),
    ensures
        match r {
            Ok(p) => i < p.1 <= ts@.len() && g_multiplication(
                crate::lexer::toks_of(ts@),
                i as int,
            ) == Ok::<(Expr, int), ParseError>((view_of(p.0), p.1 as int)),
            Err(er) => g_multiplication(crate::lexer::toks_of(ts@), i as int) == Err::<
                (Expr, int),
                ParseError,
            >(er),
        },
    decreases ts@.len() - i, 6int,
{
    proof {
        crate::lexer::lemma_toks_of(ts@);
    }
    match p_exponentiation(ts, i) {
        Err(er) => Err(er),
        Ok((first, j)) => {
            let acc = singleton_vec(first);
            match p_multiplication_rest(ts, j, acc) {
                Ok((values, k)) => Ok((Expression::Product(Product(values)), k)),
                Err(er) => Err(er),
            }
        },
    }
}

/// Further factors, exactly as `g_multiplication_rest` states it.
#[verifier::rlimit(60)]
#[verifier::spinoff_prover]
fn p_multiplication_rest(ts: &Vec<Token>, i: usize, acc: Vec<Expression>) -> (r: Result<
    (Vec<Expression>, usize),
    ParseError,
>)
    requires
        i <= ts@.len(),
    ensures
        match r {
            Ok(p) => i <= p.1 <= ts@.len() && g_multiplication_rest(
                crate::lexer::toks_of(ts@),
                i as int,
                views_of(acc@),
            ) == Ok::<(Seq<Expr>, int), ParseError>((views_of(p.0@), p.1 as int)),
            Err(er) => g_multiplication_rest(
                crate::lexer::toks_of(ts@),
                i as int,
                views_of(acc@),
            ) == Err::<(Seq<Expr>, int), ParseError>(er),
        },
    decreases ts@.len() - i, 5int,
{
    proof {
        crate::lexer::lemma_toks_of(ts@);
    }
    if i < ts.len() {
        let is_star = matches!(&ts[i], Token::Star);
        let is_slash = matches!(&ts[i], Token::Slash);
        if is_star || is_slash {
            match p_exponentiation(ts, i + 1) {
                Err(er) => Err(er),
                Ok((e, j)) => {
                    let item = if is_slash {
                        Expression::Power(Power::new(e, Expression::Integer(Integer(-1))))
                    } else {
                        e
                    };
                    let ghost pre = acc@;
                    let ghost iv = view_of(item);
                    let mut acc = acc;
                    acc.push(item);
                    proof {
                        crate::expression::lemma_views_of_push(pre, acc@[acc@.len() - 1]);
                        assert(views_of(acc@) == views_of(pre).push(iv));
                    }
                    p_multiplication_rest(ts, j, acc)
                },
            }
        } else {
            Ok((acc, i))
        }
    } else {
        Ok((acc, i))
    }
}

/// The exponentiation level, exactly as `g_exponentiation` states it.
#[verifier::rlimit(60)]
#[verifier::spinoff_prover]
fn p_exponentiation(ts: &Vec<Token>, i: usize) -> (r: Result<(Expression, usize), ParseError>)
    requires
        i <= ts@.len(),
    ensures
        match r {
            Ok(p) => i < p.1 <= ts@.len() && g_exponentiation(
                crate::lexer::toks_of(ts@),
                i as int,
            ) == Ok::<(Expr, int), ParseError>((view_of(p.0), p.1 as int)),
            Err(er) => g_exponentiation(crate::lexer::toks_of(ts@), i as int) == Err::<
                (Expr, int),
                ParseError,
            >(er),
        },
    decreases ts@.len() - i, 4int,
{
    proof {
        crate::lexer::lemma_toks_of(ts@);
    }
    match p_unary(ts, i) {
        Err(er) => Err(er),
        Ok((first, j)) => p_exponentiation_rest(ts, j, first),
    }
}

/// Further caret operands, exactly as `g_exponentiation_rest` states it.
#[verifier::rlimit(60)]
#[verifier::spinoff_prover]
fn p_exponentiation_rest(ts: &Vec<Token>, i: usize, acc: Expression) -> (r: Result<
    (Expression, usize),
    ParseError,
>)
    requires
        i <= ts@.len(),
    ensures
        match r {
            Ok(p) => i <= p.1 <= ts@.len() && g_exponentiation_rest(
                crate::lexer::toks_of(ts@),
                i as int,
                view_of(acc),
            ) == Ok::<(Expr, int), ParseError>((view_of(p.0), p.1 as int)),
            Err(er) => g_exponentiation_rest(crate::lexer::toks_of(ts@), i as int, view_of(acc))
                == Err::<(Expr, int), ParseError>(er),
        },
    decreases ts@.len() - i, 3int,
{
    proof {
        crate::lexer::lemma_toks_of(ts@);
    }
    let ghost gs = crate::lexer::toks_of(ts@);
    let ghost av = view_of(acc);
    if i < ts.len() && matches!(&ts[i], Token::Caret) {
        match p_unary(ts, i + 1) {
            Err(er) => Err(er),
            Ok((e, j)) => {
                let ghost ev = view_of(e);
                let folded = match acc {
                    Expression::Power(p) => {
                        let inner = Expression::Power(Power::new(*p.exp, e));
                        Expression::Power(Power::new(*p.base, inner))
                    },
                    other => {
                        proof {
                            match &other {
                                Expression::Integer(_) => {
                                    assert(!(view_of(other) is Pow));
                                },
                                Expression::Rational(_) => {
                                    assert(!(view_of(other) is Pow));
                                },
                                Expression::Variable(_) => {
                                    assert(!(view_of(other) is Pow));
                                },
                                Expression::Sum(_) => {
                                    assert(!(view_of(other) is Pow));
                                },
                                Expression::Product(_) => {
                                    assert(!(view_of(other) is Pow));
                                },
                                Expression::Function(f) => {
                                    match f {
                                        Function::Sqrt(_) => {
                                            assert(!(view_of(other) is Pow));
                                        },
                                        Function::Cbrt(_) => {
                                            assert(!(view_of(other) is Pow));
                                        },
                                        Function::Log(_) => {
                                            assert(!(view_of(other) is Pow));
                                        },
                                        Function::Ln(_) => {
                                            assert(!(view_of(other) is Pow));
                                        },
                                        Function::Other(_, _) => {
                                            assert(!(view_of(other) is Pow));
                                        },
                                    }
                                },
                                Expression::Power(_) => {
                                    assert(false);
                                },
                            }
                        }
                        Expression::Power(Power::new(other, e))
                    },
                };
                proof {
                    assert(view_of(folded) == (match av {
                        Expr::Pow(b, x) => Expr::Pow(b, Box::new(Expr::Pow(x, Box::new(ev)))),
                        other2 => Expr::Pow(Box::new(other2), Box::new(ev)),
                    }));
                    assert(g_exponentiation_rest(gs, i as int, av) == g_exponentiation_rest(
                        gs,
                        j as int,
                        view_of(folded),
                    ));
                }
                p_exponentiation_rest(ts, j, folded)
            },
        }
    } else {
        Ok((acc, i))
    }
}

/// The unary level, exactly as `g_unary` states it.
#[verifier::rlimit(60)]
#[verifier::spinoff_prover]
fn p_unary(ts: &Vec<Token>, i: usize) -> (r: Result<(Expression, usize), ParseError>)
    requires
        i <= ts@.len(),
    ensures
        match r {
            Ok(p) => i < p.1 <= ts@.len() && g_unary(crate::lexer::toks_of(ts@), i as int)
                == Ok::<(Expr, int), ParseError>((view_of(p.0), p.1 as int)),
            Err(er) => g_unary(crate::lexer::toks_of(ts@), i as int) == Err::<
                (Expr, int),
                ParseError,
            >(er),
        },
    decreases ts@.len() - i, 2int,
{
    proof {
        crate::lexer::lemma_toks_of(ts@);
    }
    if i < ts.len() && matches!(&ts[i], Token::Minus) {
        match p_basic(ts, i + 1) {
            Err(er) => Err(er),
            Ok((e, j)) => Ok((neg_node(e), j)),
        }
    } else {
        p_basic(ts, i)
    }
}

/// A negation node, as the grammar writes it.
fn neg_node(e: Expression) -> (r: Expression)
    ensures
        view_of(r) == p_neg(view_of(e)),
{
    let ghost ev = view_of(e);
    let v = pair_vec(Expression::Integer(Integer(-1)), e);
    proof {
        assert(views_of(v@) == seq![Expr::Int(-1), ev]);
    }
    Expression::Product(Product(v))
}

/// The basic level, exactly as `g_basic` states it.
#[verifier::rlimit(60)]
#[verifier::spinoff_prover]
fn p_basic(ts: &Vec<Token>, i: usize) -> (r: Result<(Expression, usize), ParseError>)
    requires
        i <= ts@.len(),
    ensures
        match r {
            Ok(p) => i < p.1 <= ts@.len() && g_basic(crate::lexer::toks_of(ts@), i as int)
                == Ok::<(Expr, int), ParseError>((view_of(p.0), p.1 as int)),
            Err(er) => g_basic(crate::lexer::toks_of(ts@), i as int) == Err::<
                (Expr, int),
                ParseError,
            >(er),
        },
    decreases ts@.len() - i, 1int,
{
    proof {
        crate::lexer::lemma_toks_of(ts@);
    }
    if i >= ts.len() {
        return Err(ParseError::InvalidSyntax);
    }
    match &ts[i] {
        Token::Integer(n) => Ok((Expression::Integer(Integer(*n)), i + 1)),
        Token::Decimal(n, d) => Ok((Expression::Rational(Rational(*n, *d)), i + 1)),
        Token::Identifier(nm) => {
            match p_basic(ts, i + 1) {
                Ok((arg, j)) => Ok((Expression::Function(Function::new(nm.clone(), arg)), j)),
                Err(_) => Ok((Expression::Variable(Variable::new(nm.clone())), i + 1)),
            }
        },
        Token::Pipe => {
            match p_addition(ts, i + 1) {
                Err(er) => Err(er),
                Ok((e, j)) => {
                    let k = if j < ts.len() && matches!(&ts[j], Token::Pipe) {
                        j + 1
                    } else {
                        j
                    };
                    Ok((Expression::Function(Function::new("abs".to_owned(), e)), k))
                },
            }
        },
        Token::LeftParen => {
            match p_addition(ts, i + 1) {
                Err(er) => Err(er),
                Ok((e, j)) => {
                    let k = if j < ts.len() && matches!(&ts[j], Token::RightParen) {
                        j + 1
                    } else {
                        j
                    };
                    Ok((e, k))
                },
            }
        },
        Token::LeftBrack => {
            match p_addition(ts, i + 1) {
                Err(er) => Err(er),
                Ok((e, j)) => {
                    let k = if j < ts.len() && matches!(&ts[j], Token::RightBrack) {
                        j + 1
                    } else {
                        j
                    };
                    Ok((e, k))
                },
            }
        },
        _ => Err(ParseError::InvalidSyntax),
    }
}

} // verus!
