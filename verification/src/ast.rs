use vstd::prelude::*;

verus! {

/// The kind of a named unary function: four distinguished names, and any
/// other identifier kept as an opaque symbolic function.
pub ghost enum FuncKind {
    Sqrt,
    Cbrt,
    Log,
    Ln,
    Other(Seq<char>),
}

/// The mathematical model of an expression tree. Every `Expression` views to
/// an `Expr`, and the contracts of the simplifier are stated over this type.
pub ghost enum Expr {
    /// A signed machine-word integer.
    Int(int),
    /// A ratio of two signed machine-word integers.
    Rat(int, int),
    /// A symbolic variable, named by its identifier.
    Var(Seq<char>),
    /// A base raised to an exponent.
    Pow(Box<Expr>, Box<Expr>),
    /// An ordered sequence of factors.
    Prod(Seq<Expr>),
    /// An ordered sequence of terms.
    Sum(Seq<Expr>),
    /// A named unary function applied to an argument.
    Func(FuncKind, Box<Expr>),
}

impl Expr {
    /// True of the numeric leaves: integers and rationals.
    pub open spec fn is_numeric(self) -> bool {
        self is Int || self is Rat
    }
}

/// The number of nodes of an expression tree; the structural measure that
/// recursive definitions over `Expr` decrease.
pub open spec fn esize(e: Expr) -> nat
    decreases e,
{
    1 + match e {
        Expr::Int(_) => 0,
        Expr::Rat(_, _) => 0,
        Expr::Var(_) => 0,
        Expr::Pow(b, x) => esize(*b) + esize(*x),
        Expr::Prod(fs) => esize_seq(fs),
        Expr::Sum(ts) => esize_seq(ts),
        Expr::Func(_, a) => esize(*a),
    }
}

/// Total node count of a sequence of trees.
pub open spec fn esize_seq(s: Seq<Expr>) -> nat
    decreases s,
{
    if s.len() == 0 {
        0
    } else {
        esize(s[0]) + esize_seq(s.subrange(1, s.len() as int))
    }
}

/// Each element of a sequence is no larger than the whole sequence.
pub proof fn lemma_esize_seq_elem(s: Seq<Expr>, i: int)
    requires
        0 <= i < s.len(),
    ensures
        esize(s[i]) <= esize_seq(s),
    decreases s.len(),
{
    if i == 0 {
        assert(esize_seq(s) == esize(s[0]) + esize_seq(s.subrange(1, s.len() as int)));
    } else {
        let rest = s.subrange(1, s.len() as int);
        lemma_esize_seq_elem(rest, i - 1);
        assert(rest[i - 1] == s[i]);
    }
}

/// A singleton sequence weighs exactly its one element.
pub proof fn lemma_esize_singleton(e: Expr)
    ensures
        esize_seq(seq![e]) == esize(e),
{
    assert(seq![e].subrange(1, 1) =~= Seq::<Expr>::empty());
    assert(esize_seq(Seq::<Expr>::empty()) == 0);
}

/// The base of an expression viewed as a power: a power's own base, or the
/// expression itself.
pub open spec fn spec_base(e: Expr) -> Expr {
    match e {
        Expr::Pow(b, _) => *b,
        _ => e,
    }
}

/// The exponent of an expression viewed as a power: a power's own exponent,
/// or the integer one.
pub open spec fn spec_exponent(e: Expr) -> Expr {
    match e {
        Expr::Pow(_, x) => *x,
        _ => Expr::Int(1),
    }
}

/// An expression coerced to a sequence of factors: a product's factors, or
/// the singleton holding the expression itself.
pub open spec fn to_factors(e: Expr) -> Seq<Expr> {
    match e {
        Expr::Prod(fs) => fs,
        _ => seq![e],
    }
}

/// An expression coerced to a sequence of terms: a sum's terms, or the
/// singleton holding the expression itself.
pub open spec fn to_terms(e: Expr) -> Seq<Expr> {
    match e {
        Expr::Sum(ts) => ts,
        _ => seq![e],
    }
}

/// The term part of a factor sequence: everything after a leading numeric
/// coefficient, or the whole sequence when no factor leads with a number.
pub open spec fn term_of_factors(fs: Seq<Expr>) -> Seq<Expr> {
    if fs.len() > 0 && fs[0].is_numeric() {
        fs.subrange(1, fs.len() as int)
    } else {
        fs
    }
}

/// The coefficient of a factor sequence: a leading numeric factor, or the
/// integer one when there is none.
pub open spec fn coeff_of_factors(fs: Seq<Expr>) -> Expr {
    if fs.len() > 0 && fs[0].is_numeric() {
        fs[0]
    } else {
        Expr::Int(1)
    }
}

/// The term part of an expression: a product delegates to its factors, any
/// other expression is its own (singleton) term.
pub open spec fn spec_term(e: Expr) -> Seq<Expr> {
    match e {
        Expr::Prod(fs) => term_of_factors(fs),
        _ => seq![e],
    }
}

} // verus!
