use core::cmp::Ordering;

use symalg::errors::UndefinedError;
use symalg::expression::{expr_eq, Expression};
use symalg::traits::Simplify;
use symalg::order::cmp_expr;
use symalg::types::{Function, Integer, Power, Product, Rational, Sum, Variable};

fn num(n: i32) -> Expression {
    Expression::Integer(Integer::new(n))
}

fn rat(p: i32, q: i32) -> Expression {
    Expression::Rational(Rational::new(p, q))
}

fn var(name: &str) -> Expression {
    Expression::Variable(Variable::new(name.to_string()))
}

fn pow(base: Expression, exp: Expression) -> Expression {
    Expression::Power(Power::new(base, exp))
}

fn product(values: Vec<Expression>) -> Expression {
    Expression::Product(Product::new(values))
}

fn sum(values: Vec<Expression>) -> Expression {
    Expression::Sum(Sum::new(values))
}

fn func(name: &str, arg: Expression) -> Expression {
    Expression::Function(Function::new(name.to_string(), arg))
}

#[test]
fn display_forms() {
    assert_eq!(num(42).display_string(), "42");
    assert_eq!(num(-7).display_string(), "-7");
    assert_eq!(rat(-1, 2).display_string(), "-1/2");
    assert_eq!(var("x").display_string(), "x");
    assert_eq!(pow(var("x"), num(3)).display_string(), "(x)^(3)");
    assert_eq!(
        sum(vec![num(1), var("x")]).display_string(),
        "(1 + x)"
    );
    assert_eq!(
        product(vec![num(5), pow(var("x"), num(3))]).display_string(),
        "(5 * (x)^(3))"
    );
    assert_eq!(func("sqrt", num(3)).display_string(), "sqrt(3)");
    assert_eq!(func("abs", var("y")).display_string(), "abs(y)");
    assert_eq!(sum(vec![]).display_string(), "()");
}

#[test]
fn display_of_simplified_scenarios() {
    let folded = product(vec![rat(-1, 2), num(10), num(-1), pow(var("x"), num(3))])
        .simplify()
        .unwrap();
    assert_eq!(folded.display_string(), "(5 * (x)^(3))");
    let root = func("sqrt", num(12)).simplify().unwrap();
    assert_eq!(root.display_string(), "(2 * (3)^(1/2))");
    let radical = pow(num(-54), rat(-2, 3)).simplify().unwrap();
    assert_eq!(radical.display_string(), "(1/9 * (1/4)^(1/3))");
}

#[test]
fn order_places_numbers_first() {
    assert_eq!(cmp_expr(&num(3), &num(5)), Ordering::Less);
    assert_eq!(cmp_expr(&num(5), &num(5)), Ordering::Equal);
    assert_eq!(cmp_expr(&num(5), &rat(1, 2)), Ordering::Less);
    assert_eq!(cmp_expr(&rat(1, 2), &rat(2, 3)), Ordering::Less);
    assert_eq!(cmp_expr(&rat(9, 2), &var("a")), Ordering::Less);
    assert_eq!(cmp_expr(&var("a"), &var("b")), Ordering::Less);
    assert_eq!(cmp_expr(&var("b"), &var("a")), Ordering::Greater);
}

#[test]
fn order_compares_functions_by_printed_name() {
    // cbrt(2) < ln(2) < log(2) < sqrt(2), and functions sit near variables
    assert_eq!(
        cmp_expr(&func("cbrt", num(2)), &func("ln", num(2))),
        Ordering::Less
    );
    assert_eq!(
        cmp_expr(&func("ln", num(2)), &func("log", num(2))),
        Ordering::Less
    );
    assert_eq!(
        cmp_expr(&func("log", num(2)), &func("sqrt", num(2))),
        Ordering::Less
    );
    assert_eq!(
        cmp_expr(&func("ln", num(2)), &func("ln", num(2))),
        Ordering::Equal
    );
    // "ln(2)" < "x" lexicographically
    assert_eq!(cmp_expr(&func("ln", num(2)), &var("x")), Ordering::Less);
    assert_eq!(cmp_expr(&var("a"), &func("ln", num(2))), Ordering::Less);
}

#[test]
fn order_wraps_lone_expressions() {
    // a power compares to a variable as that variable to the first power
    assert_eq!(
        cmp_expr(&pow(var("x"), num(2)), &var("x")),
        cmp_expr(&pow(var("x"), num(2)), &pow(var("x"), num(1)))
    );
    // a product compares to a lone factor as to its singleton product
    assert_eq!(
        cmp_expr(&product(vec![var("x")]), &var("x")),
        Ordering::Equal
    );
}

#[test]
fn base_and_term_views() {
    let p = pow(var("x"), num(3));
    assert!(expr_eq(p.base(), &var("x")));
    let plain = var("y");
    assert!(expr_eq(plain.base(), &var("y")));
    // the term of a product drops a leading numeric coefficient
    let prod = Product::new(vec![num(5), var("x"), var("y")]);
    let term = prod.term();
    assert_eq!(term.len(), 2);
    assert!(expr_eq(&term[0], &var("x")));
    // the term of a lone expression is the expression itself
    let single = var("z");
    let t = single.term();
    assert_eq!(t.len(), 1);
    assert!(expr_eq(&t[0], &var("z")));
}

#[test]
fn coefficient_of_a_product() {
    let with_coeff = Product::new(vec![rat(3, 2), var("x")]);
    let c = with_coeff.coeff().expect("leading numeric coefficient");
    assert!(expr_eq(c, &rat(3, 2)));
    let without = Product::new(vec![var("x"), var("y")]);
    assert!(without.coeff().is_none());
}

#[test]
fn adjoin_appends_a_factor() {
    let p = Product::new(vec![var("x")]).adjoin(num(2));
    assert_eq!(p.values().len(), 2);
    assert!(expr_eq(&p.values()[1], &num(2)));
}

#[test]
fn with_two_args_multiplies() {
    assert_eq!(
        Product::with_two_args(num(6), rat(1, 3)),
        Ok(num(2))
    );
    assert_eq!(
        Product::with_two_args(num(1), var("x")),
        Ok(var("x"))
    );
    assert_eq!(
        Product::with_two_args(var("x"), var("x")),
        Ok(pow(var("x"), num(2)))
    );
}

#[test]
fn rational_accessors_and_gcd() {
    let r = Rational::new(6, -4);
    assert_eq!(r.num(), 6);
    assert_eq!(r.den(), -4);
    assert_eq!(r.gcd(), 2);
    assert_eq!(Rational::new(0, 7).gcd(), 7);
    assert_eq!(Integer::new(9).num(), 9);
    assert_eq!(Variable::new("pi".to_string()).as_str(), "pi");
}

#[test]
fn deep_clone_copies_the_whole_tree() {
    let original = product(vec![num(2), pow(var("x"), rat(1, 2))]);
    let copy = original.deep_clone();
    assert_eq!(original, copy);
    assert!(expr_eq(&original, &copy));
}

#[test]
fn error_messages_are_printable() {
    assert_eq!(UndefinedError::DivisionByZero.message(), "division by zero");
    assert_eq!(
        UndefinedError::EvenRootOfNegative.message(),
        "negative value under an even root"
    );
}

#[test]
fn simplify_trait_is_offered_by_every_node() {
    assert_eq!(Integer::new(3).simplify(), Ok(num(3)));
    assert_eq!(Rational::new(4, 2).simplify(), Ok(num(2)));
    assert_eq!(Variable::new("x".to_string()).simplify(), Ok(var("x")));
    assert_eq!(Sum::new(vec![num(1), num(2)]).simplify(), Ok(num(3)));
    assert_eq!(Product::new(vec![num(2), num(2)]).simplify(), Ok(num(4)));
    assert_eq!(Power::new(num(2), num(3)).simplify(), Ok(num(8)));
    assert_eq!(
        Function::new("log".to_string(), num(100)).simplify(),
        Ok(num(2))
    );
}
