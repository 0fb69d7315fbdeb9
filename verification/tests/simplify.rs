use symalg::errors::UndefinedError;
use symalg::expression::Expression;
use symalg::types::{Function, Integer, Power, Product, Rational, Sum, Variable};

fn num(n: i32) -> Expression {
    Expression::Integer(Integer::new(n))
}

fn rat(p: i32, q: i32) -> Expression {
    Expression::Rational(Rational::new(p, q))
}

fn var(name: &str) -> Expression {
    Expression::Variable(Variable::new(name.to_string()))
}

fn pow(base: Expression, exp: Expression) -> Expression {
    Expression::Power(Power::new(base, exp))
}

fn product(values: Vec<Expression>) -> Expression {
    Expression::Product(Product::new(values))
}

fn sum(values: Vec<Expression>) -> Expression {
    Expression::Sum(Sum::new(values))
}

fn func(name: &str, arg: Expression) -> Expression {
    Expression::Function(Function::new(name.to_string(), arg))
}

fn simplified(e: Expression) -> Expression {
    e.simplify().expect("expected a defined result")
}

#[test]
fn integer_and_variable_stay() {
    assert_eq!(simplified(num(7)), num(7));
    assert_eq!(simplified(var("x")), var("x"));
}

#[test]
fn rational_reduces_to_lowest_terms() {
    assert_eq!(simplified(rat(6, 4)), rat(3, 2));
    assert_eq!(simplified(rat(-6, 4)), rat(-3, 2));
    assert_eq!(simplified(rat(6, -4)), rat(-3, 2));
    assert_eq!(simplified(rat(8, 4)), num(2));
    assert_eq!(simplified(rat(-8, 4)), num(-2));
    assert_eq!(simplified(rat(0, 5)), num(0));
}

#[test]
fn rational_with_zero_denominator_is_undefined() {
    assert_eq!(rat(1, 0).simplify(), Err(UndefinedError::DivisionByZero));
}

#[test]
fn coefficient_and_sign_folding() {
    // (-1/2) * 10 * (-1) * x^3 simplifies to 5 * x^3
    let input = product(vec![rat(-1, 2), num(10), num(-1), pow(var("x"), num(3))]);
    let expected = product(vec![num(5), pow(var("x"), num(3))]);
    assert_eq!(simplified(input), expected);
}

#[test]
fn like_factors_merge_across_products() {
    // (2*a*c*e) * (3*b*d*e) simplifies to 6 * a * b * c * d * e^2
    let lhs = product(vec![num(2), var("a"), var("c"), var("e")]);
    let rhs = product(vec![num(3), var("b"), var("d"), var("e")]);
    let expected = product(vec![
        num(6),
        var("a"),
        var("b"),
        var("c"),
        var("d"),
        pow(var("e"), num(2)),
    ]);
    assert_eq!(simplified(product(vec![lhs, rhs])), expected);
}

#[test]
fn inverse_factors_cancel() {
    // (a*c*e) * (a*c^(-1)*d*f) simplifies to a^2 * d * e * f
    let lhs = product(vec![var("a"), var("c"), var("e")]);
    let rhs = product(vec![var("a"), pow(var("c"), num(-1)), var("d"), var("f")]);
    let expected = product(vec![
        pow(var("a"), num(2)),
        var("d"),
        var("e"),
        var("f"),
    ]);
    assert_eq!(simplified(product(vec![lhs, rhs])), expected);
}

#[test]
fn radical_extraction_negative_base() {
    // (-54)^(-2/3): 27 is extracted, 3^(-2) folds to 1/9, and (-2)^(-2)
    // folds to 1/4 under the remaining cube root
    let input = pow(num(-54), rat(-2, 3));
    let expected = product(vec![rat(1, 9), pow(rat(1, 4), rat(1, 3))]);
    assert_eq!(simplified(input), expected);
}

#[test]
fn square_root_extracts_perfect_squares() {
    // sqrt(12) simplifies to 2 * 3^(1/2)
    let input = func("sqrt", num(12));
    let expected = product(vec![num(2), pow(num(3), rat(1, 2))]);
    assert_eq!(simplified(input), expected);
}

#[test]
fn square_root_of_prime_stays_wrapped() {
    let input = func("sqrt", num(3));
    let expected = func("sqrt", num(3));
    assert_eq!(simplified(input), expected);
}

#[test]
fn cube_root_of_perfect_cube() {
    // the whole base is extracted; a symbolic 1^(1/3) remains inside
    let input = func("cbrt", num(8));
    let expected = product(vec![num(2), pow(num(1), rat(1, 3))]);
    assert_eq!(simplified(input), expected);
}

#[test]
fn logarithm_rules() {
    // ln(e^3) = 3, log(1000) = 3, log(0) is undefined
    assert_eq!(simplified(func("ln", pow(var("e"), num(3)))), num(3));
    assert_eq!(simplified(func("log", num(1000))), num(3));
    assert_eq!(
        func("log", num(0)).simplify(),
        Err(UndefinedError::NonPositiveLogarithm)
    );
    assert_eq!(
        func("ln", num(-5)).simplify(),
        Err(UndefinedError::NonPositiveLogarithm)
    );
    assert_eq!(simplified(func("ln", num(1))), num(0));
    assert_eq!(simplified(func("ln", var("e"))), num(1));
    assert_eq!(simplified(func("log", num(7))), func("log", num(7)));
}

#[test]
fn opaque_functions_are_preserved() {
    let input = func("abs", sum(vec![num(2), num(3)]));
    assert_eq!(simplified(input), func("abs", num(5)));
}

#[test]
fn zero_to_nonpositive_power_is_undefined() {
    assert_eq!(
        pow(num(0), num(0)).simplify(),
        Err(UndefinedError::IndeterminateZeroPowerZero)
    );
    assert_eq!(
        pow(num(0), num(-2)).simplify(),
        Err(UndefinedError::IndeterminateZeroPowerZero)
    );
    assert_eq!(simplified(pow(num(0), num(5))), num(0));
}

#[test]
fn even_root_of_negative_is_undefined() {
    assert_eq!(
        pow(num(-4), rat(1, 2)).simplify(),
        Err(UndefinedError::EvenRootOfNegative)
    );
    assert_eq!(
        func("sqrt", num(-4)).simplify(),
        Err(UndefinedError::EvenRootOfNegative)
    );
}

#[test]
fn integer_power_overflow_is_reported() {
    assert_eq!(pow(num(2), num(40)).simplify(), Err(UndefinedError::Overflow));
}

#[test]
fn empty_sum_is_zero_and_empty_product_is_one() {
    assert_eq!(simplified(sum(vec![])), num(0));
    assert_eq!(simplified(product(vec![])), num(1));
}

#[test]
fn numeric_folding_scenarios() {
    assert_eq!(simplified(sum(vec![rat(1, 2), rat(1, 3)])), rat(5, 6));
    assert_eq!(simplified(sum(vec![num(1), num(2), num(3), num(4)])), num(10));
    assert_eq!(simplified(product(vec![num(2), num(3), num(4)])), num(24));
    assert_eq!(simplified(product(vec![rat(2, 3), rat(3, 2)])), num(1));
    assert_eq!(simplified(sum(vec![num(1), rat(1, 2)])), rat(3, 2));
}

#[test]
fn product_with_zero_collapses() {
    let input = product(vec![var("x"), num(0), var("y")]);
    assert_eq!(simplified(input), num(0));
}

#[test]
fn like_terms_combine() {
    // 2x + 3x = 5x
    let input = sum(vec![
        product(vec![num(2), var("x")]),
        product(vec![num(3), var("x")]),
    ]);
    assert_eq!(simplified(input), product(vec![num(5), var("x")]));
    // x + x = 2x
    let twice = sum(vec![var("x"), var("x")]);
    assert_eq!(simplified(twice), product(vec![num(2), var("x")]));
    // x - x = 0
    let cancel = sum(vec![var("x"), product(vec![num(-1), var("x")])]);
    assert_eq!(simplified(cancel), num(0));
}

#[test]
fn canonicalization_makes_equal_values_identical() {
    // the same factors in any order give structurally identical trees
    let one = simplified(product(vec![var("x"), num(2)]));
    let two = simplified(product(vec![num(2), var("x")]));
    assert_eq!(one, two);
    let three = simplified(sum(vec![var("y"), var("x"), num(1)]));
    let four = simplified(sum(vec![num(1), var("x"), var("y")]));
    assert_eq!(three, four);
}

#[test]
fn order_is_stable_in_results() {
    // children of a simplified sum come out sorted: numbers first, then names
    let result = simplified(sum(vec![var("c"), var("a"), num(4), var("b")]));
    let expected = sum(vec![num(4), var("a"), var("b"), var("c")]);
    assert_eq!(result, expected);
}

#[test]
fn rational_base_distributes() {
    // (2/3)^2 = 4/9
    assert_eq!(simplified(pow(rat(2, 3), num(2))), rat(4, 9));
    // (2/3)^(-1) = 3/2
    assert_eq!(simplified(pow(rat(2, 3), num(-1))), rat(3, 2));
}

#[test]
fn nested_powers_multiply_exponents() {
    // (x^2)^3 = x^6
    let input = pow(pow(var("x"), num(2)), num(3));
    assert_eq!(simplified(input), pow(var("x"), num(6)));
}

#[test]
fn power_distributes_over_product() {
    // (x*y)^2 = x^2 * y^2
    let input = pow(product(vec![var("x"), var("y")]), num(2));
    let expected = product(vec![pow(var("x"), num(2)), pow(var("y"), num(2))]);
    assert_eq!(simplified(input), expected);
}

#[test]
fn deep_budget_exhaustion_is_reported() {
    // an explicit tiny budget stops the rewrite
    let input = product(vec![num(2), num(3)]);
    assert_eq!(
        symalg::expression::simplify_fueled(input, 1),
        Err(UndefinedError::DepthExceeded)
    );
}
