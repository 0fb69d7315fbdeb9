use symalg::errors::UndefinedError;
use symalg::expression::Expression;
use symalg::lexer::{LexError, Lexer, Token};
use symalg::parser::{ParseError, Parser};

fn pipeline(line: &str) -> Result<Expression, String> {
    let tokens = Lexer::new(line.to_string())
        .tokens()
        .map_err(|e| e.message())?;
    let parsed = Parser::new(tokens)
        .parse()
        .map_err(|e| e.message().to_string())?;
    parsed.simplify().map_err(|e| e.message().to_string())
}

fn display_of(line: &str) -> String {
    pipeline(line).expect("expected a defined result").display_string()
}

#[test]
fn lexer_tokenizes_the_surface_language() {
    let toks = Lexer::new("2 + 30*x ^ (y - 4)".to_string()).tokens().unwrap();
    assert_eq!(
        toks,
        vec![
            Token::Integer(2),
            Token::Plus,
            Token::Integer(30),
            Token::Star,
            Token::Identifier("x".to_string()),
            Token::Caret,
            Token::LeftParen,
            Token::Identifier("y".to_string()),
            Token::Minus,
            Token::Integer(4),
            Token::RightParen,
        ]
    );
}

#[test]
fn lexer_reads_decimals_exactly() {
    let toks = Lexer::new("3.25".to_string()).tokens().unwrap();
    assert_eq!(toks, vec![Token::Decimal(325, 100)]);
    let toks = Lexer::new(".5".to_string()).tokens().unwrap();
    assert_eq!(toks, vec![Token::Decimal(5, 10)]);
    let toks = Lexer::new("5.".to_string()).tokens().unwrap();
    assert_eq!(toks, vec![Token::Decimal(5, 1)]);
}

#[test]
fn lexer_refuses_bad_input() {
    assert_eq!(
        Lexer::new("1.2.3".to_string()).tokens(),
        Err(LexError::InvalidNumber("1.2.3".to_string()))
    );
    assert_eq!(
        Lexer::new("2 # 3".to_string()).tokens(),
        Err(LexError::InvalidCharacter('#'))
    );
}

#[test]
fn parser_refuses_bad_streams() {
    let empty = Parser::new(vec![]);
    assert_eq!(empty.parse(), Err(ParseError::EmptyExpression));
    let leftover = Parser::new(vec![Token::Integer(1), Token::Integer(2)]);
    assert_eq!(leftover.parse(), Err(ParseError::InvalidSyntax));
    let dangling = Parser::new(vec![Token::Integer(1), Token::Plus]);
    assert_eq!(dangling.parse(), Err(ParseError::InvalidSyntax));
}

#[test]
fn whole_pipeline_scenarios() {
    assert_eq!(display_of("(-1/2) * 10 * (-1) * x^3"), "(5 * (x)^(3))");
    assert_eq!(
        display_of("(2*a*c*e) * (3*b*d*e)"),
        "(6 * a * b * c * d * (e)^(2))"
    );
    assert_eq!(
        display_of("(a*c*e) * (a*c^(-1)*d*f)"),
        "((a)^(2) * d * e * f)"
    );
    assert_eq!(display_of("(-54)^(-2/3)"), "(1/9 * (1/4)^(1/3))");
    assert_eq!(display_of("sqrt(12)"), "(2 * (3)^(1/2))");
    assert_eq!(display_of("ln(e^3)"), "3");
    assert_eq!(display_of("log(1000)"), "3");
    assert_eq!(
        pipeline("log(0)"),
        Err(UndefinedError::NonPositiveLogarithm.message().to_string())
    );
}

#[test]
fn lexer_skips_whitespace_and_reports_overflow() {
    assert_eq!(Lexer::new("   \t\n".to_string()).tokens(), Ok(vec![]));
    assert_eq!(
        Lexer::new("99999999999".to_string()).tokens(),
        Err(LexError::InvalidNumber("99999999999".to_string()))
    );
    let whitespace_only = Parser::new(Lexer::new(" ".to_string()).tokens().unwrap());
    assert_eq!(whitespace_only.parse(), Err(ParseError::EmptyExpression));
}

#[test]
fn grammar_shapes() {
    // the caret is right-associative
    assert_eq!(display_of("2 ^ 3 ^ 2"), "512");
    // division becomes a reciprocal factor
    assert_eq!(display_of("3 / 4"), "3/4");
    // subtraction becomes a negated summand
    assert_eq!(display_of("5 - 2"), "3");
    // brackets group like parentheses; pipes read as an absolute value
    assert_eq!(display_of("[1 + 2] * 3"), "9");
    assert_eq!(display_of("|1 - 4|"), "abs(-3)");
    // an identifier followed by a basic expression is a function call
    assert_eq!(display_of("g 2"), "g(2)");
    // an identifier on its own is a variable
    assert_eq!(display_of("g + 1"), "(1 + g)");
    // decimals become exact rationals
    assert_eq!(display_of("0.5 + 0.25"), "3/4");
}
