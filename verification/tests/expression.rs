use locales::parser::expression::{CallExpression, Expression, Failure, ParseError};
use locales::parser::tokenizer::TokenStream;
use locales::parser::{parse_expression, try_parse_expression, ParseError as SourceError, SourceFailure};
use locales::span::Span;

fn tokens(expr: &str) -> TokenStream {
    expr.parse().unwrap()
}

fn var(name: &str) -> Box<Expression> {
    Box::new(Expression::Variable(name.into(), Span::default()))
}

fn parsed(expr: &str) -> Expression {
    Expression::parse(tokens(expr)).unwrap()
}

#[test]
fn simple_expressions() {
    let s = Span::default();
    assert_eq!(parsed("var"), Expression::Variable("var".into(), s));
    assert_eq!(parsed("\"string\""), Expression::String("string".into(), s));
    assert_eq!(parsed("1"), Expression::Int(1, s));
    assert_eq!(parsed("1.0"), Expression::Float("1.0".into(), s));
    assert_eq!(parsed("true"), Expression::Bool(true, s));
    assert_eq!(parsed("!var"), Expression::Not(var("var"), s));
    assert_eq!(parsed("-var"), Expression::Minus(var("var"), s));
}

#[test]
fn unary_and_binary_minus() {
    let s = Span::default();
    assert_eq!(
        parsed("10 * -var"),
        Expression::Mul(
            Box::new(Expression::Int(10, s)),
            Box::new(Expression::Minus(var("var"), s)),
            s
        )
    );
    assert_eq!(
        parsed("10 -var"),
        Expression::Sub(Box::new(Expression::Int(10, s)), var("var"), s)
    );
    assert_eq!(
        parsed("-!-!1"),
        Expression::Minus(
            Box::new(Expression::Not(
                Box::new(Expression::Minus(
                    Box::new(Expression::Not(Box::new(Expression::Int(1, s)), s)),
                    s
                )),
                s
            )),
            s
        )
    );
}

#[test]
fn function_call() {
    let s = Span::default();
    assert_eq!(
        parsed("f(a, x + y, !(true))"),
        Expression::Call(
            CallExpression {
                callee: "f".into(),
                arguments: vec![
                    Expression::Variable("a".into(), s),
                    Expression::Add(var("x"), var("y"), s),
                    Expression::Not(Box::new(Expression::Bool(true, s)), s),
                ],
            },
            s
        )
    );
    assert_eq!(
        parsed("g()"),
        Expression::Call(CallExpression { callee: "g".into(), arguments: vec![] }, s)
    );
}

#[test]
fn precedence_and_associativity() {
    let s = Span::default();
    assert_eq!(
        parsed("a + b * c"),
        Expression::Add(var("a"), Box::new(Expression::Mul(var("b"), var("c"), s)), s)
    );
    assert_eq!(
        parsed("a - b - c"),
        Expression::Sub(Box::new(Expression::Sub(var("a"), var("b"), s)), var("c"), s)
    );
    assert_eq!(
        parsed("a || b && c == d"),
        Expression::Or(
            var("a"),
            Box::new(Expression::And(
                var("b"),
                Box::new(Expression::Eq(var("c"), var("d"), s)),
                s
            )),
            s
        )
    );
    assert_eq!(
        parsed("(a + b) * c"),
        Expression::Mul(Box::new(Expression::Add(var("a"), var("b"), s)), var("c"), s)
    );
}

fn error_span(expr: &str) -> Option<Span> {
    match Expression::parse(tokens(expr)).unwrap_err() {
        ParseError::UnexpectedToken { span } => Some(span),
        ParseError::EndOfInput => None,
    }
}

#[test]
fn invalid_expression() {
    assert_eq!(error_span(""), None);
    assert_eq!(error_span("()"), None);
    assert_eq!(error_span("a + () + b"), None);
    assert_eq!(error_span("((x)"), None);
    assert_eq!(error_span("a)"), Some(Span::new(1, 1)));
    assert_eq!(error_span("a+*b"), Some(Span::new(2, 2)));
    assert_eq!(error_span("*"), Some(Span::new(0, 0)));
    assert_eq!(error_span("f(,1,2)"), Some(Span::new(2, 2)));
    assert_eq!(error_span("f(0,,2)"), Some(Span::new(3, 3)));
    assert_eq!(error_span("f(0,1,)"), Some(Span::new(5, 5)));
    assert_eq!(error_span("x + !*"), Some(Span::new(4, 4)));
    assert_eq!(error_span("x + -*"), Some(Span::new(4, 4)));
}

#[test]
fn consistency_check_failure() {
    assert_eq!(Expression::try_parse(tokens("a b")).unwrap_err(), Failure::Abort);
    assert_eq!(Expression::try_parse(tokens("a, b")).unwrap_err(), Failure::Abort);
}

#[test]
fn spans_of_expressions() {
    let e = parsed("a + bc");
    assert_eq!(e.span(), Span::new(0, 5));
    let e = parsed("f(x)");
    assert_eq!(e.span(), Span::new(0, 3));
    let e = parsed("!x");
    assert_eq!(e.span(), Span::new(0, 1));
}

#[test]
fn parse_from_source() {
    assert!(matches!(parse_expression("1 +"), Err(SourceError::Expression(_))));
    assert!(matches!(parse_expression("1a"), Err(SourceError::Tokenizer(_))));
    assert_eq!(
        parse_expression("n % 10 == 1").unwrap(),
        Expression::Eq(
            Box::new(Expression::Mod(var("n"), Box::new(Expression::Int(10, Span::default())), Span::default())),
            Box::new(Expression::Int(1, Span::default())),
            Span::default()
        )
    );
    assert!(Expression::from_source("a && b".to_string()).is_ok());
}

#[test]
fn equality_ignores_spans() {
    let a = Expression::Variable("x".into(), Span::new(0, 0));
    let b = Expression::Variable("x".into(), Span::new(5, 7));
    assert_eq!(a, b);
    assert_ne!(a, Expression::String("x".into(), Span::new(0, 0)));
}

#[test]
fn equality_is_an_equivalence() {
    let a = parsed("f(x, 1) + !y");
    let b = parsed("f( x ,1 )+!y");
    let c = parsed("  f(x,   1)   +   ! y");
    assert_eq!(a, a);
    assert_eq!(a, b);
    assert_eq!(b, a);
    assert_eq!(b, c);
    assert_eq!(a, c);
    assert_ne!(a, parsed("f(x, 2) + !y"));
}

#[test]
fn reading_without_a_precondition() {
    assert_eq!(try_parse_expression("a b").unwrap_err(), SourceFailure::Abort);
    assert!(matches!(
        try_parse_expression("1a"),
        Err(SourceFailure::Error(SourceError::Tokenizer(_)))
    ));
    assert!(matches!(
        try_parse_expression("1 +"),
        Err(SourceFailure::Error(SourceError::Expression(_)))
    ));
    assert_eq!(try_parse_expression("x * 2").unwrap(), parsed("x * 2"));
    assert_eq!(Expression::try_from_source("a, b".to_string()).unwrap_err(), SourceFailure::Abort);
    assert!(Expression::try_from_source("f(a, b)".to_string()).is_ok());
}

#[test]
fn operators_bind_by_level_then_from_the_left() {
    assert_eq!(parsed("a * b + c"), parsed("(a * b) + c"));
    assert_eq!(parsed("a + b * c"), parsed("a + (b * c)"));
    assert_eq!(parsed("a - b - c"), parsed("(a - b) - c"));
    assert_eq!(parsed("a || b && c"), parsed("a || (b && c)"));
    assert_eq!(parsed("a == b || c < d"), parsed("(a == b) || (c < d)"));
    assert_ne!(parsed("a - b - c"), parsed("a - (b - c)"));
}

fn float(text: &str) -> Expression {
    Expression::Float(text.into(), Span::default())
}

#[test]
fn floats_compare_by_the_number_they_denote() {
    assert_eq!(float("1.0"), float("1.00"));
    assert_eq!(float("1e2"), float("100.0"));
    assert_eq!(float("1e-5"), float("0.00001"));
    assert_eq!(float("0.0"), float("-0.0"));
    assert_eq!(float("+2.5"), float("25E-1"));
    assert_eq!(float("inf"), float("Infinity"));
    assert_eq!(float("-inf"), float("-INF"));
    assert_eq!(
        float("1e99999999999999999999999999999999999"),
        float("10.0e99999999999999999999999999999999998")
    );
    assert_ne!(float("inf"), float("-inf"));
    assert_ne!(float("2.5"), float("2.50001"));
    assert_ne!(float("1.0"), float("-1.0"));
    assert_ne!(float("0.0"), float("0.001"));
}

#[test]
fn a_nan_literal_equals_nothing() {
    assert_ne!(float("NaN"), float("NaN"));
    assert_ne!(float("nan"), float("1.0"));
    let e = parsed("f(NaN)");
    assert_ne!(e, parsed("f(NaN)"));
    assert_eq!(parsed("f(1.50)"), parsed("f(1.5)"));
}
