use locales::parser::expression::Expression;
use locales::parser::template::{ParseError, Template, TemplateFailure};
use locales::parser::{SourceFailure, ParseError as SourceError};
use locales::span::Span;

fn template(s: &str) -> Template {
    Template::parse(s).unwrap()
}

#[test]
fn simple() {
    let template = template("Hello world");
    assert_eq!(template.strings, ["Hello world"]);
    assert!(template.substitutions.is_empty());
}

#[test]
fn escape() {
    let template = template("Hello {{ world }");
    assert_eq!(template.strings, ["Hello { world }"]);
    assert!(template.substitutions.is_empty());
}

#[test]
fn substitutions() {
    let span = Span::default();
    let template = template("{a} Hello {b} world {c}");
    assert_eq!(template.strings, ["", " Hello ", " world ", ""]);
    assert_eq!(
        template.substitutions,
        [
            Expression::Variable("a".into(), span),
            Expression::Variable("b".into(), span),
            Expression::Variable("c".into(), span)
        ]
    );
}

#[test]
fn uncompleted_substitution() {
    assert!(matches!(
        Template::parse("Hello {name"),
        Err(ParseError::UncompletedSubstitution)
    ));
}

#[test]
fn substitution_errors() {
    assert!(matches!(Template::parse("x {&}"), Err(ParseError::Tokenizer(_))));
    assert!(matches!(Template::parse("x {}"), Err(ParseError::Expression(_))));
    assert!(matches!(
        Template::try_parse("x {a b}"),
        Err(TemplateFailure::Abort)
    ));
}

#[test]
fn one_more_string_than_substitutions() {
    for text in ["", "plain", "{a}", "x {a} y {b + 1}", "{{ {a}{b} }}"] {
        let t = template(text);
        assert_eq!(t.strings.len(), t.substitutions.len() + 1, "{text}");
    }
}

#[test]
fn plain_text_is_one_string() {
    let t = template("no braces here: a + b }");
    assert_eq!(t.strings, ["no braces here: a + b }"]);
    assert!(t.substitutions.is_empty());
}

#[test]
fn reading_from_source_without_a_precondition() {
    assert_eq!(Template::try_from_source("x {a b}".to_string()).unwrap_err(), SourceFailure::Abort);
    assert!(matches!(
        Template::try_from_source("Hello {name".to_string()),
        Err(SourceFailure::Error(SourceError::Template(ParseError::UncompletedSubstitution)))
    ));
    let t = Template::try_from_source("Hi {n}!".to_string()).unwrap();
    assert_eq!(t.strings, ["Hi ", "!"]);
}
