pub mod content;
pub mod expression;
pub mod float;
pub mod joining;
pub mod template;
pub mod tokenizer;

use crate::parser::expression::{parse_tokens, ExprV, Expression, Failure};
use crate::parser::template::{parse_template, Template, TemplateFailure, TemplateV};
use crate::parser::tokenizer::{lex, TokenStream};
use vstd::prelude::*;

verus! {

/// Errors of reading an expression or a template from its source text.
#[derive(Debug, Clone, Copy, PartialEq, Eq, Structural)]
pub enum ParseError {
    Tokenizer(tokenizer::ParseError),
    Expression(expression::ParseError),
    Template(template::ParseError),
}

/// Whether reading `s` as an expression reaches the parser's failing
/// consistency check.
pub open spec fn expression_source_aborts(s: Seq<char>) -> bool {
    lex(s, 0) matches Ok(ts) && parse_tokens(ts) == Err::<ExprV, Failure>(Failure::Abort)
}

/// What reading `s` as an expression gives, where it does not abort.
pub open spec fn expression_source_result(s: Seq<char>) -> Result<ExprV, ParseError> {
    match lex(s, 0) {
        Err(e) => Err(ParseError::Tokenizer(e)),
        Ok(ts) => match parse_tokens(ts) {
            Ok(x) => Ok(x),
            Err(Failure::Error(e)) => Err(ParseError::Expression(e)),
            Err(Failure::Abort) => Err(ParseError::Expression(expression::ParseError::EndOfInput)),
        },
    }
}

/// How reading a source text can fail: with an error, or at the parser's
/// failing consistency check.
#[derive(Debug, Clone, Copy, PartialEq, Eq, Structural)]
pub enum SourceFailure {
    Error(ParseError),
    Abort,
}

/// What reading `s` as an expression gives, the failing consistency check
/// included.
pub open spec fn expression_source_outcome(s: Seq<char>) -> Result<ExprV, SourceFailure> {
    match lex(s, 0) {
        Err(e) => Err(SourceFailure::Error(ParseError::Tokenizer(e))),
        Ok(ts) => match parse_tokens(ts) {
            Ok(x) => Ok(x),
            Err(Failure::Error(e)) => Err(SourceFailure::Error(ParseError::Expression(e))),
            Err(Failure::Abort) => Err(SourceFailure::Abort),
        },
    }
}

/// Reads an expression from its source text, reporting through
/// `SourceFailure::Abort` the inputs on which the parser's consistency check fails.
pub fn try_parse_expression(input: &str) -> (res: Result<Expression, SourceFailure>)
    ensures
        match expression_source_outcome(input@) {
            Ok(x) => res matches Ok(e) && e@ == x,
            Err(f) => res == Err::<Expression, SourceFailure>(f),
        },
{
    let tokens = match TokenStream::tokenize(input) {
        Ok(t) => t,
        Err(e) => {
            return Err(SourceFailure::Error(ParseError::Tokenizer(e)));
        },
    };
    match Expression::try_parse(tokens) {
        Ok(e) => Ok(e),
        Err(Failure::Error(e)) => Err(SourceFailure::Error(ParseError::Expression(e))),
        Err(Failure::Abort) => Err(SourceFailure::Abort),
    }
}

/// Reads an expression from its source text: tokens first, then the expression.
pub fn parse_expression(input: &str) -> (res: Result<Expression, ParseError>)
    requires
        !expression_source_aborts(input@),
    ensures
        match expression_source_result(input@) {
            Ok(x) => res matches Ok(e) && e@ == x,
            Err(err) => res == Err::<Expression, ParseError>(err),
        },
{
    let tokens = match TokenStream::tokenize(input) {
        Ok(t) => t,
        Err(e) => {
            return Err(ParseError::Tokenizer(e));
        },
    };
    match Expression::parse(tokens) {
        Ok(e) => Ok(e),
        Err(e) => Err(ParseError::Expression(e)),
    }
}

impl Expression {
    /// Reads an expression from the source text of a locale file.
    pub fn from_source(source: String) -> (res: Result<Expression, ParseError>)
        requires
            !expression_source_aborts(source@),
        ensures
            match expression_source_result(source@) {
                Ok(x) => res matches Ok(e) && e@ == x,
                Err(err) => res == Err::<Expression, ParseError>(err),
            },
    {
        parse_expression(source.as_str())
    }
}

impl Expression {
    /// Reads an expression from the source text of a locale file, reporting
    /// the failing consistency check as `SourceFailure::Abort`.
    pub fn try_from_source(source: String) -> (res: Result<Expression, SourceFailure>)
        ensures
            match expression_source_outcome(source@) {
                Ok(x) => res matches Ok(e) && e@ == x,
                Err(f) => res == Err::<Expression, SourceFailure>(f),
            },
    {
        try_parse_expression(source.as_str())
    }
}

impl Template {
    /// Reads a template from the source text of a locale file, reporting the
    /// failing consistency check as `SourceFailure::Abort`.
    pub fn try_from_source(source: String) -> (res: Result<Template, SourceFailure>)
        ensures
            match parse_template(source@) {
                Ok(t) => res matches Ok(x) && x@ == t,
                Err(TemplateFailure::Error(e)) => res == Err::<Template, SourceFailure>(
                    SourceFailure::Error(ParseError::Template(e)),
                ),
                Err(TemplateFailure::Abort) => res == Err::<Template, SourceFailure>(SourceFailure::Abort),
            },
    {
        match Template::try_parse(source.as_str()) {
            Ok(t) => Ok(t),
            Err(TemplateFailure::Error(e)) => Err(SourceFailure::Error(ParseError::Template(e))),
            Err(TemplateFailure::Abort) => Err(SourceFailure::Abort),
        }
    }

    /// Reads a template from the source text of a locale file.
    pub fn from_source(source: String) -> (res: Result<Template, ParseError>)
        requires
            parse_template(source@) != Err::<TemplateV, TemplateFailure>(TemplateFailure::Abort),
        ensures
            match parse_template(source@) {
                Ok(t) => res matches Ok(x) && x@ == t,
                Err(TemplateFailure::Error(e)) => res == Err::<Template, ParseError>(ParseError::Template(e)),
                Err(TemplateFailure::Abort) => false,
            },
    {
        match Template::parse(source.as_str()) {
            Ok(t) => Ok(t),
            Err(e) => Err(ParseError::Template(e)),
        }
    }
}

} // verus!
