use locales::parser::tokenizer::{
    Identifier, Literal, LiteralInner, ParseError, Punctuation, PunctuationInner, Token, TokenStream,
};
use locales::span::Span;

fn tokens(s: &str) -> TokenStream {
    s.parse().unwrap()
}

fn one_token(s: &str) -> Token {
    let ts = tokens(s);
    assert_eq!(ts.tokens().len(), 1);
    ts.tokens()[0].clone()
}

#[test]
fn parse_string_literal() {
    let tokens: TokenStream = r#""hello world""#.parse().unwrap();
    assert_eq!(tokens.tokens().len(), 1);
    assert_eq!(
        tokens.tokens()[0],
        Literal::new_string("hello world", Span::default()).into()
    );

    let tokens: TokenStream = "'hello world'".parse().unwrap();
    assert_eq!(tokens.tokens().len(), 1);
    assert_eq!(
        tokens.tokens()[0],
        Literal::new_string("hello world", Span::default()).into()
    );

    let tokens: TokenStream = "'hello\\'world'".parse().unwrap();
    assert_eq!(tokens.tokens().len(), 1);
    assert_eq!(
        tokens.tokens()[0],
        Literal::new_string("hello\\'world", Span::default()).into()
    );

    let tokens: TokenStream = r#"
            "hello world"
            'hello world'
            "hello\"world"
            'hello\'world'
            "#
    .parse()
    .unwrap();

    let expected: Vec<Token> = vec![
        Literal::new_string("hello world", Span::default()).into(),
        Literal::new_string("hello world", Span::default()).into(),
        Literal::new_string("hello\\\"world", Span::default()).into(),
        Literal::new_string("hello\\'world", Span::default()).into(),
    ];
    assert_eq!(tokens.tokens(), &expected[..]);
}

#[test]
fn parse_words() {
    let tokens: TokenStream = "NaN variable true false Some_Name_123".parse().unwrap();
    let literal = tokens.tokens()[0].literal().unwrap();
    let text = literal.as_float().unwrap();
    assert!(text.parse::<f64>().unwrap().is_nan());

    let expected: Vec<Token> = vec![
        Identifier::new("variable", Span::default()).into(),
        Literal::new_boolean(true, Span::default()).into(),
        Literal::new_boolean(false, Span::default()).into(),
        Identifier::new("Some_Name_123", Span::default()).into(),
    ];
    assert_eq!(&tokens.tokens()[1..], &expected[..]);
}

#[test]
fn parse_empty() {
    let tokens: TokenStream = "".parse().unwrap();
    assert_eq!(tokens.tokens().len(), 0);
}

#[test]
fn parse_real_expressions() {
    let expressions = [
        "number % 10 == 1 && number % 100 != 11",
        "number % 10 >= 2 && number % 10 <= 4 && (number % 100 < 10 || number % 100 >= 20)",
        "number == 1",
    ];
    for expr in expressions {
        assert!(expr.parse::<TokenStream>().is_ok());
    }
}

fn float_value(t: &Token) -> f64 {
    t.literal().unwrap().as_float().unwrap().parse::<f64>().unwrap()
}

#[test]
fn parse_one_literal_numbers() {
    assert_eq!(one_token("123"), Literal::new_integer(123, Span::default()).into());
    assert_eq!(one_token("-123"), Literal::new_integer(-123, Span::default()).into());
    assert_eq!(float_value(&one_token("123.456")), 123.456);
    assert_eq!(float_value(&one_token("-123.456")), -123.456);
    assert_eq!(float_value(&one_token("1.234567e-2")), 1.234_567e-2);
    assert_eq!(float_value(&one_token("∞")), f64::INFINITY);
    assert_eq!(float_value(&one_token("-∞")), f64::NEG_INFINITY);
    assert_eq!(one_token("1_000"), Literal::new_integer(1000, Span::default()).into());
    assert_eq!(
        one_token("9223372036854775807"),
        Literal::new_integer(i64::MAX, Span::default()).into()
    );
    assert_eq!(
        one_token("-9223372036854775808"),
        Literal::new_integer(i64::MIN, Span::default()).into()
    );
}

#[test]
fn parse_one_literal_punctuation() {
    let cases = [
        ("(", PunctuationInner::LeftParen),
        (")", PunctuationInner::RightParen),
        ("+", PunctuationInner::Plus),
        ("-", PunctuationInner::Minus),
        ("*", PunctuationInner::Star),
        ("/", PunctuationInner::Slash),
        ("%", PunctuationInner::Percent),
        ("==", PunctuationInner::Equals),
        ("!=", PunctuationInner::NotEquals),
        ("<", PunctuationInner::Leather),
        (">", PunctuationInner::Greater),
        ("<=", PunctuationInner::LeatherEquals),
        (">=", PunctuationInner::GreaterEquals),
        ("!", PunctuationInner::Exclamation),
        ("&&", PunctuationInner::DoubleAmpersand),
        ("||", PunctuationInner::DoublePipe),
        (",", PunctuationInner::Comma),
    ];
    for (text, kind) in cases {
        let expected: Token = Punctuation::new(kind, Span::default()).into();
        assert_eq!(one_token(text), expected);
        assert_eq!(one_token(text).punctuation().unwrap().as_str(), text);
    }
    assert_eq!(
        one_token("variable"),
        Identifier::new("variable", Span::default()).into()
    );
}

#[test]
fn parse_invalids() {
    assert_eq!(
        "123a".parse::<TokenStream>().unwrap_err(),
        ParseError::InvalidInteger { position: 0 }
    );
    assert_eq!(
        "&".parse::<TokenStream>().unwrap_err(),
        ParseError::InvalidToken { position: 0 }
    );
    assert_eq!("'123".parse::<TokenStream>().unwrap_err(), ParseError::EndOfInput);
    assert_eq!(
        "1.5a".parse::<TokenStream>().unwrap_err(),
        ParseError::InvalidFloat { position: 0 }
    );
    assert_eq!(
        "1.2.3".parse::<TokenStream>().unwrap_err(),
        ParseError::InvalidFloat { position: 0 }
    );
    assert_eq!(
        "x + 1e".parse::<TokenStream>().unwrap_err(),
        ParseError::InvalidFloat { position: 4 }
    );
    assert_eq!(
        "9223372036854775808".parse::<TokenStream>().unwrap_err(),
        ParseError::InvalidInteger { position: 0 }
    );
}

#[test]
fn spans_are_byte_offsets() {
    let ts = tokens("ab == 'çé' ∞ -12");
    let spans: Vec<(usize, usize)> = ts.tokens().iter().map(|t| {
        let s = match (t.literal(), t.punctuation(), t.identifier()) {
            (Some(l), _, _) => l.span(),
            (_, Some(p), _) => p.span(),
            (_, _, Some(i)) => i.span(),
            _ => unreachable!(),
        };
        (s.start(), s.end())
    }).collect();
    // identifier: start..start+len-1; `==`: two characters; string: start +
    // content bytes; infinity: start + 3; negative number: start + len - 1.
    assert_eq!(spans, vec![(0, 1), (3, 4), (6, 10), (13, 16), (17, 19)]);
}

#[test]
fn literal_accessors() {
    let lit = Literal::new(LiteralInner::Integer(5), Span::new(1, 2));
    assert_eq!(lit.as_integer(), Some(5));
    assert_eq!(lit.as_string(), None);
    assert_eq!(lit.as_boolean(), None);
    assert_eq!(lit.as_float(), None);
    assert_eq!(lit.span(), Span::new(1, 2));
}

#[test]
fn whitespace_only_has_no_tokens() {
    assert_eq!(tokens(" \t\n  \r ").tokens().len(), 0);
    assert_eq!(tokens("\u{a0}\u{2003}").tokens().len(), 0);
}

#[test]
fn token_spans_follow_the_text() {
    let text = "f(x_1, 'ab\\'c') >= 1_000.5e-3 || !done && -∞ != 12";
    let ts = tokens(text);
    let spans: Vec<Span> = ts
        .tokens()
        .iter()
        .map(|t| match (t.literal(), t.punctuation(), t.identifier()) {
            (Some(l), _, _) => l.span(),
            (_, Some(p), _) => p.span(),
            (_, _, Some(i)) => i.span(),
            _ => unreachable!(),
        })
        .collect();
    assert_eq!(spans.len(), 15);
    for s in &spans {
        assert!(s.start() <= s.end() && s.end() <= text.len(), "{s:?}");
    }
    for w in spans.windows(2) {
        assert!(w[0].start() < w[1].start(), "{w:?}");
    }
}

fn spans_of(ts: &TokenStream) -> Vec<Span> {
    ts.tokens()
        .iter()
        .map(|t| match (t.literal(), t.punctuation(), t.identifier()) {
            (Some(l), _, _) => l.span(),
            (_, Some(p), _) => p.span(),
            (_, _, Some(i)) => i.span(),
            _ => unreachable!(),
        })
        .collect()
}

#[test]
fn joined_texts_read_as_both_token_lists() {
    for (a, b) in [("a + 1", "f(x, 'é')"), ("-12 >= n", "!done"), ("∞", "x_1 || 2.5e3"), ("", "q")] {
        let ta = tokens(a);
        let tb = tokens(b);
        let joined = tokens(&format!("{a} {b}"));
        assert_eq!(joined.tokens().len(), ta.tokens().len() + tb.tokens().len());
        for (x, y) in joined.tokens().iter().zip(ta.tokens().iter().chain(tb.tokens().iter())) {
            assert_eq!(x, y);
        }
        let d = a.len() + 1;
        let mut expected = spans_of(&ta);
        expected.extend(spans_of(&tb).into_iter().map(|s| Span::new(s.start() + d, s.end() + d)));
        assert_eq!(spans_of(&joined), expected, "{a:?} {b:?}");
    }
}
