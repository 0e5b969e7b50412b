use crate::parser::float::{float_eq, float_strings_equal};
use crate::span::Span;
use crate::text::{bytes_len, offset, utf8_len, is_ascii_digit, is_ascii_alpha, spec_is_whitespace, is_whitespace, str_byte_len, push_char, chars_of, char_utf8_len, advance, string_of_range, lemma_offset_step, lemma_offset_range};
use vstd::prelude::*;

verus! {

/// A sequence of tokens read from an expression's source text.
#[derive(Debug, Clone)]
pub struct TokenStream {
    tokens: Vec<Token>,
}

/// One token with the span of source text that it was read from.
#[derive(Debug, Clone)]
pub struct Token {
    inner: TokenInner,
    span: Span,
}

/// A literal token: a string, a float, an integer or a boolean.
#[derive(Debug, Clone)]
pub struct Literal {
    inner: LiteralInner,
    span: Span,
}

/// A punctuation token: an operator, a parenthesis or a comma.
#[derive(Debug, Clone, Copy)]
pub struct Punctuation {
    inner: PunctuationInner,
    span: Span,
}

/// An identifier token (a variable or a callee name).
#[derive(Debug, Clone)]
pub struct Identifier {
    inner: String,
    span: Span,
}

#[derive(Debug, Clone)]
pub enum TokenInner {
    Literal(LiteralInner),
    Punctuation(PunctuationInner),
    Identifier(String),
}

/// The value of a literal. A float is held as its source text in the syntax
/// that `f64`'s `FromStr` accepts (for instance `1.5e-3`, `NaN`, `inf`, `-inf`).
#[derive(Debug, Clone)]
pub enum LiteralInner {
    String(String),
    Float(String),
    Integer(i64),
    Boolean(bool),
}

#[derive(Debug, Clone, Copy, PartialEq, Eq, Structural)]
pub enum PunctuationInner {
    LeftParen,
    RightParen,
    Plus,
    Minus,
    Star,
    Slash,
    Percent,
    Equals,
    NotEquals,
    Leather,
    Greater,
    LeatherEquals,
    GreaterEquals,
    Exclamation,
    DoubleAmpersand,
    DoublePipe,
    Comma,
}

/// Errors of the tokenizer; positions are byte offsets into the source.
#[derive(Debug, Clone, Copy, PartialEq, Eq, Structural)]
pub enum ParseError {
    EndOfInput,
    InvalidToken { position: usize },
    InvalidFloat { position: usize },
    InvalidInteger { position: usize },
}

/// The mathematical value of a literal.
pub enum LitV {
    Str(Seq<char>),
    Float(Seq<char>),
    Int(i64),
    Bool(bool),
}

/// The mathematical value of a token, without its span.
pub enum TokKind {
    Lit(LitV),
    Punct(PunctuationInner),
    Ident(Seq<char>),
}

/// The mathematical value of a token with its span.
pub struct TokV {
    pub kind: TokKind,
    pub span: Span,
}

/// Two literal values are equal: floats when they denote equal numbers (a
/// float that is not a number equals nothing), the others by value.
pub open spec fn lit_eq(a: LitV, b: LitV) -> bool {
    match (a, b) {
        (LitV::Float(x), LitV::Float(y)) => float_eq(x, y),
        _ => a == b,
    }
}

/// Two token kinds are equal: literals by `lit_eq`, the others by value.
pub open spec fn kind_eq(a: TokKind, b: TokKind) -> bool {
    match (a, b) {
        (TokKind::Lit(x), TokKind::Lit(y)) => lit_eq(x, y),
        _ => a == b,
    }
}

impl View for LiteralInner {
    type V = LitV;

    open spec fn view(&self) -> LitV {
        match self {
            LiteralInner::String(s) => LitV::Str(s@),
            LiteralInner::Float(s) => LitV::Float(s@),
            LiteralInner::Integer(i) => LitV::Int(*i),
            LiteralInner::Boolean(b) => LitV::Bool(*b),
        }
    }
}

impl View for TokenInner {
    type V = TokKind;

    open spec fn view(&self) -> TokKind {
        match self {
            TokenInner::Literal(l) => TokKind::Lit(l@),
            TokenInner::Punctuation(p) => TokKind::Punct(*p),
            TokenInner::Identifier(s) => TokKind::Ident(s@),
        }
    }
}

impl View for Token {
    type V = TokV;

    closed spec fn view(&self) -> TokV {
        TokV { kind: self.inner@, span: self.span }
    }
}

impl View for Literal {
    type V = (LitV, Span);

    closed spec fn view(&self) -> (LitV, Span) {
        (self.inner@, self.span)
    }
}

impl View for Punctuation {
    type V = (PunctuationInner, Span);

    closed spec fn view(&self) -> (PunctuationInner, Span) {
        (self.inner, self.span)
    }
}

impl View for Identifier {
    type V = (Seq<char>, Span);

    closed spec fn view(&self) -> (Seq<char>, Span) {
        (self.inner@, self.span)
    }
}

pub open spec fn token_view(t: Token) -> TokV {
    t@
}

impl View for TokenStream {
    type V = Seq<TokV>;

    closed spec fn view(&self) -> Seq<TokV> {
        self.tokens@.map_values(|t: Token| t@)
    }
}

fn copy_string(s: &String) -> (res: String)
    ensures
        res@ == s@,
{
    s.clone()
}

impl LiteralInner {
    /// A copy with the same value.
    pub fn duplicate(&self) -> (res: LiteralInner)
        ensures
            res@ == self@,
    {
        match self {
            LiteralInner::String(s) => LiteralInner::String(copy_string(s)),
            LiteralInner::Float(s) => LiteralInner::Float(copy_string(s)),
            LiteralInner::Integer(i) => LiteralInner::Integer(*i),
            LiteralInner::Boolean(b) => LiteralInner::Boolean(*b),
        }
    }

    /// Whether both literals hold the same value: floats by the number they
    /// denote.
    pub fn same(&self, other: &LiteralInner) -> (res: bool)
        ensures
            res == lit_eq(self@, other@),
    {
        match (self, other) {
            (LiteralInner::String(a), LiteralInner::String(b)) => *a == *b,
            (LiteralInner::Float(a), LiteralInner::Float(b)) => float_strings_equal(a, b),
            (LiteralInner::Integer(a), LiteralInner::Integer(b)) => *a == *b,
            (LiteralInner::Boolean(a), LiteralInner::Boolean(b)) => *a == *b,
            _ => false,
        }
    }
}

impl TokenInner {
    /// Whether both tokens have the same kind and value.
    pub fn same(&self, other: &TokenInner) -> (res: bool)
        ensures
            res == kind_eq(self@, other@),
    {
        match (self, other) {
            (TokenInner::Literal(a), TokenInner::Literal(b)) => a.same(b),
            (TokenInner::Punctuation(a), TokenInner::Punctuation(b)) => *a == *b,
            (TokenInner::Identifier(a), TokenInner::Identifier(b)) => *a == *b,
            _ => false,
        }
    }
}

impl TokenStream {
    fn new(tokens: Vec<Token>) -> (res: TokenStream)
        ensures
            res@ == tokens@.map_values(|t: Token| t@),
    {
        TokenStream { tokens }
    }

    pub fn is_empty(&self) -> (res: bool)
        ensures
            res == (self@.len() == 0),
    {
        self.tokens.len() == 0
    }

    pub fn tokens(&self) -> (res: &[Token])
        ensures
            res@.map_values(|t: Token| t@) == self@,
    {
        self.tokens.as_slice()
    }

    pub fn into_tokens(self) -> (res: Vec<Token>)
        ensures
            res@.map_values(|t: Token| t@) == self@,
    {
        self.tokens
    }
}

impl Token {
    pub open spec fn kind(self) -> TokKind {
        self@.kind
    }

    /// The literal that this token holds, if it is one.
    pub fn literal(&self) -> (res: Option<Literal>)
        ensures
            (res is Some) == (self@.kind is Lit),
            res matches Some(l) ==> self@.kind == TokKind::Lit(l@.0) && l@.1 == self@.span,
    {
        if let TokenInner::Literal(literal) = &self.inner {
            Some(Literal { inner: literal.duplicate(), span: self.span })
        } else {
            None
        }
    }

    /// The punctuation that this token holds, if it is one.
    pub fn punctuation(&self) -> (res: Option<Punctuation>)
        ensures
            (res is Some) == (self@.kind is Punct),
            res matches Some(p) ==> self@.kind == TokKind::Punct(p@.0) && p@.1 == self@.span,
    {
        if let TokenInner::Punctuation(punctuation) = &self.inner {
            Some(Punctuation { inner: *punctuation, span: self.span })
        } else {
            None
        }
    }

    /// The identifier that this token holds, if it is one.
    pub fn identifier(&self) -> (res: Option<Identifier>)
        ensures
            (res is Some) == (self@.kind is Ident),
            res matches Some(i) ==> self@.kind == TokKind::Ident(i@.0) && i@.1 == self@.span,
    {
        if let TokenInner::Identifier(identifier) = &self.inner {
            Some(Identifier { inner: copy_string(identifier), span: self.span })
        } else {
            None
        }
    }
}

impl Literal {
    pub fn new(inner: LiteralInner, span: Span) -> (res: Literal)
        ensures
            res@ == (inner@, span),
    {
        Literal { inner, span }
    }

    pub fn new_string(value: &str, span: Span) -> (res: Literal)
        ensures
            res@ == (LitV::Str(value@), span),
    {
        Literal { inner: LiteralInner::String(value.to_owned()), span }
    }

    /// A float literal given by its text in the syntax of `f64`'s `FromStr`.
    pub fn new_float(text: &str, span: Span) -> (res: Literal)
        ensures
            res@ == (LitV::Float(text@), span),
    {
        Literal { inner: LiteralInner::Float(text.to_owned()), span }
    }

    pub fn new_integer(value: i64, span: Span) -> (res: Literal)
        ensures
            res@ == (LitV::Int(value), span),
    {
        Literal { inner: LiteralInner::Integer(value), span }
    }

    pub fn new_boolean(value: bool, span: Span) -> (res: Literal)
        ensures
            res@ == (LitV::Bool(value), span),
    {
        Literal { inner: LiteralInner::Boolean(value), span }
    }

    pub fn as_string(&self) -> (res: Option<String>)
        ensures
            (res is Some) == (self@.0 is Str),
            res matches Some(s) ==> self@.0 == LitV::Str(s@),
    {
        if let LiteralInner::String(value) = &self.inner {
            Some(copy_string(value))
        } else {
            None
        }
    }

    /// The text of a float literal, in the syntax of `f64`'s `FromStr`.
    pub fn as_float(&self) -> (res: Option<String>)
        ensures
            (res is Some) == (self@.0 is Float),
            res matches Some(s) ==> self@.0 == LitV::Float(s@),
    {
        if let LiteralInner::Float(value) = &self.inner {
            Some(copy_string(value))
        } else {
            None
        }
    }

    pub fn as_integer(&self) -> (res: Option<i64>)
        ensures
            (res is Some) == (self@.0 is Int),
            res matches Some(i) ==> self@.0 == LitV::Int(i),
    {
        if let LiteralInner::Integer(value) = &self.inner {
            Some(*value)
        } else {
            None
        }
    }

    pub fn as_boolean(&self) -> (res: Option<bool>)
        ensures
            (res is Some) == (self@.0 is Bool),
            res matches Some(b) ==> self@.0 == LitV::Bool(b),
    {
        if let LiteralInner::Boolean(value) = &self.inner {
            Some(*value)
        } else {
            None
        }
    }

    pub fn span(&self) -> (res: Span)
        ensures
            res == self@.1,
    {
        self.span
    }
}

impl Punctuation {
    pub fn new(inner: PunctuationInner, span: Span) -> (res: Punctuation)
        ensures
            res@ == (inner, span),
    {
        Punctuation { inner, span }
    }

    pub fn kind(&self) -> (res: PunctuationInner)
        ensures
            res == self@.0,
    {
        self.inner
    }

    pub fn span(&self) -> (res: Span)
        ensures
            res == self@.1,
    {
        self.span
    }
}

impl Identifier {
    pub fn new(inner: &str, span: Span) -> (res: Identifier)
        ensures
            res@ == (inner@, span),
    {
        Identifier { inner: inner.to_owned(), span }
    }

    pub fn as_inner(&self) -> (res: String)
        ensures
            res@ == self@.0,
    {
        copy_string(&self.inner)
    }

    pub fn span(&self) -> (res: Span)
        ensures
            res == self@.1,
    {
        self.span
    }
}

impl PartialEq for Token {
    fn eq(&self, other: &Self) -> (res: bool) {
        self.inner.same(&other.inner)
    }
}

impl vstd::std_specs::cmp::PartialEqSpecImpl for Token {
    open spec fn obeys_eq_spec() -> bool {
        true
    }

    open spec fn eq_spec(&self, other: &Token) -> bool {
        kind_eq(self@.kind, other@.kind)
    }
}

impl PartialEq for Literal {
    fn eq(&self, other: &Self) -> (res: bool) {
        self.inner.same(&other.inner)
    }
}

impl vstd::std_specs::cmp::PartialEqSpecImpl for Literal {
    open spec fn obeys_eq_spec() -> bool {
        true
    }

    open spec fn eq_spec(&self, other: &Literal) -> bool {
        lit_eq(self@.0, other@.0)
    }
}

impl PartialEq for Punctuation {
    fn eq(&self, other: &Self) -> (res: bool) {
        self.inner == other.inner
    }
}

impl vstd::std_specs::cmp::PartialEqSpecImpl for Punctuation {
    open spec fn obeys_eq_spec() -> bool {
        true
    }

    open spec fn eq_spec(&self, other: &Punctuation) -> bool {
        self@.0 == other@.0
    }
}

impl Eq for Punctuation {

}

impl PartialEq for Identifier {
    fn eq(&self, other: &Self) -> (res: bool) {
        self.inner == other.inner
    }
}

impl vstd::std_specs::cmp::PartialEqSpecImpl for Identifier {
    open spec fn obeys_eq_spec() -> bool {
        true
    }

    open spec fn eq_spec(&self, other: &Identifier) -> bool {
        self@.0 == other@.0
    }
}

impl Eq for Identifier {

}

impl From<Literal> for Token {
    fn from(literal: Literal) -> (res: Token) {
        Token { inner: TokenInner::Literal(literal.inner), span: literal.span }
    }
}

impl vstd::std_specs::convert::FromSpecImpl<Literal> for Token {
    open spec fn obeys_from_spec() -> bool {
        true
    }

    closed spec fn from_spec(v: Literal) -> Token {
        Token { inner: TokenInner::Literal(v.inner), span: v.span }
    }
}

impl From<Punctuation> for Token {
    fn from(punctuation: Punctuation) -> (res: Token) {
        Token { inner: TokenInner::Punctuation(punctuation.inner), span: punctuation.span }
    }
}

impl vstd::std_specs::convert::FromSpecImpl<Punctuation> for Token {
    open spec fn obeys_from_spec() -> bool {
        true
    }

    closed spec fn from_spec(v: Punctuation) -> Token {
        Token { inner: TokenInner::Punctuation(v.inner), span: v.span }
    }
}

impl From<Identifier> for Token {
    fn from(ident: Identifier) -> (res: Token) {
        Token { inner: TokenInner::Identifier(ident.inner), span: ident.span }
    }
}

impl vstd::std_specs::convert::FromSpecImpl<Identifier> for Token {
    open spec fn obeys_from_spec() -> bool {
        true
    }

    closed spec fn from_spec(v: Identifier) -> Token {
        Token { inner: TokenInner::Identifier(v.inner), span: v.span }
    }
}

// ---------------------------------------------------------------------------
// The lexical grammar.
// ---------------------------------------------------------------------------

pub open spec fn is_ident_start(c: char) -> bool {
    is_ascii_alpha(c) || c == '_'
}

pub open spec fn is_ident_continue(c: char) -> bool {
    is_ident_start(c) || is_ascii_digit(c)
}

/// The index just past the run of identifier characters that starts at `j`.
pub open spec fn ident_end(cs: Seq<char>, j: int) -> int
    decreases cs.len() - j,
{
    if 0 <= j < cs.len() && is_ident_continue(cs[j]) {
        ident_end(cs, j + 1)
    } else {
        j
    }
}

/// What a word of identifier characters reads as: the booleans, `NaN`, or an identifier.
pub open spec fn word_kind(w: Seq<char>) -> TokKind {
    if w == seq!['t', 'r', 'u', 'e'] {
        TokKind::Lit(LitV::Bool(true))
    } else if w == seq!['f', 'a', 'l', 's', 'e'] {
        TokKind::Lit(LitV::Bool(false))
    } else if w == seq!['N', 'a', 'N'] {
        TokKind::Lit(LitV::Float(seq!['N', 'a', 'N']))
    } else {
        TokKind::Ident(w)
    }
}

pub open spec fn is_sign(c: char) -> bool {
    c == '+' || c == '-'
}

pub open spec fn is_exp_mark(c: char) -> bool {
    c == 'e' || c == 'E'
}

pub open spec fn all_digits(ds: Seq<char>) -> bool {
    forall|k: int| 0 <= k < ds.len() ==> is_ascii_digit(#[trigger] ds[k])
}

/// The value of a string of decimal digits.
pub open spec fn digits_value(ds: Seq<char>) -> int
    decreases ds.len(),
{
    if ds.len() == 0 {
        0
    } else {
        digits_value(ds.drop_last()) * 10 + (ds.last() as u32 - '0' as u32)
    }
}

/// What `i64`'s `FromStr` gives for a text: an optional sign and at least one
/// decimal digit, whose value fits in `i64`.
pub open spec fn spec_parse_i64(t: Seq<char>) -> Option<i64> {
    let neg = t.len() > 0 && t[0] == '-';
    let ds = if t.len() > 0 && is_sign(t[0]) {
        t.drop_first()
    } else {
        t
    };
    if ds.len() == 0 || !all_digits(ds) {
        None
    } else {
        let v: int = if neg {
            -digits_value(ds)
        } else {
            digits_value(ds)
        };
        if i64::MIN <= v <= i64::MAX {
            Some(v as i64)
        } else {
            None
        }
    }
}

pub open spec fn strip_sign(t: Seq<char>) -> Seq<char> {
    if t.len() > 0 && is_sign(t[0]) {
        t.drop_first()
    } else {
        t
    }
}

/// The index of the first exponent mark at or after `k`, or the length.
pub open spec fn first_exp_mark(t: Seq<char>, k: int) -> int
    decreases t.len() - k,
{
    if 0 <= k < t.len() {
        if is_exp_mark(t[k]) {
            k
        } else {
            first_exp_mark(t, k + 1)
        }
    } else {
        t.len() as int
    }
}

/// Digits with at most one dot, and at least one digit.
pub open spec fn mantissa_ok(m: Seq<char>) -> bool {
    &&& forall|k: int| 0 <= k < m.len() ==> is_ascii_digit(#[trigger] m[k]) || m[k] == '.'
    &&& forall|a: int, b: int| 0 <= a < b < m.len() && #[trigger] m[a] == '.' ==> #[trigger] m[b] != '.'
    &&& exists|k: int| 0 <= k < m.len() && is_ascii_digit(#[trigger] m[k])
}

/// Empty, or an exponent mark, an optional sign and at least one digit.
pub open spec fn exponent_ok(x: Seq<char>) -> bool {
    x.len() == 0 || (is_exp_mark(x[0]) && strip_sign(x.drop_first()).len() > 0 && all_digits(
        strip_sign(x.drop_first()),
    ))
}

/// The decimal form of the grammar that `f64`'s `FromStr` documents:
/// `Sign? (Digit+ | Digit+ '.' Digit* | Digit* '.' Digit+) Exp?` with
/// `Exp ::= ('e' | 'E') Sign? Digit+`.
pub open spec fn float_syntax(t: Seq<char>) -> bool {
    let b = strip_sign(t);
    let e = first_exp_mark(b, 0);
    mantissa_ok(b.take(e)) && exponent_ok(b.skip(e))
}

/// The scan of a number's characters from index `k`, with the text read so far
/// and whether a dot or an exponent was read. The result is the index where
/// the number ends, its text (underscores dropped, exponent marks written as
/// `e`) and whether it is a float.
pub open spec fn scan_number(
    cs: Seq<char>,
    k: int,
    text: Seq<char>,
    dot: bool,
    exp: bool,
    position: usize,
) -> Result<(int, Seq<char>, bool), ParseError>
    decreases cs.len() - k,
{
    if 0 <= k < cs.len() {
        let c = cs[k];
        if c == '.' {
            if dot {
                Err(ParseError::InvalidFloat { position })
            } else {
                scan_number(cs, k + 1, text.push('.'), true, exp, position)
            }
        } else if is_exp_mark(c) {
            if exp {
                Err(ParseError::InvalidFloat { position })
            } else if k + 1 < cs.len() && is_sign(cs[k + 1]) {
                scan_number(cs, k + 2, text.push('e').push(cs[k + 1]), dot, true, position)
            } else {
                scan_number(cs, k + 1, text.push('e'), dot, true, position)
            }
        } else if c == '_' {
            scan_number(cs, k + 1, text, dot, exp, position)
        } else if is_ascii_digit(c) {
            scan_number(cs, k + 1, text.push(c), dot, exp, position)
        } else if is_ascii_alpha(c) {
            if dot || exp {
                Err(ParseError::InvalidFloat { position })
            } else {
                Err(ParseError::InvalidInteger { position })
            }
        } else {
            Ok((k, text, dot || exp))
        }
    } else {
        Ok((k, text, dot || exp))
    }
}

/// A number literal whose first character is at `i`: the index where it ends,
/// the length of its text, and its value.
pub open spec fn number_literal(cs: Seq<char>, i: int, position: usize) -> Result<
    (int, nat, LitV),
    ParseError,
> {
    match scan_number(cs, i + 1, seq![cs[i]], false, false, position) {
        Err(e) => Err(e),
        Ok((k, text, is_float)) => {
            if is_float {
                if float_syntax(text) {
                    Ok((k, text.len(), LitV::Float(text)))
                } else {
                    Err(ParseError::InvalidFloat { position })
                }
            } else {
                match spec_parse_i64(text) {
                    Some(v) => Ok((k, text.len(), LitV::Int(v))),
                    None => Err(ParseError::InvalidInteger { position }),
                }
            }
        },
    }
}

/// The index of the quote that closes a string literal, scanning from `k`;
/// a backslash escapes the character after it.
pub open spec fn scan_string(cs: Seq<char>, k: int, opener: char, escaped: bool) -> Option<int>
    decreases cs.len() - k,
{
    if 0 <= k < cs.len() {
        if cs[k] == opener && !escaped {
            Some(k)
        } else if cs[k] == '\\' {
            scan_string(cs, k + 1, opener, !escaped)
        } else {
            scan_string(cs, k + 1, opener, false)
        }
    } else {
        None
    }
}

/// The punctuation that `first` (followed by `second`) starts, and whether it
/// takes both characters.
pub open spec fn punct_of(first: char, second: Option<char>) -> Option<(PunctuationInner, bool)> {
    if first == '&' && second == Some('&') {
        Some((PunctuationInner::DoubleAmpersand, true))
    } else if first == '|' && second == Some('|') {
        Some((PunctuationInner::DoublePipe, true))
    } else if first == '=' && second == Some('=') {
        Some((PunctuationInner::Equals, true))
    } else if first == '!' && second == Some('=') {
        Some((PunctuationInner::NotEquals, true))
    } else if first == '<' && second == Some('=') {
        Some((PunctuationInner::LeatherEquals, true))
    } else if first == '>' && second == Some('=') {
        Some((PunctuationInner::GreaterEquals, true))
    } else if first == '(' {
        Some((PunctuationInner::LeftParen, false))
    } else if first == ')' {
        Some((PunctuationInner::RightParen, false))
    } else if first == '+' {
        Some((PunctuationInner::Plus, false))
    } else if first == '-' {
        Some((PunctuationInner::Minus, false))
    } else if first == '*' {
        Some((PunctuationInner::Star, false))
    } else if first == '/' {
        Some((PunctuationInner::Slash, false))
    } else if first == '%' {
        Some((PunctuationInner::Percent, false))
    } else if first == '<' {
        Some((PunctuationInner::Leather, false))
    } else if first == '>' {
        Some((PunctuationInner::Greater, false))
    } else if first == '!' {
        Some((PunctuationInner::Exclamation, false))
    } else if first == ',' {
        Some((PunctuationInner::Comma, false))
    } else {
        None
    }
}

/// The text of each punctuation.
pub open spec fn punct_text(p: PunctuationInner) -> Seq<char> {
    match p {
        PunctuationInner::LeftParen => seq!['('],
        PunctuationInner::RightParen => seq![')'],
        PunctuationInner::Plus => seq!['+'],
        PunctuationInner::Minus => seq!['-'],
        PunctuationInner::Star => seq!['*'],
        PunctuationInner::Slash => seq!['/'],
        PunctuationInner::Percent => seq!['%'],
        PunctuationInner::Equals => seq!['=', '='],
        PunctuationInner::NotEquals => seq!['!', '='],
        PunctuationInner::Leather => seq!['<'],
        PunctuationInner::Greater => seq!['>'],
        PunctuationInner::LeatherEquals => seq!['<', '='],
        PunctuationInner::GreaterEquals => seq!['>', '='],
        PunctuationInner::Exclamation => seq!['!'],
        PunctuationInner::DoubleAmpersand => seq!['&', '&'],
        PunctuationInner::DoublePipe => seq!['|', '|'],
        PunctuationInner::Comma => seq![','],
    }
}

pub open spec fn next_char(cs: Seq<char>, i: int) -> Option<char> {
    if 0 <= i + 1 < cs.len() {
        Some(cs[i + 1])
    } else {
        None
    }
}

pub open spec fn tok(kind: TokKind, start: int, end: int) -> TokV {
    TokV { kind, span: Span::mk(start as usize, end as usize) }
}

/// One step of the tokenizer at index `i` (which must be in range): the token
/// read, if any (whitespace gives none), and the index where the next step starts.
pub open spec fn lex_step(cs: Seq<char>, i: int) -> Result<(Option<TokV>, int), ParseError> {
    let c = cs[i];
    let start = offset(cs, i) as int;
    let next = next_char(cs, i);
    if spec_is_whitespace(c) {
        Ok((None, i + 1))
    } else if is_ident_start(c) {
        let j = ident_end(cs, i + 1);
        Ok((Some(tok(word_kind(cs.subrange(i, j)), start, start + (j - i) - 1)), j))
    } else if is_ascii_digit(c) {
        match number_literal(cs, i, start as usize) {
            Err(e) => Err(e),
            Ok((k, len, lit)) => Ok((Some(tok(TokKind::Lit(lit), start, start + len)), k)),
        }
    } else if c == '-' && next is Some && is_ascii_digit(next->0) {
        match number_literal(cs, i, start as usize) {
            Err(e) => Err(e),
            Ok((k, len, lit)) => Ok((Some(tok(TokKind::Lit(lit), start, start + len - 1)), k)),
        }
    } else if c == '\'' || c == '"' {
        match scan_string(cs, i + 1, c, false) {
            None => Err(ParseError::EndOfInput),
            Some(close) => {
                let content = cs.subrange(i + 1, close);
                Ok(
                    (
                        Some(tok(TokKind::Lit(LitV::Str(content)), start, start + bytes_len(content))),
                        close + 1,
                    ),
                )
            },
        }
    } else if c == '∞' {
        Ok((Some(tok(TokKind::Lit(LitV::Float(seq!['i', 'n', 'f'])), start, start + 3)), i + 1))
    } else if c == '-' && next == Some('∞') {
        Ok(
            (
                Some(tok(TokKind::Lit(LitV::Float(seq!['-', 'i', 'n', 'f'])), start, start + 4)),
                i + 2,
            ),
        )
    } else {
        match punct_of(c, next) {
            Some((p, two)) => Ok(
                (
                    Some(
                        tok(
                            TokKind::Punct(p),
                            start,
                            if two {
                                start + 1
                            } else {
                                start
                            },
                        ),
                    ),
                    if two {
                        i + 2
                    } else {
                        i + 1
                    },
                ),
            ),
            None => Err(ParseError::InvalidToken { position: start as usize }),
        }
    }
}

/// Prepends tokens to the result of the rest of the scan.
pub open spec fn prepend(ts: Seq<TokV>, r: Result<Seq<TokV>, ParseError>) -> Result<
    Seq<TokV>,
    ParseError,
> {
    match r {
        Ok(rest) => Ok(ts + rest),
        Err(e) => Err(e),
    }
}

/// The tokens of `cs` from index `i` on, or the first error met.
pub open spec fn lex(cs: Seq<char>, i: int) -> Result<Seq<TokV>, ParseError>
    decreases cs.len() - i,
    via lex_decreases
{
    if 0 <= i < cs.len() {
        match lex_step(cs, i) {
            Err(e) => Err(e),
            Ok((t, j)) => match t {
                Some(t) => prepend(seq![t], lex(cs, j)),
                None => lex(cs, j),
            },
        }
    } else {
        Ok(Seq::empty())
    }
}

#[via_fn]
proof fn lex_decreases(cs: Seq<char>, i: int) {
    if 0 <= i < cs.len() {
        lemma_lex_step_progress(cs, i);
    }
}

pub(crate) proof fn lemma_ident_end_bounds(cs: Seq<char>, j: int)
    requires
        0 <= j <= cs.len(),
    ensures
        j <= ident_end(cs, j) <= cs.len(),
        forall|k: int| j <= k < ident_end(cs, j) ==> is_ident_continue(#[trigger] cs[k]),
    decreases cs.len() - j,
{
    if j < cs.len() && is_ident_continue(cs[j]) {
        lemma_ident_end_bounds(cs, j + 1);
    }
}

pub(crate) proof fn lemma_scan_number_bounds(
    cs: Seq<char>,
    k: int,
    text: Seq<char>,
    dot: bool,
    exp: bool,
    position: usize,
)
    requires
        0 <= k <= cs.len(),
    ensures
        scan_number(cs, k, text, dot, exp, position) matches Ok((k2, t2, _)) ==> k <= k2
            <= cs.len() && text.len() <= t2.len() <= text.len() + (k2 - k),
    decreases cs.len() - k,
{
    if k < cs.len() {
        let c = cs[k];
        if c == '.' {
            if !dot {
                lemma_scan_number_bounds(cs, k + 1, text.push('.'), true, exp, position);
            }
        } else if is_exp_mark(c) {
            if !exp {
                if k + 1 < cs.len() && is_sign(cs[k + 1]) {
                    lemma_scan_number_bounds(
                        cs,
                        k + 2,
                        text.push('e').push(cs[k + 1]),
                        dot,
                        true,
                        position,
                    );
                } else {
                    lemma_scan_number_bounds(cs, k + 1, text.push('e'), dot, true, position);
                }
            }
        } else if c == '_' {
            lemma_scan_number_bounds(cs, k + 1, text, dot, exp, position);
        } else if is_ascii_digit(c) {
            lemma_scan_number_bounds(cs, k + 1, text.push(c), dot, exp, position);
        }
    }
}

pub(crate) proof fn lemma_scan_string_bounds(cs: Seq<char>, k: int, opener: char, escaped: bool)
    requires
        0 <= k <= cs.len(),
    ensures
        scan_string(cs, k, opener, escaped) matches Some(close) ==> k <= close < cs.len(),
    decreases cs.len() - k,
{
    if k < cs.len() {
        if !(cs[k] == opener && !escaped) {
            if cs[k] == '\\' {
                lemma_scan_string_bounds(cs, k + 1, opener, !escaped);
            } else {
                lemma_scan_string_bounds(cs, k + 1, opener, false);
            }
        }
    }
}

/// Each step consumes at least one character and stays within the input.
pub(crate) proof fn lemma_lex_step_progress(cs: Seq<char>, i: int)
    requires
        0 <= i < cs.len(),
    ensures
        lex_step(cs, i) matches Ok((_, j)) ==> i < j <= cs.len(),
{
    let c = cs[i];
    let start = offset(cs, i) as int;
    lemma_ident_end_bounds(cs, i + 1);
    lemma_scan_number_bounds(cs, i + 1, seq![cs[i]], false, false, start as usize);
    lemma_scan_string_bounds(cs, i + 1, c, false);
}


/// The token of a step starts at the byte offset of its first character and
/// ends no earlier than that and within the text.
proof fn lemma_lex_step_span(cs: Seq<char>, i: int)
    requires
        0 <= i < cs.len(),
        bytes_len(cs) <= usize::MAX,
    ensures
        lex_step(cs, i) matches Ok((Some(t), j)) ==> t.span.start == offset(cs, i) && t.span.start
            <= t.span.end <= bytes_len(cs),
{
    let c = cs[i];
    let start = offset(cs, i) as int;
    lemma_lex_step_progress(cs, i);
    lemma_ident_end_bounds(cs, i + 1);
    lemma_scan_number_bounds(cs, i + 1, seq![cs[i]], false, false, start as usize);
    lemma_scan_string_bounds(cs, i + 1, c, false);
    lemma_offset_step(cs, i);
    if i + 1 < cs.len() {
        lemma_offset_step(cs, i + 1);
    }
    match lex_step(cs, i) {
        Ok((Some(t), j)) => {
            lemma_offset_range(cs, i, j);
            if !spec_is_whitespace(c) && !is_ident_start(c) && !is_ascii_digit(c) && (c == '\'' || c
                == '"') {
                lemma_offset_range(cs, i + 1, j - 1);
            }
            assert('∞' as u32 == 0x221e);
        },
        _ => {},
    }
}

impl Punctuation {
    /// Reads the punctuation that `first`, followed by `second`, starts at `span`;
    /// the flag tells whether `second` is part of it.
    pub fn from_parser(span: Span, first: char, second: Option<char>) -> (res: Option<(Punctuation, bool)>)
        requires
            punct_of(first, second) matches Some((_, true)) ==> span.start < usize::MAX,
        ensures
            match punct_of(first, second) {
                None => res is None,
                Some((p, two)) => res matches Some((q, t)) && t == two && q@ == (
                    p,
                    if two {
                        Span::mk(span.start, (span.start + 1) as usize)
                    } else {
                        span
                    },
                ),
            },
    {
        let (inner, two) = if first == '&' && second == Some('&') {
            (PunctuationInner::DoubleAmpersand, true)
        } else if first == '|' && second == Some('|') {
            (PunctuationInner::DoublePipe, true)
        } else if first == '=' && second == Some('=') {
            (PunctuationInner::Equals, true)
        } else if first == '!' && second == Some('=') {
            (PunctuationInner::NotEquals, true)
        } else if first == '<' && second == Some('=') {
            (PunctuationInner::LeatherEquals, true)
        } else if first == '>' && second == Some('=') {
            (PunctuationInner::GreaterEquals, true)
        } else if first == '(' {
            (PunctuationInner::LeftParen, false)
        } else if first == ')' {
            (PunctuationInner::RightParen, false)
        } else if first == '+' {
            (PunctuationInner::Plus, false)
        } else if first == '-' {
            (PunctuationInner::Minus, false)
        } else if first == '*' {
            (PunctuationInner::Star, false)
        } else if first == '/' {
            (PunctuationInner::Slash, false)
        } else if first == '%' {
            (PunctuationInner::Percent, false)
        } else if first == '<' {
            (PunctuationInner::Leather, false)
        } else if first == '>' {
            (PunctuationInner::Greater, false)
        } else if first == '!' {
            (PunctuationInner::Exclamation, false)
        } else if first == ',' {
            (PunctuationInner::Comma, false)
        } else {
            return None;
        };
        Some(
            (
                Punctuation {
                    inner,
                    span: if two {
                        span.with_end(span.start + 1)
                    } else {
                        span
                    },
                },
                two,
            ),
        )
    }

    /// The source text of the punctuation.
    pub fn as_str(&self) -> (res: &'static str)
        ensures
            res@ == punct_text(self@.0),
    {
        match self.inner {
            PunctuationInner::LeftParen => {
                proof {
                    reveal_strlit("(");
                }
                "("
            },
            PunctuationInner::RightParen => {
                proof {
                    reveal_strlit(")");
                }
                ")"
            },
            PunctuationInner::Plus => {
                proof {
                    reveal_strlit("+");
                }
                "+"
            },
            PunctuationInner::Minus => {
                proof {
                    reveal_strlit("-");
                }
                "-"
            },
            PunctuationInner::Star => {
                proof {
                    reveal_strlit("*");
                }
                "*"
            },
            PunctuationInner::Slash => {
                proof {
                    reveal_strlit("/");
                }
                "/"
            },
            PunctuationInner::Percent => {
                proof {
                    reveal_strlit("%");
                }
                "%"
            },
            PunctuationInner::Equals => {
                proof {
                    reveal_strlit("==");
                }
                "=="
            },
            PunctuationInner::NotEquals => {
                proof {
                    reveal_strlit("!=");
                }
                "!="
            },
            PunctuationInner::Leather => {
                proof {
                    reveal_strlit("<");
                }
                "<"
            },
            PunctuationInner::Greater => {
                proof {
                    reveal_strlit(">");
                }
                ">"
            },
            PunctuationInner::LeatherEquals => {
                proof {
                    reveal_strlit("<=");
                }
                "<="
            },
            PunctuationInner::GreaterEquals => {
                proof {
                    reveal_strlit(">=");
                }
                ">="
            },
            PunctuationInner::Exclamation => {
                proof {
                    reveal_strlit("!");
                }
                "!"
            },
            PunctuationInner::DoubleAmpersand => {
                proof {
                    reveal_strlit("&&");
                }
                "&&"
            },
            PunctuationInner::DoublePipe => {
                proof {
                    reveal_strlit("||");
                }
                "||"
            },
            PunctuationInner::Comma => {
                proof {
                    reveal_strlit(",");
                }
                ","
            },
        }
    }
}

// ---------------------------------------------------------------------------
// Reading number texts.
// ---------------------------------------------------------------------------

proof fn lemma_digits_value_step(ds: Seq<char>, k: int)
    requires
        0 <= k < ds.len(),
    ensures
        digits_value(ds.take(k + 1)) == digits_value(ds.take(k)) * 10 + (ds[k] as u32 - '0' as u32),
{
    assert(ds.take(k + 1).drop_last() =~= ds.take(k));
}

proof fn lemma_digits_value_mono(ds: Seq<char>, j: int)
    requires
        all_digits(ds),
        0 <= j <= ds.len(),
    ensures
        0 <= digits_value(ds.take(j)) <= digits_value(ds),
    decreases ds.len(),
{
    if j == ds.len() {
        assert(ds.take(j) =~= ds);
        if ds.len() > 0 {
            lemma_digits_value_mono(ds.drop_last(), j - 1);
            assert(ds.drop_last().take(j - 1) =~= ds.drop_last());
            assert(is_ascii_digit(ds[ds.len() - 1]));
        }
    } else {
        let dl = ds.drop_last();
        assert forall|k: int| 0 <= k < dl.len() implies is_ascii_digit(#[trigger] dl[k]) by {
            assert(dl[k] == ds[k]);
        }
        lemma_digits_value_mono(dl, j);
        assert(dl.take(j) =~= ds.take(j));
        assert(is_ascii_digit(ds[ds.len() - 1]));
    }
}

/// Reads `t` as `i64`'s `FromStr` does: an optional sign and decimal digits,
/// failing on anything else or on a value out of range.
pub fn parse_i64(t: &Vec<char>) -> (res: Option<i64>)
    ensures
        res == spec_parse_i64(t@),
{
    let n = t.len();
    let mut s: usize = 0;
    let mut neg = false;
    if n > 0 && (t[0] == '+' || t[0] == '-') {
        neg = t[0] == '-';
        s = 1;
    }
    let ghost ds = t@.subrange(s as int, n as int);
    assert(ds =~= strip_sign(t@));
    if s == n {
        return None;
    }
    let mut m: u64 = 0;
    let mut i: usize = s;
    while i < n
        invariant
            s <= i <= n == t@.len(),
            ds == t@.subrange(s as int, n as int),
            ds == strip_sign(t@),
            neg == (t@.len() > 0 && t@[0] == '-'),
            s == 0 || s == 1,
            m == digits_value(ds.take(i - s)),
            m <= 9223372036854775808u64,
            forall|k: int| 0 <= k < i - s ==> is_ascii_digit(#[trigger] ds[k]),
        decreases n - i,
    {
        let c = t[i];
        assert(ds[i - s] == c);
        if !('0' <= c && c <= '9') {
            assert(!is_ascii_digit(ds[i - s]));
            assert(!all_digits(ds));
            return None;
        }
        let d = (c as u32 - '0' as u32) as u64;
        proof {
            lemma_digits_value_step(ds, i - s);
        }
        if m > 922337203685477580u64 || (m == 922337203685477580u64 && d > 8) {
            proof {
                if all_digits(ds) {
                    lemma_digits_value_mono(ds, i - s + 1);
                }
            }
            return None;
        }
        m = m * 10 + d;
        i = i + 1;
    }
    assert(ds.take(n - s) =~= ds);
    if neg {
        if m == 9223372036854775808u64 {
            Some(i64::MIN)
        } else {
            Some(-(m as i64))
        }
    } else {
        if m > 9223372036854775807u64 {
            None
        } else {
            Some(m as i64)
        }
    }
}

/// Whether `t` is a decimal float in the syntax of `f64`'s `FromStr`.
pub fn float_text_valid(t: &Vec<char>) -> (res: bool)
    ensures
        res == float_syntax(t@),
{
    let n = t.len();
    let s: usize = if n > 0 && (t[0] == '+' || t[0] == '-') {
        1
    } else {
        0
    };
    let ghost b = t@.subrange(s as int, n as int);
    assert(b =~= strip_sign(t@));
    let mut e = s;
    while e < n && !(t[e] == 'e' || t[e] == 'E')
        invariant
            s <= e <= n == t@.len(),
            b == t@.subrange(s as int, n as int),
            first_exp_mark(b, 0) == first_exp_mark(b, e - s),
        decreases n - e,
    {
        assert(b[e - s] == t@[e as int]);
        e = e + 1;
    }
    if e < n {
        assert(b[e - s] == t@[e as int]);
    }
    assert(first_exp_mark(b, 0) == e - s);
    let ghost m = b.take(e - s);
    let ghost x = b.skip(e - s);
    assert(m =~= t@.subrange(s as int, e as int));
    assert(x =~= t@.subrange(e as int, n as int));
    // the mantissa
    let mut k = s;
    let mut dot_seen = false;
    let mut digit_seen = false;
    let ghost mut dot_at: int = 0;
    while k < e
        invariant
            s <= k <= e <= n == t@.len(),
            m == t@.subrange(s as int, e as int),
            b == strip_sign(t@),
            m == b.take(e - s),
            x == b.skip(e - s),
            first_exp_mark(b, 0) == e - s,
            forall|j: int| 0 <= j < k - s ==> is_ascii_digit(#[trigger] m[j]) || m[j] == '.',
            forall|a: int, b2: int| 0 <= a < b2 < k - s && #[trigger] m[a] == '.' ==> #[trigger] m[b2] != '.',
            dot_seen ==> 0 <= dot_at < k - s && m[dot_at] == '.',
            !dot_seen ==> forall|j: int| 0 <= j < k - s ==> #[trigger] m[j] != '.',
            digit_seen == exists|j: int| 0 <= j < k - s && is_ascii_digit(#[trigger] m[j]),
        decreases e - k,
    {
        let c = t[k];
        assert(m[k - s] == c);
        if c == '.' {
            if dot_seen {
                assert(m[dot_at] == '.' && m[k - s] == '.');
                return false;
            }
            dot_seen = true;
            proof {
                dot_at = k - s;
            }
        } else if !('0' <= c && c <= '9') {
            assert(!(is_ascii_digit(m[k - s]) || m[k - s] == '.'));
            return false;
        } else {
            digit_seen = true;
        }
        k = k + 1;
    }
    if !digit_seen {
        return false;
    }
    assert(mantissa_ok(m));
    // the exponent
    if e == n {
        assert(x.len() == 0);
        return true;
    }
    let mut j = e + 1;
    if j < n && (t[j] == '+' || t[j] == '-') {
        j = j + 1;
    }
    let ghost r = strip_sign(x.drop_first());
    assert(r =~= t@.subrange(j as int, n as int));
    if j == n {
        return false;
    }
    let mut q = j;
    while q < n
        invariant
            j <= q <= n == t@.len(),
            r == t@.subrange(j as int, n as int),
            b == strip_sign(t@),
            m == b.take(e - s),
            x == b.skip(e - s),
            first_exp_mark(b, 0) == e - s,
            mantissa_ok(m),
            x.len() > 0,
            r == strip_sign(x.drop_first()),
            forall|w: int| 0 <= w < q - j ==> is_ascii_digit(#[trigger] r[w]),
        decreases n - q,
    {
        assert(r[q - j] == t@[q as int]);
        if !('0' <= t[q] && t[q] <= '9') {
            assert(!is_ascii_digit(r[q - j]));
            return false;
        }
        q = q + 1;
    }
    true
}

// ---------------------------------------------------------------------------
// The tokenizer.
// ---------------------------------------------------------------------------

fn string_of_chars(cs: &Vec<char>) -> (res: String)
    ensures
        res@ == cs@,
{
    let res = string_of_range(cs, 0, cs.len());
    assert(cs@.subrange(0, cs@.len() as int) =~= cs@);
    res
}

fn exec_is_ident_start(c: char) -> (res: bool)
    ensures
        res == is_ident_start(c),
{
    ('a' <= c && c <= 'z') || ('A' <= c && c <= 'Z') || c == '_'
}

fn exec_is_ident_continue(c: char) -> (res: bool)
    ensures
        res == is_ident_continue(c),
{
    exec_is_ident_start(c) || ('0' <= c && c <= '9')
}

/// The token that the word `cs[i..j]` reads as.
fn word_token(cs: &Vec<char>, i: usize, j: usize) -> (res: TokenInner)
    requires
        i <= j <= cs.len(),
    ensures
        res@ == word_kind(cs@.subrange(i as int, j as int)),
{
    let ghost w = cs@.subrange(i as int, j as int);
    if j - i == 4 && cs[i] == 't' && cs[i + 1] == 'r' && cs[i + 2] == 'u' && cs[i + 3] == 'e' {
        assert(w =~= seq!['t', 'r', 'u', 'e']);
        return TokenInner::Literal(LiteralInner::Boolean(true));
    }
    assert(w != seq!['t', 'r', 'u', 'e']) by {
        if w.len() == 4 {
            assert(w[0] == cs@[i as int] && w[1] == cs@[i + 1] && w[2] == cs@[i + 2] && w[3] == cs@[i + 3]);
        }
    }
    if j - i == 5 && cs[i] == 'f' && cs[i + 1] == 'a' && cs[i + 2] == 'l' && cs[i + 3] == 's' && cs[i + 4] == 'e' {
        assert(w =~= seq!['f', 'a', 'l', 's', 'e']);
        return TokenInner::Literal(LiteralInner::Boolean(false));
    }
    assert(w != seq!['f', 'a', 'l', 's', 'e']) by {
        if w.len() == 5 {
            assert(w[0] == cs@[i as int] && w[1] == cs@[i + 1] && w[2] == cs@[i + 2] && w[3] == cs@[i + 3] && w[4] == cs@[i + 4]);
        }
    }
    if j - i == 3 && cs[i] == 'N' && cs[i + 1] == 'a' && cs[i + 2] == 'N' {
        assert(w =~= seq!['N', 'a', 'N']);
        return TokenInner::Literal(LiteralInner::Float(string_of_range(cs, i, j)));
    }
    assert(w != seq!['N', 'a', 'N']) by {
        if w.len() == 3 {
            assert(w[0] == cs@[i as int] && w[1] == cs@[i + 1] && w[2] == cs@[i + 2]);
        }
    }
    TokenInner::Identifier(string_of_range(cs, i, j))
}

/// Reads the number literal whose first character is `cs[i]`: the index where it
/// ends, the length of its text and its value. `position` is reported in errors.
pub fn parse_number_literal(cs: &Vec<char>, i: usize, position: usize) -> (res: Result<
    (usize, usize, LiteralInner),
    ParseError,
>)
    requires
        i < cs.len(),
    ensures
        match number_literal(cs@, i as int, position) {
            Err(e) => res == Err::<(usize, usize, LiteralInner), ParseError>(e),
            Ok((k, len, lit)) => res matches Ok((k2, len2, l)) && k2 == k && len2 == len && l@
                == lit,
        },
{
    let n = cs.len();
    let mut text: Vec<char> = Vec::new();
    text.push(cs[i]);
    let mut dot = false;
    let mut exp = false;
    let mut stop = false;
    let mut k = i + 1;
    assert(text@ =~= seq![cs@[i as int]]);
    while k < n && !stop
        invariant
            i + 1 <= k <= n == cs.len(),
            scan_number(cs@, i + 1, seq![cs@[i as int]], false, false, position) == if stop {
                Ok((k as int, text@, dot || exp))
            } else {
                scan_number(cs@, k as int, text@, dot, exp, position)
            },
            text@.len() <= k - i,
        decreases n - k + (if stop {
            0int
        } else {
            1int
        }),
    {
        let c = cs[k];
        if c == '.' {
            if dot {
                return Err(ParseError::InvalidFloat { position });
            }
            dot = true;
            text.push('.');
            k = k + 1;
        } else if c == 'e' || c == 'E' {
            if exp {
                return Err(ParseError::InvalidFloat { position });
            }
            exp = true;
            text.push('e');
            if k + 1 < n && (cs[k + 1] == '+' || cs[k + 1] == '-') {
                text.push(cs[k + 1]);
                k = k + 2;
            } else {
                k = k + 1;
            }
        } else if c == '_' {
            k = k + 1;
        } else if '0' <= c && c <= '9' {
            text.push(c);
            k = k + 1;
        } else if ('a' <= c && c <= 'z') || ('A' <= c && c <= 'Z') {
            if dot || exp {
                return Err(ParseError::InvalidFloat { position });
            } else {
                return Err(ParseError::InvalidInteger { position });
            }
        } else {
            stop = true;
        }
    }
    let len = text.len();
    if dot || exp {
        if float_text_valid(&text) {
            Ok((k, len, LiteralInner::Float(string_of_chars(&text))))
        } else {
            Err(ParseError::InvalidFloat { position })
        }
    } else {
        match parse_i64(&text) {
            Some(v) => Ok((k, len, LiteralInner::Integer(v))),
            None => Err(ParseError::InvalidInteger { position }),
        }
    }
}

/// Reads a string literal whose characters start at `cs[k0]`, up to the closing
/// `opener` that no backslash escapes: the index of the closing quote and the
/// characters before it, escapes kept as written.
pub fn parse_string_literal(cs: &Vec<char>, k0: usize, opener: char) -> (res: Result<
    (usize, String),
    ParseError,
>)
    requires
        k0 <= cs.len(),
    ensures
        match scan_string(cs@, k0 as int, opener, false) {
            None => res == Err::<(usize, String), ParseError>(ParseError::EndOfInput),
            Some(close) => res matches Ok((c, s)) && c == close && s@ == cs@.subrange(
                k0 as int,
                close,
            ),
        },
{
    let n = cs.len();
    let mut k = k0;
    let mut escaped = false;
    let mut result = String::new();
    while k < n
        invariant
            k0 <= k <= n == cs.len(),
            scan_string(cs@, k0 as int, opener, false) == scan_string(cs@, k as int, opener, escaped),
            result@ == cs@.subrange(k0 as int, k as int),
        decreases n - k,
    {
        let c = cs[k];
        if c == opener && !escaped {
            return Ok((k, result));
        } else if c == '\\' {
            escaped = !escaped;
        } else {
            escaped = false;
        }
        push_char(&mut result, c);
        assert(result@ =~= cs@.subrange(k0 as int, k + 1));
        k = k + 1;
    }
    Err(ParseError::EndOfInput)
}

fn float_token(text_inf: bool, negative: bool) -> (res: TokenInner)
    ensures
        text_inf && !negative ==> res@ == TokKind::Lit(LitV::Float(seq!['i', 'n', 'f'])),
        text_inf && negative ==> res@ == TokKind::Lit(LitV::Float(seq!['-', 'i', 'n', 'f'])),
{
    let mut s = String::new();
    if negative {
        push_char(&mut s, '-');
    }
    push_char(&mut s, 'i');
    push_char(&mut s, 'n');
    push_char(&mut s, 'f');
    assert(!negative ==> s@ =~= seq!['i', 'n', 'f']);
    assert(negative ==> s@ =~= seq!['-', 'i', 'n', 'f']);
    TokenInner::Literal(LiteralInner::Float(s))
}

/// One step of the tokenizer at `cs[i]`, whose byte offset is `pos`.
#[verifier::spinoff_prover]
#[verifier::rlimit(50)]
fn read_token(cs: &Vec<char>, i: usize, pos: usize, Ghost(total): Ghost<nat>) -> (res: Result<
    (Option<Token>, usize),
    ParseError,
>)
    requires
        i < cs.len(),
        pos == offset(cs@, i as int),
        total == bytes_len(cs@),
        total <= usize::MAX,
    ensures
        match lex_step(cs@, i as int) {
            Err(e) => res == Err::<(Option<Token>, usize), ParseError>(e),
            Ok((t, j)) => res matches Ok((t2, j2)) && j2 == j && match t {
                None => t2 is None,
                Some(tv) => t2 matches Some(tok) && tok@ == tv,
            },
        },
{
    let n = cs.len();
    proof {
        lemma_offset_step(cs@, i as int);
        lemma_offset_range(cs@, i as int + 1, n as int);
        lemma_lex_step_progress(cs@, i as int);
    }
    let c = cs[i];
    let start = pos;
    let next: Option<char> = if i + 1 < n {
        Some(cs[i + 1])
    } else {
        None
    };
    assert(next == next_char(cs@, i as int));
    if is_whitespace(c) {
        return Ok((None, i + 1));
    }
    if exec_is_ident_start(c) {
        let mut j = i + 1;
        while j < n && exec_is_ident_continue(cs[j])
            invariant
                i + 1 <= j <= n == cs.len(),
                ident_end(cs@, i + 1) == ident_end(cs@, j as int),
            decreases n - j,
        {
            j = j + 1;
        }
        proof {
            lemma_offset_range(cs@, i as int, j as int);
            lemma_offset_range(cs@, j as int, n as int);
        }
        let inner = word_token(cs, i, j);
        let span = Span::new(start, start + (j - i) - 1);
        return Ok((Some(Token { inner, span }), j));
    }
    let is_digit = '0' <= c && c <= '9';
    let minus_digit = c == '-' && match next {
        Some(d) => '0' <= d && d <= '9',
        None => false,
    };
    if is_digit || minus_digit {
        match parse_number_literal(cs, i, start) {
            Err(e) => {
                return Err(e);
            },
            Ok((k, len, lit)) => {
                proof {
                    lemma_scan_number_bounds(cs@, i + 1, seq![cs@[i as int]], false, false, start);
                    lemma_offset_range(cs@, i as int, k as int);
                    lemma_offset_range(cs@, k as int, n as int);
                }
                let end = if is_digit {
                    start + len
                } else {
                    start + len - 1
                };
                let span = Span::new(start, end);
                return Ok((Some(Token { inner: TokenInner::Literal(lit), span }), k));
            },
        }
    }
    if c == '\'' || c == '"' {
        match parse_string_literal(cs, i + 1, c) {
            Err(e) => {
                return Err(e);
            },
            Ok((close, string)) => {
                proof {
                    lemma_scan_string_bounds(cs@, i + 1, c, false);
                    lemma_offset_range(cs@, i as int + 1, close as int);
                    lemma_offset_range(cs@, close as int, n as int);
                }
                let p1 = start + 1;
                let pclose = advance(cs, i + 1, close, p1, Ghost(total));
                let content_len = pclose - p1;
                let span = Span::new(start, start + content_len);
                return Ok(
                    (
                        Some(Token { inner: TokenInner::Literal(LiteralInner::String(string)), span }),
                        close + 1,
                    ),
                );
            },
        }
    }
    if c == '∞' {
        let span = Span::new(start, start + 3);
        return Ok((Some(Token { inner: float_token(true, false), span }), i + 1));
    }
    if c == '-' && next == Some('∞') {
        proof {
            lemma_offset_step(cs@, i as int + 1);
            lemma_offset_range(cs@, i as int + 2, n as int);
        }
        let span = Span::new(start, start + 4);
        return Ok((Some(Token { inner: float_token(true, true), span }), i + 2));
    }
    match Punctuation::from_parser(Span::new(start, start), c, next) {
        Some((p, two)) => {
            let j = if two {
                i + 2
            } else {
                i + 1
            };
            Ok((Some(Token { inner: TokenInner::Punctuation(p.inner), span: p.span }), j))
        },
        None => Err(ParseError::InvalidToken { position: start }),
    }
}

impl TokenStream {
    /// Reads the tokens of `s`; the result is `lex` of its characters, tokens
    /// or the first error.
    pub fn tokenize(s: &str) -> (res: Result<TokenStream, ParseError>)
        ensures
            match res {
                Ok(ts) => lex(s@, 0) == Ok::<Seq<TokV>, ParseError>(ts@),
                Err(e) => lex(s@, 0) == Err::<Seq<TokV>, ParseError>(e),
            },
    {
        let cs = chars_of(s);
        let total = str_byte_len(s);
        let ghost tot = total as nat;
        let n = cs.len();
        let mut tokens: Vec<Token> = Vec::new();
        let mut i: usize = 0;
        let mut pos: usize = 0;
        assert(cs@.take(0) =~= Seq::<char>::empty());
        assert(lex(cs@, 0) == prepend(tokens@.map_values(|t: Token| t@), lex(cs@, 0))) by {
            assert(tokens@.map_values(|t: Token| t@) =~= Seq::<TokV>::empty());
            match lex(cs@, 0) {
                Ok(r) => {
                    assert(Seq::<TokV>::empty() + r =~= r);
                },
                Err(_) => {},
            }
        }
        while i < n
            invariant
                cs@ == s@,
                n == cs.len(),
                i <= n,
                pos == offset(cs@, i as int),
                tot == bytes_len(cs@),
                tot == total,
                lex(cs@, 0) == prepend(tokens@.map_values(|t: Token| t@), lex(cs@, i as int)),
            decreases n - i,
        {
            proof {
                lemma_lex_step_progress(cs@, i as int);
            }
            let ghost before = tokens@.map_values(|t: Token| t@);
            match read_token(&cs, i, pos, Ghost(tot)) {
                Err(e) => {
                    return Err(e);
                },
                Ok((t, j)) => {
                    match t {
                        Some(tk) => {
                            let ghost tv = tk@;
                            tokens.push(tk);
                            proof {
                                assert(tokens@.map_values(|t: Token| t@) =~= before.push(tv));
                                match lex(cs@, j as int) {
                                    Ok(r) => {
                                        assert(before + (seq![tv] + r) =~= before.push(tv) + r);
                                    },
                                    Err(_) => {},
                                }
                            }
                        },
                        None => {},
                    }
                    proof {
                        lemma_offset_range(cs@, j as int, n as int);
                    }
                    pos = advance(&cs, i, j, pos, Ghost(tot));
                    i = j;
                },
            }
        }
        assert(lex(cs@, n as int) == Ok::<Seq<TokV>, ParseError>(Seq::empty()));
        assert(tokens@.map_values(|t: Token| t@) + Seq::<TokV>::empty() =~= tokens@.map_values(
            |t: Token| t@,
        ));
        Ok(TokenStream::new(tokens))
    }
}

impl std::str::FromStr for TokenStream {
    type Err = ParseError;

    fn from_str(s: &str) -> (res: Result<TokenStream, ParseError>)
        ensures
            match res {
                Ok(ts) => lex(s@, 0) == Ok::<Seq<TokV>, ParseError>(ts@),
                Err(e) => lex(s@, 0) == Err::<Seq<TokV>, ParseError>(e),
            },
    {
        TokenStream::tokenize(s)
    }
}

/// Every span ends no earlier than it starts and within `total` bytes, and
/// the tokens start at increasing offsets.
pub open spec fn spans_in_order(ts: Seq<TokV>, total: int) -> bool {
    &&& forall|k: int| 0 <= k < ts.len() ==> (#[trigger] ts[k]).span.start <= ts[k].span.end <= total
    &&& forall|a: int, b: int|
        0 <= a < b < ts.len() ==> (#[trigger] ts[a]).span.start < (#[trigger] ts[b]).span.start
}

proof fn lemma_lex_spans_from(cs: Seq<char>, i: int)
    requires
        0 <= i <= cs.len(),
        bytes_len(cs) <= usize::MAX,
    ensures
        lex(cs, i) matches Ok(ts) ==> spans_in_order(ts, bytes_len(cs) as int) && forall|k: int|
            0 <= k < ts.len() ==> offset(cs, i) <= (#[trigger] ts[k]).span.start,
    decreases cs.len() - i,
{
    if i < cs.len() {
        lemma_lex_step_progress(cs, i);
        lemma_lex_step_span(cs, i);
        match lex_step(cs, i) {
            Err(_) => {},
            Ok((t, j)) => {
                lemma_lex_spans_from(cs, j);
                lemma_offset_range(cs, i, j);
                match t {
                    None => {},
                    Some(t) => {
                        match lex(cs, j) {
                            Err(_) => {},
                            Ok(rest) => {
                                let ts = seq![t] + rest;
                                assert forall|k: int| 0 <= k < ts.len() implies (#[trigger] ts[k]).span.start
                                    <= ts[k].span.end <= bytes_len(cs) && offset(cs, i) <= ts[k].span.start by {
                                    if k > 0 {
                                        assert(ts[k] == rest[k - 1]);
                                    }
                                }
                                assert forall|a: int, b: int| 0 <= a < b < ts.len() implies (#[trigger] ts[a]).span.start
                                    < (#[trigger] ts[b]).span.start by {
                                    assert(ts[b] == rest[b - 1]);
                                    if a > 0 {
                                        assert(ts[a] == rest[a - 1]);
                                    }
                                }
                            },
                        }
                    },
                }
            },
        }
    }
}

/// The tokens of a text come in the order of the text: each starts after the
/// one before it, and each span ends no earlier than it starts and within the
/// bytes of the text.
pub proof fn lemma_token_spans_in_order(cs: Seq<char>)
    requires
        bytes_len(cs) <= usize::MAX,
    ensures
        lex(cs, 0) matches Ok(ts) ==> spans_in_order(ts, bytes_len(cs) as int),
{
    lemma_lex_spans_from(cs, 0);
}

/// A text of whitespace only has no tokens.
pub proof fn lemma_whitespace_has_no_tokens(cs: Seq<char>, i: int)
    requires
        0 <= i <= cs.len(),
        forall|j: int| 0 <= j < cs.len() ==> spec_is_whitespace(#[trigger] cs[j]),
    ensures
        lex(cs, i) == Ok::<Seq<TokV>, ParseError>(Seq::empty()),
    decreases cs.len() - i,
{
    if i < cs.len() {
        assert(spec_is_whitespace(cs[i]));
        lemma_whitespace_has_no_tokens(cs, i + 1);
    }
}


// ---------------------------------------------------------------------------
// Float literals.
// ---------------------------------------------------------------------------

/// `t` with each exponent mark written `e`.
pub open spec fn lower_exp(t: Seq<char>) -> Seq<char> {
    t.map_values(|c: char| if c == 'E' { 'e' } else { c })
}

proof fn lemma_first_exp_mark(t: Seq<char>, k: int)
    requires
        0 <= k <= t.len(),
    ensures
        k <= first_exp_mark(t, k) <= t.len(),
        forall|j: int| k <= j < first_exp_mark(t, k) ==> !is_exp_mark(#[trigger] t[j]),
        first_exp_mark(t, k) < t.len() ==> is_exp_mark(t[first_exp_mark(t, k)]),
    decreases t.len() - k,
{
    if k < t.len() && !is_exp_mark(t[k]) {
        lemma_first_exp_mark(t, k + 1);
    }
}

proof fn lemma_first_exp_mark_same(s1: Seq<char>, s2: Seq<char>, k: int)
    requires
        0 <= k <= s1.len(),
        s1.len() == s2.len(),
        forall|j: int| 0 <= j < s1.len() ==> is_exp_mark(#[trigger] s1[j]) == is_exp_mark(s2[j]),
    ensures
        first_exp_mark(s1, k) == first_exp_mark(s2, k),
    decreases s1.len() - k,
{
    if k < s1.len() {
        assert(is_exp_mark(s1[k]) == is_exp_mark(s2[k]));
        lemma_first_exp_mark_same(s1, s2, k + 1);
    }
}

/// The scan of a float text from index `k`: the mantissa before the first
/// exponent mark `e`, then the mark with its sign, then the exponent digits.
proof fn lemma_scan_float(t: Seq<char>, k: int, dot: bool, exp: bool, position: usize)
    requires
        float_syntax(t),
        t.len() > 0,
        is_ascii_digit(t[0]),
        1 <= k <= t.len(),
        k <= first_exp_mark(t, 0) ==> !exp && dot == (exists|j: int| 0 <= j < k && t[j] == '.'),
        k > first_exp_mark(t, 0) ==> exp && dot == (exists|j: int| 0 <= j < first_exp_mark(t, 0) && t[j]
            == '.') && k >= first_exp_mark(t, 0) + 1 + (if first_exp_mark(t, 0) + 1 < t.len() && is_sign(
            t[first_exp_mark(t, 0) + 1],
        ) {
            1int
        } else {
            0int
        }),
    ensures
        scan_number(t, k, lower_exp(t.take(k)), dot, exp, position) == Ok::<
            (int, Seq<char>, bool),
            ParseError,
        >(
            (
                t.len() as int,
                lower_exp(t),
                (exists|j: int| 0 <= j < first_exp_mark(t, 0) && t[j] == '.') || first_exp_mark(t, 0)
                    < t.len(),
            ),
        ),
    decreases t.len() - k,
{
    let e = first_exp_mark(t, 0);
    lemma_first_exp_mark(t, 0);
    assert(strip_sign(t) == t);
    let m = t.take(e);
    let x = t.skip(e);
    assert(mantissa_ok(m));
    assert(exponent_ok(x));
    let mant_dot = exists|j: int| 0 <= j < e && t[j] == '.';
    if k == t.len() {
        assert(t.take(k) =~= t);
        if k <= e {
            assert(e == t.len());
            assert(dot == mant_dot);
        }
    } else {
        let c = t[k];
        assert(lower_exp(t.take(k + 1)) =~= lower_exp(t.take(k)).push(if c == 'E' { 'e' } else { c }));
        if k < e {
            assert(m[k] == c);
            assert(is_ascii_digit(c) || c == '.');
            assert(!is_exp_mark(c));
            if c == '.' {
                if dot {
                    let j = choose|j: int| 0 <= j < k && t[j] == '.';
                    assert(m[j] == '.' && m[k] == '.');
                }
                assert(exists|j: int| 0 <= j < k + 1 && t[j] == '.') by {
                    assert(t[k] == '.');
                }
                lemma_scan_float(t, k + 1, true, exp, position);
            } else {
                assert((exists|j: int| 0 <= j < k + 1 && t[j] == '.') == dot) by {
                    if exists|j: int| 0 <= j < k + 1 && t[j] == '.' {
                        let j = choose|j: int| 0 <= j < k + 1 && t[j] == '.';
                        assert(j < k);
                    }
                }
                lemma_scan_float(t, k + 1, dot, exp, position);
            }
        } else if k == e {
            assert(is_exp_mark(c));
            assert(x[0] == c);
            assert(dot == mant_dot);
            if k + 1 < t.len() && is_sign(t[k + 1]) {
                assert(lower_exp(t.take(k + 2)) =~= lower_exp(t.take(k)).push('e').push(t[k + 1]));
                lemma_scan_float(t, k + 2, dot, true, position);
            } else {
                lemma_scan_float(t, k + 1, dot, true, position);
            }
        } else {
            let y = x.drop_first();
            let r = strip_sign(y);
            let start = e + 1 + (if e + 1 < t.len() && is_sign(t[e + 1]) {
                1int
            } else {
                0int
            });
            assert(y =~= t.skip(e + 1));
            assert(r =~= t.skip(start));
            assert(r[k - start] == c);
            assert(is_ascii_digit(c));
            lemma_scan_float(t, k + 1, dot, exp, position);
        }
    }
}

/// A float text reads as itself: a text in the float grammar (digits with a
/// dot, an exponent with an optional `+` or `-` sign, or both) that starts
/// with a digit is one float literal, whose text is the same (exponent mark
/// written `e`), spanning the text.
pub proof fn lemma_float_literal(t: Seq<char>)
    requires
        float_syntax(t),
        t.len() > 0,
        is_ascii_digit(t[0]),
        exists|i: int| 0 <= i < t.len() && (t[i] == '.' || is_exp_mark(#[trigger] t[i])),
    ensures
        lex(t, 0) == Ok::<Seq<TokV>, ParseError>(
            seq![TokV { kind: TokKind::Lit(LitV::Float(lower_exp(t))), span: Span::mk(0, t.len() as usize) }],
        ),
{
    let e = first_exp_mark(t, 0);
    lemma_first_exp_mark(t, 0);
    assert(strip_sign(t) == t);
    let lt = lower_exp(t);
    // The text that the scan gives is a float text too.
    assert forall|j: int| 0 <= j < t.len() implies is_exp_mark(#[trigger] t[j]) == is_exp_mark(lt[j]) by {}
    lemma_first_exp_mark_same(t, lt, 0);
    assert(lt.len() > 0 && lt[0] == t[0]);
    assert(strip_sign(lt) == lt);
    let m = t.take(e);
    assert(mantissa_ok(m));
    assert forall|j: int| 0 <= j < e implies #[trigger] lt[j] == t[j] by {
        assert(m[j] == t[j]);
        assert(!is_exp_mark(t[j]));
    }
    assert(lt.take(e) =~= m);
    if e < t.len() {
        let x = t.skip(e);
        let lx = lt.skip(e);
        assert(exponent_ok(x));
        assert(lx[0] == 'e');
        let r = strip_sign(x.drop_first());
        assert forall|j: int| e + 1 <= j < t.len() implies #[trigger] lt[j] == t[j] by {
            assert(x.drop_first()[j - e - 1] == t[j]);
            if x.drop_first().len() > 0 && is_sign(x.drop_first()[0]) {
                if j > e + 1 {
                    assert(r[j - e - 2] == t[j]);
                    assert(is_ascii_digit(r[j - e - 2]));
                }
            } else {
                assert(r[j - e - 1] == t[j]);
                assert(is_ascii_digit(r[j - e - 1]));
            }
        }
        assert(lx.drop_first() =~= x.drop_first());
        assert(exponent_ok(lx));
    } else {
        assert(lt.skip(e).len() == 0);
    }
    assert(float_syntax(lt));
    // The scan.
    assert(t.take(1) =~= seq![t[0]]);
    assert(lower_exp(t.take(1)) =~= seq![t[0]]);
    assert(0 < e) by {
        assert(!is_exp_mark(t[0]));
    }
    assert(!(exists|j: int| 0 <= j < 1 && t[j] == '.'));
    lemma_scan_float(t, 1, false, false, 0);
    let is_float = (exists|j: int| 0 <= j < e && t[j] == '.') || e < t.len();
    assert(is_float) by {
        let i = choose|i: int| 0 <= i < t.len() && (t[i] == '.' || is_exp_mark(#[trigger] t[i]));
        if i >= e && e == t.len() {
            assert(false);
        }
        if i < e && is_exp_mark(t[i]) {
            assert(false);
        }
    }
    assert(t.take(0) =~= Seq::<char>::empty());
    assert(offset(t, 0) == 0);
    assert(!spec_is_whitespace(t[0]));
    assert(number_literal(t, 0, 0) == Ok::<(int, nat, LitV), ParseError>(
        (t.len() as int, t.len(), LitV::Float(lt)),
    ));
    assert(lex(t, t.len() as int) == Ok::<Seq<TokV>, ParseError>(Seq::empty()));
    assert(seq![TokV { kind: TokKind::Lit(LitV::Float(lt)), span: Span::mk(0, t.len() as usize) }]
        + Seq::<TokV>::empty() =~= seq![
        TokV { kind: TokKind::Lit(LitV::Float(lt)), span: Span::mk(0, t.len() as usize) },
    ]);
}


// ---------------------------------------------------------------------------
// Operators and words.
// ---------------------------------------------------------------------------

/// How each punctuation is written.
pub open spec fn written_as(p: PunctuationInner) -> Seq<char> {
    match p {
        PunctuationInner::LeftParen => seq!['('],
        PunctuationInner::RightParen => seq![')'],
        PunctuationInner::Plus => seq!['+'],
        PunctuationInner::Minus => seq!['-'],
        PunctuationInner::Star => seq!['*'],
        PunctuationInner::Slash => seq!['/'],
        PunctuationInner::Percent => seq!['%'],
        PunctuationInner::Equals => seq!['=', '='],
        PunctuationInner::NotEquals => seq!['!', '='],
        PunctuationInner::Leather => seq!['<'],
        PunctuationInner::Greater => seq!['>'],
        PunctuationInner::LeatherEquals => seq!['<', '='],
        PunctuationInner::GreaterEquals => seq!['>', '='],
        PunctuationInner::Exclamation => seq!['!'],
        PunctuationInner::DoubleAmpersand => seq!['&', '&'],
        PunctuationInner::DoublePipe => seq!['|', '|'],
        PunctuationInner::Comma => seq![','],
    }
}

/// Each punctuation's text reads as that punctuation, one token spanning the
/// text.
#[verifier::rlimit(50)]
pub proof fn lemma_punctuation_reads_as_written(p: PunctuationInner)
    ensures
        lex(written_as(p), 0) == Ok::<Seq<TokV>, ParseError>(
            seq![TokV { kind: TokKind::Punct(p), span: Span::mk(0, (written_as(p).len() - 1) as usize) }],
        ),
{
    let t = written_as(p);
    assert(t.take(0) =~= Seq::<char>::empty());
    assert(offset(t, 0) == 0);
    assert(lex(t, t.len() as int) == Ok::<Seq<TokV>, ParseError>(Seq::empty()));
    let tk = TokV { kind: TokKind::Punct(p), span: Span::mk(0, (t.len() - 1) as usize) };
    assert(seq![tk] + Seq::<TokV>::empty() =~= seq![tk]);
    if t.len() == 2 {
        assert(next_char(t, 0) == Some(t[1]));
    } else {
        assert(next_char(t, 0) is None);
    }
    assert(lex_step(t, 0) == Ok::<(Option<TokV>, int), ParseError>((Some(tk), t.len() as int)));
}

/// A word of identifier characters reads as one token spanning it: `true` and
/// `false` as booleans, `NaN` as a float, and any other word as a name.
pub proof fn lemma_word_reads_as(w: Seq<char>)
    requires
        w.len() > 0,
        is_ident_start(w[0]),
        forall|i: int| 0 <= i < w.len() ==> is_ident_continue(#[trigger] w[i]),
    ensures
        lex(w, 0) == Ok::<Seq<TokV>, ParseError>(
            seq![
                TokV {
                    kind: if w == seq!['t', 'r', 'u', 'e'] {
                        TokKind::Lit(LitV::Bool(true))
                    } else if w == seq!['f', 'a', 'l', 's', 'e'] {
                        TokKind::Lit(LitV::Bool(false))
                    } else if w == seq!['N', 'a', 'N'] {
                        TokKind::Lit(LitV::Float(seq!['N', 'a', 'N']))
                    } else {
                        TokKind::Ident(w)
                    },
                    span: Span::mk(0, (w.len() - 1) as usize),
                },
            ],
        ),
{
    lemma_word_end(w, 1);
    assert(w.subrange(0, w.len() as int) =~= w);
    assert(w.take(0) =~= Seq::<char>::empty());
    assert(offset(w, 0) == 0);
    assert(!spec_is_whitespace(w[0]));
    assert(lex(w, w.len() as int) == Ok::<Seq<TokV>, ParseError>(Seq::empty()));
    let tk = tok(word_kind(w), 0, (w.len() - 1) as int);
    assert(seq![tk] + Seq::<TokV>::empty() =~= seq![tk]);
}

proof fn lemma_word_end(w: Seq<char>, j: int)
    requires
        0 <= j <= w.len(),
        forall|i: int| 0 <= i < w.len() ==> is_ident_continue(#[trigger] w[i]),
    ensures
        ident_end(w, j) == w.len(),
    decreases w.len() - j,
{
    if j < w.len() {
        assert(is_ident_continue(w[j]));
        lemma_word_end(w, j + 1);
    }
}

} // verus!
