use crate::parser::expression::{
    exprs_view, lemma_exprs_view, parse_tokens, ExprV, Expression, Failure,
};
use crate::parser::expression::ParseError as ExpressionError;
use crate::parser::tokenizer::{lex, TokenStream};
use crate::parser::tokenizer::ParseError as TokenizerError;
use crate::text::{chars_of, push_char};
use vstd::prelude::*;

verus! {

/// A text with substitutions: `strings[0] {substitutions[0]} strings[1] ...`.
/// There is always one string more than there are substitutions.
#[derive(Debug)]
pub struct Template {
    pub strings: Vec<String>,
    pub substitutions: Vec<Expression>,
}

/// Errors of the template parser.
#[derive(Debug, Clone, Copy, PartialEq, Eq, Structural)]
pub enum ParseError {
    Tokenizer(TokenizerError),
    Expression(ExpressionError),
    UncompletedSubstitution,
}

/// How reading a template can end without one: with an error, or where the
/// expression parser's consistency check fails on a substitution.
#[derive(Debug, Clone, Copy, PartialEq, Eq, Structural)]
pub enum TemplateFailure {
    Error(ParseError),
    Abort,
}

/// The mathematical value of a template.
pub struct TemplateV {
    pub strings: Seq<Seq<char>>,
    pub substitutions: Seq<ExprV>,
}

impl View for Template {
    type V = TemplateV;

    open spec fn view(&self) -> TemplateV {
        TemplateV {
            strings: self.strings@.map_values(|s: String| s@),
            substitutions: exprs_view(self.substitutions@),
        }
    }
}

/// The expression that the text of a substitution reads as.
pub open spec fn substitution(text: Seq<char>) -> Result<ExprV, TemplateFailure> {
    match lex(text, 0) {
        Err(e) => Err(TemplateFailure::Error(ParseError::Tokenizer(e))),
        Ok(ts) => match parse_tokens(ts) {
            Ok(x) => Ok(x),
            Err(Failure::Error(e)) => Err(TemplateFailure::Error(ParseError::Expression(e))),
            Err(Failure::Abort) => Err(TemplateFailure::Abort),
        },
    }
}

/// The scan of a template from index `k`: in text, `{{` stands for `{` and `{`
/// opens a substitution; in a substitution, `}` closes it. `current` holds the
/// characters of the text or substitution being read.
pub open spec fn scan_template(
    cs: Seq<char>,
    k: int,
    in_substitution: bool,
    current: Seq<char>,
    strings: Seq<Seq<char>>,
    substitutions: Seq<ExprV>,
) -> Result<TemplateV, TemplateFailure>
    decreases cs.len() - k,
{
    if k < 0 || k >= cs.len() {
        if in_substitution {
            Err(TemplateFailure::Error(ParseError::UncompletedSubstitution))
        } else {
            Ok(TemplateV { strings: strings.push(current), substitutions })
        }
    } else {
        let c = cs[k];
        if !in_substitution {
            if c == '{' && k + 1 < cs.len() && cs[k + 1] == '{' {
                scan_template(cs, k + 2, false, current.push('{'), strings, substitutions)
            } else if c == '{' {
                scan_template(cs, k + 1, true, Seq::empty(), strings.push(current), substitutions)
            } else {
                scan_template(cs, k + 1, false, current.push(c), strings, substitutions)
            }
        } else {
            if c == '}' {
                match substitution(current) {
                    Err(e) => Err(e),
                    Ok(x) => scan_template(
                        cs,
                        k + 1,
                        false,
                        Seq::empty(),
                        strings,
                        substitutions.push(x),
                    ),
                }
            } else {
                scan_template(cs, k + 1, true, current.push(c), strings, substitutions)
            }
        }
    }
}

/// The template that a text reads as.
pub open spec fn parse_template(cs: Seq<char>) -> Result<TemplateV, TemplateFailure> {
    scan_template(cs, 0, false, Seq::empty(), Seq::empty(), Seq::empty())
}

fn read_substitution(text: &String) -> (res: Result<Expression, TemplateFailure>)
    ensures
        match substitution(text@) {
            Ok(x) => res matches Ok(e) && e@ == x,
            Err(f) => res == Err::<Expression, TemplateFailure>(f),
        },
{
    let tokens = match TokenStream::tokenize(text.as_str()) {
        Ok(t) => t,
        Err(e) => {
            return Err(TemplateFailure::Error(ParseError::Tokenizer(e)));
        },
    };
    match Expression::try_parse(tokens) {
        Ok(e) => Ok(e),
        Err(Failure::Error(e)) => Err(TemplateFailure::Error(ParseError::Expression(e))),
        Err(Failure::Abort) => Err(TemplateFailure::Abort),
    }
}

impl Template {
    /// Reads a template, reporting through `TemplateFailure::Abort` the texts on
    /// which a substitution fails the expression parser's consistency check.
    pub fn try_parse(s: &str) -> (res: Result<Template, TemplateFailure>)
        ensures
            match parse_template(s@) {
                Ok(t) => res matches Ok(x) && x@ == t,
                Err(f) => res == Err::<Template, TemplateFailure>(f),
            },
    {
        let cs = chars_of(s);
        let n = cs.len();
        let mut strings: Vec<String> = Vec::new();
        let mut substitutions: Vec<Expression> = Vec::new();
        let mut current = String::new();
        let mut in_substitution = false;
        let mut k: usize = 0;
        proof {
            lemma_exprs_view(substitutions@);
            assert(strings@.map_values(|s: String| s@) =~= Seq::<Seq<char>>::empty());
            assert(exprs_view(substitutions@) =~= Seq::<ExprV>::empty());
        }
        while k < n
            invariant
                cs@ == s@,
                n == cs@.len(),
                k <= n,
                parse_template(s@) == scan_template(
                    cs@,
                    k as int,
                    in_substitution,
                    current@,
                    strings@.map_values(|s: String| s@),
                    exprs_view(substitutions@),
                ),
            decreases n - k,
        {
            let c = cs[k];
            let ghost sv = strings@.map_values(|s: String| s@);
            if !in_substitution {
                if c == '{' && k + 1 < n && cs[k + 1] == '{' {
                    push_char(&mut current, c);
                    k = k + 2;
                } else if c == '{' {
                    let done = current;
                    current = String::new();
                    strings.push(done);
                    assert(strings@.map_values(|s: String| s@) =~= sv.push(done@));
                    in_substitution = true;
                    k = k + 1;
                } else {
                    push_char(&mut current, c);
                    k = k + 1;
                }
            } else {
                if c == '}' {
                    let e = match read_substitution(&current) {
                        Ok(e) => e,
                        Err(f) => {
                            return Err(f);
                        },
                    };
                    let ghost old_subs = substitutions@;
                    substitutions.push(e);
                    proof {
                        assert(substitutions@.drop_last() =~= old_subs);
                    }
                    current = String::new();
                    in_substitution = false;
                    k = k + 1;
                } else {
                    push_char(&mut current, c);
                    k = k + 1;
                }
            }
        }
        if in_substitution {
            return Err(TemplateFailure::Error(ParseError::UncompletedSubstitution));
        }
        let ghost sv = strings@.map_values(|s: String| s@);
        let done = current;
        strings.push(done);
        assert(strings@.map_values(|s: String| s@) =~= sv.push(done@));
        Ok(Template { strings, substitutions })
    }

    /// Reads a template.
    pub fn parse(s: &str) -> (res: Result<Template, ParseError>)
        requires
            parse_template(s@) != Err::<TemplateV, TemplateFailure>(TemplateFailure::Abort),
        ensures
            match parse_template(s@) {
                Ok(t) => res matches Ok(x) && x@ == t,
                Err(TemplateFailure::Error(e)) => res == Err::<Template, ParseError>(e),
                Err(TemplateFailure::Abort) => false,
            },
    {
        match Self::try_parse(s) {
            Ok(t) => Ok(t),
            Err(TemplateFailure::Error(e)) => Err(e),
            Err(TemplateFailure::Abort) => Err(ParseError::UncompletedSubstitution),
        }
    }
}

proof fn lemma_scan_template_counts(
    cs: Seq<char>,
    k: int,
    in_substitution: bool,
    current: Seq<char>,
    strings: Seq<Seq<char>>,
    substitutions: Seq<ExprV>,
)
    requires
        strings.len() == substitutions.len() + if in_substitution {
            1int
        } else {
            0int
        },
    ensures
        scan_template(cs, k, in_substitution, current, strings, substitutions) matches Ok(t) ==> t.strings.len()
            == t.substitutions.len() + 1,
    decreases cs.len() - k,
{
    if 0 <= k < cs.len() {
        let c = cs[k];
        if !in_substitution {
            if c == '{' && k + 1 < cs.len() && cs[k + 1] == '{' {
                lemma_scan_template_counts(cs, k + 2, false, current.push('{'), strings, substitutions);
            } else if c == '{' {
                lemma_scan_template_counts(cs, k + 1, true, Seq::empty(), strings.push(current), substitutions);
            } else {
                lemma_scan_template_counts(cs, k + 1, false, current.push(c), strings, substitutions);
            }
        } else {
            if c == '}' {
                match substitution(current) {
                    Err(_) => {},
                    Ok(x) => {
                        lemma_scan_template_counts(cs, k + 1, false, Seq::empty(), strings, substitutions.push(x));
                    },
                }
            } else {
                lemma_scan_template_counts(cs, k + 1, true, current.push(c), strings, substitutions);
            }
        }
    }
}

/// A template read from any text has one string more than it has
/// substitutions: the strings stand between and around the substitutions.
pub proof fn lemma_template_strings_around_substitutions(cs: Seq<char>)
    ensures
        parse_template(cs) matches Ok(t) ==> t.strings.len() == t.substitutions.len() + 1,
{
    lemma_scan_template_counts(cs, 0, false, Seq::empty(), Seq::empty(), Seq::empty());
}

/// A text without braces reads as one string, itself, with no substitution.
pub proof fn lemma_plain_text_template(cs: Seq<char>)
    requires
        forall|i: int| 0 <= i < cs.len() ==> #[trigger] cs[i] != '{',
    ensures
        parse_template(cs) == Ok::<TemplateV, TemplateFailure>(
            TemplateV { strings: seq![cs], substitutions: Seq::empty() },
        ),
{
    lemma_plain_text_scan(cs, 0);
    assert(cs.take(0) =~= Seq::<char>::empty());
}

proof fn lemma_plain_text_scan(cs: Seq<char>, k: int)
    requires
        0 <= k <= cs.len(),
        forall|i: int| 0 <= i < cs.len() ==> #[trigger] cs[i] != '{',
    ensures
        scan_template(cs, k, false, cs.take(k), Seq::empty(), Seq::empty()) == Ok::<TemplateV, TemplateFailure>(
            TemplateV { strings: seq![cs], substitutions: Seq::empty() },
        ),
    decreases cs.len() - k,
{
    if k < cs.len() {
        assert(cs.take(k).push(cs[k]) =~= cs.take(k + 1));
        lemma_plain_text_scan(cs, k + 1);
    } else {
        assert(cs.take(k) =~= cs);
        assert(Seq::<Seq<char>>::empty().push(cs) =~= seq![cs]);
    }
}


/// Reading text without `{` adds its characters to the current string.
proof fn lemma_scan_plain_run(
    cs: Seq<char>,
    k: int,
    j: int,
    current: Seq<char>,
    strings: Seq<Seq<char>>,
    substitutions: Seq<ExprV>,
)
    requires
        0 <= k <= j <= cs.len(),
        forall|i: int| k <= i < j ==> #[trigger] cs[i] != '{',
    ensures
        scan_template(cs, k, false, current, strings, substitutions) == scan_template(
            cs,
            j,
            false,
            current + cs.subrange(k, j),
            strings,
            substitutions,
        ),
    decreases j - k,
{
    if k < j {
        assert(cs[k] != '{');
        lemma_scan_plain_run(cs, k + 1, j, current.push(cs[k]), strings, substitutions);
        assert(current.push(cs[k]) + cs.subrange(k + 1, j) =~= current + cs.subrange(k, j));
    } else {
        assert(current + cs.subrange(k, j) =~= current);
    }
}

/// A doubled brace stands for one brace: text without other braces than `{{`
/// at one place reads as one string, with the pair written once, and no
/// substitution.
pub proof fn lemma_escaped_brace(u: Seq<char>, v: Seq<char>)
    requires
        forall|i: int| 0 <= i < u.len() ==> #[trigger] u[i] != '{',
        forall|i: int| 0 <= i < v.len() ==> #[trigger] v[i] != '{',
    ensures
        parse_template(u + seq!['{', '{'] + v) == Ok::<TemplateV, TemplateFailure>(
            TemplateV { strings: seq![u + seq!['{'] + v], substitutions: Seq::empty() },
        ),
{
    let cs = u + seq!['{', '{'] + v;
    let n = u.len() as int;
    assert forall|i: int| 0 <= i < n implies #[trigger] cs[i] != '{' by {
        assert(cs[i] == u[i]);
    }
    lemma_scan_plain_run(cs, 0, n, Seq::empty(), Seq::empty(), Seq::empty());
    assert(Seq::<char>::empty() + cs.subrange(0, n) =~= u);
    assert(cs[n] == '{' && cs[n + 1] == '{');
    assert forall|i: int| n + 2 <= i < cs.len() implies #[trigger] cs[i] != '{' by {
        assert(cs[i] == v[i - n - 2]);
    }
    lemma_scan_plain_run(cs, n + 2, cs.len() as int, u.push('{'), Seq::empty(), Seq::empty());
    assert(u.push('{') + cs.subrange(n + 2, cs.len() as int) =~= u + seq!['{'] + v);
    assert(Seq::<Seq<char>>::empty().push(u + seq!['{'] + v) =~= seq![u + seq!['{'] + v]);
}

} // verus!
