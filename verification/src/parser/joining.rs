use crate::parser::tokenizer::{
    ident_end, is_ident_start, lemma_ident_end_bounds, lemma_lex_step_progress,
    lemma_scan_number_bounds, lemma_scan_string_bounds, lex, lex_step, next_char, number_literal,
    punct_of, scan_number, scan_string, tok, word_kind, LitV, ParseError, TokKind, TokV,
};
use crate::span::Span;
use crate::text::{
    bytes_len, is_ascii_digit, lemma_bytes_len_add, lemma_offset_range, lemma_offset_step, offset,
    spec_is_whitespace, utf8_len,
};
use vstd::prelude::*;

verus! {

/// A token moved `d` bytes further into the text.
pub open spec fn shift_token(t: TokV, d: int) -> TokV {
    TokV { kind: t.kind, span: Span::mk((t.span.start + d) as usize, (t.span.end + d) as usize) }
}

/// Tokens moved `d` bytes further into the text.
pub open spec fn shift_tokens(ts: Seq<TokV>, d: int) -> Seq<TokV> {
    ts.map_values(|t: TokV| shift_token(t, d))
}

// ---------------------------------------------------------------------------
// Reading a text that follows a prefix: the same tokens, moved by the
// prefix's bytes.
// ---------------------------------------------------------------------------

proof fn lemma_suffix_ident_end(p: Seq<char>, b: Seq<char>, j: int)
    requires
        0 <= j <= b.len(),
    ensures
        ident_end(p + b, p.len() + j) == p.len() + ident_end(b, j),
    decreases b.len() - j,
{
    if j < b.len() {
        assert((p + b)[p.len() + j] == b[j]);
        lemma_suffix_ident_end(p, b, j + 1);
    }
}

proof fn lemma_suffix_scan_number(
    p: Seq<char>,
    b: Seq<char>,
    k: int,
    text: Seq<char>,
    dot: bool,
    exp: bool,
    pos1: usize,
    pos2: usize,
)
    requires
        0 <= k <= b.len(),
    ensures
        scan_number(b, k, text, dot, exp, pos2) matches Ok((k2, t2, f)) ==> scan_number(
            p + b,
            p.len() + k,
            text,
            dot,
            exp,
            pos1,
        ) == Ok::<(int, Seq<char>, bool), ParseError>((p.len() + k2, t2, f)),
    decreases b.len() - k,
{
    let cs = p + b;
    if k < b.len() {
        let c = b[k];
        assert(cs[p.len() + k] == c);
        if k + 1 < b.len() {
            assert(cs[p.len() + k + 1] == b[k + 1]);
        }
        if c == '.' {
            if !dot {
                lemma_suffix_scan_number(p, b, k + 1, text.push('.'), true, exp, pos1, pos2);
            }
        } else if c == 'e' || c == 'E' {
            if !exp {
                if k + 1 < b.len() && (b[k + 1] == '+' || b[k + 1] == '-') {
                    lemma_suffix_scan_number(p, b, k + 2, text.push('e').push(b[k + 1]), dot, true, pos1, pos2);
                } else {
                    lemma_suffix_scan_number(p, b, k + 1, text.push('e'), dot, true, pos1, pos2);
                }
            }
        } else if c == '_' {
            lemma_suffix_scan_number(p, b, k + 1, text, dot, exp, pos1, pos2);
        } else if '0' <= c && c <= '9' {
            lemma_suffix_scan_number(p, b, k + 1, text.push(c), dot, exp, pos1, pos2);
        }
    }
}

proof fn lemma_suffix_scan_string(p: Seq<char>, b: Seq<char>, k: int, opener: char, escaped: bool)
    requires
        0 <= k <= b.len(),
    ensures
        scan_string(p + b, p.len() + k, opener, escaped) == match scan_string(b, k, opener, escaped) {
            Some(c) => Some(p.len() + c),
            None => None,
        },
    decreases b.len() - k,
{
    if k < b.len() {
        assert((p + b)[p.len() + k] == b[k]);
        if b[k] == '\\' {
            lemma_suffix_scan_string(p, b, k + 1, opener, !escaped);
        } else {
            lemma_suffix_scan_string(p, b, k + 1, opener, false);
        }
    }
}

proof fn lemma_suffix_offset(p: Seq<char>, b: Seq<char>, j: int)
    requires
        0 <= j <= b.len(),
    ensures
        offset(p + b, p.len() + j) == bytes_len(p) + offset(b, j),
{
    assert((p + b).take(p.len() + j) =~= p + b.take(j));
    lemma_bytes_len_add(p, b.take(j));
}

proof fn lemma_shift_tok(kind: TokKind, st: int, en: int, d: int)
    requires
        0 <= d,
        0 <= st <= en,
        en + d <= usize::MAX,
    ensures
        shift_token(tok(kind, st, en), d) == tok(kind, st + d, en + d),
{
    assert((st as usize) as int == st);
    assert((en as usize) as int == en);
}

/// A step of the tokenizer inside `b` gives, inside `p + b`, the same token
/// moved by the bytes of `p`.
#[verifier::spinoff_prover]
#[verifier::rlimit(100)]
proof fn lemma_suffix_step(p: Seq<char>, b: Seq<char>, j: int)
    requires
        0 <= j < b.len(),
        bytes_len(p + b) <= usize::MAX,
    ensures
        lex_step(b, j) matches Ok((t, k)) ==> lex_step(p + b, p.len() + j) == Ok::<
            (Option<TokV>, int),
            ParseError,
        >(
            (
                match t {
                    Some(t) => Some(shift_token(t, bytes_len(p) as int)),
                    None => None,
                },
                p.len() + k,
            ),
        ),
{
    let cs = p + b;
    let pl = p.len() as int;
    let d = bytes_len(p) as int;
    let c = b[j];
    let next = next_char(b, j);
    assert(cs[pl + j] == c);
    if j + 1 < b.len() {
        assert(cs[pl + j + 1] == b[j + 1]);
    }
    assert(next_char(cs, pl + j) == next);
    lemma_bytes_len_add(p, b);
    lemma_suffix_offset(p, b, j);
    lemma_offset_range(b, j, b.len() as int);
    lemma_offset_step(b, j);
    if j + 1 < b.len() {
        lemma_offset_step(b, j + 1);
    }
    lemma_lex_step_progress(b, j);
    let sb = offset(b, j) as int;
    let sc = offset(cs, pl + j) as int;
    assert(sc == sb + d);
    if spec_is_whitespace(c) {
    } else if is_ident_start(c) {
        let e = ident_end(b, j + 1);
        lemma_ident_end_bounds(b, j + 1);
        lemma_suffix_ident_end(p, b, j + 1);
        lemma_offset_range(b, j, e);
        assert(cs.subrange(pl + j, pl + e) =~= b.subrange(j, e));
        lemma_shift_tok(word_kind(b.subrange(j, e)), sb, sb + (e - j) - 1, d);
    } else if is_ascii_digit(c) || (c == '-' && next is Some && is_ascii_digit(next->0)) {
        lemma_suffix_scan_number(p, b, j + 1, seq![c], false, false, sc as usize, sb as usize);
        lemma_scan_number_bounds(b, j + 1, seq![c], false, false, sb as usize);
        match number_literal(b, j, sb as usize) {
            Ok((k, len, lit)) => {
                assert(number_literal(cs, pl + j, sc as usize) == Ok::<(int, nat, LitV), ParseError>(
                    (pl + k, len, lit),
                ));
                lemma_offset_range(b, j, k);
                if is_ascii_digit(c) {
                    lemma_shift_tok(TokKind::Lit(lit), sb, sb + len, d);
                } else {
                    lemma_shift_tok(TokKind::Lit(lit), sb, sb + len - 1, d);
                }
            },
            Err(_) => {},
        }
    } else if c == '\'' || c == '"' {
        lemma_suffix_scan_string(p, b, j + 1, c, false);
        lemma_scan_string_bounds(b, j + 1, c, false);
        match scan_string(b, j + 1, c, false) {
            Some(close) => {
                let content = b.subrange(j + 1, close);
                assert(cs.subrange(pl + j + 1, pl + close) =~= content);
                lemma_offset_range(b, j + 1, close);
                lemma_shift_tok(TokKind::Lit(LitV::Str(content)), sb, sb + bytes_len(content), d);
            },
            None => {},
        }
    } else if c == '∞' {
        assert('∞' as u32 == 0x221e);
        lemma_shift_tok(TokKind::Lit(LitV::Float(seq!['i', 'n', 'f'])), sb, sb + 3, d);
    } else if c == '-' && next == Some('∞') {
        assert('∞' as u32 == 0x221e);
        lemma_shift_tok(TokKind::Lit(LitV::Float(seq!['-', 'i', 'n', 'f'])), sb, sb + 4, d);
    } else {
        match punct_of(c, next) {
            Some((pk, two)) => {
                if two {
                    lemma_shift_tok(TokKind::Punct(pk), sb, sb + 1, d);
                } else {
                    lemma_shift_tok(TokKind::Punct(pk), sb, sb, d);
                }
            },
            None => {},
        }
    }
}

proof fn lemma_suffix_lex(p: Seq<char>, b: Seq<char>, j: int)
    requires
        0 <= j <= b.len(),
        bytes_len(p + b) <= usize::MAX,
        lex(b, j) is Ok,
    ensures
        lex(p + b, p.len() + j) == Ok::<Seq<TokV>, ParseError>(
            shift_tokens(lex(b, j)->Ok_0, bytes_len(p) as int),
        ),
    decreases b.len() - j,
{
    let cs = p + b;
    if j < b.len() {
        lemma_lex_step_progress(b, j);
        lemma_suffix_step(p, b, j);
        match lex_step(b, j) {
            Ok((t, k)) => {
                lemma_suffix_lex(p, b, k);
                match t {
                    Some(t) => {
                        let rest = lex(b, k)->Ok_0;
                        assert(shift_tokens(seq![t] + rest, bytes_len(p) as int) =~= seq![
                            shift_token(t, bytes_len(p) as int),
                        ] + shift_tokens(rest, bytes_len(p) as int));
                    },
                    None => {},
                }
            },
            Err(_) => {},
        }
    } else {
        assert(shift_tokens(Seq::<TokV>::empty(), bytes_len(p) as int) =~= Seq::<TokV>::empty());
    }
}

// ---------------------------------------------------------------------------
// Reading a text that a space follows: the same tokens.
// ---------------------------------------------------------------------------

proof fn lemma_prefix_ident_end(a: Seq<char>, q: Seq<char>, j: int)
    requires
        0 <= j <= a.len(),
        q.len() > 0,
        q[0] == ' ',
    ensures
        ident_end(a + q, j) == ident_end(a, j),
    decreases a.len() - j,
{
    if j < a.len() {
        assert((a + q)[j] == a[j]);
        lemma_prefix_ident_end(a, q, j + 1);
    } else {
        assert((a + q)[j] == ' ');
    }
}

proof fn lemma_prefix_scan_number(
    a: Seq<char>,
    q: Seq<char>,
    k: int,
    text: Seq<char>,
    dot: bool,
    exp: bool,
    pos: usize,
)
    requires
        0 <= k <= a.len(),
        q.len() > 0,
        q[0] == ' ',
    ensures
        scan_number(a + q, k, text, dot, exp, pos) == scan_number(a, k, text, dot, exp, pos),
    decreases a.len() - k,
{
    let cs = a + q;
    if k < a.len() {
        let c = a[k];
        assert(cs[k] == c);
        if k + 1 < a.len() {
            assert(cs[k + 1] == a[k + 1]);
        } else {
            assert(cs[k + 1] == ' ');
        }
        if c == '.' {
            if !dot {
                lemma_prefix_scan_number(a, q, k + 1, text.push('.'), true, exp, pos);
            }
        } else if c == 'e' || c == 'E' {
            if !exp {
                if k + 1 < a.len() && (a[k + 1] == '+' || a[k + 1] == '-') {
                    lemma_prefix_scan_number(a, q, k + 2, text.push('e').push(a[k + 1]), dot, true, pos);
                } else {
                    lemma_prefix_scan_number(a, q, k + 1, text.push('e'), dot, true, pos);
                }
            }
        } else if c == '_' {
            lemma_prefix_scan_number(a, q, k + 1, text, dot, exp, pos);
        } else if '0' <= c && c <= '9' {
            lemma_prefix_scan_number(a, q, k + 1, text.push(c), dot, exp, pos);
        }
    } else {
        assert(cs[k] == ' ');
    }
}

proof fn lemma_prefix_scan_string(a: Seq<char>, q: Seq<char>, k: int, opener: char, escaped: bool)
    requires
        0 <= k <= a.len(),
    ensures
        scan_string(a, k, opener, escaped) matches Some(c) ==> scan_string(a + q, k, opener, escaped)
            == Some(c),
    decreases a.len() - k,
{
    if k < a.len() {
        assert((a + q)[k] == a[k]);
        if a[k] == '\\' {
            lemma_prefix_scan_string(a, q, k + 1, opener, !escaped);
        } else {
            lemma_prefix_scan_string(a, q, k + 1, opener, false);
        }
    }
}

/// A step of the tokenizer inside `a` is the same step inside `a + q`, where
/// `q` starts with a space.
#[verifier::spinoff_prover]
#[verifier::rlimit(50)]
proof fn lemma_prefix_step(a: Seq<char>, q: Seq<char>, i: int)
    requires
        0 <= i < a.len(),
        q.len() > 0,
        q[0] == ' ',
    ensures
        lex_step(a, i) is Ok ==> lex_step(a + q, i) == lex_step(a, i),
{
    let cs = a + q;
    assert(cs[i] == a[i]);
    if i + 1 < a.len() {
        assert(cs[i + 1] == a[i + 1]);
        assert(next_char(cs, i) == next_char(a, i));
    } else {
        assert(cs[i + 1] == ' ');
        assert(next_char(cs, i) == Some(' '));
        assert(next_char(a, i) is None);
        assert(punct_of(a[i], Some(' ')) == punct_of(a[i], None));
    }
    assert(cs.take(i) =~= a.take(i));
    assert(offset(cs, i) == offset(a, i));
    let start = offset(a, i);
    lemma_ident_end_bounds(a, i + 1);
    lemma_prefix_ident_end(a, q, i + 1);
    assert(cs.subrange(i, ident_end(a, i + 1)) =~= a.subrange(i, ident_end(a, i + 1)));
    lemma_prefix_scan_number(a, q, i + 1, seq![a[i]], false, false, start as usize);
    lemma_prefix_scan_string(a, q, i + 1, a[i], false);
    lemma_scan_string_bounds(a, i + 1, a[i], false);
    match scan_string(a, i + 1, a[i], false) {
        Some(close) => {
            assert(cs.subrange(i + 1, close) =~= a.subrange(i + 1, close));
        },
        None => {},
    }
    assert(number_literal(cs, i, start as usize) == number_literal(a, i, start as usize));
}

proof fn lemma_prefix_lex(a: Seq<char>, q: Seq<char>, i: int, r: Seq<TokV>)
    requires
        0 <= i <= a.len(),
        q.len() > 0,
        q[0] == ' ',
        lex(a + q, a.len() as int) == Ok::<Seq<TokV>, ParseError>(r),
        lex(a, i) is Ok,
    ensures
        lex(a + q, i) == Ok::<Seq<TokV>, ParseError>(lex(a, i)->Ok_0 + r),
    decreases a.len() - i,
{
    if i < a.len() {
        lemma_lex_step_progress(a, i);
        lemma_prefix_step(a, q, i);
        match lex_step(a, i) {
            Ok((t, k)) => {
                lemma_prefix_lex(a, q, k, r);
                match t {
                    Some(t) => {
                        let rest = lex(a, k)->Ok_0;
                        assert(seq![t] + rest + r =~= seq![t] + (rest + r));
                    },
                    None => {},
                }
            },
            Err(_) => {},
        }
    } else {
        assert(Seq::<TokV>::empty() + r =~= r);
    }
}

/// Two texts joined by a space read as the tokens of the first followed by
/// those of the second, each of those moved by the bytes of the first text and
/// the space: a space ends every token, and no token looks back.
pub proof fn lemma_lex_join(a: Seq<char>, b: Seq<char>)
    requires
        bytes_len(a + seq![' '] + b) <= usize::MAX,
        lex(a, 0) is Ok,
        lex(b, 0) is Ok,
    ensures
        lex(a + seq![' '] + b, 0) == Ok::<Seq<TokV>, ParseError>(
            lex(a, 0)->Ok_0 + shift_tokens(lex(b, 0)->Ok_0, (bytes_len(a) + 1) as int),
        ),
{
    let sp = seq![' '];
    let p = a + sp;
    let q = sp + b;
    let cs = p + b;
    assert(cs =~= a + q);
    assert(sp.drop_last() =~= Seq::<char>::empty());
    assert(utf8_len(' ') == 1);
    assert(bytes_len(Seq::<char>::empty()) == 0);
    assert(sp.last() == ' ');
    assert(bytes_len(sp) == 1);
    lemma_bytes_len_add(a, sp);
    lemma_suffix_lex(p, b, 0);
    let r = shift_tokens(lex(b, 0)->Ok_0, (bytes_len(a) + 1) as int);
    assert(lex(cs, p.len() as int) == Ok::<Seq<TokV>, ParseError>(r));
    assert(cs[a.len() as int] == ' ');
    assert(lex(a + q, a.len() as int) == Ok::<Seq<TokV>, ParseError>(r));
    lemma_prefix_lex(a, q, 0, r);
}

} // verus!
