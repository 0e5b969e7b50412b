use crate::parser::tokenizer::{
    LitV, Literal, Punctuation, PunctuationInner, TokKind, TokV, Token, TokenStream,
};
use crate::parser::float::{
    float_eq, float_strings_equal, float_value, lemma_float_eq_reflexive, lemma_float_eq_symmetric,
    lemma_float_eq_transitive,
};
use crate::span::Span;
use crate::vec_util::reversed;
use vstd::prelude::*;

verus! {

/// An expression of the locale language, as the parser builds it.
/// A float is held as its source text in the syntax of `f64`'s `FromStr`.
#[derive(Debug)]
pub enum Expression {
    Call(CallExpression, Span),
    Variable(String, Span),
    String(String, Span),
    Float(String, Span),
    Int(i64, Span),
    Bool(bool, Span),
    Not(Box<Expression>, Span),
    Minus(Box<Expression>, Span),
    And(Box<Expression>, Box<Expression>, Span),
    Or(Box<Expression>, Box<Expression>, Span),
    Eq(Box<Expression>, Box<Expression>, Span),
    Ne(Box<Expression>, Box<Expression>, Span),
    Gt(Box<Expression>, Box<Expression>, Span),
    Ge(Box<Expression>, Box<Expression>, Span),
    Lt(Box<Expression>, Box<Expression>, Span),
    Le(Box<Expression>, Box<Expression>, Span),
    Add(Box<Expression>, Box<Expression>, Span),
    Sub(Box<Expression>, Box<Expression>, Span),
    Mul(Box<Expression>, Box<Expression>, Span),
    Div(Box<Expression>, Box<Expression>, Span),
    Mod(Box<Expression>, Box<Expression>, Span),
}

/// A call `callee(arguments...)`.
#[derive(Debug)]
pub struct CallExpression {
    pub callee: String,
    pub arguments: Vec<Expression>,
}

/// Errors of the expression parser.
#[derive(Debug, Clone, Copy, PartialEq, Eq, Structural)]
pub enum ParseError {
    EndOfInput,
    UnexpectedToken { span: Span },
}

/// How parsing can end without an expression: with an error, or at the point
/// where the parser's own consistency check fails (after reducing operators more
/// than one item is left, as for two operands with no operator between them).
#[derive(Debug, Clone, Copy, PartialEq, Eq, Structural)]
pub enum Failure {
    Error(ParseError),
    Abort,
}

pub enum UnOp {
    Not,
    Minus,
}

pub enum BinOp {
    And,
    Or,
    Eq,
    Ne,
    Gt,
    Ge,
    Lt,
    Le,
    Add,
    Sub,
    Mul,
    Div,
    Mod,
}

/// The mathematical value of an expression.
pub enum ExprV {
    Call(Seq<char>, Seq<ExprV>, Span),
    Variable(Seq<char>, Span),
    Str(Seq<char>, Span),
    Float(Seq<char>, Span),
    Int(i64, Span),
    Bool(bool, Span),
    Unary(UnOp, Box<ExprV>, Span),
    Binary(BinOp, Box<ExprV>, Box<ExprV>, Span),
}

/// A token group: an expression, a punctuation, or a parenthesized group.
pub enum TreeV {
    Expr(ExprV),
    Punct(PunctuationInner, Span),
    Nested(Seq<TreeV>, Span),
}

/// An item between the reduction of groups and that of operators.
pub enum ItemV {
    Expr(ExprV),
    Punct(PunctuationInner, Span),
}

pub open spec fn expr_span(e: ExprV) -> Span {
    match e {
        ExprV::Call(_, _, s) => s,
        ExprV::Variable(_, s) => s,
        ExprV::Str(_, s) => s,
        ExprV::Float(_, s) => s,
        ExprV::Int(_, s) => s,
        ExprV::Bool(_, s) => s,
        ExprV::Unary(_, _, s) => s,
        ExprV::Binary(_, _, _, s) => s,
    }
}

pub open spec fn expr_view(e: Expression) -> ExprV
    decreases e,
{
    match e {
        Expression::Call(c, s) => ExprV::Call(c.callee@, exprs_view(c.arguments@), s),
        Expression::Variable(n, s) => ExprV::Variable(n@, s),
        Expression::String(v, s) => ExprV::Str(v@, s),
        Expression::Float(v, s) => ExprV::Float(v@, s),
        Expression::Int(v, s) => ExprV::Int(v, s),
        Expression::Bool(v, s) => ExprV::Bool(v, s),
        Expression::Not(a, s) => ExprV::Unary(UnOp::Not, Box::new(expr_view(*a)), s),
        Expression::Minus(a, s) => ExprV::Unary(UnOp::Minus, Box::new(expr_view(*a)), s),
        Expression::And(a, b, s) => ExprV::Binary(BinOp::And, Box::new(expr_view(*a)), Box::new(expr_view(*b)), s),
        Expression::Or(a, b, s) => ExprV::Binary(BinOp::Or, Box::new(expr_view(*a)), Box::new(expr_view(*b)), s),
        Expression::Eq(a, b, s) => ExprV::Binary(BinOp::Eq, Box::new(expr_view(*a)), Box::new(expr_view(*b)), s),
        Expression::Ne(a, b, s) => ExprV::Binary(BinOp::Ne, Box::new(expr_view(*a)), Box::new(expr_view(*b)), s),
        Expression::Gt(a, b, s) => ExprV::Binary(BinOp::Gt, Box::new(expr_view(*a)), Box::new(expr_view(*b)), s),
        Expression::Ge(a, b, s) => ExprV::Binary(BinOp::Ge, Box::new(expr_view(*a)), Box::new(expr_view(*b)), s),
        Expression::Lt(a, b, s) => ExprV::Binary(BinOp::Lt, Box::new(expr_view(*a)), Box::new(expr_view(*b)), s),
        Expression::Le(a, b, s) => ExprV::Binary(BinOp::Le, Box::new(expr_view(*a)), Box::new(expr_view(*b)), s),
        Expression::Add(a, b, s) => ExprV::Binary(BinOp::Add, Box::new(expr_view(*a)), Box::new(expr_view(*b)), s),
        Expression::Sub(a, b, s) => ExprV::Binary(BinOp::Sub, Box::new(expr_view(*a)), Box::new(expr_view(*b)), s),
        Expression::Mul(a, b, s) => ExprV::Binary(BinOp::Mul, Box::new(expr_view(*a)), Box::new(expr_view(*b)), s),
        Expression::Div(a, b, s) => ExprV::Binary(BinOp::Div, Box::new(expr_view(*a)), Box::new(expr_view(*b)), s),
        Expression::Mod(a, b, s) => ExprV::Binary(BinOp::Mod, Box::new(expr_view(*a)), Box::new(expr_view(*b)), s),
    }
}

pub open spec fn exprs_view(es: Seq<Expression>) -> Seq<ExprV>
    decreases es,
{
    if es.len() == 0 {
        Seq::empty()
    } else {
        exprs_view(es.drop_last()).push(expr_view(es.last()))
    }
}

impl View for Expression {
    type V = ExprV;

    open spec fn view(&self) -> ExprV {
        expr_view(*self)
    }
}

// ---------------------------------------------------------------------------
// The grammar, stage by stage.
// ---------------------------------------------------------------------------

pub open spec fn lit_expr(l: LitV, sp: Span) -> ExprV {
    match l {
        LitV::Str(s) => ExprV::Str(s, sp),
        LitV::Int(i) => ExprV::Int(i, sp),
        LitV::Float(f) => ExprV::Float(f, sp),
        LitV::Bool(b) => ExprV::Bool(b, sp),
    }
}

/// The state of the grouping of tokens by parentheses: the groups that are
/// still open, each with the span of its `(`, and the current group.
pub struct Nest {
    pub stack: Seq<(Seq<TreeV>, Span)>,
    pub current: Seq<TreeV>,
}

pub open spec fn nest_step(st: Nest, t: TokV) -> Result<Nest, ParseError> {
    match t.kind {
        TokKind::Punct(PunctuationInner::LeftParen) => Ok(
            Nest { stack: st.stack.push((st.current, t.span)), current: Seq::empty() },
        ),
        TokKind::Punct(PunctuationInner::RightParen) => {
            if st.stack.len() == 0 {
                Err(ParseError::UnexpectedToken { span: t.span })
            } else {
                let top = st.stack.last();
                Ok(
                    Nest {
                        stack: st.stack.drop_last(),
                        current: top.0.push(TreeV::Nested(st.current, top.1.spec_join(t.span))),
                    },
                )
            }
        },
        TokKind::Punct(p) => Ok(
            Nest { stack: st.stack, current: st.current.push(TreeV::Punct(p, t.span)) },
        ),
        TokKind::Ident(name) => Ok(
            Nest {
                stack: st.stack,
                current: st.current.push(TreeV::Expr(ExprV::Variable(name, t.span))),
            },
        ),
        TokKind::Lit(l) => Ok(
            Nest { stack: st.stack, current: st.current.push(TreeV::Expr(lit_expr(l, t.span))) },
        ),
    }
}

/// The grouping of a sequence of tokens, or the first error.
pub open spec fn nest(ts: Seq<TokV>) -> Result<Nest, ParseError>
    decreases ts.len(),
{
    if ts.len() == 0 {
        Ok(Nest { stack: Seq::empty(), current: Seq::empty() })
    } else {
        match nest(ts.drop_last()) {
            Err(e) => Err(e),
            Ok(st) => nest_step(st, ts.last()),
        }
    }
}

pub open spec fn is_comma(t: TreeV) -> bool {
    t matches TreeV::Punct(PunctuationInner::Comma, _)
}

pub open spec fn tree_span(t: TreeV) -> Span {
    match t {
        TreeV::Expr(e) => expr_span(e),
        TreeV::Punct(_, s) => s,
        TreeV::Nested(_, s) => s,
    }
}

/// The index of the last comma among the first `k` trees.
pub open spec fn last_comma(ts: Seq<TreeV>, k: int) -> Option<int>
    decreases k,
{
    if k <= 0 {
        None
    } else if is_comma(ts[k - 1]) {
        Some(k - 1)
    } else {
        last_comma(ts, k - 1)
    }
}

/// The index of the first comma among the trees.
pub open spec fn first_comma(ts: Seq<TreeV>, k: int) -> Option<int>
    decreases ts.len() - k,
{
    if k < 0 || k >= ts.len() {
        None
    } else if is_comma(ts[k]) {
        Some(k)
    } else {
        first_comma(ts, k + 1)
    }
}

pub open spec fn is_variable(e: ExprV) -> bool {
    e is Variable
}

/// The expression that a sequence of trees reduces to.
pub open spec fn reduce_tree(ts: Seq<TreeV>) -> Result<ExprV, Failure>
    decreases ts, ts.len() + 1,
{
    if ts.len() == 0 {
        Err(Failure::Error(ParseError::EndOfInput))
    } else if ts.len() == 1 {
        match ts[0] {
            TreeV::Expr(e) => Ok(e),
            TreeV::Punct(_, sp) => Err(Failure::Error(ParseError::UnexpectedToken { span: sp })),
            TreeV::Nested(n, _) => reduce_tree(n),
        }
    } else {
        match reduce_items(ts, ts.len() as int) {
            Err(e) => Err(e),
            Ok(items) => reduce_ops(items),
        }
    }
}

/// The items that the first `k` trees give: groups are reduced to expressions,
/// and a group right after a variable makes a call.
pub open spec fn reduce_items(ts: Seq<TreeV>, k: int) -> Result<Seq<ItemV>, Failure>
    decreases ts, k,
{
    if k <= 0 || k > ts.len() {
        Ok(Seq::empty())
    } else {
        match reduce_items(ts, k - 1) {
            Err(e) => Err(e),
            Ok(items) => match ts[k - 1] {
                TreeV::Expr(e) => Ok(items.push(ItemV::Expr(e))),
                TreeV::Punct(p, sp) => Ok(items.push(ItemV::Punct(p, sp))),
                TreeV::Nested(n, tsp) => {
                    if items.len() > 0 && items.last() matches ItemV::Expr(ExprV::Variable(_, _)) {
                        let name = items.last()->Expr_0->Variable_0;
                        let vsp = items.last()->Expr_0->Variable_1;
                        match parse_call(name, vsp.spec_join(tsp), n) {
                            Err(e) => Err(e),
                            Ok(x) => Ok(items.drop_last().push(ItemV::Expr(x))),
                        }
                    } else {
                        match reduce_tree(n) {
                            Err(e) => Err(e),
                            Ok(x) => Ok(items.push(ItemV::Expr(x))),
                        }
                    }
                },
            },
        }
    }
}

/// A call of `callee` with the trees in its parentheses.
pub open spec fn parse_call(callee: Seq<char>, span: Span, args: Seq<TreeV>) -> Result<
    ExprV,
    Failure,
>
    decreases args, args.len() + 3,
{
    if args.len() == 0 {
        Ok(ExprV::Call(callee, Seq::empty(), span))
    } else {
        match first_comma(args, 0) {
            None => match reduce_tree(args) {
                Err(e) => Err(e),
                Ok(a) => Ok(ExprV::Call(callee, seq![a], span)),
            },
            Some(f) => match call_args(args, tree_span(args[f])) {
                Err(e) => Err(e),
                Ok(es) => Ok(ExprV::Call(callee, es, span)),
            },
        }
    }
}

/// The arguments separated by commas, read from the last one back; an empty
/// argument is reported at the comma before it, or at the first comma for the
/// first argument.
pub open spec fn call_args(args: Seq<TreeV>, first_comma_span: Span) -> Result<
    Seq<ExprV>,
    Failure,
>
    decreases args, args.len() + 2,
    via call_args_decreases
{
    match last_comma(args, args.len() as int) {
        None => {
            if args.len() == 0 {
                Err(Failure::Error(ParseError::UnexpectedToken { span: first_comma_span }))
            } else {
                match reduce_tree(args) {
                    Err(e) => Err(e),
                    Ok(a) => Ok(seq![a]),
                }
            }
        },
        Some(c) => {
            let seg = args.subrange(c + 1, args.len() as int);
            if seg.len() == 0 {
                Err(Failure::Error(ParseError::UnexpectedToken { span: tree_span(args[c]) }))
            } else {
                match reduce_tree(seg) {
                    Err(e) => Err(e),
                    Ok(a) => match call_args(args.subrange(0, c), first_comma_span) {
                        Err(e) => Err(e),
                        Ok(es) => Ok(es.push(a)),
                    },
                }
            }
        },
    }
}

pub open spec fn item_span(it: ItemV) -> Span {
    match it {
        ItemV::Expr(e) => expr_span(e),
        ItemV::Punct(_, s) => s,
    }
}

/// The reduction of unary operators, from the last item back: `!` applies to
/// the expression after it; `-` does too, unless an expression stands right
/// before it (then it is a binary minus and stays). `reduced` holds the items
/// already handled, `k` the number of items still to handle.
pub open spec fn reduce_unary(items: Seq<ItemV>, k: int, reduced: Seq<ItemV>) -> Result<
    Seq<ItemV>,
    ParseError,
>
    decreases k,
{
    if k <= 0 || k > items.len() {
        Ok(reduced)
    } else {
        let item = items[k - 1];
        match item {
            ItemV::Punct(PunctuationInner::Exclamation, sp) => {
                if reduced.len() > 0 && reduced[0] is Expr {
                    let e = reduced[0]->Expr_0;
                    reduce_unary(
                        items,
                        k - 1,
                        seq![ItemV::Expr(ExprV::Unary(UnOp::Not, Box::new(e), sp.spec_join(expr_span(e))))]
                            + reduced.drop_first(),
                    )
                } else {
                    Err(ParseError::UnexpectedToken { span: sp })
                }
            },
            ItemV::Punct(PunctuationInner::Minus, sp) => {
                if k >= 2 && items[k - 2] is Expr {
                    reduce_unary(items, k - 1, seq![item] + reduced)
                } else if reduced.len() > 0 && reduced[0] is Expr {
                    let e = reduced[0]->Expr_0;
                    reduce_unary(
                        items,
                        k - 1,
                        seq![ItemV::Expr(ExprV::Unary(UnOp::Minus, Box::new(e), sp.spec_join(expr_span(e))))]
                            + reduced.drop_first(),
                    )
                } else {
                    Err(ParseError::UnexpectedToken { span: sp })
                }
            },
            _ => reduce_unary(items, k - 1, seq![item] + reduced),
        }
    }
}

/// The binary operator of a punctuation at a precedence level: level 0 holds
/// `* / %`, 1 holds `+ -`, 2 the comparisons, 3 `&&` and 4 `||`.
pub open spec fn binop_at(p: PunctuationInner, level: int) -> Option<BinOp> {
    match p {
        PunctuationInner::Star => if level == 0 { Some(BinOp::Mul) } else { None },
        PunctuationInner::Slash => if level == 0 { Some(BinOp::Div) } else { None },
        PunctuationInner::Percent => if level == 0 { Some(BinOp::Mod) } else { None },
        PunctuationInner::Plus => if level == 1 { Some(BinOp::Add) } else { None },
        PunctuationInner::Minus => if level == 1 { Some(BinOp::Sub) } else { None },
        PunctuationInner::Equals => if level == 2 { Some(BinOp::Eq) } else { None },
        PunctuationInner::NotEquals => if level == 2 { Some(BinOp::Ne) } else { None },
        PunctuationInner::Leather => if level == 2 { Some(BinOp::Lt) } else { None },
        PunctuationInner::Greater => if level == 2 { Some(BinOp::Gt) } else { None },
        PunctuationInner::LeatherEquals => if level == 2 { Some(BinOp::Le) } else { None },
        PunctuationInner::GreaterEquals => if level == 2 { Some(BinOp::Ge) } else { None },
        PunctuationInner::DoubleAmpersand => if level == 3 { Some(BinOp::And) } else { None },
        PunctuationInner::DoublePipe => if level == 4 { Some(BinOp::Or) } else { None },
        _ => None,
    }
}

/// One left-to-right pass over the items for the operators of one level, from
/// index `k`, with the items already reduced: each operator takes the expression
/// before it and the one after it.
pub open spec fn reduce_level(items: Seq<ItemV>, level: int, k: int, reduced: Seq<ItemV>) -> Result<
    Seq<ItemV>,
    ParseError,
>
    decreases items.len() - k,
{
    if k < 0 || k >= items.len() {
        Ok(reduced)
    } else {
        match items[k] {
            ItemV::Punct(p, sp) => {
                match binop_at(p, level) {
                    Some(op) => {
                        if k + 1 < items.len() && items[k + 1] is Expr && reduced.len() > 0
                            && reduced.last() is Expr {
                            let l = reduced.last()->Expr_0;
                            let r = items[k + 1]->Expr_0;
                            let span = sp.spec_join(expr_span(l)).spec_join(expr_span(r));
                            reduce_level(
                                items,
                                level,
                                k + 2,
                                reduced.drop_last().push(
                                    ItemV::Expr(ExprV::Binary(op, Box::new(l), Box::new(r), span)),
                                ),
                            )
                        } else {
                            Err(ParseError::UnexpectedToken { span: sp })
                        }
                    },
                    None => reduce_level(items, level, k + 1, reduced.push(items[k])),
                }
            },
            _ => reduce_level(items, level, k + 1, reduced.push(items[k])),
        }
    }
}

/// The passes for the levels from `level` on.
pub open spec fn reduce_binary(items: Seq<ItemV>, level: int) -> Result<Seq<ItemV>, ParseError>
    decreases 5 - level,
{
    if level < 0 || level >= 5 {
        Ok(items)
    } else {
        match reduce_level(items, level, 0, Seq::empty()) {
            Err(e) => Err(e),
            Ok(next) => reduce_binary(next, level + 1),
        }
    }
}

/// The expression that a sequence of items reduces to.
pub open spec fn reduce_ops(items: Seq<ItemV>) -> Result<ExprV, Failure> {
    if items.len() == 0 {
        Err(Failure::Error(ParseError::EndOfInput))
    } else if items.len() == 1 {
        match items[0] {
            ItemV::Expr(e) => Ok(e),
            ItemV::Punct(_, sp) => Err(Failure::Error(ParseError::UnexpectedToken { span: sp })),
        }
    } else {
        match reduce_unary(items, items.len() as int, Seq::empty()) {
            Err(e) => Err(Failure::Error(e)),
            Ok(u) => match reduce_binary(u, 0) {
                Err(e) => Err(Failure::Error(e)),
                Ok(b) => if b.len() == 1 && b[0] is Expr {
                    Ok(b[0]->Expr_0)
                } else {
                    Err(Failure::Abort)
                },
            },
        }
    }
}

/// The expression that a token sequence parses to.
pub open spec fn parse_tokens(ts: Seq<TokV>) -> Result<ExprV, Failure> {
    if ts.len() == 0 {
        Err(Failure::Error(ParseError::EndOfInput))
    } else {
        match nest(ts) {
            Err(e) => Err(Failure::Error(e)),
            Ok(st) => if st.stack.len() > 0 {
                Err(Failure::Error(ParseError::EndOfInput))
            } else {
                reduce_tree(st.current)
            },
        }
    }
}

proof fn lemma_last_comma_bounds(ts: Seq<TreeV>, k: int)
    requires
        k <= ts.len(),
    ensures
        last_comma(ts, k) matches Some(c) ==> 0 <= c < k && is_comma(ts[c]),
        last_comma(ts, k) is None ==> forall|j: int| 0 <= j < k ==> !is_comma(#[trigger] ts[j]),
    decreases k,
{
    if k > 0 && !is_comma(ts[k - 1]) {
        lemma_last_comma_bounds(ts, k - 1);
    }
}

#[via_fn]
proof fn call_args_decreases(args: Seq<TreeV>, first_comma_span: Span) {
    lemma_last_comma_bounds(args, args.len() as int);
    match last_comma(args, args.len() as int) {
        None => {},
        Some(c) => {
            assert(decreases_to!(args => args.subrange(c + 1, args.len() as int)));
            assert(decreases_to!(args => args.subrange(0, c)));
        },
    }
}

// ---------------------------------------------------------------------------
// The parser.
// ---------------------------------------------------------------------------

enum Tree {
    Expression(Expression),
    Punctuation(Punctuation),
    Nested(Vec<Tree>, Span),
}

enum Item {
    Expression(Expression),
    Punctuation(Punctuation),
}

spec fn tree_view(t: Tree) -> TreeV
    decreases t,
{
    match t {
        Tree::Expression(e) => TreeV::Expr(e@),
        Tree::Punctuation(p) => TreeV::Punct(p@.0, p@.1),
        Tree::Nested(v, sp) => TreeV::Nested(trees_view(v@), sp),
    }
}

spec fn trees_view(ts: Seq<Tree>) -> Seq<TreeV>
    decreases ts,
{
    if ts.len() == 0 {
        Seq::empty()
    } else {
        trees_view(ts.drop_last()).push(tree_view(ts.last()))
    }
}

spec fn item_view(it: Item) -> ItemV {
    match it {
        Item::Expression(e) => ItemV::Expr(e@),
        Item::Punctuation(p) => ItemV::Punct(p@.0, p@.1),
    }
}

spec fn items_view(its: Seq<Item>) -> Seq<ItemV> {
    its.map_values(|it: Item| item_view(it))
}

proof fn lemma_trees_view(ts: Seq<Tree>)
    ensures
        trees_view(ts).len() == ts.len(),
        forall|j: int| 0 <= j < ts.len() ==> #[trigger] trees_view(ts)[j] == tree_view(ts[j]),
    decreases ts.len(),
{
    if ts.len() > 0 {
        lemma_trees_view(ts.drop_last());
    }
}

proof fn lemma_trees_view_subrange(ts: Seq<Tree>, a: int, b: int)
    requires
        0 <= a <= b <= ts.len(),
    ensures
        trees_view(ts.subrange(a, b)) == trees_view(ts).subrange(a, b),
{
    lemma_trees_view(ts);
    lemma_trees_view(ts.subrange(a, b));
    assert(trees_view(ts.subrange(a, b)) =~= trees_view(ts).subrange(a, b));
}

proof fn lemma_trees_view_push(ts: Seq<Tree>, t: Tree)
    ensures
        trees_view(ts.push(t)) == trees_view(ts).push(tree_view(t)),
{
    assert(ts.push(t).drop_last() =~= ts);
}

pub open spec fn expr_result_matches(res: Result<Expression, Failure>, r: Result<ExprV, Failure>) -> bool {
    match r {
        Ok(e) => res matches Ok(x) && x@ == e,
        Err(f) => res == Err::<Expression, Failure>(f),
    }
}

spec fn items_result_matches(res: Result<Vec<Item>, ParseError>, r: Result<Seq<ItemV>, ParseError>) -> bool {
    match r {
        Ok(its) => res matches Ok(x) && items_view(x@) == its,
        Err(e) => res == Err::<Vec<Item>, ParseError>(e),
    }
}

fn is_comma_tree(t: &Tree) -> (res: bool)
    ensures
        res == is_comma(tree_view(*t)),
{
    match t {
        Tree::Punctuation(p) => match p.kind() {
            PunctuationInner::Comma => true,
            _ => false,
        },
        _ => false,
    }
}

fn tree_span_of(t: &Tree) -> (res: Span)
    ensures
        res == tree_span(tree_view(*t)),
{
    match t {
        Tree::Expression(e) => e.span(),
        Tree::Punctuation(p) => p.span(),
        Tree::Nested(_, sp) => *sp,
    }
}

fn is_variable_item(it: &Item) -> (res: bool)
    ensures
        res == (item_view(*it) matches ItemV::Expr(ExprV::Variable(_, _))),
{
    match it {
        Item::Expression(Expression::Variable(_, _)) => true,
        _ => false,
    }
}

fn literal_expression(lit: Literal) -> (res: Expression)
    ensures
        res@ == lit_expr(lit@.0, lit@.1),
{
    let span = lit.span();
    match (lit.as_string(), lit.as_integer(), lit.as_float(), lit.as_boolean()) {
        (Some(s), _, _, _) => Expression::String(s, span),
        (_, Some(i), _, _) => Expression::Int(i, span),
        (_, _, Some(f), _) => Expression::Float(f, span),
        (_, _, _, Some(b)) => Expression::Bool(b, span),
        (None, None, None, None) => {
            proof {
                assert(false);
            }
            Expression::Bool(false, span)
        },
    }
}

fn in_level(p: PunctuationInner, level: usize) -> (res: bool)
    ensures
        res == (binop_at(p, level as int) is Some),
{
    match p {
        PunctuationInner::Star | PunctuationInner::Slash | PunctuationInner::Percent => level == 0,
        PunctuationInner::Plus | PunctuationInner::Minus => level == 1,
        PunctuationInner::Equals
        | PunctuationInner::NotEquals
        | PunctuationInner::Leather
        | PunctuationInner::Greater
        | PunctuationInner::LeatherEquals
        | PunctuationInner::GreaterEquals => level == 2,
        PunctuationInner::DoubleAmpersand => level == 3,
        PunctuationInner::DoublePipe => level == 4,
        _ => false,
    }
}

fn make_binary(p: PunctuationInner, level: usize, l: Expression, r: Expression, span: Span) -> (res: Expression)
    requires
        binop_at(p, level as int) is Some,
    ensures
        res@ == ExprV::Binary(binop_at(p, level as int)->0, Box::new(l@), Box::new(r@), span),
{
    let l = Box::new(l);
    let r = Box::new(r);
    match p {
        PunctuationInner::Equals => Expression::Eq(l, r, span),
        PunctuationInner::NotEquals => Expression::Ne(l, r, span),
        PunctuationInner::Leather => Expression::Lt(l, r, span),
        PunctuationInner::Greater => Expression::Gt(l, r, span),
        PunctuationInner::LeatherEquals => Expression::Le(l, r, span),
        PunctuationInner::GreaterEquals => Expression::Ge(l, r, span),
        PunctuationInner::Plus => Expression::Add(l, r, span),
        PunctuationInner::Minus => Expression::Sub(l, r, span),
        PunctuationInner::Star => Expression::Mul(l, r, span),
        PunctuationInner::Slash => Expression::Div(l, r, span),
        PunctuationInner::Percent => Expression::Mod(l, r, span),
        PunctuationInner::DoubleAmpersand => Expression::And(l, r, span),
        _ => Expression::Or(l, r, span),
    }
}

proof fn lemma_last_comma_prefix(ts: Seq<TreeV>, e: int, k: int)
    requires
        0 <= k <= e <= ts.len(),
    ensures
        last_comma(ts.subrange(0, e), k) == last_comma(ts, k),
    decreases k,
{
    if k > 0 {
        assert(ts.subrange(0, e)[k - 1] == ts[k - 1]);
        lemma_last_comma_prefix(ts, e, k - 1);
    }
}

proof fn lemma_first_comma_at(ts: Seq<TreeV>, k: int, f: int)
    requires
        0 <= k <= f < ts.len(),
        is_comma(ts[f]),
        forall|j: int| 0 <= j < f ==> !is_comma(#[trigger] ts[j]),
    ensures
        first_comma(ts, k) == Some(f),
    decreases f - k,
{
    if k < f {
        lemma_first_comma_at(ts, k + 1, f);
    }
}

proof fn lemma_first_comma_none(ts: Seq<TreeV>, k: int)
    requires
        0 <= k <= ts.len(),
        forall|j: int| 0 <= j < ts.len() ==> !is_comma(#[trigger] ts[j]),
    ensures
        first_comma(ts, k) is None,
    decreases ts.len() - k,
{
    if k < ts.len() {
        lemma_first_comma_none(ts, k + 1);
    }
}

/// The comma positions, with their spans, among the first `end` trees: each
/// one's predecessor is the last comma before it, and the last one is the last
/// comma before `end`.
#[verifier::opaque]
spec fn commas_ok(a: Seq<TreeV>, commas: Seq<(usize, Span)>, end: int) -> bool {
    &&& forall|j: int| 0 <= j < commas.len() ==> #[trigger] commas[j].0 < end
    &&& forall|i: int, j: int| 0 <= i < j < commas.len() ==> #[trigger] commas[i].0 < #[trigger] commas[j].0
    &&& forall|j: int|
        0 <= j < commas.len() ==> is_comma(a[#[trigger] commas[j].0 as int]) && commas[j].1
            == tree_span(a[commas[j].0 as int])
    &&& forall|j: int|
        0 <= j < commas.len() ==> last_comma(a, #[trigger] commas[j].0 as int) == if j > 0 {
            Some(commas[j - 1].0 as int)
        } else {
            None::<int>
        }
    &&& last_comma(a, end) == if commas.len() > 0 {
        Some(commas[commas.len() - 1].0 as int)
    } else {
        None::<int>
    }
}

spec fn call_result(callee: Seq<char>, span: Span, r: Result<Seq<ExprV>, Failure>, tail: Seq<ExprV>) -> Result<
    ExprV,
    Failure,
> {
    match r {
        Err(e) => Err(e),
        Ok(es) => Ok(ExprV::Call(callee, es + tail, span)),
    }
}

proof fn lemma_call_result_push(
    callee: Seq<char>,
    span: Span,
    r: Result<Seq<ExprV>, Failure>,
    x: ExprV,
    tail: Seq<ExprV>,
)
    ensures
        call_result(
            callee,
            span,
            match r {
                Err(e) => Err(e),
                Ok(es) => Ok(es.push(x)),
            },
            tail,
        ) == call_result(callee, span, r, seq![x] + tail),
{
    match r {
        Ok(es) => {
            assert(es.push(x) + tail =~= es + (seq![x] + tail));
        },
        Err(_) => {},
    }
}

proof fn lemma_commas_pop(a: Seq<TreeV>, commas: Seq<(usize, Span)>, end: int)
    requires
        commas_ok(a, commas, end),
        commas.len() > 0,
        end <= a.len(),
    ensures
        0 <= commas.last().0 < end,
        commas_ok(a, commas.drop_last(), commas.last().0 as int),
        commas.last().1 == tree_span(a[commas.last().0 as int]),
        last_comma(a.subrange(0, end), end) == Some(commas.last().0 as int),
{
    reveal(commas_ok);
    let c = commas.last().0 as int;
    let rest = commas.drop_last();
    assert(commas[commas.len() - 1].0 == c);
    lemma_last_comma_prefix(a, end, end);
    assert forall|j: int| 0 <= j < rest.len() implies #[trigger] rest[j].0 < c by {
        assert(rest[j] == commas[j]);
        assert(commas[j].0 < commas[commas.len() - 1].0);
    }
    assert forall|j: int| 0 <= j < rest.len() implies is_comma(a[#[trigger] rest[j].0 as int]) && rest[j].1
        == tree_span(a[rest[j].0 as int]) by {
        assert(rest[j] == commas[j]);
    }
    assert forall|j: int| 0 <= j < rest.len() implies last_comma(a, #[trigger] rest[j].0 as int) == if j > 0 {
        Some(rest[j - 1].0 as int)
    } else {
        None::<int>
    } by {
        assert(rest[j] == commas[j]);
        if j > 0 {
            assert(rest[j - 1] == commas[j - 1]);
        }
    }
    assert forall|i: int, j: int| 0 <= i < j < rest.len() implies #[trigger] rest[i].0 < #[trigger] rest[j].0 by {
        assert(rest[i] == commas[i]);
        assert(rest[j] == commas[j]);
    }
    if rest.len() > 0 {
        assert(rest[rest.len() - 1] == commas[commas.len() - 2]);
    }
    assert(last_comma(a, c) == if commas.len() - 1 > 0 {
        Some(commas[commas.len() - 2].0 as int)
    } else {
        None::<int>
    });
}

proof fn lemma_commas_none(a: Seq<TreeV>, commas: Seq<(usize, Span)>, end: int)
    requires
        commas_ok(a, commas, end),
        commas.len() == 0,
        0 <= end <= a.len(),
    ensures
        last_comma(a.subrange(0, end), end) is None,
        last_comma(a, end) is None,
{
    reveal(commas_ok);
    lemma_last_comma_prefix(a, end, end);
}

proof fn lemma_commas_first(a: Seq<TreeV>, commas: Seq<(usize, Span)>, end: int)
    requires
        commas_ok(a, commas, end),
        commas.len() > 0,
        end <= a.len(),
    ensures
        first_comma(a, 0) == Some(commas[0].0 as int),
        commas[0].1 == tree_span(a[commas[0].0 as int]),
{
    reveal(commas_ok);
    lemma_last_comma_bounds(a, commas[0].0 as int);
    lemma_first_comma_at(a, 0, commas[0].0 as int);
}

proof fn lemma_call_args_step(a: Seq<TreeV>, end: int, c: int, fcs: Span)
    requires
        0 <= c < end <= a.len(),
        last_comma(a.subrange(0, end), end) == Some(c),
    ensures
        call_args(a.subrange(0, end), fcs) == (if a.subrange(c + 1, end).len() == 0 {
            Err(Failure::Error(ParseError::UnexpectedToken { span: tree_span(a[c]) }))
        } else {
            match reduce_tree(a.subrange(c + 1, end)) {
                Err(e) => Err(e),
                Ok(x) => match call_args(a.subrange(0, c), fcs) {
                    Err(e) => Err(e),
                    Ok(es) => Ok(es.push(x)),
                },
            }
        }),
{
    assert(a.subrange(0, end).subrange(c + 1, end) =~= a.subrange(c + 1, end));
    assert(a.subrange(0, end).subrange(0, c) =~= a.subrange(0, c));
    assert(a.subrange(0, end)[c] == a[c]);
}

proof fn lemma_call_args_last(a: Seq<TreeV>, end: int, fcs: Span)
    requires
        0 <= end <= a.len(),
        last_comma(a.subrange(0, end), end) is None,
    ensures
        call_args(a.subrange(0, end), fcs) == (if end == 0 {
            Err(Failure::Error(ParseError::UnexpectedToken { span: fcs }))
        } else {
            match reduce_tree(a.subrange(0, end)) {
                Err(e) => Err(e),
                Ok(x) => Ok(seq![x]),
            }
        }),
{
}

fn comma_positions(arguments: &Vec<Tree>) -> (commas: Vec<(usize, Span)>)
    ensures
        commas_ok(trees_view(arguments@), commas@, arguments@.len() as int),
{
    let ghost a = trees_view(arguments@);
    proof {
        lemma_trees_view(arguments@);
    }
    let n = arguments.len();
    let mut commas: Vec<(usize, Span)> = Vec::new();
    let mut index: usize = 0;
    proof {
        reveal(commas_ok);
    }
    while index < n
        invariant
            n == arguments@.len() == a.len(),
            a == trees_view(arguments@),
            index <= n,
            forall|j: int| 0 <= j < n ==> #[trigger] a[j] == tree_view(arguments@[j]),
            commas_ok(a, commas@, index as int),
        decreases n - index,
    {
        let ghost old = commas@;
        if is_comma_tree(&arguments[index]) {
            commas.push((index, tree_span_of(&arguments[index])));
        }
        proof {
            reveal(commas_ok);
            if commas@.len() > old.len() {
                assert forall|j: int| 0 <= j < commas@.len() - 1 implies commas@[j] == old[j] by {}
            }
        }
        index = index + 1;
    }
    commas
}

impl Expression {
    /// The span of source text that the expression was read from.
    pub fn span(&self) -> (res: Span)
        ensures
            res == expr_span(self@),
    {
        match self {
            Expression::Call(_, span)
            | Expression::Variable(_, span)
            | Expression::String(_, span)
            | Expression::Float(_, span)
            | Expression::Int(_, span)
            | Expression::Bool(_, span)
            | Expression::Not(_, span)
            | Expression::Minus(_, span)
            | Expression::And(_, _, span)
            | Expression::Or(_, _, span)
            | Expression::Eq(_, _, span)
            | Expression::Ne(_, _, span)
            | Expression::Gt(_, _, span)
            | Expression::Ge(_, _, span)
            | Expression::Lt(_, _, span)
            | Expression::Le(_, _, span)
            | Expression::Add(_, _, span)
            | Expression::Sub(_, _, span)
            | Expression::Mul(_, _, span)
            | Expression::Div(_, _, span)
            | Expression::Mod(_, _, span) => *span,
        }
    }

    /// Parses a token sequence, reporting through `Failure::Abort` the inputs on
    /// which the parser's final consistency check fails.
    #[verifier::spinoff_prover]
    #[verifier::rlimit(50)]
    pub fn try_parse(tokens: TokenStream) -> (res: Result<Expression, Failure>)
        ensures
            expr_result_matches(res, parse_tokens(tokens@)),
    {
        if tokens.is_empty() {
            return Err(Failure::Error(ParseError::EndOfInput));
        }
        let ghost tv = tokens@;
        let toks = tokens.into_tokens();
        assert(toks@.map_values(|t: Token| t@) == tv);
        let mut stack: Vec<(Vec<Tree>, Span)> = Vec::new();
        let mut current: Vec<Tree> = Vec::new();
        let n = toks.len();
        let mut i: usize = 0;
        assert(tv.take(0) =~= Seq::<TokV>::empty());
        assert(stack@.map_values(|e: (Vec<Tree>, Span)| (trees_view(e.0@), e.1)) =~= Seq::<(Seq<TreeV>, Span)>::empty());
        assert(trees_view(current@) =~= Seq::<TreeV>::empty());
        while i < n
            invariant
                tv == tokens@,
                n == toks@.len() == tv.len(),
                i <= n,
                forall|j: int| 0 <= j < n ==> #[trigger] tv[j] == toks@[j]@,
                nest(tv.take(i as int)) == Ok::<Nest, ParseError>(
                    Nest {
                        stack: stack@.map_values(|e: (Vec<Tree>, Span)| (trees_view(e.0@), e.1)),
                        current: trees_view(current@),
                    },
                ),
            decreases n - i,
        {
            let token = &toks[i];
            assert(tv.take(i + 1).drop_last() =~= tv.take(i as int));
            assert(tv.take(i + 1).last() == token@);
            let ghost old_stack = stack@;
            let ghost old_current = current@;
            if let Some(punct) = token.punctuation() {
                match punct.kind() {
                    PunctuationInner::LeftParen => {
                        let old = current;
                        current = Vec::new();
                        stack.push((old, punct.span()));
                        assert(stack@.map_values(|e: (Vec<Tree>, Span)| (trees_view(e.0@), e.1))
                            =~= old_stack.map_values(|e: (Vec<Tree>, Span)| (trees_view(e.0@), e.1)).push(
                            (trees_view(old_current), punct@.1),
                        ));
                        assert(trees_view(current@) =~= Seq::<TreeV>::empty());
                    },
                    PunctuationInner::RightParen => {
                        match stack.pop() {
                            None => {
                                proof {
                                    lemma_nest_error_extends(tv, i + 1);
                                }
                                return Err(Failure::Error(ParseError::UnexpectedToken { span: punct.span() }));
                            },
                            Some((previous, span)) => {
                                let nested = current;
                                current = previous;
                                let joined = span.join(punct.span());
                                proof {
                                    lemma_trees_view_push(current@, Tree::Nested(nested, joined));
                                }
                                current.push(Tree::Nested(nested, joined));
                                assert(stack@.map_values(|e: (Vec<Tree>, Span)| (trees_view(e.0@), e.1))
                                    =~= old_stack.map_values(|e: (Vec<Tree>, Span)| (trees_view(e.0@), e.1)).drop_last());
                            },
                        }
                    },
                    _ => {
                        proof {
                            lemma_trees_view_push(current@, Tree::Punctuation(punct));
                        }
                        current.push(Tree::Punctuation(punct));
                    },
                }
            } else if let Some(ident) = token.identifier() {
                let e = Expression::Variable(ident.as_inner(), ident.span());
                proof {
                    lemma_trees_view_push(current@, Tree::Expression(e));
                }
                current.push(Tree::Expression(e));
            } else if let Some(lit) = token.literal() {
                let e = literal_expression(lit);
                proof {
                    lemma_trees_view_push(current@, Tree::Expression(e));
                }
                current.push(Tree::Expression(e));
            }
            i = i + 1;
        }
        assert(tv.take(n as int) =~= tv);
        if stack.len() > 0 {
            return Err(Failure::Error(ParseError::EndOfInput));
        }
        Self::reduce_tree(current)
    }

    /// Parses a token sequence.
    pub fn parse(tokens: TokenStream) -> (res: Result<Expression, ParseError>)
        requires
            parse_tokens(tokens@) != Err::<ExprV, Failure>(Failure::Abort),
        ensures
            match parse_tokens(tokens@) {
                Ok(e) => res matches Ok(x) && x@ == e,
                Err(Failure::Error(err)) => res == Err::<Expression, ParseError>(err),
                Err(Failure::Abort) => false,
            },
    {
        match Self::try_parse(tokens) {
            Ok(e) => Ok(e),
            Err(Failure::Error(err)) => Err(err),
            Err(Failure::Abort) => Err(ParseError::EndOfInput),
        }
    }

    #[verifier::spinoff_prover]
    #[verifier::rlimit(50)]
    fn reduce_tree(tree: Vec<Tree>) -> (res: Result<Expression, Failure>)
        ensures
            expr_result_matches(res, reduce_tree(trees_view(tree@))),
        decreases trees_view(tree@), tree@.len() + 1,
    {
        let ghost tv = trees_view(tree@);
        proof {
            lemma_trees_view(tree@);
        }
        let n = tree.len();
        if n == 0 {
            return Err(Failure::Error(ParseError::EndOfInput));
        }
        if n == 1 {
            let mut tree = tree;
            let t = tree.pop().unwrap();
            assert(tv[0] == tree_view(t));
            return match t {
                Tree::Expression(e) => Ok(e),
                Tree::Punctuation(p) => Err(Failure::Error(ParseError::UnexpectedToken { span: p.span() })),
                Tree::Nested(nested, sp) => {
                    proof {
                        assert(tv[0] == TreeV::Nested(trees_view(nested@), sp));
                        lemma_nested_decreases(tv, 0);
                    }
                    Self::reduce_tree(nested)
                },
            };
        }
        let ghost orig = tree@;
        let mut rest = reversed(tree);
        let mut reduced: Vec<Item> = Vec::new();
        let mut k: usize = 0;
        assert(orig.subrange(0, n as int).reverse() =~= orig.reverse());
        assert(items_view(reduced@) =~= Seq::<ItemV>::empty());
        while rest.len() > 0
            invariant
                n == orig.len(),
                orig == tree@,
                tv == trees_view(orig),
                tv.len() == n,
                forall|j: int| 0 <= j < n ==> #[trigger] tv[j] == tree_view(orig[j]),
                k + rest@.len() == n,
                rest@ == orig.subrange(k as int, n as int).reverse(),
                reduce_items(tv, k as int) == Ok::<Seq<ItemV>, Failure>(items_view(reduced@)),
            decreases rest.len(),
        {
            let t = rest.pop().unwrap();
            assert(t == orig[k as int]);
            assert(rest@ =~= orig.subrange(k + 1, n as int).reverse());
            let ghost before = items_view(reduced@);
            match t {
                Tree::Expression(e) => {
                    reduced.push(Item::Expression(e));
                    assert(items_view(reduced@) =~= before.push(ItemV::Expr(e@)));
                },
                Tree::Punctuation(p) => {
                    reduced.push(Item::Punctuation(p));
                    assert(items_view(reduced@) =~= before.push(ItemV::Punct(p@.0, p@.1)));
                },
                Tree::Nested(nested, tree_span) => {
                    proof {
                        assert(tv[k as int] == TreeV::Nested(trees_view(nested@), tree_span));
                        lemma_nested_decreases(tv, k as int);
                    }
                    if reduced.len() > 0 && is_variable_item(&reduced[reduced.len() - 1]) {
                        assert(before.last() == item_view(reduced@[reduced@.len() - 1]));
                        match reduced.pop() {
                            Some(Item::Expression(Expression::Variable(ident, span))) => {
                                let expr = match Self::parse_call_expression(ident, span.join(tree_span), nested) {
                                    Ok(e) => e,
                                    Err(f) => {
                                        proof {
                                            lemma_reduce_items_error_extends(tv, k + 1);
                                        }
                                        return Err(f);
                                    },
                                };
                                reduced.push(Item::Expression(expr));
                                assert(items_view(reduced@) =~= before.drop_last().push(ItemV::Expr(expr@)));
                            },
                            _ => {},
                        }
                    } else {
                        let expr = match Self::reduce_tree(nested) {
                            Ok(e) => e,
                            Err(f) => {
                                proof {
                                    lemma_reduce_items_error_extends(tv, k + 1);
                                }
                                return Err(f);
                            },
                        };
                        reduced.push(Item::Expression(expr));
                        assert(items_view(reduced@) =~= before.push(ItemV::Expr(expr@)));
                    }
                },
            }
            k = k + 1;
        }
        Self::reduce_ops(reduced)
    }

    #[verifier::spinoff_prover]
    #[verifier::rlimit(50)]
    fn parse_call_expression(callee: String, span: Span, arguments: Vec<Tree>) -> (res: Result<
        Expression,
        Failure,
    >)
        ensures
            expr_result_matches(res, parse_call(callee@, span, trees_view(arguments@))),
        decreases trees_view(arguments@), arguments@.len() + 3,
    {
        let ghost a = trees_view(arguments@);
        let ghost orig = arguments@;
        proof {
            lemma_trees_view(arguments@);
        }
        let n = arguments.len();
        if n == 0 {
            let args: Vec<Expression> = Vec::new();
            proof {
                lemma_exprs_view(args@);
                assert(exprs_view(args@) =~= Seq::<ExprV>::empty());
            }
            return Ok(Expression::Call(CallExpression { callee, arguments: args }, span));
        }
        let mut commas = comma_positions(&arguments);
        if commas.len() == 0 {
            proof {
                lemma_commas_none(a, commas@, n as int);
                lemma_last_comma_bounds(a, n as int);
                lemma_first_comma_none(a, 0);
            }
            let arg = match Self::reduce_tree(arguments) {
                Ok(e) => e,
                Err(f) => {
                    return Err(f);
                },
            };
            let mut args: Vec<Expression> = Vec::new();
            args.push(arg);
            proof {
                lemma_exprs_view(args@);
                assert(exprs_view(args@) =~= seq![arg@]);
            }
            return Ok(Expression::Call(CallExpression { callee, arguments: args }, span));
        }
        let first_comma_span = commas[0].1;
        proof {
            lemma_commas_first(a, commas@, n as int);
            assert(a.subrange(0, n as int) =~= a);
            assert(orig.subrange(0, n as int) =~= orig);
        }
        let mut arguments_input = arguments;
        let mut rev_args: Vec<Expression> = Vec::new();
        let ghost mut end: int = n as int;
        proof {
            lemma_exprs_view(rev_args@);
            assert(exprs_view(rev_args@).reverse() =~= Seq::<ExprV>::empty());
            match call_args(a, first_comma_span) {
                Ok(es) => {
                    assert(es + Seq::<ExprV>::empty() =~= es);
                },
                Err(_) => {},
            }
        }
        while commas.len() > 0
            invariant
                n == orig.len() == a.len(),
                orig == arguments@,
                a == trees_view(orig),
                0 <= end <= n,
                end < n || commas@.len() > 0,
                arguments_input@ == orig.subrange(0, end),
                commas_ok(a, commas@, end),
                parse_call(callee@, span, a) == call_result(
                    callee@,
                    span,
                    call_args(a.subrange(0, end), first_comma_span),
                    exprs_view(rev_args@).reverse(),
                ),
            decreases commas.len(),
        {
            proof {
                lemma_commas_pop(a, commas@, end);
            }
            let ghost old_commas = commas@;
            let (index, sp) = commas.pop().unwrap();
            proof {
                assert(commas@ =~= old_commas.drop_last());
                lemma_call_args_step(a, end, index as int, first_comma_span);
            }
            let argument = arguments_input.split_off(index + 1);
            arguments_input.pop();
            proof {
                assert(argument@ =~= orig.subrange(index + 1, end));
                assert(arguments_input@ =~= orig.subrange(0, index as int));
                lemma_trees_view_subrange(orig, index + 1, end);
            }
            if argument.len() == 0 {
                return Err(Failure::Error(ParseError::UnexpectedToken { span: sp }));
            }
            proof {
                vstd::seq::axiom_seq_subrange_decreases(a, index + 1, end);
            }
            let arg = match Self::reduce_tree(argument) {
                Ok(e) => e,
                Err(f) => {
                    return Err(f);
                },
            };
            let ghost old_rev = exprs_view(rev_args@);
            let ghost old_rev_seq = rev_args@;
            rev_args.push(arg);
            proof {
                assert(rev_args@.drop_last() =~= old_rev_seq);
                assert(exprs_view(rev_args@) == old_rev.push(arg@));
                assert(old_rev.push(arg@).reverse() =~= seq![arg@] + old_rev.reverse());
                lemma_call_result_push(
                    callee@,
                    span,
                    call_args(a.subrange(0, index as int), first_comma_span),
                    arg@,
                    old_rev.reverse(),
                );
                end = index as int;
            }
        }
        proof {
            lemma_trees_view_subrange(orig, 0, end);
            lemma_commas_none(a, commas@, end);
            lemma_call_args_last(a, end, first_comma_span);
        }
        if arguments_input.len() == 0 {
            return Err(Failure::Error(ParseError::UnexpectedToken { span: first_comma_span }));
        }
        proof {
            vstd::seq::axiom_seq_subrange_decreases(a, 0, end);
        }
        let arg = match Self::reduce_tree(arguments_input) {
            Ok(e) => e,
            Err(f) => {
                return Err(f);
            },
        };
        let ghost old_rev = exprs_view(rev_args@);
        let ghost old_rev_seq = rev_args@;
        rev_args.push(arg);
        proof {
            assert(rev_args@.drop_last() =~= old_rev_seq);
            assert(exprs_view(rev_args@) == old_rev.push(arg@));
        }
        let ghost pushed = rev_args@;
        let args = reversed(rev_args);
        proof {
            lemma_exprs_view_reverse(pushed);
            assert(seq![arg@] + old_rev.reverse() =~= old_rev.push(arg@).reverse());
        }
        Ok(Expression::Call(CallExpression { callee, arguments: args }, span))
    }

    fn reduce_ops(items: Vec<Item>) -> (res: Result<Expression, Failure>)
        ensures
            expr_result_matches(res, reduce_ops(items_view(items@))),
    {
        let ghost iv = items_view(items@);
        let n = items.len();
        if n == 0 {
            return Err(Failure::Error(ParseError::EndOfInput));
        }
        if n == 1 {
            let mut items = items;
            return match items.pop().unwrap() {
                Item::Expression(e) => Ok(e),
                Item::Punctuation(p) => Err(Failure::Error(ParseError::UnexpectedToken { span: p.span() })),
            };
        }
        let items = match Self::reduce_unary_ops(items) {
            Ok(v) => v,
            Err(e) => {
                return Err(Failure::Error(e));
            },
        };
        let items = match Self::reduce_binary_ops(items) {
            Ok(v) => v,
            Err(e) => {
                return Err(Failure::Error(e));
            },
        };
        if items.len() != 1 {
            return Err(Failure::Abort);
        }
        let mut items = items;
        match items.pop().unwrap() {
            Item::Expression(e) => Ok(e),
            Item::Punctuation(_) => Err(Failure::Abort),
        }
    }

    #[verifier::spinoff_prover]
    #[verifier::rlimit(50)]
    fn reduce_unary_ops(items: Vec<Item>) -> (res: Result<Vec<Item>, ParseError>)
        ensures
            items_result_matches(res, reduce_unary(items_view(items@), items@.len() as int, Seq::empty())),
    {
        let ghost iv = items_view(items@);
        let ghost orig = items@;
        let mut work = items;
        let mut rev: Vec<Item> = Vec::new();
        assert(items_view(rev@).reverse() =~= Seq::<ItemV>::empty());
        while work.len() > 0
            invariant
                orig == items@,
                iv == items_view(orig),
                work@ == orig.subrange(0, work@.len() as int),
                work@.len() <= orig.len(),
                reduce_unary(iv, orig.len() as int, Seq::empty()) == reduce_unary(
                    iv,
                    work@.len() as int,
                    items_view(rev@).reverse(),
                ),
            decreases work.len(),
        {
            let ghost k = work@.len() as int;
            let ghost reduced = items_view(rev@).reverse();
            let item = work.pop().unwrap();
            assert(iv[k - 1] == item_view(item));
            assert(work@ =~= orig.subrange(0, k - 1));
            let ghost old_rev = rev@;
            assert(reduced.len() == old_rev.len());
            match item {
                Item::Punctuation(p) => {
                    let kind = p.kind();
                    if kind == PunctuationInner::Exclamation || (kind == PunctuationInner::Minus && !(
                    work.len() > 0 && match &work[work.len() - 1] {
                        Item::Expression(_) => true,
                        Item::Punctuation(_) => false,
                    })) {
                        proof {
                            if kind == PunctuationInner::Minus && k >= 2 {
                                assert(iv[k - 2] == item_view(orig[k - 2]));
                            }
                        }
                        match rev.pop() {
                            Some(Item::Expression(e)) => {
                                assert(reduced[0] == item_view(old_rev[old_rev.len() - 1]));
                                let span = p.span().join(e.span());
                                let ue = if kind == PunctuationInner::Exclamation {
                                    Expression::Not(Box::new(e), span)
                                } else {
                                    Expression::Minus(Box::new(e), span)
                                };
                                rev.push(Item::Expression(ue));
                                assert(items_view(rev@).reverse() =~= seq![ItemV::Expr(ue@)] + reduced.drop_first());
                            },
                            _ => {
                                proof {
                                    if old_rev.len() > 0 {
                                        assert(reduced[0] == item_view(old_rev[old_rev.len() - 1]));
                                    }
                                    assert(!(reduced.len() > 0 && reduced[0] is Expr));
                                }
                                return Err(ParseError::UnexpectedToken { span: p.span() });
                            },
                        }
                    } else {
                        proof {
                            if k >= 2 {
                                assert(iv[k - 2] == item_view(orig[k - 2]));
                            }
                        }
                        rev.push(Item::Punctuation(p));
                        assert(items_view(rev@).reverse() =~= seq![ItemV::Punct(p@.0, p@.1)] + reduced);
                    }
                },
                Item::Expression(e) => {
                    rev.push(Item::Expression(e));
                    assert(items_view(rev@).reverse() =~= seq![ItemV::Expr(e@)] + reduced);
                },
            }
        }
        let res = reversed(rev);
        assert(items_view(res@) =~= items_view(rev@).reverse());
        Ok(res)
    }

    #[verifier::spinoff_prover]
    #[verifier::rlimit(50)]
    fn reduce_level_ops(items: Vec<Item>, level: usize) -> (res: Result<Vec<Item>, ParseError>)
        requires
            level < 5,
        ensures
            items_result_matches(res, reduce_level(items_view(items@), level as int, 0, Seq::empty())),
    {
        let ghost iv = items_view(items@);
        let ghost orig = items@;
        let n = items.len();
        let mut rest = reversed(items);
        let mut reduced: Vec<Item> = Vec::new();
        let mut k: usize = 0;
        assert(orig.subrange(0, n as int).reverse() =~= orig.reverse());
        assert(items_view(reduced@) =~= Seq::<ItemV>::empty());
        while rest.len() > 0
            invariant
                n == orig.len(),
                orig == items@,
                iv == items_view(orig),
                k + rest@.len() == n,
                rest@ == orig.subrange(k as int, n as int).reverse(),
                reduce_level(iv, level as int, 0, Seq::empty()) == reduce_level(
                    iv,
                    level as int,
                    k as int,
                    items_view(reduced@),
                ),
            decreases rest.len(),
        {
            let item = rest.pop().unwrap();
            assert(item == orig[k as int]);
            assert(rest@ =~= orig.subrange(k + 1, n as int).reverse());
            let ghost before = items_view(reduced@);
            match item {
                Item::Punctuation(p) => {
                    if in_level(p.kind(), level) {
                        let ghost rest_before = rest@;
                        proof {
                            if k + 1 < n {
                                assert(rest_before[rest_before.len() - 1] == orig[k + 1]);
                                assert(iv[k + 1] == item_view(orig[k + 1]));
                            }
                        }
                        let right = rest.pop();
                        match right {
                            Some(Item::Expression(r)) => {
                                assert(r == orig[k + 1]->Expression_0);
                                assert(rest@ =~= orig.subrange(k + 2, n as int).reverse());
                                let ghost old_reduced = reduced@;
                                match reduced.pop() {
                                    Some(Item::Expression(l)) => {
                                        let span = p.span().join(l.span()).join(r.span());
                                        let e = make_binary(p.kind(), level, l, r, span);
                                        reduced.push(Item::Expression(e));
                                        assert(items_view(reduced@) =~= before.drop_last().push(ItemV::Expr(e@)));
                                        k = k + 2;
                                    },
                                    _ => {
                                        proof {
                                            if before.len() > 0 {
                                                assert(before.last() == item_view(old_reduced[before.len() - 1]));
                                            }
                                        }
                                        return Err(ParseError::UnexpectedToken { span: p.span() });
                                    },
                                }
                            },
                            _ => {
                                proof {
                                    if k + 1 < n {
                                        assert(iv[k + 1] == item_view(orig[k + 1]));
                                    }
                                }
                                return Err(ParseError::UnexpectedToken { span: p.span() });
                            },
                        }
                    } else {
                        reduced.push(Item::Punctuation(p));
                        assert(items_view(reduced@) =~= before.push(iv[k as int]));
                        k = k + 1;
                    }
                },
                Item::Expression(e) => {
                    reduced.push(Item::Expression(e));
                    assert(items_view(reduced@) =~= before.push(iv[k as int]));
                    k = k + 1;
                },
            }
        }
        Ok(reduced)
    }

    fn reduce_binary_ops(items: Vec<Item>) -> (res: Result<Vec<Item>, ParseError>)
        ensures
            items_result_matches(res, reduce_binary(items_view(items@), 0)),
    {
        let ghost iv = items_view(items@);
        let mut work = items;
        let mut level: usize = 0;
        while level < 5
            invariant
                iv == items_view(items@),
                level <= 5,
                reduce_binary(iv, 0) == reduce_binary(items_view(work@), level as int),
            decreases 5 - level,
        {
            let ghost cur = items_view(work@);
            assert(reduce_binary(cur, level as int) == match reduce_level(cur, level as int, 0, Seq::empty()) {
                Err(e) => Err(e),
                Ok(next) => reduce_binary(next, level + 1),
            });
            work = match Self::reduce_level_ops(work, level) {
                Ok(v) => v,
                Err(e) => {
                    return Err(e);
                },
            };
            level = level + 1;
        }
        Ok(work)
    }
}

proof fn lemma_nest_error_extends(ts: Seq<TokV>, i: int)
    requires
        0 <= i <= ts.len(),
        nest(ts.take(i)) is Err,
    ensures
        nest(ts) == nest(ts.take(i)),
    decreases ts.len() - i,
{
    if i == ts.len() {
        assert(ts.take(i) =~= ts);
    } else {
        assert(ts.take(i + 1).drop_last() =~= ts.take(i));
        lemma_nest_error_extends(ts, i + 1);
    }
}

proof fn lemma_reduce_items_error_extends(ts: Seq<TreeV>, k: int)
    requires
        0 < k <= ts.len(),
        reduce_items(ts, k) is Err,
    ensures
        reduce_items(ts, ts.len() as int) == reduce_items(ts, k),
    decreases ts.len() - k,
{
    if k < ts.len() {
        lemma_reduce_items_error_extends(ts, k + 1);
    }
}

proof fn lemma_nested_decreases(tv: Seq<TreeV>, k: int)
    requires
        0 <= k < tv.len(),
        tv[k] is Nested,
    ensures
        decreases_to!(tv => tv[k]->Nested_0),
{
    assert(decreases_to!(tv => tv[k]));
    assert(decreases_to!(tv[k] => tv[k]->Nested_0));
}

pub proof fn lemma_exprs_view(es: Seq<Expression>)
    ensures
        exprs_view(es).len() == es.len(),
        forall|j: int| 0 <= j < es.len() ==> #[trigger] exprs_view(es)[j] == es[j]@,
    decreases es.len(),
{
    if es.len() > 0 {
        lemma_exprs_view(es.drop_last());
    }
}

proof fn lemma_exprs_view_reverse(es: Seq<Expression>)
    ensures
        exprs_view(es.reverse()) == exprs_view(es).reverse(),
{
    lemma_exprs_view(es);
    lemma_exprs_view(es.reverse());
    assert(exprs_view(es.reverse()) =~= exprs_view(es).reverse());
}

// ---------------------------------------------------------------------------
// Reducing trees.
// ---------------------------------------------------------------------------

/// An empty tree is the end of the input; a lone operand is itself; a lone
/// punctuation is an unexpected token at its span; and a parenthesised group
/// alone reduces as its contents do, so parentheses add no node.
pub proof fn lemma_reduce_tree_single(ts: Seq<TreeV>)
    ensures
        ts.len() == 0 ==> reduce_tree(ts) == Err::<ExprV, Failure>(Failure::Error(ParseError::EndOfInput)),
        ts.len() == 1 ==> reduce_tree(ts) == match ts[0] {
            TreeV::Expr(e) => Ok::<ExprV, Failure>(e),
            TreeV::Punct(_, sp) => Err(Failure::Error(ParseError::UnexpectedToken { span: sp })),
            TreeV::Nested(n, _) => reduce_tree(n),
        },
{
}

/// A group right after a name is a call of that name, with the span from the
/// name to the group's closing parenthesis.
pub proof fn lemma_reduce_tree_call(f: Seq<char>, s1: Span, inner: Seq<TreeV>, s2: Span)
    ensures
        reduce_tree(seq![TreeV::Expr(ExprV::Variable(f, s1)), TreeV::Nested(inner, s2)]) == parse_call(
            f,
            s1.spec_join(s2),
            inner,
        ),
{
    let ts = seq![TreeV::Expr(ExprV::Variable(f, s1)), TreeV::Nested(inner, s2)];
    assert(reduce_items(ts, 0) == Ok::<Seq<ItemV>, Failure>(Seq::empty()));
    assert(Seq::<ItemV>::empty().push(ItemV::Expr(ExprV::Variable(f, s1))) =~= seq![
        ItemV::Expr(ExprV::Variable(f, s1)),
    ]);
    assert(reduce_items(ts, 1) == Ok::<Seq<ItemV>, Failure>(seq![ItemV::Expr(ExprV::Variable(f, s1))]));
    match parse_call(f, s1.spec_join(s2), inner) {
        Ok(x) => {
            assert(seq![ItemV::Expr(ExprV::Variable(f, s1))].drop_last().push(ItemV::Expr(x)) =~= seq![
                ItemV::Expr(x),
            ]);
            assert(reduce_items(ts, 2) == Ok::<Seq<ItemV>, Failure>(seq![ItemV::Expr(x)]));
        },
        Err(e) => {},
    }
}

/// A group that does not follow a name is an operand: the expression its
/// contents reduce to.
pub proof fn lemma_reduce_items_group(ts: Seq<TreeV>, k: int)
    requires
        0 < k <= ts.len(),
        ts[k - 1] is Nested,
        reduce_items(ts, k - 1) matches Ok(items) && !(items.len() > 0 && items.last() matches ItemV::Expr(
            ExprV::Variable(_, _),
        )),
    ensures
        reduce_items(ts, k) == match reduce_tree(ts[k - 1]->Nested_0) {
            Err(e) => Err(e),
            Ok(x) => Ok::<Seq<ItemV>, Failure>(reduce_items(ts, k - 1)->Ok_0.push(ItemV::Expr(x))),
        },
{
}

// ---------------------------------------------------------------------------
// Precedence and associativity.
// ---------------------------------------------------------------------------

/// The binary expression `l op r` as the parser builds it, with the span that
/// covers the operator and both operands.
pub open spec fn binary_expr(op: BinOp, l: ExprV, r: ExprV, sp: Span) -> ExprV {
    ExprV::Binary(op, Box::new(l), Box::new(r), sp.spec_join(expr_span(l)).spec_join(expr_span(r)))
}

/// Whether an item is an operator of the level.
pub open spec fn has_op_at(it: ItemV, level: int) -> bool {
    match it {
        ItemV::Punct(p, _) => binop_at(p, level) is Some,
        _ => false,
    }
}

proof fn lemma_level_none(items: Seq<ItemV>, level: int, k: int, reduced: Seq<ItemV>)
    requires
        0 <= k <= items.len(),
        forall|j: int| k <= j < items.len() ==> !has_op_at(#[trigger] items[j], level),
    ensures
        reduce_level(items, level, k, reduced) == Ok::<Seq<ItemV>, ParseError>(reduced + items.skip(k)),
    decreases items.len() - k,
{
    if k < items.len() {
        assert(!has_op_at(items[k], level));
        lemma_level_none(items, level, k + 1, reduced.push(items[k]));
        assert(reduced.push(items[k]) + items.skip(k + 1) =~= reduced + items.skip(k));
    } else {
        assert(reduced + items.skip(k) =~= reduced);
    }
}

/// The passes of the levels from `level` up to `upto` leave items without
/// operators of those levels as they are.
proof fn lemma_binary_skip(items: Seq<ItemV>, level: int, upto: int)
    requires
        0 <= level <= upto <= 5,
        forall|l: int, j: int| level <= l < upto && 0 <= j < items.len() ==> !#[trigger] has_op_at(items[j], l),
    ensures
        reduce_binary(items, level) == reduce_binary(items, upto),
    decreases upto - level,
{
    if level < upto {
        assert forall|j: int| 0 <= j < items.len() implies !#[trigger] has_op_at(items[j], level) by {}
        lemma_level_none(items, level, 0, Seq::empty());
        assert(Seq::<ItemV>::empty() + items.skip(0) =~= items);
        lemma_binary_skip(items, level + 1, upto);
    }
}

proof fn lemma_level_three(a: ExprV, o: PunctuationInner, s: Span, b: ExprV, level: int)
    requires
        binop_at(o, level) is Some,
    ensures
        reduce_level(seq![ItemV::Expr(a), ItemV::Punct(o, s), ItemV::Expr(b)], level, 0, Seq::empty())
            == Ok::<Seq<ItemV>, ParseError>(seq![ItemV::Expr(binary_expr(binop_at(o, level)->0, a, b, s))]),
{
    let items = seq![ItemV::Expr(a), ItemV::Punct(o, s), ItemV::Expr(b)];
    let e = binary_expr(binop_at(o, level)->0, a, b, s);
    assert(reduce_level(items, level, 3, seq![ItemV::Expr(e)]) == Ok::<Seq<ItemV>, ParseError>(seq![ItemV::Expr(e)]));
    assert(seq![ItemV::Expr(a)].drop_last().push(ItemV::Expr(e)) =~= seq![ItemV::Expr(e)]);
    assert(reduce_level(items, level, 1, seq![ItemV::Expr(a)]) == reduce_level(items, level, 3, seq![ItemV::Expr(e)]));
    assert(Seq::<ItemV>::empty().push(items[0]) =~= seq![ItemV::Expr(a)]);
}

proof fn lemma_level_five_both(
    x: ExprV,
    o1: PunctuationInner,
    s1: Span,
    y: ExprV,
    o2: PunctuationInner,
    s2: Span,
    z: ExprV,
    level: int,
)
    requires
        binop_at(o1, level) is Some,
        binop_at(o2, level) is Some,
    ensures
        reduce_level(
            seq![ItemV::Expr(x), ItemV::Punct(o1, s1), ItemV::Expr(y), ItemV::Punct(o2, s2), ItemV::Expr(z)],
            level,
            0,
            Seq::empty(),
        ) == Ok::<Seq<ItemV>, ParseError>(
            seq![ItemV::Expr(binary_expr(binop_at(o2, level)->0, binary_expr(binop_at(o1, level)->0, x, y, s1), z, s2))],
        ),
{
    let items = seq![ItemV::Expr(x), ItemV::Punct(o1, s1), ItemV::Expr(y), ItemV::Punct(o2, s2), ItemV::Expr(z)];
    let e1 = binary_expr(binop_at(o1, level)->0, x, y, s1);
    let e = binary_expr(binop_at(o2, level)->0, e1, z, s2);
    assert(reduce_level(items, level, 5, seq![ItemV::Expr(e)]) == Ok::<Seq<ItemV>, ParseError>(seq![ItemV::Expr(e)]));
    assert(seq![ItemV::Expr(e1)].drop_last().push(ItemV::Expr(e)) =~= seq![ItemV::Expr(e)]);
    assert(reduce_level(items, level, 3, seq![ItemV::Expr(e1)]) == reduce_level(items, level, 5, seq![ItemV::Expr(e)]));
    assert(seq![ItemV::Expr(x)].drop_last().push(ItemV::Expr(e1)) =~= seq![ItemV::Expr(e1)]);
    assert(reduce_level(items, level, 1, seq![ItemV::Expr(x)]) == reduce_level(items, level, 3, seq![ItemV::Expr(e1)]));
    assert(Seq::<ItemV>::empty().push(items[0]) =~= seq![ItemV::Expr(x)]);
}

proof fn lemma_level_five_left(
    x: ExprV,
    o1: PunctuationInner,
    s1: Span,
    y: ExprV,
    o2: PunctuationInner,
    s2: Span,
    z: ExprV,
    level: int,
)
    requires
        binop_at(o1, level) is Some,
        binop_at(o2, level) is None,
    ensures
        reduce_level(
            seq![ItemV::Expr(x), ItemV::Punct(o1, s1), ItemV::Expr(y), ItemV::Punct(o2, s2), ItemV::Expr(z)],
            level,
            0,
            Seq::empty(),
        ) == Ok::<Seq<ItemV>, ParseError>(
            seq![ItemV::Expr(binary_expr(binop_at(o1, level)->0, x, y, s1)), ItemV::Punct(o2, s2), ItemV::Expr(z)],
        ),
{
    let items = seq![ItemV::Expr(x), ItemV::Punct(o1, s1), ItemV::Expr(y), ItemV::Punct(o2, s2), ItemV::Expr(z)];
    let e1 = binary_expr(binop_at(o1, level)->0, x, y, s1);
    let r3 = seq![ItemV::Expr(e1)];
    let r4 = seq![ItemV::Expr(e1), ItemV::Punct(o2, s2)];
    let r5 = seq![ItemV::Expr(e1), ItemV::Punct(o2, s2), ItemV::Expr(z)];
    assert(reduce_level(items, level, 5, r5) == Ok::<Seq<ItemV>, ParseError>(r5));
    assert(r4.push(items[4]) =~= r5);
    assert(reduce_level(items, level, 4, r4) == reduce_level(items, level, 5, r5));
    assert(r3.push(items[3]) =~= r4);
    assert(reduce_level(items, level, 3, r3) == reduce_level(items, level, 4, r4));
    assert(seq![ItemV::Expr(x)].drop_last().push(ItemV::Expr(e1)) =~= r3);
    assert(reduce_level(items, level, 1, seq![ItemV::Expr(x)]) == reduce_level(items, level, 3, r3));
    assert(Seq::<ItemV>::empty().push(items[0]) =~= seq![ItemV::Expr(x)]);
}

proof fn lemma_level_five_right(
    x: ExprV,
    o1: PunctuationInner,
    s1: Span,
    y: ExprV,
    o2: PunctuationInner,
    s2: Span,
    z: ExprV,
    level: int,
)
    requires
        binop_at(o1, level) is None,
        binop_at(o2, level) is Some,
    ensures
        reduce_level(
            seq![ItemV::Expr(x), ItemV::Punct(o1, s1), ItemV::Expr(y), ItemV::Punct(o2, s2), ItemV::Expr(z)],
            level,
            0,
            Seq::empty(),
        ) == Ok::<Seq<ItemV>, ParseError>(
            seq![ItemV::Expr(x), ItemV::Punct(o1, s1), ItemV::Expr(binary_expr(binop_at(o2, level)->0, y, z, s2))],
        ),
{
    let items = seq![ItemV::Expr(x), ItemV::Punct(o1, s1), ItemV::Expr(y), ItemV::Punct(o2, s2), ItemV::Expr(z)];
    let e2 = binary_expr(binop_at(o2, level)->0, y, z, s2);
    let mid = seq![ItemV::Expr(x), ItemV::Punct(o1, s1), ItemV::Expr(e2)];
    let r1 = seq![ItemV::Expr(x)];
    let r2 = seq![ItemV::Expr(x), ItemV::Punct(o1, s1)];
    let r3 = seq![ItemV::Expr(x), ItemV::Punct(o1, s1), ItemV::Expr(y)];
    assert(reduce_level(items, level, 5, mid) == Ok::<Seq<ItemV>, ParseError>(mid));
    assert(r3.drop_last().push(ItemV::Expr(e2)) =~= mid);
    assert(r3.last() == ItemV::Expr(y));
    assert(reduce_level(items, level, 3, r3) == reduce_level(items, level, 5, mid));
    assert(r2.push(items[2]) =~= r3);
    assert(reduce_level(items, level, 2, r2) == reduce_level(items, level, 3, r3));
    assert(r1.push(items[1]) =~= r2);
    assert(reduce_level(items, level, 1, r1) == reduce_level(items, level, 2, r2));
    assert(Seq::<ItemV>::empty().push(items[0]) =~= r1);
}

/// Of two binary operators between three operands, the one of the lower
/// level (`* / %`, then `+ -`, the comparisons, `&&`, `||`) binds first, and
/// of two of the same level the left one: `x o1 y o2 z` reads as
/// `(x o1 y) o2 z` unless `o2` binds tighter, and then as `x o1 (y o2 z)`.
pub proof fn lemma_precedence(
    x: ExprV,
    o1: PunctuationInner,
    s1: Span,
    y: ExprV,
    o2: PunctuationInner,
    s2: Span,
    z: ExprV,
    l1: int,
    l2: int,
)
    requires
        0 <= l1 < 5,
        0 <= l2 < 5,
        binop_at(o1, l1) is Some,
        binop_at(o2, l2) is Some,
    ensures
        reduce_binary(
            seq![ItemV::Expr(x), ItemV::Punct(o1, s1), ItemV::Expr(y), ItemV::Punct(o2, s2), ItemV::Expr(z)],
            0,
        ) == Ok::<Seq<ItemV>, ParseError>(
            seq![
                ItemV::Expr(
                    if l1 <= l2 {
                        binary_expr(binop_at(o2, l2)->0, binary_expr(binop_at(o1, l1)->0, x, y, s1), z, s2)
                    } else {
                        binary_expr(binop_at(o1, l1)->0, x, binary_expr(binop_at(o2, l2)->0, y, z, s2), s1)
                    },
                ),
            ],
        ),
{
    let items = seq![ItemV::Expr(x), ItemV::Punct(o1, s1), ItemV::Expr(y), ItemV::Punct(o2, s2), ItemV::Expr(z)];
    let b1 = binop_at(o1, l1)->0;
    let b2 = binop_at(o2, l2)->0;
    assert forall|l: int| l != l1 implies binop_at(o1, l) is None by {}
    assert forall|l: int| l != l2 implies binop_at(o2, l) is None by {}
    if l1 == l2 {
        assert forall|l: int, j: int| 0 <= l < l1 && 0 <= j < items.len() implies !#[trigger] has_op_at(items[j], l) by {}
        lemma_binary_skip(items, 0, l1);
        lemma_level_five_both(x, o1, s1, y, o2, s2, z, l1);
        let single = seq![ItemV::Expr(binary_expr(b2, binary_expr(b1, x, y, s1), z, s2))];
        assert forall|l: int, j: int| l1 + 1 <= l < 5 && 0 <= j < single.len() implies !#[trigger] has_op_at(single[j], l) by {}
        lemma_binary_skip(single, l1 + 1, 5);
        assert(reduce_binary(items, l1) == reduce_binary(single, l1 + 1));
        assert(reduce_binary(single, 5) == Ok::<Seq<ItemV>, ParseError>(single));
    } else if l1 < l2 {
        assert forall|l: int, j: int| 0 <= l < l1 && 0 <= j < items.len() implies !#[trigger] has_op_at(items[j], l) by {}
        lemma_binary_skip(items, 0, l1);
        lemma_level_five_left(x, o1, s1, y, o2, s2, z, l1);
        let e1 = binary_expr(b1, x, y, s1);
        let mid = seq![ItemV::Expr(e1), ItemV::Punct(o2, s2), ItemV::Expr(z)];
        assert forall|l: int, j: int| l1 + 1 <= l < l2 && 0 <= j < mid.len() implies !#[trigger] has_op_at(mid[j], l) by {}
        lemma_binary_skip(mid, l1 + 1, l2);
        lemma_level_three(e1, o2, s2, z, l2);
        let single = seq![ItemV::Expr(binary_expr(b2, e1, z, s2))];
        assert forall|l: int, j: int| l2 + 1 <= l < 5 && 0 <= j < single.len() implies !#[trigger] has_op_at(single[j], l) by {}
        lemma_binary_skip(single, l2 + 1, 5);
        assert(reduce_binary(items, l1) == reduce_binary(mid, l1 + 1));
        assert(reduce_binary(mid, l2) == reduce_binary(single, l2 + 1));
        assert(reduce_binary(single, 5) == Ok::<Seq<ItemV>, ParseError>(single));
    } else {
        assert forall|l: int, j: int| 0 <= l < l2 && 0 <= j < items.len() implies !#[trigger] has_op_at(items[j], l) by {}
        lemma_binary_skip(items, 0, l2);
        lemma_level_five_right(x, o1, s1, y, o2, s2, z, l2);
        let e2 = binary_expr(b2, y, z, s2);
        let mid = seq![ItemV::Expr(x), ItemV::Punct(o1, s1), ItemV::Expr(e2)];
        assert forall|l: int, j: int| l2 + 1 <= l < l1 && 0 <= j < mid.len() implies !#[trigger] has_op_at(mid[j], l) by {}
        lemma_binary_skip(mid, l2 + 1, l1);
        lemma_level_three(x, o1, s1, e2, l1);
        let single = seq![ItemV::Expr(binary_expr(b1, x, e2, s1))];
        assert forall|l: int, j: int| l1 + 1 <= l < 5 && 0 <= j < single.len() implies !#[trigger] has_op_at(single[j], l) by {}
        lemma_binary_skip(single, l1 + 1, 5);
        assert(reduce_binary(items, l2) == reduce_binary(mid, l2 + 1));
        assert(reduce_binary(mid, l1) == reduce_binary(single, l1 + 1));
        assert(reduce_binary(single, 5) == Ok::<Seq<ItemV>, ParseError>(single));
    }
}

/// The operator-precedence rule, read from tokens: three names with two binary
/// operators between them parse as `lemma_precedence` says.
pub proof fn lemma_parse_precedence(
    x: Seq<char>,
    sx: Span,
    o1: PunctuationInner,
    s1: Span,
    y: Seq<char>,
    sy: Span,
    o2: PunctuationInner,
    s2: Span,
    z: Seq<char>,
    sz: Span,
    l1: int,
    l2: int,
)
    requires
        0 <= l1 < 5,
        0 <= l2 < 5,
        binop_at(o1, l1) is Some,
        binop_at(o2, l2) is Some,
    ensures
        parse_tokens(
            seq![
                TokV { kind: TokKind::Ident(x), span: sx },
                TokV { kind: TokKind::Punct(o1), span: s1 },
                TokV { kind: TokKind::Ident(y), span: sy },
                TokV { kind: TokKind::Punct(o2), span: s2 },
                TokV { kind: TokKind::Ident(z), span: sz },
            ],
        ) == Ok::<ExprV, Failure>(
            {
                let vx = ExprV::Variable(x, sx);
                let vy = ExprV::Variable(y, sy);
                let vz = ExprV::Variable(z, sz);
                if l1 <= l2 {
                    binary_expr(binop_at(o2, l2)->0, binary_expr(binop_at(o1, l1)->0, vx, vy, s1), vz, s2)
                } else {
                    binary_expr(binop_at(o1, l1)->0, vx, binary_expr(binop_at(o2, l2)->0, vy, vz, s2), s1)
                }
            },
        ),
{
    let ts = seq![
        TokV { kind: TokKind::Ident(x), span: sx },
        TokV { kind: TokKind::Punct(o1), span: s1 },
        TokV { kind: TokKind::Ident(y), span: sy },
        TokV { kind: TokKind::Punct(o2), span: s2 },
        TokV { kind: TokKind::Ident(z), span: sz },
    ];
    let vx = ExprV::Variable(x, sx);
    let vy = ExprV::Variable(y, sy);
    let vz = ExprV::Variable(z, sz);
    assert(o1 != PunctuationInner::LeftParen && o1 != PunctuationInner::RightParen);
    assert(o2 != PunctuationInner::LeftParen && o2 != PunctuationInner::RightParen);
    assert(o1 != PunctuationInner::Exclamation && o2 != PunctuationInner::Exclamation);
    // Grouping: no parentheses, so the trees are the tokens in order.
    let t1 = seq![TreeV::Expr(vx)];
    let t2 = t1.push(TreeV::Punct(o1, s1));
    let t3 = t2.push(TreeV::Expr(vy));
    let t4 = t3.push(TreeV::Punct(o2, s2));
    let t5 = t4.push(TreeV::Expr(vz));
    let e = Seq::<(Seq<TreeV>, Span)>::empty();
    assert(ts.take(0) =~= Seq::<TokV>::empty());
    assert(Seq::<TreeV>::empty().push(TreeV::Expr(vx)) =~= t1);
    assert(ts.take(1).drop_last() =~= ts.take(0));
    assert(nest(ts.take(0)) == Ok::<Nest, ParseError>(Nest { stack: e, current: Seq::empty() }));
    assert(ts.take(1).last() == ts[0]);
    assert(nest(ts.take(1)) == Ok::<Nest, ParseError>(Nest { stack: e, current: t1 }));
    assert(ts.take(2).drop_last() =~= ts.take(1));
    assert(nest(ts.take(2)) == Ok::<Nest, ParseError>(Nest { stack: e, current: t2 }));
    assert(ts.take(3).drop_last() =~= ts.take(2));
    assert(nest(ts.take(3)) == Ok::<Nest, ParseError>(Nest { stack: e, current: t3 }));
    assert(ts.take(4).drop_last() =~= ts.take(3));
    assert(nest(ts.take(4)) == Ok::<Nest, ParseError>(Nest { stack: e, current: t4 }));
    assert(ts.take(5).drop_last() =~= ts.take(4));
    assert(ts.take(5) =~= ts);
    assert(nest(ts) == Ok::<Nest, ParseError>(Nest { stack: e, current: t5 }));
    // Items: no groups, so each tree gives its item.
    let items = seq![ItemV::Expr(vx), ItemV::Punct(o1, s1), ItemV::Expr(vy), ItemV::Punct(o2, s2), ItemV::Expr(vz)];
    assert(reduce_items(t5, 0) == Ok::<Seq<ItemV>, Failure>(Seq::empty()));
    assert(t5[0] == TreeV::Expr(vx));
    assert(Seq::<ItemV>::empty().push(items[0]) =~= items.take(1));
    assert(reduce_items(t5, 1) == Ok::<Seq<ItemV>, Failure>(items.take(1)));
    assert(items.take(1).push(items[1]) =~= items.take(2));
    assert(reduce_items(t5, 2) == Ok::<Seq<ItemV>, Failure>(items.take(2)));
    assert(items.take(2).push(items[2]) =~= items.take(3));
    assert(reduce_items(t5, 3) == Ok::<Seq<ItemV>, Failure>(items.take(3)));
    assert(items.take(3).push(items[3]) =~= items.take(4));
    assert(reduce_items(t5, 4) == Ok::<Seq<ItemV>, Failure>(items.take(4)));
    assert(items.take(4).push(items[4]) =~= items);
    assert(reduce_items(t5, 5) == Ok::<Seq<ItemV>, Failure>(items));
    // Unary operators: none, and a minus after an operand stays binary.
    assert(reduce_unary(items, 0, items) == Ok::<Seq<ItemV>, ParseError>(items));
    assert(seq![items[0]] + items.skip(1) =~= items);
    assert(reduce_unary(items, 1, items.skip(1)) == reduce_unary(items, 0, items));
    assert(seq![items[1]] + items.skip(2) =~= items.skip(1));
    assert(reduce_unary(items, 2, items.skip(2)) == reduce_unary(items, 1, items.skip(1)));
    assert(seq![items[2]] + items.skip(3) =~= items.skip(2));
    assert(reduce_unary(items, 3, items.skip(3)) == reduce_unary(items, 2, items.skip(2)));
    assert(seq![items[3]] + items.skip(4) =~= items.skip(3));
    assert(reduce_unary(items, 4, items.skip(4)) == reduce_unary(items, 3, items.skip(3)));
    assert(seq![items[4]] + Seq::<ItemV>::empty() =~= items.skip(4));
    assert(reduce_unary(items, 5, Seq::empty()) == reduce_unary(items, 4, items.skip(4)));
    lemma_precedence(vx, o1, s1, vy, o2, s2, vz, l1, l2);
}

/// Between two names, each binary operator's punctuation parses to the
/// operation its text names: `*` multiplies, `/` divides, `%` takes the
/// remainder, `+` adds, `-` subtracts, `==`, `!=`, `<`, `>`, `<=`, `>=`
/// compare, `&&` and `||` combine; the span covers the operator and both names.
pub proof fn lemma_parse_binary_operator(
    x: Seq<char>,
    sx: Span,
    p: PunctuationInner,
    sp: Span,
    y: Seq<char>,
    sy: Span,
)
    ensures
        (match p {
            PunctuationInner::Star => Some(BinOp::Mul),
            PunctuationInner::Slash => Some(BinOp::Div),
            PunctuationInner::Percent => Some(BinOp::Mod),
            PunctuationInner::Plus => Some(BinOp::Add),
            PunctuationInner::Minus => Some(BinOp::Sub),
            PunctuationInner::Equals => Some(BinOp::Eq),
            PunctuationInner::NotEquals => Some(BinOp::Ne),
            PunctuationInner::Leather => Some(BinOp::Lt),
            PunctuationInner::Greater => Some(BinOp::Gt),
            PunctuationInner::LeatherEquals => Some(BinOp::Le),
            PunctuationInner::GreaterEquals => Some(BinOp::Ge),
            PunctuationInner::DoubleAmpersand => Some(BinOp::And),
            PunctuationInner::DoublePipe => Some(BinOp::Or),
            _ => None::<BinOp>,
        }) matches Some(op) ==> parse_tokens(
            seq![
                TokV { kind: TokKind::Ident(x), span: sx },
                TokV { kind: TokKind::Punct(p), span: sp },
                TokV { kind: TokKind::Ident(y), span: sy },
            ],
        ) == Ok::<ExprV, Failure>(
            ExprV::Binary(
                op,
                Box::new(ExprV::Variable(x, sx)),
                Box::new(ExprV::Variable(y, sy)),
                sp.spec_join(sx).spec_join(sy),
            ),
        ),
{
    let level: int = match p {
        PunctuationInner::Star | PunctuationInner::Slash | PunctuationInner::Percent => 0,
        PunctuationInner::Plus | PunctuationInner::Minus => 1,
        PunctuationInner::DoubleAmpersand => 3,
        PunctuationInner::DoublePipe => 4,
        _ => 2,
    };
    if binop_at(p, level) is Some {
        let ts = seq![
            TokV { kind: TokKind::Ident(x), span: sx },
            TokV { kind: TokKind::Punct(p), span: sp },
            TokV { kind: TokKind::Ident(y), span: sy },
        ];
        let vx = ExprV::Variable(x, sx);
        let vy = ExprV::Variable(y, sy);
        let e = Seq::<(Seq<TreeV>, Span)>::empty();
        let t1 = seq![TreeV::Expr(vx)];
        let t2 = t1.push(TreeV::Punct(p, sp));
        let t3 = t2.push(TreeV::Expr(vy));
        assert(ts.take(0) =~= Seq::<TokV>::empty());
        assert(Seq::<TreeV>::empty().push(TreeV::Expr(vx)) =~= t1);
        assert(ts.take(1).drop_last() =~= ts.take(0));
        assert(nest(ts.take(0)) == Ok::<Nest, ParseError>(Nest { stack: e, current: Seq::empty() }));
        assert(ts.take(1).last() == ts[0]);
        assert(nest(ts.take(1)) == Ok::<Nest, ParseError>(Nest { stack: e, current: t1 }));
        assert(ts.take(2).drop_last() =~= ts.take(1));
        assert(nest(ts.take(2)) == Ok::<Nest, ParseError>(Nest { stack: e, current: t2 }));
        assert(ts.take(3).drop_last() =~= ts.take(2));
        assert(ts.take(3) =~= ts);
        assert(nest(ts) == Ok::<Nest, ParseError>(Nest { stack: e, current: t3 }));
        let items = seq![ItemV::Expr(vx), ItemV::Punct(p, sp), ItemV::Expr(vy)];
        assert(reduce_items(t3, 0) == Ok::<Seq<ItemV>, Failure>(Seq::empty()));
        assert(t3[0] == TreeV::Expr(vx));
        assert(Seq::<ItemV>::empty().push(items[0]) =~= items.take(1));
        assert(reduce_items(t3, 1) == Ok::<Seq<ItemV>, Failure>(items.take(1)));
        assert(items.take(1).push(items[1]) =~= items.take(2));
        assert(reduce_items(t3, 2) == Ok::<Seq<ItemV>, Failure>(items.take(2)));
        assert(items.take(2).push(items[2]) =~= items);
        assert(reduce_items(t3, 3) == Ok::<Seq<ItemV>, Failure>(items));
        assert(reduce_unary(items, 0, items) == Ok::<Seq<ItemV>, ParseError>(items));
        assert(seq![items[0]] + items.skip(1) =~= items);
        assert(reduce_unary(items, 1, items.skip(1)) == reduce_unary(items, 0, items));
        assert(seq![items[1]] + items.skip(2) =~= items.skip(1));
        assert(reduce_unary(items, 2, items.skip(2)) == reduce_unary(items, 1, items.skip(1)));
        assert(seq![items[2]] + Seq::<ItemV>::empty() =~= items.skip(2));
        assert(reduce_unary(items, 3, Seq::empty()) == reduce_unary(items, 2, items.skip(2)));
        assert forall|l: int| l != level implies binop_at(p, l) is None by {}
        assert forall|l: int, j: int| 0 <= l < level && 0 <= j < items.len() implies !#[trigger] has_op_at(items[j], l) by {}
        lemma_binary_skip(items, 0, level);
        lemma_level_three(vx, p, sp, vy, level);
        let single = seq![ItemV::Expr(binary_expr(binop_at(p, level)->0, vx, vy, sp))];
        assert forall|l: int, j: int| level + 1 <= l < 5 && 0 <= j < single.len() implies !#[trigger] has_op_at(single[j], l) by {}
        lemma_binary_skip(single, level + 1, 5);
        assert(reduce_binary(items, level) == reduce_binary(single, level + 1));
        assert(reduce_binary(single, 5) == Ok::<Seq<ItemV>, ParseError>(single));
    }
}

/// The binary operation that an operator's text names.
pub open spec fn operator_named(p: PunctuationInner) -> Option<BinOp> {
    match p {
        PunctuationInner::Star => Some(BinOp::Mul),
        PunctuationInner::Slash => Some(BinOp::Div),
        PunctuationInner::Percent => Some(BinOp::Mod),
        PunctuationInner::Plus => Some(BinOp::Add),
        PunctuationInner::Minus => Some(BinOp::Sub),
        PunctuationInner::Equals => Some(BinOp::Eq),
        PunctuationInner::NotEquals => Some(BinOp::Ne),
        PunctuationInner::Leather => Some(BinOp::Lt),
        PunctuationInner::Greater => Some(BinOp::Gt),
        PunctuationInner::LeatherEquals => Some(BinOp::Le),
        PunctuationInner::GreaterEquals => Some(BinOp::Ge),
        PunctuationInner::DoubleAmpersand => Some(BinOp::And),
        PunctuationInner::DoublePipe => Some(BinOp::Or),
        _ => None,
    }
}

/// How tightly an operator binds, tightest first: `* / %`, then `+ -`, then
/// the comparisons, then `&&`, then `||`.
pub open spec fn operator_rank(p: PunctuationInner) -> int {
    match p {
        PunctuationInner::Star | PunctuationInner::Slash | PunctuationInner::Percent => 0,
        PunctuationInner::Plus | PunctuationInner::Minus => 1,
        PunctuationInner::DoubleAmpersand => 3,
        PunctuationInner::DoublePipe => 4,
        _ => 2,
    }
}

/// Three names with two binary operators: the operator that binds tighter
/// (`* / %` before `+ -` before comparisons before `&&` before `||`) takes
/// its operands first, and of two that bind alike the left one; each operator
/// gives the operation its text names.
pub proof fn lemma_operator_binding(
    x: Seq<char>,
    sx: Span,
    o1: PunctuationInner,
    s1: Span,
    y: Seq<char>,
    sy: Span,
    o2: PunctuationInner,
    s2: Span,
    z: Seq<char>,
    sz: Span,
)
    requires
        operator_named(o1) is Some,
        operator_named(o2) is Some,
    ensures
        parse_tokens(
            seq![
                TokV { kind: TokKind::Ident(x), span: sx },
                TokV { kind: TokKind::Punct(o1), span: s1 },
                TokV { kind: TokKind::Ident(y), span: sy },
                TokV { kind: TokKind::Punct(o2), span: s2 },
                TokV { kind: TokKind::Ident(z), span: sz },
            ],
        ) == Ok::<ExprV, Failure>(
            {
                let vx = ExprV::Variable(x, sx);
                let vy = ExprV::Variable(y, sy);
                let vz = ExprV::Variable(z, sz);
                let b1 = operator_named(o1)->0;
                let b2 = operator_named(o2)->0;
                if operator_rank(o1) <= operator_rank(o2) {
                    binary_expr(b2, binary_expr(b1, vx, vy, s1), vz, s2)
                } else {
                    binary_expr(b1, vx, binary_expr(b2, vy, vz, s2), s1)
                }
            },
        ),
{
    assert(binop_at(o1, operator_rank(o1)) == operator_named(o1));
    assert(binop_at(o2, operator_rank(o2)) == operator_named(o2));
    lemma_parse_precedence(x, sx, o1, s1, y, sy, o2, s2, z, sz, operator_rank(o1), operator_rank(o2));
}

/// `!` before an operand negates it and `-` before an operand is its minus,
/// with the span from the operator to the operand.
pub proof fn lemma_parse_unary_operator(p: PunctuationInner, sp: Span, x: Seq<char>, sx: Span)
    ensures
        p == PunctuationInner::Exclamation ==> parse_tokens(
            seq![TokV { kind: TokKind::Punct(p), span: sp }, TokV { kind: TokKind::Ident(x), span: sx }],
        ) == Ok::<ExprV, Failure>(
            ExprV::Unary(UnOp::Not, Box::new(ExprV::Variable(x, sx)), sp.spec_join(sx)),
        ),
        p == PunctuationInner::Minus ==> parse_tokens(
            seq![TokV { kind: TokKind::Punct(p), span: sp }, TokV { kind: TokKind::Ident(x), span: sx }],
        ) == Ok::<ExprV, Failure>(
            ExprV::Unary(UnOp::Minus, Box::new(ExprV::Variable(x, sx)), sp.spec_join(sx)),
        ),
{
    if p == PunctuationInner::Exclamation || p == PunctuationInner::Minus {
        let ts = seq![TokV { kind: TokKind::Punct(p), span: sp }, TokV { kind: TokKind::Ident(x), span: sx }];
        let vx = ExprV::Variable(x, sx);
        let e = Seq::<(Seq<TreeV>, Span)>::empty();
        let t1 = seq![TreeV::Punct(p, sp)];
        let t2 = t1.push(TreeV::Expr(vx));
        assert(ts.take(0) =~= Seq::<TokV>::empty());
        assert(Seq::<TreeV>::empty().push(TreeV::Punct(p, sp)) =~= t1);
        assert(ts.take(1).drop_last() =~= ts.take(0));
        assert(nest(ts.take(0)) == Ok::<Nest, ParseError>(Nest { stack: e, current: Seq::empty() }));
        assert(ts.take(1).last() == ts[0]);
        assert(nest(ts.take(1)) == Ok::<Nest, ParseError>(Nest { stack: e, current: t1 }));
        assert(ts.take(2).drop_last() =~= ts.take(1));
        assert(ts.take(2) =~= ts);
        assert(nest(ts) == Ok::<Nest, ParseError>(Nest { stack: e, current: t2 }));
        let items = seq![ItemV::Punct(p, sp), ItemV::Expr(vx)];
        assert(reduce_items(t2, 0) == Ok::<Seq<ItemV>, Failure>(Seq::empty()));
        assert(Seq::<ItemV>::empty().push(items[0]) =~= items.take(1));
        assert(reduce_items(t2, 1) == Ok::<Seq<ItemV>, Failure>(items.take(1)));
        assert(items.take(1).push(items[1]) =~= items);
        assert(reduce_items(t2, 2) == Ok::<Seq<ItemV>, Failure>(items));
        let op = if p == PunctuationInner::Exclamation {
            UnOp::Not
        } else {
            UnOp::Minus
        };
        let u = ExprV::Unary(op, Box::new(vx), sp.spec_join(sx));
        let single = seq![ItemV::Expr(u)];
        assert(seq![items[1]] + Seq::<ItemV>::empty() =~= seq![ItemV::Expr(vx)]);
        assert(reduce_unary(items, 2, Seq::empty()) == reduce_unary(items, 1, seq![ItemV::Expr(vx)]));
        assert(seq![ItemV::Expr(u)] + seq![ItemV::Expr(vx)].drop_first() =~= single);
        assert(reduce_unary(items, 1, seq![ItemV::Expr(vx)]) == reduce_unary(items, 0, single));
        assert(reduce_unary(items, 0, single) == Ok::<Seq<ItemV>, ParseError>(single));
        assert forall|l: int, j: int| 0 <= l < 5 && 0 <= j < single.len() implies !#[trigger] has_op_at(single[j], l) by {}
        lemma_binary_skip(single, 0, 5);
        assert(reduce_binary(single, 5) == Ok::<Seq<ItemV>, ParseError>(single));
    }
}

// ---------------------------------------------------------------------------
// Equality up to spans.
// ---------------------------------------------------------------------------

/// Two expressions are equal when they have the same shape and values; spans
/// are not compared. Float literals compare by the number they denote, and
/// one that is not a number equals nothing.
pub open spec fn expr_eq(a: ExprV, b: ExprV) -> bool
    decreases a, 0nat,
{
    match a {
        ExprV::Call(c1, as1, _) => match b {
            ExprV::Call(c2, as2, _) => c1 == c2 && as1.len() == as2.len() && args_eq(as1, as2, as1.len() as int),
            _ => false,
        },
        ExprV::Variable(x, _) => match b {
            ExprV::Variable(y, _) => x == y,
            _ => false,
        },
        ExprV::Str(x, _) => match b {
            ExprV::Str(y, _) => x == y,
            _ => false,
        },
        ExprV::Float(x, _) => match b {
            ExprV::Float(y, _) => float_eq(x, y),
            _ => false,
        },
        ExprV::Int(x, _) => match b {
            ExprV::Int(y, _) => x == y,
            _ => false,
        },
        ExprV::Bool(x, _) => match b {
            ExprV::Bool(y, _) => x == y,
            _ => false,
        },
        ExprV::Unary(op, x, _) => match b {
            ExprV::Unary(op2, y, _) => op == op2 && expr_eq(*x, *y),
            _ => false,
        },
        ExprV::Binary(op, x, y, _) => match b {
            ExprV::Binary(op2, x2, y2, _) => op == op2 && expr_eq(*x, *x2) && expr_eq(*y, *y2),
            _ => false,
        },
    }
}

/// The first `k` arguments are pairwise equal up to spans.
pub open spec fn args_eq(as1: Seq<ExprV>, as2: Seq<ExprV>, k: int) -> bool
    decreases as1, k,
{
    if k <= 0 || k > as1.len() {
        true
    } else {
        args_eq(as1, as2, k - 1) && expr_eq(as1[k - 1], as2[k - 1])
    }
}

pub proof fn lemma_args_eq(as1: Seq<ExprV>, as2: Seq<ExprV>, k: int)
    requires
        0 <= k <= as1.len(),
    ensures
        args_eq(as1, as2, k) <==> forall|i: int| 0 <= i < k ==> #[trigger] expr_eq(as1[i], as2[i]),
    decreases k,
{
    if k > 0 {
        lemma_args_eq(as1, as2, k - 1);
        if forall|i: int| 0 <= i < k ==> #[trigger] expr_eq(as1[i], as2[i]) {
            assert(expr_eq(as1[k - 1], as2[k - 1]));
        }
        if args_eq(as1, as2, k) {
            assert forall|i: int| 0 <= i < k implies #[trigger] expr_eq(as1[i], as2[i]) by {
                if i < k - 1 {
                    assert(args_eq(as1, as2, k - 1));
                }
            }
        }
    }
}

/// No float literal of the expression is not-a-number.
pub open spec fn floats_are_numbers(a: ExprV) -> bool
    decreases a, 0nat,
{
    match a {
        ExprV::Call(_, args, _) => args_are_numbers(args, args.len() as int),
        ExprV::Float(x, _) => !(float_value(x) is NaN),
        ExprV::Unary(_, x, _) => floats_are_numbers(*x),
        ExprV::Binary(_, x, y, _) => floats_are_numbers(*x) && floats_are_numbers(*y),
        _ => true,
    }
}

/// No float literal of the first `k` arguments is not-a-number.
pub open spec fn args_are_numbers(args: Seq<ExprV>, k: int) -> bool
    decreases args, k,
{
    if k <= 0 || k > args.len() {
        true
    } else {
        args_are_numbers(args, k - 1) && floats_are_numbers(args[k - 1])
    }
}

proof fn lemma_args_are_numbers(args: Seq<ExprV>, k: int)
    requires
        0 <= k <= args.len(),
        args_are_numbers(args, k),
    ensures
        forall|i: int| 0 <= i < k ==> #[trigger] floats_are_numbers(args[i]),
    decreases k,
{
    if k > 0 {
        lemma_args_are_numbers(args, k - 1);
    }
}

/// Equality up to spans is reflexive on expressions whose float literals are
/// numbers (a float that is not a number equals nothing, itself included).
pub proof fn lemma_expr_eq_reflexive(a: ExprV)
    requires
        floats_are_numbers(a),
    ensures
        expr_eq(a, a),
    decreases a,
{
    match a {
        ExprV::Call(_, args, _) => {
            lemma_args_are_numbers(args, args.len() as int);
            assert forall|i: int| 0 <= i < args.len() implies #[trigger] expr_eq(args[i], args[i]) by {
                assert(decreases_to!(a => a->Call_1));
                assert(decreases_to!(a->Call_1 => args[i]));
                assert(floats_are_numbers(args[i]));
                lemma_expr_eq_reflexive(args[i]);
            }
            lemma_args_eq(args, args, args.len() as int);
        },
        ExprV::Float(x, _) => {
            lemma_float_eq_reflexive(x);
        },
        ExprV::Unary(_, x, _) => {
            lemma_expr_eq_reflexive(*x);
        },
        ExprV::Binary(_, x, y, _) => {
            lemma_expr_eq_reflexive(*x);
            lemma_expr_eq_reflexive(*y);
        },
        _ => {},
    }
}

/// Equality up to spans is symmetric.
pub proof fn lemma_expr_eq_symmetric(a: ExprV, b: ExprV)
    requires
        expr_eq(a, b),
    ensures
        expr_eq(b, a),
    decreases a,
{
    match a {
        ExprV::Call(_, as1, _) => {
            let as2 = b->Call_1;
            lemma_args_eq(as1, as2, as1.len() as int);
            assert forall|i: int| 0 <= i < as2.len() implies #[trigger] expr_eq(as2[i], as1[i]) by {
                assert(decreases_to!(a => a->Call_1));
                assert(decreases_to!(a->Call_1 => as1[i]));
                assert(expr_eq(as1[i], as2[i]));
                lemma_expr_eq_symmetric(as1[i], as2[i]);
            }
            lemma_args_eq(as2, as1, as2.len() as int);
        },
        ExprV::Float(x, _) => {
            lemma_float_eq_symmetric(x, b->Float_0);
        },
        ExprV::Unary(_, x, _) => {
            lemma_expr_eq_symmetric(*x, *b->Unary_1);
        },
        ExprV::Binary(_, x, y, _) => {
            lemma_expr_eq_symmetric(*x, *b->Binary_1);
            lemma_expr_eq_symmetric(*y, *b->Binary_2);
        },
        _ => {},
    }
}

/// Equality up to spans is transitive.
pub proof fn lemma_expr_eq_transitive(a: ExprV, b: ExprV, c: ExprV)
    requires
        expr_eq(a, b),
        expr_eq(b, c),
    ensures
        expr_eq(a, c),
    decreases a,
{
    match a {
        ExprV::Call(_, as1, _) => {
            let as2 = b->Call_1;
            let as3 = c->Call_1;
            lemma_args_eq(as1, as2, as1.len() as int);
            lemma_args_eq(as2, as3, as2.len() as int);
            assert forall|i: int| 0 <= i < as1.len() implies #[trigger] expr_eq(as1[i], as3[i]) by {
                assert(decreases_to!(a => a->Call_1));
                assert(decreases_to!(a->Call_1 => as1[i]));
                assert(expr_eq(as1[i], as2[i]));
                assert(expr_eq(as2[i], as3[i]));
                lemma_expr_eq_transitive(as1[i], as2[i], as3[i]);
            }
            lemma_args_eq(as1, as3, as1.len() as int);
        },
        ExprV::Float(x, _) => {
            lemma_float_eq_transitive(x, b->Float_0, c->Float_0);
        },
        ExprV::Unary(_, x, _) => {
            lemma_expr_eq_transitive(*x, *b->Unary_1, *c->Unary_1);
        },
        ExprV::Binary(_, x, y, _) => {
            lemma_expr_eq_transitive(*x, *b->Binary_1, *c->Binary_1);
            lemma_expr_eq_transitive(*y, *b->Binary_2, *c->Binary_2);
        },
        _ => {},
    }
}

/// Equality up to spans tells operations apart: equal expressions are calls
/// of the same name, or have the same unary or binary operator.
pub proof fn lemma_expr_eq_same_operator(a: ExprV, b: ExprV)
    requires
        expr_eq(a, b),
    ensures
        a is Binary ==> b is Binary && a->Binary_0 == b->Binary_0,
        a is Unary ==> b is Unary && a->Unary_0 == b->Unary_0,
        a is Call ==> b is Call && a->Call_0 == b->Call_0,
{
}

/// Spans do not take part in equality: two expressions equal up to spans stay
/// so when either is given other spans, which `expr_span` reads.
pub proof fn lemma_expr_eq_ignores_span(a: ExprV, sp: Span)
    requires
        floats_are_numbers(a),
    ensures
        match a {
            ExprV::Variable(x, _) => expr_eq(a, ExprV::Variable(x, sp)),
            ExprV::Str(x, _) => expr_eq(a, ExprV::Str(x, sp)),
            ExprV::Float(x, _) => expr_eq(a, ExprV::Float(x, sp)),
            ExprV::Int(x, _) => expr_eq(a, ExprV::Int(x, sp)),
            ExprV::Bool(x, _) => expr_eq(a, ExprV::Bool(x, sp)),
            ExprV::Unary(op, x, _) => expr_eq(a, ExprV::Unary(op, x, sp)),
            ExprV::Binary(op, x, y, _) => expr_eq(a, ExprV::Binary(op, x, y, sp)),
            ExprV::Call(c, args, _) => expr_eq(a, ExprV::Call(c, args, sp)),
        },
{
    lemma_expr_eq_reflexive(a);
    match a {
        ExprV::Float(x, _) => {
            lemma_float_eq_reflexive(x);
        },
        ExprV::Unary(_, x, _) => {
            lemma_expr_eq_reflexive(*x);
        },
        ExprV::Binary(_, x, y, _) => {
            lemma_expr_eq_reflexive(*x);
            lemma_expr_eq_reflexive(*y);
        },
        ExprV::Call(_, args, _) => {
            lemma_args_are_numbers(args, args.len() as int);
            assert forall|i: int| 0 <= i < args.len() implies #[trigger] expr_eq(args[i], args[i]) by {
                assert(floats_are_numbers(args[i]));
                lemma_expr_eq_reflexive(args[i]);
            }
            lemma_args_eq(args, args, args.len() as int);
        },
        _ => {},
    }
}

fn same_unop(a: &Expression, b: &Expression) -> (res: bool)
    requires
        a@ is Unary,
        b@ is Unary,
    ensures
        res == (a@->Unary_0 == b@->Unary_0),
{
    match (a, b) {
        (Expression::Not(..), Expression::Not(..)) => true,
        (Expression::Minus(..), Expression::Minus(..)) => true,
        _ => false,
    }
}

fn is_binary(a: &Expression) -> (res: bool)
    ensures
        res == (a@ is Binary),
{
    match a {
        Expression::Call(..) | Expression::Variable(..) | Expression::String(..) | Expression::Float(..)
        | Expression::Int(..) | Expression::Bool(..) | Expression::Not(..) | Expression::Minus(..) => false,
        _ => true,
    }
}

fn binop_code(a: &Expression) -> (res: u8)
    requires
        a@ is Binary,
    ensures
        res == binop_index(a@->Binary_0),
{
    match a {
        Expression::And(..) => 0,
        Expression::Or(..) => 1,
        Expression::Eq(..) => 2,
        Expression::Ne(..) => 3,
        Expression::Gt(..) => 4,
        Expression::Ge(..) => 5,
        Expression::Lt(..) => 6,
        Expression::Le(..) => 7,
        Expression::Add(..) => 8,
        Expression::Sub(..) => 9,
        Expression::Mul(..) => 10,
        Expression::Div(..) => 11,
        _ => 12,
    }
}

pub open spec fn binop_index(op: BinOp) -> u8 {
    match op {
        BinOp::And => 0,
        BinOp::Or => 1,
        BinOp::Eq => 2,
        BinOp::Ne => 3,
        BinOp::Gt => 4,
        BinOp::Ge => 5,
        BinOp::Lt => 6,
        BinOp::Le => 7,
        BinOp::Add => 8,
        BinOp::Sub => 9,
        BinOp::Mul => 10,
        BinOp::Div => 11,
        BinOp::Mod => 12,
    }
}

fn operands(a: &Expression) -> (res: (&Expression, &Expression))
    requires
        a@ is Binary,
    ensures
        *a@->Binary_1 == res.0@,
        *a@->Binary_2 == res.1@,
{
    match a {
        Expression::And(x, y, _) | Expression::Or(x, y, _) | Expression::Eq(x, y, _) | Expression::Ne(
            x,
            y,
            _,
        ) | Expression::Gt(x, y, _) | Expression::Ge(x, y, _) | Expression::Lt(x, y, _)
        | Expression::Le(x, y, _) | Expression::Add(x, y, _) | Expression::Sub(x, y, _)
        | Expression::Mul(x, y, _) | Expression::Div(x, y, _) | Expression::Mod(x, y, _) => (x, y),
        _ => {
            proof {
                assert(false);
            }
            (a, a)
        },
    }
}

fn operand(a: &Expression) -> (res: &Expression)
    requires
        a@ is Unary,
    ensures
        *a@->Unary_1 == res@,
{
    match a {
        Expression::Not(x, _) | Expression::Minus(x, _) => x,
        _ => {
            proof {
                assert(false);
            }
            a
        },
    }
}

/// Whether two expressions are equal up to spans.
pub fn same_expression(a: &Expression, b: &Expression) -> (res: bool)
    ensures
        res == expr_eq(a@, b@),
    decreases a@, 1nat,
{
    match (a, b) {
        (Expression::Call(c1, _), Expression::Call(c2, _)) => {
            proof {
                assert(decreases_to!(a@ => a@->Call_1));
            }
            let r = c1.callee == c2.callee && same_arguments(&c1.arguments, &c2.arguments, Ghost(a@));
            proof {
                lemma_exprs_view(c1.arguments@);
                lemma_args_eq(a@->Call_1, b@->Call_1, a@->Call_1.len() as int);
            }
            r
        },
        (Expression::Variable(x, _), Expression::Variable(y, _)) => *x == *y,
        (Expression::String(x, _), Expression::String(y, _)) => *x == *y,
        (Expression::Float(x, _), Expression::Float(y, _)) => float_strings_equal(x, y),
        (Expression::Int(x, _), Expression::Int(y, _)) => *x == *y,
        (Expression::Bool(x, _), Expression::Bool(y, _)) => *x == *y,
        (Expression::Not(..), Expression::Not(..)) | (Expression::Minus(..), Expression::Minus(..)) => {
            proof {
                assert(decreases_to!(a@ => *a@->Unary_1));
            }
            same_expression(operand(a), operand(b))
        },
        (Expression::Call(..), _) | (Expression::Variable(..), _) | (Expression::String(..), _) | (
            Expression::Float(..),
            _,
        ) | (Expression::Int(..), _) | (Expression::Bool(..), _) | (Expression::Not(..), _) | (
            Expression::Minus(..),
            _,
        ) => false,
        _ => {
            if !is_binary(b) {
                return false;
            }
            if binop_code(a) != binop_code(b) {
                return false;
            }
            let (x, y) = operands(a);
            let (x2, y2) = operands(b);
            proof {
                assert(decreases_to!(a@ => *a@->Binary_1));
                assert(decreases_to!(a@ => *a@->Binary_2));
            }
            same_expression(x, x2) && same_expression(y, y2)
        },
    }
}

fn same_arguments(a: &Vec<Expression>, b: &Vec<Expression>, Ghost(parent): Ghost<ExprV>) -> (res: bool)
    requires
        decreases_to!(parent => exprs_view(a@)),
    ensures
        res == (exprs_view(a@).len() == exprs_view(b@).len() && forall|i: int|
            0 <= i < exprs_view(a@).len() ==> #[trigger] expr_eq(exprs_view(a@)[i], exprs_view(b@)[i])),
    decreases parent, 0nat,
{
    proof {
        lemma_exprs_view(a@);
        lemma_exprs_view(b@);
    }
    if a.len() != b.len() {
        return false;
    }
    let n = a.len();
    let mut i: usize = 0;
    while i < n
        invariant
            n == a@.len() == b@.len(),
            i <= n,
            decreases_to!(parent => exprs_view(a@)),
            exprs_view(a@).len() == n,
            exprs_view(b@).len() == n,
            forall|j: int| 0 <= j < n ==> #[trigger] exprs_view(a@)[j] == a@[j]@,
            forall|j: int| 0 <= j < n ==> #[trigger] exprs_view(b@)[j] == b@[j]@,
            forall|j: int| 0 <= j < i ==> #[trigger] expr_eq(exprs_view(a@)[j], exprs_view(b@)[j]),
        decreases n - i,
    {
        proof {
            assert(decreases_to!(exprs_view(a@) => exprs_view(a@)[i as int]));
        }
        if !same_expression(&a[i], &b[i]) {
            assert(!expr_eq(exprs_view(a@)[i as int], exprs_view(b@)[i as int]));
            return false;
        }
        i = i + 1;
    }
    true
}

impl PartialEq for Expression {
    fn eq(&self, other: &Self) -> (res: bool) {
        same_expression(self, other)
    }
}

impl vstd::std_specs::cmp::PartialEqSpecImpl for Expression {
    open spec fn obeys_eq_spec() -> bool {
        true
    }

    open spec fn eq_spec(&self, other: &Expression) -> bool {
        expr_eq(self@, other@)
    }
}

impl PartialEq for CallExpression {
    fn eq(&self, other: &Self) -> (res: bool) {
        self.callee == other.callee && same_arguments_plain(&self.arguments, &other.arguments)
    }
}

impl vstd::std_specs::cmp::PartialEqSpecImpl for CallExpression {
    open spec fn obeys_eq_spec() -> bool {
        true
    }

    open spec fn eq_spec(&self, other: &CallExpression) -> bool {
        self.callee@ == other.callee@ && exprs_view(self.arguments@).len() == exprs_view(
            other.arguments@,
        ).len() && forall|i: int|
            0 <= i < exprs_view(self.arguments@).len() ==> #[trigger] expr_eq(
                exprs_view(self.arguments@)[i],
                exprs_view(other.arguments@)[i],
            )
    }
}

fn same_arguments_plain(a: &Vec<Expression>, b: &Vec<Expression>) -> (res: bool)
    ensures
        res == (exprs_view(a@).len() == exprs_view(b@).len() && forall|i: int|
            0 <= i < exprs_view(a@).len() ==> #[trigger] expr_eq(exprs_view(a@)[i], exprs_view(b@)[i])),
{
    proof {
        lemma_exprs_view(a@);
        lemma_exprs_view(b@);
    }
    if a.len() != b.len() {
        return false;
    }
    let n = a.len();
    let mut i: usize = 0;
    while i < n
        invariant
            n == a@.len() == b@.len(),
            i <= n,
            exprs_view(a@).len() == n,
            exprs_view(b@).len() == n,
            forall|j: int| 0 <= j < n ==> #[trigger] exprs_view(a@)[j] == a@[j]@,
            forall|j: int| 0 <= j < n ==> #[trigger] exprs_view(b@)[j] == b@[j]@,
            forall|j: int| 0 <= j < i ==> #[trigger] expr_eq(exprs_view(a@)[j], exprs_view(b@)[j]),
        decreases n - i,
    {
        if !same_expression(&a[i], &b[i]) {
            assert(!expr_eq(exprs_view(a@)[i as int], exprs_view(b@)[i as int]));
            return false;
        }
        i = i + 1;
    }
    true
}

} // verus!
