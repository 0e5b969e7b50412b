use vstd::prelude::*;

verus! {

/// A range of byte offsets into a source text: where a token or expression
/// starts, and its end as the tokenizer reports it (see `lex_step`).
#[derive(Debug, Default, Clone, Copy, PartialEq, Eq, Structural)]
pub struct Span {
    pub start: usize,
    pub end: usize,
}

pub open spec fn min_usize(a: usize, b: usize) -> usize {
    if a <= b { a } else { b }
}

pub open spec fn max_usize(a: usize, b: usize) -> usize {
    if a >= b { a } else { b }
}

impl Span {
    /// The span from `start` to `end`.
    pub open spec fn mk(start: usize, end: usize) -> Span {
        Span { start, end }
    }

    /// The smallest span that covers both spans.
    pub open spec fn spec_join(self, other: Span) -> Span {
        Span { start: min_usize(self.start, other.start), end: max_usize(self.end, other.end) }
    }

    pub fn new(start: usize, end: usize) -> (res: Span)
        ensures
            res == Span::mk(start, end),
    {
        Span { start, end }
    }

    pub fn start(&self) -> (res: usize)
        ensures
            res == self.start,
    {
        self.start
    }

    pub fn end(&self) -> (res: usize)
        ensures
            res == self.end,
    {
        self.end
    }

    /// The same span with its end moved to `end`.
    pub fn with_end(self, end: usize) -> (res: Span)
        ensures
            res == Span::mk(self.start, end),
    {
        let mut s = self;
        s.end = end;
        s
    }

    /// The smallest span that covers both `self` and `other`.
    pub fn join(self, other: Span) -> (res: Span)
        ensures
            res == self.spec_join(other),
    {
        let start = if self.start <= other.start { self.start } else { other.start };
        let end = if self.end >= other.end { self.end } else { other.end };
        Span { start, end }
    }
}

/// Joining spans does not depend on their order.
pub proof fn lemma_join_commutative(a: Span, b: Span)
    ensures
        a.spec_join(b) == b.spec_join(a),
{
}

/// Joining spans is associative, so a chain of joins covers the same range
/// however it is grouped.
pub proof fn lemma_join_associative(a: Span, b: Span, c: Span)
    ensures
        a.spec_join(b).spec_join(c) == a.spec_join(b.spec_join(c)),
{
}

/// Joining a span with itself gives the span back.
pub proof fn lemma_join_idempotent(a: Span)
    ensures
        a.spec_join(a) == a,
{
}

/// The joined span starts no later and ends no earlier than either operand.
pub proof fn lemma_join_covers(a: Span, b: Span)
    ensures
        a.spec_join(b).start <= a.start,
        a.spec_join(b).start <= b.start,
        a.spec_join(b).end >= a.end,
        a.spec_join(b).end >= b.end,
{
}

} // verus!
