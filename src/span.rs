use crate::metrics::Metrics;
use crate::text::push_str;
use crate::position::{can_consume, can_step, consume, pos_le, pos_lt, pos_order, step, Position};
use vstd::prelude::*;

verus! {

/// Span in a source file: a range of characters between two cursor positions.
///
/// `start` is the position of the first character, `last` the position of the
/// last character, and `end` the position directly following the span (not
/// part of it). An empty span has `start == last == end`.
#[derive(Clone, Copy, PartialEq, Eq, Structural, Hash, Default, Debug)]
pub struct Span {
    start: Position,
    last: Position,
    end: Position,
}

/// The `(start, last, end)` of a span that `Span::new` makes of these positions:
/// a span whose `last` or `end` is before `start` collapses to `[start, start]`.
pub open spec fn normalized(start: Position, last: Position, end: Position) -> (Position, Position, Position) {
    if pos_lt(end, start) || pos_lt(last, start) {
        (start, start, start)
    } else {
        (start, last, end)
    }
}

/// The positions are accepted by `Span::new`: once normalised, a non-empty
/// span has its last position strictly before its end.
pub open spec fn valid_span_parts(start: Position, last: Position, end: Position) -> bool {
    let n = normalized(start, last, end);
    n.2 == n.0 || pos_lt(n.1, n.2)
}

/// Span ordering: equal spans are equal; spans with the same start and last
/// position are ordered by their end; otherwise a span is greater than the
/// spans it includes, and spans are ordered by their start.
pub open spec fn span_order(a: Span, b: Span) -> core::cmp::Ordering {
    if a == b {
        core::cmp::Ordering::Equal
    } else if a.start() == b.start() && a.last() == b.last() {
        pos_order(a.end(), b.end())
    } else if span_includes(a, b) {
        core::cmp::Ordering::Greater
    } else if span_includes(b, a) {
        core::cmp::Ordering::Less
    } else if pos_lt(a.start(), b.start()) {
        core::cmp::Ordering::Less
    } else if a.start() == b.start() {
        core::cmp::Ordering::Equal
    } else {
        core::cmp::Ordering::Greater
    }
}

/// The two spans share a position: one starts inside the other.
pub open spec fn span_overlaps(a: Span, b: Span) -> bool {
    (pos_le(a.start(), b.start()) && pos_lt(b.start(), a.end()))
    || (pos_le(b.start(), a.start()) && pos_lt(a.start(), b.end()))
}

/// `b` is included in `a`.
pub open spec fn span_includes(a: Span, b: Span) -> bool {
    pos_le(a.start(), b.start()) && pos_le(b.last(), a.last())
}

/// The earlier of two positions.
pub open spec fn pos_min(a: Position, b: Position) -> Position {
    if pos_le(a, b) {
        a
    } else {
        b
    }
}

/// The later of two positions.
pub open spec fn pos_max(a: Position, b: Position) -> Position {
    if pos_le(a, b) {
        b
    } else {
        a
    }
}

impl PartialOrd for Span {
    fn partial_cmp(&self, other: &Span) -> (r: Option<core::cmp::Ordering>)
        ensures
            r == Some(span_order(*self, *other)),
    {
        if *self == *other {
            Some(core::cmp::Ordering::Equal)
        } else if self.start == other.start && self.last == other.last {
            self.end.partial_cmp(&other.end)
        } else if self.includes(other) {
            Some(core::cmp::Ordering::Greater)
        } else if other.includes(self) {
            Some(core::cmp::Ordering::Less)
        } else {
            self.start.partial_cmp(&other.start)
        }
    }
}

impl vstd::std_specs::cmp::PartialOrdSpecImpl for Span {
    open spec fn obeys_partial_cmp_spec() -> bool {
        true
    }

    open spec fn partial_cmp_spec(&self, other: &Span) -> Option<core::cmp::Ordering> {
        Some(span_order(*self, *other))
    }
}

impl From<Position> for Span {
    fn from(pos: Position) -> (r: Span)
        ensures
            r.start() == pos,
            r.last() == pos,
            r.end() == pos,
    {
        Span { start: pos, last: pos, end: pos }
    }
}

impl vstd::std_specs::convert::FromSpecImpl<Position> for Span {
    open spec fn obeys_from_spec() -> bool {
        true
    }

    open spec fn from_spec(pos: Position) -> Span {
        Span::from_parts(pos, pos, pos)
    }
}

impl Span {
    /// The span made of these three positions, as they are.
    pub closed spec fn from_parts(start: Position, last: Position, end: Position) -> Span {
        Span { start, last, end }
    }

    pub closed spec fn spec_start(&self) -> Position {
        self.start
    }

    pub closed spec fn spec_last(&self) -> Position {
        self.last
    }

    pub closed spec fn spec_end(&self) -> Position {
        self.end
    }

    /// Create a new span from three positions.
    ///
    /// If `end` or `last` is before `start`, the span is `[start, start]`.
    /// A non-empty span must have its `last` position strictly before `end`.
    pub fn new(start: Position, last: Position, end: Position) -> (r: Span)
        requires
            valid_span_parts(start, last, end),
        ensures
            (r.start(), r.last(), r.end()) == normalized(start, last, end),
    {
        if end < start || last < start {
            Span { start, last: start, end: start }
        } else {
            Span { start, last, end }
        }
    }

    /// The span of a whole text read from `(0, 0)`.
    pub fn of_string<M: Metrics>(str: &str, metrics: &M) -> (r: Span)
        requires
            can_consume(0, 0, str@, metrics),
        ensures
            r.start() == Position::new(0, 0),
            (r.end().line as int, r.end().column as int) == consume(0, 0, str@, metrics),
            str@.len() == 0 ==> r.last() == Position::new(0, 0),
            str@.len() > 0 ==> (r.last().line as int, r.last().column as int) == consume(
                0,
                0,
                str@.drop_last(),
                metrics,
            ),
    {
        let mut last = Position::new(0, 0);
        let mut end = Position::new(0, 0);
        let ghost s = str@;
        for c in it: str.chars()
            invariant
                it.seq() == s,
                0 <= it.index() <= s.len(),
                can_consume(0, 0, s, metrics),
                (end.line as int, end.column as int) == consume(0, 0, s.take(it.index() as int), metrics),
                it.index() == 0 ==> last == Position::new(0, 0),
                it.index() > 0 ==> (last.line as int, last.column as int) == consume(
                    0,
                    0,
                    s.take(it.index() - 1),
                    metrics,
                ),
        {
            proof {
                let i = it.index() as int;
                lemma_can_consume_prefix(0, 0, s, i + 1, metrics);
                assert(s.take(i + 1).drop_last() =~= s.take(i));
                assert(s.take(i + 1).last() == c);
            }
            last = end;
            end.shift(c, metrics);
            proof {
                let i = it.index() as int;
                assert(s.take(i + 1).drop_last() =~= s.take(i));
            }
        }
        proof {
            assert(s.take(s.len() as int) =~= s);
            if s.len() > 0 {
                assert(s.take(s.len() - 1) =~= s.drop_last());
            }
        }
        Span { start: Position::new(0, 0), last, end }
    }

    /// Return the position of the first character in the span.
    #[verifier::when_used_as_spec(spec_start)]
    pub fn start(&self) -> (r: Position)
        ensures
            r == self.start(),
    {
        self.start
    }

    /// Return the last position included in the span.
    #[verifier::when_used_as_spec(spec_last)]
    pub fn last(&self) -> (r: Position)
        ensures
            r == self.last(),
    {
        self.last
    }

    /// Return the position of the character directly following the span.
    #[verifier::when_used_as_spec(spec_end)]
    pub fn end(&self) -> (r: Position)
        ensures
            r == self.end(),
    {
        self.end
    }

    /// Checks if the span is empty.
    pub fn is_empty(&self) -> (r: bool)
        ensures
            r == (self.start() == self.end()),
    {
        self.start == self.end
    }

    /// Checks if two spans overlap.
    pub fn overlaps(&self, other: &Span) -> (r: bool)
        ensures
            r == span_overlaps(*self, *other),
    {
        (self.start <= other.start && self.end > other.start) || (other.start <= self.start
            && other.end > self.start)
    }

    /// Checks if the given span is included in this span.
    pub fn includes(&self, other: &Span) -> (r: bool)
        ensures
            r == span_includes(*self, *other),
    {
        self.start <= other.start && self.last >= other.last
    }

    /// The number of lines covered by the span (at least one).
    pub fn line_count(&self) -> (r: usize)
        requires
            self.start().line <= self.last().line,
            self.last().line - self.start().line < usize::MAX,
        ensures
            r == self.last().line - self.start().line + 1,
    {
        self.last.line - self.start.line + 1
    }

    /// Checks if the span includes the given line.
    pub fn includes_line(&self, line: usize) -> (r: bool)
        ensures
            r == (self.start().line <= line && line <= self.end().line),
    {
        line >= self.start.line && line <= self.end.line
    }

    /// Extends the span to include the next column.
    pub fn push_column(&mut self)
        requires
            old(self).end().column < usize::MAX,
        ensures
            final(self).start() == old(self).start(),
            final(self).last() == old(self).end(),
            final(self).end().line == old(self).end().line,
            final(self).end().column == old(self).end().column + 1,
    {
        self.last = self.end;
        self.end = self.end.next_column();
    }

    /// Extends the span to include the rest of the line: the end moves to the
    /// beginning of the next line.
    pub fn push_line(&mut self)
        requires
            old(self).end().line < usize::MAX,
        ensures
            final(self).start() == old(self).start(),
            final(self).last() == old(self).end(),
            final(self).end().line == old(self).end().line + 1,
            final(self).end().column == 0,
    {
        self.last = self.end;
        self.end = self.end.next_line();
    }

    /// Extend the span to include the given character, located at its `end`.
    pub fn push<M: Metrics>(&mut self, c: char, metrics: &M)
        requires
            can_step(old(self).end(), c, metrics),
        ensures
            final(self).start() == old(self).start(),
            final(self).last() == old(self).end(),
            (final(self).end().line as int, final(self).end().column as int) == step(
                old(self).end().line as int,
                old(self).end().column as int,
                c,
                metrics,
            ),
    {
        self.last = self.end;
        self.end = self.end.next(c, metrics);
    }

    /// Compute the union of two spans: the earliest start, and the `last` and
    /// `end` of whichever span finishes later.
    pub fn union(&self, other: Span) -> (r: Span)
        ensures
            r.start() == pos_min(self.start(), other.start()),
            (pos_lt(self.last(), other.last()) && pos_lt(self.end(), other.end())) ==> (r.last()
                == other.last() && r.end() == other.end()),
            !(pos_lt(self.last(), other.last()) && pos_lt(self.end(), other.end())) ==> (r.last()
                == self.last() && r.end() == self.end()),
    {
        let start = if self.start <= other.start {
            self.start
        } else {
            other.start
        };
        if other.last > self.last && other.end > self.end {
            Span { start, last: other.last, end: other.end }
        } else {
            Span { start, last: self.last, end: self.end }
        }
    }

    /// Computes the intersection of the two spans: it starts at the latest
    /// start and, where the spans overlap, finishes with `other`; where they
    /// do not overlap it is the empty span at the latest start.
    pub fn inter(&self, other: Span) -> (r: Span)
        requires
            span_overlaps(*self, other) ==> valid_span_parts(
                pos_max(self.start(), other.start()),
                other.last(),
                other.end(),
            ),
        ensures
            span_overlaps(*self, other) ==> (r.start(), r.last(), r.end()) == normalized(
                pos_max(self.start(), other.start()),
                other.last(),
                other.end(),
            ),
            !span_overlaps(*self, other) ==> r.start() == pos_max(self.start(), other.start())
                && r.last() == r.start() && r.end() == r.start(),
    {
        let start = if self.start <= other.start {
            other.start
        } else {
            self.start
        };
        if self.overlaps(&other) {
            Self::new(start, other.last, other.end)
        } else {
            Span { start, last: start, end: start }
        }
    }

    /// Extend the span to the end of the given span, where that one finishes
    /// later (in place form of `union`, keeping the start).
    pub fn append(&mut self, other: Span)
        ensures
            final(self).start() == old(self).start(),
            (pos_lt(old(self).last(), other.last()) && pos_lt(old(self).end(), other.end())) ==> (
            final(self).last() == other.last() && final(self).end() == other.end()),
            !(pos_lt(old(self).last(), other.last()) && pos_lt(old(self).end(), other.end())) ==> (
            final(self).last() == old(self).last() && final(self).end() == old(self).end()),
    {
        if other.last > self.last && other.end > self.end {
            self.last = other.last;
            self.end = other.end;
        }
    }

    /// Return the next span, `[end, end]`.
    pub fn next(&self) -> (r: Span)
        ensures
            r.start() == self.end(),
            r.last() == self.end(),
            r.end() == self.end(),
    {
        Span { start: self.end, last: self.end, end: self.end }
    }

    /// Set the span to `[end, end]`.
    pub fn clear(&mut self)
        ensures
            final(self).start() == old(self).end(),
            final(self).last() == old(self).end(),
            final(self).end() == old(self).end(),
    {
        self.start = self.end;
        self.last = self.end;
    }

    /// Return the span aligned on line boundaries: it starts at column `0` of
    /// its first line, and ends at the end of the line of its `end`.
    pub fn aligned(&self) -> (r: Span)
        ensures
            r.start() == Position::new(self.start().line, 0),
            r.last().line == self.end().line,
            r.last().column == usize::MAX - 1,
            r.end().line == self.end().line,
            r.end().column == usize::MAX,
    {
        Span {
            start: Position { line: self.start.line, column: 0 },
            last: Position { line: self.end.line, column: usize::MAX - 1 },
            end: Position { line: self.end.line, column: usize::MAX },
        }
    }
}

impl Span {
    /// The span as text: its start where it holds one position, and
    /// `from S to E` otherwise, with both positions written as `L:C`.
    pub open spec fn display_text(&self) -> Seq<char> {
        if self.start() == self.last() {
            self.start().display_text()
        } else {
            "from "@ + self.start().debug_text() + " to "@ + self.end().debug_text()
        }
    }

    /// The span as text (see `display_text`).
    pub fn to_string(&self) -> (r: String)
        ensures
            r@ == self.display_text(),
    {
        if self.start == self.last {
            self.start.to_string()
        } else {
            let mut s = String::new();
            push_str(&mut s, "from ");
            let a = self.start.to_debug_string();
            push_str(&mut s, a.as_str());
            push_str(&mut s, " to ");
            let b = self.end.to_debug_string();
            push_str(&mut s, b.as_str());
            proof {
                assert(s@ =~= self.display_text());
            }
            s
        }
    }
}

/// Span comparison is antisymmetric: a span is equal to another exactly when
/// they are the same span, and `a < b` exactly when `b > a`; so exactly one of
/// `a < b`, `a == b` and `a > b` holds. A span is greater than every other span
/// it includes, except where the two include each other (same start and
/// last position): then the one with the later end is greater.
pub proof fn lemma_order_antisymmetric(a: Span, b: Span)
    ensures
        (span_order(a, b) == core::cmp::Ordering::Equal) <==> a == b,
        (span_order(a, b) == core::cmp::Ordering::Less) <==> (span_order(b, a)
            == core::cmp::Ordering::Greater),
        (span_order(a, b) == core::cmp::Ordering::Greater) <==> (span_order(b, a)
            == core::cmp::Ordering::Less),
        span_includes(a, b) && !span_includes(b, a) ==> span_order(a, b) == core::cmp::Ordering::Greater,
        span_includes(a, b) && span_includes(b, a) && a != b ==> (span_order(a, b)
            == core::cmp::Ordering::Greater <==> pos_lt(b.end(), a.end())),
{
    if a.start() == b.start() && a.last() == b.last() && a.end() == b.end() {
        assert(a == b);
    }
}

/// Spans in span order are ordered by their last position, then by their
/// start taken backwards, then by their end.
pub open spec fn span_key_order(a: Span, b: Span) -> core::cmp::Ordering {
    if a.last() != b.last() {
        pos_order(a.last(), b.last())
    } else if a.start() != b.start() {
        pos_order(b.start(), a.start())
    } else {
        pos_order(a.end(), b.end())
    }
}

/// Span order is the lexicographic order on (last, reversed start, end), for
/// spans whose start is not after their last position.
pub proof fn lemma_span_order_key(a: Span, b: Span)
    requires
        pos_le(a.start(), a.last()),
        pos_le(b.start(), b.last()),
    ensures
        span_order(a, b) == span_key_order(a, b),
{
    if a.start() == b.start() && a.last() == b.last() && a.end() == b.end() {
        assert(a == b);
    }
}

/// Span order is transitive, for spans whose start is not after their last
/// position.
pub proof fn lemma_order_transitive(a: Span, b: Span, c: Span)
    requires
        pos_le(a.start(), a.last()),
        pos_le(b.start(), b.last()),
        pos_le(c.start(), c.last()),
        span_order(a, b) != core::cmp::Ordering::Greater,
        span_order(b, c) != core::cmp::Ordering::Greater,
    ensures
        span_order(a, c) != core::cmp::Ordering::Greater,
{
    lemma_span_order_key(a, b);
    lemma_span_order_key(b, c);
    lemma_span_order_key(a, c);
}

/// Overlapping is symmetric.
pub proof fn lemma_overlaps_symmetric(a: Span, b: Span)
    ensures
        span_overlaps(a, b) == span_overlaps(b, a),
{
}

/// What can be read of a text can be read of each of its prefixes.
pub proof fn lemma_can_consume_prefix<M: Metrics>(line: int, column: int, s: Seq<char>, n: int, m: &M)
    requires
        can_consume(line, column, s, m),
        0 <= n <= s.len(),
    ensures
        can_consume(line, column, s.take(n), m),
        n < s.len() ==> can_step(
            Position::new(consume(line, column, s.take(n), m).0 as usize, consume(line, column, s.take(n), m).1 as usize),
            s[n],
            m,
        ),
    decreases s.len(),
{
    if n == s.len() {
        assert(s.take(n) =~= s);
        if s.len() > 0 {
        }
    } else {
        lemma_can_consume_prefix(line, column, s.drop_last(), n, m);
        assert(s.drop_last().take(n) =~= s.take(n));
        if n == s.len() - 1 {
            assert(s.drop_last() =~= s.take(n));
            lemma_can_consume_bounds(line, column, s.take(n), m);
        } else {
            assert(s.drop_last()[n] == s[n]);
        }
    }
}

/// The cursor reached while reading a readable text fits in `usize`.
proof fn lemma_can_consume_bounds<M: Metrics>(line: int, column: int, s: Seq<char>, m: &M)
    requires
        can_consume(line, column, s, m),
    ensures
        0 <= consume(line, column, s, m).0 <= usize::MAX,
        0 <= consume(line, column, s, m).1 <= usize::MAX,
    decreases s.len(),
{
    if s.len() > 0 {
        lemma_can_consume_bounds(line, column, s.drop_last(), m);
        let p = consume(line, column, s.drop_last(), m);
        lemma_step_nonneg(p.0, p.1, s.last(), m);
    }
}

proof fn lemma_step_nonneg<M: Metrics>(line: int, column: int, c: char, m: &M)
    requires
        line >= 0,
        column >= 0,
        c == '\t' ==> m.tab_stop_of() > 0,
    ensures
        step(line, column, c, m).0 >= 0,
        step(line, column, c, m).1 >= 0,
{
    if c == '\t' {
        let ts = m.tab_stop_of() as int;
        vstd::arithmetic::div_mod::lemma_div_pos_is_pos(column, ts);
        vstd::arithmetic::mul::lemma_mul_nonnegative(column / ts, ts);
    }
}

} // verus!
