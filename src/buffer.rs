use crate::metrics::Metrics;
use crate::position::{can_step, pos_le, pos_lt, step, Position};
use crate::span::Span;
use vstd::prelude::*;
use vstd::std_specs::iter::IteratorSpec;

verus! {

/// Reading `data` from index `i` with the cursor at `cursor`: the index of
/// the character that stands at `pos`, where one does.
pub open spec fn find_from<M: Metrics>(data: Seq<char>, i: int, cursor: Position, pos: Position, m: &M) -> Option<int>
    decreases data.len() - i,
{
    if !pos_lt(cursor, pos) {
        if cursor == pos && 0 <= i < data.len() {
            Some(i)
        } else {
            None
        }
    } else if i < 0 || i >= data.len() || !can_step(cursor, data[i], m) {
        None
    } else {
        let n = step(cursor.line as int, cursor.column as int, data[i], m);
        find_from(data, i + 1, Position { line: n.0 as usize, column: n.1 as usize }, pos, m)
    }
}

/// Lazy buffer over a fallible stream of characters, indexed by character
/// position. Characters are read from the stream a line at a time, only when
/// needed.
#[verifier::reject_recursive_types(E)]
#[verifier::reject_recursive_types(I)]
#[verifier::reject_recursive_types(M)]
pub struct SourceBuffer<E, I: Iterator<Item = Result<char, E>>, M: Metrics> {
    input: I,
    error: Option<E>,
    done: bool,
    data: Vec<char>,
    lines: Vec<usize>,
    span: Span,
    metrics: M,
}

impl<E, I: Iterator<Item = Result<char, E>>, M: Metrics> SourceBuffer<E, I, M> {
    /// The characters read so far.
    pub closed spec fn data(&self) -> Seq<char> {
        self.data@
    }

    /// The index, in `data`, of the first character of each line read so far.
    pub closed spec fn line_indices(&self) -> Seq<usize> {
        self.lines@
    }

    pub closed spec fn spec_span(&self) -> Span {
        self.span
    }

    pub closed spec fn spec_metrics(&self) -> M {
        self.metrics
    }

    /// The stream can be read no further.
    pub closed spec fn is_done(&self) -> bool {
        self.done
    }

    /// An error of the stream is held, not yet returned.
    pub closed spec fn holds_error(&self) -> bool {
        self.error is Some
    }

    /// How much of the stream remains to be read.
    pub closed spec fn pending(&self) -> nat {
        if self.done {
            0
        } else {
            self.input.decrease()->0 + 1
        }
    }

    pub closed spec fn wf(&self) -> bool {
        &&& self.input.obeys_prophetic_iter_laws()
        &&& self.input.decrease() is Some
        &&& self.span.start().line <= self.span.end().line
        &&& self.lines@.len() == self.span.end().line - self.span.start().line + 1
        &&& self.lines@[0] == 0
        &&& forall|k: int| 0 <= k < self.lines@.len() ==> #[trigger] self.lines@[k] <= self.data@.len()
        &&& self.error is Some ==> self.done
    }

    /// Create a new empty buffer over `input`, starting at `position`.
    pub fn new(input: I, position: Position, metrics: M) -> (r: Self)
        requires
            input.obeys_prophetic_iter_laws(),
            input.decrease() is Some,
        ensures
            r.wf(),
            r.data() == Seq::<char>::empty(),
            r.spec_span().start() == position,
            r.spec_span().end() == position,
            r.spec_metrics() == metrics,
    {
        SourceBuffer {
            input,
            error: None,
            done: false,
            data: Vec::new(),
            lines: vec![0],
            span: Span::from(position),
            metrics,
        }
    }

    /// Get the metrics used by the buffer to lay out the characters.
    pub fn metrics(&self) -> (r: &M)
        ensures
            *r == self.spec_metrics(),
    {
        &self.metrics
    }

    /// Get the span of the buffered characters.
    pub fn span(&self) -> (r: Span)
        ensures
            r == self.spec_span(),
    {
        self.span
    }

    /// Read the next line of the stream into the buffer. Returns `true` if a
    /// whole line was added; `false` once the stream is done, failed, or its
    /// next position would leave `usize`.
    fn read_line(&mut self) -> (r: bool)
        requires
            old(self).wf(),
        ensures
            final(self).wf(),
            final(self).spec_span().start() == old(self).spec_span().start(),
            final(self).spec_metrics() == old(self).spec_metrics(),
            old(self).data().is_prefix_of(final(self).data()),
            old(self).line_indices().is_prefix_of(final(self).line_indices()),
            r ==> final(self).pending() < old(self).pending(),
            !r ==> final(self).is_done(),
            final(self).pending() <= old(self).pending(),
            final(self).data().len() > old(self).data().len() ==> final(self).pending() < old(self).pending(),
            old(self).holds_error() ==> final(self).holds_error(),
            pos_le(old(self).spec_span().end(), final(self).spec_span().end()),
            old(self).is_done() ==> *final(self) == *old(self),
    {
        if self.done {
            return false;
        }
        let line = self.span.end().line;
        let ghost data0 = self.data@;
        let ghost lines0 = self.lines@;
        let ghost d0 = self.input.decrease()->0;
        loop
            invariant
                self.wf(),
                !self.done,
                line == self.span.end().line,
                self.span.start() == old(self).spec_span().start(),
                self.metrics == old(self).spec_metrics(),
                data0.is_prefix_of(self.data@),
                data0 == old(self).data(),
                lines0 == old(self).line_indices(),
                self.lines@ == lines0,
                old(self).holds_error() ==> self.error is Some,
                self.input.decrease()->0 <= d0,
                self.data@.len() > data0.len() ==> self.input.decrease()->0 < d0,
                d0 + 1 == old(self).pending(),
                pos_le(old(self).spec_span().end(), self.span.end()),
            decreases self.input.decrease()->0,
        {
            match self.input.next() {
                Some(Ok(c)) => {
                    if !self.span.end().try_next(c, &self.metrics).is_some() {
                        self.done = true;
                        return false;
                    }
                    let ghost before = self.data@;
                    let ghost end0 = self.span.end();
                    proof {
                        assert(forall|k: int| 0 <= k < lines0.len() ==> #[trigger] lines0[k] <= before.len());
                        crate::position::lemma_step_monotonic(end0, c, &self.metrics);
                    }
                    self.data.push(c);
                    self.span.push(c, &self.metrics);
                    proof {
                        assert forall|k: int| 0 <= k < self.lines@.len() implies #[trigger] self.lines@[k]
                            <= self.data@.len() by {
                            assert(lines0[k] <= before.len());
                        }
                        assert(data0.is_prefix_of(self.data@)) by {
                            assert(self.data@.take(data0.len() as int) =~= data0);
                        }
                    }
                    if self.span.end().line != line {
                        self.lines.push(self.data.len());
                        proof {
                            assert(lines0.is_prefix_of(self.lines@)) by {
                                assert(self.lines@.take(lines0.len() as int) =~= lines0);
                            }
                        }
                        return true;
                    }
                },
                Some(Err(e)) => {
                    self.error = Some(e);
                    self.done = true;
                    return false;
                },
                None => {
                    self.done = true;
                    return false;
                },
            }
        }
    }

    /// Take the held error of the stream, if any.
    fn take_error(&mut self) -> (r: Option<E>)
        requires
            old(self).wf(),
        ensures
            final(self).wf(),
            final(self).data() == old(self).data(),
            final(self).line_indices() == old(self).line_indices(),
            final(self).spec_span() == old(self).spec_span(),
            final(self).spec_metrics() == old(self).spec_metrics(),
            final(self).is_done() == old(self).is_done(),
            final(self).pending() == old(self).pending(),
            !final(self).holds_error(),
            r is Some <==> old(self).holds_error(),
            !old(self).holds_error() ==> *final(self) == *old(self),
    {
        let mut error = None;
        std::mem::swap(&mut error, &mut self.error);
        error
    }

    /// Get the index in the buffer of the character at `pos`, reading the
    /// stream until the buffer reaches past `pos`. `None` for a position
    /// before the buffer's start, past the end of the stream, or past the end
    /// of its line; the held error of the stream where it failed before `pos`.
    pub fn index_at(&mut self, pos: Position) -> (r: Result<Option<usize>, E>)
        requires
            old(self).wf(),
        ensures
            final(self).wf(),
            final(self).spec_span().start() == old(self).spec_span().start(),
            final(self).spec_metrics() == old(self).spec_metrics(),
            old(self).data().is_prefix_of(final(self).data()),
            final(self).pending() <= old(self).pending(),
            pos_le(old(self).spec_span().end(), final(self).spec_span().end()),
            pos_lt(pos, old(self).spec_span().start()) ==> r == Ok::<Option<usize>, E>(None) && *final(self)
                == *old(self),
            r is Err ==> pos_le(final(self).spec_span().end(), pos) && final(self).is_done()
                && !final(self).holds_error(),
            r == Ok::<Option<usize>, E>(None) && !pos_lt(pos, old(self).spec_span().start()) && pos_le(
                final(self).spec_span().end(),
                pos,
            ) ==> final(self).is_done() && !final(self).holds_error(),
            old(self).is_done() && !old(self).holds_error() ==> !(r is Err),
            r matches Ok(Some(i)) ==> i < final(self).data().len() && find_from(
                final(self).data(),
                final(self).line_indices()[pos.line - final(self).spec_span().start().line] as int,
                Position { line: pos.line, column: 0 },
                pos,
                &final(self).spec_metrics(),
            ) == Some(i as int),
            r matches Ok(None) ==> pos_lt(pos, old(self).spec_span().start()) || pos_le(
                final(self).spec_span().end(),
                pos,
            ) || find_from(
                final(self).data(),
                final(self).line_indices()[pos.line - final(self).spec_span().start().line] as int,
                Position { line: pos.line, column: 0 },
                pos,
                &final(self).spec_metrics(),
            ) is None,
    {
        if pos < self.span.start() {
            return Ok(None);
        }
        loop
            invariant
                self.wf(),
                !pos_lt(pos, self.span.start()),
                self.span.start() == old(self).spec_span().start(),
                self.metrics == old(self).spec_metrics(),
                old(self).data().is_prefix_of(self.data@),
                self.pending() <= old(self).pending(),
                pos_le(old(self).spec_span().end(), self.span.end()),
                old(self).is_done() ==> *self == *old(self),
            ensures
                self.wf(),
                !pos_lt(pos, self.span.start()),
                self.span.start() == old(self).spec_span().start(),
                self.metrics == old(self).spec_metrics(),
                old(self).data().is_prefix_of(self.data@),
                self.pending() <= old(self).pending(),
                pos_le(old(self).spec_span().end(), self.span.end()),
                old(self).is_done() ==> *self == *old(self),
                pos_lt(pos, self.span.end()) || self.done,
            decreases self.pending(),
        {
            if !(pos >= self.span.end()) {
                break;
            }
            if !self.read_line() {
                break;
            }
        }
        if pos >= self.span.end() {
            match self.take_error() {
                Some(e) => Err(e),
                None => Ok(None),
            }
        } else {
            let relative_line = pos.line - self.span.start().line;
            let mut i = self.lines[relative_line];
            let mut cursor = Position::new(pos.line, 0);
            let ghost start_i = i as int;
            loop
                invariant
                    self.wf(),
                    self.span.start() == old(self).spec_span().start(),
                    self.metrics == old(self).spec_metrics(),
                    old(self).data().is_prefix_of(self.data@),
                    self.pending() <= old(self).pending(),
                    pos_le(old(self).spec_span().end(), self.span.end()),
                    old(self).is_done() ==> *self == *old(self),
                    !pos_le(self.span.end(), pos),
                    !pos_lt(pos, self.span.start()),
                    relative_line == pos.line - self.span.start().line,
                    relative_line < self.lines@.len(),
                    start_i == self.lines@[relative_line as int],
                    i <= self.data@.len(),
                    find_from(self.data@, i as int, cursor, pos, &self.metrics) == find_from(
                        self.data@,
                        start_i,
                        Position { line: pos.line, column: 0 },
                        pos,
                        &self.metrics,
                    ),
                ensures
                    self.wf(),
                    self.span.start() == old(self).spec_span().start(),
                    self.metrics == old(self).spec_metrics(),
                    old(self).data().is_prefix_of(self.data@),
                    self.pending() <= old(self).pending(),
                    pos_le(old(self).spec_span().end(), self.span.end()),
                    old(self).is_done() ==> *self == *old(self),
                    !pos_le(self.span.end(), pos),
                    !pos_lt(pos, self.span.start()),
                    relative_line == pos.line - self.span.start().line,
                    start_i == self.lines@[relative_line as int],
                    i <= self.data@.len(),
                    !pos_lt(cursor, pos),
                    find_from(self.data@, i as int, cursor, pos, &self.metrics) == find_from(
                        self.data@,
                        start_i,
                        Position { line: pos.line, column: 0 },
                        pos,
                        &self.metrics,
                    ),
                decreases self.data@.len() - i,
            {
                if !(cursor < pos) {
                    break;
                }
                if i >= self.data.len() {
                    return Ok(None);
                }
                match cursor.try_next(self.data[i], &self.metrics) {
                    Some(next) => {
                        proof {
                            assert(Position { line: next.line as int as usize, column: next.column as int as usize } == next);
                        }
                        cursor = next;
                        i = i + 1;
                    },
                    None => {
                        return Ok(None);
                    },
                }
            }
            proof {
                assert(!pos_lt(cursor, pos));
                assert(find_from(self.data@, i as int, cursor, pos, &self.metrics) == if cursor == pos && i
                    < self.data@.len() {
                    Some(i as int)
                } else {
                    None
                });
            }
            if cursor == pos && i < self.data.len() {
                Ok(Some(i))
            } else {
                Ok(None)
            }
        }
    }
}


impl<E, I: Iterator<Item = Result<char, E>>, M: Metrics> SourceBuffer<E, I, M> {
    /// Get the character at index `i` of the buffer, reading the stream until
    /// the buffer holds it. `None` where the stream ends first; the held error
    /// of the stream where it failed first.
    pub fn get(&mut self, i: usize) -> (r: Result<Option<char>, E>)
        requires
            old(self).wf(),
        ensures
            final(self).wf(),
            final(self).spec_span().start() == old(self).spec_span().start(),
            final(self).spec_metrics() == old(self).spec_metrics(),
            old(self).data().is_prefix_of(final(self).data()),
            final(self).pending() <= old(self).pending(),
            i < old(self).data().len() ==> *final(self) == *old(self),
            r matches Ok(Some(c)) ==> i < final(self).data().len() && c == final(self).data()[i as int] && i
                < usize::MAX,
            r matches Ok(Some(_)) ==> i < old(self).data().len() || final(self).pending() < old(self).pending(),
            r matches Ok(None) ==> i >= final(self).data().len() && final(self).is_done()
                && !final(self).holds_error(),
            r is Err ==> i >= final(self).data().len() && final(self).is_done() && !final(self).holds_error(),
            i < final(self).data().len() ==> r == Ok::<Option<char>, E>(Some(final(self).data()[i as int])),
            pos_le(old(self).spec_span().end(), final(self).spec_span().end()),
            old(self).is_done() && !old(self).holds_error() ==> !(r is Err) && *final(self) == *old(self),
    {
        loop
            invariant
                self.wf(),
                self.span.start() == old(self).spec_span().start(),
                self.metrics == old(self).spec_metrics(),
                old(self).data().is_prefix_of(self.data@),
                self.pending() <= old(self).pending(),
                i < old(self).data().len() ==> *self == *old(self),
                self.data@.len() > old(self).data().len() ==> self.pending() < old(self).pending(),
                pos_le(old(self).spec_span().end(), self.span.end()),
                old(self).is_done() ==> *self == *old(self),
            ensures
                self.wf(),
                self.span.start() == old(self).spec_span().start(),
                self.metrics == old(self).spec_metrics(),
                old(self).data().is_prefix_of(self.data@),
                self.pending() <= old(self).pending(),
                i < old(self).data().len() ==> *self == *old(self),
                self.data@.len() > old(self).data().len() ==> self.pending() < old(self).pending(),
                pos_le(old(self).spec_span().end(), self.span.end()),
                old(self).is_done() ==> *self == *old(self),
                i < self.data@.len() || self.done,
            decreases self.pending(),
        {
            if i < self.data.len() {
                break;
            }
            if !self.read_line() {
                break;
            }
            proof {
                assert(self.data@.len() >= old(self).data().len());
            }
        }
        if i >= self.data.len() {
            match self.take_error() {
                Some(e) => Err(e),
                None => Ok(None),
            }
        } else {
            let n = self.data.len();
            Ok(Some(self.data[i]))
        }
    }

    /// Get the character at `pos`, reading the stream until the buffer holds
    /// it (see `index_at`).
    pub fn at(&mut self, pos: Position) -> (r: Result<Option<char>, E>)
        requires
            old(self).wf(),
        ensures
            final(self).wf(),
            final(self).spec_span().start() == old(self).spec_span().start(),
            old(self).data().is_prefix_of(final(self).data()),
            r matches Ok(Some(c)) ==> exists|i: int|
                0 <= i < final(self).data().len() && c == final(self).data()[i] && find_from(
                    final(self).data(),
                    final(self).line_indices()[pos.line - final(self).spec_span().start().line] as int,
                    Position { line: pos.line, column: 0 },
                    pos,
                    &final(self).spec_metrics(),
                ) == Some(i),
            pos_lt(pos, old(self).spec_span().start()) ==> r == Ok::<Option<char>, E>(None) && *final(self)
                == *old(self),
            !pos_lt(pos, old(self).spec_span().start()) && pos_lt(pos, final(self).spec_span().end()) && find_from(
                final(self).data(),
                final(self).line_indices()[pos.line - final(self).spec_span().start().line] as int,
                Position { line: pos.line, column: 0 },
                pos,
                &final(self).spec_metrics(),
            ) is Some ==> r == Ok::<Option<char>, E>(Some(final(self).data()[find_from(
                final(self).data(),
                final(self).line_indices()[pos.line - final(self).spec_span().start().line] as int,
                Position { line: pos.line, column: 0 },
                pos,
                &final(self).spec_metrics(),
            )->0])),
            r == Ok::<Option<char>, E>(None) ==> pos_lt(pos, old(self).spec_span().start()) || (pos_le(
                final(self).spec_span().end(),
                pos,
            ) && final(self).is_done() && !final(self).holds_error()) || find_from(
                final(self).data(),
                final(self).line_indices()[pos.line - final(self).spec_span().start().line] as int,
                Position { line: pos.line, column: 0 },
                pos,
                &final(self).spec_metrics(),
            ) is None,
            r is Err ==> pos_le(final(self).spec_span().end(), pos) && final(self).is_done()
                && !final(self).holds_error(),
            old(self).is_done() && !old(self).holds_error() ==> !(r is Err),
            pos_le(old(self).spec_span().end(), final(self).spec_span().end()),
    {
        match self.index_at(pos) {
            Ok(Some(i)) => {
                let ghost mid = *self;
                let r = self.get(i);
                proof {
                    assert(*self == mid);
                    if let Ok(Some(c)) = r {
                        assert(mid.data()[i as int] == self.data@[i as int]);
                        assert(0 <= i < self.data@.len() && c == self.data@[i as int]);
                    }
                }
                r
            },
            Ok(None) => Ok(None),
            Err(e) => Err(e),
        }
    }

    /// An iterator over the characters of the buffer from its start, reading
    /// the stream as it goes.
    pub fn iter(&self) -> (r: Iter<E>)
        ensures
            r.next_index() == Some(Ok::<usize, E>(0)),
            r.position() == self.spec_span().start(),
            r.end_position() == (Position { line: usize::MAX, column: usize::MAX }),
    {
        Iter { i: Some(Ok(0)), pos: self.span.start(), end: Position::end() }
    }

    /// An iterator over the characters of the buffer from `pos` (or from the
    /// buffer's start, where `pos` precedes it).
    pub fn iter_from(&mut self, pos: Position) -> (r: Iter<E>)
        requires
            old(self).wf(),
        ensures
            final(self).wf(),
            r.end_position() == (Position { line: usize::MAX, column: usize::MAX }),
            r.position() == crate::span::pos_max(old(self).spec_span().start(), pos),
            final(self).spec_span().start() == old(self).spec_span().start(),
            pos_le(old(self).spec_span().end(), final(self).spec_span().end()),
            final(self).spec_metrics() == old(self).spec_metrics(),
            old(self).data().is_prefix_of(final(self).data()),
    {
        let start = self.span.start();
        let pos = if start <= pos {
            pos
        } else {
            start
        };
        let i = match self.index_at(pos) {
            Ok(Some(i)) => Some(Ok(i)),
            Ok(None) => None,
            Err(e) => Some(Err(e)),
        };
        Iter { i, pos, end: Position::end() }
    }

    /// An iterator over the characters of the buffer in `span` (from the
    /// buffer's start, where the span starts before it).
    pub fn iter_span(&mut self, span: Span) -> (r: Iter<E>)
        requires
            old(self).wf(),
        ensures
            final(self).wf(),
            r.end_position() == span.end(),
            r.position() == crate::span::pos_max(old(self).spec_span().start(), span.start()),
            final(self).spec_span().start() == old(self).spec_span().start(),
            pos_le(old(self).spec_span().end(), final(self).spec_span().end()),
            final(self).spec_metrics() == old(self).spec_metrics(),
            old(self).data().is_prefix_of(final(self).data()),
    {
        let start = self.span.start();
        let pos = if start <= span.start() {
            span.start()
        } else {
            start
        };
        let i = match self.index_at(pos) {
            Ok(Some(i)) => Some(Ok(i)),
            Ok(None) => None,
            Err(e) => Some(Err(e)),
        };
        Iter { i, pos, end: span.end() }
    }
}

/// The cursor after a character read at `p`: its next position, or `end`
/// where the next position cannot be reached.
pub open spec fn advance<M: Metrics>(p: Position, c: char, m: &M, end: Position) -> Position {
    if can_step(p, c, m) {
        let n = step(p.line as int, p.column as int, c, m);
        Position { line: n.0 as usize, column: n.1 as usize }
    } else {
        end
    }
}

/// The cursor after the characters `s` are read from `p`.
pub open spec fn walk<M: Metrics>(p: Position, s: Seq<char>, m: &M, end: Position) -> Position
    decreases s.len(),
{
    if s.len() == 0 {
        p
    } else {
        advance(walk(p, s.drop_last(), m, end), s.last(), m, end)
    }
}

/// Cursor over the characters of a `SourceBuffer`, from a position up to an
/// end position; each step is taken on the buffer it was made from.
#[verifier::reject_recursive_types(E)]
pub struct Iter<E> {
    i: Option<Result<usize, E>>,
    pos: Position,
    end: Position,
}

impl<E> Iter<E> {
    pub closed spec fn next_index(&self) -> Option<Result<usize, E>> {
        self.i
    }

    pub closed spec fn position(&self) -> Position {
        self.pos
    }

    pub closed spec fn end_position(&self) -> Position {
        self.end
    }

    /// How many buffered characters remain before the cursor must read the
    /// stream.
    pub open spec fn left<I: Iterator<Item = Result<char, E>>, M: Metrics>(&self, buffer: &SourceBuffer<E, I, M>) -> nat {
        match self.next_index() {
            Some(Ok(k)) => if k < buffer.data().len() {
                (buffer.data().len() - k) as nat
            } else {
                0
            },
            _ => 0,
        }
    }

    /// The next character of the buffer, reading the stream where needed;
    /// `None` once the end position is reached or the stream ends, and the
    /// error of the stream where it fails.
    pub fn next<I: Iterator<Item = Result<char, E>>, M: Metrics>(&mut self, buffer: &mut SourceBuffer<E, I, M>) -> (r: Option<Result<char, E>>)
        requires
            old(buffer).wf(),
        ensures
            final(buffer).wf(),
            old(buffer).data().is_prefix_of(final(buffer).data()),
            final(buffer).pending() <= old(buffer).pending(),
            !pos_lt(old(self).position(), old(self).end_position()) ==> r is None,
            old(self).next_index() is None ==> r is None,
            r is None ==> final(self).next_index() == old(self).next_index() && final(self).position()
                == old(self).position(),
            r is None ==> !pos_lt(old(self).position(), old(self).end_position()) || old(self).next_index() is None
                || (old(self).next_index() matches Some(Ok(k)) && k >= final(buffer).data().len()
                && final(buffer).is_done() && !final(buffer).holds_error()),
            r matches Some(Err(_)) ==> old(self).next_index() matches Some(Err(_)) || (old(self).next_index() matches Some(Ok(k))
                && k >= final(buffer).data().len() && final(buffer).is_done() && !final(buffer).holds_error()
                && !(old(buffer).is_done() && !old(buffer).holds_error())),
            r matches Some(Ok(c)) ==> final(self).position() == advance(
                old(self).position(),
                c,
                &old(buffer).spec_metrics(),
                old(self).end_position(),
            ),
            final(self).end_position() == old(self).end_position(),
            final(buffer).spec_span().start() == old(buffer).spec_span().start(),
            pos_le(old(buffer).spec_span().end(), final(buffer).spec_span().end()),
            final(buffer).spec_metrics() == old(buffer).spec_metrics(),
            old(buffer).is_done() && !old(buffer).holds_error() ==> *final(buffer) == *old(buffer),
            r matches Some(Ok(c)) ==> old(self).next_index() matches Some(Ok(k)) && k < final(buffer).data().len()
                && c == final(buffer).data()[k as int] && k + 1 <= usize::MAX && final(self).next_index() == Some(
                Ok::<usize, E>((k + 1) as usize),
            ),
            r matches Some(Ok(_)) ==> final(buffer).pending() < old(buffer).pending() || (final(buffer).pending()
                == old(buffer).pending() && final(self).left(final(buffer)) < old(self).left(old(buffer))),
    {
        if self.pos >= self.end {
            return None;
        }
        match self.i.take() {
            Some(Ok(k)) => {
                let ghost b0 = *buffer;
                match buffer.get(k) {
                    Ok(Some(c)) => {
                        match self.pos.try_next(c, buffer.metrics()) {
                            Some(p) => {
                                self.pos = p;
                            },
                            None => {
                                self.pos = self.end;
                            },
                        }
                        self.i = Some(Ok(k + 1));
                        proof {
                            if k < b0.data().len() {
                                assert(buffer.data() == b0.data());
                            }
                        }
                        Some(Ok(c))
                    },
                    Ok(None) => {
                        self.i = Some(Ok(k));
                        None
                    },
                    Err(e) => {
                        self.i = Some(Ok(k));
                        Some(Err(e))
                    },
                }
            },
            None => None,
            Some(Err(e)) => Some(Err(e)),
        }
    }

    /// Collect the characters from the cursor into a string: every character
    /// until the cursor reaches its end position or the stream ends. The
    /// first error of the stream is returned instead.
    pub fn into_string<I: Iterator<Item = Result<char, E>>, M: Metrics>(self, buffer: &mut SourceBuffer<E, I, M>) -> (r: Result<String, E>)
        requires
            old(buffer).wf(),
        ensures
            final(buffer).wf(),
            final(buffer).spec_span().start() == old(buffer).spec_span().start(),
            pos_le(old(buffer).spec_span().end(), final(buffer).spec_span().end()),
            self.next_index() is None ==> (r matches Ok(s) && s@ == Seq::<char>::empty()),
            self.next_index() matches Some(Ok(k)) ==> (r matches Ok(s) ==> ((s@.len() > 0 ==> k + s@.len()
                <= final(buffer).data().len() && s@ == final(buffer).data().subrange(k as int, k + s@.len()))
                && (forall|j: int|
                0 <= j < s@.len() ==> pos_lt(
                    #[trigger] walk(self.position(), s@.take(j), &old(buffer).spec_metrics(), self.end_position()),
                    self.end_position(),
                )) && (!pos_lt(
                walk(self.position(), s@, &old(buffer).spec_metrics(), self.end_position()),
                self.end_position(),
            ) || (k + s@.len() >= final(buffer).data().len() && final(buffer).is_done()
                && !final(buffer).holds_error())))),
            r is Err ==> self.next_index() matches Some(Err(_)) || !(old(buffer).is_done()
                && !old(buffer).holds_error()),
    {
        let ghost k0 = self.next_index();
        let ghost p0 = self.position();
        let ghost end = self.end_position();
        let ghost m = buffer.spec_metrics();
        let ghost clean0 = buffer.is_done() && !buffer.holds_error();
        let mut it = self;
        let mut string = String::new();
        proof {
            assert(string@ == Seq::<char>::empty());
            if let Some(Ok(k)) = k0 {
                assert(it.next_index() == Some(Ok::<usize, E>((k + string@.len()) as usize)));
            }
        }
        loop
            invariant
                buffer.wf(),
                buffer.spec_span().start() == old(buffer).spec_span().start(),
                pos_le(old(buffer).spec_span().end(), buffer.spec_span().end()),
                buffer.spec_metrics() == m,
                m == old(buffer).spec_metrics(),
                clean0 == (old(buffer).is_done() && !old(buffer).holds_error()),
                clean0 ==> buffer.is_done() && !buffer.holds_error(),
                k0 is None ==> it.next_index() is None && string@ == Seq::<char>::empty(),
                k0 == self.next_index(),
                p0 == self.position(),
                end == self.end_position(),
                it.end_position() == end,
                it.position() == walk(p0, string@, &m, end),
                forall|j: int| 0 <= j < string@.len() ==> pos_lt(#[trigger] walk(p0, string@.take(j), &m, end), end),
                it.next_index() matches Some(Err(_)) ==> k0 matches Some(Err(_)),
                k0 matches Some(Ok(k)) ==> (k + string@.len() <= usize::MAX && it.next_index() == Some(
                    Ok::<usize, E>((k + string@.len()) as usize),
                )
                    && (string@.len() > 0 ==> k + string@.len() <= buffer.data().len() && string@
                    == buffer.data().subrange(k as int, k + string@.len()))),
            ensures
                buffer.wf(),
                buffer.spec_span().start() == old(buffer).spec_span().start(),
                pos_le(old(buffer).spec_span().end(), buffer.spec_span().end()),
                k0 is None ==> string@ == Seq::<char>::empty(),
                k0 matches Some(Ok(k)) ==> ((string@.len() > 0 ==> k + string@.len() <= buffer.data().len()
                    && string@ == buffer.data().subrange(k as int, k + string@.len())) && (forall|j: int|
                    0 <= j < string@.len() ==> pos_lt(#[trigger] walk(p0, string@.take(j), &m, end), end)) && (
                !pos_lt(walk(p0, string@, &m, end), end) || (k + string@.len() >= buffer.data().len()
                    && buffer.is_done() && !buffer.holds_error()))),
            decreases buffer.pending(), it.left(buffer),
        {
            let ghost d0 = buffer.data();
            let ghost s0 = string@;
            let ghost it0 = it;
            match it.next(buffer) {
                Some(Ok(c)) => {
                    crate::text::push_char(&mut string, c);
                    proof {
                        assert(string@.drop_last() =~= s0);
                        assert(it.position() == walk(p0, string@, &m, end));
                        assert forall|j: int| 0 <= j < string@.len() implies pos_lt(
                            #[trigger] walk(p0, string@.take(j), &m, end),
                            end,
                        ) by {
                            if j < s0.len() {
                                assert(string@.take(j) =~= s0.take(j));
                            } else {
                                assert(string@.take(j) =~= s0);
                            }
                        }
                        if let Some(Ok(k)) = k0 {
                            let d1 = buffer.data();
                            assert(d0.is_prefix_of(d1));
                            assert(c == d1[k + s0.len()]);
                            assert forall|j: int| 0 <= j < string@.len() implies string@[j] == d1[k + j] by {
                                if j < s0.len() {
                                    assert(s0[j] == d0[k + j]);
                                    assert(d0[k + j] == d1[k + j]);
                                }
                            }
                            assert(string@ =~= d1.subrange(k as int, k + string@.len()));
                        }
                    }
                },
                Some(Err(e)) => {
                    return Err(e);
                },
                None => {
                    break;
                },
            }
        }
        Ok(string)
    }
}

} // verus!
