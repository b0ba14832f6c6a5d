use crate::metrics::Metrics;
use crate::position::{can_step, consume, step, Position};
use crate::span::Span;
use vstd::prelude::*;
use vstd::std_specs::iter::IteratorSpec;
use vstd::string::StrSliceExecFns;

verus! {

/// The number of bytes of the UTF-8 encoding of `c`.
pub open spec fn utf8_len(c: char) -> nat {
    let v = c as u32;
    if v < 0x80 {
        1
    } else if v < 0x800 {
        2
    } else if v < 0x10000 {
        3
    } else {
        4
    }
}

/// The number of bytes of the UTF-8 encoding of `c`.
pub fn len_utf8(c: char) -> (r: usize)
    ensures
        r == utf8_len(c),
{
    let v = c as u32;
    if v < 0x80 {
        1
    } else if v < 0x800 {
        2
    } else if v < 0x10000 {
        3
    } else {
        4
    }
}

/// The number of bytes of the UTF-8 encoding of a text.
pub open spec fn byte_len(s: Seq<char>) -> nat
    decreases s.len(),
{
    if s.len() == 0 {
        0
    } else {
        byte_len(s.drop_last()) + utf8_len(s.last())
    }
}

/// The character index where each line of a text starts: 0, then one past
/// each new line.
pub open spec fn line_starts(s: Seq<char>) -> Seq<int>
    decreases s.len(),
{
    if s.len() == 0 {
        seq![0]
    } else if s.last() == '\n' {
        line_starts(s.drop_last()).push(s.len() as int)
    } else {
        line_starts(s.drop_last())
    }
}

/// Reading a line from character `i` at `column`: the index of the character
/// that stands at column `target`, where the line has one.
pub open spec fn scan_line<M: Metrics>(s: Seq<char>, i: int, column: int, target: int, m: &M) -> Option<int>
    decreases s.len() - i,
{
    if i < 0 || i >= s.len() {
        None
    } else if column == target {
        Some(i)
    } else if s[i] == '\n' {
        None
    } else {
        scan_line(s, i + 1, column + m.width_of(s[i]), target, m)
    }
}

/// The character index of `pos` in the text, where it exists.
pub open spec fn char_index_of<M: Metrics>(s: Seq<char>, pos: Position, m: &M) -> Option<int> {
    if pos.line < line_starts(s).len() {
        scan_line(s, line_starts(s)[pos.line as int], 0, pos.column as int, m)
    } else {
        None
    }
}

/// Text layout: the byte index of each line of a UTF-8 text, so that it can
/// be indexed by cursor position.
pub struct Layout<M: Metrics> {
    lines: Vec<usize>,
    line_chars: Vec<usize>,
    span: Span,
    metrics: M,
    len: usize,
    count: usize,
    text: Ghost<Seq<char>>,
}

impl<M: Metrics> Layout<M> {
    /// The text laid out so far.
    pub closed spec fn text(&self) -> Seq<char> {
        self.text@
    }

    pub closed spec fn spec_span(&self) -> Span {
        self.span
    }

    pub closed spec fn spec_metrics(&self) -> M {
        self.metrics
    }

    pub closed spec fn wf(&self) -> bool {
        let t = self.text@;
        &&& self.count == t.len()
        &&& self.len == byte_len(t)
        &&& self.lines@.len() == self.line_chars@.len()
        &&& self.line_chars@.len() == line_starts(t).len()
        &&& forall|k: int|
            0 <= k < self.lines@.len() ==> #[trigger] self.line_chars@[k] == line_starts(t)[k]
                && self.lines@[k] == byte_len(t.take(line_starts(t)[k]))
        &&& self.span_matches_text()
    }

    /// The layout's span is the span of its text read from `(0, 0)`: its end
    /// is where the text leads, its last position where the text without its
    /// last character leads.
    pub open spec fn span_matches_text(&self) -> bool {
        let m = &self.spec_metrics();
        let t = self.text();
        &&& self.spec_span().start() == Position::new(0, 0)
        &&& (self.spec_span().end().line as int, self.spec_span().end().column as int) == consume(0, 0, t, m)
        &&& t.len() == 0 ==> self.spec_span().last() == Position::new(0, 0)
        &&& t.len() > 0 ==> (self.spec_span().last().line as int, self.spec_span().last().column as int)
            == consume(0, 0, t.drop_last(), m)
    }

    /// Create a new empty layout with the given metrics.
    pub fn new(metrics: M) -> (r: Layout<M>)
        ensures
            r.wf(),
            r.span_matches_text(),
            r.text() == Seq::<char>::empty(),
            r.spec_metrics() == metrics,
            r.spec_span().start() == Position::new(0, 0),
            r.spec_span().end() == Position::new(0, 0),
    {
        let ghost t = Seq::<char>::empty();
        let layout = Layout {
            lines: vec![0],
            line_chars: vec![0],
            span: Span::new(Position::new(0, 0), Position::new(0, 0), Position::new(0, 0)),
            metrics,
            len: 0,
            count: 0,
            text: Ghost(t),
        };
        proof {
            assert(t.take(0) =~= t);
            assert(line_starts(t) == seq![0int]);
        }
        layout
    }

    /// Get the layout's span.
    pub fn span(&self) -> (r: Span)
        ensures
            r == self.spec_span(),
    {
        self.span
    }

    /// The character can be added: the position after it and the byte and
    /// character counts all stay within `usize`.
    pub open spec fn can_push(&self, c: char) -> bool {
        &&& can_step(self.spec_span().end(), c, &self.spec_metrics())
        &&& byte_len(self.text()) + utf8_len(c) <= usize::MAX
        &&& self.text().len() < usize::MAX
    }

    /// Checks that the character can be added (see `can_push`).
    pub fn accepts(&self, c: char) -> (r: bool)
        requires
            self.wf(),
        ensures
            r == self.can_push(c),
    {
        self.span.end().try_next(c, &self.metrics).is_some() && self.len <= usize::MAX - len_utf8(c)
            && self.count < usize::MAX
    }

    /// Extend the layout with a new character.
    pub fn push(&mut self, c: char)
        requires
            old(self).wf(),
            old(self).can_push(c),
        ensures
            final(self).wf(),
            final(self).span_matches_text(),
            final(self).text() == old(self).text().push(c),
            final(self).spec_metrics() == old(self).spec_metrics(),
            final(self).spec_span().start() == old(self).spec_span().start(),
            final(self).spec_span().last() == old(self).spec_span().end(),
            (final(self).spec_span().end().line as int, final(self).spec_span().end().column as int) == step(
                old(self).spec_span().end().line as int,
                old(self).spec_span().end().column as int,
                c,
                &old(self).spec_metrics(),
            ),
    {
        let ghost t0 = self.text@;
        let ghost t = t0.push(c);
        self.span.push(c, &self.metrics);
        self.len = self.len + len_utf8(c);
        self.count = self.count + 1;
        self.text = Ghost(t);
        proof {
            assert(t.drop_last() =~= t0);
            assert forall|k: int| 0 <= k < line_starts(t0).len() implies t.take(line_starts(t0)[k]) =~= t0.take(
                line_starts(t0)[k],
            ) by {
                lemma_line_starts_bound(t0, k);
            }
        }
        if c == '\n' {
            self.lines.push(self.len);
            self.line_chars.push(self.count);
            proof {
                assert(t.take(t.len() as int) =~= t);
            }
        }
        proof {
            assert forall|k: int|
                0 <= k < self.lines@.len() implies #[trigger] self.line_chars@[k] == line_starts(t)[k]
                && self.lines@[k] == byte_len(t.take(line_starts(t)[k])) by {
                if k < line_starts(t0).len() {
                    lemma_line_starts_bound(t0, k);
                    assert(t.take(line_starts(t0)[k]) =~= t0.take(line_starts(t0)[k]));
                }
            }
        }
    }

    /// Create a new layout from a stream of characters. Laying out ends where
    /// a character cannot be added (see `can_push`).
    pub fn from<Chars: Iterator<Item = char>>(chars: Chars, metrics: M) -> (r: Layout<M>)
        requires
            chars.obeys_prophetic_iter_laws(),
            chars.decrease() is Some,
        ensures
            r.wf(),
            r.span_matches_text(),
            r.spec_metrics() == metrics,
            r.text().is_prefix_of(chars.remaining()),
            r.text() == chars.remaining() || (r.text().len() < chars.remaining().len() && !r.can_push(
                chars.remaining()[r.text().len() as int],
            )),
    {
        let mut layout = Layout::new(metrics);
        let ghost all = chars.remaining();
        let mut chars = chars;
        proof {
            assert(layout.text() + chars.remaining() =~= all);
            assert(all.take(0) =~= layout.text());
        }
        loop
            invariant_except_break
                layout.text() + chars.remaining() == all,
            invariant
                chars.obeys_prophetic_iter_laws(),
                chars.decrease() is Some,
                layout.wf(),
                layout.spec_metrics() == metrics,
                layout.text().is_prefix_of(all),
            ensures
                layout.wf(),
                layout.spec_metrics() == metrics,
                layout.text().is_prefix_of(all),
                layout.text() == all || (layout.text().len() < all.len() && !layout.can_push(
                    all[layout.text().len() as int],
                )),
            decreases chars.decrease()->0,
        {
            let ghost rest = chars.remaining();
            match chars.next() {
                Some(c) => {
                    if !layout.accepts(c) {
                        proof {
                            assert(layout.text() + rest == all);
                            assert(all[layout.text().len() as int] == c);
                        }
                        break;
                    }
                    let ghost t0 = layout.text();
                    layout.push(c);
                    proof {
                        assert(t0 + rest == all);
                        assert(layout.text() + chars.remaining() =~= t0 + rest);
                        assert(layout.text().is_prefix_of(all)) by {
                            assert(all.take(layout.text().len() as int) =~= layout.text());
                        }
                    }
                },
                None => {
                    proof {
                        assert(layout.text() + rest == all);
                        assert(all.take(layout.text().len() as int) =~= layout.text());
                        assert(layout.text() =~= all);
                    }
                    break;
                },
            }
        }
        layout
    }

    /// Try to create a new layout from a fallible stream of characters: the
    /// first error of the stream is returned. Laying out ends where a
    /// character cannot be added (see `can_push`).
    pub fn try_from<E, Chars: Iterator<Item = Result<char, E>>>(chars: Chars, metrics: M) -> (r: Result<Layout<M>, E>)
        requires
            chars.obeys_prophetic_iter_laws(),
            chars.decrease() is Some,
        ensures
            r matches Ok(l) ==> l.wf() && l.span_matches_text() && l.spec_metrics() == metrics && l.text().len()
                <= chars.remaining().len() && forall|j: int|
                0 <= j < l.text().len() ==> chars.remaining()[j] == Ok::<char, E>(#[trigger] l.text()[j]),
            r matches Ok(l) ==> l.text().len() == chars.remaining().len() || (chars.remaining()[l.text().len() as int] matches Ok(
                c,
            ) && !l.can_push(c)),
            r matches Err(e) ==> exists|k: int|
                0 <= k < chars.remaining().len() && chars.remaining()[k] == Err::<char, E>(e) && forall|j: int|
                    0 <= j < k ==> #[trigger] chars.remaining()[j] is Ok,
    {
        let mut layout = Layout::new(metrics);
        let ghost all = chars.remaining();
        let mut stream = chars;
        proof {
            assert(all.skip(0) =~= stream.remaining());
        }
        loop
            invariant_except_break
                all.skip(layout.text().len() as int) == stream.remaining(),
            invariant
                all == chars.remaining(),
                stream.obeys_prophetic_iter_laws(),
                stream.decrease() is Some,
                layout.wf(),
                layout.spec_metrics() == metrics,
                layout.text().len() <= all.len(),
                forall|j: int| 0 <= j < layout.text().len() ==> all[j] == Ok::<char, E>(#[trigger] layout.text()[j]),
            ensures
                all == chars.remaining(),
                layout.wf(),
                layout.spec_metrics() == metrics,
                layout.text().len() <= all.len(),
                forall|j: int| 0 <= j < layout.text().len() ==> all[j] == Ok::<char, E>(#[trigger] layout.text()[j]),
                layout.text().len() == all.len() || (all[layout.text().len() as int] matches Ok(c)
                    && !layout.can_push(c)),
            decreases stream.decrease()->0,
        {
            let ghost rest = stream.remaining();
            let ghost n = layout.text().len() as int;
            match stream.next() {
                Some(Ok(c)) => {
                    proof {
                        assert(all[n] == rest[0]);
                    }
                    if !layout.accepts(c) {
                        break;
                    }
                    layout.push(c);
                    proof {
                        assert(all.skip(n + 1) =~= rest.drop_first());
                    }
                },
                Some(Err(e)) => {
                    proof {
                        assert(all[n] == rest[0]);
                        assert forall|j: int| 0 <= j < n implies #[trigger] all[j] is Ok by {
                            assert(all[j] == Ok::<char, E>(layout.text()[j]));
                        }
                        assert(0 <= n < all.len() && all[n] == Err::<char, E>(e) && forall|j: int|
                            0 <= j < n ==> #[trigger] all[j] is Ok);
                    }
                    return Err(e);
                },
                None => {
                    proof {
                        assert(all.skip(n).len() == 0);
                    }
                    break;
                },
            }
        }
        Ok(layout)
    }
}


impl<M: Metrics> Layout<M> {
    /// The character index and byte index of `position` in the text, where
    /// the text has a character there.
    fn locate(&self, chars: &Vec<char>, position: Position) -> (r: Option<(usize, usize)>)
        requires
            self.wf(),
            chars@ == self.text(),
        ensures
            r is Some <==> char_index_of(self.text(), position, &self.spec_metrics()) is Some,
            r matches Some((i, b)) ==> i == char_index_of(self.text(), position, &self.spec_metrics())->0
                && b == byte_len(self.text().take(i as int)),
    {
        let ghost t = self.text();
        if position.line >= self.lines.len() {
            return None;
        }
        let mut i = self.line_chars[position.line];
        let mut off = self.lines[position.line];
        let mut column: usize = 0;
        let ghost start = line_starts(t)[position.line as int];
        proof {
            lemma_line_starts_bound(t, position.line as int);
        }
        loop
            invariant
                self.wf(),
                chars@ == t,
                t == self.text(),
                position.line < line_starts(t).len(),
                start == line_starts(t)[position.line as int],
                i <= t.len(),
                column <= position.column,
                off == byte_len(t.take(i as int)),
                scan_line(t, i as int, column as int, position.column as int, &self.metrics) == scan_line(
                    t,
                    start,
                    0,
                    position.column as int,
                    &self.metrics,
                ),
            decreases t.len() - i,
        {
            if i >= chars.len() {
                return None;
            }
            if column == position.column {
                return Some((i, off));
            }
            let c = chars[i];
            if c == '\n' {
                return None;
            }
            let w = self.metrics.char_width(c);
            if w > position.column - column {
                proof {
                    lemma_scan_past(t, i + 1, column + w, position.column as int, &self.metrics);
                }
                return None;
            }
            proof {
                lemma_byte_len_step(t, i as int);
            }
            column = column + w;
            off = off + len_utf8(c);
            i = i + 1;
        }
    }

    /// Get the byte index of the character at the given position in the text,
    /// where the text has one there. `str` is the laid out text.
    pub fn byte_index(&self, str: &str, position: Position) -> (r: Option<usize>)
        requires
            self.wf(),
            str@ == self.text(),
        ensures
            r is Some <==> char_index_of(str@, position, &self.spec_metrics()) is Some,
            r is Some ==> r->0 == byte_len(str@.take(char_index_of(str@, position, &self.spec_metrics())->0)),
    {
        let chars = chars_of(str);
        match self.locate(&chars, position) {
            Some((_, b)) => Some(b),
            None => None,
        }
    }

    /// Get the part of the laid out text `str` that the span covers: from the
    /// character at its start (or the beginning of the text) to the character
    /// at its end (or the end of the text); empty where these are out of order.
    pub fn span_slice<'a>(&self, str: &'a str, span: Span) -> (r: &'a str)
        requires
            self.wf(),
            str@ == self.text(),
        ensures
            ({
                let m = &self.spec_metrics();
                let a = match char_index_of(str@, span.start(), m) {
                    Some(i) => i,
                    None => 0,
                };
                let b = match char_index_of(str@, span.end(), m) {
                    Some(i) => i,
                    None => str@.len() as int,
                };
                r@ == if a <= b {
                    str@.subrange(a, b)
                } else {
                    Seq::<char>::empty()
                }
            }),
    {
        let chars = chars_of(str);
        let a = match self.locate(&chars, span.start()) {
            Some((i, _)) => i,
            None => 0,
        };
        let b = match self.locate(&chars, span.end()) {
            Some((i, _)) => i,
            None => chars.len(),
        };
        proof {
            if let Some(i) = char_index_of(str@, span.start(), &self.spec_metrics()) {
                lemma_scan_line_bound(str@, line_starts(str@)[span.start().line as int], 0, span.start().column as int, &self.spec_metrics());
            }
            if let Some(i) = char_index_of(str@, span.end(), &self.spec_metrics()) {
                lemma_scan_line_bound(str@, line_starts(str@)[span.end().line as int], 0, span.end().column as int, &self.spec_metrics());
            }
        }
        if a <= b {
            str.substring_char(a, b)
        } else {
            proof {
                assert(str@.subrange(a as int, a as int) =~= Seq::<char>::empty());
            }
            str.substring_char(a, a)
        }
    }
}

/// The characters of a text, in a vector.
fn chars_of(s: &str) -> (r: Vec<char>)
    ensures
        r@ == s@,
{
    let mut r: Vec<char> = Vec::new();
    for c in it: s.chars()
        invariant
            it.seq() == s@,
            0 <= it.index() <= s@.len(),
            r@ == s@.take(it.index() as int),
    {
        proof {
            assert(s@.take(it.index() + 1) =~= s@.take(it.index() as int).push(c));
        }
        r.push(c);
    }
    proof {
        assert(s@.take(s@.len() as int) =~= s@);
    }
    r
}

/// Past the target column, the target is not met any more.
proof fn lemma_scan_past<M: Metrics>(s: Seq<char>, i: int, column: int, target: int, m: &M)
    requires
        column > target,
    ensures
        scan_line(s, i, column, target, m) is None,
    decreases s.len() - i,
{
    if 0 <= i < s.len() && s[i] != '\n' {
        lemma_scan_past(s, i + 1, column + m.width_of(s[i]), target, m);
    }
}

/// A found index lies within the text.
proof fn lemma_scan_line_bound<M: Metrics>(s: Seq<char>, i: int, column: int, target: int, m: &M)
    ensures
        scan_line(s, i, column, target, m) is Some ==> 0 <= scan_line(s, i, column, target, m)->0 < s.len(),
    decreases s.len() - i,
{
    if 0 <= i < s.len() && column != target && s[i] != '\n' {
        lemma_scan_line_bound(s, i + 1, column + m.width_of(s[i]), target, m);
    }
}

/// The bytes of a prefix grow by the bytes of the next character, and stay
/// within the bytes of the text.
proof fn lemma_byte_len_step(s: Seq<char>, i: int)
    requires
        0 <= i < s.len(),
    ensures
        byte_len(s.take(i + 1)) == byte_len(s.take(i)) + utf8_len(s[i]),
        byte_len(s.take(i + 1)) <= byte_len(s),
    decreases s.len(),
{
    assert(s.take(i + 1).drop_last() =~= s.take(i));
    if i + 1 == s.len() {
        assert(s.take(i + 1) =~= s);
    } else {
        lemma_byte_len_step(s.drop_last(), i);
        assert(s.drop_last().take(i + 1) =~= s.take(i + 1));
        assert(s.drop_last().take(i) =~= s.take(i));
    }
}

/// Each line start lies within the text.
proof fn lemma_line_starts_bound(s: Seq<char>, k: int)
    requires
        0 <= k < line_starts(s).len(),
    ensures
        0 <= line_starts(s)[k] <= s.len(),
    decreases s.len(),
{
    if s.len() > 0 {
        let q = s.drop_last();
        if k < line_starts(q).len() {
            lemma_line_starts_bound(q, k);
        }
    }
}

} // verus!
