use crate::metrics::Metrics;
use crate::text::{decimal, push_decimal, push_str};
use vstd::prelude::*;

verus! {

/// Position in a source file: a line and a column, both counted from `0`.
///
/// Positions are ordered lexicographically, by line first and then by column.
#[derive(Clone, Copy, PartialEq, Eq, Structural, Hash, Default, Ord, Debug)]
pub struct Position {
    /// Line number, starting at `0`.
    pub line: usize,
    /// Column number, starting at `0`.
    pub column: usize,
}

/// `a` comes strictly before `b`.
pub open spec fn pos_lt(a: Position, b: Position) -> bool {
    a.line < b.line || (a.line == b.line && a.column < b.column)
}

/// `a` comes before `b`, or is `b`.
pub open spec fn pos_le(a: Position, b: Position) -> bool {
    pos_lt(a, b) || a == b
}

/// The lexicographic order of two positions.
pub open spec fn pos_order(a: Position, b: Position) -> core::cmp::Ordering {
    if pos_lt(a, b) {
        core::cmp::Ordering::Less
    } else if a == b {
        core::cmp::Ordering::Equal
    } else {
        core::cmp::Ordering::Greater
    }
}

impl PartialOrd for Position {
    fn partial_cmp(&self, other: &Position) -> (r: Option<core::cmp::Ordering>)
        ensures
            r == Some(pos_order(*self, *other)),
    {
        if self.line < other.line || (self.line == other.line && self.column < other.column) {
            Some(core::cmp::Ordering::Less)
        } else if self.line == other.line && self.column == other.column {
            Some(core::cmp::Ordering::Equal)
        } else {
            Some(core::cmp::Ordering::Greater)
        }
    }
}

impl vstd::std_specs::cmp::PartialOrdSpecImpl for Position {
    open spec fn obeys_partial_cmp_spec() -> bool {
        true
    }

    open spec fn partial_cmp_spec(&self, other: &Position) -> Option<core::cmp::Ordering> {
        Some(pos_order(*self, *other))
    }
}

/// A control character: the Unicode general category `Cc`.
pub open spec fn is_control_char(c: char) -> bool {
    (c as u32) <= 0x1f || (0x7f <= (c as u32) && (c as u32) <= 0x9f)
}

/// Checks whether `c` is a control character (general category `Cc`).
pub fn is_control(c: char) -> (r: bool)
    ensures
        r == is_control_char(c),
{
    let v = c as u32;
    v <= 0x1f || (0x7f <= v && v <= 0x9f)
}

/// The cursor, as `(line, column)`, after reading `c` at `(line, column)`.
///
/// A new line moves to the start of the next line, a tabulation to the next
/// tab stop, another control character does not move, and any other
/// character moves by its width.
pub open spec fn step<M: Metrics>(line: int, column: int, c: char, m: &M) -> (int, int) {
    if c == '\n' {
        (line + 1, 0)
    } else if c == '\t' {
        let ts = m.tab_stop_of() as int;
        (line, (column / ts) * ts + ts)
    } else if is_control_char(c) {
        (line, column)
    } else {
        (line, column + m.width_of(c))
    }
}

/// Reading `c` at `p` is defined and lands on a position that fits in `usize`.
pub open spec fn can_step<M: Metrics>(p: Position, c: char, m: &M) -> bool {
    &&& (c == '\t' ==> m.tab_stop_of() > 0)
    &&& step(p.line as int, p.column as int, c, m).0 <= usize::MAX
    &&& step(p.line as int, p.column as int, c, m).1 <= usize::MAX
}

/// The cursor, as `(line, column)`, after reading all of `s` from `(line, column)`.
pub open spec fn consume<M: Metrics>(line: int, column: int, s: Seq<char>, m: &M) -> (int, int)
    decreases s.len(),
{
    if s.len() == 0 {
        (line, column)
    } else {
        let p = consume(line, column, s.drop_last(), m);
        step(p.0, p.1, s.last(), m)
    }
}

/// Every cursor met while reading `s` from `(line, column)` fits in `usize`,
/// and no tabulation is read under a zero tab stop.
pub open spec fn can_consume<M: Metrics>(line: int, column: int, s: Seq<char>, m: &M) -> bool
    decreases s.len(),
{
    if s.len() == 0 {
        0 <= line <= usize::MAX && 0 <= column <= usize::MAX
    } else {
        let p = consume(line, column, s.drop_last(), m);
        &&& can_consume(line, column, s.drop_last(), m)
        &&& (s.last() == '\t' ==> m.tab_stop_of() > 0)
        &&& step(p.0, p.1, s.last(), m).0 <= usize::MAX
        &&& step(p.0, p.1, s.last(), m).1 <= usize::MAX
    }
}

impl Position {
    pub open spec fn spec_new(line: usize, column: usize) -> Position {
        Position { line, column }
    }

    /// Create a new position given a line and column.
    #[verifier::when_used_as_spec(spec_new)]
    pub fn new(line: usize, column: usize) -> (r: Position)
        ensures
            r.line == line,
            r.column == column,
    {
        Position { line, column }
    }

    /// Return the maximum position.
    pub fn end() -> (r: Position)
        ensures
            r.line == usize::MAX,
            r.column == usize::MAX,
    {
        Position { line: usize::MAX, column: usize::MAX }
    }

    /// Move to the next column.
    pub fn next_column(&self) -> (r: Position)
        requires
            self.column < usize::MAX,
        ensures
            r.line == self.line,
            r.column == self.column + 1,
    {
        Position { line: self.line, column: self.column + 1 }
    }

    /// Move to the beginning of the line.
    pub fn reset_column(&self) -> (r: Position)
        ensures
            r.line == self.line,
            r.column == 0,
    {
        Position { line: self.line, column: 0 }
    }

    /// Move to the next line, and reset the column position.
    pub fn next_line(&self) -> (r: Position)
        requires
            self.line < usize::MAX,
        ensures
            r.line == self.line + 1,
            r.column == 0,
    {
        Position { line: self.line + 1, column: 0 }
    }

    /// Move to the position following the given character under the given metrics.
    ///
    /// A new line moves to the start of the next line, a tabulation to the next
    /// tab stop, another control character does not move the cursor, and any
    /// other character moves it by its width.
    pub fn next<M: Metrics>(&self, c: char, metrics: &M) -> (r: Position)
        requires
            can_step(*self, c, metrics),
        ensures
            (r.line as int, r.column as int) == step(self.line as int, self.column as int, c, metrics),
            pos_le(*self, r),
    {
        if c == '\n' {
            self.next_line()
        } else if c == '\t' {
            let ts = metrics.tab_stop();
            proof {
                lemma_tab_stop_after(self.column as int, ts as int);
            }
            Position { line: self.line, column: (self.column / ts) * ts + ts }
        } else if is_control(c) {
            *self
        } else {
            let w = metrics.char_width(c);
            Position { line: self.line, column: self.column + w }
        }
    }

    /// The position following the given character, where it can be reached:
    /// `None` where a tabulation meets a zero tab stop or the position would
    /// not fit in `usize`.
    pub fn try_next<M: Metrics>(&self, c: char, metrics: &M) -> (r: Option<Position>)
        ensures
            r is Some <==> can_step(*self, c, metrics),
            r is Some ==> (r->0.line as int, r->0.column as int) == step(
                self.line as int,
                self.column as int,
                c,
                metrics,
            ),
    {
        if c == '\n' {
            if self.line < usize::MAX {
                Some(self.next_line())
            } else {
                None
            }
        } else if c == '\t' {
            let ts = metrics.tab_stop();
            if ts == 0 {
                return None;
            }
            let q = self.column / ts;
            proof {
                lemma_tab_stop_after(self.column as int, ts as int);
                vstd::arithmetic::div_mod::lemma_fundamental_div_mod(self.column as int, ts as int);
                vstd::arithmetic::div_mod::lemma_mod_bound(self.column as int, ts as int);
                assert((self.column as int / ts as int) * ts as int == ts as int * (self.column as int / ts as int)) by (nonlinear_arith);
            }
            let base = q * ts;
            match base.checked_add(ts) {
                Some(col) => Some(Position { line: self.line, column: col }),
                None => None,
            }
        } else if is_control(c) {
            Some(*self)
        } else {
            let w = metrics.char_width(c);
            match self.column.checked_add(w) {
                Some(col) => Some(Position { line: self.line, column: col }),
                None => None,
            }
        }
    }

    /// Move this position past the given character (in place form of `next`).
    pub fn shift<M: Metrics>(&mut self, c: char, metrics: &M)
        requires
            can_step(*old(self), c, metrics),
        ensures
            (final(self).line as int, final(self).column as int) == step(
                old(self).line as int,
                old(self).column as int,
                c,
                metrics,
            ),
            pos_le(*old(self), *final(self)),
    {
        *self = self.next(c, metrics);
    }
}

/// The next tab stop lies strictly after the column.
proof fn lemma_tab_stop_after(column: int, ts: int)
    requires
        column >= 0,
        ts > 0,
    ensures
        (column / ts) * ts + ts > column,
        (column / ts) * ts >= 0,
{
    vstd::arithmetic::div_mod::lemma_fundamental_div_mod(column, ts);
    vstd::arithmetic::div_mod::lemma_mod_bound(column, ts);
    vstd::arithmetic::div_mod::lemma_div_pos_is_pos(column, ts);
    vstd::arithmetic::mul::lemma_mul_nonnegative(column / ts, ts);
    assert((column / ts) * ts == ts * (column / ts)) by (nonlinear_arith);
}

/// Reading any character moves the cursor forward or leaves it in place.
pub proof fn lemma_step_monotonic<M: Metrics>(p: Position, c: char, m: &M)
    requires
        can_step(p, c, m),
    ensures
        ({
            let q = step(p.line as int, p.column as int, c, m);
            q.0 > p.line || (q.0 == p.line && q.1 >= p.column)
        }),
{
    if c == '\t' {
        lemma_tab_stop_after(p.column as int, m.tab_stop_of() as int);
    }
}


/// A line or column number as displayed: counted from 1, or `[end]` for the
/// largest value.
pub open spec fn number_text(n: usize) -> Seq<char> {
    if n == usize::MAX {
        "[end]"@
    } else {
        decimal((n + 1) as nat)
    }
}

/// Append a line or column number as displayed (see `number_text`).
fn push_number(s: &mut String, n: usize)
    ensures
        final(s)@ == old(s)@ + number_text(n),
{
    if n == usize::MAX {
        push_str(s, "[end]");
    } else {
        push_decimal(s, n as u128 + 1);
    }
}

impl Position {
    /// The position written as `line L column C`, counted from 1.
    pub open spec fn display_text(&self) -> Seq<char> {
        "line "@ + number_text(self.line) + " column "@ + number_text(self.column)
    }

    /// The position written as `L:C`, counted from 1.
    pub open spec fn debug_text(&self) -> Seq<char> {
        number_text(self.line) + ":"@ + number_text(self.column)
    }

    /// The position written as `line L column C`, counted from 1 (`[end]`
    /// for the largest value).
    pub fn to_string(&self) -> (r: String)
        ensures
            r@ == self.display_text(),
    {
        let mut s = String::new();
        push_str(&mut s, "line ");
        push_number(&mut s, self.line);
        push_str(&mut s, " column ");
        push_number(&mut s, self.column);
        proof {
            assert(s@ =~= self.display_text());
        }
        s
    }

    /// The position written as `L:C`, counted from 1 (`[end]` for the
    /// largest value).
    pub fn to_debug_string(&self) -> (r: String)
        ensures
            r@ == self.debug_text(),
    {
        let mut s = String::new();
        push_number(&mut s, self.line);
        push_str(&mut s, ":");
        push_number(&mut s, self.column);
        proof {
            assert(s@ =~= self.debug_text());
        }
        s
    }
}

} // verus!
