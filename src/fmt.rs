use crate::grid::{
    colored_text, grid_text, keeps_gutter, lemma_closed_line_keeps_gutter, lemma_column_keeps_gutter,
    lemma_keeps_gutter_refl, lemma_keeps_gutter_trans, lemma_label_from_only_labels,
    lemma_labelled_keeps_gutter, lemma_open_line_keeps_gutter, lemma_reserved_keeps_gutter,
    lemma_set_keeps_gutter, GridView,
};
pub use crate::grid::{Char, CharMap};
use crate::metrics::Metrics;
use crate::position::{can_step, is_control, is_control_char, pos_lt, step, Position};
use vstd::std_specs::iter::IteratorSpec;
use crate::span::{lemma_order_antisymmetric, lemma_order_transitive, span_order, span_overlaps, Span};
pub use crate::style::{Color, Style};
use crate::text::{digit, digit_char, push_str};
use vstd::prelude::*;

verus! {

/// Text highlight: a span, an optional label, and the style to draw them with.
pub struct Highlight {
    span: Span,
    label: Option<String>,
    style: Style,
}

/// The span covers more than one line.
pub open spec fn is_multiline(s: Span) -> bool {
    s.last().line > s.start().line
}

/// The larger of two integers.
pub open spec fn max_of(a: int, b: int) -> int {
    if a >= b {
        a
    } else {
        b
    }
}

/// The margin nesting level of a highlight on `span` after the highlights
/// `preds`: 0 for a single-line span; otherwise two more than the largest
/// level of the overlapping predecessors, and at least 2.
pub open spec fn margin_level(span: Span, preds: Seq<MappedHighlight>) -> int
    decreases preds.len(),
{
    if !is_multiline(span) {
        0
    } else if preds.len() == 0 {
        2
    } else {
        let rest = margin_level(span, preds.drop_last());
        let p = preds.last();
        if span_overlaps(span, p.spec_span()) {
            max_of(rest, 2 + p.margin_nest_level())
        } else {
            rest
        }
    }
}

/// The predecessors `p` that push the opening line of a highlight on `span`
/// down: `p` starts or ends on the line where `span` starts, and overlaps it
/// or `span` is multi-line.
pub open spec fn pushes_start(span: Span, p: Span) -> bool {
    (span.start().line == p.start().line || span.start().line == p.last().line) && (span_overlaps(
        span,
        p,
    ) || is_multiline(span))
}

/// The line-beginning shortcut applies: the span is multi-line and opens at
/// or before the first non-whitespace column of its line.
pub open spec fn shortcut_applies(span: Span, first_non_whitespace: Option<usize>) -> bool {
    is_multiline(span) && first_non_whitespace is Some && first_non_whitespace->0
        >= span.start().column
}

/// One more than the largest start level of the predecessors that push the
/// opening line down, and at least 1.
pub open spec fn start_level_after(span: Span, preds: Seq<MappedHighlight>) -> int
    decreases preds.len(),
{
    if preds.len() == 0 {
        1
    } else {
        let rest = start_level_after(span, preds.drop_last());
        let p = preds.last();
        if pushes_start(span, p.spec_span()) {
            max_of(rest, 1 + p.start_nest_level())
        } else {
            rest
        }
    }
}

/// The start nesting level: 0 under the line-beginning shortcut, else the
/// level below the predecessors that push the opening line down.
pub open spec fn start_level(span: Span, preds: Seq<MappedHighlight>, first_non_whitespace: Option<usize>) -> int {
    if shortcut_applies(span, first_non_whitespace) {
        0
    } else {
        start_level_after(span, preds)
    }
}

/// The predecessors `p` that push the closing line of a highlight on `span`
/// down: `p` starts or ends on the line where `span` ends, and overlaps it.
pub open spec fn pushes_end(span: Span, p: Span) -> bool {
    (span.last().line == p.start().line || span.last().line == p.last().line) && span_overlaps(span, p)
}

/// The end nesting level: one more than the largest end level of the
/// predecessors that push the closing line down, and at least 1.
pub open spec fn end_level(span: Span, preds: Seq<MappedHighlight>) -> int
    decreases preds.len(),
{
    if preds.len() == 0 {
        1
    } else {
        let rest = end_level(span, preds.drop_last());
        let p = preds.last();
        if pushes_end(span, p.spec_span()) {
            max_of(rest, 1 + p.end_nest_level())
        } else {
            rest
        }
    }
}

/// The levels of each highlight are bounded by its rank: at most `2k + 2` for
/// the margin level of the `k`-th one, and `k + 1` for its start and end levels.
pub open spec fn levels_bounded(hs: Seq<MappedHighlight>) -> bool {
    forall|k: int|
        0 <= k < hs.len() ==> {
            &&& (#[trigger] hs[k]).margin_nest_level() <= 2 * k + 2
            &&& hs[k].start_nest_level() <= k + 1
            &&& hs[k].end_nest_level() <= k + 1
        }
}

/// The largest number of highlights a formatter lays out.
pub const MAX_HIGHLIGHTS: usize = 0x1000_0000;

impl Highlight {
    pub closed spec fn spec_span(&self) -> Span {
        self.span
    }

    pub closed spec fn spec_style(&self) -> Style {
        self.style
    }

    pub closed spec fn spec_label(&self) -> Option<Seq<char>> {
        match &self.label {
            Some(l) => Some(l@),
            None => None,
        }
    }

    /// The span of the highlight.
    #[verifier::when_used_as_spec(spec_span)]
    pub fn span(&self) -> (r: Span)
        ensures
            r == self.spec_span(),
    {
        self.span
    }

    /// The style of the highlight.
    #[verifier::when_used_as_spec(spec_style)]
    pub fn style(&self) -> (r: Style)
        ensures
            r == self.spec_style(),
    {
        self.style
    }

    /// Compute the margin nesting level of the highlight after `highlights`:
    /// the distance, in columns from the text, of the vertical line that links
    /// the beginning and end of a multi-line highlight; 0 for one line.
    pub fn margin_nest_level(&self, highlights: &[MappedHighlight]) -> (r: usize)
        requires
            levels_bounded(highlights@),
            highlights@.len() < MAX_HIGHLIGHTS,
        ensures
            r == margin_level(self.span(), highlights@),
            r <= 2 * highlights@.len() + 2,
    {
        if self.span.last().line > self.span.start().line {
            let mut level: usize = 2;
            let mut i: usize = 0;
            while i < highlights.len()
                invariant
                    i <= highlights@.len(),
                    levels_bounded(highlights@),
                    highlights@.len() < MAX_HIGHLIGHTS,
                    is_multiline(self.span()),
                    level == margin_level(self.span(), highlights@.take(i as int)),
                    level <= 2 * i + 2,
                decreases highlights@.len() - i,
            {
                let h = &highlights[i];
                proof {
                    assert(highlights@.take(i + 1).drop_last() =~= highlights@.take(i as int));
                    assert(highlights@.take(i + 1).last() == highlights@[i as int]);
                    assert(highlights@[i as int].margin_nest_level() <= 2 * i + 2);
                }
                if self.span.overlaps(h.span()) {
                    let l = 2 + h.margin_nest_level;
                    if l > level {
                        level = l;
                    }
                }
                i = i + 1;
            }
            proof {
                assert(highlights@.take(highlights@.len() as int) =~= highlights@);
            }
            level
        } else {
            0
        }
    }

    /// Compute the start nesting level of the highlight after `highlights`:
    /// the row, below the text, of the line that opens it.
    pub fn start_nest_level(&self, highlights: &[MappedHighlight], first_non_whitespace: Option<usize>) -> (r: usize)
        requires
            levels_bounded(highlights@),
            highlights@.len() < MAX_HIGHLIGHTS,
        ensures
            r == start_level(self.span(), highlights@, first_non_whitespace),
            r <= highlights@.len() + 1,
    {
        if self.span.last().line > self.span.start().line && first_non_whitespace.is_some()
            && first_non_whitespace.unwrap() >= self.span.start().column {
            0
        } else {
            let mut level: usize = 1;
            let mut i: usize = 0;
            while i < highlights.len()
                invariant
                    i <= highlights@.len(),
                    levels_bounded(highlights@),
                    highlights@.len() < MAX_HIGHLIGHTS,
                    level == start_level_after(self.span(), highlights@.take(i as int)),
                    level <= i + 1,
                decreases highlights@.len() - i,
            {
                let h = &highlights[i];
                proof {
                    assert(highlights@.take(i + 1).drop_last() =~= highlights@.take(i as int));
                    assert(highlights@.take(i + 1).last() == highlights@[i as int]);
                    assert(highlights@[i as int].margin_nest_level() <= 2 * i + 2);
                }
                let hs = h.span();
                if (self.span.start().line == hs.start().line || self.span.start().line == hs.last().line)
                    && (self.span.overlaps(hs) || self.span.last().line > self.span.start().line) {
                    let l = 1 + h.start_nest_level;
                    if l > level {
                        level = l;
                    }
                }
                i = i + 1;
            }
            proof {
                assert(highlights@.take(highlights@.len() as int) =~= highlights@);
            }
            level
        }
    }

    /// Compute the end nesting level of the highlight after `highlights`: the
    /// row, below the text, of the line that closes it.
    pub fn end_nest_level(&self, highlights: &[MappedHighlight]) -> (r: usize)
        requires
            levels_bounded(highlights@),
            highlights@.len() < MAX_HIGHLIGHTS,
        ensures
            r == end_level(self.span(), highlights@),
            r <= highlights@.len() + 1,
    {
        let mut level: usize = 1;
        let mut i: usize = 0;
        while i < highlights.len()
            invariant
                i <= highlights@.len(),
                levels_bounded(highlights@),
                highlights@.len() < MAX_HIGHLIGHTS,
                level == end_level(self.span(), highlights@.take(i as int)),
                level <= i + 1,
            decreases highlights@.len() - i,
        {
            let h = &highlights[i];
            proof {
                assert(highlights@.take(i + 1).drop_last() =~= highlights@.take(i as int));
                assert(highlights@.take(i + 1).last() == highlights@[i as int]);
                assert(highlights@[i as int].margin_nest_level() <= 2 * i + 2);
            }
            let hs = h.span();
            if (self.span.last().line == hs.start().line || self.span.last().line == hs.last().line)
                && self.span.overlaps(hs) {
                let l = 1 + h.end_nest_level;
                if l > level {
                    level = l;
                }
            }
            i = i + 1;
        }
        proof {
            assert(highlights@.take(highlights@.len() as int) =~= highlights@);
        }
        level
    }
}

/// Highlight with the nesting levels that say where its lines are drawn.
#[derive(Clone, Copy)]
pub struct MappedHighlight<'a> {
    h: &'a Highlight,
    margin_nest_level: usize,
    start_nest_level: usize,
    end_nest_level: usize,
}

impl<'a> MappedHighlight<'a> {
    pub closed spec fn spec_span(&self) -> Span {
        self.h.spec_span()
    }

    pub closed spec fn spec_style(&self) -> Style {
        self.h.spec_style()
    }

    pub closed spec fn highlight(&self) -> &'a Highlight {
        self.h
    }

    pub closed spec fn margin_nest_level(&self) -> usize {
        self.margin_nest_level
    }

    pub closed spec fn start_nest_level(&self) -> usize {
        self.start_nest_level
    }

    pub closed spec fn end_nest_level(&self) -> usize {
        self.end_nest_level
    }

    /// The same highlight with the given start nesting level.
    pub closed spec fn with_start(self, level: int) -> MappedHighlight<'a> {
        MappedHighlight { start_nest_level: level as usize, ..self }
    }

    /// The same highlight with the given end nesting level.
    pub closed spec fn with_end(self, level: int) -> MappedHighlight<'a> {
        MappedHighlight { end_nest_level: level as usize, ..self }
    }

    pub broadcast proof fn lemma_with_levels(self, level: int)
        requires
            0 <= level <= usize::MAX,
        ensures
            (#[trigger] self.with_start(level)).highlight() == self.highlight(),
            self.with_start(level).margin_nest_level() == self.margin_nest_level(),
            self.with_start(level).start_nest_level() == level,
            self.with_start(level).end_nest_level() == self.end_nest_level(),
            self.with_start(level).spec_span() == self.spec_span(),
            self.with_start(level).spec_style() == self.spec_style(),
            (#[trigger] self.with_end(level)).highlight() == self.highlight(),
            self.with_end(level).margin_nest_level() == self.margin_nest_level(),
            self.with_end(level).start_nest_level() == self.start_nest_level(),
            self.with_end(level).end_nest_level() == level,
            self.with_end(level).spec_span() == self.spec_span(),
            self.with_end(level).spec_style() == self.spec_style(),
    {
    }

    /// The span of the highlight.
    pub fn span(&self) -> (r: &Span)
        ensures
            *r == self.spec_span(),
    {
        &self.h.span
    }

    /// The style of the highlight.
    pub fn style(&self) -> (r: &Style)
        ensures
            *r == self.spec_style(),
    {
        &self.h.style
    }

    /// The label of the highlight.
    pub fn label(&self) -> (r: Option<&String>)
        ensures
            r is Some <==> self.highlight().spec_label() is Some,
            r is Some ==> r->0@ == self.highlight().spec_label()->0,
    {
        match &self.h.label {
            Some(l) => Some(l),
            None => None,
        }
    }

    /// Set the start nesting level, after `highlights`.
    pub fn update_start_nest_level(&mut self, highlights: &[MappedHighlight], first_non_whitespace: Option<usize>)
        requires
            levels_bounded(highlights@),
            highlights@.len() < MAX_HIGHLIGHTS,
        ensures
            final(self).highlight() == old(self).highlight(),
            final(self).margin_nest_level() == old(self).margin_nest_level(),
            final(self).end_nest_level() == old(self).end_nest_level(),
            final(self).start_nest_level() == start_level(old(self).spec_span(), highlights@, first_non_whitespace),
            *final(self) == old(self).with_start(start_level(old(self).spec_span(), highlights@, first_non_whitespace)),
            final(self).start_nest_level() <= highlights@.len() + 1,
    {
        self.start_nest_level = self.h.start_nest_level(highlights, first_non_whitespace);
    }

    /// Set the end nesting level, after `highlights`.
    pub fn update_end_nest_level(&mut self, highlights: &[MappedHighlight])
        requires
            levels_bounded(highlights@),
            highlights@.len() < MAX_HIGHLIGHTS,
        ensures
            final(self).highlight() == old(self).highlight(),
            final(self).margin_nest_level() == old(self).margin_nest_level(),
            final(self).start_nest_level() == old(self).start_nest_level(),
            final(self).end_nest_level() == end_level(old(self).spec_span(), highlights@),
            *final(self) == old(self).with_end(end_level(old(self).spec_span(), highlights@)),
            final(self).end_nest_level() <= highlights@.len() + 1,
    {
        self.end_nest_level = self.h.end_nest_level(highlights);
    }
}


/// The span does not start after its last position.
pub open spec fn well_ordered(s: Span) -> bool {
    crate::position::pos_le(s.start(), s.last())
}

/// The spans are sorted: none is ordered after a later one.
pub open spec fn sorted_spans(s: Seq<Span>) -> bool {
    forall|i: int, j: int| 0 <= i < j < s.len() ==> span_order(#[trigger] s[i], #[trigger] s[j])
        != core::cmp::Ordering::Greater
}

/// Where a highlight on `s` goes among the spans `spans` sorted so far: past
/// every span, from the last one back, that `s` orders before.
pub open spec fn insertion_index(spans: Seq<Span>, s: Span, j: int) -> int
    decreases j,
{
    if j > 0 && span_order(s, spans[j - 1]) == core::cmp::Ordering::Less {
        insertion_index(spans, s, j - 1)
    } else {
        j
    }
}

/// The line `line` lies within `viewbox` lines of `c`.
pub open spec fn within(c: int, viewbox: int, line: int) -> bool {
    c - viewbox <= line <= c + viewbox
}

/// The number of decimal digits of `n` (one for `0`).
pub open spec fn decimal_digits(n: nat) -> nat
    decreases n,
{
    if n < 10 {
        1
    } else {
        1 + decimal_digits(n / 10)
    }
}

/// The digits of `n` drawn as margin cells of `color` on row 0, right to
/// left, ending just before column `x`; digits that would fall left of
/// column 0 are not drawn.
pub open spec fn number_from(g: GridView, x: int, n: nat, color: Color) -> GridView
    decreases n,
{
    if n == 0 || x <= 0 {
        g
    } else {
        number_from(g.set(x - 1, 0, Char::Margin(digit_char(n % 10), color)), x - 1, n / 10, color)
    }
}

/// The width of the line-number gutter: none where line numbers are hidden;
/// otherwise the digits of the last visible line number, then a space, a
/// separator and a space. With no highlights under a viewbox nothing is
/// visible, and the gutter takes one digit.
pub open spec fn line_number_margin_of(show: bool, viewbox: Option<usize>, last_highlight_line: Option<usize>, span_last_line: usize) -> nat {
    if !show {
        0
    } else {
        match viewbox {
            Some(vb) => match last_highlight_line {
                Some(l) => decimal_digits((l + vb + 1) as nat) + 3,
                None => 4,
            },
            None => decimal_digits((span_last_line + 1) as nat) + 3,
        }
    }
}

/// Some line of `lines` lies within `viewbox` lines of `line`.
pub open spec fn any_within(lines: Seq<usize>, viewbox: int, line: int) -> bool
    decreases lines.len(),
{
    lines.len() > 0 && (within(lines.last() as int, viewbox, line) || any_within(lines.drop_last(), viewbox, line))
}

/// A line within reach of a prefix of `lines` is within reach of `lines`.
proof fn lemma_any_within_prefix(lines: Seq<usize>, n: int, viewbox: int, line: int)
    requires
        0 <= n <= lines.len(),
        any_within(lines.take(n), viewbox, line),
    ensures
        any_within(lines, viewbox, line),
    decreases lines.len() - n,
{
    if n < lines.len() {
        assert(lines.take(n + 1).drop_last() =~= lines.take(n));
        lemma_any_within_prefix(lines, n + 1, viewbox, line);
    } else {
        assert(lines.take(n) =~= lines);
    }
}

/// A set of important lines to render: all of them, or the lines within a
/// viewbox of the listed lines.
pub enum ImportantLines {
    All,
    Lines(Vec<usize>, usize),
}

impl ImportantLines {
    /// The line is rendered.
    pub open spec fn spec_includes(&self, line: int) -> bool {
        match self {
            ImportantLines::All => true,
            ImportantLines::Lines(lines, viewbox) => any_within(lines@, *viewbox as int, line),
        }
    }

    /// Checks whether the line is rendered: every line is, or the line lies
    /// within the viewbox of an important line.
    pub fn includes(&self, line: usize) -> (r: bool)
        ensures
            r == self.spec_includes(line as int),
    {
        match self {
            ImportantLines::All => true,
            ImportantLines::Lines(lines, viewbox) => {
                let mut k: usize = 0;
                while k < lines.len()
                    invariant
                        k <= lines@.len(),
                        *self == ImportantLines::Lines(*lines, *viewbox),
                        !any_within(lines@.take(k as int), *viewbox as int, line as int),
                    decreases lines@.len() - k,
                {
                    let c = lines[k];
                    let hit = if line >= c {
                        line - c <= *viewbox
                    } else {
                        c - line <= *viewbox
                    };
                    proof {
                        assert(lines@.take(k + 1).drop_last() =~= lines@.take(k as int));
                    }
                    if hit {
                        proof {
                            lemma_any_within_prefix(lines@, k + 1, *viewbox as int, line as int);
                        }
                        return true;
                    }
                    k = k + 1;
                }
                proof {
                    assert(lines@.take(lines@.len() as int) =~= lines@);
                }
                false
            },
        }
    }
}

/// The lines where a highlight of `hs` starts or ends.
pub open spec fn is_important_line(hs: Seq<Highlight>, line: int) -> bool {
    exists|k: int|
        0 <= k < hs.len() && (#[trigger] hs[k].spec_span().start().line == line || hs[k].spec_span().last().line
            == line)
}

/// Text formatter with span highlights.
pub struct Formatter {
    highlights: Vec<Highlight>,
    margin_color: Color,
    show_line_numbers: bool,
    use_line_begining_shortcut: bool,
    viewbox: Option<usize>,
}

impl Formatter {
    pub closed spec fn highlights_seq(&self) -> Seq<Highlight> {
        self.highlights@
    }

    pub closed spec fn spans(&self) -> Seq<Span> {
        self.highlights@.map_values(|h: Highlight| h.spec_span())
    }

    pub closed spec fn margin_color_spec(&self) -> Color {
        self.margin_color
    }

    pub closed spec fn shows_line_numbers(&self) -> bool {
        self.show_line_numbers
    }

    pub closed spec fn uses_shortcut(&self) -> bool {
        self.use_line_begining_shortcut
    }

    pub closed spec fn viewbox_spec(&self) -> Option<usize> {
        self.viewbox
    }

    /// Create a new formatter with no highlights, line numbers shown, a
    /// viewbox of 2 and the line-beginning shortcut on, with a blue margin.
    pub fn new() -> (r: Formatter)
        ensures
            r.highlights_seq().len() == 0,
            r.margin_color_spec() == Color::Blue,
            r.shows_line_numbers(),
            r.uses_shortcut(),
            r.viewbox_spec() == Some(2usize),
    {
        Self::with_margin_color(Color::Blue)
    }

    /// Create a new formatter with no highlights and the given margin color.
    pub fn with_margin_color(margin_color: Color) -> (r: Formatter)
        ensures
            r.highlights_seq().len() == 0,
            r.margin_color_spec() == margin_color,
            r.shows_line_numbers(),
            r.uses_shortcut(),
            r.viewbox_spec() == Some(2usize),
    {
        Formatter {
            highlights: Vec::new(),
            margin_color,
            viewbox: Some(2),
            show_line_numbers: true,
            use_line_begining_shortcut: true,
        }
    }

    /// Show or hide the line numbers.
    pub fn set_line_numbers_visible(&mut self, visible: bool)
        ensures
            final(self).shows_line_numbers() == visible,
            final(self).highlights_seq() == old(self).highlights_seq(),
            final(self).margin_color_spec() == old(self).margin_color_spec(),
            final(self).uses_shortcut() == old(self).uses_shortcut(),
            final(self).viewbox_spec() == old(self).viewbox_spec(),
    {
        self.show_line_numbers = visible;
    }

    /// Show the line numbers (this is the default).
    pub fn show_line_numbers(&mut self)
        ensures
            final(self).shows_line_numbers(),
            final(self).highlights_seq() == old(self).highlights_seq(),
            final(self).margin_color_spec() == old(self).margin_color_spec(),
            final(self).uses_shortcut() == old(self).uses_shortcut(),
            final(self).viewbox_spec() == old(self).viewbox_spec(),
    {
        self.show_line_numbers = true;
    }

    /// Hide the line numbers.
    pub fn hide_line_numbers(&mut self)
        ensures
            !final(self).shows_line_numbers(),
            final(self).highlights_seq() == old(self).highlights_seq(),
            final(self).margin_color_spec() == old(self).margin_color_spec(),
            final(self).uses_shortcut() == old(self).uses_shortcut(),
            final(self).viewbox_spec() == old(self).viewbox_spec(),
    {
        self.show_line_numbers = false;
    }

    /// Turn the line-beginning shortcut on or off: a multi-line highlight that
    /// opens at or before the first non-whitespace character of its line is
    /// opened by a `/` in the margin.
    pub fn set_line_begining_shortcut(&mut self, enabled: bool)
        ensures
            final(self).uses_shortcut() == enabled,
            final(self).highlights_seq() == old(self).highlights_seq(),
            final(self).margin_color_spec() == old(self).margin_color_spec(),
            final(self).shows_line_numbers() == old(self).shows_line_numbers(),
            final(self).viewbox_spec() == old(self).viewbox_spec(),
    {
        self.use_line_begining_shortcut = enabled;
    }

    /// Set the viewbox: only lines within that many lines of an important
    /// line (where a highlight starts or ends) are rendered. `None` renders
    /// every line.
    pub fn set_viewbox(&mut self, viewbox: Option<usize>)
        ensures
            final(self).viewbox_spec() == viewbox,
            final(self).highlights_seq() == old(self).highlights_seq(),
            final(self).margin_color_spec() == old(self).margin_color_spec(),
            final(self).shows_line_numbers() == old(self).shows_line_numbers(),
            final(self).uses_shortcut() == old(self).uses_shortcut(),
    {
        self.viewbox = viewbox;
    }

    /// Add a span highlight. Highlights are kept in span order: the new one
    /// goes past every highlight, from the last one back, whose span its own
    /// span orders before. Sorted highlights stay sorted where no span starts
    /// after its last position (on such spans the order is transitive).
    pub fn add(&mut self, span: Span, label: Option<String>, style: Style)
        ensures
            ({
                let k = insertion_index(old(self).spans(), span, old(self).spans().len() as int);
                &&& final(self).highlights_seq().len() == old(self).highlights_seq().len() + 1
                &&& final(self).highlights_seq()[k].spec_span() == span
                &&& final(self).highlights_seq()[k].spec_style() == style
                &&& final(self).highlights_seq()[k].spec_label() == match label {
                    Some(l) => Some(l@),
                    None => None::<Seq<char>>,
                }
                &&& final(self).highlights_seq().take(k) == old(self).highlights_seq().take(k)
                &&& final(self).highlights_seq().skip(k + 1) == old(self).highlights_seq().skip(k)
            }),
            final(self).spans() == old(self).spans().insert(
                insertion_index(old(self).spans(), span, old(self).spans().len() as int),
                span,
            ),
            sorted_spans(old(self).spans()) && (forall|k: int|
                0 <= k < old(self).spans().len() ==> well_ordered(#[trigger] old(self).spans()[k]))
                && well_ordered(span) ==> sorted_spans(final(self).spans()),
            final(self).margin_color_spec() == old(self).margin_color_spec(),
            final(self).shows_line_numbers() == old(self).shows_line_numbers(),
            final(self).uses_shortcut() == old(self).uses_shortcut(),
            final(self).viewbox_spec() == old(self).viewbox_spec(),
    {
        let ghost spans = self.spans();
        let mut j: usize = self.highlights.len();
        while j > 0 && span < self.highlights[j - 1].span
            invariant
                j <= self.highlights@.len(),
                spans == self.spans(),
                spans.len() == self.highlights@.len(),
                insertion_index(spans, span, j as int) == insertion_index(spans, span, spans.len() as int),
                forall|t: int| j <= t < spans.len() ==> span_order(span, #[trigger] spans[t])
                    == core::cmp::Ordering::Less,
            decreases j,
        {
            j = j - 1;
        }
        let h = Highlight { span, label, style };
        self.highlights.insert(j, h);
        proof {
            assert(self.highlights@.take(j as int) =~= old(self).highlights@.take(j as int));
            assert(self.highlights@.skip(j + 1) =~= old(self).highlights@.skip(j as int));
            let s2 = spans.insert(j as int, span);
            assert(self.spans() =~= s2);
            if sorted_spans(spans) && (forall|k: int| 0 <= k < spans.len() ==> well_ordered(#[trigger] spans[k]))
                && well_ordered(span) {
                assert forall|a: int, b: int| 0 <= a < b < s2.len() implies span_order(
                    #[trigger] s2[a],
                    #[trigger] s2[b],
                ) != core::cmp::Ordering::Greater by {
                    if a < j && b < j {
                        assert(s2[a] == spans[a] && s2[b] == spans[b]);
                    } else if a < j && b == j {
                        assert(s2[a] == spans[a]);
                        lemma_order_antisymmetric(spans[j - 1], span);
                        if a < j - 1 {
                            lemma_order_transitive(spans[a], spans[j - 1], span);
                        }
                    } else if a < j && b > j {
                        assert(s2[a] == spans[a] && s2[b] == spans[b - 1]);
                    } else if a == j {
                        assert(s2[b] == spans[b - 1]);
                    } else {
                        assert(s2[a] == spans[a - 1] && s2[b] == spans[b - 1]);
                    }
                }
            }
        }
    }

    /// The lines to render: all of them without a viewbox; otherwise the
    /// lines where highlights start or end, in order, with the viewbox.
    pub fn important_lines(&self) -> (r: ImportantLines)
        ensures
            self.viewbox_spec() is None ==> r is All,
            self.viewbox_spec() is Some ==> (r matches ImportantLines::Lines(lines, vb) && vb
                == self.viewbox_spec()->0 && (forall|l: usize|
                lines@.contains(l) <==> is_important_line(self.highlights_seq(), l as int))
                && (forall|a: int, b: int| 0 <= a < b < lines@.len() ==> lines@[a] <= lines@[b])),
    {
        match self.viewbox {
            None => ImportantLines::All,
            Some(viewbox) => {
                let mut lines: Vec<usize> = Vec::new();
                let mut k: usize = 0;
                while k < self.highlights.len()
                    invariant
                        k <= self.highlights@.len(),
                        forall|l: usize|
                            lines@.contains(l) <==> is_important_line(self.highlights@.take(k as int), l as int),
                        forall|a: int, b: int| 0 <= a < b < lines@.len() ==> lines@[a] <= lines@[b],
                    decreases self.highlights@.len() - k,
                {
                    let s = self.highlights[k].span;
                    let ghost before = lines@;
                    insert_sorted(&mut lines, s.start().line);
                    if s.start().line != s.last().line {
                        insert_sorted(&mut lines, s.last().line);
                    }
                    proof {
                        assert forall|l: usize|
                            lines@.contains(l) <==> is_important_line(self.highlights@.take(k + 1), l as int) by {
                            lemma_important_step(self.highlights@, k as int, l as int);
                        }
                    }
                    k = k + 1;
                }
                proof {
                    assert(self.highlights@.take(self.highlights@.len() as int) =~= self.highlights@);
                }
                ImportantLines::Lines(lines, viewbox)
            },
        }
    }

    /// The width of the line-number gutter (see `line_number_margin_of`).
    pub fn line_number_margin(&self, span: &Span) -> (r: usize)
        ensures
            r == line_number_margin_of(
                self.shows_line_numbers(),
                self.viewbox_spec(),
                if self.highlights_seq().len() == 0 {
                    None
                } else {
                    Some(self.highlights_seq().last().spec_span().last().line)
                },
                span.last().line,
            ),
            r <= 43,
    {
        if self.show_line_numbers {
            match self.viewbox {
                Some(viewbox) => {
                    if self.highlights.len() == 0 {
                        4
                    } else {
                        let l = self.highlights[self.highlights.len() - 1].span.last().line;
                        count_digits(l as u128 + viewbox as u128 + 1) + 3
                    }
                },
                None => count_digits(span.last().line as u128 + 1) + 3,
            }
        } else {
            0
        }
    }

    /// Draw the line number gutter on row 0: the number of line `line`
    /// (counted from 1), right-aligned before a space and a `|` separator, or
    /// dots for an elided stretch of lines.
    pub fn draw_line_number(&self, line: Option<usize>, charmap: &mut CharMap, line_number_margin: usize)
        requires
            old(charmap)@.wf(),
        ensures
            final(charmap)@.wf(),
            final(charmap)@ == line_number_drawn(
                old(charmap)@,
                line,
                line_number_margin as int,
                self.margin_color_spec(),
            ),
    {
        if line_number_margin >= 3 {
            charmap.set(line_number_margin - 2, 0, Char::Margin('|', self.margin_color));
            match line {
                Some(line) => {
                    let ghost g = charmap@;
                    let mut x = line_number_margin - 3;
                    let mut n: u128 = line as u128 + 1;
                    while n > 0 && x > 0
                        invariant
                            charmap@.wf(),
                            number_from(charmap@, x as int, n as nat, self.margin_color) == number_from(
                                g,
                                line_number_margin - 3,
                                (line + 1) as nat,
                                self.margin_color,
                            ),
                        decreases n,
                    {
                        x = x - 1;
                        let d = (n % 10) as usize;
                        charmap.set(x, 0, Char::Margin(digit(d), self.margin_color));
                        n = n / 10;
                    }
                },
                None => {
                    charmap.draw_row(0, 0, line_number_margin - 3, Char::Margin('.', self.margin_color));
                },
            }
        }
    }
}

/// The grid once the line-number gutter is drawn on it (see `Formatter::draw_line_number`).
pub open spec fn line_number_drawn(g: GridView, line: Option<usize>, margin: int, color: Color) -> GridView {
    if margin >= 3 {
        let g1 = g.set(margin - 2, 0, Char::Margin('|', color));
        match line {
            Some(l) => number_from(g1, margin - 3, (l + 1) as nat, color),
            None => g1.row_from(0, 0, margin - 3, Char::Margin('.', color)),
        }
    } else {
        g
    }
}

/// The lines where the first `k + 1` highlights start or end are those of
/// the first `k` and those of the next one.
proof fn lemma_important_step(hs: Seq<Highlight>, k: int, l: int)
    requires
        0 <= k < hs.len(),
    ensures
        is_important_line(hs.take(k + 1), l) <==> (is_important_line(hs.take(k), l)
            || hs[k].spec_span().start().line == l || hs[k].spec_span().last().line == l),
{
    let a = hs.take(k + 1);
    let b = hs.take(k);
    if is_important_line(a, l) {
        let j = choose|j: int|
            0 <= j < a.len() && (#[trigger] a[j].spec_span().start().line == l || a[j].spec_span().last().line == l);
        if j < k {
            assert(b[j] == a[j]);
        }
    }
    if is_important_line(b, l) {
        let j = choose|j: int|
            0 <= j < b.len() && (#[trigger] b[j].spec_span().start().line == l || b[j].spec_span().last().line == l);
        assert(a[j] == b[j]);
    }
    if hs[k].spec_span().start().line == l || hs[k].spec_span().last().line == l {
        assert(a[k] == hs[k]);
    }
}

/// Ten to the power `k`.
pub open spec fn pow10(k: nat) -> nat
    decreases k,
{
    if k == 0 {
        1
    } else {
        10 * pow10((k - 1) as nat)
    }
}

/// A number below `10^k` has at most `k` digits.
proof fn lemma_digits_below(n: nat, k: nat)
    requires
        n < pow10(k),
        k >= 1,
    ensures
        decimal_digits(n) <= k,
    decreases k,
{
    if n >= 10 {
        if k == 1 {
            assert(pow10(1) == 10) by {
                reveal_with_fuel(pow10, 2);
            }
        } else {
            let p = pow10((k - 1) as nat);
            assert(n / 10 < p) by (nonlinear_arith)
                requires
                    n < 10 * p,
            ;
            lemma_digits_below(n / 10, (k - 1) as nat);
        }
    }
}

/// Count the decimal digits of `n`.
pub fn count_digits(n: u128) -> (r: usize)
    ensures
        r == decimal_digits(n as nat),
        r <= 40,
{
    proof {
        assert(pow10(40) > u128::MAX) by {
            reveal_with_fuel(pow10, 41);
        }
        lemma_digits_below(n as nat, 40);
    }
    let mut k: usize = 1;
    let mut m: u128 = n;
    while m >= 10
        invariant
            1 <= k,
            k + decimal_digits(m as nat) - 1 == decimal_digits(n as nat),
            decimal_digits(n as nat) <= 40,
        decreases m,
    {
        m = m / 10;
        k = k + 1;
    }
    k
}

/// A sequence with `v` inserted holds what it held, and `v`.
proof fn lemma_insert_contains(s: Seq<usize>, j: int, v: usize)
    requires
        0 <= j <= s.len(),
    ensures
        forall|x: usize| #[trigger] s.insert(j, v).contains(x) <==> (s.contains(x) || x == v),
{
    let t = s.insert(j, v);
    assert forall|x: usize| #[trigger] t.contains(x) <==> (s.contains(x) || x == v) by {
        if t.contains(x) {
            let i = choose|i: int| 0 <= i < t.len() && t[i] == x;
            if i < j {
                assert(s[i] == x);
            } else if i > j {
                assert(s[i - 1] == x);
            }
        }
        if s.contains(x) {
            let i = choose|i: int| 0 <= i < s.len() && s[i] == x;
            if i < j {
                assert(t[i] == x);
            } else {
                assert(t[i + 1] == x);
            }
        }
        if x == v {
            assert(t[j] == v);
        }
    }
}

/// Insert `v` into the sorted vector `lines`, keeping it sorted.
fn insert_sorted(lines: &mut Vec<usize>, v: usize)
    requires
        forall|a: int, b: int| 0 <= a < b < old(lines)@.len() ==> old(lines)@[a] <= old(lines)@[b],
    ensures
        forall|a: int, b: int| 0 <= a < b < final(lines)@.len() ==> final(lines)@[a] <= final(lines)@[b],
        forall|x: usize| final(lines)@.contains(x) <==> (old(lines)@.contains(x) || x == v),
{
    let mut j: usize = 0;
    while j < lines.len() && lines[j] < v
        invariant
            j <= lines@.len(),
            lines@ == old(lines)@,
            forall|a: int| 0 <= a < j ==> lines@[a] < v,
        decreases lines@.len() - j,
    {
        j = j + 1;
    }
    let ghost before = lines@;
    lines.insert(j, v);
    proof {
        lemma_insert_contains(before, j as int, v);
    }
}


/// The highlight `hs[i]` with the nesting level of the endpoint that lies on
/// `line` computed after the highlights before it.
pub open spec fn updated_at(hs: Seq<MappedHighlight>, i: int, line: int, first_non_whitespace: Option<usize>) -> MappedHighlight {
    let h = hs[i];
    let s = h.spec_span();
    if s.start().line == line {
        h.with_start(start_level(s, hs.take(i), first_non_whitespace))
    } else if s.last().line == line {
        h.with_end(end_level(s, hs.take(i)))
    } else {
        h
    }
}

/// The line-beginning shortcut fires for `h` on `line`: it opens there, does
/// not close there, and opens at or before the first non-whitespace column.
pub open spec fn fires_shortcut(h: MappedHighlight, line: int, first_non_whitespace: Option<usize>) -> bool {
    let s = h.spec_span();
    s.start().line == line && s.last().line != line && first_non_whitespace is Some
        && s.start().column <= first_non_whitespace->0
}

/// The grid of `line` once the lines of `h` are drawn on it: a closed line
/// where it opens and closes there, a `/` margin marker or an open line where
/// it opens there, an open line where it closes there, and its margin line
/// where the line lies inside it.
pub open spec fn highlight_drawn(g: GridView, h: MappedHighlight, line: int, margin: int, first_non_whitespace: Option<usize>) -> GridView {
    let s = h.spec_span();
    let st = h.spec_style();
    let ml = h.margin_nest_level() as int;
    let opens = s.start().line == line;
    let closes = s.last().line == line;
    let shortcut = fires_shortcut(h, line, first_non_whitespace);
    let g1 = if opens {
        if closes {
            g.drawn_closed_line(st, h.start_nest_level() as int, margin + s.start().column, margin + s.last().column)
        } else if shortcut {
            g.set(margin - ml, 0, Char::SpanMarginMarker(st.color()))
        } else {
            g.drawn_open_line(st, h.start_nest_level() as int, margin - ml + 1, margin + s.start().column)
        }
    } else if closes {
        g.drawn_open_line(st, h.end_nest_level() as int, margin - ml + 1, margin + s.last().column)
    } else {
        g
    };
    if shortcut || (s.start().line < line && s.last().line >= line) {
        let end = if closes {
            h.end_nest_level() as int
        } else if g1.height == 0 {
            0
        } else {
            g1.height - 1
        };
        g1.column_from(
            margin - ml,
            if shortcut {
                1
            } else {
                0
            },
            end + 1,
            Char::SpanMargin(st.color()),
        )
    } else {
        g1
    }
}

/// The grid and highlights once the lines of the highlights from `i` on are
/// drawn on the grid of `line`, each after updating its nesting level.
pub open spec fn spans_pass(g: GridView, hs: Seq<MappedHighlight>, i: int, line: int, margin: int, first_non_whitespace: Option<usize>) -> (GridView, Seq<MappedHighlight>)
    decreases hs.len() - i,
{
    if i < 0 || i >= hs.len() {
        (g, hs)
    } else {
        let h = updated_at(hs, i, line, first_non_whitespace);
        spans_pass(highlight_drawn(g, h, line, margin, first_non_whitespace), hs.update(i, h), i + 1, line, margin, first_non_whitespace)
    }
}

/// The grid of the label of `h`, laid out by `m`.
pub open spec fn label_grid<M: Metrics>(h: MappedHighlight, m: &M) -> GridView {
    (GridView { width: 0, height: 0, cells: Seq::empty() }).label_from(
        0,
        0,
        h.highlight().spec_label()->0,
        h.spec_style().color(),
        m,
    )
}

/// The label of `h` fits beside its anchor at column `x`, within `usize`.
pub open spec fn label_fits(g: GridView, x: int, map: GridView) -> bool {
    x + map.width + 4 <= usize::MAX && g.height + map.height + 6 <= usize::MAX
}

/// The grid once the label of `h` is placed, where `h` closes on `line`.
pub open spec fn label_drawn<M: Metrics>(g: GridView, h: MappedHighlight, line: int, margin: int, m: &M) -> GridView {
    let s = h.spec_span();
    let x = margin + s.last().column;
    if s.last().line == line && h.highlight().spec_label() is Some && label_fits(g, x, label_grid(h, m)) {
        g.labelled(x, label_grid(h, m), h.spec_style().color())
    } else {
        g
    }
}

/// The grid once the labels of the first `n` highlights are placed, the
/// last one first.
pub open spec fn labels_pass<M: Metrics>(g: GridView, hs: Seq<MappedHighlight>, n: int, line: int, margin: int, m: &M) -> GridView
    decreases n,
{
    if n <= 0 || n > hs.len() {
        g
    } else {
        labels_pass(label_drawn(g, hs[n - 1], line, margin, m), hs, n - 1, line, margin, m)
    }
}

/// Each highlight fits in the line: its columns past the margin stay within
/// `usize`, and its margin line stands inside the margin.
pub open spec fn coords_fit(hs: Seq<MappedHighlight>, margin: int) -> bool {
    forall|k: int|
        0 <= k < hs.len() ==> {
            &&& margin + (#[trigger] hs[k]).spec_span().start().column < usize::MAX
            &&& margin + hs[k].spec_span().last().column < usize::MAX
            &&& hs[k].margin_nest_level() <= margin
        }
}

/// The highlights keep their highlight and margin level, rank by rank.
pub open spec fn same_highlights(a: Seq<MappedHighlight>, b: Seq<MappedHighlight>) -> bool {
    &&& a.len() == b.len()
    &&& forall|k: int|
        0 <= k < a.len() ==> #[trigger] a[k].highlight() == b[k].highlight() && a[k].margin_nest_level()
            == b[k].margin_nest_level()
}

/// The spans pass keeps the highlights and bounds their levels.
proof fn lemma_spans_pass(g: GridView, hs: Seq<MappedHighlight>, i: int, line: int, margin: int, fnw: Option<usize>)
    requires
        0 <= i <= hs.len(),
        levels_bounded(hs),
        hs.len() < MAX_HIGHLIGHTS,
    ensures
        same_highlights(hs, spans_pass(g, hs, i, line, margin, fnw).1),
        levels_bounded(spans_pass(g, hs, i, line, margin, fnw).1),
    decreases hs.len() - i,
{
    broadcast use MappedHighlight::lemma_with_levels;
    if i < hs.len() {
        let h = updated_at(hs, i, line, fnw);
        let s = hs[i].spec_span();
        lemma_level_bounds(hs, i, fnw);
        let hs2 = hs.update(i, h);
        assert(levels_bounded(hs2)) by {
            assert forall|k: int| 0 <= k < hs2.len() implies {
                &&& #[trigger] hs2[k].margin_nest_level() <= 2 * k + 2
                &&& hs2[k].start_nest_level() <= k + 1
                &&& hs2[k].end_nest_level() <= k + 1
            } by {
                if k != i {
                    assert(hs2[k] == hs[k]);
                }
            }
        }
        lemma_spans_pass(highlight_drawn(g, h, line, margin, fnw), hs2, i + 1, line, margin, fnw);
        assert forall|k: int| 0 <= k < hs.len() implies #[trigger] hs[k].highlight() == hs2[k].highlight()
            && hs[k].margin_nest_level() == hs2[k].margin_nest_level() by {
            if k != i {
                assert(hs2[k] == hs[k]);
            }
        }
    }
}

/// The levels computed for `hs[i]` after the highlights before it stay
/// within its rank.
proof fn lemma_level_bounds(hs: Seq<MappedHighlight>, i: int, fnw: Option<usize>)
    requires
        0 <= i < hs.len(),
        levels_bounded(hs),
    ensures
        0 <= start_level(hs[i].spec_span(), hs.take(i), fnw) <= i + 1,
        0 <= end_level(hs[i].spec_span(), hs.take(i)) <= i + 1,
{
    let p = hs.take(i);
    assert(levels_bounded(p)) by {
        assert forall|k: int| 0 <= k < p.len() implies {
            &&& #[trigger] p[k].margin_nest_level() <= 2 * k + 2
            &&& p[k].start_nest_level() <= k + 1
            &&& p[k].end_nest_level() <= k + 1
        } by {
            assert(p[k] == hs[k]);
        }
    }
    lemma_start_level_bound(hs[i].spec_span(), p);
    lemma_end_level_bound(hs[i].spec_span(), p);
}

proof fn lemma_start_level_bound(s: Span, p: Seq<MappedHighlight>)
    requires
        levels_bounded(p),
    ensures
        1 <= start_level_after(s, p) <= p.len() + 1,
    decreases p.len(),
{
    if p.len() > 0 {
        let q = p.drop_last();
        assert(levels_bounded(q)) by {
            assert forall|k: int| 0 <= k < q.len() implies {
                &&& #[trigger] q[k].margin_nest_level() <= 2 * k + 2
                &&& q[k].start_nest_level() <= k + 1
                &&& q[k].end_nest_level() <= k + 1
            } by {
                assert(q[k] == p[k]);
            }
        }
        lemma_start_level_bound(s, q);
        assert(p.last().start_nest_level() <= p.len());
    }
}

proof fn lemma_end_level_bound(s: Span, p: Seq<MappedHighlight>)
    requires
        levels_bounded(p),
    ensures
        1 <= end_level(s, p) <= p.len() + 1,
    decreases p.len(),
{
    if p.len() > 0 {
        let q = p.drop_last();
        assert(levels_bounded(q)) by {
            assert forall|k: int| 0 <= k < q.len() implies {
                &&& #[trigger] q[k].margin_nest_level() <= 2 * k + 2
                &&& q[k].start_nest_level() <= k + 1
                &&& q[k].end_nest_level() <= k + 1
            } by {
                assert(q[k] == p[k]);
            }
        }
        lemma_end_level_bound(s, q);
        assert(p.last().end_nest_level() <= p.len());
    }
}

/// Drawing one highlight keeps the gutter left of its margin line.
proof fn lemma_highlight_drawn_keeps(g: GridView, h: MappedHighlight, line: int, margin: int, fnw: Option<usize>, gutter: int)
    requires
        g.wf(),
        0 <= gutter,
        h.margin_nest_level() + gutter <= margin,
    ensures
        keeps_gutter(g, highlight_drawn(g, h, line, margin, fnw), gutter),
{
    let s = h.spec_span();
    let st = h.spec_style();
    let ml = h.margin_nest_level() as int;
    let opens = s.start().line == line;
    let closes = s.last().line == line;
    let shortcut = fires_shortcut(h, line, fnw);
    let g1 = if opens {
        if closes {
            g.drawn_closed_line(st, h.start_nest_level() as int, margin + s.start().column, margin + s.last().column)
        } else if shortcut {
            g.set(margin - ml, 0, Char::SpanMarginMarker(st.color()))
        } else {
            g.drawn_open_line(st, h.start_nest_level() as int, margin - ml + 1, margin + s.start().column)
        }
    } else if closes {
        g.drawn_open_line(st, h.end_nest_level() as int, margin - ml + 1, margin + s.last().column)
    } else {
        g
    };
    if opens {
        if closes {
            let e = margin + s.last().column;
            let y = h.start_nest_level() as int;
            lemma_reserved_keeps_gutter(g, e + 1, y + 1, gutter);
            let r = g.reserved(e + 1, y + 1);
            lemma_closed_line_keeps_gutter(r, st, y, margin + s.start().column, margin + s.start().column, e, gutter);
            lemma_keeps_gutter_trans(g, r, g1, gutter);
        } else if shortcut {
            lemma_set_keeps_gutter(g, margin - ml, 0, Char::SpanMarginMarker(st.color()), gutter);
        } else {
            let e = margin + s.start().column;
            let y = h.start_nest_level() as int;
            lemma_reserved_keeps_gutter(g, e + 1, y + 1, gutter);
            let r = g.reserved(e + 1, y + 1);
            lemma_open_line_keeps_gutter(r, st, y, margin - ml + 1, e, gutter);
            lemma_keeps_gutter_trans(g, r, g1, gutter);
        }
    } else if closes {
        let e = margin + s.last().column;
        let y = h.end_nest_level() as int;
        lemma_reserved_keeps_gutter(g, e + 1, y + 1, gutter);
        let r = g.reserved(e + 1, y + 1);
        lemma_open_line_keeps_gutter(r, st, y, margin - ml + 1, e, gutter);
        lemma_keeps_gutter_trans(g, r, g1, gutter);
    } else {
        lemma_keeps_gutter_refl(g, gutter);
    }
    if shortcut || (s.start().line < line && s.last().line >= line) {
        let end = if closes {
            h.end_nest_level() as int
        } else if g1.height == 0 {
            0
        } else {
            g1.height - 1
        };
        let from = if shortcut {
            1
        } else {
            0
        };
        lemma_column_keeps_gutter(g1, margin - ml, from, end + 1, Char::SpanMargin(st.color()), gutter);
        lemma_keeps_gutter_trans(g, g1, g1.column_from(margin - ml, from, end + 1, Char::SpanMargin(st.color())), gutter);
    }
}

/// The spans pass keeps the gutter left of every margin line.
proof fn lemma_spans_pass_keeps(g: GridView, hs: Seq<MappedHighlight>, i: int, line: int, margin: int, fnw: Option<usize>, gutter: int)
    requires
        g.wf(),
        0 <= gutter,
        forall|k: int| 0 <= k < hs.len() ==> (#[trigger] hs[k]).margin_nest_level() + gutter <= margin,
    ensures
        keeps_gutter(g, spans_pass(g, hs, i, line, margin, fnw).0, gutter),
        forall|k: int|
            0 <= k < spans_pass(g, hs, i, line, margin, fnw).1.len() ==> (#[trigger] spans_pass(
                g,
                hs,
                i,
                line,
                margin,
                fnw,
            ).1[k]).margin_nest_level() + gutter <= margin,
        spans_pass(g, hs, i, line, margin, fnw).1.len() == hs.len(),
        forall|k: int|
            0 <= k < hs.len() ==> (#[trigger] spans_pass(g, hs, i, line, margin, fnw).1[k]).spec_span()
                == hs[k].spec_span(),
    decreases hs.len() - i,
{
    if i < 0 || i >= hs.len() {
        lemma_keeps_gutter_refl(g, gutter);
    } else {
        let h = updated_at(hs, i, line, fnw);
        assert(h.margin_nest_level() == hs[i].margin_nest_level());
        assert(h.spec_span() == hs[i].spec_span());
        let g1 = highlight_drawn(g, h, line, margin, fnw);
        let hs1 = hs.update(i, h);
        lemma_highlight_drawn_keeps(g, h, line, margin, fnw, gutter);
        assert forall|k: int| 0 <= k < hs1.len() implies (#[trigger] hs1[k]).margin_nest_level() + gutter <= margin by {
            if k != i {
                assert(hs1[k] == hs[k]);
            }
        }
        lemma_spans_pass_keeps(g1, hs1, i + 1, line, margin, fnw, gutter);
        lemma_keeps_gutter_trans(g, g1, spans_pass(g1, hs1, i + 1, line, margin, fnw).0, gutter);
        assert forall|k: int| 0 <= k < hs.len() implies (#[trigger] spans_pass(g, hs, i, line, margin, fnw).1[k]).spec_span()
            == hs[k].spec_span() by {
            assert(spans_pass(g1, hs1, i + 1, line, margin, fnw).1[k].spec_span() == hs1[k].spec_span());
            if k != i {
                assert(hs1[k] == hs[k]);
            }
        }
    }
}

/// The labels pass keeps the gutter left of the margin.
proof fn lemma_labels_pass_keeps<M: Metrics>(g: GridView, hs: Seq<MappedHighlight>, n: int, line: int, margin: int, m: &M, gutter: int)
    requires
        g.wf(),
        0 <= gutter <= margin,
    ensures
        keeps_gutter(g, labels_pass(g, hs, n, line, margin, m), gutter),
    decreases n,
{
    if n <= 0 || n > hs.len() {
        lemma_keeps_gutter_refl(g, gutter);
    } else {
        let h = hs[n - 1];
        let s = h.spec_span();
        let x = margin + s.last().column;
        let g1 = label_drawn(g, h, line, margin, m);
        if s.last().line == line && h.highlight().spec_label() is Some && label_fits(g, x, label_grid(h, m)) {
            lemma_label_from_only_labels(
                GridView { width: 0, height: 0, cells: Seq::empty() },
                0,
                0,
                h.highlight().spec_label()->0,
                h.spec_style().color(),
                m,
            );
            lemma_labelled_keeps_gutter(g, x, label_grid(h, m), h.spec_style().color(), gutter);
        } else {
            lemma_keeps_gutter_refl(g, gutter);
        }
        lemma_labels_pass_keeps(g1, hs, n - 1, line, margin, m, gutter);
        lemma_keeps_gutter_trans(g, g1, labels_pass(g1, hs, n - 1, line, margin, m), gutter);
    }
}

/// Drawing the highlights of a line, and then their labels, leaves the
/// line-number gutter alone, where every margin line stands right of it: in
/// the rows the grid already had, the cells of the first `gutter` columns
/// keep their value; and where that gutter held only line-number marks (with
/// no horizontal line in the column after it), the rows added hold in it only
/// the separator bar carried down from the last row, and nothing else.
pub proof fn lemma_gutter_kept<M: Metrics>(
    g: GridView,
    hs: Seq<MappedHighlight>,
    line: int,
    margin: int,
    first_non_whitespace: Option<usize>,
    m: &M,
    gutter: int,
)
    requires
        g.wf(),
        0 <= gutter,
        forall|k: int| 0 <= k < hs.len() ==> (#[trigger] hs[k]).margin_nest_level() + gutter <= margin,
    ensures
        ({
            let pass = spans_pass(g, hs, 0, line, margin, first_non_whitespace);
            keeps_gutter(g, labels_pass(pass.0, pass.1, pass.1.len() as int, line, margin, m), gutter)
        }),
{
    let pass = spans_pass(g, hs, 0, line, margin, first_non_whitespace);
    lemma_spans_pass_keeps(g, hs, 0, line, margin, first_non_whitespace, gutter);
    if hs.len() == 0 {
        assert(gutter <= margin || pass.1.len() == 0);
    }
    if gutter <= margin {
        lemma_labels_pass_keeps(pass.0, pass.1, pass.1.len() as int, line, margin, m, gutter);
        lemma_keeps_gutter_trans(g, pass.0, labels_pass(pass.0, pass.1, pass.1.len() as int, line, margin, m), gutter);
    } else {
        assert(pass.1.len() == 0);
        assert(labels_pass(pass.0, pass.1, 0, line, margin, m) == pass.0);
    }
}

impl Formatter {
    /// Draw the lines of the highlights, then their labels, on the grid of
    /// line `line`. Each highlight that opens or closes on the line gets the
    /// nesting level of that endpoint first.
    pub fn draw_line_highlights<M: Metrics>(
        &self,
        line: usize,
        charmap: &mut CharMap,
        margin: usize,
        highlights: &mut Vec<MappedHighlight>,
        metrics: &M,
        first_non_whitespace: Option<usize>,
    )
        requires
            old(charmap)@.wf(),
            levels_bounded(old(highlights)@),
            old(highlights)@.len() < MAX_HIGHLIGHTS,
            coords_fit(old(highlights)@, margin as int),
        ensures
            ({
                let pass = spans_pass(old(charmap)@, old(highlights)@, 0, line as int, margin as int, first_non_whitespace);
                &&& final(highlights)@ == pass.1
                &&& final(charmap)@ == labels_pass(pass.0, pass.1, pass.1.len() as int, line as int, margin as int, metrics)
            }),
            final(charmap)@.wf(),
            same_highlights(old(highlights)@, final(highlights)@),
            levels_bounded(final(highlights)@),
    {
        broadcast use MappedHighlight::lemma_with_levels;
        let ghost g0 = charmap@;
        let ghost hs0 = highlights@;
        let ghost pass = spans_pass(g0, hs0, 0, line as int, margin as int, first_non_whitespace);
        proof {
            lemma_spans_pass(g0, hs0, 0, line as int, margin as int, first_non_whitespace);
        }
        let n = highlights.len();
        let mut i: usize = 0;
        while i < n
            invariant
                n == highlights@.len(),
                i <= n,
                charmap@.wf(),
                levels_bounded(highlights@),
                n < MAX_HIGHLIGHTS,
                same_highlights(hs0, highlights@),
                coords_fit(hs0, margin as int),
                spans_pass(charmap@, highlights@, i as int, line as int, margin as int, first_non_whitespace) == pass,
            decreases n - i,
        {
            let ghost hs = highlights@;
            let ghost g = charmap@;
            proof {
                assert(hs0[i as int].highlight() == hs[i as int].highlight());
                assert(coords_fit(hs0, margin as int));
                assert(margin + hs0[i as int].spec_span().start().column < usize::MAX);
                lemma_spans_pass(g, hs, i as int, line as int, margin as int, first_non_whitespace);
                lemma_level_bounds(hs, i as int, first_non_whitespace);
            }
            let mut h = highlights[i];
            let s = *h.span();
            let style = *h.style();
            let mut shortcut = false;
            if s.start().line == line {
                h.update_start_nest_level(&highlights[0..i], first_non_whitespace);
                if s.last().line == line {
                    charmap.draw_closed_line(
                        &style,
                        h.start_nest_level,
                        margin + s.start().column,
                        margin + s.last().column,
                    );
                } else if first_non_whitespace.is_some() && s.start().column
                    <= first_non_whitespace.unwrap() {
                    shortcut = true;
                    charmap.set(margin - h.margin_nest_level, 0, Char::SpanMarginMarker(style.color()));
                } else {
                    charmap.draw_open_line(
                        &style,
                        h.start_nest_level,
                        margin - h.margin_nest_level + 1,
                        margin + s.start().column,
                    );
                }
            } else if s.last().line == line {
                h.update_end_nest_level(&highlights[0..i]);
                charmap.draw_open_line(
                    &style,
                    h.end_nest_level,
                    margin - h.margin_nest_level + 1,
                    margin + s.last().column,
                );
            }
            if shortcut || (s.start().line < line && s.last().line >= line) {
                let end = if s.last().line == line {
                    h.end_nest_level
                } else if charmap.height() == 0 {
                    0
                } else {
                    charmap.height() - 1
                };
                let offset_y: usize = if shortcut {
                    1
                } else {
                    0
                };
                charmap.draw_column(margin - h.margin_nest_level, offset_y, end + 1, Char::SpanMargin(style.color()));
            }
            proof {
                assert(h == updated_at(hs, i as int, line as int, first_non_whitespace));
            }
            highlights.set(i, h);
            i = i + 1;
        }
        let ghost g1 = charmap@;
        let ghost hs1 = highlights@;
        let mut j: usize = n;
        while j > 0
            invariant
                n == highlights@.len(),
                j <= n,
                charmap@.wf(),
                highlights@ == hs1,
                hs1 == pass.1,
                same_highlights(hs0, hs1),
                coords_fit(hs0, margin as int),
                labels_pass(charmap@, hs1, j as int, line as int, margin as int, metrics) == labels_pass(
                    g1,
                    hs1,
                    n as int,
                    line as int,
                    margin as int,
                    metrics,
                ),
            decreases j,
        {
            j = j - 1;
            let h = highlights[j];
            let s = *h.span();
            if s.last().line == line {
                match h.label() {
                    Some(label) => {
                        let color = h.style().color();
                        let label_charmap = CharMap::from_label(label.as_str(), color, metrics);
                        proof {
                            assert(hs0[j as int].highlight() == hs1[j as int].highlight());
                            assert(margin + hs0[j as int].spec_span().last().column < usize::MAX);
                        }
                        let x = margin + s.last().column;
                        if x <= usize::MAX - 4 && label_charmap.width() <= usize::MAX - 4 - x
                            && charmap.height() <= usize::MAX - 6 && label_charmap.height()
                            <= usize::MAX - 6 - charmap.height() {
                            charmap.draw_label(x, &label_charmap, color);
                        }
                    },
                    None => {},
                }
            }
        }
        proof {
            assert(spans_pass(g1, hs1, n as int, line as int, margin as int, first_non_whitespace) == (g1, hs1));
        }
    }
}


/// A Unicode `White_Space` character.
pub open spec fn is_whitespace_char(c: char) -> bool {
    let v = c as u32;
    (0x9 <= v && v <= 0xd) || v == 0x20 || v == 0x85 || v == 0xa0 || v == 0x1680 || (0x2000 <= v && v
        <= 0x200a) || v == 0x2028 || v == 0x2029 || v == 0x202f || v == 0x205f || v == 0x3000
}

/// Checks whether `c` is a Unicode `White_Space` character.
pub fn is_whitespace(c: char) -> (r: bool)
    ensures
        r == is_whitespace_char(c),
{
    let v = c as u32;
    (0x9 <= v && v <= 0xd) || v == 0x20 || v == 0x85 || v == 0xa0 || v == 0x1680 || (0x2000 <= v && v
        <= 0x200a) || v == 0x2028 || v == 0x2029 || v == 0x202f || v == 0x205f || v == 0x3000
}

/// The highlights' columns leave room for the gutters in `usize`.
pub open spec fn columns_fit(hs: Seq<Highlight>) -> bool {
    forall|k: int|
        0 <= k < hs.len() ==> (#[trigger] hs[k]).spec_span().start().column < usize::MAX / 2
            && hs[k].spec_span().last().column < usize::MAX / 2
}

/// Some line of `lines` lies within `viewbox` lines of `line`, as an index.
proof fn lemma_any_within(lines: Seq<usize>, viewbox: int, line: int)
    ensures
        any_within(lines, viewbox, line) <==> exists|c: usize| lines.contains(c) && #[trigger] within(c as int, viewbox, line),
    decreases lines.len(),
{
    if lines.len() > 0 {
        let q = lines.drop_last();
        lemma_any_within(q, viewbox, line);
        if any_within(lines, viewbox, line) {
            if within(lines.last() as int, viewbox, line) {
                assert(lines.contains(lines.last()));
            } else {
                let c = choose|c: usize| q.contains(c) && #[trigger] within(c as int, viewbox, line);
                let k = choose|k: int| 0 <= k < q.len() && q[k] == c;
                assert(lines[k] == c);
            }
        }
        if exists|c: usize| lines.contains(c) && #[trigger] within(c as int, viewbox, line) {
            let c = choose|c: usize| lines.contains(c) && #[trigger] within(c as int, viewbox, line);
            let k = choose|k: int| 0 <= k < lines.len() && lines[k] == c;
            if k < lines.len() - 1 {
                assert(q[k] == c);
            }
        }
    }
}

/// The state of a render between two characters: the cursor, whether its
/// line is rendered, the first non-whitespace column of the line, the grid of
/// the line, the grids of the lines done, and the highlights.
pub struct RenderState<'a> {
    pub pos: Position,
    pub important: bool,
    pub first_non_whitespace: Option<usize>,
    pub current: GridView,
    pub lines: Seq<GridView>,
    pub highlights: Seq<MappedHighlight<'a>>,
}

/// A grid of one empty cell.
pub open spec fn blank_grid() -> GridView {
    GridView { width: 1, height: 1, cells: seq![Char::Empty] }
}

/// The largest margin level of the highlights, or 0.
pub open spec fn max_margin(hs: Seq<MappedHighlight>) -> int
    decreases hs.len(),
{
    if hs.len() == 0 {
        0
    } else {
        max_of(max_margin(hs.drop_last()), hs.last().margin_nest_level() as int)
    }
}

/// The characters of a sequence of successful reads.
pub open spec fn read_chars<E>(items: Seq<Result<char, E>>) -> Seq<char> {
    items.map_values(|r: Result<char, E>| r->Ok_0)
}

impl Formatter {
    /// The line is rendered: there is no viewbox, or it lies within the
    /// viewbox of a line where a highlight starts or ends.
    pub open spec fn visible(&self, line: int) -> bool {
        match self.viewbox_spec() {
            None => true,
            Some(vb) => exists|c: usize| is_important_line(self.highlights_seq(), c as int) && #[trigger] within(
                c as int,
                vb as int,
                line,
            ),
        }
    }

    /// The rows a render produces for the lines `first` to `last`: one per
    /// visible line (`Some(line)`), and one elision row (`None`) before each
    /// visible line that follows a hidden one.
    pub open spec fn expected_rows(&self, first: int, last: int) -> Seq<Option<int>>
        decreases last - first,
    {
        if last < first {
            Seq::empty()
        } else if last == first {
            if self.visible(first) {
                seq![Some(first)]
            } else {
                Seq::empty()
            }
        } else {
            let before = self.expected_rows(first, last - 1);
            if !self.visible(last) {
                before
            } else if self.visible(last - 1) {
                before.push(Some(last))
            } else {
                before.push(None).push(Some(last))
            }
        }
    }

    /// Render the given stream of characters, from the start of `span` until
    /// a character lies past its last position, the stream ends, or a
    /// position would leave `usize`. The first error of the stream is
    /// returned as it is.
    ///
    /// Each visible line gives one grid: its line number, its text after the
    /// gutters, and the lines and labels of the highlights below it. Each
    /// stretch of hidden lines before a visible line gives one elision grid.
    /// The stream must end, and the highlights must be fewer than
    /// `MAX_HIGHLIGHTS` with columns below half of `usize::MAX`, so that the
    /// gutters fit.
    pub fn render<E, I: Iterator<Item = Result<char, E>>, M: Metrics>(&self, input: I, span: Span, metrics: &M) -> (r: Result<Formatted, E>)
        requires
            input.obeys_prophetic_iter_laws(),
            input.decrease() is Some,
            self.highlights_seq().len() < MAX_HIGHLIGHTS,
            columns_fit(self.highlights_seq()),
        ensures
            r is Ok ==> r->Ok_0.wf(),
            r is Ok ==> exists|last: int|
                span.start().line <= last && r->Ok_0.rows() == #[trigger] self.expected_rows(
                    span.start().line as int,
                    last,
                ),
            r is Ok ==> exists|hs: Seq<MappedHighlight>, n: int|
                self.initial_mapped(hs) && 0 <= n <= input.remaining().len() && (forall|j: int|
                    0 <= j < n ==> #[trigger] input.remaining()[j] is Ok) && (forall|j: int|
                    0 <= j < n ==> #[trigger] self.reads_on(hs, span, input.remaining(), j, metrics))
                    && r->Ok_0.rows() == self.expected_rows(
                    span.start().line as int,
                    self.render_state_after(hs, span, read_chars(input.remaining().take(n)), metrics).pos.line as int,
                ) && r->Ok_0.grids() == #[trigger] self.render_output(
                    hs,
                    span,
                    read_chars(input.remaining().take(n)),
                    metrics,
                ) && (n == input.remaining().len() || pos_lt(
                    span.last(),
                    self.render_state_after(hs, span, read_chars(input.remaining().take(n)), metrics).pos,
                ) || (input.remaining()[n] matches Ok(c) && !can_step(
                    self.render_state_after(hs, span, read_chars(input.remaining().take(n)), metrics).pos,
                    c,
                    metrics,
                ))),
            r matches Err(e) ==> exists|k: int|
                0 <= k < input.remaining().len() && input.remaining()[k] == Err::<char, E>(e) && forall|j: int|
                    0 <= j < k ==> #[trigger] input.remaining()[j] is Ok,
            r matches Err(e) ==> exists|hs: Seq<MappedHighlight>, k: int|
                self.initial_mapped(hs) && 0 <= k < input.remaining().len() && input.remaining()[k] == Err::<
                    char,
                    E,
                >(e) && (forall|j: int|
                    0 <= j < k ==> #[trigger] self.reads_on(hs, span, input.remaining(), j, metrics))
                    && !pos_lt(
                    span.last(),
                    #[trigger] self.render_state_after(hs, span, read_chars(input.remaining().take(k)), metrics).pos,
                ),
    {
        let mut mapped: Vec<MappedHighlight> = Vec::new();
        let mut nest_margin: usize = 0;
        let mut k: usize = 0;
        while k < self.highlights.len()
            invariant
                k <= self.highlights@.len(),
                self.highlights@.len() < MAX_HIGHLIGHTS,
                mapped@.len() == k,
                levels_bounded(mapped@),
                nest_margin <= 2 * k + 2,
                nest_margin == max_margin(mapped@),
                forall|j: int|
                    0 <= j < k ==> {
                        &&& (#[trigger] mapped@[j]).highlight() == self.highlights@[j]
                        &&& mapped@[j].margin_nest_level() == margin_level(self.highlights@[j].spec_span(), mapped@.take(j))
                        &&& mapped@[j].start_nest_level() == 0
                        &&& mapped@[j].end_nest_level() == 0
                    },
                forall|j: int| 0 <= j < k ==> (#[trigger] mapped@[j]).margin_nest_level() <= nest_margin,
            decreases self.highlights@.len() - k,
        {
            let h = &self.highlights[k];
            let ml = h.margin_nest_level(mapped.as_slice());
            let ghost before = mapped@;
            if ml > nest_margin {
                nest_margin = ml;
            }
            mapped.push(MappedHighlight { h, margin_nest_level: ml, start_nest_level: 0, end_nest_level: 0 });
            proof {
                assert(mapped@.drop_last() =~= before);
                assert(mapped@.take(k as int) =~= before);
                assert forall|j: int| 0 <= j < k implies mapped@.take(j) == before.take(j) by {
                    assert(mapped@.take(j) =~= before.take(j));
                }
            }
            k = k + 1;
        }
        let ghost hs0 = mapped@;
        proof {
            assert(self.initial_mapped(hs0));
        }
        let line_number_margin = self.line_number_margin(&span);
        proof {
            assert(line_number_margin <= 43);
            assert(nest_margin <= 2 * MAX_HIGHLIGHTS + 2);
        }
        let margin = line_number_margin + nest_margin;
        proof {
            assert forall|j: int| 0 <= j < mapped@.len() implies {
                &&& margin + (#[trigger] mapped@[j]).spec_span().start().column < usize::MAX
                &&& margin + mapped@[j].spec_span().last().column < usize::MAX
                &&& mapped@[j].margin_nest_level() <= margin
            } by {
                assert(self.highlights@[j].spec_span().start().column < usize::MAX / 2);
            }
        }
        let ghost lnm = line_number_margin as int;
        let il = self.important_lines();
        let mut pos = span.start();
        let mut lines: Vec<CharMap> = Vec::new();
        let ghost mut rows: Seq<Option<int>> = Seq::empty();
        let mut important = il.includes(pos.line);
        proof {
            self.lemma_includes_visible(&il, pos.line as int);
        }
        let mut current = CharMap::new();
        let mut first_non_whitespace: Option<usize> = None;
        let ghost all = input.remaining();
        let ghost mut read: Seq<Result<char, E>> = Seq::empty();
        let ghost start = self.render_start(hs0, span);
        let mut stream = input;
        proof {
            assert(read + stream.remaining() =~= all);
            assert(lines@.map_values(|g: CharMap| g@) =~= Seq::<GridView>::empty());
            assert(read_chars(read) =~= Seq::<char>::empty());
        }
        loop
            invariant_except_break
                read + stream.remaining() == all,
            invariant
                all == input.remaining(),
                read.len() <= all.len(),
                all.take(read.len() as int) == read,
                forall|j: int| 0 <= j < read.len() ==> #[trigger] read[j] is Ok,
                forall|j: int| 0 <= j < read.len() ==> #[trigger] self.reads_on(hs0, span, all, j, metrics),
                stream.obeys_prophetic_iter_laws(),
                stream.decrease() is Some,
                current@.wf(),
                lines@.len() == rows.len(),
                forall|j: int| 0 <= j < lines@.len() ==> (#[trigger] lines@[j])@.wf(),
                levels_bounded(mapped@),
                mapped@.len() < MAX_HIGHLIGHTS,
                same_highlights(hs0, mapped@),
                coords_fit(hs0, margin as int),
                span.start().line <= pos.line,
                important == self.visible(pos.line as int),
                (if important {
                    rows.push(Some(pos.line as int))
                } else {
                    rows
                }) == self.expected_rows(span.start().line as int, pos.line as int),
                self.viewbox_spec() is None ==> il is All,
                self.viewbox_spec() is Some ==> (il matches ImportantLines::Lines(lines, vb) && vb
                    == self.viewbox_spec()->0 && (forall|l: usize|
                    lines@.contains(l) <==> is_important_line(self.highlights_seq(), l as int))),
                lnm == line_number_margin,
                lnm == self.render_line_number_margin(span),
                margin == lnm + max_margin(hs0),
                start == self.render_start(hs0, span),
                self.initial_mapped(hs0),
                (RenderState {
                    pos,
                    important,
                    first_non_whitespace,
                    current: current@,
                    lines: lines@.map_values(|g: CharMap| g@),
                    highlights: mapped@,
                }) == self.render_fold(start, read_chars(read), lnm, margin as int, metrics),
            ensures
                all == input.remaining(),
                read.len() <= all.len(),
                all.take(read.len() as int) == read,
                forall|j: int| 0 <= j < read.len() ==> #[trigger] read[j] is Ok,
                forall|j: int| 0 <= j < read.len() ==> #[trigger] self.reads_on(hs0, span, all, j, metrics),
                current@.wf(),
                lines@.len() == rows.len(),
                forall|j: int| 0 <= j < lines@.len() ==> (#[trigger] lines@[j])@.wf(),
                levels_bounded(mapped@),
                mapped@.len() < MAX_HIGHLIGHTS,
                same_highlights(hs0, mapped@),
                coords_fit(hs0, margin as int),
                span.start().line <= pos.line,
                important == self.visible(pos.line as int),
                (if important {
                    rows.push(Some(pos.line as int))
                } else {
                    rows
                }) == self.expected_rows(span.start().line as int, pos.line as int),
                lnm == line_number_margin,
                lnm == self.render_line_number_margin(span),
                margin == lnm + max_margin(hs0),
                start == self.render_start(hs0, span),
                self.initial_mapped(hs0),
                (RenderState {
                    pos,
                    important,
                    first_non_whitespace,
                    current: current@,
                    lines: lines@.map_values(|g: CharMap| g@),
                    highlights: mapped@,
                }) == self.render_fold(start, read_chars(read), lnm, margin as int, metrics),
                read.len() == all.len() || pos_lt(span.last(), pos) || (all[read.len() as int] matches Ok(c)
                    && !can_step(pos, c, metrics)),
            decreases stream.decrease()->0,
        {
            let ghost rest = stream.remaining();
            let c = match stream.next() {
                Some(c) => c,
                None => {
                    proof {
                        assert(read =~= all);
                    }
                    break;
                },
            };
            proof {
                assert(rest[0] == c);
                assert(all[read.len() as int] == c);
                assert(read.push(c) + stream.remaining() =~= read + rest);
            }
            proof {
                assert(coords_fit(mapped@, margin as int)) by {
                    assert forall|j: int| 0 <= j < mapped@.len() implies {
                        &&& margin + (#[trigger] mapped@[j]).spec_span().start().column < usize::MAX
                        &&& margin + mapped@[j].spec_span().last().column < usize::MAX
                        &&& mapped@[j].margin_nest_level() <= margin
                    } by {
                        assert(hs0[j].highlight() == mapped@[j].highlight());
                    }
                }
            }
            if pos > span.last() {
                break;
            }
            let c = match c {
                Ok(c) => c,
                Err(e) => {
                    proof {
                        assert(all[read.len() as int] == Err::<char, E>(e));
                        assert forall|j: int| 0 <= j < read.len() implies #[trigger] all[j] is Ok by {
                            assert(all[j] == read[j]);
                        }
                        let k = read.len() as int;
                        assert(0 <= k < all.len() && all[k] == Err::<char, E>(e) && forall|j: int|
                            0 <= j < k ==> #[trigger] all[j] is Ok);
                        assert(self.render_state_after(hs0, span, read_chars(all.take(k)), metrics).pos == pos);
                        assert(self.initial_mapped(hs0) && 0 <= k < all.len() && all[k] == Err::<char, E>(e) && (
                        forall|j: int| 0 <= j < k ==> #[trigger] self.reads_on(hs0, span, all, j, metrics))
                            && !pos_lt(
                            span.last(),
                            self.render_state_after(hs0, span, read_chars(all.take(k)), metrics).pos,
                        ));
                    }
                    return Err(e);
                },
            };
            let next = match pos.try_next(c, metrics) {
                Some(p) => p,
                None => {
                    break;
                },
            };
            let ghost st = RenderState {
                pos,
                important,
                first_non_whitespace,
                current: current@,
                lines: lines@.map_values(|g: CharMap| g@),
                highlights: mapped@,
            };
            proof {
                assert(read_chars(read.push(Ok(c))).drop_last() =~= read_chars(read));
                assert(read_chars(read.push(Ok(c))).last() == c);
                assert(Position { line: next.line as int as usize, column: next.column as int as usize } == next);
            }
            if c == '\n' {
                let ghost done = if important {
                    self.finished_line(current@, mapped@, Some(pos.line), pos.line as int, lnm, margin as int, first_non_whitespace, metrics)
                } else {
                    (current@, mapped@)
                };
                if important {
                    self.draw_line_number(Some(pos.line), &mut current, line_number_margin);
                    self.draw_line_highlights(pos.line, &mut current, margin, &mut mapped, metrics, first_non_whitespace);
                    let ghost before = lines@;
                    lines.push(current);
                    proof {
                        rows = rows.push(Some(pos.line as int));
                        assert(lines@.map_values(|g: CharMap| g@) =~= before.map_values(|g: CharMap| g@).push(done.0));
                    }
                }
                first_non_whitespace = None;
                proof {
                    self.lemma_includes_visible(&il, pos.line + 1);
                    assert(coords_fit(mapped@, margin as int)) by {
                        assert forall|j: int| 0 <= j < mapped@.len() implies {
                            &&& margin + (#[trigger] mapped@[j]).spec_span().start().column < usize::MAX
                            &&& margin + mapped@[j].spec_span().last().column < usize::MAX
                            &&& mapped@[j].margin_nest_level() <= margin
                        } by {
                            assert(hs0[j].highlight() == mapped@[j].highlight());
                        }
                    }
                }
                if il.includes(pos.line + 1) {
                    if !important {
                        let mut elision = CharMap::new();
                        self.draw_line_number(None, &mut elision, line_number_margin);
                        self.draw_line_highlights(pos.line, &mut elision, margin, &mut mapped, metrics, None);
                        let ghost before = lines@;
                        lines.push(elision);
                        proof {
                            rows = rows.push(None);
                            assert(lines@.map_values(|g: CharMap| g@) =~= before.map_values(|g: CharMap| g@).push(elision@));
                        }
                    }
                    important = true;
                } else {
                    important = false;
                }
                current = CharMap::new();
            } else if c == '\t' {
            } else if important {
                if self.use_line_begining_shortcut && first_non_whitespace.is_none() && !is_whitespace(c)
                    && !is_control(c) {
                    first_non_whitespace = Some(pos.column);
                }
                match margin.checked_add(pos.column) {
                    Some(x) => {
                        current.set(x, 0, Char::Text(c));
                    },
                    None => {},
                }
            }
            pos = next;
            proof {
                let j = read.len() as int;
                assert(self.render_state_after(hs0, span, read_chars(all.take(j)), metrics) == st);
                assert(self.reads_on(hs0, span, all, j, metrics));
                read = read.push(Ok(c));
                assert(all.take(read.len() as int) =~= read);
            }
        }
        let ghost st_end = RenderState {
            pos,
            important,
            first_non_whitespace,
            current: current@,
            lines: lines@.map_values(|g: CharMap| g@),
            highlights: mapped@,
        };
        if important {
            proof {
                assert(coords_fit(mapped@, margin as int)) by {
                    assert forall|j: int| 0 <= j < mapped@.len() implies {
                        &&& margin + (#[trigger] mapped@[j]).spec_span().start().column < usize::MAX
                        &&& margin + mapped@[j].spec_span().last().column < usize::MAX
                        &&& mapped@[j].margin_nest_level() <= margin
                    } by {
                        assert(hs0[j].highlight() == mapped@[j].highlight());
                    }
                }
            }
            self.draw_line_number(Some(pos.line), &mut current, line_number_margin);
            self.draw_line_highlights(pos.line, &mut current, margin, &mut mapped, metrics, first_non_whitespace);
            let ghost before = lines@;
            lines.push(current);
            proof {
                rows = rows.push(Some(pos.line as int));
                assert(lines@.map_values(|g: CharMap| g@) =~= before.map_values(|g: CharMap| g@).push(current@));
            }
        }
        let f = Formatted { lines, rows: Ghost(rows) };
        proof {
            assert(f.rows() == self.expected_rows(span.start().line as int, pos.line as int));
            let n = read.len() as int;
            assert(all.take(n) == read);
            assert(f.grids() == self.render_finish(st_end, lnm, margin as int, metrics));
            assert(self.render_state_after(hs0, span, read_chars(all.take(n)), metrics) == st_end);
            assert(forall|j: int| 0 <= j < n ==> #[trigger] all[j] is Ok) by {
                assert forall|j: int| 0 <= j < n implies #[trigger] all[j] is Ok by {
                    assert(all[j] == read[j]);
                }
            }
            let cs = read_chars(all.take(n));
            assert(f.grids() == self.render_output(hs0, span, cs, metrics));
            assert(n == all.len() || pos_lt(span.last(), self.render_state_after(hs0, span, cs, metrics).pos)
                || (all[n] matches Ok(c) && !can_step(self.render_state_after(hs0, span, cs, metrics).pos, c, metrics)));
            assert(self.initial_mapped(hs0) && 0 <= n <= all.len() && (forall|j: int|
                0 <= j < n ==> #[trigger] all[j] is Ok) && (forall|j: int|
                0 <= j < n ==> #[trigger] self.reads_on(hs0, span, all, j, metrics)) && f.rows() == self.expected_rows(
                span.start().line as int,
                self.render_state_after(hs0, span, cs, metrics).pos.line as int,
            ) && f.grids() == self.render_output(hs0, span, cs, metrics) && (n
                == all.len() || pos_lt(span.last(), self.render_state_after(hs0, span, cs, metrics).pos) || (
            all[n] matches Ok(c) && !can_step(self.render_state_after(hs0, span, cs, metrics).pos, c, metrics))));
        }
        Ok(f)
    }

    /// The highlights of the formatter, each with its margin level computed
    /// after the ones before it, and no start or end level yet.
    pub open spec fn initial_mapped(&self, hs: Seq<MappedHighlight>) -> bool {
        &&& hs.len() == self.highlights_seq().len()
        &&& forall|k: int|
            0 <= k < hs.len() ==> {
                &&& (#[trigger] hs[k]).highlight() == self.highlights_seq()[k]
                &&& hs[k].margin_nest_level() == margin_level(self.highlights_seq()[k].spec_span(), hs.take(k))
                &&& hs[k].start_nest_level() == 0
                &&& hs[k].end_nest_level() == 0
            }
    }

    /// The width of the line-number gutter of a render bounded by `span`.
    pub open spec fn render_line_number_margin(&self, span: Span) -> int {
        line_number_margin_of(
            self.shows_line_numbers(),
            self.viewbox_spec(),
            if self.highlights_seq().len() == 0 {
                None
            } else {
                Some(self.highlights_seq().last().spec_span().last().line)
            },
            span.last().line,
        ) as int
    }

    /// A line's grid once done: its line number (or the elision dots), then
    /// the highlights' lines and labels drawn as on line `at`.
    pub open spec fn finished_line<'a, M: Metrics>(
        &self,
        g: GridView,
        hs: Seq<MappedHighlight<'a>>,
        line: Option<usize>,
        at: int,
        lnm: int,
        margin: int,
        fnw: Option<usize>,
        m: &M,
    ) -> (GridView, Seq<MappedHighlight<'a>>) {
        let g1 = line_number_drawn(g, line, lnm, self.margin_color_spec());
        let pass = spans_pass(g1, hs, 0, at, margin, fnw);
        (labels_pass(pass.0, pass.1, pass.1.len() as int, at, margin, m), pass.1)
    }

    /// The render state once character `c` is read.
    pub open spec fn render_char<'a, M: Metrics>(&self, st: RenderState<'a>, c: char, lnm: int, margin: int, m: &M) -> RenderState<'a> {
        let n = step(st.pos.line as int, st.pos.column as int, c, m);
        let next = Position { line: n.0 as usize, column: n.1 as usize };
        if c == '\n' {
            let done = if st.important {
                self.finished_line(st.current, st.highlights, Some(st.pos.line), st.pos.line as int, lnm, margin, st.first_non_whitespace, m)
            } else {
                (st.current, st.highlights)
            };
            let lines1 = if st.important {
                st.lines.push(done.0)
            } else {
                st.lines
            };
            let vis = self.visible(st.pos.line + 1);
            let elision = self.finished_line(blank_grid(), done.1, None, st.pos.line as int, lnm, margin, None, m);
            RenderState {
                pos: next,
                important: vis,
                first_non_whitespace: None,
                current: blank_grid(),
                lines: if vis && !st.important {
                    lines1.push(elision.0)
                } else {
                    lines1
                },
                highlights: if vis && !st.important {
                    elision.1
                } else {
                    done.1
                },
            }
        } else if c == '\t' {
            RenderState { pos: next, ..st }
        } else if st.important {
            RenderState {
                pos: next,
                first_non_whitespace: if self.uses_shortcut() && st.first_non_whitespace is None
                    && !is_whitespace_char(c) && !is_control_char(c) {
                    Some(st.pos.column)
                } else {
                    st.first_non_whitespace
                },
                current: if margin + st.pos.column <= usize::MAX {
                    st.current.set(margin + st.pos.column, 0, Char::Text(c))
                } else {
                    st.current
                },
                ..st
            }
        } else {
            RenderState { pos: next, ..st }
        }
    }

    /// The render state once the characters `cs` are read from `st`.
    pub open spec fn render_fold<'a, M: Metrics>(&self, st: RenderState<'a>, cs: Seq<char>, lnm: int, margin: int, m: &M) -> RenderState<'a>
        decreases cs.len(),
    {
        if cs.len() == 0 {
            st
        } else {
            self.render_char(self.render_fold(st, cs.drop_last(), lnm, margin, m), cs.last(), lnm, margin, m)
        }
    }

    /// The grids of a render whose state is `st` once the reading stops.
    pub open spec fn render_finish<'a, M: Metrics>(&self, st: RenderState<'a>, lnm: int, margin: int, m: &M) -> Seq<GridView> {
        if st.important {
            st.lines.push(
                self.finished_line(st.current, st.highlights, Some(st.pos.line), st.pos.line as int, lnm, margin, st.first_non_whitespace, m).0,
            )
        } else {
            st.lines
        }
    }

    /// The render state before any character is read.
    pub open spec fn render_start<'a>(&self, hs: Seq<MappedHighlight<'a>>, span: Span) -> RenderState<'a> {
        RenderState {
            pos: span.start(),
            important: self.visible(span.start().line as int),
            first_non_whitespace: None,
            current: blank_grid(),
            lines: Seq::empty(),
            highlights: hs,
        }
    }

    /// The state after reading `cs`, from the start of a render bounded by `span`.
    pub open spec fn render_state_after<'a, M: Metrics>(&self, hs: Seq<MappedHighlight<'a>>, span: Span, cs: Seq<char>, m: &M) -> RenderState<'a> {
        let lnm = self.render_line_number_margin(span);
        self.render_fold(self.render_start(hs, span), cs, lnm, lnm + max_margin(hs), m)
    }

    /// Item `j` of a stream is read by a render bounded by `span` and then laid
    /// out: it is a character, the cursor before it is not past the span's
    /// last position, and the cursor can move past it.
    pub open spec fn reads_on<'a, E, M: Metrics>(&self, hs: Seq<MappedHighlight<'a>>, span: Span, items: Seq<Result<char, E>>, j: int, m: &M) -> bool {
        let st = self.render_state_after(hs, span, read_chars(items.take(j)), m);
        items[j] matches Ok(c) && !pos_lt(span.last(), st.pos) && can_step(st.pos, c, m)
    }

    /// The grids of a render bounded by `span` that stops after reading `cs`.
    pub open spec fn render_output<'a, M: Metrics>(&self, hs: Seq<MappedHighlight<'a>>, span: Span, cs: Seq<char>, m: &M) -> Seq<GridView> {
        let lnm = self.render_line_number_margin(span);
        self.render_finish(self.render_state_after(hs, span, cs, m), lnm, lnm + max_margin(hs), m)
    }

    /// Rendering lines `first` to `last` gives a row to a line exactly when
    /// it is visible (within the viewbox of an important line), and each
    /// elided stretch gives exactly one elision row, right before the
    /// visible line that ends it.
    pub proof fn lemma_viewbox_rows(&self, first: int, last: int)
        ensures
            forall|l: int|
                #[trigger] self.expected_rows(first, last).contains(Some(l)) <==> (first <= l <= last
                    && self.visible(l)),
            forall|k: int|
                0 <= k < self.expected_rows(first, last).len() && #[trigger] self.expected_rows(first, last)[k]
                    is None ==> k + 1 < self.expected_rows(first, last).len() && (self.expected_rows(
                    first,
                    last,
                )[k + 1] matches Some(l) && first < l && !self.visible(l - 1)),
        decreases last - first,
    {
        let rows = self.expected_rows(first, last);
        if last < first {
        } else if last == first {
            if self.visible(first) {
                assert(rows[0] == Some(first));
            }
        } else {
            self.lemma_viewbox_rows(first, last - 1);
            let before = self.expected_rows(first, last - 1);
            assert forall|l: int| #[trigger] rows.contains(Some(l)) <==> (first <= l <= last && self.visible(l)) by {
                if rows.contains(Some(l)) {
                    let k = choose|k: int| 0 <= k < rows.len() && rows[k] == Some(l);
                    if k < before.len() {
                        assert(before[k] == rows[k]);
                        assert(before.contains(Some(l)));
                    }
                }
                if first <= l <= last && self.visible(l) {
                    if l < last {
                        assert(before.contains(Some(l)));
                        let k = choose|k: int| 0 <= k < before.len() && before[k] == Some(l);
                        assert(rows[k] == Some(l));
                    } else {
                        assert(rows[rows.len() - 1] == Some(last));
                    }
                }
            }
            assert forall|k: int| 0 <= k < rows.len() && #[trigger] rows[k] is None implies k + 1 < rows.len() && (
            rows[k + 1] matches Some(l) && first < l && !self.visible(l - 1)) by {
                if k < before.len() {
                    assert(before[k] == rows[k]);
                    if k + 1 < before.len() {
                        assert(before[k + 1] == rows[k + 1]);
                    }
                }
            }
        }
    }

    /// The important lines of the formatter render exactly the visible lines.
    proof fn lemma_includes_visible(&self, il: &ImportantLines, line: int)
        requires
            self.viewbox_spec() is None ==> *il is All,
            self.viewbox_spec() is Some ==> (*il matches ImportantLines::Lines(lines, vb) && vb
                == self.viewbox_spec()->0 && (forall|l: usize|
                lines@.contains(l) <==> is_important_line(self.highlights_seq(), l as int))),
        ensures
            il.spec_includes(line) == self.visible(line),
    {
        match il {
            ImportantLines::All => {},
            ImportantLines::Lines(lines, vb) => {
                lemma_any_within(lines@, *vb as int, line);
            },
        }
    }
}

/// Formatted text: the grids of the rendered lines, in order.
pub struct Formatted {
    lines: Vec<CharMap>,
    rows: Ghost<Seq<Option<int>>>,
}

impl Formatted {
    /// What each grid shows: the number of a visible line, or `None` for an
    /// elision row.
    pub closed spec fn rows(&self) -> Seq<Option<int>> {
        self.rows@
    }

    /// The grids, one per row.
    pub closed spec fn grids(&self) -> Seq<GridView> {
        self.lines@.map_values(|m: CharMap| m@)
    }

    pub closed spec fn wf(&self) -> bool {
        &&& self.lines@.len() == self.rows@.len()
        &&& forall|j: int| 0 <= j < self.lines@.len() ==> (#[trigger] self.lines@[j])@.wf()
    }

    /// The number of rendered rows.
    pub fn len(&self) -> (r: usize)
        ensures
            r == self.grids().len(),
    {
        self.lines.len()
    }

    /// The grid of the `i`-th rendered row.
    pub fn grid(&self, i: usize) -> (r: &CharMap)
        requires
            i < self.grids().len(),
        ensures
            r@ == self.grids()[i as int],
    {
        &self.lines[i]
    }
}


/// The texts of the grids from `k` on, one after the other, without colors.
pub open spec fn grids_text(gs: Seq<GridView>, k: int) -> Seq<char>
    decreases gs.len() - k,
{
    if k < 0 || k >= gs.len() {
        Seq::empty()
    } else {
        grid_text(gs[k], 0) + grids_text(gs, k + 1)
    }
}

/// The texts of the grids from `k` on, one after the other, with colors.
pub open spec fn grids_colored_text(gs: Seq<GridView>, k: int) -> Seq<char>
    decreases gs.len() - k,
{
    if k < 0 || k >= gs.len() {
        Seq::empty()
    } else {
        colored_text(gs[k], 0, 0, None) + grids_colored_text(gs, k + 1)
    }
}

impl Formatted {
    /// The formatted text without colors.
    pub fn to_string(&self) -> (r: String)
        requires
            self.wf(),
        ensures
            r@ == grids_text(self.grids(), 0),
    {
        let mut s = String::new();
        let mut k: usize = 0;
        let ghost gs = self.grids();
        proof {
            assert(s@ + grids_text(gs, 0) =~= grids_text(gs, 0));
        }
        while k < self.lines.len()
            invariant
                self.wf(),
                gs == self.grids(),
                gs.len() == self.lines@.len(),
                k <= gs.len(),
                s@ + grids_text(gs, k as int) == grids_text(gs, 0),
            decreases gs.len() - k,
        {
            let ghost before = s@;
            let t = self.lines[k].to_string();
            push_str(&mut s, t.as_str());
            proof {
                assert(gs[k as int] == self.lines@[k as int]@);
                assert(before + grids_text(gs, k as int) =~= s@ + grids_text(gs, k + 1));
            }
            k = k + 1;
        }
        proof {
            assert(s@ + grids_text(gs, k as int) =~= s@);
        }
        s
    }

    /// The formatted text with terminal colors.
    pub fn to_colored_string(&self) -> (r: String)
        requires
            self.wf(),
        ensures
            r@ == grids_colored_text(self.grids(), 0),
    {
        let mut s = String::new();
        let mut k: usize = 0;
        let ghost gs = self.grids();
        proof {
            assert(s@ + grids_colored_text(gs, 0) =~= grids_colored_text(gs, 0));
        }
        while k < self.lines.len()
            invariant
                self.wf(),
                gs == self.grids(),
                gs.len() == self.lines@.len(),
                k <= gs.len(),
                s@ + grids_colored_text(gs, k as int) == grids_colored_text(gs, 0),
            decreases gs.len() - k,
        {
            let ghost before = s@;
            let t = self.lines[k].to_colored_string();
            push_str(&mut s, t.as_str());
            proof {
                assert(gs[k as int] == self.lines@[k as int]@);
                assert(before + grids_colored_text(gs, k as int) =~= s@ + grids_colored_text(gs, k + 1));
            }
            k = k + 1;
        }
        proof {
            assert(s@ + grids_colored_text(gs, k as int) =~= s@);
        }
        s
    }
}

impl Default for Formatter {
    fn default() -> (r: Formatter)
        ensures
            r.highlights_seq().len() == 0,
            r.margin_color_spec() == Color::Blue,
            r.shows_line_numbers(),
            r.uses_shortcut(),
            r.viewbox_spec() == Some(2usize),
    {
        Formatter::new()
    }
}

} // verus!
