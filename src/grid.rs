use crate::metrics::Metrics;
use crate::position::{can_step, step, Position};
use crate::style::{Color, Style};
use crate::text::{decimal, push_char, push_str};
use vstd::prelude::*;

verus! {

/// A cell of a character grid: what it shows, and with which color.
#[derive(Clone, Copy, PartialEq, Eq, Structural, Debug)]
pub enum Char {
    Empty,
    Text(char),
    Margin(char, Color),
    Label(char, Color),
    SpanMarker(char, Color),
    SpanUnderline(char, Color),
    SpanVertical(Color),
    SpanHorizontal(Color),
    SpanMargin(Color),
    SpanMarginMarker(Color),
}

impl Char {
    pub open spec fn glyph(self) -> char {
        match self {
            Char::Empty => ' ',
            Char::Text(c) => c,
            Char::Margin(c, _) => c,
            Char::Label(c, _) => c,
            Char::SpanUnderline(c, _) => c,
            Char::SpanMarker(c, _) => c,
            Char::SpanVertical(_) => '|',
            Char::SpanHorizontal(_) => '_',
            Char::SpanMargin(_) => '|',
            Char::SpanMarginMarker(_) => '/',
        }
    }

    pub open spec fn spec_color(&self) -> Option<Color> {
        match *self {
            Char::Empty | Char::Text(_) => None,
            Char::Margin(_, color) => Some(color),
            Char::Label(_, color) => Some(color),
            Char::SpanUnderline(_, color) => Some(color),
            Char::SpanMarker(_, color) => Some(color),
            Char::SpanVertical(color) => Some(color),
            Char::SpanHorizontal(color) => Some(color),
            Char::SpanMargin(color) => Some(color),
            Char::SpanMarginMarker(color) => Some(color),
        }
    }

    /// The character displayed for this cell.
    pub fn unwrap(self) -> (r: char)
        ensures
            r == self.glyph(),
    {
        match self {
            Char::Empty => ' ',
            Char::Text(c) => c,
            Char::Margin(c, _) => c,
            Char::Label(c, _) => c,
            Char::SpanUnderline(c, _) => c,
            Char::SpanMarker(c, _) => c,
            Char::SpanVertical(_) => '|',
            Char::SpanHorizontal(_) => '_',
            Char::SpanMargin(_) => '|',
            Char::SpanMarginMarker(_) => '/',
        }
    }

    /// The color of the cell; text and empty cells have none.
    #[verifier::when_used_as_spec(spec_color)]
    pub fn color(&self) -> (r: Option<Color>)
        ensures
            r == self.spec_color(),
    {
        match self {
            Char::Empty | Char::Text(_) => None,
            Char::Margin(_, color) => Some(*color),
            Char::Label(_, color) => Some(*color),
            Char::SpanUnderline(_, color) => Some(*color),
            Char::SpanMarker(_, color) => Some(*color),
            Char::SpanVertical(color) => Some(*color),
            Char::SpanHorizontal(color) => Some(*color),
            Char::SpanMargin(color) => Some(*color),
            Char::SpanMarginMarker(color) => Some(*color),
        }
    }

    /// Checks that nothing is drawn in the cell.
    pub fn is_free(&self) -> (r: bool)
        ensures
            r == (*self is Empty),
    {
        match self {
            Char::Empty => true,
            _ => false,
        }
    }

    /// Checks that the cell holds a horizontal line.
    pub fn is_span_horizontal(&self) -> (r: bool)
        ensures
            r == (*self is SpanHorizontal),
    {
        match self {
            Char::SpanHorizontal(_) => true,
            _ => false,
        }
    }

    /// Checks that the cell holds a vertical line of the highlights margin.
    pub fn is_span_margin(&self) -> (r: bool)
        ensures
            r == (*self is SpanMargin),
    {
        match self {
            Char::SpanMargin(_) => true,
            _ => false,
        }
    }

    /// Checks that the cell holds a label character.
    pub fn is_label(&self) -> (r: bool)
        ensures
            r == (*self is Label),
    {
        match self {
            Char::Label(_, _) => true,
            _ => false,
        }
    }
}

impl From<char> for Char {
    fn from(c: char) -> (r: Char)
        ensures
            r == Char::Text(c),
    {
        Char::Text(c)
    }
}

impl vstd::std_specs::convert::FromSpecImpl<char> for Char {
    open spec fn obeys_from_spec() -> bool {
        true
    }

    open spec fn from_spec(c: char) -> Char {
        Char::Text(c)
    }
}

/// The cell that a new row takes below `above`, the cell of the last row in
/// the same column, where `right` and `left` are its neighbours.
///
/// A margin line goes on down unless it turns right into a horizontal line, a
/// margin marker becomes a margin line, an empty cell left of a horizontal line
/// starts a margin line, and the line-number separator goes on down.
pub open spec fn align_cell(above: Char, right: Char, left: Char) -> Char {
    match above {
        Char::SpanMargin(c) => if right is SpanHorizontal && !(left is SpanHorizontal) {
            Char::Empty
        } else {
            Char::SpanMargin(c)
        },
        Char::SpanMarginMarker(c) => Char::SpanMargin(c),
        Char::Empty => match right {
            Char::SpanHorizontal(c) => Char::SpanMargin(c),
            _ => Char::Empty,
        },
        Char::Margin(m, c) => if m == '|' {
            Char::Margin('|', c)
        } else {
            Char::Empty
        },
        _ => Char::Empty,
    }
}

/// The larger of two integers.
pub open spec fn max_int(a: int, b: int) -> int {
    if a >= b {
        a
    } else {
        b
    }
}

/// A character grid as a value: its size and its cells, row after row.
pub struct GridView {
    pub width: nat,
    pub height: nat,
    pub cells: Seq<Char>,
}

impl GridView {
    pub open spec fn wf(self) -> bool {
        self.cells.len() == self.width * self.height
    }

    /// The cell at column `x` of row `y`; empty outside the grid.
    pub open spec fn at(self, x: int, y: int) -> Char {
        if 0 <= x < self.width && 0 <= y < self.height {
            self.cells[x + y * self.width]
        } else {
            Char::Empty
        }
    }

    /// The cell at `(x, y)` once the grid has `new_height` rows: old cells
    /// keep their place, cells of new rows below old columns follow the
    /// align rule, and the rest is empty.
    pub open spec fn grown_at(self, x: int, y: int, new_height: int) -> Char {
        if 0 <= x < self.width && 0 <= y < self.height {
            self.at(x, y)
        } else if 0 <= x < self.width && self.height <= y < new_height && self.height > 0 {
            let my = self.height - 1;
            align_cell(self.at(x, my), self.at(x + 1, my), self.at(x - 1, my))
        } else {
            Char::Empty
        }
    }

    /// The grid grown to `width` columns and `height` rows.
    pub open spec fn resized(self, width: nat, height: nat) -> GridView {
        GridView {
            width,
            height,
            cells: Seq::new(width * height, |i: int| self.grown_at(i % (width as int), i / (width as int), height as int)),
        }
    }

    /// Growing the grid to at least `w` columns and `h` rows stays within `usize`.
    pub open spec fn can_hold(self, w: int, h: int) -> bool {
        max_int(w, self.width as int) * max_int(h, self.height as int) <= usize::MAX
    }

    /// The grid grown to at least `w` columns and `h` rows, where it can hold them.
    pub open spec fn reserved(self, w: int, h: int) -> GridView {
        if self.can_hold(w, h) {
            self.resized(max_int(w, self.width as int) as nat, max_int(h, self.height as int) as nat)
        } else {
            self
        }
    }

    /// The grid once `c` is set at `(x, y)`, growing it as needed. A label
    /// cell is never overwritten, and a cell out of `usize` reach is not set.
    pub open spec fn set(self, x: int, y: int, c: Char) -> GridView {
        if 0 <= x < usize::MAX && 0 <= y < usize::MAX && self.can_hold(x + 1, y + 1) && !(self.at(
            x,
            y,
        ) is Label) {
            let r = self.reserved(x + 1, y + 1);
            GridView { cells: r.cells.update(x + y * r.width, c), ..r }
        } else {
            self
        }
    }

    /// The column drop at column `x` from row `j` to row `y`: each free or
    /// horizontal cell becomes the marker if none was placed yet (`head`
    /// false), and a vertical line after it.
    pub open spec fn marker_from(self, color: Color, marker: char, x: int, j: int, y: int, head: bool) -> GridView
        decreases y + 1 - j,
    {
        if j > y {
            self
        } else {
            let prev = self.at(x, j);
            if prev is Empty || prev is SpanHorizontal {
                let c = if head {
                    Char::SpanVertical(color)
                } else {
                    Char::SpanMarker(marker, color)
                };
                self.set(x, j, c).marker_from(color, marker, x, j + 1, y, true)
            } else {
                self.marker_from(color, marker, x, j + 1, y, head)
            }
        }
    }

    /// The grid once a marker of `style` is dropped at column `x`, from row 1
    /// down to row `y`.
    pub open spec fn drawn_marker(self, style: Style, y: int, x: int) -> GridView {
        self.marker_from(style.color(), style.marker(), x, 1, y, false)
    }

    /// An open line on row `y` from column `x` to `end`: horizontal strokes
    /// wherever no margin line stands, then a marker at `end`.
    pub open spec fn open_line_from(self, style: Style, y: int, x: int, end: int) -> GridView
        decreases end + 1 - x,
    {
        if x > end {
            self
        } else if x == end {
            self.drawn_marker(style, y, x)
        } else {
            let g = if self.at(x, y) is SpanMargin {
                self
            } else {
                self.set(x, y, Char::SpanHorizontal(style.color()))
            };
            g.open_line_from(style, y, x + 1, end)
        }
    }

    /// The grid once an open line of `style` is drawn on row `y` from column
    /// `start` to column `end`.
    pub open spec fn drawn_open_line(self, style: Style, y: int, start: int, end: int) -> GridView {
        self.reserved(end + 1, y + 1).open_line_from(style, y, start, end)
    }

    /// A closed line on row `y` from column `x` to `end`, between markers at
    /// `start` and `end`: an underline on row 1, a horizontal line below.
    pub open spec fn closed_line_from(self, style: Style, y: int, start: int, x: int, end: int) -> GridView
        decreases end + 1 - x,
    {
        if x > end {
            self
        } else {
            let g = if x == start || x == end {
                self.drawn_marker(style, y, x)
            } else if y == 1 {
                self.set(x, y, Char::SpanUnderline(style.line(), style.color()))
            } else {
                self.set(x, y, Char::SpanHorizontal(style.color()))
            };
            g.closed_line_from(style, y, start, x + 1, end)
        }
    }

    /// The grid once a closed line of `style` is drawn on row `y` from column
    /// `start` to column `end`.
    pub open spec fn drawn_closed_line(self, style: Style, y: int, start: int, end: int) -> GridView {
        self.reserved(end + 1, y + 1).closed_line_from(style, y, start, start, end)
    }

    /// Every cell of the rectangle at `(x, y)` of `w` columns and `h` rows is empty.
    pub open spec fn rect_free(self, x: int, y: int, w: int, h: int) -> bool {
        forall|i: int, j: int| x <= i < x + w && y <= j < y + h ==> #[trigger] self.at(i, j) is Empty
    }

    /// The cells of `map` from index `k` on, set at offset `(ox, oy)`.
    pub open spec fn stamped_from(self, ox: int, oy: int, map: GridView, k: int) -> GridView
        decreases map.width * map.height - k,
    {
        if k < 0 || k >= map.width * map.height {
            self
        } else {
            let x = k % (map.width as int);
            let y = k / (map.width as int);
            self.set(ox + x, oy + y, map.at(x, y)).stamped_from(ox, oy, map, k + 1)
        }
    }

    /// The grid once `map` is stamped at offset `(ox, oy)`.
    pub open spec fn stamped(self, ox: int, oy: int, map: GridView) -> GridView {
        self.reserved(ox + map.width, oy + map.height).stamped_from(ox, oy, map, 0)
    }

    /// The rectangle probed before stamping `map` at `(ox, oy)`: the map's own
    /// cells and one more column on its right and row below, one column on its
    /// left where `ox > 0`, and one row above where `oy > 1`.
    pub open spec fn can_stamp(self, ox: int, oy: int, map: GridView) -> bool {
        let dx: int = if ox > 0 {
            1
        } else {
            0
        };
        let dy: int = if oy > 1 {
            1
        } else {
            0
        };
        self.rect_free(ox - dx, oy - dy, map.width + dx + 1, map.height + dy + 1)
    }

    /// The cell `c` set at column `x` from row `j` up to, not including, row `y`.
    pub open spec fn column_from(self, x: int, j: int, y: int, c: Char) -> GridView
        decreases y - j,
    {
        if j >= y {
            self
        } else {
            self.set(x, j, c).column_from(x, j + 1, y, c)
        }
    }

    /// The cell `c` set on row `y` from column `i` up to, not including, column `x`.
    pub open spec fn row_from(self, y: int, i: int, x: int, c: Char) -> GridView
        decreases x - i,
    {
        if i >= x {
            self
        } else {
            self.set(i, y, c).row_from(y, i + 1, x, c)
        }
    }


    /// The characters of `s`, read from `(line, column)`, set as label cells
    /// of `color` where they fall; new lines and tabulations move the cursor
    /// and leave no cell. Laying out ends at a character whose next position
    /// cannot be reached.
    pub open spec fn label_from<M: Metrics>(self, line: int, column: int, s: Seq<char>, color: Color, m: &M) -> GridView
        decreases s.len(),
    {
        if s.len() == 0 {
            self
        } else {
            let c = s[0];
            let g = if c == '\n' || c == '\t' {
                self
            } else {
                self.set(column, line, Char::Label(c, color))
            };
            let p = step(line, column, c, m);
            if can_step(Position { line: line as usize, column: column as usize }, c, m) {
                g.label_from(p.0, p.1, s.drop_first(), color, m)
            } else {
                g
            }
        }
    }

    /// The first row from `y` on where `map` can be stamped at column `x`.
    pub open spec fn first_free_row(self, x: int, map: GridView, y: int) -> int
        decreases self.height + 3 - y,
    {
        if self.can_stamp(x, y, map) || y >= self.height + 3 {
            y
        } else {
            self.first_free_row(x, map, y + 1)
        }
    }

    /// The row where a label grid lands below an anchor at column `x`: row 1,
    /// two columns right of the anchor, where that is free; otherwise the first
    /// free row from row 3 down, at the anchor's column.
    pub open spec fn label_row(self, x: int, map: GridView) -> int {
        if self.can_stamp(x + 2, 1, map) {
            1
        } else {
            self.first_free_row(x, map, 3)
        }
    }

    /// The number of rectangles probed to place a label for an anchor at
    /// column `x`: the one at row 1, then one per row from row 3 down to the
    /// landing row.
    pub open spec fn label_probes(self, x: int, map: GridView) -> int {
        let y = self.label_row(x, map);
        if y == 1 {
            1
        } else {
            1 + (y - 2)
        }
    }

    /// The grid once a label grid is placed for an anchor at column `x`, with
    /// vertical lines from row 2 down to the label where it lies below.
    pub open spec fn labelled(self, x: int, map: GridView, color: Color) -> GridView {
        let y = self.label_row(x, map);
        let g = if y == 1 {
            self.stamped(x + 2, 1, map)
        } else {
            self.stamped(x, y, map)
        };
        g.column_from(x, 2, y, Char::SpanVertical(color))
    }
}

/// A grid cell index lies in the grid and gives back its column and row.
pub proof fn lemma_cell_index(x: int, y: int, w: int, h: int)
    requires
        0 <= x < w,
        0 <= y < h,
    ensures
        0 <= x + y * w < w * h,
        (x + y * w) % w == x,
        (x + y * w) / w == y,
{
    assert(0 <= y * w) by (nonlinear_arith)
        requires
            0 <= y,
            0 < w,
    ;
    assert(x + y * w < w * h) by (nonlinear_arith)
        requires
            0 <= x < w,
            0 <= y < h,
    ;
    vstd::arithmetic::div_mod::lemma_fundamental_div_mod_converse(x + y * w, w, y, x);
}

/// An index below `w * h` is the cell index of its column and row.
pub proof fn lemma_index_cell(i: int, w: int, h: int)
    requires
        0 <= i < w * h,
        w > 0,
    ensures
        0 <= i % w < w,
        0 <= i / w < h,
        i == i % w + (i / w) * w,
{
    vstd::arithmetic::div_mod::lemma_fundamental_div_mod(i, w);
    vstd::arithmetic::div_mod::lemma_mod_bound(i, w);
    vstd::arithmetic::div_mod::lemma_div_pos_is_pos(i, w);
    assert(i / w < h) by {
        vstd::arithmetic::div_mod::lemma_div_is_ordered(i, w * h - 1, w);
        assert(w * h - 1 == (h - 1) * w + (w - 1)) by (nonlinear_arith);
        vstd::arithmetic::div_mod::lemma_fundamental_div_mod_converse(w * h - 1, w, h - 1, w - 1);
    }
    assert(w * (i / w) == (i / w) * w) by (nonlinear_arith);
}

/// Growing a grid to its own size leaves it as it is.
proof fn lemma_resized_same(g: GridView)
    requires
        g.wf(),
    ensures
        g.resized(g.width, g.height) == g,
{
    let r = g.resized(g.width, g.height);
    assert forall|i: int| 0 <= i < r.cells.len() implies r.cells[i] == g.cells[i] by {
        lemma_index_cell(i, g.width as int, g.height as int);
    }
    assert(r.cells =~= g.cells);
}

/// The cells of a grown grid, by column and row.
pub proof fn lemma_resized_at(g: GridView, width: nat, height: nat, x: int, y: int)
    requires
        g.wf(),
        g.width <= width,
        g.height <= height,
    ensures
        g.resized(width, height).wf(),
        g.resized(width, height).at(x, y) == g.grown_at(x, y, height as int),
{
    let r = g.resized(width, height);
    if 0 <= x < width && 0 <= y < height {
        lemma_cell_index(x, y, width as int, height as int);
    }
}

/// Setting a cell never shrinks the grid, and every other cell inside the old
/// grid keeps its value.
pub proof fn lemma_set_grows(g: GridView, x: int, y: int, c: Char)
    requires
        g.wf(),
    ensures
        g.set(x, y, c).wf(),
        g.set(x, y, c).width >= g.width,
        g.set(x, y, c).height >= g.height,
        forall|i: int, j: int|
            0 <= i < g.width && 0 <= j < g.height && (i != x || j != y) ==> #[trigger] g.set(
                x,
                y,
                c,
            ).at(i, j) == g.at(i, j),
{
    lemma_set_at(g, x, y, c);
}

/// Once a cell holds a label, setting any cell leaves that label in place.
pub proof fn lemma_label_priority(g: GridView, x: int, y: int, c: Char)
    requires
        g.wf(),
    ensures
        forall|i: int, j: int| #[trigger] g.at(i, j) is Label ==> g.set(x, y, c).at(i, j) == g.at(i, j),
{
    lemma_set_at(g, x, y, c);
}

/// The cells of a grid after a set: the set cell, unless it held a label, and
/// otherwise the cells of the grown grid.
pub proof fn lemma_set_at(g: GridView, x: int, y: int, c: Char)
    requires
        g.wf(),
    ensures
        g.set(x, y, c).wf(),
        g.set(x, y, c).width >= g.width,
        g.set(x, y, c).height >= g.height,
        forall|i: int, j: int| #[trigger]
            g.set(x, y, c).at(i, j) == if g.set(x, y, c) == g {
                g.at(i, j)
            } else if i == x && j == y {
                c
            } else {
                g.grown_at(i, j, g.set(x, y, c).height as int)
            },
        g.set(x, y, c) != g ==> !(g.at(x, y) is Label),
{
    let s = g.set(x, y, c);
    if 0 <= x < usize::MAX && 0 <= y < usize::MAX && g.can_hold(x + 1, y + 1) && !(g.at(x, y) is Label) {
        let r = g.reserved(x + 1, y + 1);
        let nw = r.width;
        let nh = r.height;
        lemma_cell_index(x, y, nw as int, nh as int);
        assert forall|i: int, j: int| #[trigger]
            s.at(i, j) == if s == g {
                g.at(i, j)
            } else if i == x && j == y {
                c
            } else {
                g.grown_at(i, j, s.height as int)
            } by {
            lemma_resized_at(g, nw, nh, i, j);
            if 0 <= i < nw && 0 <= j < nh {
                lemma_cell_index(i, j, nw as int, nh as int);
            }
            if s == g {
                if 0 <= i < nw && 0 <= j < nh {
                    if i == x && j == y {
                    } else {
                        assert(s.cells[i + j * nw] == r.cells[i + j * nw]);
                    }
                }
            }
        }
    }
}

/// Below the last row of a grid, there is always room to stamp.
pub proof fn lemma_can_stamp_below(g: GridView, x: int, y: int, map: GridView)
    requires
        y >= g.height + 1,
    ensures
        g.can_stamp(x, y, map),
{
}

/// The row where a label lands lies no lower than one row below the grid,
/// and no higher than row 3 when it lands below the anchor.
pub proof fn lemma_first_free_row_bound(g: GridView, x: int, map: GridView, y: int)
    requires
        y >= 1,
    ensures
        y <= g.first_free_row(x, map, y),
        g.first_free_row(x, map, y) <= max_int(y, g.height as int + 1),
        g.can_stamp(x, g.first_free_row(x, map, y), map),
    decreases g.height + 3 - y,
{
    if g.can_stamp(x, y, map) {
    } else if y >= g.height + 3 {
        lemma_can_stamp_below(g, x, y, map);
    } else {
        if y >= g.height + 1 {
            lemma_can_stamp_below(g, x, y, map);
        }
        lemma_first_free_row_bound(g, x, map, y + 1);
    }
}

/// `h` is `g` grown: no smaller, and with the cells of the first `l` columns
/// of `g`'s rows left as they are.
pub open spec fn keeps_columns(g: GridView, h: GridView, l: int) -> bool {
    &&& h.wf()
    &&& h.width >= g.width
    &&& h.height >= g.height
    &&& forall|i: int, j: int| 0 <= i < l && 0 <= j < g.height ==> #[trigger] h.at(i, j) == g.at(i, j)
}

pub proof fn lemma_keeps_trans(a: GridView, b: GridView, c: GridView, l: int)
    requires
        keeps_columns(a, b, l),
        keeps_columns(b, c, l),
    ensures
        keeps_columns(a, c, l),
{
    assert forall|i: int, j: int| 0 <= i < l && 0 <= j < a.height implies #[trigger] c.at(i, j) == a.at(i, j) by {
        assert(c.at(i, j) == b.at(i, j));
    }
}

/// Setting a cell at or right of column `l` keeps the first `l` columns.
pub proof fn lemma_set_keeps(g: GridView, x: int, y: int, c: Char, l: int)
    requires
        g.wf(),
        x >= l,
    ensures
        keeps_columns(g, g.set(x, y, c), l),
{
    lemma_set_at(g, x, y, c);
}

/// Growing a grid keeps all its cells.
pub proof fn lemma_reserved_keeps(g: GridView, w: int, h: int, l: int)
    requires
        g.wf(),
    ensures
        keeps_columns(g, g.reserved(w, h), l),
{
    if g.can_hold(w, h) {
        let nw = max_int(w, g.width as int) as nat;
        let nh = max_int(h, g.height as int) as nat;
        assert forall|i: int, j: int| 0 <= i < l && 0 <= j < g.height implies #[trigger] g.reserved(w, h).at(i, j)
            == g.at(i, j) by {
            lemma_resized_at(g, nw, nh, i, j);
        }
        lemma_resized_at(g, nw, nh, 0, 0);
    }
}

/// What a new row holds below a line-number gutter cell `c`: the separator
/// bar carries down, nothing else does.
pub open spec fn carried(c: Char) -> Char {
    match c {
        Char::Margin(m, color) => if m == '|' {
            Char::Margin('|', color)
        } else {
            Char::Empty
        },
        _ => Char::Empty,
    }
}

/// The first `l` columns hold only line-number marks or nothing, and column
/// `l` holds no horizontal line.
pub open spec fn clean_gutter(g: GridView, l: int) -> bool {
    &&& forall|i: int, j: int| 0 <= i < l ==> (#[trigger] g.at(i, j) is Empty || g.at(i, j) is Margin)
    &&& forall|j: int| !(#[trigger] g.at(l, j) is SpanHorizontal)
}

/// `h` is `g` grown with its first `l` columns kept as a gutter: rows of `g`
/// keep those cells, and where the gutter of `g` is clean, so is that of `h`,
/// and the new rows hold in it what the last row of `g` carries down.
pub open spec fn keeps_gutter(g: GridView, h: GridView, l: int) -> bool {
    &&& keeps_columns(g, h, l)
    &&& clean_gutter(g, l) ==> {
        &&& clean_gutter(h, l)
        &&& forall|i: int, j: int|
            0 <= i < l && g.height <= j < h.height ==> #[trigger] h.at(i, j) == carried(g.at(i, g.height - 1))
    }
}

pub proof fn lemma_keeps_gutter_refl(g: GridView, l: int)
    requires
        g.wf(),
    ensures
        keeps_gutter(g, g, l),
{
}

pub proof fn lemma_keeps_gutter_trans(a: GridView, b: GridView, c: GridView, l: int)
    requires
        keeps_gutter(a, b, l),
        keeps_gutter(b, c, l),
    ensures
        keeps_gutter(a, c, l),
{
    lemma_keeps_trans(a, b, c, l);
    if clean_gutter(a, l) {
        assert forall|i: int, j: int| 0 <= i < l && a.height <= j < c.height implies #[trigger] c.at(i, j)
            == carried(a.at(i, a.height - 1)) by {
            if j < b.height {
                assert(c.at(i, j) == b.at(i, j));
            } else {
                assert(c.at(i, j) == carried(b.at(i, b.height - 1)));
                if b.height - 1 >= a.height {
                    assert(b.at(i, b.height - 1) == carried(a.at(i, a.height - 1)));
                } else {
                    if a.height > 0 {
                        assert(b.at(i, b.height - 1) == a.at(i, a.height - 1));
                    }
                }
            }
        }
    }
}

/// The cells of a grown grid keep a clean gutter clean, and carry it down.
proof fn lemma_grown_gutter(g: GridView, width: nat, height: nat, l: int)
    requires
        g.wf(),
        g.width <= width,
        g.height <= height,
        clean_gutter(g, l),
    ensures
        forall|i: int, j: int|
            0 <= i < l && g.height <= j < height ==> #[trigger] g.grown_at(i, j, height as int) == carried(
                g.at(i, g.height - 1),
            ),
        forall|j: int| !(#[trigger] g.grown_at(l, j, height as int) is SpanHorizontal),
{
    assert forall|i: int, j: int| 0 <= i < l && g.height <= j < height implies #[trigger] g.grown_at(i, j, height as int)
        == carried(g.at(i, g.height - 1)) by {
        let my = g.height - 1;
        assert(g.at(i, my) is Empty || g.at(i, my) is Margin);
        if i + 1 < l {
            assert(g.at(i + 1, my) is Empty || g.at(i + 1, my) is Margin);
        } else {
            assert(!(g.at(l, my) is SpanHorizontal));
        }
    }
    assert forall|j: int| !(#[trigger] g.grown_at(l, j, height as int) is SpanHorizontal) by {
        assert(!(g.at(l, j) is SpanHorizontal));
    }
}

/// Setting a cell right of the gutter, and no horizontal line in its first
/// column, keeps the gutter.
pub proof fn lemma_set_keeps_gutter(g: GridView, x: int, y: int, c: Char, l: int)
    requires
        g.wf(),
        x >= l,
        c is SpanHorizontal ==> x > l,
    ensures
        keeps_gutter(g, g.set(x, y, c), l),
{
    lemma_set_at(g, x, y, c);
    lemma_set_keeps(g, x, y, c, l);
    let h = g.set(x, y, c);
    if clean_gutter(g, l) && h != g {
        lemma_grown_gutter(g, h.width, h.height, l);
        assert forall|i: int, j: int| 0 <= i < l implies (#[trigger] h.at(i, j) is Empty || h.at(i, j) is Margin) by {
            if j < g.height {
                assert(h.at(i, j) == g.grown_at(i, j, h.height as int));
            }
        }
        assert forall|j: int| !(#[trigger] h.at(l, j) is SpanHorizontal) by {
            if !(l == x && j == y) {
                assert(h.at(l, j) == g.grown_at(l, j, h.height as int));
            }
        }
    }
}

/// Growing a grid keeps the gutter.
pub proof fn lemma_reserved_keeps_gutter(g: GridView, w: int, h: int, l: int)
    requires
        g.wf(),
    ensures
        keeps_gutter(g, g.reserved(w, h), l),
{
    lemma_reserved_keeps(g, w, h, l);
    if g.can_hold(w, h) && clean_gutter(g, l) {
        let nw = max_int(w, g.width as int) as nat;
        let nh = max_int(h, g.height as int) as nat;
        let r = g.reserved(w, h);
        lemma_grown_gutter(g, nw, nh, l);
        assert forall|i: int, j: int| true implies r.at(i, j) == g.grown_at(i, j, nh as int) by {
            lemma_resized_at(g, nw, nh, i, j);
        }
        assert forall|i: int, j: int| 0 <= i < l implies (#[trigger] r.at(i, j) is Empty || r.at(i, j) is Margin) by {
            lemma_resized_at(g, nw, nh, i, j);
        }
    }
}

pub proof fn lemma_marker_keeps_gutter(g: GridView, color: Color, marker: char, x: int, j: int, y: int, head: bool, l: int)
    requires
        g.wf(),
        x >= l,
    ensures
        keeps_gutter(g, g.marker_from(color, marker, x, j, y, head), l),
    decreases y + 1 - j,
{
    if j > y {
    } else {
        let prev = g.at(x, j);
        if prev is Empty || prev is SpanHorizontal {
            let c = if head {
                Char::SpanVertical(color)
            } else {
                Char::SpanMarker(marker, color)
            };
            let g1 = g.set(x, j, c);
            lemma_set_keeps_gutter(g, x, j, c, l);
            lemma_set_at(g, x, j, c);
            lemma_marker_keeps_gutter(g1, color, marker, x, j + 1, y, true, l);
            lemma_keeps_gutter_trans(g, g1, g1.marker_from(color, marker, x, j + 1, y, true), l);
        } else {
            lemma_marker_keeps_gutter(g, color, marker, x, j + 1, y, head, l);
        }
    }
}

pub proof fn lemma_open_line_keeps_gutter(g: GridView, style: Style, y: int, x: int, end: int, l: int)
    requires
        g.wf(),
        x > l,
    ensures
        keeps_gutter(g, g.open_line_from(style, y, x, end), l),
    decreases end + 1 - x,
{
    if x > end {
    } else if x == end {
        lemma_marker_keeps_gutter(g, style.color(), style.marker(), x, 1, y, false, l);
    } else {
        let g1 = if g.at(x, y) is SpanMargin {
            g
        } else {
            g.set(x, y, Char::SpanHorizontal(style.color()))
        };
        if !(g.at(x, y) is SpanMargin) {
            lemma_set_keeps_gutter(g, x, y, Char::SpanHorizontal(style.color()), l);
            lemma_set_at(g, x, y, Char::SpanHorizontal(style.color()));
        }
        lemma_open_line_keeps_gutter(g1, style, y, x + 1, end, l);
        lemma_keeps_gutter_trans(g, g1, g1.open_line_from(style, y, x + 1, end), l);
    }
}

pub proof fn lemma_closed_line_keeps_gutter(g: GridView, style: Style, y: int, start: int, x: int, end: int, l: int)
    requires
        g.wf(),
        start >= l,
        x >= start,
    ensures
        keeps_gutter(g, g.closed_line_from(style, y, start, x, end), l),
    decreases end + 1 - x,
{
    if x > end {
    } else {
        let g1 = if x == start || x == end {
            g.drawn_marker(style, y, x)
        } else if y == 1 {
            g.set(x, y, Char::SpanUnderline(style.line(), style.color()))
        } else {
            g.set(x, y, Char::SpanHorizontal(style.color()))
        };
        if x == start || x == end {
            lemma_marker_keeps_gutter(g, style.color(), style.marker(), x, 1, y, false, l);
        } else if y == 1 {
            lemma_set_keeps_gutter(g, x, y, Char::SpanUnderline(style.line(), style.color()), l);
            lemma_set_at(g, x, y, Char::SpanUnderline(style.line(), style.color()));
        } else {
            lemma_set_keeps_gutter(g, x, y, Char::SpanHorizontal(style.color()), l);
            lemma_set_at(g, x, y, Char::SpanHorizontal(style.color()));
        }
        lemma_closed_line_keeps_gutter(g1, style, y, start, x + 1, end, l);
        lemma_keeps_gutter_trans(g, g1, g1.closed_line_from(style, y, start, x + 1, end), l);
    }
}

pub proof fn lemma_column_keeps_gutter(g: GridView, x: int, j: int, y: int, c: Char, l: int)
    requires
        g.wf(),
        x >= l,
        c is SpanHorizontal ==> x > l,
    ensures
        keeps_gutter(g, g.column_from(x, j, y, c), l),
    decreases y - j,
{
    if j < y {
        let g1 = g.set(x, j, c);
        lemma_set_keeps_gutter(g, x, j, c, l);
        lemma_set_at(g, x, j, c);
        lemma_column_keeps_gutter(g1, x, j + 1, y, c, l);
        lemma_keeps_gutter_trans(g, g1, g1.column_from(x, j + 1, y, c), l);
    }
}

/// Every cell holds a label or nothing.
pub open spec fn only_labels(g: GridView) -> bool {
    forall|i: int, j: int| #[trigger] g.at(i, j) is Empty || g.at(i, j) is Label
}

pub proof fn lemma_stamped_keeps_gutter(g: GridView, ox: int, oy: int, map: GridView, k: int, l: int)
    requires
        g.wf(),
        ox >= l,
        only_labels(map),
    ensures
        keeps_gutter(g, g.stamped_from(ox, oy, map, k), l),
    decreases map.width * map.height - k,
{
    if !(k < 0 || k >= map.width * map.height) {
        let x = k % (map.width as int);
        let y = k / (map.width as int);
        assert(map.width > 0) by (nonlinear_arith)
            requires
                0 <= k < map.width * map.height,
        ;
        vstd::arithmetic::div_mod::lemma_mod_bound(k, map.width as int);
        let c = map.at(x, y);
        let g1 = g.set(ox + x, oy + y, c);
        lemma_set_keeps_gutter(g, ox + x, oy + y, c, l);
        lemma_set_at(g, ox + x, oy + y, c);
        lemma_stamped_keeps_gutter(g1, ox, oy, map, k + 1, l);
        lemma_keeps_gutter_trans(g, g1, g1.stamped_from(ox, oy, map, k + 1), l);
    }
}

pub proof fn lemma_labelled_keeps_gutter(g: GridView, x: int, map: GridView, color: Color, l: int)
    requires
        g.wf(),
        x >= l,
        only_labels(map),
    ensures
        keeps_gutter(g, g.labelled(x, map, color), l),
{
    let y = g.label_row(x, map);
    let ox = if y == 1 {
        x + 2
    } else {
        x
    };
    let r = g.reserved(ox + map.width, y + map.height);
    lemma_reserved_keeps_gutter(g, ox + map.width, y + map.height, l);
    lemma_stamped_keeps_gutter(r, ox, y, map, 0, l);
    lemma_keeps_gutter_trans(g, r, r.stamped_from(ox, y, map, 0), l);
    let g1 = r.stamped_from(ox, y, map, 0);
    lemma_column_keeps_gutter(g1, x, 2, y, Char::SpanVertical(color), l);
    lemma_keeps_gutter_trans(g, g1, g1.column_from(x, 2, y, Char::SpanVertical(color)), l);
}

/// A label grid holds only labels.
pub proof fn lemma_label_from_only_labels<M: Metrics>(g: GridView, line: int, column: int, s: Seq<char>, color: Color, m: &M)
    requires
        g.wf(),
        only_labels(g),
    ensures
        only_labels(g.label_from(line, column, s, color, m)),
        g.label_from(line, column, s, color, m).wf(),
    decreases s.len(),
{
    if s.len() > 0 {
        let c = s[0];
        let g1 = if c == '\n' || c == '\t' {
            g
        } else {
            g.set(column, line, Char::Label(c, color))
        };
        if !(c == '\n' || c == '\t') {
            lemma_set_at(g, column, line, Char::Label(c, color));
            let h = g1;
            assert forall|i: int, j: int| #[trigger] h.at(i, j) is Empty || h.at(i, j) is Label by {
                if h != g && !(i == column && j == line) {
                    assert(h.at(i, j) == g.grown_at(i, j, h.height as int));
                    if g.height > 0 {
                        let my = g.height - 1;
                        assert(g.at(i, my) is Empty || g.at(i, my) is Label);
                        assert(g.at(i + 1, my) is Empty || g.at(i + 1, my) is Label);
                    }
                }
            }
        }
        let p = step(line, column, c, m);
        lemma_label_from_only_labels(g1, p.0, p.1, s.drop_first(), color, m);
    }
}

/// A 2D character map, grown as cells are set.
pub struct CharMap {
    data: Vec<Char>,
    width: usize,
    height: usize,
}

impl View for CharMap {
    type V = GridView;

    closed spec fn view(&self) -> GridView {
        GridView { width: self.width as nat, height: self.height as nat, cells: self.data@ }
    }
}

impl CharMap {
    /// A grid of a single empty cell.
    pub fn new() -> (r: CharMap)
        ensures
            r@.wf(),
            r@.width == 1,
            r@.height == 1,
            r@.at(0, 0) == Char::Empty,
            r@ == (GridView { width: 1, height: 1, cells: seq![Char::Empty] }),
    {
        let mut data: Vec<Char> = Vec::new();
        data.push(Char::Empty);
        proof {
            assert(data@.len() == 1 * 1) by (nonlinear_arith)
                requires
                    data@.len() == 1,
            ;
        }
        proof {
            assert(data@ =~= seq![Char::Empty]);
        }
        CharMap { data, width: 1, height: 1 }
    }

    /// A grid with no cell.
    pub fn empty() -> (r: CharMap)
        ensures
            r@.wf(),
            r@.width == 0,
            r@.height == 0,
    {
        CharMap { data: Vec::new(), width: 0, height: 0 }
    }

    /// The number of columns.
    pub fn width(&self) -> (r: usize)
        ensures
            r == self@.width,
    {
        self.width
    }

    /// The number of rows.
    pub fn height(&self) -> (r: usize)
        ensures
            r == self@.height,
    {
        self.height
    }

    /// The cell at column `x` of row `y`; empty outside the grid.
    pub fn get(&self, x: usize, y: usize) -> (r: Char)
        requires
            self@.wf(),
        ensures
            r == self@.at(x as int, y as int),
    {
        if x >= self.width || y >= self.height {
            Char::Empty
        } else {
            let n = self.data.len();
            proof {
                lemma_cell_index(x as int, y as int, self.width as int, self.height as int);
            }
            self.data[x + y * self.width]
        }
    }

    /// The cell that a new row takes at column `x`, after the align rule.
    fn grown_cell(&self, x: usize) -> (r: Char)
        requires
            self@.wf(),
            x < self@.width,
            self@.height > 0,
        ensures
            r == align_cell(
                self@.at(x as int, self@.height - 1),
                self@.at(x + 1, self@.height - 1),
                self@.at(x - 1, self@.height - 1),
            ),
    {
        let my = self.height - 1;
        let above = self.get(x, my);
        let right = self.get(x + 1, my);
        let left = if x == 0 {
            Char::Empty
        } else {
            self.get(x - 1, my)
        };
        match above {
            Char::SpanMargin(c) => if right.is_span_horizontal() && !left.is_span_horizontal() {
                Char::Empty
            } else {
                Char::SpanMargin(c)
            },
            Char::SpanMarginMarker(c) => Char::SpanMargin(c),
            Char::Empty => match right {
                Char::SpanHorizontal(c) => Char::SpanMargin(c),
                _ => Char::Empty,
            },
            Char::Margin(m, c) => if m == '|' {
                Char::Margin('|', c)
            } else {
                Char::Empty
            },
            _ => Char::Empty,
        }
    }

    /// The cell at `(x, y)` once the grid has `height` rows (see `GridView::grown_at`).
    fn align(&self, x: usize, y: usize, height: usize) -> (r: Char)
        requires
            self@.wf(),
        ensures
            r == self@.grown_at(x as int, y as int, height as int),
    {
        if x < self.width {
            if y < self.height {
                self.get(x, y)
            } else if y < height && self.height > 0 {
                self.grown_cell(x)
            } else {
                Char::Empty
            }
        } else {
            Char::Empty
        }
    }

    /// Grow the grid to `width` columns and `height` rows; old cells keep
    /// their place and new rows follow the align rule.
    fn resize(&mut self, width: usize, height: usize)
        requires
            old(self)@.wf(),
            old(self)@.width <= width,
            old(self)@.height <= height,
            width * height <= usize::MAX,
        ensures
            final(self)@ == old(self)@.resized(width as nat, height as nat),
            final(self)@.wf(),
    {
        if width == self.width && height == self.height {
            proof {
                lemma_resized_same(self@);
            }
            return;
        }
        let len = width * height;
        let ghost target = self@.resized(width as nat, height as nat);
        let mut data: Vec<Char> = Vec::with_capacity(len);
        let mut i: usize = 0;
        while i < len
            invariant
                self@.wf(),
                len == width * height,
                i <= len,
                data@.len() == i,
                target == self@.resized(width as nat, height as nat),
                forall|k: int| 0 <= k < i ==> data@[k] == target.cells[k],
            decreases len - i,
        {
            proof {
                assert(width > 0) by (nonlinear_arith)
                    requires
                        i < width * height,
                ;
                lemma_index_cell(i as int, width as int, height as int);
            }
            let c = self.align(i % width, i / width, height);
            data.push(c);
            i = i + 1;
        }
        proof {
            assert(data@ =~= target.cells);
        }
        self.data = data;
        self.width = width;
        self.height = height;
    }

    /// Grow the grid to at least `width` columns and `height` rows, where
    /// that size stays within `usize`.
    pub fn reserve(&mut self, width: usize, height: usize)
        requires
            old(self)@.wf(),
        ensures
            final(self)@ == old(self)@.reserved(width as int, height as int),
            final(self)@.wf(),
    {
        let w = if width > self.width {
            width
        } else {
            self.width
        };
        let h = if height > self.height {
            height
        } else {
            self.height
        };
        if w.checked_mul(h).is_some() {
            self.resize(w, h);
        }
    }

    /// Set the cell at `(x, y)`, growing the grid as needed. A label is never
    /// overwritten.
    pub fn set(&mut self, x: usize, y: usize, c: Char)
        requires
            old(self)@.wf(),
        ensures
            final(self)@ == old(self)@.set(x as int, y as int, c),
            final(self)@.wf(),
    {
        if x == usize::MAX || y == usize::MAX {
            return;
        }
        let w = if x + 1 > self.width {
            x + 1
        } else {
            self.width
        };
        let h = if y + 1 > self.height {
            y + 1
        } else {
            self.height
        };
        if w.checked_mul(h).is_none() {
            return;
        }
        if self.get(x, y).is_label() {
            return;
        }
        self.resize(w, h);
        proof {
            lemma_cell_index(x as int, y as int, w as int, h as int);
        }
        self.data.set(x + y * self.width, c);
    }

    /// Grow the grid so that it holds the cell `(x, y)`, where that size
    /// stays within `usize`.
    fn reserve_cell(&mut self, x: usize, y: usize)
        requires
            old(self)@.wf(),
        ensures
            final(self)@ == old(self)@.reserved(x + 1, y + 1),
            final(self)@.wf(),
    {
        if x < usize::MAX && y < usize::MAX {
            self.reserve(x + 1, y + 1);
        } else {
            let ghost a = max_int(x + 1, self@.width as int);
            let ghost b = max_int(y + 1, self@.height as int);
            assert(a * b > usize::MAX) by (nonlinear_arith)
                requires
                    a >= 1,
                    b >= 1,
                    a > usize::MAX || b > usize::MAX,
            ;
        }
    }

    /// Drop a marker of `style` at column `x`: on the first free or
    /// horizontal cell from row 1 down to row `y`, and vertical lines on the
    /// free or horizontal cells below it.
    pub fn draw_marker(&mut self, style: &Style, y: usize, x: usize)
        requires
            old(self)@.wf(),
        ensures
            final(self)@ == old(self)@.drawn_marker(*style, y as int, x as int),
            final(self)@.wf(),
    {
        if y == 0 {
            return;
        }
        let ghost target = self@.drawn_marker(*style, y as int, x as int);
        let mut head = false;
        let mut j: usize = 1;
        loop
            invariant_except_break
                self@.marker_from(style.color(), style.marker(), x as int, j as int, y as int, head) == target,
            invariant
                self@.wf(),
                1 <= j <= y,
            ensures
                self@.wf(),
                self@ == target,
            decreases y - j,
        {
            let previous = self.get(x, j);
            if previous.is_free() || previous.is_span_horizontal() {
                let c = if head {
                    Char::SpanVertical(style.color())
                } else {
                    head = true;
                    Char::SpanMarker(style.marker(), style.color())
                };
                self.set(x, j, c);
            }
            if j == y {
                assert(self@.marker_from(style.color(), style.marker(), x as int, j + 1, y as int, head) == self@);
                break;
            }
            j = j + 1;
        }
    }

    /// Draw an open line of `style` on row `y`: horizontal strokes from column
    /// `start` wherever no margin line stands, and a marker at column `end`.
    pub fn draw_open_line(&mut self, style: &Style, y: usize, start: usize, end: usize)
        requires
            old(self)@.wf(),
        ensures
            final(self)@ == old(self)@.drawn_open_line(*style, y as int, start as int, end as int),
            final(self)@.wf(),
    {
        self.reserve_cell(end, y);
        if start > end {
            return;
        }
        let ghost target = self@.open_line_from(*style, y as int, start as int, end as int);
        let mut x: usize = start;
        loop
            invariant_except_break
                self@.open_line_from(*style, y as int, x as int, end as int) == target,
            invariant
                self@.wf(),
                start <= x <= end,
            ensures
                self@.wf(),
                self@ == target,
            decreases end - x,
        {
            if x == end {
                self.draw_marker(style, y, x);
                break;
            }
            if !self.get(x, y).is_span_margin() {
                self.set(x, y, Char::SpanHorizontal(style.color()));
            }
            x = x + 1;
        }
    }

    /// Draw a closed line of `style` on row `y`: markers at columns `start`
    /// and `end`, and between them an underline on row 1 or a horizontal line
    /// on a lower row.
    pub fn draw_closed_line(&mut self, style: &Style, y: usize, start: usize, end: usize)
        requires
            old(self)@.wf(),
        ensures
            final(self)@ == old(self)@.drawn_closed_line(*style, y as int, start as int, end as int),
            final(self)@.wf(),
    {
        self.reserve_cell(end, y);
        if start > end {
            return;
        }
        let ghost target = self@.closed_line_from(*style, y as int, start as int, start as int, end as int);
        let mut x: usize = start;
        loop
            invariant_except_break
                self@.closed_line_from(*style, y as int, start as int, x as int, end as int) == target,
            invariant
                self@.wf(),
                start <= x <= end,
            ensures
                self@.wf(),
                self@ == target,
            decreases end - x,
        {
            if x == start || x == end {
                self.draw_marker(style, y, x);
            } else {
                let c = if y == 1 {
                    Char::SpanUnderline(style.line(), style.color())
                } else {
                    Char::SpanHorizontal(style.color())
                };
                self.set(x, y, c);
            }
            if x == end {
                assert(self@.closed_line_from(*style, y as int, start as int, x + 1, end as int) == self@);
                break;
            }
            x = x + 1;
        }
    }

    /// Checks if every cell of the given rectangle is empty.
    pub fn is_rect_free(&self, offset_x: usize, offset_y: usize, width: usize, height: usize) -> (r: bool)
        requires
            self@.wf(),
            offset_x + width <= usize::MAX,
            offset_y + height <= usize::MAX,
        ensures
            r == self@.rect_free(offset_x as int, offset_y as int, width as int, height as int),
    {
        let mut y: usize = offset_y;
        while y < offset_y + height
            invariant
                offset_y <= y <= offset_y + height,
                offset_x + width <= usize::MAX,
                offset_y + height <= usize::MAX,
                self@.wf(),
                forall|i: int, j: int|
                    offset_x <= i < offset_x + width && offset_y <= j < y ==> #[trigger] self@.at(i, j) is Empty,
            decreases offset_y + height - y,
        {
            let mut x: usize = offset_x;
            while x < offset_x + width
                invariant
                    offset_x <= x <= offset_x + width,
                    offset_y <= y < offset_y + height,
                    offset_x + width <= usize::MAX,
                    offset_y + height <= usize::MAX,
                    self@.wf(),
                    forall|i: int, j: int|
                        offset_x <= i < offset_x + width && offset_y <= j < y ==> #[trigger] self@.at(i, j) is Empty,
                    forall|i: int| offset_x <= i < x ==> #[trigger] self@.at(i, y as int) is Empty,
                decreases offset_x + width - x,
            {
                if !self.get(x, y).is_free() {
                    return false;
                }
                x = x + 1;
            }
            y = y + 1;
        }
        true
    }

    /// Stamp `map` on this grid at offset `(offset_x, offset_y)`.
    pub fn draw_charmap(&mut self, offset_x: usize, offset_y: usize, map: &CharMap)
        requires
            old(self)@.wf(),
            map@.wf(),
            offset_x + map@.width <= usize::MAX,
            offset_y + map@.height <= usize::MAX,
        ensures
            final(self)@ == old(self)@.stamped(offset_x as int, offset_y as int, map@),
            final(self)@.wf(),
    {
        self.reserve(offset_x + map.width, offset_y + map.height);
        let n = map.data.len();
        let ghost target = self@.stamped_from(offset_x as int, offset_y as int, map@, 0);
        let mut k: usize = 0;
        while k < n
            invariant
                self@.wf(),
                map@.wf(),
                n == map@.width * map@.height,
                k <= n,
                offset_x + map@.width <= usize::MAX,
                offset_y + map@.height <= usize::MAX,
                self@.stamped_from(offset_x as int, offset_y as int, map@, k as int) == target,
            decreases n - k,
        {
            proof {
                assert(map@.width > 0) by (nonlinear_arith)
                    requires
                        k < map@.width * map@.height,
                ;
                lemma_index_cell(k as int, map.width as int, map.height as int);
            }
            let x = k % map.width;
            let y = k / map.width;
            let c = map.get(x, y);
            self.set(offset_x + x, offset_y + y, c);
            k = k + 1;
        }
    }

    /// Stamp `map` at offset `(offset_x, offset_y)` if the probed rectangle
    /// around it is free (see `GridView::can_stamp`). Returns whether it was
    /// stamped.
    pub fn draw_charmap_if_free(&mut self, offset_x: usize, offset_y: usize, map: &CharMap) -> (r: bool)
        requires
            old(self)@.wf(),
            map@.wf(),
            offset_x + map@.width + 2 <= usize::MAX,
            offset_y + map@.height + 2 <= usize::MAX,
        ensures
            r == old(self)@.can_stamp(offset_x as int, offset_y as int, map@),
            r ==> final(self)@ == old(self)@.stamped(offset_x as int, offset_y as int, map@),
            !r ==> final(self)@ == old(self)@,
            final(self)@.wf(),
    {
        let dx: usize = if offset_x > 0 {
            1
        } else {
            0
        };
        let dy: usize = if offset_y > 1 {
            1
        } else {
            0
        };
        if self.is_rect_free(offset_x - dx, offset_y - dy, map.width + dx + 1, map.height + dy + 1) {
            self.draw_charmap(offset_x, offset_y, map);
            true
        } else {
            false
        }
    }

    /// Set `c` at column `x`, from row `from` up to, not including, row `to`.
    pub fn draw_column(&mut self, x: usize, from: usize, to: usize, c: Char)
        requires
            old(self)@.wf(),
        ensures
            final(self)@ == old(self)@.column_from(x as int, from as int, to as int, c),
            final(self)@.wf(),
    {
        let ghost target = self@.column_from(x as int, from as int, to as int, c);
        let mut j: usize = from;
        while j < to
            invariant
                self@.wf(),
                self@.column_from(x as int, j as int, to as int, c) == target,
            decreases to - j,
        {
            self.set(x, j, c);
            j = j + 1;
        }
    }

    /// Set `c` on row `y`, from column `from` up to, not including, column `to`.
    pub fn draw_row(&mut self, y: usize, from: usize, to: usize, c: Char)
        requires
            old(self)@.wf(),
        ensures
            final(self)@ == old(self)@.row_from(y as int, from as int, to as int, c),
            final(self)@.wf(),
    {
        let ghost target = self@.row_from(y as int, from as int, to as int, c);
        let mut i: usize = from;
        while i < to
            invariant
                self@.wf(),
                self@.row_from(y as int, i as int, to as int, c) == target,
            decreases to - i,
        {
            self.set(i, y, c);
            i = i + 1;
        }
    }

    /// A grid of label cells of `color` laid out from `text` by `metrics`; new
    /// lines and tabulations move the cursor and leave no cell.
    pub fn from_label<M: Metrics>(text: &str, color: Color, metrics: &M) -> (r: CharMap)
        ensures
            r@.wf(),
            r@ == (GridView { width: 0, height: 0, cells: Seq::empty() }).label_from(0, 0, text@, color, metrics),
    {
        let mut map = CharMap::empty();
        proof {
            assert(map@.cells =~= Seq::<Char>::empty());
            assert(map@ == GridView { width: 0, height: 0, cells: Seq::empty() });
        }
        let ghost s = text@;
        let ghost target = map@.label_from(0, 0, s, color, metrics);
        let mut pos = Position::new(0, 0);
        proof {
            assert(s.skip(0) =~= s);
        }
        for c in it: text.chars()
            invariant
                it.seq() == s,
                s == text@,
                target == (GridView { width: 0, height: 0, cells: Seq::empty() }).label_from(0, 0, s, color, metrics),
                0 <= it.index() <= s.len(),
                map@.wf(),
                map@.label_from(pos.line as int, pos.column as int, s.skip(it.index() as int), color, metrics) == target,
        {
            let ghost i = it.index() as int;
            let ghost before = map@;
            let ghost at_pos = pos;
            proof {
                assert(s.skip(i).drop_first() =~= s.skip(i + 1));
                assert(s.skip(i)[0] == c);
                assert(Position { line: pos.line as int as usize, column: pos.column as int as usize } == pos);
            }
            if c != '\n' && c != '\t' {
                map.set(pos.column, pos.line, Char::Label(c, color));
            }
            proof {
                if !can_step(at_pos, c, metrics) {
                    assert(before.label_from(at_pos.line as int, at_pos.column as int, s.skip(i), color, metrics) == map@);
                }
            }
            match pos.try_next(c, metrics) {
                Some(p) => {
                    pos = p;
                },
                None => {
                    return map;
                },
            }
        }
        proof {
            assert(s.skip(s.len() as int) =~= Seq::<char>::empty());
        }
        map
    }

    /// Place a label grid for an anchor at column `x`: at row 1, two columns
    /// right of the anchor, where that is free; otherwise on the first free row
    /// from row 3 down at the anchor's column, with vertical lines of `color`
    /// linking it to the anchor. Returns the row; the search ends at the
    /// latest one row below the grid, after at most `height + 2` probes.
    pub fn draw_label(&mut self, x: usize, label: &CharMap, color: Color) -> (r: usize)
        requires
            old(self)@.wf(),
            label@.wf(),
            x + label@.width + 4 <= usize::MAX,
            old(self)@.height + label@.height + 6 <= usize::MAX,
        ensures
            r == old(self)@.label_row(x as int, label@),
            1 <= r <= max_int(3, old(self)@.height as int + 1),
            1 <= old(self)@.label_probes(x as int, label@) <= old(self)@.height + 2,
            final(self)@ == old(self)@.labelled(x as int, label@, color),
            final(self)@.wf(),
    {
        let ghost g = self@;
        let mut y: usize = 1;
        if !self.draw_charmap_if_free(x + 2, y, label) {
            proof {
                lemma_first_free_row_bound(g, x as int, label@, 3);
            }
            y = 3;
            loop
                invariant_except_break
                    self@ == g,
                invariant
                    g.wf(),
                    label@.wf(),
                    3 <= y <= g.height + 3,
                    x + label@.width + 4 <= usize::MAX,
                    g.height + label@.height + 6 <= usize::MAX,
                    g.first_free_row(x as int, label@, y as int) == g.first_free_row(x as int, label@, 3),
                ensures
                    y == g.first_free_row(x as int, label@, 3),
                    self@ == g.stamped(x as int, y as int, label@),
                    self@.wf(),
                decreases g.height + 3 - y,
            {
                if self.draw_charmap_if_free(x, y, label) {
                    break;
                }
                proof {
                    if y >= g.height + 1 {
                        lemma_can_stamp_below(g, x as int, y as int, label@);
                    }
                }
                y = y + 1;
            }
        }
        self.draw_column(x, 2, y, Char::SpanVertical(color));
        y
    }
}


/// The cells of row `y` from column `x` on, as displayed, and the end of the row.
pub open spec fn row_text(g: GridView, y: int, x: int) -> Seq<char>
    decreases g.width - x,
{
    if x >= g.width {
        seq!['\n']
    } else {
        seq![g.at(x, y).glyph()] + row_text(g, y, x + 1)
    }
}

/// The rows of the grid from row `y` on, as displayed, without colors.
pub open spec fn grid_text(g: GridView, y: int) -> Seq<char>
    decreases g.height - y,
{
    if y >= g.height {
        Seq::empty()
    } else {
        row_text(g, y, 0) + grid_text(g, y + 1)
    }
}

/// The ANSI value of the light shade of each color.
pub open spec fn ansi_value(c: Color) -> u8 {
    match c {
        Color::Red => 9,
        Color::Green => 10,
        Color::Yellow => 11,
        Color::Blue => 12,
        Color::Magenta => 13,
        Color::Cyan => 14,
    }
}

/// The escape sequence that makes the following text bold and of `color`.
pub open spec fn color_escape(color: Color) -> Seq<char> {
    "\u{1b}[1m"@ + "\u{1b}[38;5;"@ + decimal(ansi_value(color) as nat) + "m"@
}

/// The escape sequence that resets the text style.
pub open spec fn reset_escape() -> Seq<char> {
    "\u{1b}[m"@
}

/// The escape written before a cell of color `cell` when the text so far
/// has `current`: none for an empty cell or an unchanged color.
pub open spec fn escape_before(cell: Char, current: Option<Color>) -> Seq<char> {
    if cell is Empty || cell.color() == current {
        Seq::empty()
    } else {
        match cell.color() {
            Some(color) => color_escape(color),
            None => reset_escape(),
        }
    }
}

/// The color of the text once `cell` is written after text of `current`.
pub open spec fn color_after(cell: Char, current: Option<Color>) -> Option<Color> {
    if cell is Empty {
        current
    } else {
        cell.color()
    }
}

/// The cells from `(x, y)` on, as displayed with colors, when the text so
/// far has color `current`; a style reset ends the grid.
pub open spec fn colored_text(g: GridView, y: int, x: int, current: Option<Color>) -> Seq<char>
    decreases g.height - y, g.width - x,
{
    if y >= g.height {
        reset_escape()
    } else if x >= g.width {
        seq!['\n'] + colored_text(g, y + 1, 0, current)
    } else {
        let c = g.at(x, y);
        escape_before(c, current) + seq![c.glyph()] + colored_text(g, y, x + 1, color_after(c, current))
    }
}

/// Relies on `termion::color::AnsiValue::fg_string`: the escape sequence
/// `ESC [38;5;` then the value in decimal then `m`.
#[verifier::external_body]
fn ansi_fg(value: u8) -> (r: String)
    ensures
        r@ == "\u{1b}[38;5;"@ + decimal(value as nat) + "m"@,
{
    termion::color::AnsiValue(value).fg_string()
}

/// Relies on `termion::style::Bold` as `AsRef<str>`: the sequence `ESC [1m`.
#[verifier::external_body]
fn bold() -> (r: &'static str)
    ensures
        r@ == "\u{1b}[1m"@,
{
    <termion::style::Bold as AsRef<str>>::as_ref(&termion::style::Bold)
}

/// Relies on `termion::style::Reset` as `AsRef<str>`: the sequence `ESC [m`.
#[verifier::external_body]
fn reset() -> (r: &'static str)
    ensures
        r@ == reset_escape(),
{
    <termion::style::Reset as AsRef<str>>::as_ref(&termion::style::Reset)
}

/// The ANSI value of the light shade of a color.
fn ansi_value_of(color: Color) -> (r: u8)
    ensures
        r == ansi_value(color),
{
    match color {
        Color::Red => 9,
        Color::Green => 10,
        Color::Yellow => 11,
        Color::Blue => 12,
        Color::Magenta => 13,
        Color::Cyan => 14,
    }
}

impl CharMap {
    /// The grid as displayed without colors: each row's cells, then a new line.
    pub fn to_string(&self) -> (r: String)
        requires
            self@.wf(),
        ensures
            r@ == grid_text(self@, 0),
    {
        let mut s = String::new();
        let mut y: usize = 0;
        proof {
            assert(s@ + grid_text(self@, 0) =~= grid_text(self@, 0));
        }
        while y < self.height
            invariant
                self@.wf(),
                y <= self.height,
                s@ + grid_text(self@, y as int) == grid_text(self@, 0),
            decreases self.height - y,
        {
            let mut x: usize = 0;
            proof {
                assert(s@ + (row_text(self@, y as int, 0) + grid_text(self@, y + 1)) == grid_text(self@, 0));
            }
            while x < self.width
                invariant
                    self@.wf(),
                    y < self.height,
                    x <= self.width,
                    s@ + (row_text(self@, y as int, x as int) + grid_text(self@, y + 1)) == grid_text(self@, 0),
                decreases self.width - x,
            {
                let ghost before = s@;
                push_char(&mut s, self.get(x, y).unwrap());
                proof {
                    assert(before + (row_text(self@, y as int, x as int) + grid_text(self@, y + 1)) =~= s@ + (
                    row_text(self@, y as int, x + 1) + grid_text(self@, y + 1)));
                }
                x = x + 1;
            }
            let ghost before = s@;
            push_char(&mut s, '\n');
            proof {
                assert(before + (row_text(self@, y as int, x as int) + grid_text(self@, y + 1)) =~= s@
                    + grid_text(self@, y + 1));
            }
            y = y + 1;
        }
        proof {
            assert(s@ =~= s@ + grid_text(self@, y as int));
        }
        s
    }

    /// The grid as displayed on a terminal: before each non-empty cell whose
    /// color differs from the current one, a style reset (for text) or a bold
    /// color escape; a style reset at the end.
    pub fn to_colored_string(&self) -> (r: String)
        requires
            self@.wf(),
        ensures
            r@ == colored_text(self@, 0, 0, None),
    {
        let mut s = String::new();
        let mut current: Option<Color> = None;
        let mut y: usize = 0;
        let ghost total = colored_text(self@, 0, 0, None);
        proof {
            assert(s@ + total =~= total);
        }
        while y < self.height
            invariant
                self@.wf(),
                y <= self.height,
                total == colored_text(self@, 0, 0, None),
                s@ + colored_text(self@, y as int, 0, current) == total,
            decreases self.height - y,
        {
            let mut x: usize = 0;
            while x < self.width
                invariant
                    self@.wf(),
                    y < self.height,
                    x <= self.width,
                    total == colored_text(self@, 0, 0, None),
                    s@ + colored_text(self@, y as int, x as int, current) == total,
                decreases self.width - x,
            {
                let ghost before = s@;
                let ghost cur0 = current;
                let c = self.get(x, y);
                if !c.is_free() && c.color() != current {
                    current = c.color();
                    match current {
                        Some(color) => {
                            push_str(&mut s, bold());
                            let fg = ansi_fg(ansi_value_of(color));
                            push_str(&mut s, fg.as_str());
                        },
                        None => {
                            push_str(&mut s, reset());
                        },
                    }
                }
                push_char(&mut s, c.unwrap());
                proof {
                    assert(before + escape_before(c, cur0) + seq![c.glyph()] =~= s@);
                    assert(colored_text(self@, y as int, x as int, cur0) == escape_before(c, cur0) + seq![
                        c.glyph(),
                    ] + colored_text(self@, y as int, x + 1, current));
                    assert(before + colored_text(self@, y as int, x as int, cur0) =~= s@ + colored_text(
                        self@,
                        y as int,
                        x + 1,
                        current,
                    ));
                }
                x = x + 1;
            }
            let ghost before = s@;
            push_char(&mut s, '\n');
            proof {
                assert(before + colored_text(self@, y as int, x as int, current) =~= s@ + colored_text(
                    self@,
                    y + 1,
                    0,
                    current,
                ));
            }
            y = y + 1;
        }
        let ghost before = s@;
        push_str(&mut s, reset());
        proof {
            assert(before + colored_text(self@, y as int, 0, current) =~= s@);
        }
        s
    }
}

} // verus!
