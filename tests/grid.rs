use source_span::fmt::{Char, CharMap, Color, Style};
use source_span::DefaultMetrics;

#[test]
fn grid_starts_with_one_empty_cell() {
    let g = CharMap::new();
    assert_eq!(g.width(), 1);
    assert_eq!(g.height(), 1);
    assert_eq!(g.get(0, 0), Char::Empty);
    assert_eq!(g.get(5, 5), Char::Empty);
}

#[test]
fn grid_set_grows_and_keeps_cells() {
    let mut g = CharMap::new();
    g.set(0, 0, Char::Text('a'));
    g.set(3, 2, Char::Text('b'));
    assert_eq!(g.width(), 4);
    assert_eq!(g.height(), 3);
    assert_eq!(g.get(0, 0), Char::Text('a'));
    assert_eq!(g.get(3, 2), Char::Text('b'));
    g.set(1, 0, Char::Text('c'));
    assert_eq!(g.width(), 4);
    assert_eq!(g.height(), 3);
    assert_eq!(g.get(0, 0), Char::Text('a'));
}

#[test]
fn grid_labels_are_never_overwritten() {
    let mut g = CharMap::new();
    g.set(2, 1, Char::Label('x', Color::Red));
    g.set(2, 1, Char::SpanVertical(Color::Blue));
    assert_eq!(g.get(2, 1), Char::Label('x', Color::Red));
}

#[test]
fn grid_align_rule_extends_margins() {
    let mut g = CharMap::new();
    g.set(0, 0, Char::SpanMargin(Color::Red));
    g.set(2, 0, Char::SpanMarginMarker(Color::Green));
    g.set(3, 0, Char::Margin('|', Color::Blue));
    g.set(4, 0, Char::Margin('7', Color::Blue));
    g.set(6, 0, Char::SpanHorizontal(Color::Cyan));
    g.set(0, 2, Char::Text('z'));
    assert_eq!(g.get(0, 2), Char::Text('z'));
    assert_eq!(g.get(0, 1), Char::SpanMargin(Color::Red));
    assert_eq!(g.get(2, 1), Char::SpanMargin(Color::Green));
    assert_eq!(g.get(2, 2), Char::SpanMargin(Color::Green));
    assert_eq!(g.get(3, 1), Char::Margin('|', Color::Blue));
    assert_eq!(g.get(4, 1), Char::Empty);
    assert_eq!(g.get(5, 1), Char::SpanMargin(Color::Cyan));
    assert_eq!(g.get(6, 1), Char::Empty);
}

#[test]
fn grid_align_rule_stops_margin_at_a_turn() {
    let mut g = CharMap::new();
    g.set(0, 0, Char::SpanMargin(Color::Red));
    g.set(1, 0, Char::SpanHorizontal(Color::Red));
    g.set(0, 1, Char::Text('q'));
    assert_eq!(g.get(0, 1), Char::Text('q'));
    g.set(5, 3, Char::Text('r'));
    assert_eq!(g.get(0, 2), Char::Empty);
}

#[test]
fn grid_marker_drops_down_a_column() {
    let mut g = CharMap::new();
    g.set(1, 1, Char::Text('t'));
    g.draw_marker(&Style::Error, 3, 1);
    assert_eq!(g.get(1, 1), Char::Text('t'));
    assert_eq!(g.get(1, 2), Char::SpanMarker('^', Color::Red));
    assert_eq!(g.get(1, 3), Char::SpanVertical(Color::Red));
}

#[test]
fn grid_open_and_closed_lines() {
    let mut g = CharMap::new();
    g.set(1, 1, Char::SpanMargin(Color::Blue));
    g.draw_open_line(&Style::Note, 1, 0, 3);
    assert_eq!(g.get(0, 1), Char::SpanHorizontal(Color::Blue));
    assert_eq!(g.get(1, 1), Char::SpanMargin(Color::Blue));
    assert_eq!(g.get(2, 1), Char::SpanHorizontal(Color::Blue));
    assert_eq!(g.get(3, 1), Char::SpanMarker('^', Color::Blue));
    let mut h = CharMap::new();
    h.draw_closed_line(&Style::Note, 2, 0, 2);
    assert_eq!(h.get(0, 1), Char::SpanMarker('^', Color::Blue));
    assert_eq!(h.get(1, 2), Char::SpanHorizontal(Color::Blue));
    assert_eq!(h.get(2, 1), Char::SpanMarker('^', Color::Blue));
    let mut u = CharMap::new();
    u.draw_closed_line(&Style::Note, 1, 0, 2);
    assert_eq!(u.get(1, 1), Char::SpanUnderline('_', Color::Blue));
}

#[test]
fn grid_rect_probe_and_stamp() {
    let m = DefaultMetrics::new();
    let label = CharMap::from_label("ab\ncd", Color::Green, &m);
    assert_eq!(label.width(), 2);
    assert_eq!(label.height(), 2);
    assert_eq!(label.get(1, 1), Char::Label('d', Color::Green));
    let mut g = CharMap::new();
    g.set(0, 1, Char::Text('x'));
    assert!(!g.is_rect_free(0, 0, 2, 2));
    assert!(g.is_rect_free(1, 0, 3, 3));
    assert!(!g.draw_charmap_if_free(1, 1, &label));
    assert!(g.draw_charmap_if_free(2, 1, &label));
    assert_eq!(g.get(2, 1), Char::Label('a', Color::Green));
    assert_eq!(g.get(3, 2), Char::Label('d', Color::Green));
}

#[test]
fn label_search_ends_below_the_grid() {
    let m = DefaultMetrics::new();
    let label = CharMap::from_label("note", Color::Yellow, &m);
    let mut g = CharMap::new();
    for y in 0..6 {
        for x in 0..12 {
            g.set(x, y, Char::Text('#'));
        }
    }
    let row = g.draw_label(2, &label, Color::Yellow);
    assert_eq!(row, 7);
    assert_eq!(g.get(2, 7), Char::Label('n', Color::Yellow));
    assert_eq!(g.get(2, 2), Char::SpanVertical(Color::Yellow));
    assert_eq!(g.get(2, 6), Char::SpanVertical(Color::Yellow));
    assert_eq!(g.get(2, 1), Char::Text('#'));
    assert_eq!(g.get(3, 5), Char::Text('#'));
}

#[test]
fn char_glyphs_and_colors() {
    assert_eq!(Char::Empty.unwrap(), ' ');
    assert_eq!(Char::SpanVertical(Color::Red).unwrap(), '|');
    assert_eq!(Char::SpanHorizontal(Color::Red).unwrap(), '_');
    assert_eq!(Char::SpanMargin(Color::Red).unwrap(), '|');
    assert_eq!(Char::SpanMarginMarker(Color::Red).unwrap(), '/');
    assert_eq!(Char::Label('k', Color::Red).unwrap(), 'k');
    assert_eq!(Char::Text('t').color(), None);
    assert_eq!(Char::Margin('1', Color::Cyan).color(), Some(Color::Cyan));
    assert!(Char::Empty.is_free());
    assert!(!Char::Text(' ').is_free());
    assert_eq!(Char::from('w'), Char::Text('w'));
}
