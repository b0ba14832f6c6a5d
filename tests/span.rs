use source_span::{DefaultMetrics, Position, Span};
use std::cmp::Ordering;

#[test]
fn test_display_span() {
    assert_eq!(
        Span::new(Position::new(0, 0), Position::new(1, 20), Position::new(3, 41),).to_string(),
        "from 1:1 to 4:42".to_string()
    );
}

#[test]
fn display_span_of_one_position() {
    let s: Span = Position::new(2, 3).into();
    assert_eq!(s.to_string(), "line 3 column 4");
}

#[test]
fn span_push_law() {
    let m = DefaultMetrics::new();
    let mut s: Span = Position::new(0, 3).into();
    s.push('x', &m);
    assert_eq!(s.start(), Position::new(0, 3));
    assert_eq!(s.last(), Position::new(0, 3));
    assert_eq!(s.end(), Position::new(0, 4));
    s.push('\n', &m);
    assert_eq!(s.last(), Position::new(0, 4));
    assert_eq!(s.end(), Position::new(1, 0));
}

#[test]
fn span_of_string_ends_where_text_ends() {
    let m = DefaultMetrics::new();
    let s = Span::of_string("ab\n\tc", &m);
    assert_eq!(s.start(), Position::new(0, 0));
    assert_eq!(s.last(), Position::new(1, 8));
    assert_eq!(s.end(), Position::new(1, 9));
    let e = Span::of_string("", &m);
    assert_eq!(e.end(), Position::new(0, 0));
    assert!(e.is_empty());
}

#[test]
fn span_comparison_containment_first() {
    let outer = Span::new(Position::new(0, 0), Position::new(2, 0), Position::new(2, 1));
    let inner = Span::new(Position::new(1, 0), Position::new(1, 3), Position::new(1, 4));
    let later = Span::new(Position::new(3, 0), Position::new(3, 1), Position::new(3, 2));
    assert_eq!(outer.partial_cmp(&inner), Some(Ordering::Greater));
    assert_eq!(inner.partial_cmp(&outer), Some(Ordering::Less));
    assert_eq!(inner.partial_cmp(&later), Some(Ordering::Less));
    assert_eq!(later.partial_cmp(&inner), Some(Ordering::Greater));
    assert_eq!(outer.partial_cmp(&outer), Some(Ordering::Equal));
    assert!(inner < outer);
}

#[test]
fn span_overlap_is_symmetric() {
    let a = Span::new(Position::new(0, 0), Position::new(0, 3), Position::new(0, 4));
    let b = Span::new(Position::new(0, 2), Position::new(0, 5), Position::new(0, 6));
    let c = Span::new(Position::new(0, 4), Position::new(0, 5), Position::new(0, 6));
    assert!(a.overlaps(&b));
    assert!(b.overlaps(&a));
    assert!(!a.overlaps(&c));
    assert!(!c.overlaps(&a));
}

#[test]
fn span_includes_and_lines() {
    let a = Span::new(Position::new(1, 2), Position::new(3, 0), Position::new(3, 1));
    let b = Span::new(Position::new(2, 0), Position::new(2, 1), Position::new(2, 2));
    assert!(a.includes(&b));
    assert!(!b.includes(&a));
    assert_eq!(a.line_count(), 3);
    assert!(a.includes_line(3));
    assert!(!a.includes_line(4));
}

#[test]
fn span_new_collapses_backwards_span() {
    let s = Span::new(Position::new(2, 0), Position::new(1, 0), Position::new(3, 0));
    assert_eq!(s.start(), Position::new(2, 0));
    assert_eq!(s.last(), Position::new(2, 0));
    assert_eq!(s.end(), Position::new(2, 0));
}

#[test]
fn span_union_inter_append() {
    let a = Span::new(Position::new(0, 2), Position::new(0, 4), Position::new(0, 5));
    let b = Span::new(Position::new(0, 0), Position::new(0, 6), Position::new(0, 7));
    let u = a.union(b);
    assert_eq!(u.start(), Position::new(0, 0));
    assert_eq!(u.end(), Position::new(0, 7));
    let i = b.inter(a);
    assert_eq!(i.start(), Position::new(0, 2));
    assert_eq!(i.end(), Position::new(0, 5));
    let mut c = a;
    c.append(b);
    assert_eq!(c.start(), Position::new(0, 2));
    assert_eq!(c.last(), Position::new(0, 6));
    assert_eq!(c.end(), Position::new(0, 7));
}

#[test]
fn span_next_clear_aligned() {
    let a = Span::new(Position::new(1, 2), Position::new(1, 4), Position::new(1, 5));
    let n = a.next();
    assert_eq!(n.start(), Position::new(1, 5));
    assert!(n.is_empty());
    let mut c = a;
    c.clear();
    assert_eq!(c.start(), Position::new(1, 5));
    assert_eq!(c.last(), Position::new(1, 5));
    let al = a.aligned();
    assert_eq!(al.start(), Position::new(1, 0));
    assert_eq!(al.last(), Position::new(1, usize::MAX - 1));
    assert_eq!(al.end(), Position::new(1, usize::MAX));
}

#[test]
fn span_push_column_and_line() {
    let mut s: Span = Position::new(0, 0).into();
    s.push_column();
    assert_eq!(s.end(), Position::new(0, 1));
    s.push_line();
    assert_eq!(s.last(), Position::new(0, 1));
    assert_eq!(s.end(), Position::new(1, 0));
}

#[test]
fn span_order_breaks_ties_on_end() {
    let short = Span::new(Position::new(0, 0), Position::new(0, 1), Position::new(0, 2));
    let long = Span::new(Position::new(0, 0), Position::new(0, 1), Position::new(0, 5));
    assert_eq!(short.partial_cmp(&long), Some(Ordering::Less));
    assert_eq!(long.partial_cmp(&short), Some(Ordering::Greater));
}

#[test]
fn span_inter_of_disjoint_spans_is_empty() {
    let a = Span::new(Position::new(0, 0), Position::new(0, 0), Position::new(0, 1));
    let b = Span::new(Position::new(0, 5), Position::new(0, 5), Position::new(0, 6));
    let i = a.inter(b);
    assert!(i.is_empty());
    assert_eq!(i.start(), Position::new(0, 5));
    let j = b.inter(a);
    assert!(j.is_empty());
    assert_eq!(j.start(), Position::new(0, 5));
}
