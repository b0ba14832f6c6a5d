use source_span::{DefaultMetrics, Layout, Position, Span};

#[test]
fn get_byte_index1() {
    let str = "Hello World!";
    let layout = Layout::from(str.chars(), DefaultMetrics::new());

    assert_eq!(layout.byte_index(str, Position::new(0, 2)), Some(2));
}

#[test]
fn get_byte_index2() {
    let str = "Hello\nWorld!";
    let layout = Layout::from(str.chars(), DefaultMetrics::new());

    assert_eq!(layout.byte_index(str, Position::new(1, 0)), Some(6));
}

#[test]
fn get_byte_index3() {
    let str = "Hel\nlo\nWorld!";
    let layout = Layout::from(str.chars(), DefaultMetrics::new());

    assert_eq!(layout.byte_index(str, Position::new(2, 0)), Some(7));
}

#[test]
fn get_byte_index_out_of_bounds1() {
    let str = "Hel\nlo\nWorld!";
    let layout = Layout::from(str.chars(), DefaultMetrics::new());

    assert_eq!(layout.byte_index(str, Position::new(3, 0)), None);
}

#[test]
fn get_byte_index_out_of_bounds2() {
    let str = "Hel\nlo\nWorld!";
    let layout = Layout::from(str.chars(), DefaultMetrics::new());

    assert_eq!(layout.byte_index(str, Position::new(1, 3)), None);
}

#[test]
fn get_span_slice1() {
    let str = "Hello\nWorld!";
    let layout = Layout::from(str.chars(), DefaultMetrics::new());

    assert_eq!(layout.span_slice(str, layout.span()), str);
}

#[test]
fn get_span_slice2() {
    let str = "Hel\nlo\nWorld!";
    let layout = Layout::from(str.chars(), DefaultMetrics::new());

    let span = Span::new(Position::new(0, 0), Position::new(0, 3), Position::new(1, 0));
    assert_eq!(layout.span_slice(str, span), "Hel\n");
}

#[test]
fn get_span_slice3() {
    let str = "Hel\nlo\nWorld!";
    let layout = Layout::from(str.chars(), DefaultMetrics::new());

    let span = Span::new(Position::new(1, 0), Position::new(1, 2), Position::new(2, 0));
    assert_eq!(layout.span_slice(str, span), "lo\n");
}

#[test]
fn get_span_slice4() {
    let str = "Hel\nlo\nWorld!";
    let layout = Layout::from(str.chars(), DefaultMetrics::new());

    let span = Span::new(Position::new(2, 0), Position::new(2, 5), Position::new(2, 6));
    assert_eq!(layout.span_slice(str, span), "World!");
}

#[test]
fn get_span_slice5() {
    let str = "Hel\nlo\nWorld!";
    let layout = Layout::from(str.chars(), DefaultMetrics::new());

    let span = Span::new(Position::new(0, 2), Position::new(2, 2), Position::new(2, 3));
    assert_eq!(layout.span_slice(str, span), "l\nlo\nWor");
}

#[test]
fn byte_index_counts_multibyte_characters() {
    let str = "é\nàb";
    let layout = Layout::from(str.chars(), DefaultMetrics::new());

    assert_eq!(layout.byte_index(str, Position::new(1, 0)), Some(3));
    assert_eq!(layout.byte_index(str, Position::new(1, 1)), Some(5));
}

#[test]
fn layout_from_fallible_stream_returns_first_error() {
    let chars = vec![Ok('a'), Err(7u8), Ok('b')];
    let r = Layout::try_from(chars.into_iter(), DefaultMetrics::new());
    assert!(matches!(r, Err(7)));
}

#[test]
fn layout_push_extends_span() {
    let mut layout = Layout::new(DefaultMetrics::new());
    layout.push('a');
    layout.push('\n');
    layout.push('b');
    assert_eq!(layout.span().end(), Position::new(1, 1));
    assert_eq!(layout.byte_index("a\nb", Position::new(1, 0)), Some(2));
}

#[test]
fn layout_span_is_span_of_text() {
    let str = "ab\n\tc";
    let m = DefaultMetrics::new();
    let layout = Layout::from(str.chars(), m);
    let s = Span::of_string(str, &m);
    assert_eq!(layout.span(), s);
    let ok: Vec<Result<char, ()>> = str.chars().map(Ok).collect();
    let l2 = Layout::try_from(ok.into_iter(), m).unwrap();
    assert_eq!(l2.span(), s);
}
