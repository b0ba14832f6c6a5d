use source_span::{DefaultMetrics, Metrics, Position, SourceBuffer, Span};

fn buffer_of(text: &str) -> SourceBuffer<(), std::vec::IntoIter<Result<char, ()>>, DefaultMetrics> {
    let chars: Vec<Result<char, ()>> = text.chars().map(Ok).collect();
    SourceBuffer::new(chars.into_iter(), Position::new(0, 0), DefaultMetrics::new())
}

#[test]
fn buffer_reads_lazily_by_line() {
    let mut b = buffer_of("ab\ncd\nef");
    assert_eq!(b.span().end(), Position::new(0, 0));
    assert_eq!(b.at(Position::new(0, 1)), Ok(Some('b')));
    assert_eq!(b.span().end(), Position::new(1, 0));
    assert_eq!(b.at(Position::new(2, 1)), Ok(Some('f')));
    assert_eq!(b.at(Position::new(1, 5)), Ok(None));
    assert_eq!(b.at(Position::new(7, 0)), Ok(None));
    assert_eq!(b.index_at(Position::new(1, 0)), Ok(Some(3)));
    assert_eq!(b.get(4), Ok(Some('d')));
    assert_eq!(b.get(40), Ok(None));
}

#[test]
fn buffer_positions_before_start_are_absent() {
    let chars: Vec<Result<char, ()>> = "xyz".chars().map(Ok).collect();
    let mut b = SourceBuffer::new(chars.into_iter(), Position::new(3, 0), DefaultMetrics::new());
    assert_eq!(b.at(Position::new(2, 9)), Ok(None));
    assert_eq!(b.at(Position::new(3, 2)), Ok(Some('z')));
    assert_eq!(b.metrics().tab_stop(), 8);
}

#[test]
fn buffer_surfaces_error_once() {
    let chars = vec![Ok('a'), Err("broken"), Ok('b')];
    let mut b = SourceBuffer::new(chars.into_iter(), Position::new(0, 0), DefaultMetrics::new());
    assert_eq!(b.at(Position::new(0, 0)), Ok(Some('a')));
    assert_eq!(b.at(Position::new(0, 1)), Err("broken"));
    assert_eq!(b.at(Position::new(0, 1)), Ok(None));
}

#[test]
fn buffer_iterators_collect_text() {
    let mut b = buffer_of("ab\ncd\nef");
    let all = b.iter();
    assert_eq!(all.into_string(&mut b), Ok("ab\ncd\nef".to_string()));
    let from = b.iter_from(Position::new(1, 1));
    assert_eq!(from.into_string(&mut b), Ok("d\nef".to_string()));
    let span = Span::new(Position::new(0, 1), Position::new(1, 0), Position::new(1, 1));
    let part = b.iter_span(span);
    assert_eq!(part.into_string(&mut b), Ok("b\nc".to_string()));
}

#[test]
fn buffer_iterator_steps() {
    let mut b = buffer_of("q\n");
    let mut it = b.iter();
    assert_eq!(it.next(&mut b), Some(Ok('q')));
    assert_eq!(it.next(&mut b), Some(Ok('\n')));
    assert_eq!(it.next(&mut b), None);
}

#[test]
fn buffer_error_past_text_is_returned_once() {
    let chars = vec![Ok('a'), Ok('\n'), Err("cut")];
    let mut b = SourceBuffer::new(chars.into_iter(), Position::new(0, 0), DefaultMetrics::new());
    assert_eq!(b.at(Position::new(4, 0)), Err("cut"));
    assert_eq!(b.at(Position::new(4, 0)), Ok(None));
    assert_eq!(b.at(Position::new(0, 0)), Ok(Some('a')));
    let it = b.iter();
    assert_eq!(it.into_string(&mut b), Ok("a\n".to_string()));
}
