use source_span::{DefaultMetrics, Metrics, Position};

#[test]
fn test_ord_position() {
    assert_eq!(
        std::cmp::min(
            Position::new(1, 2),
            std::cmp::min(
                Position::new(1, 3),
                std::cmp::min(
                    Position::new(1, 4),
                    std::cmp::min(
                        Position::new(1, 2),
                        std::cmp::min(
                            Position::new(2, 1),
                            std::cmp::min(Position::new(3, 12), Position::new(4, 4))
                        )
                    )
                )
            )
        ),
        Position::new(1, 2)
    );

    assert_eq!(
        std::cmp::max(
            Position::new(1, 2),
            std::cmp::max(
                Position::new(1, 3),
                std::cmp::max(
                    Position::new(1, 4),
                    std::cmp::max(
                        Position::new(1, 2),
                        std::cmp::max(
                            Position::new(2, 1),
                            std::cmp::max(Position::new(3, 12), Position::new(4, 4))
                        )
                    )
                )
            )
        ),
        Position::new(4, 4)
    );
}

#[test]
fn test_debug() {
    assert_eq!(Position::new(2, 3).to_debug_string(), "3:4".to_string());
    assert_eq!(
        Position::new(usize::max_value(), 3).to_debug_string(),
        "[end]:4".to_string()
    );
    assert_eq!(
        Position::new(3, usize::max_value()).to_debug_string(),
        "4:[end]".to_string()
    );
    assert_eq!(
        Position::new(usize::max_value(), usize::max_value()).to_debug_string(),
        "[end]:[end]".to_string()
    );
}

#[test]
fn position_display() {
    assert_eq!(Position::new(0, 0).to_string(), "line 1 column 1");
    assert_eq!(Position::end().to_string(), "line [end] column [end]");
}

#[test]
fn position_next_rules() {
    let m = DefaultMetrics::new();
    let p = Position::new(2, 5);
    assert_eq!(p.next('a', &m), Position::new(2, 6));
    assert_eq!(p.next('\n', &m), Position::new(3, 0));
    assert_eq!(p.next('\t', &m), Position::new(2, 8));
    assert_eq!(Position::new(2, 8).next('\t', &m), Position::new(2, 16));
    assert_eq!(p.next('\r', &m), Position::new(2, 5));
    assert_eq!(p.next('\u{7}', &m), Position::new(2, 5));
    let m4 = DefaultMetrics::with_tab_stop(4);
    assert_eq!(p.next('\t', &m4), Position::new(2, 8));
}

#[test]
fn position_is_monotonic_under_default_metrics() {
    let m = DefaultMetrics::new();
    let mut p = Position::new(0, 0);
    for c in "a\tb\n\r\u{1}é".chars() {
        let q = p.next(c, &m);
        assert!(q >= p);
        p.shift(c, &m);
        assert_eq!(p, q);
    }
}

#[test]
fn position_try_next_refuses_overflow() {
    let m = DefaultMetrics::new();
    assert_eq!(Position::new(0, usize::MAX).try_next('a', &m), None);
    assert_eq!(Position::new(usize::MAX, 0).try_next('\n', &m), None);
    assert_eq!(Position::new(0, 3).try_next('\t', &DefaultMetrics::with_tab_stop(0)), None);
    assert_eq!(Position::new(0, 3).try_next('b', &m), Some(Position::new(0, 4)));
}

#[test]
fn default_metrics_widths() {
    let m = DefaultMetrics::new();
    assert_eq!(m.char_width('\n'), 0);
    assert_eq!(m.char_width('\r'), 0);
    assert_eq!(m.char_width('x'), 1);
    assert_eq!(m.tab_stop(), 8);
    assert_eq!(DefaultMetrics::with_tab_stop(3).tab_stop(), 3);
}

#[test]
fn position_moves() {
    let p = Position::new(4, 7);
    assert_eq!(p.next_column(), Position::new(4, 8));
    assert_eq!(p.reset_column(), Position::new(4, 0));
    assert_eq!(p.next_line(), Position::new(5, 0));
}
