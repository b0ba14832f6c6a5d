use source_span::fmt::{Color, Formatter, ImportantLines, Style};
use source_span::{DefaultMetrics, Position, Span};

fn chars(text: &str) -> impl Iterator<Item = Result<char, ()>> + '_ {
    text.chars().map(Ok)
}

fn span(a: (usize, usize), b: (usize, usize), c: (usize, usize)) -> Span {
    Span::new(Position::new(a.0, a.1), Position::new(b.0, b.1), Position::new(c.0, c.1))
}

#[test]
fn render_plain_lines_with_numbers() {
    let m = DefaultMetrics::new();
    let text = "Hello\nWorld!";
    let mut fmt = Formatter::new();
    fmt.set_viewbox(None);
    let out = fmt.render(chars(text), Span::of_string(text, &m), &m).unwrap();
    assert_eq!(out.len(), 2);
    assert_eq!(out.to_string(), "1 | Hello\n2 | World!\n");
}

#[test]
fn render_single_line_underline() {
    let m = DefaultMetrics::new();
    let text = "ab\ncd";
    let mut fmt = Formatter::new();
    fmt.add(span((0, 0), (0, 1), (0, 2)), None, Style::Error);
    let out = fmt.render(chars(text), Span::of_string(text, &m), &m).unwrap();
    assert_eq!(out.to_string(), "1 | ab\n  | ^^\n2 | cd\n");
}

#[test]
fn render_multiline_with_shortcut_and_label() {
    let m = DefaultMetrics::new();
    let text = "{\n  x\n}";
    let mut fmt = Formatter::new();
    fmt.add(span((0, 0), (2, 0), (2, 1)), Some("block".to_string()), Style::Note);
    let out = fmt.render(chars(text), Span::of_string(text, &m), &m).unwrap();
    assert_eq!(out.to_string(), "1 | / {\n2 | |   x\n3 | | }      \n  | |_^ block\n");
}

#[test]
fn render_two_labels_on_one_line() {
    let m = DefaultMetrics::new();
    let text = "aa bb";
    let mut fmt = Formatter::new();
    fmt.add(span((0, 0), (0, 1), (0, 2)), Some("A".to_string()), Style::Error);
    fmt.add(span((0, 3), (0, 4), (0, 5)), Some("B".to_string()), Style::Error);
    let out = fmt.render(chars(text), Span::of_string(text, &m), &m).unwrap();
    assert_eq!(out.len(), 1);
    assert_eq!(out.to_string(), "1 | aa bb  \n  | ^^ ^^ B\n  |  |     \n  |  A     \n");
}

fn ten_lines() -> String {
    let mut s = String::new();
    for i in 0..10 {
        if i > 0 {
            s.push('\n');
        }
        s.push_str("code");
    }
    s
}

#[test]
fn render_long_multiline_without_viewbox() {
    let m = DefaultMetrics::new();
    let text = ten_lines();
    let mut fmt = Formatter::new();
    fmt.set_viewbox(None);
    fmt.add(span((0, 0), (9, 3), (9, 4)), None, Style::Warning);
    let out = fmt.render(chars(&text), Span::of_string(&text, &m), &m).unwrap();
    assert_eq!(out.len(), 10);
    let s = out.to_string();
    let rows: Vec<&str> = s.lines().collect();
    assert_eq!(rows[0], " 1 | / code");
    for i in 1..9 {
        assert_eq!(rows[i], format!("{:>2} | | code", i + 1));
    }
    assert_eq!(rows[9], "10 | | code");
    assert_eq!(rows[10], "   | |____^");
    assert_eq!(rows.len(), 11);
}

#[test]
fn render_long_multiline_with_viewbox() {
    let m = DefaultMetrics::new();
    let text = ten_lines();
    let mut fmt = Formatter::new();
    fmt.add(span((0, 0), (9, 3), (9, 4)), None, Style::Warning);
    let out = fmt.render(chars(&text), Span::of_string(&text, &m), &m).unwrap();
    assert_eq!(out.len(), 7);
    let elision = out.grid(3).to_string();
    assert_eq!(elision, ".. | |\n");
    let s = out.to_string();
    let rows: Vec<&str> = s.lines().collect();
    assert_eq!(rows[2], " 3 | | code");
    assert_eq!(rows[4], " 8 | | code");
}

#[test]
fn render_propagates_first_error() {
    let m = DefaultMetrics::new();
    let fmt = Formatter::new();
    let input = vec![Ok('a'), Err("bad"), Err("worse")];
    let r = fmt.render(input.into_iter(), Span::of_string("abc", &m), &m);
    assert!(matches!(r, Err("bad")));
}

#[test]
fn render_stops_past_the_span() {
    let m = DefaultMetrics::new();
    let mut fmt = Formatter::new();
    fmt.set_viewbox(None);
    let input = vec![Ok('a'), Ok('\n'), Ok('b'), Err("unread")];
    let bounds = span((0, 0), (0, 1), (0, 2));
    let out = fmt.render(input.into_iter(), bounds, &m).unwrap();
    assert_eq!(out.to_string(), "1 | a\n2 |\n");
}

#[test]
fn render_without_line_numbers() {
    let m = DefaultMetrics::new();
    let text = "xy";
    let mut fmt = Formatter::new();
    fmt.hide_line_numbers();
    fmt.add(span((0, 1), (0, 1), (0, 2)), None, Style::Help);
    let out = fmt.render(chars(text), Span::of_string(text, &m), &m).unwrap();
    assert_eq!(out.to_string(), "xy\n ^\n");
}

#[test]
fn colored_output_switches_styles() {
    let m = DefaultMetrics::new();
    let text = "ab";
    let mut fmt = Formatter::with_margin_color(Color::Blue);
    fmt.set_viewbox(None);
    let out = fmt.render(chars(text), Span::of_string(text, &m), &m).unwrap();
    assert_eq!(out.to_colored_string(), "\u{1b}[1m\u{1b}[38;5;12m1 | \u{1b}[mab\n\u{1b}[m");
}

#[test]
fn custom_style_characters() {
    let m = DefaultMetrics::new();
    let text = "abcd";
    let mut fmt = Formatter::new();
    fmt.add(span((0, 0), (0, 3), (0, 4)), None, Style::new('~', '|', Color::Cyan));
    let out = fmt.render(chars(text), Span::of_string(text, &m), &m).unwrap();
    assert_eq!(out.to_string(), "1 | abcd\n  | |~~|\n");
}

#[test]
fn style_characters_and_colors() {
    assert_eq!(Style::Error.line(), '^');
    assert_eq!(Style::Warning.marker(), '^');
    assert_eq!(Style::Note.line(), '_');
    assert_eq!(Style::Help.line(), '_');
    assert_eq!(Style::Error.color(), Color::Red);
    assert_eq!(Style::Warning.color(), Color::Yellow);
    assert_eq!(Style::Note.color(), Color::Blue);
    assert_eq!(Style::Help.color(), Color::Green);
    let s = Style::new('-', '*', Color::Magenta);
    assert_eq!(s.line(), '-');
    assert_eq!(s.marker(), '*');
    assert_eq!(s.color(), Color::Magenta);
}

#[test]
fn important_lines_within_viewbox() {
    let mut fmt = Formatter::new();
    fmt.add(span((5, 0), (9, 1), (9, 2)), None, Style::Error);
    let il = fmt.important_lines();
    match &il {
        ImportantLines::Lines(lines, vb) => {
            assert_eq!(lines, &vec![5, 9]);
            assert_eq!(*vb, 2);
        }
        ImportantLines::All => panic!("expected lines"),
    }
    assert!(!il.includes(2));
    assert!(il.includes(3));
    assert!(il.includes(7));
    assert!(il.includes(11));
    assert!(!il.includes(12));
    fmt.set_viewbox(None);
    assert!(fmt.important_lines().includes(1000));
}

#[test]
fn line_number_margin_width() {
    let mut fmt = Formatter::new();
    let bounds = span((0, 0), (120, 0), (120, 1));
    assert_eq!(fmt.line_number_margin(&bounds), 4);
    fmt.add(span((97, 0), (97, 1), (97, 2)), None, Style::Error);
    assert_eq!(fmt.line_number_margin(&bounds), 6);
    fmt.set_viewbox(None);
    assert_eq!(fmt.line_number_margin(&bounds), 6);
    fmt.set_line_numbers_visible(false);
    assert_eq!(fmt.line_number_margin(&bounds), 0);
    fmt.show_line_numbers();
    assert_eq!(fmt.line_number_margin(&bounds), 6);
}

#[test]
fn elided_stretch_before_first_visible_line() {
    let m = DefaultMetrics::new();
    let text = "a\nb\nc\nd\ne\nf";
    let mut fmt = Formatter::new();
    fmt.set_viewbox(Some(1));
    fmt.add(span((4, 0), (4, 0), (4, 1)), None, Style::Error);
    let out = fmt.render(chars(text), Span::of_string(text, &m), &m).unwrap();
    assert_eq!(out.len(), 4);
    assert_eq!(out.grid(0).to_string(), ". |\n");
}

#[test]
fn viewbox_gives_one_elision_row_per_gap() {
    let m = DefaultMetrics::new();
    let mut text = String::new();
    for i in 0..20 {
        if i > 0 {
            text.push('\n');
        }
        text.push('x');
    }
    let mut fmt = Formatter::new();
    fmt.set_viewbox(Some(1));
    fmt.add(span((0, 0), (0, 0), (0, 1)), None, Style::Error);
    fmt.add(span((10, 0), (10, 0), (10, 1)), None, Style::Error);
    let out = fmt.render(chars(&text), Span::of_string(&text, &m), &m).unwrap();
    assert_eq!(out.len(), 6);
    assert_eq!(out.grid(2).to_string(), ".. |\n");
    assert_eq!(out.grid(3).to_string(), "10 | x\n");
    assert_eq!(out.grid(4).to_string(), "11 | x\n   | ^\n");
    assert_eq!(out.grid(5).to_string(), "12 | x\n");
}

#[test]
fn gutter_holds_only_line_numbers() {
    let m = DefaultMetrics::new();
    let text = "fn main() {\n    call(a,\n         b);\n}";
    let mut fmt = Formatter::new();
    fmt.add(span((0, 10), (3, 0), (3, 1)), Some("body".to_string()), Style::Note);
    fmt.add(span((1, 8), (2, 10), (2, 11)), Some("args".to_string()), Style::Error);
    fmt.add(span((1, 4), (1, 7), (1, 8)), Some("callee".to_string()), Style::Help);
    let out = fmt.render(chars(text), Span::of_string(text, &m), &m).unwrap();
    let s = out.to_string();
    for row in s.lines() {
        let gutter: Vec<char> = row.chars().take(4).collect();
        assert!(gutter[0] == ' ' || gutter[0].is_ascii_digit());
        assert_eq!(gutter[1], ' ');
        assert_eq!(gutter[2], '|');
        assert_eq!(gutter[3], ' ');
    }
    assert!(s.contains("callee"));
    assert!(s.contains("args"));
    assert!(s.contains("body"));
}
