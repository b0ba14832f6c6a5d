use vstd::prelude::*;

verus! {

/// Colors used to render the text.
#[derive(Clone, Copy, PartialEq, Eq, Structural, Debug)]
pub enum Color {
    Red,
    Green,
    Blue,
    Magenta,
    Yellow,
    Cyan,
}

/// Highlight format description: the character that underlines a
/// highlighted section, the marker that points at its first and last
/// elements, and the color of both.
#[derive(Clone, Copy, PartialEq, Eq, Structural, Debug)]
pub enum Style {
    /// Red underline.
    Error,
    /// Yellow underline.
    Warning,
    /// Blue straight underline.
    Note,
    /// Green straight underline.
    Help,
    /// Custom underline character, marker and color.
    Custom(char, char, Color),
}

impl Style {
    /// Create a new custom highlight style.
    pub fn new(line: char, marker: char, color: Color) -> (r: Style)
        ensures
            r == Style::Custom(line, marker, color),
    {
        Style::Custom(line, marker, color)
    }

    pub open spec fn spec_line(&self) -> char {
        match self {
            Style::Error | Style::Warning => '^',
            Style::Note | Style::Help => '_',
            Style::Custom(line, _, _) => *line,
        }
    }

    pub open spec fn spec_marker(&self) -> char {
        match self {
            Style::Custom(_, marker, _) => *marker,
            _ => '^',
        }
    }

    pub open spec fn spec_color(&self) -> Color {
        match self {
            Style::Error => Color::Red,
            Style::Warning => Color::Yellow,
            Style::Note => Color::Blue,
            Style::Help => Color::Green,
            Style::Custom(_, _, color) => *color,
        }
    }

    /// The character used to underline the highlighted section.
    #[verifier::when_used_as_spec(spec_line)]
    pub fn line(&self) -> (r: char)
        ensures
            r == self.line(),
    {
        match self {
            Style::Error | Style::Warning => '^',
            Style::Note | Style::Help => '_',
            Style::Custom(line, _, _) => *line,
        }
    }

    /// The character used to point at the first and last elements of the span.
    #[verifier::when_used_as_spec(spec_marker)]
    pub fn marker(&self) -> (r: char)
        ensures
            r == self.marker(),
    {
        match self {
            Style::Custom(_, marker, _) => *marker,
            _ => '^',
        }
    }

    /// The color used to draw the highlight.
    #[verifier::when_used_as_spec(spec_color)]
    pub fn color(&self) -> (r: Color)
        ensures
            r == self.color(),
    {
        match self {
            Style::Error => Color::Red,
            Style::Warning => Color::Yellow,
            Style::Note => Color::Blue,
            Style::Help => Color::Green,
            Style::Custom(_, _, color) => *color,
        }
    }
}

} // verus!
