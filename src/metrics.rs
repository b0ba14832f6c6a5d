use vstd::prelude::*;

verus! {

/// Gives the size of each character and the tab stop length.
///
/// Positions advance through a text by these numbers, and the formatter lays
/// the text out with them.
pub trait Metrics {
    /// The width, in columns, that `char_width` gives for `c`.
    spec fn width_of(&self, c: char) -> nat;

    /// The tab stop length that `tab_stop` gives.
    spec fn tab_stop_of(&self) -> nat;

    /// Get the size (width in columns) of a character.
    fn char_width(&self, c: char) -> (r: usize)
        ensures
            r as nat == self.width_of(c),
    ;

    /// Get the tab stop length.
    fn tab_stop(&self) -> (r: usize)
        ensures
            r as nat == self.tab_stop_of(),
    ;
}

/// Default metrics: carriage return and line feed take no column, every
/// other character takes one, and the tab stop is 8 columns unless given.
#[derive(Clone, Copy, PartialEq, Eq, Structural, Hash, Debug)]
pub struct DefaultMetrics {
    tab_stop: usize,
}

impl DefaultMetrics {
    /// The tab stop length this metrics was made with.
    pub closed spec fn tab_stop_len(&self) -> nat {
        self.tab_stop as nat
    }

    /// Create a new default metrics instance, with a tab stop of 8.
    pub fn new() -> (r: DefaultMetrics)
        ensures
            r.tab_stop_len() == 8,
    {
        Self::with_tab_stop(8)
    }

    /// Create a new default metrics with a custom tab stop length.
    pub fn with_tab_stop(tab_stop: usize) -> (r: DefaultMetrics)
        ensures
            r.tab_stop_len() == tab_stop,
    {
        DefaultMetrics { tab_stop }
    }
}

/// Width of a character under the default metrics.
pub open spec fn default_width(c: char) -> nat {
    if c == '\r' || c == '\n' {
        0
    } else {
        1
    }
}

impl Metrics for DefaultMetrics {
    open spec fn width_of(&self, c: char) -> nat {
        default_width(c)
    }

    open spec fn tab_stop_of(&self) -> nat {
        self.tab_stop_len()
    }

    fn char_width(&self, c: char) -> (r: usize) {
        if c == '\r' || c == '\n' {
            0
        } else {
            1
        }
    }

    fn tab_stop(&self) -> (r: usize) {
        self.tab_stop
    }
}

} // verus!
