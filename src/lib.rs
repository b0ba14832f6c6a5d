//! Locate characters and ranges of characters (spans) in a source text, and
//! render fragments of it with highlighted spans, labels and line numbers,
//! in the style of compiler diagnostics.
//!
//! - `position` and `metrics`: cursor positions and how characters move them.
//! - `span`: ranges of positions, their order, overlap and containment.
//! - `grid`: the growable character grid and its drawing primitives.
//! - `fmt`: highlights, their nesting levels, and the formatter that renders
//!   a character stream into grids.
//! - `buffer`, `layout`, `loc`: a lazy source buffer indexed by position, the
//!   byte layout of a text, and values located by a span.

pub mod buffer;
pub mod fmt;
pub mod grid;
pub mod layout;
pub mod loc;
pub mod metrics;
pub mod position;
pub mod span;
pub mod style;
pub mod text;

pub use buffer::SourceBuffer;
pub use layout::Layout;
pub use loc::Loc;
pub use metrics::{DefaultMetrics, Metrics};
pub use position::Position;
pub use span::Span;
