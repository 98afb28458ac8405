//! A terminal-rendering core: a grid of styled character cells, a text-reflow
//! engine that folds styled graphemes into fixed-width lines, and the two
//! basic widgets (a bordered frame and a paragraph) that paint into the grid.

pub mod block;
pub mod buffer;
pub mod events;
pub mod layout;
pub mod paragraph;
pub mod reflow;
pub mod style;
pub mod symbols;

pub use block::Block;
pub use block::Borders;
pub use buffer::Buffer;
pub use buffer::Cell;
pub use events::EventBinding;
pub use events::PointerEvent;
pub use layout::Alignment;
pub use layout::Rect;
pub use paragraph::get_line_offset;
pub use paragraph::Paragraph;
pub use paragraph::Text;
pub use reflow::ComposedLine;
pub use reflow::StyledGrapheme;
pub use style::Color;
pub use style::Modifier;
pub use style::Style;
