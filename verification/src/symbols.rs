use vstd::prelude::*;

verus! {

// Box-drawing glyphs used by the frame widget's border strokes.
pub const LINE_VERTICAL: &'static str = "│";

pub const LINE_HORIZONTAL: &'static str = "─";

pub const LINE_TOP_LEFT: &'static str = "┌";

pub const LINE_TOP_RIGHT: &'static str = "┐";

pub const LINE_BOTTOM_LEFT: &'static str = "└";

pub const LINE_BOTTOM_RIGHT: &'static str = "┘";

} // verus!
