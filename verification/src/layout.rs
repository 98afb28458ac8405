use vstd::prelude::*;

verus! {

/// Axis-aligned integer rectangle, origin at the top left of the terminal.
/// `right` and `bottom` are exclusive bounds.
#[derive(Clone, Copy, PartialEq, Eq, Structural, Debug)]
pub struct Rect {
    pub x: u16,
    pub y: u16,
    pub width: u16,
    pub height: u16,
}

/// Horizontal placement of a composed line inside its target width.
#[derive(Clone, Copy, PartialEq, Eq, Structural, Debug)]
pub enum Alignment {
    Left,
    Center,
    Right,
}

impl Rect {
    /// Both exclusive bounds stay representable in `u16`.
    pub open spec fn wf(self) -> bool {
        self.x + self.width <= u16::MAX && self.y + self.height <= u16::MAX
    }

    pub open spec fn spec_left(self) -> int {
        self.x as int
    }

    pub open spec fn spec_right(self) -> int {
        self.x + self.width
    }

    pub open spec fn spec_top(self) -> int {
        self.y as int
    }

    pub open spec fn spec_bottom(self) -> int {
        self.y + self.height
    }

    /// Point containment over `[left, right) x [top, bottom)`.
    pub open spec fn spec_hit(self, px: int, py: int) -> bool {
        self.spec_left() <= px < self.spec_right() && self.spec_top() <= py < self.spec_bottom()
    }

    /// `other` lies entirely inside `self`.
    pub open spec fn spec_contains_rect(self, other: Rect) -> bool {
        self.spec_left() <= other.spec_left() && other.spec_right() <= self.spec_right()
            && self.spec_top() <= other.spec_top() && other.spec_bottom() <= self.spec_bottom()
    }

    pub open spec fn spec_area(self) -> int {
        self.width * self.height
    }

    pub fn new(x: u16, y: u16, width: u16, height: u16) -> (r: Rect)
        requires
            x + width <= u16::MAX,
            y + height <= u16::MAX,
        ensures
            r == (Rect { x, y, width, height }),
            r.wf(),
    {
        Rect { x, y, width, height }
    }

    /// The zero rectangle: empty and anchored at the origin.
    pub fn zero() -> (r: Rect)
        ensures
            r == (Rect { x: 0u16, y: 0u16, width: 0u16, height: 0u16 }),
            r.wf(),
    {
        Rect { x: 0, y: 0, width: 0, height: 0 }
    }

    pub fn left(&self) -> (r: u16)
        ensures
            r == self.spec_left(),
    {
        self.x
    }

    pub fn right(&self) -> (r: u16)
        requires
            self.wf(),
        ensures
            r == self.spec_right(),
    {
        self.x + self.width
    }

    pub fn top(&self) -> (r: u16)
        ensures
            r == self.spec_top(),
    {
        self.y
    }

    pub fn bottom(&self) -> (r: u16)
        requires
            self.wf(),
        ensures
            r == self.spec_bottom(),
    {
        self.y + self.height
    }

    /// Exact point test for pointer hit-testing.
    pub fn hit(&self, px: u16, py: u16) -> (r: bool)
        requires
            self.wf(),
        ensures
            r == self.spec_hit(px as int, py as int),
    {
        self.x <= px && px < self.x + self.width && self.y <= py && py < self.y + self.height
    }
}

impl Default for Rect {
    /// The default rectangle is the zero rectangle.
    fn default() -> (r: Rect)
        ensures
            r == (Rect { x: 0u16, y: 0u16, width: 0u16, height: 0u16 }),
    {
        Rect { x: 0, y: 0, width: 0, height: 0 }
    }
}

} // verus!
