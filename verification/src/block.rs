use vstd::prelude::*;
use crate::buffer::{find_unit_all, fitted_units, unit_starting_at, written_units, Buffer, Cell, CellView};
use crate::events::{match_handler, spec_triggered, EventBinding, PointerEvent};
use crate::layout::Rect;
use crate::reflow::{str_units, units_of_str};
use crate::style::Style;
use crate::symbols;

verus! {

/// The set of border edges a frame draws.
#[derive(Clone, Copy, PartialEq, Eq, Structural, Debug)]
pub struct Borders {
    pub left: bool,
    pub right: bool,
    pub top: bool,
    pub bottom: bool,
}

impl Borders {
    pub fn none() -> (b: Borders)
        ensures
            b == (Borders { left: false, right: false, top: false, bottom: false }),
    {
        Borders { left: false, right: false, top: false, bottom: false }
    }

    pub fn all() -> (b: Borders)
        ensures
            b == (Borders { left: true, right: true, top: true, bottom: true }),
    {
        Borders { left: true, right: true, top: true, bottom: true }
    }

    pub fn new(left: bool, right: bool, top: bool, bottom: bool) -> (b: Borders)
        ensures
            b == (Borders { left, right, top, bottom }),
    {
        Borders { left, right, top, bottom }
    }

    /// Any edge enabled in both sets.
    pub open spec fn spec_intersects(self, other: Borders) -> bool {
        (self.left && other.left) || (self.right && other.right) || (self.top && other.top) || (
        self.bottom && other.bottom)
    }

    /// Every edge enabled in `other` is enabled here.
    pub open spec fn spec_contains(self, other: Borders) -> bool {
        (other.left ==> self.left) && (other.right ==> self.right) && (other.top ==> self.top) && (
        other.bottom ==> self.bottom)
    }

    pub fn intersects(&self, other: Borders) -> (r: bool)
        ensures
            r == self.spec_intersects(other),
    {
        (self.left && other.left) || (self.right && other.right) || (self.top && other.top) || (
        self.bottom && other.bottom)
    }

    pub fn contains(&self, other: Borders) -> (r: bool)
        ensures
            r == self.spec_contains(other),
    {
        (!other.left || self.left) && (!other.right || self.right) && (!other.top || self.top) && (
        !other.bottom || self.bottom)
    }

    /// The union of two edge sets.
    pub fn union(self, other: Borders) -> (b: Borders)
        ensures
            b == (Borders {
                left: self.left || other.left,
                right: self.right || other.right,
                top: self.top || other.top,
                bottom: self.bottom || other.bottom,
            }),
    {
        Borders {
            left: self.left || other.left,
            right: self.right || other.right,
            top: self.top || other.top,
            bottom: self.bottom || other.bottom,
        }
    }
}

/// Base frame widget: paints a border box and an optional title, and exposes
/// the interior rectangle left over for a nested widget.
pub struct Block {
    /// Optional title placed on the upper edge of the block
    pub title: Option<String>,
    /// Title style
    pub title_style: Style,
    /// Visible borders
    pub borders: Borders,
    /// Border style
    pub border_style: Style,
    /// Widget style
    pub style: Style,
    /// Area of the block
    pub area: Rect,
    /// Event bindings attached to this block
    pub events: Vec<EventBinding>,
}

impl Block {
    /// Whether the rectangle is too small for any border drawing.
    pub open spec fn spec_too_small(self) -> bool {
        self.area.width < 2 || self.area.height < 2
    }

    /// Columns reserved at the left and right of the title row.
    pub open spec fn spec_title_margin_left(self) -> int {
        if self.borders.left {
            1
        } else {
            0
        }
    }

    pub open spec fn spec_title_margin_right(self) -> int {
        if self.borders.right {
            1
        } else {
            0
        }
    }

    /// The width budget the title is truncated to.
    pub open spec fn spec_title_budget(self) -> int {
        self.area.width - self.spec_title_margin_left() - self.spec_title_margin_right()
    }

    /// The units of the title that fit on the top row.
    pub open spec fn spec_title_units(self) -> Seq<crate::reflow::UnitView> {
        match self.title {
            Some(t) => written_units(str_units(t@, self.title_style), self.spec_title_budget()),
            None => Seq::empty(),
        }
    }

    /// The cell this block leaves at `(x, y)` when drawn over `prev`: the
    /// background fill, then the four edge strokes, then the corner glyphs
    /// where both adjacent edges are enabled, then the title row. Title cells
    /// stay strictly within the title's width budget, so a trailing
    /// zero-width cluster never spills into a reserved border column.
    pub open spec fn block_paint(self, prev: CellView, x: int, y: int) -> CellView {
        if self.spec_too_small() || !self.area.spec_hit(x, y) {
            prev
        } else {
            let left = self.area.spec_left();
            let right = self.area.spec_right();
            let top = self.area.spec_top();
            let bottom = self.area.spec_bottom();
            let c0 = if self.style.bg is Some {
                CellView {
                    sym: prev.sym,
                    style: Style {
                        fg: prev.style.fg,
                        bg: self.style.bg,
                        modifier: prev.style.modifier,
                    },
                }
            } else {
                prev
            };
            let c1 = if self.borders.left && x == left {
                CellView {
                    sym: symbols::LINE_VERTICAL@,
                    style: c0.style.spec_apply(self.border_style),
                }
            } else {
                c0
            };
            let c2 = if self.borders.top && y == top {
                CellView {
                    sym: symbols::LINE_HORIZONTAL@,
                    style: c1.style.spec_apply(self.border_style),
                }
            } else {
                c1
            };
            let c3 = if self.borders.right && x == right - 1 {
                CellView {
                    sym: symbols::LINE_VERTICAL@,
                    style: c2.style.spec_apply(self.border_style),
                }
            } else {
                c2
            };
            let c4 = if self.borders.bottom && y == bottom - 1 {
                CellView {
                    sym: symbols::LINE_HORIZONTAL@,
                    style: c3.style.spec_apply(self.border_style),
                }
            } else {
                c3
            };
            let c5 = if self.borders.left && self.borders.top && x == left && y == top {
                CellView {
                    sym: symbols::LINE_TOP_LEFT@,
                    style: c4.style.spec_apply(self.border_style),
                }
            } else {
                c4
            };
            let c6 = if self.borders.right && self.borders.top && x == right - 1 && y == top {
                CellView {
                    sym: symbols::LINE_TOP_RIGHT@,
                    style: c5.style.spec_apply(self.border_style),
                }
            } else {
                c5
            };
            let c7 = if self.borders.left && self.borders.bottom && x == left && y == bottom - 1 {
                CellView {
                    sym: symbols::LINE_BOTTOM_LEFT@,
                    style: c6.style.spec_apply(self.border_style),
                }
            } else {
                c6
            };
            let c8 = if self.borders.right && self.borders.bottom && x == right - 1 && y == bottom
                - 1 {
                CellView {
                    sym: symbols::LINE_BOTTOM_RIGHT@,
                    style: c7.style.spec_apply(self.border_style),
                }
            } else {
                c7
            };
            if self.area.width > 2 && self.title is Some && y == top && x < left
                + self.spec_title_margin_left() + self.spec_title_budget() && unit_starting_at(
                self.spec_title_units(),
                left + self.spec_title_margin_left(),
                x,
            ) is Some {
                CellView {
                    sym: unit_starting_at(
                        self.spec_title_units(),
                        left + self.spec_title_margin_left(),
                        x,
                    )->Some_0.sym,
                    style: c8.style.spec_apply(self.title_style),
                }
            } else {
                c8
            }
        }
    }

    pub fn title(self, title: &str) -> (r: Self)
        ensures
            r.title is Some,
            r.title->Some_0@ == title@,
            r.title_style == self.title_style,
            r.borders == self.borders,
            r.border_style == self.border_style,
            r.style == self.style,
            r.area == self.area,
            r.events == self.events,
    {
        Block { title: Some(title.to_owned()), ..self }
    }

    pub fn area(self, area: Rect) -> (r: Self)
        ensures
            r == (Block { area, ..self }),
    {
        Block { area, ..self }
    }

    pub fn title_style(self, style: Style) -> (r: Self)
        ensures
            r == (Block { title_style: style, ..self }),
    {
        Block { title_style: style, ..self }
    }

    pub fn border_style(self, style: Style) -> (r: Self)
        ensures
            r == (Block { border_style: style, ..self }),
    {
        Block { border_style: style, ..self }
    }

    pub fn style(self, style: Style) -> (r: Self)
        ensures
            r == (Block { style, ..self }),
    {
        Block { style, ..self }
    }

    pub fn borders(self, flag: Borders) -> (r: Self)
        ensures
            r == (Block { borders: flag, ..self }),
    {
        Block { borders: flag, ..self }
    }

    /// Answers with the index of the first event binding that listens for
    /// this pointer event's kind, when the event falls inside the block.
    pub fn triggers_event(&self, event: &PointerEvent) -> (r: Option<usize>)
        requires
            self.area.wf(),
        ensures
            match spec_triggered(self.events@, self.area, *event) {
                Some(i) => r is Some && r->Some_0 == i,
                None => r is None,
            },
    {
        match_handler(&self.events, self.area, event)
    }

    /// The style a cell holds after this block's background fill.
    pub open spec fn background_style(self, prev: CellView) -> Style {
        if self.style.bg is Some {
            Style { fg: prev.style.fg, bg: self.style.bg, modifier: prev.style.modifier }
        } else {
            prev.style
        }
    }

    /// Whether `(x, y)` is a corner of the area with both adjacent edges
    /// enabled.
    pub open spec fn corner_edges_enabled(self, x: int, y: int) -> bool {
        let at_left = x == self.area.spec_left();
        let at_right = x == self.area.spec_right() - 1;
        let at_top = y == self.area.spec_top();
        let at_bottom = y == self.area.spec_bottom() - 1;
        ||| (self.borders.left && self.borders.top && at_left && at_top)
        ||| (self.borders.right && self.borders.top && at_right && at_top)
        ||| (self.borders.left && self.borders.bottom && at_left && at_bottom)
        ||| (self.borders.right && self.borders.bottom && at_right && at_bottom)
    }

    /// The interior rectangle left after border and title reservation; too
    /// small a rectangle leaves nothing.
    pub open spec fn spec_inner(self) -> Rect {
        if self.area.width < 2 || self.area.height < 2 {
            Rect { x: 0, y: 0, width: 0, height: 0 }
        } else {
            let lx: int = if self.borders.left {
                1
            } else {
                0
            };
            let ty: int = if self.borders.top || self.title is Some {
                1
            } else {
                0
            };
            let rx: int = if self.borders.right {
                1
            } else {
                0
            };
            let by: int = if self.borders.bottom {
                1
            } else {
                0
            };
            Rect {
                x: (self.area.x + lx) as u16,
                y: (self.area.y + ty) as u16,
                width: (self.area.width - lx - rx) as u16,
                height: (self.area.height - ty - by) as u16,
            }
        }
    }

    /// Compute the inner area of a block based on its border visibility: each
    /// enabled edge reserves one row or column, and a title reserves the top
    /// row even without a top border.
    pub fn inner(&self) -> (r: Rect)
        requires
            self.area.wf(),
        ensures
            r == self.spec_inner(),
            r.wf(),
            self.spec_too_small() ==> r.spec_area() == 0,
    {
        if self.area.width < 2 || self.area.height < 2 {
            return Rect { x: 0, y: 0, width: 0, height: 0 };
        }
        let mut inner = self.area;
        if self.borders.left {
            inner.x = inner.x + 1;
            inner.width = inner.width - 1;
        }
        if self.borders.top || self.title.is_some() {
            inner.y = inner.y + 1;
            inner.height = inner.height - 1;
        }
        if self.borders.right {
            inner.width = inner.width - 1;
        }
        if self.borders.bottom {
            inner.height = inner.height - 1;
        }
        inner
    }

    pub fn get_area(&self) -> (r: Rect)
        ensures
            r == self.area,
    {
        self.area
    }

    /// Paints the block into `buf`: background, border edges, corner glyphs
    /// wherever both adjacent edges are enabled, and the truncated title. An
    /// undersized rectangle paints nothing at all.
    pub fn draw(&self, buf: &mut Buffer)
        requires
            old(buf).wf(),
            self.area.wf(),
            old(buf).area.spec_contains_rect(self.area),
        ensures
            final(buf).wf(),
            final(buf).area == old(buf).area,
            forall|x: int, y: int|
                old(buf).area.spec_hit(x, y) ==> #[trigger] final(buf).cell_at(x, y)
                    == self.block_paint(old(buf).cell_at(x, y), x, y),
    {
        let ghost orig = *buf;
        if self.area.width < 2 || self.area.height < 2 {
            return ;
        }
        let tw: u16 = self.area.width - (if self.borders.left {
            1u16
        } else {
            0u16
        }) - (if self.borders.right {
            1u16
        } else {
            0u16
        });
        let startx: u16 = self.area.x + (if self.borders.left {
            1u16
        } else {
            0u16
        });
        let written: Vec<crate::reflow::StyledGrapheme> = match &self.title {
            Some(t) => {
                let units = units_of_str(t.as_str(), self.title_style);
                fitted_units(&units, tw)
            },
            None => Vec::new(),
        };
        proof {
            if self.title is Some {
                assert(crate::reflow::views(written@) == self.spec_title_units());
            }
        }
        let mut yy = self.area.y;
        while yy < self.area.y + self.area.height
            invariant
                buf.wf(),
                buf.area == orig.area,
                orig.wf(),
                self.area.wf(),
                orig.area.spec_contains_rect(self.area),
                !self.spec_too_small(),
                self.area.spec_top() <= (yy as int) <= self.area.spec_bottom(),
                tw == self.spec_title_budget(),
                startx as int == self.area.spec_left() + self.spec_title_margin_left(),
                self.title is Some ==> crate::reflow::views(written@) == self.spec_title_units(),
                forall|x: int, y: int|
                    orig.area.spec_hit(x, y) ==> #[trigger] buf.cell_at(x, y) == (if self.area.spec_hit(
                        x,
                        y,
                    ) && y < yy as int {
                        self.block_paint(orig.cell_at(x, y), x, y)
                    } else {
                        orig.cell_at(x, y)
                    }),
            decreases self.area.spec_bottom() - yy,
        {
            let mut xx = self.area.x;
            while xx < self.area.x + self.area.width
                invariant
                    buf.wf(),
                    buf.area == orig.area,
                    orig.wf(),
                    self.area.wf(),
                    orig.area.spec_contains_rect(self.area),
                    !self.spec_too_small(),
                    self.area.spec_top() <= (yy as int) < self.area.spec_bottom(),
                    self.area.spec_left() <= (xx as int) <= self.area.spec_right(),
                    tw == self.spec_title_budget(),
                    startx as int == self.area.spec_left() + self.spec_title_margin_left(),
                    self.title is Some ==> crate::reflow::views(written@)
                        == self.spec_title_units(),
                    forall|x: int, y: int|
                        orig.area.spec_hit(x, y) ==> #[trigger] buf.cell_at(x, y) == (if self.area.spec_hit(
                            x,
                            y,
                        ) && (y < yy as int || (y == yy as int && x < xx as int)) {
                            self.block_paint(orig.cell_at(x, y), x, y)
                        } else {
                            orig.cell_at(x, y)
                        }),
                decreases self.area.spec_right() - xx,
            {
                let ghost pv = orig.cell_at(xx as int, yy as int);
                let (mut sym, mut st): (String, Style) = {
                    let c = buf.get(xx, yy);
                    (c.symbol.clone(), c.style)
                };
                if self.style.bg.is_some() {
                    st = Style { fg: st.fg, bg: self.style.bg, modifier: st.modifier };
                }
                if self.borders.left && xx == self.area.x {
                    sym = symbols::LINE_VERTICAL.to_owned();
                    st = st.apply(self.border_style);
                }
                if self.borders.top && yy == self.area.y {
                    sym = symbols::LINE_HORIZONTAL.to_owned();
                    st = st.apply(self.border_style);
                }
                if self.borders.right && xx == self.area.x + self.area.width - 1 {
                    sym = symbols::LINE_VERTICAL.to_owned();
                    st = st.apply(self.border_style);
                }
                if self.borders.bottom && yy == self.area.y + self.area.height - 1 {
                    sym = symbols::LINE_HORIZONTAL.to_owned();
                    st = st.apply(self.border_style);
                }
                if self.borders.left && self.borders.top && xx == self.area.x && yy
                    == self.area.y {
                    sym = symbols::LINE_TOP_LEFT.to_owned();
                    st = st.apply(self.border_style);
                }
                if self.borders.right && self.borders.top && xx == self.area.x + self.area.width
                    - 1 && yy == self.area.y {
                    sym = symbols::LINE_TOP_RIGHT.to_owned();
                    st = st.apply(self.border_style);
                }
                if self.borders.left && self.borders.bottom && xx == self.area.x && yy
                    == self.area.y + self.area.height - 1 {
                    sym = symbols::LINE_BOTTOM_LEFT.to_owned();
                    st = st.apply(self.border_style);
                }
                if self.borders.right && self.borders.bottom && xx == self.area.x
                    + self.area.width - 1 && yy == self.area.y + self.area.height - 1 {
                    sym = symbols::LINE_BOTTOM_RIGHT.to_owned();
                    st = st.apply(self.border_style);
                }
                if self.area.width > 2 && self.title.is_some() && yy == self.area.y && xx
                    < startx + tw {
                    match find_unit_all(&written, startx, xx) {
                        Some(t) => {
                            sym = written[t].symbol.clone();
                            st = st.apply(self.title_style);
                        },
                        None => {},
                    }
                }
                let ghost before = *buf;
                buf.put(xx, yy, Cell { symbol: sym, style: st });
                proof {
                    assert(buf.cell_at(xx as int, yy as int) == self.block_paint(
                        pv,
                        xx as int,
                        yy as int,
                    ));
                }
                xx += 1;
            }
            yy += 1;
        }
    }
}

/// An undersized frame paints nothing: for a rectangle with width or height
/// below two, drawing leaves every cell exactly as it was.
pub proof fn lemma_undersized_block_paints_nothing(b: Block, prev: CellView, x: int, y: int)
    requires
        b.spec_too_small(),
    ensures
        b.block_paint(prev, x, y) == prev,
{
}

/// Corner glyphs appear exactly where both adjacent edges are enabled: each
/// such corner cell holds the matching corner glyph whatever the title says,
/// and, on a block without a title, a corner with either edge disabled keeps
/// whatever the edge strokes put there (with a title, top-edge cells of the
/// title row legitimately show title graphemes instead).
#[verifier::rlimit(60)]
pub proof fn lemma_corner_glyphs(b: Block, prev: CellView)
    requires
        !b.spec_too_small(),
    ensures
        b.borders.left && b.borders.top ==> b.block_paint(
            prev,
            b.area.spec_left(),
            b.area.spec_top(),
        ).sym == symbols::LINE_TOP_LEFT@,
        b.borders.right && b.borders.top ==> b.block_paint(
            prev,
            b.area.spec_right() - 1,
            b.area.spec_top(),
        ).sym == symbols::LINE_TOP_RIGHT@,
        b.borders.left && b.borders.bottom ==> b.block_paint(
            prev,
            b.area.spec_left(),
            b.area.spec_bottom() - 1,
        ).sym == symbols::LINE_BOTTOM_LEFT@,
        b.borders.right && b.borders.bottom ==> b.block_paint(
            prev,
            b.area.spec_right() - 1,
            b.area.spec_bottom() - 1,
        ).sym == symbols::LINE_BOTTOM_RIGHT@,
        forall|x: int, y: int|
            b.area.spec_hit(x, y) && b.corner_edges_enabled(x, y) ==> #[trigger] b.block_paint(
                prev,
                x,
                y,
            ).style == b.background_style(prev).spec_apply(b.border_style),
        b.title is None && !(b.borders.left && b.borders.top) ==> b.block_paint(
            prev,
            b.area.spec_left(),
            b.area.spec_top(),
        ).sym == (if b.borders.top {
            symbols::LINE_HORIZONTAL@
        } else if b.borders.left {
            symbols::LINE_VERTICAL@
        } else {
            prev.sym
        }),
        b.title is None && !(b.borders.right && b.borders.top) ==> b.block_paint(
            prev,
            b.area.spec_right() - 1,
            b.area.spec_top(),
        ).sym == (if b.borders.right {
            symbols::LINE_VERTICAL@
        } else if b.borders.top {
            symbols::LINE_HORIZONTAL@
        } else {
            prev.sym
        }),
        b.title is None && !(b.borders.left && b.borders.bottom) ==> b.block_paint(
            prev,
            b.area.spec_left(),
            b.area.spec_bottom() - 1,
        ).sym == (if b.borders.bottom {
            symbols::LINE_HORIZONTAL@
        } else if b.borders.left {
            symbols::LINE_VERTICAL@
        } else {
            prev.sym
        }),
        b.title is None && !(b.borders.right && b.borders.bottom) ==> b.block_paint(
            prev,
            b.area.spec_right() - 1,
            b.area.spec_bottom() - 1,
        ).sym == (if b.borders.bottom {
            symbols::LINE_HORIZONTAL@
        } else if b.borders.right {
            symbols::LINE_VERTICAL@
        } else {
            prev.sym
        }),
{
    assert(b.area.spec_hit(b.area.spec_left(), b.area.spec_top()));
    assert(b.area.spec_hit(b.area.spec_right() - 1, b.area.spec_top()));
    assert(b.area.spec_hit(b.area.spec_left(), b.area.spec_bottom() - 1));
    assert(b.area.spec_hit(b.area.spec_right() - 1, b.area.spec_bottom() - 1));
    if b.borders.left {
        // the title starts one column right of the left border, so no title
        // unit can begin on the top-left corner cell
        crate::buffer::lemma_unit_at_start_past(
            b.spec_title_units(),
            b.area.spec_left() + b.spec_title_margin_left(),
            b.area.spec_left(),
        );
    }
    assert forall|x: int, y: int|
        b.area.spec_hit(x, y) && b.corner_edges_enabled(x, y) implies #[trigger] b.block_paint(
        prev,
        x,
        y,
    ).style == b.background_style(prev).spec_apply(b.border_style) by {
        if b.borders.left && x == b.area.spec_left() {
            crate::buffer::lemma_unit_at_start_past(
                b.spec_title_units(),
                b.area.spec_left() + b.spec_title_margin_left(),
                x,
            );
        }
        // layering the border style again changes nothing
        assert(b.background_style(prev).spec_apply(b.border_style).spec_apply(b.border_style)
            == b.background_style(prev).spec_apply(b.border_style));
    }
}

impl Default for Block {
    /// A block with no title, no borders, default styles and an empty area.
    fn default() -> (r: Block)
        ensures
            r.title is None,
            r.title_style == Style::spec_default(),
            r.borders == (Borders { left: false, right: false, top: false, bottom: false }),
            r.border_style == Style::spec_default(),
            r.style == Style::spec_default(),
            r.area == (Rect { x: 0, y: 0, width: 0, height: 0 }),
            r.events@.len() == 0,
    {
        Block {
            title: None,
            title_style: Style::new(),
            borders: Borders::none(),
            border_style: Style::new(),
            style: Style::new(),
            area: Rect::zero(),
            events: Vec::new(),
        }
    }
}

} // verus!
