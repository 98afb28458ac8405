use vstd::prelude::*;
use crate::block::Block;
use crate::buffer::{find_unit_all, unit_starting_at, Buffer, Cell, CellView};
use crate::events::{match_handler, spec_triggered, EventBinding, PointerEvent};
use crate::layout::{Alignment, Rect};
use crate::reflow::{
    lemma_views_append, str_units, total_width, truncate_lines, truncate_spec, units_of_str,
    views, wrap_lines, wrap_spec, ComposedLine, StyledGrapheme, UnitView,
};
use crate::style::Style;

verus! {

/// One span of input text: either raw (painted with the widget's ambient
/// style) or explicitly styled. Line breaks are literal newline characters
/// inside the span's content.
pub enum Text {
    Raw(String),
    Styled(String, Style),
}

pub open spec fn span_content(t: Text) -> Seq<char> {
    match t {
        Text::Raw(s) => s@,
        Text::Styled(s, _) => s@,
    }
}

pub open spec fn span_style(t: Text, base: Style) -> Style {
    match t {
        Text::Raw(_) => base,
        Text::Styled(_, st) => st,
    }
}

/// The styled grapheme units an ordered sequence of spans dissolves into.
pub open spec fn units_of(text: Seq<Text>, base: Style) -> Seq<UnitView>
    decreases text.len(),
{
    if text.len() == 0 {
        Seq::empty()
    } else {
        units_of(text.drop_last(), base) + str_units(
            span_content(text.last()),
            span_style(text.last(), base),
        )
    }
}

/// Splits every span into styled grapheme units, in order.
pub fn styled_units(text: &Vec<Text>, base: Style) -> (v: Vec<StyledGrapheme>)
    ensures
        views(v@) == units_of(text@, base),
{
    let mut v: Vec<StyledGrapheme> = Vec::new();
    let mut i: usize = 0;
    proof {
        assert(text@.take(0) =~= Seq::<Text>::empty());
        assert(views(v@) =~= Seq::<UnitView>::empty());
    }
    while i < text.len()
        invariant
            i <= text.len(),
            views(v@) == units_of(text@.take(i as int), base),
        decreases text.len() - i,
    {
        let ghost prev = v@;
        let mut span_units = match &text[i] {
            Text::Raw(s) => units_of_str(s.as_str(), base),
            Text::Styled(s, st) => units_of_str(s.as_str(), *st),
        };
        let ghost su = span_units@;
        proof {
            assert(views(su) == str_units(
                span_content(text@[i as int]),
                span_style(text@[i as int], base),
            ));
        }
        v.append(&mut span_units);
        proof {
            assert(v@ == prev + su);
            lemma_views_append(prev, su);
            assert(text@.take(i as int + 1).drop_last() =~= text@.take(i as int));
            assert(text@.take(i as int + 1).last() == text@[i as int]);
        }
        i += 1;
    }
    proof {
        assert(text@.take(text@.len() as int) =~= text@);
    }
    v
}

/// The left offset of a composed line inside its target width: zero for left
/// alignment, the centered offset for center, the right-flushed offset for
/// right; never negative.
pub open spec fn spec_line_offset(line_width: int, target: int, alignment: Alignment) -> int {
    match alignment {
        Alignment::Left => 0,
        Alignment::Center => if line_width / 2 <= target / 2 {
            target / 2 - line_width / 2
        } else {
            0
        },
        Alignment::Right => if line_width <= target {
            target - line_width
        } else {
            0
        },
    }
}

pub fn get_line_offset(line_width: u16, text_area_width: u16, alignment: Alignment) -> (r: u16)
    ensures
        r == spec_line_offset(line_width as int, text_area_width as int, alignment),
        r <= text_area_width,
{
    match alignment {
        Alignment::Center => {
            let half = text_area_width / 2;
            let lhalf = line_width / 2;
            if lhalf <= half {
                half - lhalf
            } else {
                0
            }
        },
        Alignment::Right => {
            if line_width <= text_area_width {
                text_area_width - line_width
            } else {
                0
            }
        },
        Alignment::Left => 0,
    }
}

/// A widget that reflows styled text into its rectangle, honoring wrap mode,
/// alignment and vertical scroll, optionally inside an owned frame.
pub struct Paragraph {
    /// A block to wrap the widget in
    pub block: Option<Block>,
    /// Area occupied by this paragraph
    pub area: Rect,
    /// Widget style
    pub style: Style,
    /// Wrap the text or not
    pub wrapping: bool,
    /// The text to display
    pub text: Vec<Text>,
    /// Whether the text is taken literally, without command parsing
    pub raw: bool,
    /// Scroll
    pub scroll: u16,
    /// Alignment of the text
    pub alignment: Alignment,
    /// Event bindings attached to this paragraph
    pub events: Vec<EventBinding>,
}

impl Paragraph {
    /// Both the frame's rectangle (when one is attached) and the paragraph's
    /// own rectangle are representable.
    pub open spec fn spec_wf_areas(self) -> bool {
        self.area.wf() && match self.block {
            Some(b) => b.area.wf(),
            None => true,
        }
    }

    /// The rectangle the text is painted into: the frame's interior when a
    /// frame is attached, the paragraph's own rectangle otherwise.
    pub open spec fn spec_text_area(self) -> Rect {
        match self.block {
            Some(b) => b.spec_inner(),
            None => self.area,
        }
    }

    /// The lines the configured composer produces for this paragraph.
    pub open spec fn spec_lines(self) -> Seq<Seq<UnitView>> {
        let units = units_of(self.text@, self.style);
        if self.wrapping {
            wrap_spec(units, self.spec_text_area().width as int)
        } else {
            truncate_spec(units, self.spec_text_area().width as int)
        }
    }

    /// What the frame leaves at `(x, y)` before the text is painted.
    pub open spec fn base_paint(self, prev: CellView, x: int, y: int) -> CellView {
        match self.block {
            Some(b) => b.block_paint(prev, x, y),
            None => prev,
        }
    }

    /// The cell this paragraph leaves at `(x, y)` over the frame's output:
    /// a background fill of the text rectangle, then the composed line
    /// `scroll + (y - top)` laid out at its alignment offset.
    pub open spec fn para_paint(self, prev: CellView, x: int, y: int) -> CellView {
        let ta = self.spec_text_area();
        if ta.height == 0 || !ta.spec_hit(x, y) {
            prev
        } else {
            let c0 = if self.style.bg is Some {
                CellView {
                    sym: prev.sym,
                    style: Style {
                        fg: prev.style.fg,
                        bg: self.style.bg,
                        modifier: prev.style.modifier,
                    },
                }
            } else {
                prev
            };
            let lines = self.spec_lines();
            let row = y - ta.spec_top() + self.scroll;
            if row < lines.len() {
                let line = lines[row];
                let off = spec_line_offset(total_width(line), ta.width as int, self.alignment);
                match unit_starting_at(line, ta.spec_left() + off, x) {
                    Some(u) => CellView { sym: u.sym, style: c0.style.spec_apply(u.style) },
                    None => c0,
                }
            } else {
                c0
            }
        }
    }

    pub fn new(text: Vec<Text>) -> (r: Paragraph)
        ensures
            r.block is None,
            r.style == Style::spec_default(),
            r.wrapping == false,
            r.raw == false,
            r.text == text,
            r.scroll == 0,
            r.alignment == Alignment::Left,
            r.area == (Rect { x: 0, y: 0, width: 0, height: 0 }),
            r.events@.len() == 0,
    {
        Paragraph {
            block: None,
            style: Style::new(),
            wrapping: false,
            raw: false,
            text,
            scroll: 0,
            alignment: Alignment::Left,
            area: Rect::zero(),
            events: Vec::new(),
        }
    }

    pub fn block(self, block: Block) -> (r: Self)
        ensures
            r.block is Some,
            r.block->Some_0 == block,
            r.area == self.area,
            r.style == self.style,
            r.wrapping == self.wrapping,
            r.text == self.text,
            r.raw == self.raw,
            r.scroll == self.scroll,
            r.alignment == self.alignment,
            r.events == self.events,
    {
        Paragraph { block: Some(block), ..self }
    }

    pub fn style(self, style: Style) -> (r: Self)
        ensures
            r == (Paragraph { style, ..self }),
    {
        Paragraph { style, ..self }
    }

    pub fn wrap(self, flag: bool) -> (r: Self)
        ensures
            r == (Paragraph { wrapping: flag, ..self }),
    {
        Paragraph { wrapping: flag, ..self }
    }

    pub fn raw(self, flag: bool) -> (r: Self)
        ensures
            r == (Paragraph { raw: flag, ..self }),
    {
        Paragraph { raw: flag, ..self }
    }

    pub fn scroll(self, offset: u16) -> (r: Self)
        ensures
            r == (Paragraph { scroll: offset, ..self }),
    {
        Paragraph { scroll: offset, ..self }
    }

    pub fn alignment(self, alignment: Alignment) -> (r: Self)
        ensures
            r == (Paragraph { alignment, ..self }),
    {
        Paragraph { alignment, ..self }
    }

    pub fn area(self, area: Rect) -> (r: Self)
        ensures
            r == (Paragraph { area, ..self }),
    {
        Paragraph { area, ..self }
    }

    /// Answers with the index of the first event binding that listens for
    /// this pointer event's kind, when the event falls inside the paragraph.
    pub fn triggers_event(&self, event: &PointerEvent) -> (r: Option<usize>)
        requires
            self.area.wf(),
        ensures
            match spec_triggered(self.events@, self.area, *event) {
                Some(i) => r is Some && r->Some_0 == i,
                None => r is None,
            },
    {
        match_handler(&self.events, self.area, event)
    }

    pub fn get_area(&self) -> (r: Rect)
        requires
            self.spec_wf_areas(),
        ensures
            r == self.spec_text_area(),
            r.wf(),
    {
        match &self.block {
            Some(b) => b.inner(),
            None => self.area,
        }
    }

    /// Paints the paragraph: the frame first (when attached), then a
    /// background fill of the text rectangle, then the composed lines,
    /// shifted up by the scroll offset and right by the alignment offset.
    /// A text rectangle of zero height paints no text.
    pub fn draw(&self, buf: &mut Buffer)
        requires
            old(buf).wf(),
            self.spec_wf_areas(),
            match self.block {
                Some(b) => old(buf).area.spec_contains_rect(b.area),
                None => old(buf).area.spec_contains_rect(self.area),
            },
        ensures
            final(buf).wf(),
            final(buf).area == old(buf).area,
            forall|x: int, y: int|
                old(buf).area.spec_hit(x, y) ==> #[trigger] final(buf).cell_at(x, y)
                    == self.para_paint(self.base_paint(old(buf).cell_at(x, y), x, y), x, y),
    {
        let ghost orig = *buf;
        match &self.block {
            Some(b) => {
                b.draw(buf);
            },
            None => {},
        }
        let ghost based = *buf;
        proof {
            assert(forall|x: int, y: int|
                orig.area.spec_hit(x, y) ==> #[trigger] based.cell_at(x, y) == self.base_paint(
                    orig.cell_at(x, y),
                    x,
                    y,
                ));
        }
        let ta = self.get_area();
        if ta.height < 1 {
            return ;
        }
        proof {
            // a drawable text rectangle lies inside the buffer
            assert(orig.area.spec_contains_rect(ta) || ta.width == 0) by {
                match self.block {
                    Some(b) => {
                        if !b.spec_too_small() {
                            assert(b.area.spec_contains_rect(ta));
                        } else {
                            assert(ta.width == 0);
                        }
                    },
                    None => {},
                }
            }
        }
        let units = styled_units(&self.text, self.style);
        let lines = if self.wrapping {
            wrap_lines(&units, ta.width)
        } else {
            truncate_lines(&units, ta.width)
        };
        proof {
            assert(crate::reflow::line_views(lines@) == self.spec_lines());
        }
        let mut yy = ta.y;
        while yy < ta.y + ta.height
            invariant
                buf.wf(),
                buf.area == orig.area,
                orig.wf(),
                based.wf(),
                based.area == orig.area,
                ta == self.spec_text_area(),
                ta.wf(),
                ta.height >= 1,
                orig.area.spec_contains_rect(ta) || ta.width == 0,
                ta.spec_top() <= (yy as int) <= ta.spec_bottom(),
                crate::reflow::line_views(lines@) == self.spec_lines(),
                forall|t: int|
                    0 <= t < lines@.len() ==> #[trigger] lines@[t].width == total_width(
                        views(lines@[t].units@),
                    ),
                forall|x: int, y: int|
                    orig.area.spec_hit(x, y) ==> #[trigger] based.cell_at(x, y) == self.base_paint(
                        orig.cell_at(x, y),
                        x,
                        y,
                    ),
                forall|x: int, y: int|
                    orig.area.spec_hit(x, y) ==> #[trigger] buf.cell_at(x, y) == (if ta.spec_hit(
                        x,
                        y,
                    ) && y < yy as int {
                        self.para_paint(based.cell_at(x, y), x, y)
                    } else {
                        based.cell_at(x, y)
                    }),
            decreases ta.spec_bottom() - yy,
        {
            let mut xx = ta.x;
            while xx < ta.x + ta.width
                invariant
                    buf.wf(),
                    buf.area == orig.area,
                    orig.wf(),
                    based.wf(),
                    based.area == orig.area,
                    ta == self.spec_text_area(),
                    ta.wf(),
                    ta.height >= 1,
                    orig.area.spec_contains_rect(ta) || ta.width == 0,
                    ta.spec_top() <= (yy as int) < ta.spec_bottom(),
                    ta.spec_left() <= (xx as int) <= ta.spec_right(),
                    crate::reflow::line_views(lines@) == self.spec_lines(),
                    forall|t: int|
                        0 <= t < lines@.len() ==> #[trigger] lines@[t].width == total_width(
                            views(lines@[t].units@),
                        ),
                    forall|x: int, y: int|
                        orig.area.spec_hit(x, y) ==> #[trigger] based.cell_at(x, y)
                            == self.base_paint(orig.cell_at(x, y), x, y),
                    forall|x: int, y: int|
                        orig.area.spec_hit(x, y) ==> #[trigger] buf.cell_at(x, y) == (if ta.spec_hit(
                            x,
                            y,
                        ) && (y < yy as int || (y == yy as int && x < xx as int)) {
                            self.para_paint(based.cell_at(x, y), x, y)
                        } else {
                            based.cell_at(x, y)
                        }),
                decreases ta.spec_right() - xx,
            {
                let ghost pv = based.cell_at(xx as int, yy as int);
                let row = (yy - ta.y) as usize + self.scroll as usize;
                let (sym0, st0): (String, Style) = {
                    let c = buf.get(xx, yy);
                    (c.symbol.clone(), c.style)
                };
                let st1 = if self.style.bg.is_some() {
                    Style { fg: st0.fg, bg: self.style.bg, modifier: st0.modifier }
                } else {
                    st0
                };
                let mut written = false;
                if row < lines.len() {
                    let lw = lines[row].width;
                    let off: u16 = if lw >= ta.width as usize {
                        0
                    } else {
                        get_line_offset(lw as u16, ta.width, self.alignment)
                    };
                    proof {
                        let lwi = total_width(views(lines@[row as int].units@));
                        if lw >= ta.width as int {
                            assert(lwi / 2 >= ta.width as int / 2) by (nonlinear_arith)
                                requires
                                    lwi >= ta.width as int,
                            ;
                            assert(spec_line_offset(lwi, ta.width as int, self.alignment) == 0);
                        }
                    }
                    let startx = ta.x + off;
                    match find_unit_all(&lines[row].units, startx, xx) {
                        Some(t) => {
                            let nsym = lines[row].units[t].symbol.clone();
                            let nst = st1.apply(lines[row].units[t].style);
                            buf.put(xx, yy, Cell { symbol: nsym, style: nst });
                            written = true;
                            proof {
                                assert(views(lines@[row as int].units@)[t as int]
                                    == lines@[row as int].units@[t as int]@);
                                assert(buf.cell_at(xx as int, yy as int) == self.para_paint(
                                    pv,
                                    xx as int,
                                    yy as int,
                                ));
                            }
                        },
                        None => {},
                    }
                }
                if !written {
                    if self.style.bg.is_some() {
                        buf.put(xx, yy, Cell { symbol: sym0, style: st1 });
                        proof {
                            assert(buf.cell_at(xx as int, yy as int) == self.para_paint(
                                pv,
                                xx as int,
                                yy as int,
                            ));
                        }
                    } else {
                        proof {
                            assert(buf.cell_at(xx as int, yy as int) == self.para_paint(
                                pv,
                                xx as int,
                                yy as int,
                            ));
                        }
                    }
                }
                xx += 1;
            }
            yy += 1;
        }
    }
}


/// Alignment offsets: left is always zero, right is exactly the slack
/// `t - w`, and the centered offset is within one column of `(t - w) / 2`.
pub proof fn lemma_alignment_offsets(w: int, t: int)
    requires
        0 <= w <= t,
    ensures
        spec_line_offset(w, t, Alignment::Left) == 0,
        spec_line_offset(w, t, Alignment::Right) == t - w,
        (t - w) / 2 <= spec_line_offset(w, t, Alignment::Center) <= (t - w) / 2 + 1,
{
    assert(t == 2 * (t / 2) + t % 2);
    assert(w == 2 * (w / 2) + w % 2);
    assert(0 <= t % 2 < 2);
    assert(0 <= w % 2 < 2);
    let c = t / 2 - w / 2;
    if t % 2 == w % 2 {
        assert(t - w == 2 * c);
        assert((t - w) / 2 == c);
    } else if t % 2 == 1 {
        assert(t - w == 2 * c + 1);
        assert((t - w) / 2 == c);
    } else {
        assert(t - w == 2 * (c - 1) + 1);
        assert((t - w) / 2 == c - 1);
    }
    assert(w / 2 <= t / 2) by {
        assert(2 * (w / 2) <= w);
        assert(2 * (t / 2) >= t - 1);
    }
}

impl Paragraph {
    /// Scrolling shows the window of composed lines `[scroll, scroll + h)`:
    /// the visible row `y` shows composed line `scroll + (y - top)`, so no
    /// line before `scroll` and none past `scroll + height` is ever painted.
    pub proof fn lemma_scroll_window(self, prev: CellView, x: int, y: int)
        requires
            self.spec_text_area().spec_hit(x, y),
            self.spec_text_area().height > 0,
        ensures
            self.scroll <= y - self.spec_text_area().spec_top() + self.scroll < self.scroll
                + self.spec_text_area().height,
            y - self.spec_text_area().spec_top() + self.scroll >= self.spec_lines().len()
                ==> self.para_paint(prev, x, y) == (if self.style.bg is Some {
                CellView {
                    sym: prev.sym,
                    style: Style {
                        fg: prev.style.fg,
                        bg: self.style.bg,
                        modifier: prev.style.modifier,
                    },
                }
            } else {
                prev
            }),
    {
    }
}

} // verus!
