use vstd::prelude::*;
use crate::layout::Rect;
use crate::reflow::{
    fit_len, lemma_total_width_nonneg, lemma_total_width_push, str_units, total_width,
    units_of_str, views, StyledGrapheme, UnitView,
};
use crate::style::{Color, Style};

verus! {

/// One grid position: the grapheme displayed there and its style.
pub struct Cell {
    pub symbol: String,
    pub style: Style,
}

/// The mathematical image of a cell.
pub ghost struct CellView {
    pub sym: Seq<char>,
    pub style: Style,
}

impl View for Cell {
    type V = CellView;

    open spec fn view(&self) -> CellView {
        CellView { sym: self.symbol@, style: self.style }
    }
}

impl Cell {
    /// What a freshly reset cell shows: a plain space with no styling.
    pub open spec fn spec_blank() -> CellView {
        CellView { sym: " "@, style: Style::spec_default() }
    }

    pub fn blank() -> (c: Cell)
        ensures
            c@ == Cell::spec_blank(),
    {
        Cell { symbol: " ".to_owned(), style: Style::new() }
    }

    pub fn set_symbol(&mut self, sym: &str)
        ensures
            final(self)@.sym == sym@,
            final(self)@.style == old(self)@.style,
    {
        self.symbol = sym.to_owned();
    }

    pub fn set_style(&mut self, style: Style)
        ensures
            final(self)@.sym == old(self)@.sym,
            final(self)@.style == old(self)@.style.spec_apply(style),
    {
        self.style = self.style.apply(style);
    }
}

impl Clone for Cell {
    fn clone(&self) -> (c: Cell)
        ensures
            c@ == self@,
    {
        Cell { symbol: self.symbol.clone(), style: self.style }
    }
}

/// Which unit of a run laid out from column `start` begins exactly at column
/// `x`; when units overlap on one column (zero-width units), the last one
/// written wins.
pub open spec fn unit_starting_at(units: Seq<UnitView>, start: int, x: int) -> Option<UnitView>
    decreases units.len(),
{
    if units.len() == 0 {
        None
    } else {
        let rest = unit_starting_at(units.drop_first(), start + units[0].width, x);
        if rest is Some {
            rest
        } else if start == x {
            Some(units[0])
        } else {
            None
        }
    }
}

pub proof fn lemma_unit_at_push(s: Seq<UnitView>, u: UnitView, start: int, x: int)
    ensures
        unit_starting_at(s.push(u), start, x) == if start + total_width(s) == x {
            Some(u)
        } else {
            unit_starting_at(s, start, x)
        },
    decreases s.len(),
{
    if s.len() == 0 {
        assert(s.push(u)[0] == u);
        assert(s.push(u).drop_first() =~= Seq::<UnitView>::empty());
        assert(total_width(s) == 0);
        assert(unit_starting_at(Seq::<UnitView>::empty(), start + u.width, x) is None);
        assert(unit_starting_at(s, start, x) is None);
        assert(unit_starting_at(s.push(u), start, x) == if start == x {
            Some(u)
        } else {
            None::<UnitView>
        });
    } else {
        assert(s.push(u)[0] == s[0]);
        assert(s.push(u).drop_first() =~= s.drop_first().push(u));
        lemma_unit_at_push(s.drop_first(), u, start + s[0].width, x);
        assert(total_width(s) == s[0].width + total_width(s.drop_first()));
        let rest = unit_starting_at(s.drop_first().push(u), start + s[0].width, x);
        assert(unit_starting_at(s.push(u), start, x) == (if rest is Some {
            rest
        } else if start == x {
            Some(s[0])
        } else {
            None::<UnitView>
        }));
    }
}

/// The units that fit when a string is written under a width budget.
pub open spec fn written_units(units: Seq<UnitView>, b: int) -> Seq<UnitView> {
    units.take(fit_len(units, b) as int)
}

/// A dense row-major grid of cells covering the viewport rectangle `area`:
/// the one shared surface every widget paints into.
pub struct Buffer {
    pub area: Rect,
    pub content: Vec<Cell>,
}

impl Buffer {
    pub open spec fn wf(self) -> bool {
        self.area.wf() && self.content.len() == self.area.width * self.area.height
    }

    pub open spec fn spec_index(self, x: int, y: int) -> int {
        (y - self.area.spec_top()) * self.area.width + (x - self.area.spec_left())
    }

    /// The cell shown at an absolute coordinate inside the viewport.
    pub open spec fn cell_at(self, x: int, y: int) -> CellView {
        self.content@[self.spec_index(x, y)]@
    }

    proof fn lemma_index_bounds(self, x: int, y: int)
        requires
            self.wf(),
            self.area.spec_hit(x, y),
        ensures
            0 <= self.spec_index(x, y) < self.content.len(),
    {
        let dx = x - self.area.spec_left();
        let dy = y - self.area.spec_top();
        let w = self.area.width as int;
        let h = self.area.height as int;
        assert(dy * w + dx < h * w) by (nonlinear_arith)
            requires
                0 <= dx < w,
                0 <= dy < h,
        ;
        assert(dy * w + dx >= 0) by (nonlinear_arith)
            requires
                0 <= dx,
                0 <= dy,
                w >= 0,
        ;
    }

    proof fn lemma_index_injective(self, x1: int, y1: int, x2: int, y2: int)
        requires
            self.wf(),
            self.area.spec_hit(x1, y1),
            self.area.spec_hit(x2, y2),
            !(x1 == x2 && y1 == y2),
        ensures
            self.spec_index(x1, y1) != self.spec_index(x2, y2),
    {
        let w = self.area.width as int;
        assert((y1 - self.area.spec_top()) * w + (x1 - self.area.spec_left()) != (y2
            - self.area.spec_top()) * w + (x2 - self.area.spec_left())) by (nonlinear_arith)
            requires
                0 <= x1 - self.area.spec_left() < w,
                0 <= x2 - self.area.spec_left() < w,
                0 <= y1 - self.area.spec_top(),
                0 <= y2 - self.area.spec_top(),
                !(x1 == x2 && y1 == y2),
        ;
    }

    fn index_of(&self, x: u16, y: u16) -> (i: usize)
        requires
            self.wf(),
            self.area.spec_hit(x as int, y as int),
        ensures
            i == self.spec_index(x as int, y as int),
            i < self.content.len(),
    {
        proof {
            self.lemma_index_bounds(x as int, y as int);
        }
        let dy = (y - self.area.y) as usize;
        let dx = (x - self.area.x) as usize;
        let w = self.area.width as usize;
        proof {
            assert(dy * w + dx < self.content.len());
        }
        dy * w + dx
    }

    /// A buffer of blank cells covering `area`.
    pub fn empty(area: Rect) -> (b: Buffer)
        requires
            area.wf(),
        ensures
            b.wf(),
            b.area == area,
            forall|x: int, y: int|
                area.spec_hit(x, y) ==> #[trigger] b.cell_at(x, y) == Cell::spec_blank(),
    {
        proof {
            assert((area.width as int) * (area.height as int) <= 65535 * 65535) by (nonlinear_arith)
                requires
                    area.width <= 65535,
                    area.height <= 65535,
            ;
        }
        let total = (area.width as usize) * (area.height as usize);
        let mut content: Vec<Cell> = Vec::new();
        let mut k: usize = 0;
        while k < total
            invariant
                k <= total,
                total == area.width * area.height,
                content.len() == k,
                forall|t: int| 0 <= t < k ==> #[trigger] content@[t]@ == Cell::spec_blank(),
            decreases total - k,
        {
            content.push(Cell::blank());
            k += 1;
        }
        let b = Buffer { area, content };
        proof {
            assert forall|x: int, y: int| area.spec_hit(x, y) implies #[trigger] b.cell_at(x, y)
                == Cell::spec_blank() by {
                b.lemma_index_bounds(x, y);
            }
        }
        b
    }

    /// Reads the cell at `(x, y)`; the coordinate must be in bounds.
    pub fn get(&self, x: u16, y: u16) -> (c: &Cell)
        requires
            self.wf(),
            self.area.spec_hit(x as int, y as int),
        ensures
            c@ == self.cell_at(x as int, y as int),
    {
        let i = self.index_of(x, y);
        &self.content[i]
    }

    /// Exclusive access to the cell at `(x, y)`; the coordinate must be in
    /// bounds — clipping is the caller's responsibility.
    pub fn get_mut(&mut self, x: u16, y: u16) -> (c: &mut Cell)
        requires
            old(self).wf(),
            old(self).area.spec_hit(x as int, y as int),
        ensures
            c@ == old(self).cell_at(x as int, y as int),
            final(self).area == old(self).area,
            final(self).wf(),
            final(self).cell_at(x as int, y as int) == final(c)@,
            forall|x2: int, y2: int|
                old(self).area.spec_hit(x2, y2) && !(x2 == x as int && y2 == y as int)
                    ==> #[trigger] final(self).cell_at(x2, y2) == old(self).cell_at(x2, y2),
    {
        let i = self.index_of(x, y);
        let ghost me = *self;
        proof {
            assert forall|x2: int, y2: int|
                me.area.spec_hit(x2, y2) && !(x2 == x as int && y2 == y as int) implies me.spec_index(
                x2,
                y2,
            ) != me.spec_index(x as int, y as int) by {
                me.lemma_index_injective(x2, y2, x as int, y as int);
            }
            assert forall|x2: int, y2: int| me.area.spec_hit(x2, y2) implies 0 <= me.spec_index(
                x2,
                y2,
            ) < me.content.len() by {
                me.lemma_index_bounds(x2, y2);
            }
        }
        &mut self.content[i]
    }

    /// Writes `sym` at `(x, y)` and layers `style` over the cell's style.
    pub fn write_symbol(&mut self, x: u16, y: u16, sym: &str, style: Style)
        requires
            old(self).wf(),
            old(self).area.spec_hit(x as int, y as int),
        ensures
            final(self).area == old(self).area,
            final(self).wf(),
            final(self).cell_at(x as int, y as int) == (CellView {
                sym: sym@,
                style: old(self).cell_at(x as int, y as int).style.spec_apply(style),
            }),
            forall|x2: int, y2: int|
                old(self).area.spec_hit(x2, y2) && !(x2 == x as int && y2 == y as int)
                    ==> #[trigger] final(self).cell_at(x2, y2) == old(self).cell_at(x2, y2),
    {
        let c = self.get_mut(x, y);
        c.set_symbol(sym);
        c.set_style(style);
    }

    /// Paints `color` into the background of every cell of `rect`, leaving
    /// symbols and the other style components alone.
    pub fn fill_background(&mut self, rect: Rect, color: Color)
        requires
            old(self).wf(),
            rect.wf(),
            old(self).area.spec_contains_rect(rect),
        ensures
            final(self).area == old(self).area,
            final(self).wf(),
            forall|x: int, y: int|
                old(self).area.spec_hit(x, y) ==> #[trigger] final(self).cell_at(x, y) == (if rect.spec_hit(
                    x,
                    y,
                ) {
                    CellView {
                        sym: old(self).cell_at(x, y).sym,
                        style: Style {
                            bg: Some(color),
                            fg: old(self).cell_at(x, y).style.fg,
                            modifier: old(self).cell_at(x, y).style.modifier,
                        },
                    }
                } else {
                    old(self).cell_at(x, y)
                }),
    {
        let ghost orig = *self;
        let mut yy = rect.y;
        while yy < rect.y + rect.height
            invariant
                self.wf(),
                self.area == orig.area,
                orig.wf(),
                rect.wf(),
                orig.area.spec_contains_rect(rect),
                rect.spec_top() <= (yy as int) <= rect.spec_bottom(),
                forall|x: int, y: int|
                    orig.area.spec_hit(x, y) ==> #[trigger] self.cell_at(x, y) == (if rect.spec_hit(
                        x,
                        y,
                    ) && y < yy as int {
                        CellView {
                            sym: orig.cell_at(x, y).sym,
                            style: Style {
                                bg: Some(color),
                                fg: orig.cell_at(x, y).style.fg,
                                modifier: orig.cell_at(x, y).style.modifier,
                            },
                        }
                    } else {
                        orig.cell_at(x, y)
                    }),
            decreases rect.spec_bottom() - yy,
        {
            let mut xx = rect.x;
            while xx < rect.x + rect.width
                invariant
                    self.wf(),
                    self.area == orig.area,
                    orig.wf(),
                    rect.wf(),
                    orig.area.spec_contains_rect(rect),
                    rect.spec_top() <= (yy as int) < rect.spec_bottom(),
                    rect.spec_left() <= (xx as int) <= rect.spec_right(),
                    forall|x: int, y: int|
                        orig.area.spec_hit(x, y) ==> #[trigger] self.cell_at(x, y) == (if rect.spec_hit(
                            x,
                            y,
                        ) && (y < yy as int || (y == yy as int && x < xx as int)) {
                            CellView {
                                sym: orig.cell_at(x, y).sym,
                                style: Style {
                                    bg: Some(color),
                                    fg: orig.cell_at(x, y).style.fg,
                                    modifier: orig.cell_at(x, y).style.modifier,
                                },
                            }
                        } else {
                            orig.cell_at(x, y)
                        }),
                decreases rect.spec_right() - xx,
            {
                let i = self.index_of(xx, yy);
                let ghost before = *self;
                let sym = self.content[i].symbol.clone();
                let st = self.content[i].style;
                self.content[i] = Cell {
                    symbol: sym,
                    style: Style { fg: st.fg, bg: Some(color), modifier: st.modifier },
                };
                proof {
                    assert(before.cell_at(xx as int, yy as int).style == st);
                    assert forall|x: int, y: int|
                        orig.area.spec_hit(x, y) && !(x == xx as int && y == yy as int) implies #[trigger] self.cell_at(
                        x,
                        y,
                    ) == before.cell_at(x, y) by {
                        before.lemma_index_injective(x, y, xx as int, yy as int);
                        before.lemma_index_bounds(x, y);
                    }
                    assert(self.cell_at(xx as int, yy as int) == (CellView {
                        sym: orig.cell_at(xx as int, yy as int).sym,
                        style: Style {
                            bg: Some(color),
                            fg: orig.cell_at(xx as int, yy as int).style.fg,
                            modifier: orig.cell_at(xx as int, yy as int).style.modifier,
                        },
                    }));
                }
                xx += 1;
            }
            yy += 1;
        }
    }

    /// Replaces the cell at `(x, y)` wholesale.
    pub fn put(&mut self, x: u16, y: u16, cell: Cell)
        requires
            old(self).wf(),
            old(self).area.spec_hit(x as int, y as int),
        ensures
            final(self).area == old(self).area,
            final(self).wf(),
            final(self).cell_at(x as int, y as int) == cell@,
            forall|x2: int, y2: int|
                old(self).area.spec_hit(x2, y2) && !(x2 == x as int && y2 == y as int)
                    ==> #[trigger] final(self).cell_at(x2, y2) == old(self).cell_at(x2, y2),
    {
        let i = self.index_of(x, y);
        let ghost me = *self;
        self.content[i] = cell;
        proof {
            assert forall|x2: int, y2: int|
                me.area.spec_hit(x2, y2) && !(x2 == x as int && y2 == y as int) implies #[trigger] self.cell_at(
                x2,
                y2,
            ) == me.cell_at(x2, y2) by {
                me.lemma_index_injective(x2, y2, x as int, y as int);
                me.lemma_index_bounds(x2, y2);
            }
        }
    }

    /// Writes as many leading graphemes of `text` as fit within `max_width`
    /// columns starting at `(x, y)`, layering `style` over every written
    /// cell. Cells shadowed by a wide grapheme keep their previous content,
    /// as do all cells past what was written.
    pub fn set_stringn(&mut self, x: u16, y: u16, text: &str, max_width: u16, style: Style)
        requires
            old(self).wf(),
            old(self).area.spec_top() <= y < old(self).area.spec_bottom(),
            old(self).area.spec_left() <= x,
            x + max_width <= old(self).area.spec_right(),
        ensures
            final(self).area == old(self).area,
            final(self).wf(),
            forall|cx: int, cy: int|
                old(self).area.spec_hit(cx, cy) ==> #[trigger] final(self).cell_at(cx, cy) == (if cy
                    == y as int && x <= cx < x + max_width && unit_starting_at(
                    written_units(str_units(text@, style), max_width as int),
                    x as int,
                    cx,
                ) is Some {
                    CellView {
                        sym: unit_starting_at(
                            written_units(str_units(text@, style), max_width as int),
                            x as int,
                            cx,
                        )->Some_0.sym,
                        style: old(self).cell_at(cx, cy).style.spec_apply(style),
                    }
                } else {
                    old(self).cell_at(cx, cy)
                }),
    {
        let units = units_of_str(text, style);
        let ghost all = views(units@);
        let ghost orig = *self;
        let mut i: usize = 0;
        let mut consumed: usize = 0;
        let mut stopped = false;
        proof {
            assert(all.take(0) =~= Seq::<UnitView>::empty());
            assert(all.skip(0) =~= all);
        }
        while i < units.len() && !stopped
            invariant
                self.wf(),
                self.area == orig.area,
                orig.wf(),
                orig.area.spec_top() <= y < orig.area.spec_bottom(),
                orig.area.spec_left() <= x,
                x + max_width <= orig.area.spec_right(),
                i <= units.len(),
                all == views(units@),
                all == str_units(text@, style),
                all.len() == units.len(),
                consumed == total_width(all.take(i as int)),
                consumed <= max_width,
                fit_len(all, max_width as int) == i + (if stopped {
                    0
                } else {
                    fit_len(all.skip(i as int), max_width as int - consumed) as int
                }),
                forall|cx: int, cy: int|
                    orig.area.spec_hit(cx, cy) ==> #[trigger] self.cell_at(cx, cy) == (if cy
                        == y as int && x <= cx < x + max_width && unit_starting_at(
                        all.take(i as int),
                        x as int,
                        cx,
                    ) is Some {
                        CellView {
                            sym: unit_starting_at(all.take(i as int), x as int, cx)->Some_0.sym,
                            style: orig.cell_at(cx, cy).style.spec_apply(style),
                        }
                    } else {
                        orig.cell_at(cx, cy)
                    }),
            decreases units.len() - i + (if stopped { 0int } else { 1int }),
        {
            let ghost taken = all.take(i as int);
            proof {
                assert(all.skip(i as int)[0] == all[i as int]);
                assert(views(units@)[i as int] == units@[i as int]@);
                lemma_total_width_nonneg(taken);
            }
            let w = units[i].width;
            if w <= max_width as usize - consumed {
                let ghost u = all[i as int];
                proof {
                    assert(all.take(i as int + 1) =~= taken.push(u));
                    lemma_total_width_push(taken, u);
                    assert(all.skip(i as int).drop_first() =~= all.skip(i as int + 1));
                }
                if consumed < max_width as usize {
                    let cx = x + consumed as u16;
                    let ghost before = *self;
                    self.write_symbol(cx, y, units[i].symbol.as_str(), style);
                    proof {
                        assert(u.sym == units@[i as int]@.sym);
                        assert forall|c2: int, y2: int|
                            orig.area.spec_hit(c2, y2) implies #[trigger] self.cell_at(c2, y2)
                            == (if y2 == y as int && x <= c2 < x + max_width && unit_starting_at(
                            all.take(i as int + 1),
                            x as int,
                            c2,
                        ) is Some {
                            CellView {
                                sym: unit_starting_at(
                                    all.take(i as int + 1),
                                    x as int,
                                    c2,
                                )->Some_0.sym,
                                style: orig.cell_at(c2, y2).style.spec_apply(style),
                            }
                        } else {
                            orig.cell_at(c2, y2)
                        }) by {
                            lemma_unit_at_push(taken, u, x as int, c2);
                            if c2 == cx as int && y2 == y as int {
                                assert(before.cell_at(c2, y2).style == (if unit_starting_at(
                                    taken,
                                    x as int,
                                    c2,
                                ) is Some {
                                    orig.cell_at(c2, y2).style.spec_apply(style)
                                } else {
                                    orig.cell_at(c2, y2).style
                                }));
                                // layering a style twice equals layering it once
                                assert(orig.cell_at(c2, y2).style.spec_apply(style).spec_apply(
                                    style,
                                ) == orig.cell_at(c2, y2).style.spec_apply(style));
                            }
                        }
                    }
                } else {
                    // a zero-width unit at the exhausted edge: nothing to paint
                    proof {
                        assert(w == 0);
                        assert forall|c2: int, y2: int|
                            orig.area.spec_hit(c2, y2) implies #[trigger] self.cell_at(c2, y2)
                            == (if y2 == y as int && x <= c2 < x + max_width && unit_starting_at(
                            all.take(i as int + 1),
                            x as int,
                            c2,
                        ) is Some {
                            CellView {
                                sym: unit_starting_at(
                                    all.take(i as int + 1),
                                    x as int,
                                    c2,
                                )->Some_0.sym,
                                style: orig.cell_at(c2, y2).style.spec_apply(style),
                            }
                        } else {
                            orig.cell_at(c2, y2)
                        }) by {
                            lemma_unit_at_push(taken, u, x as int, c2);
                        }
                    }
                }
                consumed = consumed + w;
                i += 1;
            } else {
                stopped = true;
            }
        }
        proof {
            if !stopped {
                assert(all.skip(units@.len() as int) =~= Seq::<UnitView>::empty());
            }
            assert(fit_len(all, max_width as int) == i as int);
            assert(all.take(i as int) == written_units(str_units(text@, style), max_width as int));
        }
    }
}


pub proof fn lemma_unit_at_start_past(s: Seq<UnitView>, start: int, x: int)
    requires
        start > x,
    ensures
        unit_starting_at(s, start, x) is None,
    decreases s.len(),
{
    if s.len() > 0 {
        lemma_unit_at_start_past(s.drop_first(), start + s[0].width, x);
    }
}

pub proof fn lemma_unit_at_split(s: Seq<UnitView>, i: int, start: int, x: int)
    requires
        0 <= i <= s.len(),
    ensures
        unit_starting_at(s, start, x) == if unit_starting_at(
            s.skip(i),
            start + total_width(s.take(i)),
            x,
        ) is Some {
            unit_starting_at(s.skip(i), start + total_width(s.take(i)), x)
        } else {
            unit_starting_at(s.take(i), start, x)
        },
    decreases i,
{
    if i == 0 {
        assert(s.skip(0) =~= s);
        assert(s.take(0) =~= Seq::<UnitView>::empty());
        assert(total_width(s.take(0)) == 0);
        assert(unit_starting_at(s.take(0), start, x) is None);
    } else {
        let d = s.drop_first();
        let w0 = s[0].width;
        lemma_unit_at_split(d, i - 1, start + w0, x);
        assert(d.skip(i - 1) =~= s.skip(i));
        assert(s.take(i).drop_first() =~= d.take(i - 1));
        assert(s.take(i)[0] == s[0]);
        assert(total_width(s.take(i)) == w0 + total_width(d.take(i - 1)));
        assert(unit_starting_at(s.take(i), start, x) == {
            let rest = unit_starting_at(d.take(i - 1), start + w0, x);
            if rest is Some {
                rest
            } else if start == x {
                Some(s[0])
            } else {
                None::<UnitView>
            }
        });
    }
}

/// Finds the unit of a laid-out run that begins exactly at column `x`, as an
/// index; the run starts at column `start` and every unit advances the column
/// by its width.
pub fn find_unit_all(units: &Vec<StyledGrapheme>, start: u16, x: u16) -> (r: Option<usize>)
    ensures
        match r {
            Some(t) => t < units@.len() && unit_starting_at(views(units@), start as int, x as int)
                == Some(views(units@)[t as int]),
            None => unit_starting_at(views(units@), start as int, x as int) is None,
        },
{
    let ghost all = views(units@);
    let bound: usize = x as usize + 1;
    if start > x {
        proof {
            lemma_unit_at_start_past(all, start as int, x as int);
        }
        return None;
    }
    let mut i: usize = 0;
    let mut pos: usize = start as usize;
    let mut found: Option<usize> = None;
    proof {
        assert(all.take(0) =~= Seq::<UnitView>::empty());
        assert(total_width(all.take(0)) == 0);
    }
    while i < units.len() && pos <= x as usize
        invariant
            i <= units.len(),
            all == views(units@),
            all.len() == units.len(),
            bound == x as int + 1,
            pos == if start + total_width(all.take(i as int)) <= bound as int {
                start + total_width(all.take(i as int))
            } else {
                bound as int
            },
            pos <= bound,
            match found {
                Some(t) => t < i && unit_starting_at(all.take(i as int), start as int, x as int)
                    == Some(all[t as int]),
                None => unit_starting_at(all.take(i as int), start as int, x as int) is None,
            },
        decreases units.len() - i,
    {
        let ghost taken = all.take(i as int);
        proof {
            assert(views(units@)[i as int] == units@[i as int]@);
            assert(all.take(i as int + 1) =~= taken.push(all[i as int]));
            lemma_unit_at_push(taken, all[i as int], start as int, x as int);
            lemma_total_width_push(taken, all[i as int]);
            lemma_total_width_nonneg(taken);
        }
        if pos == x as usize {
            found = Some(i);
        }
        let w = units[i].width;
        if w > bound - pos {
            pos = bound;
        } else {
            pos = pos + w;
        }
        i += 1;
    }
    proof {
        if i == units.len() {
            assert(all.take(i as int) =~= all);
        } else {
            assert(pos > x as int);
            assert(start + total_width(all.take(i as int)) > x as int);
            lemma_unit_at_split(all, i as int, start as int, x as int);
            lemma_unit_at_start_past(
                all.skip(i as int),
                start + total_width(all.take(i as int)),
                x as int,
            );
        }
    }
    found
}


/// The leading prefix of `units` whose cumulative width fits in `budget`:
/// exactly what a bounded write lays down.
pub fn fitted_units(units: &Vec<StyledGrapheme>, budget: u16) -> (v: Vec<StyledGrapheme>)
    ensures
        views(v@) == written_units(views(units@), budget as int),
{
    let ghost all = views(units@);
    let mut v: Vec<StyledGrapheme> = Vec::new();
    let mut i: usize = 0;
    let mut rem: u16 = budget;
    let mut stopped = false;
    proof {
        assert(all.take(0) =~= Seq::<UnitView>::empty());
        assert(all.skip(0) =~= all);
    }
    while i < units.len() && !stopped
        invariant
            i <= units.len(),
            all == views(units@),
            all.len() == units.len(),
            views(v@) == all.take(i as int),
            rem <= budget,
            fit_len(all, budget as int) == i + (if stopped {
                0
            } else {
                fit_len(all.skip(i as int), rem as int) as int
            }),
        decreases units.len() - i + (if stopped { 0int } else { 1int }),
    {
        proof {
            assert(views(units@)[i as int] == units@[i as int]@);
            assert(all.skip(i as int)[0] == all[i as int]);
        }
        if units[i].width <= rem as usize {
            let g = units[i].clone();
            let ghost vv = views(v@);
            rem = rem - (g.width as u16);
            v.push(g);
            proof {
                assert(views(v@) =~= vv.push(all[i as int]));
                assert(all.take(i as int + 1) =~= all.take(i as int).push(all[i as int]));
                assert(all.skip(i as int).drop_first() =~= all.skip(i as int + 1));
            }
            i += 1;
        } else {
            stopped = true;
        }
    }
    proof {
        if !stopped {
            assert(all.skip(units@.len() as int) =~= Seq::<UnitView>::empty());
        }
        assert(fit_len(all, budget as int) == i as int);
    }
    v
}

} // verus!
