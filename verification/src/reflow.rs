use vstd::prelude::*;
use vstd::math::min;
use unicode_segmentation::UnicodeSegmentation;
use unicode_width::UnicodeWidthStr;
use crate::style::Style;

verus! {

// ---------------------------------------------------------------------------
// Styled grapheme units
// ---------------------------------------------------------------------------

/// One grapheme cluster tagged with its terminal display width and the style
/// it is painted with: the unit the line composers consume.
pub struct StyledGrapheme {
    pub symbol: String,
    pub width: usize,
    pub style: Style,
}

/// The mathematical image of a styled grapheme unit.
pub ghost struct UnitView {
    pub sym: Seq<char>,
    pub width: nat,
    pub style: Style,
}

impl View for StyledGrapheme {
    type V = UnitView;

    open spec fn view(&self) -> UnitView {
        UnitView { sym: self.symbol@, width: self.width as nat, style: self.style }
    }
}

impl Clone for StyledGrapheme {
    fn clone(&self) -> (r: Self)
        ensures
            r == *self,
    {
        StyledGrapheme { symbol: self.symbol.clone(), width: self.width, style: self.style }
    }
}

pub open spec fn views(s: Seq<StyledGrapheme>) -> Seq<UnitView> {
    s.map_values(|u: StyledGrapheme| u@)
}

/// A hard line break: composition ends the current line here.
pub open spec fn is_break(u: UnitView) -> bool {
    u.sym == "\n"@
}

/// A word separator for the word-wrap composer.
pub open spec fn is_space(u: UnitView) -> bool {
    u.sym == " "@
}

/// Total display width of a run of units.
pub open spec fn total_width(s: Seq<UnitView>) -> int
    decreases s.len(),
{
    if s.len() == 0 {
        0
    } else {
        s[0].width + total_width(s.drop_first())
    }
}

// ---------------------------------------------------------------------------
// Trusted boundary: grapheme segmentation and display width
// ---------------------------------------------------------------------------

/// The extended grapheme clusters of a character sequence, a function of the
/// characters alone.
pub uninterp spec fn grapheme_split(s: Seq<char>) -> Seq<Seq<char>>;

/// The displayed column count of a character sequence, a function of the
/// characters alone.
pub uninterp spec fn display_width(s: Seq<char>) -> nat;

/// Relies on unicode_segmentation's `graphemes` (extended mode): it splits a
/// string into nonempty grapheme clusters whose concatenation is the input.
#[verifier::external_body]
fn split_graphemes(s: &str) -> (r: Vec<String>)
    ensures
        r@.map_values(|g: String| g@) == grapheme_split(s@),
        r@.map_values(|g: String| g@).flatten() == s@,
        forall|i: int| 0 <= i < r@.len() ==> r@[i]@.len() > 0,
{
    UnicodeSegmentation::graphemes(s, true).map(|g| g.to_string()).collect()
}

/// Relies on unicode_width's `UnicodeWidthStr::width`: the displayed column
/// count of a string; an empty string has width zero.
#[verifier::external_body]
fn str_width(s: &str) -> (r: usize)
    ensures
        r == display_width(s@),
        s@.len() == 0 ==> r == 0,
{
    UnicodeWidthStr::width(s)
}

/// The units a piece of uniformly styled text dissolves into.
pub open spec fn str_units(s: Seq<char>, style: Style) -> Seq<UnitView> {
    grapheme_split(s).map_values(|g: Seq<char>| UnitView { sym: g, width: display_width(g), style })
}

/// Splits `s` into styled grapheme units, measuring each unit's width.
pub fn units_of_str(s: &str, style: Style) -> (v: Vec<StyledGrapheme>)
    ensures
        views(v@) == str_units(s@, style),
{
    let gs = split_graphemes(s);
    let mut v: Vec<StyledGrapheme> = Vec::new();
    let ghost target = str_units(s@, style);
    proof {
        assert(target.len() == grapheme_split(s@).len());
    }
    let mut i: usize = 0;
    while i < gs.len()
        invariant
            i <= gs.len(),
            gs@.map_values(|g: String| g@) == grapheme_split(s@),
            target == str_units(s@, style),
            target.len() == gs@.len(),
            views(v@) == target.take(i as int),
        decreases gs.len() - i,
    {
        let g = gs[i].clone();
        let w = str_width(g.as_str());
        proof {
            assert(gs@.map_values(|g: String| g@)[i as int] == gs@[i as int]@);
            assert(target[i as int] == (UnitView { sym: g@, width: display_width(g@), style }));
        }
        let unit = StyledGrapheme { symbol: g, width: w, style };
        let ghost uview = unit@;
        let ghost prev = v@;
        proof {
            assert(uview == target[i as int]);
        }
        v.push(unit);
        proof {
            assert(views(prev).len() == prev.len());
            assert(target.take(i as int).len() == i as int);
            assert(prev.len() == i as int);
            assert(v@.len() == prev.len() + 1);
            assert(v@.last()@ == uview);
            assert forall|j: int| 0 <= j <= i as int implies views(v@)[j] == target.take(
                i as int + 1,
            )[j] by {
                assert(prev.len() == i as int);
                assert(v@.len() == i as int + 1);
                assert(0 <= j < v@.len());
                assert(views(v@)[j] == v@[j]@);
                if j < i as int {
                    assert(v@[j] == prev[j]);
                    assert(views(prev)[j] == prev[j]@);
                } else {
                    assert(v@[j]@ == uview);
                }
            }
            assert(views(v@) =~= target.take(i as int + 1));
        }
        i += 1;
    }
    proof {
        assert(target.take(gs@.len() as int) =~= target);
    }
    v
}

// ---------------------------------------------------------------------------
// Composed lines
// ---------------------------------------------------------------------------

/// One output row's worth of styled grapheme units together with its total
/// display width.
pub struct ComposedLine {
    pub units: Vec<StyledGrapheme>,
    pub width: usize,
}

pub open spec fn line_views(lines: Seq<ComposedLine>) -> Seq<Seq<UnitView>> {
    lines.map_values(|l: ComposedLine| views(l.units@))
}

// ---------------------------------------------------------------------------
// Truncation composer: spec
// ---------------------------------------------------------------------------

/// Index of the first hard break in `s`, or `s.len()` if there is none.
pub open spec fn first_break(s: Seq<UnitView>) -> nat
    decreases s.len(),
{
    if s.len() == 0 {
        0
    } else if is_break(s[0]) {
        0
    } else {
        1 + first_break(s.drop_first())
    }
}

/// How many leading units of `s` the greedy accumulator takes under width
/// budget `b`: units are taken while the running width stays within budget,
/// and the first unit that would overflow stops accumulation for good.
pub open spec fn fit_len(s: Seq<UnitView>, b: int) -> nat
    decreases s.len(),
{
    if s.len() > 0 && s[0].width <= b {
        1 + fit_len(s.drop_first(), b - s[0].width)
    } else {
        0
    }
}

/// The line the truncation composer emits for a break-free run `s`.
pub open spec fn line_of(s: Seq<UnitView>, b: int) -> Seq<UnitView> {
    s.take(fit_len(s, b) as int)
}

/// The lines the truncation composer emits: one line per logical line, cut at
/// the width budget; an empty trailing logical line produces no line.
pub open spec fn truncate_parts(s: Seq<UnitView>, b: int) -> Seq<Seq<UnitView>>
    decreases s.len(),
{
    let k = min(first_break(s) as int, s.len() as int);
    if k == s.len() {
        if s.len() == 0 {
            Seq::empty()
        } else {
            seq![line_of(s, b)]
        }
    } else {
        seq![line_of(s.take(k), b)] + truncate_parts(s.skip(k + 1), b)
    }
}

/// Truncation-mode composition; a zero budget composes nothing.
pub open spec fn truncate_spec(s: Seq<UnitView>, b: int) -> Seq<Seq<UnitView>> {
    if b <= 0 {
        Seq::empty()
    } else {
        truncate_parts(s, b)
    }
}

// ---------------------------------------------------------------------------
// Basic lemmas about the greedy accumulator
// ---------------------------------------------------------------------------

pub proof fn lemma_total_width_nonneg(s: Seq<UnitView>)
    ensures
        total_width(s) >= 0,
    decreases s.len(),
{
    if s.len() > 0 {
        lemma_total_width_nonneg(s.drop_first());
    }
}

pub proof fn lemma_total_width_push(s: Seq<UnitView>, u: UnitView)
    ensures
        total_width(s.push(u)) == total_width(s) + u.width,
    decreases s.len(),
{
    if s.len() == 0 {
        assert(s.push(u)[0] == u);
        assert(s.push(u).drop_first() =~= Seq::<UnitView>::empty());
        assert(total_width(Seq::<UnitView>::empty()) == 0);
        assert(total_width(s.push(u)) == u.width + total_width(s.push(u).drop_first()));
        assert(total_width(s) == 0);
    } else {
        assert(s.push(u)[0] == s[0]);
        assert(s.push(u).drop_first() =~= s.drop_first().push(u));
        lemma_total_width_push(s.drop_first(), u);
        assert(total_width(s.push(u)) == s[0].width + total_width(s.drop_first().push(u)));
        assert(total_width(s) == s[0].width + total_width(s.drop_first()));
    }
}

pub proof fn lemma_fit_le_len(s: Seq<UnitView>, b: int)
    ensures
        fit_len(s, b) <= s.len(),
    decreases s.len(),
{
    if s.len() > 0 && s[0].width <= b {
        lemma_fit_le_len(s.drop_first(), b - s[0].width);
    }
}

/// The greedy accumulator never exceeds its budget.
pub proof fn lemma_line_of_within(s: Seq<UnitView>, b: int)
    requires
        b >= 0,
    ensures
        total_width(line_of(s, b)) <= b,
        fit_len(s, b) == s.len() ==> line_of(s, b) == s && total_width(s) <= b,
    decreases s.len(),
{
    lemma_fit_le_len(s, b);
    if s.len() > 0 && s[0].width <= b {
        lemma_line_of_within(s.drop_first(), b - s[0].width);
        let f = fit_len(s.drop_first(), b - s[0].width);
        assert(s.take(1 + f as int) =~= seq![s[0]] + s.drop_first().take(f as int));
        assert((seq![s[0]] + s.drop_first().take(f as int)).drop_first() =~= s.drop_first().take(
            f as int,
        ));
        if fit_len(s, b) == s.len() {
            assert(s.take(s.len() as int) =~= s);
        }
    } else {
        assert(s.take(0) =~= Seq::<UnitView>::empty());
    }
}

/// How the greedy count grows when one more unit is appended to the input.
pub proof fn lemma_fit_push(s: Seq<UnitView>, u: UnitView, b: int)
    ensures
        fit_len(s.push(u), b) == if fit_len(s, b) == s.len() && total_width(s) + u.width <= b {
            (s.len() + 1) as nat
        } else {
            fit_len(s, b)
        },
    decreases s.len(),
{
    if s.len() == 0 {
        assert(s.push(u)[0] == u);
        assert(s.push(u).drop_first() =~= Seq::<UnitView>::empty());
        if u.width <= b {
            assert(fit_len(s.push(u), b) == 1 + fit_len(Seq::<UnitView>::empty(), b - u.width));
        } else {
            assert(fit_len(s.push(u), b) == 0);
        }
    } else {
        let w0 = s[0].width;
        let d = s.drop_first();
        assert(s.push(u)[0] == s[0]);
        assert(s.push(u).drop_first() =~= d.push(u));
        assert(total_width(s) == w0 + total_width(d));
        if w0 <= b {
            lemma_fit_push(d, u, b - w0);
            assert(fit_len(s.push(u), b) == 1 + fit_len(d.push(u), b - w0));
            assert(fit_len(s, b) == 1 + fit_len(d, b - w0));
            if fit_len(d, b - w0) == d.len() && total_width(d) + u.width <= b - w0 {
                assert(fit_len(d.push(u), b - w0) == d.len() + 1);
                assert(fit_len(s.push(u), b) == s.len() + 1);
                assert(fit_len(s, b) == s.len());
                assert(total_width(s) + u.width <= b);
            } else {
                assert(fit_len(d.push(u), b - w0) == fit_len(d, b - w0));
                assert(fit_len(s.push(u), b) == fit_len(s, b));
                assert(!(fit_len(s, b) == s.len() && total_width(s) + u.width <= b));
            }
        } else {
            lemma_fit_le_len(s, b);
            assert(fit_len(s.push(u), b) == 0);
            assert(fit_len(s, b) == 0);
        }
    }
}

pub proof fn lemma_first_break_char(s: Seq<UnitView>, k: int)
    requires
        0 <= k <= s.len(),
        forall|m: int| 0 <= m < k ==> !is_break(s[m]),
        k < s.len() ==> is_break(s[k]),
    ensures
        first_break(s) == k,
    decreases s.len(),
{
    if s.len() == 0 {
    } else if is_break(s[0]) {
    } else {
        assert(forall|m: int| 0 <= m < k - 1 ==> s.drop_first()[m] == s[m + 1]);
        lemma_first_break_char(s.drop_first(), k - 1);
    }
}

// ---------------------------------------------------------------------------
// Truncation composer: executable
// ---------------------------------------------------------------------------

/// Composes `units` into lines under truncation policy: each logical line is
/// cut at the width budget and the remainder up to the next hard break is
/// discarded. Returns no lines at all for a zero budget.
pub fn truncate_lines(units: &Vec<StyledGrapheme>, max_width: u16) -> (lines: Vec<ComposedLine>)
    ensures
        line_views(lines@) == truncate_spec(views(units@), max_width as int),
        forall|i: int|
            0 <= i < lines@.len() ==> #[trigger] lines@[i].width == total_width(
                views(lines@[i].units@),
            ) && lines@[i].width <= max_width,
{
    let ghost full = views(units@);
    let b: usize = max_width as usize;
    let mut lines: Vec<ComposedLine> = Vec::new();
    if max_width == 0 {
        return lines;
    }
    let n = units.len();
    let mut i: usize = 0;
    proof {
        assert(full.skip(0) =~= full);
        assert(line_views(lines@) + truncate_parts(full, b as int) =~= truncate_parts(
            full,
            b as int,
        ));
    }
    loop
        invariant
            b == max_width as int,
            b >= 1,
            n == units.len(),
            full == views(units@),
            full.len() == n,
            i <= n,
            truncate_parts(full, b as int) == line_views(lines@) + truncate_parts(
                full.skip(i as int),
                b as int,
            ),
            forall|t: int|
                0 <= t < lines@.len() ==> #[trigger] lines@[t].width == total_width(
                    views(lines@[t].units@),
                ) && lines@[t].width <= max_width,
        decreases n - i,
    {
        let ghost i0 = i as int;
        let mut cur: Vec<StyledGrapheme> = Vec::new();
        let mut curw: usize = 0;
        let mut skipping = false;
        while i < n && !is_break_unit(&units[i])
            invariant
                b >= 1,
                n == units.len(),
                full == views(units@),
                full.len() == n,
                0 <= i0 <= i as int <= n,
                forall|m: int| i0 <= m < i as int ==> !is_break(full[m]),
                views(cur@) == line_of(full.subrange(i0, i as int), b as int),
                curw == total_width(views(cur@)),
                curw <= b,
                skipping == (fit_len(full.subrange(i0, i as int), b as int) < i as int - i0),
            decreases n - i,
        {
            let ghost seg = full.subrange(i0, i as int);
            let ghost u = full[i as int];
            proof {
                assert(full.subrange(i0, i + 1) =~= seg.push(u));
                lemma_fit_push(seg, u, b as int);
                lemma_fit_le_len(seg, b as int);
                lemma_total_width_nonneg(views(cur@));
            }
            if !skipping && units[i].width <= b - curw {
                let g = units[i].clone();
                curw = curw + g.width;
                cur.push(g);
                proof {
                    lemma_total_width_push(views(cur@).drop_last(), u);
                    assert(views(cur@).drop_last() =~= line_of(seg, b as int));
                    assert(views(cur@) =~= line_of(seg, b as int).push(u));
                    lemma_line_of_within(seg, b as int);
                    assert(seg.push(u).take(fit_len(seg.push(u), b as int) as int) =~= views(
                        cur@,
                    ));
                }
            } else {
                skipping = true;
                proof {
                    lemma_line_of_within(seg, b as int);
                    if fit_len(seg, b as int) == seg.len() {
                        // the new unit is the first that does not fit
                        assert(total_width(seg) + u.width > b);
                    }
                    assert(seg.push(u).take(fit_len(seg.push(u), b as int) as int) =~= seg.take(
                        fit_len(seg, b as int) as int,
                    ));
                }
            }
            i += 1;
        }
        let ghost seg = full.subrange(i0, i as int);
        proof {
            let rest = full.skip(i0);
            assert(forall|m: int|
                0 <= m < seg.len() ==> #[trigger] rest[m] == seg[m] && !is_break(rest[m]));
            if (i as int) < n {
                assert(rest[i as int - i0] == full[i as int]);
                lemma_first_break_char(rest, i as int - i0);
            } else {
                assert(rest =~= seg);
                lemma_first_break_char(rest, i as int - i0);
            }
            assert(rest.take(i as int - i0) =~= seg);
        }
        if i < n {
            // a hard break ends this logical line; the break itself is dropped
            proof {
                let rest = full.skip(i0);
                assert(rest.skip(i as int - i0 + 1) =~= full.skip(i as int + 1));
                assert(truncate_parts(rest, b as int) == seq![line_of(seg, b as int)]
                    + truncate_parts(full.skip(i as int + 1), b as int));
                lemma_line_of_within(seg, b as int);
            }
            let w = curw;
            lines.push(ComposedLine { units: cur, width: w });
            proof {
                assert(line_views(lines@) =~= line_views(lines@.drop_last()).push(views(
                    lines@.last().units@,
                )));
                assert(line_views(lines@) + truncate_parts(full.skip(i as int + 1), b as int)
                    =~= line_views(lines@.drop_last()) + (seq![line_of(seg, b as int)]
                    + truncate_parts(full.skip(i as int + 1), b as int)));
            }
            i += 1;
        } else {
            // input exhausted: flush the partial line unless nothing started
            proof {
                let rest = full.skip(i0);
                assert(rest =~= seg);
                lemma_fit_le_len(seg, b as int);
                lemma_line_of_within(seg, b as int);
            }
            if cur.len() > 0 || skipping {
                proof {
                    assert(seg.len() > 0);
                    assert(truncate_parts(full.skip(i0), b as int) =~= seq![
                        line_of(seg, b as int),
                    ]);
                }
                let w = curw;
                lines.push(ComposedLine { units: cur, width: w });
                proof {
                    assert(line_views(lines@) =~= line_views(lines@.drop_last()).push(views(
                        lines@.last().units@,
                    )));
                    assert(line_views(lines@) =~= line_views(lines@.drop_last()) + seq![line_of(
                        seg,
                        b as int,
                    )]);
                }
            } else {
                proof {
                    assert(views(cur@).len() == 0);
                    // not skipping: everything scanned was taken, yet nothing
                    // was taken, so this logical line is empty
                    assert(seg.len() == 0) by {
                        assert(fit_len(seg, b as int) == i as int - i0);
                        assert(line_of(seg, b as int).len() == 0);
                        lemma_fit_le_len(seg, b as int);
                    }
                    assert(truncate_parts(full.skip(i0), b as int) =~= Seq::<
                        Seq<UnitView>,
                    >::empty());
                }
            }
            proof {
                assert(line_views(lines@) + Seq::<Seq<UnitView>>::empty() =~= line_views(
                    lines@,
                ));
                if !(cur.len() > 0 || skipping) {
                    assert(line_views(lines@) + truncate_parts(full.skip(i0), b as int)
                        =~= line_views(lines@));
                }
            }
            return lines;
        }
    }
}

/// Exact test for the hard line-break unit.
fn is_break_unit(u: &StyledGrapheme) -> (r: bool)
    ensures
        r == is_break(u@),
{
    let nl: String = "\n".to_owned();
    u.symbol == nl
}


// ---------------------------------------------------------------------------
// Word-wrap composer: spec
// ---------------------------------------------------------------------------

/// End of the first chunk of `s`: a chunk is a run of non-space units closed
/// by one trailing space, or the whole remainder when no space follows.
pub open spec fn first_chunk_end(s: Seq<UnitView>) -> nat
    decreases s.len(),
{
    if s.len() == 0 {
        0
    } else if is_space(s[0]) {
        1
    } else {
        1 + first_chunk_end(s.drop_first())
    }
}

/// A chunk without its trailing space: the word it carries.
pub open spec fn chunk_body(c: Seq<UnitView>) -> Seq<UnitView> {
    if c.len() > 0 && is_space(c.last()) {
        c.drop_last()
    } else {
        c
    }
}

/// How many units of `s` the current line still takes, with `acc` columns
/// already accumulated: a whole chunk is appended when the accumulated width
/// plus its word's width stays within budget.
pub open spec fn wrap_line_len(s: Seq<UnitView>, b: int, acc: int) -> nat
    decreases s.len(),
{
    if s.len() == 0 {
        0
    } else {
        let e = min(first_chunk_end(s) as int, s.len() as int);
        let chunk = s.take(e);
        let bw = total_width(chunk_body(chunk));
        if e > 0 && acc + bw <= b {
            (e + wrap_line_len(s.skip(e), b, acc + total_width(chunk))) as nat
        } else {
            0
        }
    }
}

/// Trailing spaces are dropped from an emitted line.
pub open spec fn trim_end(s: Seq<UnitView>) -> Seq<UnitView>
    decreases s.len(),
{
    if s.len() > 0 && is_space(s.last()) {
        trim_end(s.drop_last())
    } else {
        s
    }
}

/// How many units of `s` the next wrapped line consumes.
pub open spec fn wrap_consumed(s: Seq<UnitView>, b: int) -> int {
    let n = min(wrap_line_len(s, b, 0) as int, s.len() as int);
    if n > 0 {
        n
    } else {
        let h = min(fit_len(s, b) as int, s.len() as int);
        if h > 0 {
            h
        } else {
            1
        }
    }
}

/// The next wrapped line: whole chunks while they fit, with trailing spaces
/// trimmed; a word wider than the whole budget is hard-broken at the budget,
/// and a single unit wider than the whole budget stands alone, overflowing.
pub open spec fn wrap_line(s: Seq<UnitView>, b: int) -> Seq<UnitView> {
    if wrap_line_len(s, b, 0) > 0 {
        trim_end(s.take(min(wrap_line_len(s, b, 0) as int, s.len() as int)))
    } else {
        s.take(wrap_consumed(s, b))
    }
}

/// The lines the word-wrap composer emits for one break-free logical line; an
/// empty logical line yields one empty output line.
pub open spec fn wrap_part(s: Seq<UnitView>, b: int) -> Seq<Seq<UnitView>>
    decreases s.len(),
{
    if s.len() == 0 {
        seq![Seq::<UnitView>::empty()]
    } else {
        let c = wrap_consumed(s, b);
        if 1 <= c < s.len() {
            seq![wrap_line(s, b)] + wrap_part(s.skip(c), b)
        } else {
            seq![wrap_line(s, b)]
        }
    }
}

/// The lines the word-wrap composer emits: logical lines split at hard
/// breaks, each wrapped at word granularity; an empty trailing logical line
/// produces no line.
pub open spec fn wrap_parts(s: Seq<UnitView>, b: int) -> Seq<Seq<UnitView>>
    decreases s.len(),
{
    let k = min(first_break(s) as int, s.len() as int);
    if k == s.len() {
        if s.len() == 0 {
            Seq::empty()
        } else {
            wrap_part(s, b)
        }
    } else {
        wrap_part(s.take(k), b) + wrap_parts(s.skip(k + 1), b)
    }
}

/// Word-wrap composition; a zero budget composes nothing.
pub open spec fn wrap_spec(s: Seq<UnitView>, b: int) -> Seq<Seq<UnitView>> {
    if b <= 0 {
        Seq::empty()
    } else {
        wrap_parts(s, b)
    }
}

// ---------------------------------------------------------------------------
// Lemmas about chunks and trimming
// ---------------------------------------------------------------------------

pub proof fn lemma_total_width_append(a: Seq<UnitView>, c: Seq<UnitView>)
    ensures
        total_width(a + c) == total_width(a) + total_width(c),
    decreases c.len(),
{
    if c.len() == 0 {
        assert(a + c =~= a);
    } else {
        lemma_total_width_append(a, c.drop_last());
        assert(a + c =~= (a + c.drop_last()).push(c.last()));
        lemma_total_width_push(a + c.drop_last(), c.last());
        lemma_total_width_push(c.drop_last(), c.last());
        assert(c.drop_last().push(c.last()) =~= c);
    }
}

pub proof fn lemma_trim_push_space(s: Seq<UnitView>, u: UnitView)
    requires
        is_space(u),
    ensures
        trim_end(s.push(u)) == trim_end(s),
{
    assert(s.push(u).last() == u);
    assert(s.push(u).drop_last() =~= s);
}

pub proof fn lemma_trim_nonspace_end(s: Seq<UnitView>)
    requires
        s.len() == 0 || !is_space(s.last()),
    ensures
        trim_end(s) == s,
{
}

pub proof fn lemma_first_chunk_char(s: Seq<UnitView>, r: int)
    requires
        0 <= r <= s.len(),
        forall|m: int| 0 <= m < r ==> !is_space(s[m]),
        r < s.len() ==> is_space(s[r]),
    ensures
        first_chunk_end(s) == if r < s.len() {
            r + 1
        } else {
            s.len() as int
        },
    decreases s.len(),
{
    if s.len() == 0 {
    } else if is_space(s[0]) {
        assert(r == 0);
    } else {
        assert(r >= 1);
        assert(forall|m: int| 0 <= m < r - 1 ==> s.drop_first()[m] == s[m + 1]);
        if r < s.len() {
            assert(s.drop_first()[r - 1] == s[r]);
        }
        lemma_first_chunk_char(s.drop_first(), r - 1);
    }
}

pub proof fn lemma_wrap_line_len_le(s: Seq<UnitView>, b: int, acc: int)
    ensures
        wrap_line_len(s, b, acc) <= s.len(),
    decreases s.len(),
{
    if s.len() > 0 {
        let e = min(first_chunk_end(s) as int, s.len() as int);
        if e > 0 {
            lemma_wrap_line_len_le(s.skip(e), b, acc + total_width(s.take(e)));
        }
    }
}

// ---------------------------------------------------------------------------
// Word-wrap composer: executable
// ---------------------------------------------------------------------------

/// Exact test for the word-separating space unit.
fn is_space_unit(u: &StyledGrapheme) -> (r: bool)
    ensures
        r == is_space(u@),
{
    let sp: String = " ".to_owned();
    u.symbol == sp
}

/// Takes the next wrapped line out of the break-free run `[p, j)` of `units`.
/// Returns the line's units (trailing spaces trimmed), its display width, and
/// the position where the following line starts.
fn wrap_one_line(units: &Vec<StyledGrapheme>, p: usize, j: usize, max_width: u16) -> (res: (
    Vec<StyledGrapheme>,
    usize,
    usize,
))
    requires
        p < j <= units.len(),
        max_width >= 1,
    ensures
        views(res.0@) == wrap_line(views(units@).subrange(p as int, j as int), max_width as int),
        res.1 == total_width(views(res.0@)),
        res.2 == p + wrap_consumed(views(units@).subrange(p as int, j as int), max_width as int),
        p < res.2 <= j,
{
    let ghost rest = views(units@).subrange(p as int, j as int);
    let b: usize = max_width as usize;
    let mut cur: Vec<StyledGrapheme> = Vec::new();
    let mut q = p;
    let mut acc_sat: usize = 0;
    let mut wend: usize = 0;
    let ghost mut acc: int = 0;
    proof {
        assert(rest.take(0) =~= Seq::<UnitView>::empty());
        assert(rest.skip(0) =~= rest);
        lemma_trim_nonspace_end(Seq::<UnitView>::empty());
    }
    loop
        invariant
            p <= q <= j <= units.len(),
            b == max_width as int,
            b >= 1,
            rest == views(units@).subrange(p as int, j as int),
            rest.len() == j - p,
            views(cur@) == rest.take(q as int - p),
            acc == total_width(rest.take(q as int - p)),
            acc_sat == if acc <= b + 1 {
                acc
            } else {
                b + 1
            },
            wend == total_width(trim_end(rest.take(q as int - p))),
            wend <= b,
            wrap_line_len(rest, b as int, 0) == (q - p) + wrap_line_len(
                rest.skip(q as int - p),
                b as int,
                acc,
            ),
        ensures
            p <= q <= j,
            views(cur@) == rest.take(q as int - p),
            wend == total_width(trim_end(rest.take(q as int - p))),
            wend <= b,
            wrap_line_len(rest, b as int, 0) == q - p,
        decreases j - q,
    {
        let ghost rest2 = rest.skip(q as int - p);
        if q == j {
            proof {
                assert(rest2.len() == 0);
                assert(wrap_line_len(rest2, b as int, acc) == 0);
            }
            break;
        }
        // find the end of the non-space run, then the chunk end
        let mut r = q;
        while r < j && !is_space_unit(&units[r])
            invariant
                q <= r <= j <= units.len(),
                rest == views(units@).subrange(p as int, j as int),
                rest.len() == j - p,
                p <= q,
                forall|m: int| q as int <= m < r as int ==> !is_space(#[trigger] rest[m - p]),
            decreases j - r,
        {
            proof {
                assert(views(units@)[r as int] == units@[r as int]@);
                assert(rest[r as int - p] == views(units@)[r as int]);
            }
            r += 1;
        }
        let e = if r < j {
            r + 1
        } else {
            r
        };
        proof {
            assert(forall|m: int| 0 <= m < r as int - q ==> rest2[m] == rest[m + q - p]);
            if r < j {
                assert(views(units@)[r as int] == units@[r as int]@);
                assert(rest2[r as int - q] == rest[r as int - p]);
                assert(is_space(rest2[r as int - q]));
            }
            lemma_first_chunk_char(rest2, r as int - q);
            assert(min(first_chunk_end(rest2) as int, rest2.len() as int) == e as int - q);
        }
        let ghost chunk = rest2.take(e as int - q);
        let ghost body = rest2.take(r as int - q);
        proof {
            if e == r + 1 {
                assert(chunk.last() == rest2[r as int - q]);
                assert(is_space(chunk.last()));
                assert(chunk.drop_last() =~= body);
            } else {
                assert(chunk =~= body);
                if chunk.len() > 0 {
                    assert(chunk.last() == rest2[r as int - q - 1]);
                    assert(!is_space(chunk.last()));
                }
            }
            assert(chunk_body(chunk) == body);
        }
        // measure the word, saturating at one past the budget
        let mut bw: usize = 0;
        let ghost mut bwt: int = 0;
        let mut m = q;
        while m < r
            invariant
                q <= m <= r <= j <= units.len(),
                rest == views(units@).subrange(p as int, j as int),
                rest.len() == j - p,
                p <= q,
                1 <= b <= u16::MAX,
                body == rest.skip(q as int - p).take(r as int - q),
                bwt == total_width(body.take(m as int - q)),
                bw == if bwt <= b + 1 {
                    bwt
                } else {
                    b + 1
                },
            decreases r - m,
        {
            let ghost bprev = body.take(m as int - q);
            proof {
                assert(body.take(m as int - q + 1) =~= bprev.push(body[m as int - q]));
                lemma_total_width_push(bprev, body[m as int - q]);
                assert(views(units@)[m as int] == units@[m as int]@);
                assert(body[m as int - q] == rest[m as int - p]);
                assert(rest[m as int - p] == views(units@)[m as int]);
                lemma_total_width_nonneg(bprev);
            }
            let w = units[m].width;
            if w > b + 1 - bw {
                bw = b + 1;
            } else {
                bw = bw + w;
                if bw > b + 1 {
                    bw = b + 1;
                }
            }
            proof {
                bwt = bwt + rest[m as int - p].width;
            }
            m += 1;
        }
        proof {
            assert(body.take(r as int - q) =~= body);
            lemma_total_width_nonneg(body);
        }
        // decide whether the word still fits on this line
        let fits = acc_sat <= b && bw <= b - acc_sat;
        proof {
            lemma_total_width_nonneg(rest.take(q as int - p));
            assert(fits == (acc + bwt <= b));
        }
        if !fits {
            proof {
                assert(wrap_line_len(rest2, b as int, acc) == 0);
            }
            break;
        }
        let wend_new = if r > q {
            acc_sat + bw
        } else {
            wend
        };
        // append the whole chunk, trailing space included
        let ghost accq = acc;
        let ghost q0 = q as int;
        while q < e
            invariant
                p <= q <= e <= j <= units.len(),
                r <= e,
                e <= r + 1,
                1 <= b <= u16::MAX,
                rest == views(units@).subrange(p as int, j as int),
                rest.len() == j - p,
                views(cur@) == rest.take(q as int - p),
                acc == total_width(rest.take(q as int - p)),
                acc_sat == if acc <= b + 1 {
                    acc
                } else {
                    b + 1
                },
            decreases e - q,
    {
            let ghost cprev = rest.take(q as int - p);
            proof {
                assert(rest.take(q as int - p + 1) =~= cprev.push(rest[q as int - p]));
                lemma_total_width_push(cprev, rest[q as int - p]);
                lemma_total_width_nonneg(cprev);
                assert(views(units@)[q as int] == units@[q as int]@);
                assert(rest[q as int - p] == views(units@)[q as int]);
            }
            let g = units[q].clone();
            let w = g.width;
            let ghost cv = views(cur@);
            cur.push(g);
            proof {
                assert(views(cur@) =~= cv.push(rest[q as int - p]));
            }
            if w > b + 1 - acc_sat {
                acc_sat = b + 1;
            } else {
                acc_sat = acc_sat + w;
                if acc_sat > b + 1 {
                    acc_sat = b + 1;
                }
            }
            proof {
                acc = acc + rest[q as int - p].width;
            }
            q += 1;
        }
        wend = wend_new;
        proof {
            // the chunk was accepted: stitch one more step of the line length
            let tw = total_width(chunk);
            assert(rest.take(q as int - p) =~= rest.take(q0 - p) + chunk);
            assert(acc == accq + tw) by {
                lemma_total_width_append(rest.take(q0 - p), chunk);
            }
            assert(wrap_line_len(rest2, b as int, accq) == (e as int - q0) + wrap_line_len(
                rest2.skip(e as int - q0),
                b as int,
                accq + tw,
            ));
            assert(rest2.skip(e as int - q0) =~= rest.skip(q as int - p));
            // trimmed width bookkeeping
            if r as int > q0 {
                let prev_take = rest.take(r as int - p);
                assert(prev_take =~= rest.take(q0 - p) + body);
                lemma_total_width_append(rest.take(q0 - p), body);
                assert(prev_take.last() == rest[r as int - 1 - p]);
                assert(!is_space(prev_take.last()));
                lemma_trim_nonspace_end(prev_take);
                assert(wend == accq + total_width(body));
                if e == r + 1 {
                    assert(rest.take(q as int - p) =~= prev_take.push(rest[r as int - p]));
                    lemma_trim_push_space(prev_take, rest[r as int - p]);
                } else {
                    assert(rest.take(q as int - p) =~= prev_take);
                }
            } else {
                // a bare space: the trimmed prefix does not move
                assert(e as int == q0 + 1);
                assert(rest.take(q as int - p) =~= rest.take(q0 - p).push(rest[q0 - p]));
                assert(is_space(rest[q0 - p]));
                lemma_trim_push_space(rest.take(q0 - p), rest[q0 - p]);
            }
        }
    }
    // the line's chunk count is settled
    let n = q - p;
    proof {
        lemma_wrap_line_len_le(rest, b as int, 0);
        assert(wrap_line_len(rest, b as int, 0) == n);
    }
    if n > 0 {
        proof {
            assert(wrap_consumed(rest, b as int) == n as int);
            assert(wrap_line(rest, b as int) == trim_end(rest.take(n as int)));
        }
        // drop trailing spaces from the emitted cells
        while cur.len() > 0 && is_space_unit(&cur[cur.len() - 1])
            invariant
                trim_end(views(cur@)) == trim_end(rest.take(n as int)),
            decreases cur.len(),
        {
            let ghost cv = views(cur@);
            proof {
                assert(cv.last() == cur@[cur@.len() - 1]@);
                assert(is_space(cv.last()));
            }
            cur.pop();
            proof {
                assert(views(cur@) =~= cv.drop_last());
            }
        }
        proof {
            if cur.len() > 0 {
                assert(views(cur@).last() == cur@[cur@.len() - 1]@);
            }
            lemma_trim_nonspace_end(views(cur@));
            assert(views(cur@) == wrap_line(rest, b as int));
        }
        let w = wend;
        (cur, w, q)
    } else {
        // the first word alone overflows: hard-break it at the budget
        let mut broken: Vec<StyledGrapheme> = Vec::new();
        let mut hw: usize = 0;
        let mut h = p;
        proof {
            assert(rest.take(0) =~= Seq::<UnitView>::empty());
            assert(rest.skip(0) =~= rest);
        }
        let mut stopped = false;
        while h < j && !stopped
            invariant
                p <= h <= j <= units.len(),
                rest == views(units@).subrange(p as int, j as int),
                rest.len() == j - p,
                b >= 1,
                views(broken@) == rest.take(h as int - p),
                hw == total_width(views(broken@)),
                hw <= b,
                fit_len(rest, b as int) == (h - p) + (if stopped {
                    0
                } else {
                    fit_len(rest.skip(h as int - p), b as int - hw) as int
                }),
            decreases j - h + (if stopped { 0int } else { 1int }),
        {
            let ghost hprev = rest.take(h as int - p);
            proof {
                assert(views(units@)[h as int] == units@[h as int]@);
                assert(rest[h as int - p] == views(units@)[h as int]);
                assert(rest.skip(h as int - p)[0] == rest[h as int - p]);
            }
            if units[h].width <= b - hw {
                let g = units[h].clone();
                let ghost bv = views(broken@);
                hw = hw + g.width;
                broken.push(g);
                proof {
                    assert(views(broken@) =~= bv.push(rest[h as int - p]));
                    lemma_total_width_push(bv, rest[h as int - p]);
                    assert(rest.take(h as int - p + 1) =~= hprev.push(rest[h as int - p]));
                    assert(rest.skip(h as int - p).drop_first() =~= rest.skip(h as int - p + 1));
                }
                h += 1;
            } else {
                stopped = true;
            }
        }
        if h > p {
            proof {
                assert(fit_len(rest, b as int) == h - p);
                assert(wrap_consumed(rest, b as int) == h as int - p);
                assert(wrap_line(rest, b as int) == rest.take(h as int - p));
            }
            (broken, hw, h)
        } else {
            // a single unit wider than the whole budget stands alone
            proof {
                assert(fit_len(rest, b as int) == 0);
                assert(wrap_consumed(rest, b as int) == 1);
                assert(wrap_line(rest, b as int) == rest.take(1));
            }
            let g = units[p].clone();
            let w = g.width;
            let mut single: Vec<StyledGrapheme> = Vec::new();
            single.push(g);
            proof {
                assert(views(units@)[p as int] == units@[p as int]@);
                assert(rest[0] == views(units@)[p as int]);
                assert(views(single@) =~= rest.take(1));
                assert(rest.take(1).drop_first() =~= Seq::<UnitView>::empty());
                assert(total_width(rest.take(1)) == rest[0].width);
            }
            (single, w, p + 1)
        }
    }
}

/// Composes `units` into lines under word-wrap policy: whole words move to
/// the next line instead of being split, a word wider than the budget is
/// hard-broken, and hard breaks always end the current line. Returns no lines
/// at all for a zero budget.
pub fn wrap_lines(units: &Vec<StyledGrapheme>, max_width: u16) -> (lines: Vec<ComposedLine>)
    ensures
        line_views(lines@) == wrap_spec(views(units@), max_width as int),
        forall|i: int|
            0 <= i < lines@.len() ==> #[trigger] lines@[i].width == total_width(
                views(lines@[i].units@),
            ),
{
    let ghost full = views(units@);
    let mut lines: Vec<ComposedLine> = Vec::new();
    if max_width == 0 {
        return lines;
    }
    let b: usize = max_width as usize;
    let n = units.len();
    let mut i: usize = 0;
    proof {
        assert(full.skip(0) =~= full);
        assert(line_views(lines@) + wrap_parts(full, b as int) =~= wrap_parts(full, b as int));
    }
    loop
        invariant
            b == max_width as int,
            b >= 1,
            n == units.len(),
            full == views(units@),
            full.len() == n,
            i <= n,
            wrap_parts(full, b as int) == line_views(lines@) + wrap_parts(
                full.skip(i as int),
                b as int,
            ),
            forall|t: int|
                0 <= t < lines@.len() ==> #[trigger] lines@[t].width == total_width(
                    views(lines@[t].units@),
                ),
        decreases n - i,
    {
        let ghost i0 = i as int;
        // find the end of this logical line
        let mut j = i;
        while j < n && !is_break_unit(&units[j])
            invariant
                i <= j <= n,
                n == units.len(),
                full == views(units@),
                full.len() == n,
                forall|m: int| i as int <= m < j as int ==> !is_break(full[m]),
            decreases n - j,
        {
            proof {
                assert(views(units@)[j as int] == units@[j as int]@);
            }
            j += 1;
        }
        let ghost restp = full.skip(i0);
        let ghost part = full.subrange(i0, j as int);
        proof {
            assert(forall|m: int|
                0 <= m < j as int - i0 ==> #[trigger] restp[m] == full[m + i0] && !is_break(
                    restp[m],
                ));
            if (j as int) < n {
                assert(restp[j as int - i0] == full[j as int]);
            }
            lemma_first_break_char(restp, j as int - i0);
            assert(restp.take(j as int - i0) =~= part);
        }
        if i == j {
            // an empty logical line
            if j < n {
                proof {
                    assert(restp.skip(1) =~= full.skip(j as int + 1));
                    assert(wrap_part(part, b as int) =~= seq![Seq::<UnitView>::empty()]);
                    assert(wrap_parts(restp, b as int) == seq![Seq::<UnitView>::empty()]
                        + wrap_parts(full.skip(j as int + 1), b as int));
                }
                let empty_units: Vec<StyledGrapheme> = Vec::new();
                lines.push(ComposedLine { units: empty_units, width: 0 });
                proof {
                    assert(views(lines@.last().units@) =~= Seq::<UnitView>::empty());
                    assert(line_views(lines@) =~= line_views(lines@.drop_last()).push(
                        Seq::<UnitView>::empty(),
                    ));
                    assert(line_views(lines@) + wrap_parts(full.skip(j as int + 1), b as int)
                        =~= line_views(lines@.drop_last()) + wrap_parts(restp, b as int));
                }
                i = j + 1;
            } else {
                proof {
                    assert(restp =~= Seq::<UnitView>::empty());
                    assert(wrap_parts(restp, b as int) =~= Seq::<Seq<UnitView>>::empty());
                    assert(line_views(lines@) + wrap_parts(restp, b as int) =~= line_views(
                        lines@,
                    ));
                }
                return lines;
            }
        } else {
            // wrap this logical line, one emitted line at a time
            let ghost tail = if (j as int) < n {
                wrap_parts(full.skip(j as int + 1), b as int)
            } else {
                Seq::<Seq<UnitView>>::empty()
            };
            proof {
                if (j as int) < n {
                    assert(restp.skip(j as int - i0 + 1) =~= full.skip(j as int + 1));
                    assert(wrap_parts(restp, b as int) == wrap_part(part, b as int) + tail);
                } else {
                    assert(restp =~= part);
                    assert(wrap_parts(restp, b as int) == wrap_part(part, b as int));
                    assert(wrap_parts(restp, b as int) =~= wrap_part(part, b as int) + tail);
                }
            }
            let mut pp = i;
            while pp < j
                invariant
                    i0 <= i as int <= pp as int <= j <= n,
                    i as int == i0,
                    n == units.len(),
                    b == max_width as int,
                    b >= 1,
                    full == views(units@),
                    full.len() == n,
                    j <= n,
                    part == full.subrange(i0, j as int),
                    tail == if (j as int) < n {
                        wrap_parts(full.skip(j as int + 1), b as int)
                    } else {
                        Seq::<Seq<UnitView>>::empty()
                    },
                    wrap_parts(full, b as int) == line_views(lines@) + (if (pp as int) < j as int {
                        wrap_part(full.subrange(pp as int, j as int), b as int)
                    } else {
                        Seq::<Seq<UnitView>>::empty()
                    }) + tail,
                    forall|t: int|
                        0 <= t < lines@.len() ==> #[trigger] lines@[t].width == total_width(
                            views(lines@[t].units@),
                        ),
                decreases j - pp,
            {
                let ghost seg = full.subrange(pp as int, j as int);
                let (cur, w, p2) = wrap_one_line(units, pp, j, max_width);
                proof {
                    let c = wrap_consumed(seg, b as int);
                    assert(c == p2 as int - pp as int);
                    if (p2 as int) < j as int {
                        assert(seg.skip(c) =~= full.subrange(p2 as int, j as int));
                        assert(wrap_part(seg, b as int) == seq![wrap_line(seg, b as int)]
                            + wrap_part(full.subrange(p2 as int, j as int), b as int));
                    } else {
                        assert(wrap_part(seg, b as int) == seq![wrap_line(seg, b as int)]);
                    }
                }
                lines.push(ComposedLine { units: cur, width: w });
                proof {
                    assert(views(lines@.last().units@) == wrap_line(seg, b as int));
                    assert(line_views(lines@) =~= line_views(lines@.drop_last()).push(wrap_line(
                        seg,
                        b as int,
                    )));
                    if (p2 as int) < j as int {
                        assert(line_views(lines@) + wrap_part(
                            full.subrange(p2 as int, j as int),
                            b as int,
                        ) + tail =~= line_views(lines@.drop_last()) + wrap_part(seg, b as int)
                            + tail);
                    } else {
                        assert(line_views(lines@) + tail =~= line_views(lines@.drop_last())
                            + wrap_part(seg, b as int) + tail);
                        assert(line_views(lines@) + Seq::<Seq<UnitView>>::empty() + tail
                            =~= line_views(lines@) + tail);
                    }
                }
                pp = p2;
            }
            if j < n {
                proof {
                    assert(wrap_parts(full, b as int) == line_views(lines@) + Seq::<
                        Seq<UnitView>,
                    >::empty() + tail);
                    assert(line_views(lines@) + Seq::<Seq<UnitView>>::empty() + tail
                        =~= line_views(lines@) + wrap_parts(full.skip(j as int + 1), b as int));
                }
                i = j + 1;
            } else {
                proof {
                    assert(wrap_parts(full, b as int) == line_views(lines@) + Seq::<
                        Seq<UnitView>,
                    >::empty() + tail);
                    assert(line_views(lines@) + Seq::<Seq<UnitView>>::empty() + tail =~= line_views(
                        lines@,
                    ));
                }
                return lines;
            }
        }
    }
}


pub proof fn lemma_views_append(a: Seq<StyledGrapheme>, b: Seq<StyledGrapheme>)
    ensures
        views(a + b) == views(a) + views(b),
{
    assert forall|i: int| 0 <= i < a.len() + b.len() implies views(a + b)[i] == (views(a) + views(
        b,
    ))[i] by {
        assert(views(a + b)[i] == (a + b)[i]@);
        if i < a.len() {
            assert((a + b)[i] == a[i]);
            assert(views(a)[i] == a[i]@);
        } else {
            assert((a + b)[i] == b[i - a.len()]);
            assert(views(b)[i - a.len()] == b[i - a.len()]@);
        }
    }
    assert(views(a + b) =~= views(a) + views(b));
}


// ---------------------------------------------------------------------------
// Laws of the composers
// ---------------------------------------------------------------------------

proof fn lemma_truncate_parts_within(s: Seq<UnitView>, b: int)
    requires
        b >= 1,
    ensures
        forall|i: int|
            0 <= i < truncate_parts(s, b).len() ==> total_width(
                #[trigger] truncate_parts(s, b)[i],
            ) <= b,
    decreases s.len(),
{
    let k = min(first_break(s) as int, s.len() as int);
    if k == s.len() {
        if s.len() > 0 {
            lemma_line_of_within(s, b);
        }
    } else {
        lemma_line_of_within(s.take(k), b);
        lemma_truncate_parts_within(s.skip(k + 1), b);
        assert forall|i: int| 0 <= i < truncate_parts(s, b).len() implies total_width(
            #[trigger] truncate_parts(s, b)[i],
        ) <= b by {
            if i == 0 {
                assert(truncate_parts(s, b)[0] == line_of(s.take(k), b));
            } else {
                assert(truncate_parts(s, b)[i] == truncate_parts(s.skip(k + 1), b)[i - 1]);
            }
        }
    }
}

/// Truncation never emits a line wider than the budget.
pub proof fn lemma_truncation_within(s: Seq<UnitView>, b: int)
    ensures
        forall|i: int|
            0 <= i < truncate_spec(s, b).len() ==> total_width(
                #[trigger] truncate_spec(s, b)[i],
            ) <= b,
{
    if b >= 1 {
        lemma_truncate_parts_within(s, b);
    }
}

/// When a logical line of single-column units is at least as wide as the
/// budget, the truncation composer cuts it to exactly the budget.
pub proof fn lemma_truncation_exact_cut(s: Seq<UnitView>, b: int)
    requires
        b >= 0,
        total_width(s) >= b,
        forall|i: int| 0 <= i < s.len() ==> #[trigger] s[i].width == 1,
    ensures
        total_width(line_of(s, b)) == b,
    decreases s.len(),
{
    if b == 0 {
        if s.len() > 0 {
            assert(fit_len(s, b) == 0);
        }
        assert(s.take(0) =~= Seq::<UnitView>::empty());
    } else {
        assert(s.len() > 0) by {
            if s.len() == 0 {
                assert(total_width(s) == 0);
            }
        }
        let d = s.drop_first();
        assert(s[0].width == 1);
        assert(total_width(s) == 1 + total_width(d));
        assert(forall|i: int| 0 <= i < d.len() ==> #[trigger] d[i] == s[i + 1]);
        lemma_truncation_exact_cut(d, b - 1);
        let f = fit_len(d, b - 1);
        assert(fit_len(s, b) == 1 + f);
        lemma_fit_le_len(d, b - 1);
        assert(s.take(1 + f as int) =~= seq![s[0]] + d.take(f as int));
        assert((seq![s[0]] + d.take(f as int)).drop_first() =~= d.take(f as int));
        assert(total_width(line_of(s, b)) == 1 + total_width(d.take(f as int)));
    }
}

/// Removing units from the end of a run splits cleanly around the boundary.
proof fn lemma_trim_append(a: Seq<UnitView>, y: Seq<UnitView>)
    ensures
        trim_end(a + y) == if trim_end(y).len() > 0 {
            a + trim_end(y)
        } else {
            trim_end(a)
        },
    decreases y.len(),
{
    if y.len() == 0 {
        assert(a + y =~= a);
    } else {
        let u = y.last();
        let yp = y.drop_last();
        lemma_trim_append(a, yp);
        assert(a + y =~= (a + yp).push(u));
        if is_space(u) {
            lemma_trim_push_space(a + yp, u);
            lemma_trim_push_space(yp, u);
            assert(y.drop_last() =~= yp);
        } else {
            assert((a + yp).push(u).last() == u);
            lemma_trim_nonspace_end((a + yp).push(u));
            assert(trim_end(y) == y);
            assert((a + yp).push(u) =~= a + y);
        }
    }
}

/// The width that one wrapped line adds, trailing spaces trimmed, never
/// overruns what is left of the budget.
proof fn lemma_wrap_line_trim(s: Seq<UnitView>, b: int, acc: int)
    requires
        acc >= 0,
    ensures
        wrap_line_len(s, b, acc) > 0 ==> acc + total_width(
            trim_end(s.take(wrap_line_len(s, b, acc) as int)),
        ) <= b,
    decreases s.len(),
{
    if s.len() > 0 {
        let e = min(first_chunk_end(s) as int, s.len() as int);
        let chunk = s.take(e);
        let body = chunk_body(chunk);
        let bw = total_width(body);
        if e > 0 && acc + bw <= b {
            let tw = total_width(chunk);
            let n1 = wrap_line_len(s.skip(e), b, acc + tw);
            let n = wrap_line_len(s, b, acc);
            assert(n == e + n1);
            lemma_first_chunk_prefix_nonspace(s);
            assert forall|m: int| 0 <= m < chunk.len() - 1 implies !is_space(
                #[trigger] chunk[m],
            ) by {
                assert(chunk[m] == s[m]);
            }
            lemma_wll_trim_chunk_facts(chunk);
            assert(total_width(trim_end(chunk)) == if body.len() > 0 {
                bw
            } else {
                0
            });
            lemma_total_width_nonneg(body);
            lemma_total_width_nonneg(trim_end(chunk));
            if n1 > 0 {
                lemma_total_width_append(body, chunk.skip(body.len() as int));
                assert(chunk =~= body + chunk.skip(body.len() as int));
                lemma_space_width_nonneg(chunk, body);
                lemma_wrap_line_trim(s.skip(e), b, acc + tw);
                lemma_wrap_line_len_le(s.skip(e), b, acc + tw);
                let y = s.skip(e).take(n1 as int);
                assert(s.take(n as int) =~= chunk + y);
                lemma_trim_append(chunk, y);
                if trim_end(y).len() > 0 {
                    lemma_total_width_append(chunk, trim_end(y));
                } else {
                    lemma_total_width_nonneg(y);
                }
            } else {
                assert(s.take(n as int) =~= chunk);
            }
        }
    }
}

proof fn lemma_first_chunk_end_le(s: Seq<UnitView>)
    ensures
        first_chunk_end(s) <= s.len(),
    decreases s.len(),
{
    if s.len() > 0 && !is_space(s[0]) {
        lemma_first_chunk_end_le(s.drop_first());
    }
}

/// In one chunk only the final unit can be a space.
proof fn lemma_first_chunk_prefix_nonspace(s: Seq<UnitView>)
    ensures
        forall|m: int| 0 <= m < first_chunk_end(s) - 1 ==> !is_space(#[trigger] s[m]),
    decreases s.len(),
{
    lemma_first_chunk_end_le(s);
    if s.len() == 0 {
    } else if is_space(s[0]) {
    } else {
        lemma_first_chunk_prefix_nonspace(s.drop_first());
        lemma_first_chunk_end_le(s.drop_first());
        assert forall|m: int| 0 <= m < first_chunk_end(s) - 1 implies !is_space(
            #[trigger] s[m],
        ) by {
            if m > 0 {
                assert(s.drop_first()[m - 1] == s[m]);
            }
        }
    }
}

/// A chunk's trimmed width is its word's width.
proof fn lemma_wll_trim_chunk_facts(chunk: Seq<UnitView>)
    requires
        forall|m: int| 0 <= m < chunk.len() - 1 ==> !is_space(#[trigger] chunk[m]),
    ensures
        total_width(trim_end(chunk)) == if chunk_body(chunk).len() > 0 {
            total_width(chunk_body(chunk))
        } else {
            0
        },
{
    let body = chunk_body(chunk);
    if chunk.len() > 0 && is_space(chunk.last()) {
        assert(body == chunk.drop_last());
        assert(chunk.drop_last().push(chunk.last()) =~= chunk);
        lemma_trim_push_space(body, chunk.last());
        if body.len() > 0 {
            assert(body.last() == chunk[chunk.len() - 2]);
            assert(!is_space(body.last()));
            lemma_trim_nonspace_end(body);
        } else {
            assert(trim_end(body) == body);
            assert(total_width(trim_end(chunk)) == 0);
        }
    } else {
        assert(body == chunk);
        lemma_trim_nonspace_end(chunk);
        if chunk.len() == 0 {
            assert(total_width(trim_end(chunk)) == 0);
        }
    }
}

proof fn lemma_space_width_nonneg(chunk: Seq<UnitView>, body: Seq<UnitView>)
    requires
        chunk_body(chunk) == body,
    ensures
        total_width(chunk) >= total_width(body),
{
    if chunk.len() > 0 && is_space(chunk.last()) {
        assert(body == chunk.drop_last());
        assert(chunk.drop_last().push(chunk.last()) =~= chunk);
        lemma_total_width_push(chunk.drop_last(), chunk.last());
    }
}


proof fn lemma_wrap_part_within(s: Seq<UnitView>, b: int)
    requires
        b >= 1,
        forall|i: int| 0 <= i < s.len() ==> #[trigger] s[i].width <= b,
    ensures
        forall|i: int|
            0 <= i < wrap_part(s, b).len() ==> total_width(#[trigger] wrap_part(s, b)[i]) <= b,
    decreases s.len(),
{
    if s.len() == 0 {
        assert(wrap_part(s, b)[0] == Seq::<UnitView>::empty());
    } else {
        let c = wrap_consumed(s, b);
        let n = wrap_line_len(s, b, 0);
        lemma_wrap_line_len_le(s, b, 0);
        lemma_fit_le_len(s, b);
        // the first emitted line stays within budget
        if n > 0 {
            lemma_wrap_line_trim(s, b, 0);
        } else {
            let h = fit_len(s, b);
            if h > 0 {
                lemma_line_of_within(s, b);
            } else {
                assert(wrap_line(s, b) == s.take(1));
                assert(s.take(1) =~= seq![s[0]]);
                assert(seq![s[0]].drop_first() =~= Seq::<UnitView>::empty());
                assert(total_width(seq![s[0]]) == s[0].width);
            }
        }
        assert(total_width(wrap_line(s, b)) <= b);
        if 1 <= c < s.len() {
            assert(forall|i: int|
                0 <= i < s.skip(c).len() ==> #[trigger] s.skip(c)[i] == s[i + c]);
            lemma_wrap_part_within(s.skip(c), b);
            assert forall|i: int| 0 <= i < wrap_part(s, b).len() implies total_width(
                #[trigger] wrap_part(s, b)[i],
            ) <= b by {
                if i == 0 {
                    assert(wrap_part(s, b)[0] == wrap_line(s, b));
                } else {
                    assert(wrap_part(s, b)[i] == wrap_part(s.skip(c), b)[i - 1]);
                }
            }
        } else {
            assert(wrap_part(s, b) == seq![wrap_line(s, b)]);
        }
    }
}

/// Word wrap never emits a line wider than the budget, as long as no single
/// unit is wider than the whole budget by itself.
pub proof fn lemma_wrap_within(s: Seq<UnitView>, b: int)
    requires
        forall|i: int| 0 <= i < s.len() ==> #[trigger] s[i].width <= b,
    ensures
        forall|i: int|
            0 <= i < wrap_spec(s, b).len() ==> total_width(#[trigger] wrap_spec(s, b)[i]) <= b,
    decreases s.len(),
{
    if b >= 1 {
        let k = min(first_break(s) as int, s.len() as int);
        if k == s.len() {
            if s.len() > 0 {
                lemma_wrap_part_within(s, b);
            }
        } else {
            assert(forall|i: int| 0 <= i < k ==> #[trigger] s.take(k)[i] == s[i]);
            lemma_wrap_part_within(s.take(k), b);
            assert(forall|i: int|
                0 <= i < s.skip(k + 1).len() ==> #[trigger] s.skip(k + 1)[i] == s[i + k + 1]);
            lemma_wrap_within(s.skip(k + 1), b);
            assert forall|i: int| 0 <= i < wrap_parts(s, b).len() implies total_width(
                #[trigger] wrap_parts(s, b)[i],
            ) <= b by {
                let first = wrap_part(s.take(k), b);
                if i < first.len() {
                    assert(wrap_parts(s, b)[i] == first[i]);
                } else {
                    assert(wrap_parts(s, b)[i] == wrap_parts(s.skip(k + 1), b)[i - first.len()]);
                    assert(wrap_spec(s.skip(k + 1), b) == wrap_parts(s.skip(k + 1), b));
                }
            }
        }
    }
}


// ---------------------------------------------------------------------------
// Word preservation under word wrap
// ---------------------------------------------------------------------------

/// The words of a run: its maximal non-space unit runs, in order.
pub open spec fn words(s: Seq<UnitView>) -> Seq<Seq<UnitView>>
    decreases s.len(),
{
    if s.len() == 0 {
        Seq::empty()
    } else {
        let e = min(first_chunk_end(s) as int, s.len() as int);
        if e > 0 {
            let body = chunk_body(s.take(e));
            (if body.len() > 0 {
                seq![body]
            } else {
                Seq::<Seq<UnitView>>::empty()
            }) + words(s.skip(e))
        } else {
            Seq::empty()
        }
    }
}

/// When a chunk ends before the run does, it ends with the space that closed
/// it.
proof fn lemma_fce_space_at_end(s: Seq<UnitView>)
    requires
        first_chunk_end(s) < s.len(),
    ensures
        is_space(s[first_chunk_end(s) - 1]),
    decreases s.len(),
{
    if is_space(s[0]) {
    } else {
        lemma_fce_space_at_end(s.drop_first());
        assert(s.drop_first()[first_chunk_end(s.drop_first()) - 1] == s[first_chunk_end(s) - 1]);
    }
}

/// Words of a pure non-space nonempty run: the run itself.
proof fn lemma_words_of_nonspace(s: Seq<UnitView>)
    requires
        s.len() > 0,
        forall|m: int| 0 <= m < s.len() ==> !is_space(#[trigger] s[m]),
    ensures
        words(s) == seq![s],
{
    lemma_first_chunk_char(s, s.len() as int);
    assert(s.take(s.len() as int) =~= s);
    assert(!is_space(s.last()));
    assert(chunk_body(s) == s);
    assert(s.skip(s.len() as int) =~= Seq::<UnitView>::empty());
    assert(words(Seq::<UnitView>::empty()) == Seq::<Seq<UnitView>>::empty());
    assert(seq![s] + Seq::<Seq<UnitView>>::empty() =~= seq![s]);
    assert(words(s) =~= seq![s]);
}

/// Words of a run whose first chunk is space-closed split at the chunk.
proof fn lemma_words_chunk_concat(chunk: Seq<UnitView>, y: Seq<UnitView>)
    requires
        chunk.len() > 0,
        forall|m: int| 0 <= m < chunk.len() - 1 ==> !is_space(#[trigger] chunk[m]),
        is_space(chunk.last()),
    ensures
        words(chunk + y) == (if chunk_body(chunk).len() > 0 {
            seq![chunk_body(chunk)]
        } else {
            Seq::<Seq<UnitView>>::empty()
        }) + words(y),
{
    let s = chunk + y;
    assert(forall|m: int| 0 <= m < chunk.len() ==> #[trigger] s[m] == chunk[m]);
    lemma_first_chunk_char(s, chunk.len() - 1);
    assert(first_chunk_end(s) == chunk.len());
    assert(s.take(chunk.len() as int) =~= chunk);
    assert(s.skip(chunk.len() as int) =~= y);
}

/// Dropping a trailing space leaves the words alone.
proof fn lemma_words_drop_space(s: Seq<UnitView>)
    requires
        s.len() > 0,
        is_space(s.last()),
    ensures
        words(s.drop_last()) == words(s),
    decreases s.len(),
{
    lemma_first_chunk_end_le(s);
    lemma_first_chunk_prefix_nonspace(s);
    let e = min(first_chunk_end(s) as int, s.len() as int);
    let d = s.drop_last();
    if e < s.len() {
        lemma_fce_space_at_end(s);
        assert(forall|m: int| 0 <= m < e ==> #[trigger] d[m] == s[m]);
        lemma_first_chunk_char(d, e - 1);
        assert(first_chunk_end(d) == e);
        assert(d.take(e) =~= s.take(e));
        assert(d.skip(e) =~= s.skip(e).drop_last());
        assert(s.skip(e).last() == s.last());
        assert(s.skip(e).len() > 0);
        lemma_words_drop_space(s.skip(e));
    } else {
        // the whole run is one space-closed chunk; its words are its body
        assert(e == s.len());
        assert(chunk_body(s.take(e)) == d) by {
            assert(s.take(e) =~= s);
        }
        assert(s.skip(e) =~= Seq::<UnitView>::empty());
        assert(words(Seq::<UnitView>::empty()) == Seq::<Seq<UnitView>>::empty());
        assert((if d.len() > 0 {
            seq![d]
        } else {
            Seq::<Seq<UnitView>>::empty()
        }) + Seq::<Seq<UnitView>>::empty() =~= (if d.len() > 0 {
            seq![d]
        } else {
            Seq::<Seq<UnitView>>::empty()
        }));
        assert(words(s) =~= (if d.len() > 0 {
            seq![d]
        } else {
            Seq::<Seq<UnitView>>::empty()
        }));
        if d.len() > 0 {
            assert(forall|m: int| 0 <= m < d.len() ==> !is_space(#[trigger] d[m])) by {
                assert(forall|m: int|
                    0 <= m < s.len() - 1 ==> !is_space(#[trigger] s[m]));
                assert(forall|m: int| 0 <= m < d.len() ==> #[trigger] d[m] == s[m]);
            }
            lemma_words_of_nonspace(d);
        }
    }
}

/// Trimming trailing spaces leaves the words alone.
pub proof fn lemma_words_trim(s: Seq<UnitView>)
    ensures
        words(trim_end(s)) == words(s),
    decreases s.len(),
{
    if s.len() > 0 && is_space(s.last()) {
        lemma_words_drop_space(s);
        lemma_words_trim(s.drop_last());
    }
}

/// The units one wrapped line consumes split the run's words cleanly.
proof fn lemma_words_wll_split(s: Seq<UnitView>, b: int, acc: int)
    ensures
        words(s) == words(s.take(wrap_line_len(s, b, acc) as int)) + words(
            s.skip(wrap_line_len(s, b, acc) as int),
        ),
    decreases s.len(),
{
    let n = wrap_line_len(s, b, acc);
    lemma_wrap_line_len_le(s, b, acc);
    if n == 0 {
        assert(s.take(0) =~= Seq::<UnitView>::empty());
        assert(s.skip(0) =~= s);
        assert(words(Seq::<UnitView>::empty()) =~= Seq::<Seq<UnitView>>::empty());
        assert(words(s) =~= words(Seq::<UnitView>::empty()) + words(s));
    } else if n == s.len() {
        assert(s.take(n as int) =~= s);
        assert(s.skip(n as int) =~= Seq::<UnitView>::empty());
        assert(words(s) =~= words(s) + words(Seq::<UnitView>::empty()));
    } else {
        let e = min(first_chunk_end(s) as int, s.len() as int);
        let chunk = s.take(e);
        let n1 = wrap_line_len(s.skip(e), b, acc + total_width(chunk));
        assert(n == e + n1);
        lemma_wrap_line_len_le(s.skip(e), b, acc + total_width(chunk));
        lemma_first_chunk_end_le(s);
        lemma_first_chunk_prefix_nonspace(s);
        assert(forall|m: int| 0 <= m < e ==> #[trigger] chunk[m] == s[m]);
        assert(e < s.len());
        lemma_fce_space_at_end(s);
        assert(is_space(chunk.last()));
        lemma_words_wll_split(s.skip(e), b, acc + total_width(chunk));
        let y = s.skip(e).take(n1 as int);
        let z = s.skip(e).skip(n1 as int);
        lemma_words_chunk_concat(chunk, s.skip(e));
        lemma_words_chunk_concat(chunk, y);
        assert(s.take(n as int) =~= chunk + y);
        assert(s.skip(n as int) =~= z);
        let bodyw = if chunk_body(chunk).len() > 0 {
            seq![chunk_body(chunk)]
        } else {
            Seq::<Seq<UnitView>>::empty()
        };
        assert(chunk + s.skip(e) =~= s);
        assert(words(s) == bodyw + words(s.skip(e)));
        assert(words(s) =~= (bodyw + words(y)) + words(z));
    }
}

/// When every word of the run fits the budget on a fresh line, the first
/// wrapped line always consumes something, so no hard break happens.
proof fn lemma_wrap_first_line_nonempty(s: Seq<UnitView>, b: int)
    requires
        b >= 1,
        s.len() > 0,
        forall|i: int| 0 <= i < words(s).len() ==> total_width(#[trigger] words(s)[i]) <= b,
    ensures
        wrap_line_len(s, b, 0) > 0,
{
    let e = min(first_chunk_end(s) as int, s.len() as int);
    let chunk = s.take(e);
    let body = chunk_body(chunk);
    let bw = total_width(body);
    lemma_first_chunk_end_le(s);
    lemma_first_chunk_prefix_nonspace(s);
    assert(forall|m: int| 0 <= m < e ==> #[trigger] chunk[m] == s[m]);
    if body.len() > 0 {
        if e < s.len() {
            lemma_fce_space_at_end(s);
            assert(is_space(chunk.last()));
            lemma_words_chunk_concat(chunk, s.skip(e));
            assert(chunk + s.skip(e) =~= s);
            assert(words(s)[0] == body);
        } else {
            assert(chunk =~= s);
            if is_space(chunk.last()) {
                lemma_words_drop_space(s);
                assert(body == s.drop_last());
                assert(forall|m: int| 0 <= m < body.len() ==> !is_space(#[trigger] body[m]));
                lemma_words_of_nonspace(body);
                assert(words(s)[0] == body);
            } else {
                assert(body == chunk);
                assert(forall|m: int| 0 <= m < body.len() ==> !is_space(#[trigger] body[m]));
                lemma_words_of_nonspace(body);
                assert(words(body) == seq![body]);
                assert(words(s)[0] == body);
            }
        }
        assert(total_width(body) <= b);
    } else {
        lemma_total_width_nonneg(body);
        assert(bw == 0);
    }
}

/// Word wrap never emits a line wider than the budget when every word of the
/// break-free run fits the budget on a line of its own: interior spaces are
/// accounted for by the composer's own acceptance test, so nothing need be
/// assumed about any unit's width.
pub proof fn lemma_wrap_within_words(s: Seq<UnitView>, b: int)
    requires
        b >= 1,
        forall|i: int| 0 <= i < words(s).len() ==> total_width(#[trigger] words(s)[i]) <= b,
    ensures
        forall|i: int|
            0 <= i < wrap_part(s, b).len() ==> total_width(#[trigger] wrap_part(s, b)[i]) <= b,
    decreases s.len(),
{
    if s.len() == 0 {
        assert(wrap_part(s, b)[0] == Seq::<UnitView>::empty());
        assert(total_width(Seq::<UnitView>::empty()) == 0);
    } else {
        lemma_wrap_first_line_nonempty(s, b);
        let n = wrap_line_len(s, b, 0);
        lemma_wrap_line_len_le(s, b, 0);
        let c = wrap_consumed(s, b);
        assert(c == n as int);
        lemma_wrap_line_trim(s, b, 0);
        assert(total_width(wrap_line(s, b)) <= b);
        lemma_words_wll_split(s, b, 0);
        if 1 <= c < s.len() {
            let rest = s.skip(c);
            assert forall|i: int| 0 <= i < words(rest).len() implies total_width(
                #[trigger] words(rest)[i],
            ) <= b by {
                assert(words(rest)[i] == words(s)[i + words(s.take(c)).len()]);
            }
            lemma_wrap_within_words(rest, b);
            assert forall|i: int| 0 <= i < wrap_part(s, b).len() implies total_width(
                #[trigger] wrap_part(s, b)[i],
            ) <= b by {
                if i == 0 {
                    assert(wrap_part(s, b)[0] == wrap_line(s, b));
                } else {
                    assert(wrap_part(s, b)[i] == wrap_part(rest, b)[i - 1]);
                }
            }
        } else {
            assert(wrap_part(s, b) == seq![wrap_line(s, b)]);
        }
    }
}

/// Word wrap drops no word and reorders none: over one break-free logical
/// line, the words of the emitted lines, concatenated in order, are exactly
/// the words of the input — as long as every word fits the budget on a line
/// of its own (a wider word is hard-broken instead).
pub proof fn lemma_wrap_preserves_words(s: Seq<UnitView>, b: int)
    requires
        b >= 1,
        forall|i: int| 0 <= i < words(s).len() ==> total_width(#[trigger] words(s)[i]) <= b,
    ensures
        wrap_part(s, b).map_values(|l: Seq<UnitView>| words(l)).flatten() == words(s),
    decreases s.len(),
{
    let f = |l: Seq<UnitView>| words(l);
    if s.len() == 0 {
        assert(words(s) =~= Seq::<Seq<UnitView>>::empty());
        assert(wrap_part(s, b) == seq![Seq::<UnitView>::empty()]);
        let m = wrap_part(s, b).map_values(f);
        assert(m.len() == 1);
        assert(m[0] == words(Seq::<UnitView>::empty()));
        assert(words(Seq::<UnitView>::empty()) == Seq::<Seq<UnitView>>::empty());
        assert(m.drop_first() =~= Seq::<Seq<Seq<UnitView>>>::empty());
        assert(m.flatten() == m.first() + m.drop_first().flatten());
        assert(Seq::<Seq<Seq<UnitView>>>::empty().flatten() == Seq::<Seq<UnitView>>::empty());
        assert(m.flatten() =~= words(s));
    } else {
        lemma_wrap_first_line_nonempty(s, b);
        let n = wrap_line_len(s, b, 0);
        lemma_wrap_line_len_le(s, b, 0);
        assert(wrap_consumed(s, b) == n as int);
        let line = wrap_line(s, b);
        assert(line == trim_end(s.take(n as int)));
        lemma_words_trim(s.take(n as int));
        lemma_words_wll_split(s, b, 0);
        if (n as int) < s.len() {
            let rest = s.skip(n as int);
            assert(wrap_part(s, b) == seq![line] + wrap_part(rest, b));
            assert forall|i: int| 0 <= i < words(rest).len() implies total_width(
                #[trigger] words(rest)[i],
            ) <= b by {
                assert(words(rest)[i] == words(s)[i + words(s.take(n as int)).len()]);
            }
            lemma_wrap_preserves_words(rest, b);
            let m = wrap_part(s, b).map_values(f);
            let mr = wrap_part(rest, b).map_values(f);
            assert(m =~= seq![words(line)] + mr);
            assert(m[0] == words(line));
            assert(m.drop_first() =~= mr);
            assert(m.flatten() == m[0] + m.drop_first().flatten());
            assert(m.flatten() =~= words(s.take(n as int)) + words(rest));
        } else {
            assert(wrap_part(s, b) == seq![line]);
            let m = wrap_part(s, b).map_values(f);
            assert(m.len() == 1);
            assert(m[0] == words(line));
            assert(m.drop_first() =~= Seq::<Seq<Seq<UnitView>>>::empty());
            assert(m.flatten() == m[0] + m.drop_first().flatten());
            assert(Seq::<Seq<Seq<UnitView>>>::empty().flatten() == Seq::<Seq<UnitView>>::empty());
            assert(s.skip(n as int) =~= Seq::<UnitView>::empty());
            assert(words(Seq::<UnitView>::empty()) == Seq::<Seq<UnitView>>::empty());
            assert(words(s) =~= words(s.take(n as int)));
            assert(m.flatten() =~= words(s));
        }
    }
}

} // verus!

