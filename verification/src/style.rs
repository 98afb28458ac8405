use vstd::prelude::*;

verus! {

/// A terminal color, attached to a cell's foreground or background.
#[derive(Clone, Copy, PartialEq, Eq, Debug)]
pub enum Color {
    Reset,
    Black,
    Red,
    Green,
    Yellow,
    Blue,
    Magenta,
    Cyan,
    Gray,
    DarkGray,
    LightRed,
    LightGreen,
    LightYellow,
    LightBlue,
    LightMagenta,
    LightCyan,
    White,
    Rgb(u8, u8, u8),
}

/// Text attribute flags; combined additively when styles are layered.
#[derive(Clone, Copy, PartialEq, Eq, Debug)]
pub struct Modifier {
    pub bold: bool,
    pub italic: bool,
    pub underline: bool,
    pub reversed: bool,
}

impl Modifier {
    pub open spec fn spec_empty() -> Modifier {
        Modifier { bold: false, italic: false, underline: false, reversed: false }
    }

    pub open spec fn spec_union(self, other: Modifier) -> Modifier {
        Modifier {
            bold: self.bold || other.bold,
            italic: self.italic || other.italic,
            underline: self.underline || other.underline,
            reversed: self.reversed || other.reversed,
        }
    }

    pub fn empty() -> (m: Modifier)
        ensures
            m == Modifier::spec_empty(),
    {
        Modifier { bold: false, italic: false, underline: false, reversed: false }
    }
}

/// An immutable style value: optional foreground and background colors plus
/// attribute flags. A `None` color means "inherit what is already painted".
#[derive(Clone, Copy, PartialEq, Eq, Debug)]
pub struct Style {
    pub fg: Option<Color>,
    pub bg: Option<Color>,
    pub modifier: Modifier,
}

impl Style {
    /// The default style overrides nothing.
    pub open spec fn spec_default() -> Style {
        Style { fg: None, bg: None, modifier: Modifier::spec_empty() }
    }

    /// Last-writer-wins layering: `over`'s colors replace `self`'s wherever
    /// `over` sets them, and attribute flags accumulate.
    pub open spec fn spec_apply(self, over: Style) -> Style {
        Style {
            fg: if over.fg is Some {
                over.fg
            } else {
                self.fg
            },
            bg: if over.bg is Some {
                over.bg
            } else {
                self.bg
            },
            modifier: self.modifier.spec_union(over.modifier),
        }
    }

    pub fn new() -> (s: Style)
        ensures
            s == Style::spec_default(),
    {
        Style { fg: None, bg: None, modifier: Modifier::empty() }
    }

    pub fn fg(self, color: Color) -> (s: Style)
        ensures
            s == (Style { fg: Some(color), ..self }),
    {
        Style { fg: Some(color), ..self }
    }

    pub fn bg(self, color: Color) -> (s: Style)
        ensures
            s == (Style { bg: Some(color), ..self }),
    {
        Style { bg: Some(color), ..self }
    }

    pub fn modifier(self, modifier: Modifier) -> (s: Style)
        ensures
            s == (Style { modifier, ..self }),
    {
        Style { modifier, ..self }
    }

    /// Executable counterpart of `spec_apply`.
    pub fn apply(self, over: Style) -> (s: Style)
        ensures
            s == self.spec_apply(over),
    {
        Style {
            fg: if over.fg.is_some() {
                over.fg
            } else {
                self.fg
            },
            bg: if over.bg.is_some() {
                over.bg
            } else {
                self.bg
            },
            modifier: Modifier {
                bold: self.modifier.bold || over.modifier.bold,
                italic: self.modifier.italic || over.modifier.italic,
                underline: self.modifier.underline || over.modifier.underline,
                reversed: self.modifier.reversed || over.modifier.reversed,
            },
        }
    }
}

impl Default for Style {
    /// The default style overrides nothing.
    fn default() -> (s: Style)
        ensures
            s == Style::spec_default(),
    {
        Style { fg: None, bg: None, modifier: Modifier::empty() }
    }
}

} // verus!
