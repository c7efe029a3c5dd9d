//! Styled text, without a terminal.

use vstd::prelude::*;

verus! {

/// The colors of a terminal. All but the last two are remapped by its theme.
#[derive(Debug, Clone, Copy, PartialEq, Eq, Structural)]
pub enum Color {
    Reset,
    Black,
    Red,
    Green,
    Yellow,
    Blue,
    Magenta,
    Cyan,
    Gray,
    DarkGray,
    LightRed,
    LightGreen,
    LightYellow,
    LightBlue,
    LightMagenta,
    LightCyan,
    White,
    Rgb(u8, u8, u8),
    Indexed(u8),
}

/// How a text is drawn: its color, where it has one of its own, and whether it
/// is bold.
#[derive(Debug, Clone, Copy, PartialEq, Eq)]
pub struct Style {
    pub fg: Option<Color>,
    pub bold: bool,
}

/// No color and no attribute.
pub open spec fn plain() -> Style {
    Style { fg: None, bold: false }
}

/// A color without an attribute.
pub open spec fn in_color(c: Color) -> Style {
    Style { fg: Some(c), bold: false }
}

/// A color in bold.
pub open spec fn in_bold(c: Color) -> Style {
    Style { fg: Some(c), bold: true }
}

impl Style {
    /// No color and no attribute.
    pub fn plain() -> (s: Style)
        ensures
            s == plain(),
    {
        Style { fg: None, bold: false }
    }

    /// A color without an attribute.
    pub fn in_color(c: Color) -> (s: Style)
        ensures
            s == in_color(c),
    {
        Style { fg: Some(c), bold: false }
    }

    /// A color in bold.
    pub fn in_bold(c: Color) -> (s: Style)
        ensures
            s == in_bold(c),
    {
        Style { fg: Some(c), bold: true }
    }
}

/// A stretch of text in one style.
#[derive(Debug, PartialEq)]
pub struct Span {
    pub text: String,
    pub style: Style,
}

/// What a span says.
pub struct SpanView {
    pub text: Seq<char>,
    pub style: Style,
}

impl View for Span {
    type V = SpanView;

    open spec fn view(&self) -> SpanView {
        SpanView { text: self.text@, style: self.style }
    }
}

impl Clone for Span {
    fn clone(&self) -> (r: Self)
        ensures
            r@ == self@,
    {
        Span { text: self.text.clone(), style: self.style }
    }
}

/// What some spans say.
pub open spec fn spans(v: Seq<Span>) -> Seq<SpanView> {
    Seq::new(v.len(), |i: int| v[i]@)
}

/// A text in a style.
pub open spec fn styled(text: Seq<char>, style: Style) -> SpanView {
    SpanView { text, style }
}

/// A text without a style.
pub open spec fn raw(text: Seq<char>) -> SpanView {
    SpanView { text, style: plain() }
}

/// One line of text.
#[derive(Debug, PartialEq)]
pub struct Line {
    pub spans: Vec<Span>,
}

impl View for Line {
    type V = Seq<SpanView>;

    open spec fn view(&self) -> Seq<SpanView> {
        spans(self.spans@)
    }
}

impl Clone for Line {
    fn clone(&self) -> (r: Self)
        ensures
            r@ == self@,
    {
        let mut r = Line::new();
        let mut i: usize = 0;
        assert(spans(self.spans@).take(0) =~= Seq::<SpanView>::empty());
        while i < self.spans.len()
            invariant
                i <= self.spans@.len(),
                r@ == self@.take(i as int),
            decreases self.spans@.len() - i,
        {
            r.add(self.spans[i].clone());
            assert(self@.take(i + 1) == self@.take(i as int).push(self@[i as int]));
            i += 1;
        }
        assert(self@.take(self@.len() as int) == self@);
        r
    }
}

impl Line {
    /// A line without text.
    pub fn new() -> (l: Line)
        ensures
            l@ == Seq::<SpanView>::empty(),
    {
        let l = Line { spans: Vec::new() };
        assert(l@ =~= Seq::<SpanView>::empty());
        l
    }

    /// Adds a span at the end.
    pub fn add(&mut self, s: Span)
        ensures
            final(self)@ == old(self)@.push(s@),
    {
        let ghost before = self.spans@;
        self.spans.push(s);
        assert(spans(self.spans@) == spans(before).push(s@));
    }

    /// Adds a text in a style.
    pub fn styled(&mut self, text: String, style: Style)
        ensures
            final(self)@ == old(self)@.push(styled(text@, style)),
    {
        self.add(Span { text, style });
    }

    /// Adds a text without a style.
    pub fn raw(&mut self, text: String)
        ensures
            final(self)@ == old(self)@.push(raw(text@)),
    {
        self.add(Span { text, style: Style::plain() });
    }
}

/// What some lines say.
pub open spec fn line_views(v: Seq<Line>) -> Seq<Seq<SpanView>> {
    Seq::new(v.len(), |i: int| v[i]@)
}

/// One cell of a rendered screen.
#[derive(Debug, PartialEq)]
pub struct Cell {
    pub symbol: String,
    pub fg: Color,
    pub bg: Color,
    pub underline_color: Color,
    /// Attributes such as bold, as bits.
    pub modifier: u16,
}

/// What a cell shows.
pub struct CellView {
    pub symbol: Seq<char>,
    pub fg: Color,
    pub bg: Color,
    pub underline_color: Color,
    pub modifier: u16,
}

impl View for Cell {
    type V = CellView;

    open spec fn view(&self) -> CellView {
        CellView {
            symbol: self.symbol@,
            fg: self.fg,
            bg: self.bg,
            underline_color: self.underline_color,
            modifier: self.modifier,
        }
    }
}

/// What some cells show.
pub open spec fn cells(v: Seq<Cell>) -> Seq<CellView> {
    Seq::new(v.len(), |i: int| v[i]@)
}

} // verus!
