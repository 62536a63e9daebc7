//! Styled text and what is painted with it.

use crate::layout::Rect;
use vstd::prelude::*;

verus! {

#[derive(Clone, Copy, Debug, PartialEq, Eq, Structural)]
pub enum Color {
    Blue,
    Cyan,
    DarkGray,
    Green,
    Red,
    White,
    Yellow,
}

/// How a text looks. Where no color is given that of the terminal is used.
#[derive(Clone, Copy, Debug, PartialEq, Eq, Structural)]
pub struct Style {
    pub fg: Option<Color>,
    pub bg: Option<Color>,
    pub bold: bool,
}

/// As the terminal shows text by itself.
#[verifier::allow_in_spec]
pub fn plain() -> Style
    returns
        (Style { fg: None, bg: None, bold: false }),
{
    Style { fg: None, bg: None, bold: false }
}

/// In a color.
#[verifier::allow_in_spec]
pub fn colored(color: Color) -> Style
    returns
        (Style { fg: Some(color), bg: None, bold: false }),
{
    Style { fg: Some(color), bg: None, bold: false }
}

/// Bold and in a color.
#[verifier::allow_in_spec]
pub fn strong(color: Color) -> Style
    returns
        (Style { fg: Some(color), bg: None, bold: true }),
{
    Style { fg: Some(color), bg: None, bold: true }
}

/// A text in one style.
#[derive(Debug)]
pub struct Span {
    pub text: String,
    pub style: Style,
}

/// What a [`Span`] holds, as mathematical values.
#[verifier::ext_equal]
pub struct SpanView {
    pub text: Seq<char>,
    pub style: Style,
}

impl View for Span {
    type V = SpanView;

    open spec fn view(&self) -> SpanView {
        SpanView { text: self.text@, style: self.style }
    }
}

/// A text in a style.
pub open spec fn span(text: Seq<char>, style: Style) -> SpanView {
    SpanView { text, style }
}

/// A line of texts in several styles.
#[derive(Debug)]
pub struct Line {
    pub spans: Vec<Span>,
}

impl View for Line {
    type V = Seq<SpanView>;

    open spec fn view(&self) -> Seq<SpanView> {
        self.spans@.map_values(|s: Span| s@)
    }
}

impl Line {
    pub fn new() -> (r: Line)
        ensures
            r@ == Seq::<SpanView>::empty(),
    {
        let r = Line { spans: Vec::new() };
        assert(r@ =~= Seq::<SpanView>::empty());
        r
    }

    /// Adds a text at the end.
    pub fn push(&mut self, text: &str, style: Style)
        ensures
            final(self)@ == old(self)@.push(span(text@, style)),
    {
        self.spans.push(Span { text: text.to_string(), style });
        assert(self@ =~= old(self)@.push(span(text@, style)));
    }
}

/// Several lines.
#[derive(Debug)]
pub struct Page {
    pub lines: Vec<Line>,
}

impl View for Page {
    type V = Seq<Seq<SpanView>>;

    open spec fn view(&self) -> Seq<Seq<SpanView>> {
        self.lines@.map_values(|l: Line| l@)
    }
}

impl Page {
    pub fn new() -> (r: Page)
        ensures
            r@ == Seq::<Seq<SpanView>>::empty(),
    {
        let r = Page { lines: Vec::new() };
        assert(r@ =~= Seq::<Seq<SpanView>>::empty());
        r
    }

    /// Adds a line at the end.
    pub fn push(&mut self, line: Line)
        ensures
            final(self)@ == old(self)@.push(line@),
    {
        self.lines.push(line);
        assert(self@ =~= old(self)@.push(line@));
    }

    /// Puts a line in the place of the last one, if there is one.
    pub fn replace_last(&mut self, line: Line)
        ensures
            final(self)@ == if old(self)@.len() > 0 {
                old(self)@.drop_last().push(line@)
            } else {
                old(self)@
            },
    {
        let ghost text = line@;
        if self.lines.pop().is_some() {
            self.lines.push(line);
            assert(self@ =~= old(self)@.drop_last().push(text));
        }
    }

    pub fn len(&self) -> (r: usize)
        ensures
            r == self@.len(),
    {
        self.lines.len()
    }
}

/// One thing that is painted on the screen.
#[derive(Debug)]
pub enum Widget {
    /// Whatever was there is wiped out.
    Clear { area: Rect },
    /// A frame with a title.
    Frame { area: Rect, title: String, color: Color },
    /// Lines of text.
    Text { area: Rect, page: Page },
    /// Lines of text, one for each item of a list.
    List { area: Rect, page: Page },
}

/// What a [`Widget`] holds, as mathematical values.
#[verifier::ext_equal]
pub enum WidgetView {
    Clear { area: Rect },
    Frame { area: Rect, title: Seq<char>, color: Color },
    Text { area: Rect, page: Seq<Seq<SpanView>> },
    List { area: Rect, page: Seq<Seq<SpanView>> },
}

impl View for Widget {
    type V = WidgetView;

    open spec fn view(&self) -> WidgetView {
        match *self {
            Widget::Clear { area } => WidgetView::Clear { area },
            Widget::Frame { area, title, color } => WidgetView::Frame {
                area,
                title: title@,
                color,
            },
            Widget::Text { area, page } => WidgetView::Text { area, page: page@ },
            Widget::List { area, page } => WidgetView::List { area, page: page@ },
        }
    }
}

/// Everything that is painted, one over the other.
#[derive(Debug)]
pub struct Canvas {
    pub widgets: Vec<Widget>,
}

impl View for Canvas {
    type V = Seq<WidgetView>;

    open spec fn view(&self) -> Seq<WidgetView> {
        self.widgets@.map_values(|w: Widget| w@)
    }
}

impl Canvas {
    pub fn new() -> (r: Canvas)
        ensures
            r@ == Seq::<WidgetView>::empty(),
    {
        let r = Canvas { widgets: Vec::new() };
        assert(r@ =~= Seq::<WidgetView>::empty());
        r
    }

    /// Paints one more thing.
    pub fn push(&mut self, widget: Widget)
        ensures
            final(self)@ == old(self)@.push(widget@),
    {
        self.widgets.push(widget);
        assert(self@ =~= old(self)@.push(widget@));
    }

    /// Paints a frame around an area.
    pub fn frame(&mut self, area: Rect, title: &str, color: Color)
        ensures
            final(self)@ == old(self)@.push(WidgetView::Frame { area, title: title@, color }),
    {
        self.push(Widget::Frame { area, title: title.to_string(), color });
    }
}

} // verus!
