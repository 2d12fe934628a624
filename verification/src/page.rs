//! What is shown: pages of lines, with a tone for each stretch of text.
use vstd::prelude::*;

use crate::number::{decimal, write_number};
use crate::text::texts;

verus! {

/// How a stretch of text is set off.
#[derive(Debug, Clone, Copy, PartialEq, Eq, Structural)]
pub enum Tone {
    Plain,
    Bold,
    Dim,
    Cyan,
    CyanBold,
    Green,
    GreenBold,
    Yellow,
    YellowBold,
    RedBold,
}

/// A stretch of text in one tone.
#[derive(Debug)]
pub struct Span {
    pub tone: Tone,
    pub text: String,
}

/// A line, without the line break after it.
#[derive(Debug)]
pub struct Line {
    pub spans: Vec<Span>,
}

/// What a `Line` shows.
pub type LineView = Seq<(Tone, Seq<char>)>;

impl View for Line {
    type V = LineView;

    open spec fn view(&self) -> LineView {
        Seq::new(self.spans@.len(), |i: int| (self.spans@[i].tone, self.spans@[i].text@))
    }
}

/// Lines, one below the other.
#[derive(Debug)]
pub struct Page {
    pub lines: Vec<Line>,
}

/// What a `Page` shows.
pub type PageView = Seq<LineView>;

impl View for Page {
    type V = PageView;

    open spec fn view(&self) -> PageView {
        Seq::new(self.lines@.len(), |i: int| self.lines@[i]@)
    }
}

impl Line {
    /// An empty line.
    pub fn new() -> (r: Line)
        ensures
            r@ == LineView::empty(),
    {
        let r = Line { spans: Vec::new() };
        assert(r@ =~= LineView::empty());
        r
    }

    /// The line with one more stretch of text.
    pub fn with(self, tone: Tone, text: &str) -> (r: Line)
        ensures
            r@ == self@.push((tone, text@)),
    {
        let mut spans = self.spans;
        spans.push(Span { tone, text: text.to_owned() });
        let r = Line { spans };
        assert(r@ =~= self@.push((tone, text@)));
        r
    }
}

/// A line in one tone.
pub open spec fn toned(tone: Tone, text: Seq<char>) -> LineView {
    seq![(tone, text)]
}

/// An entry in a numbered list.
pub open spec fn entry(n: nat, text: Seq<char>) -> LineView {
    toned(Tone::Plain, "  "@ + decimal(n) + ". "@ + text)
}

/// A numbered list, counted from one.
pub open spec fn numbered(items: Seq<Seq<char>>) -> PageView {
    Seq::new(items.len(), |i: int| entry((i + 1) as nat, items[i]))
}

impl Page {
    /// An empty page.
    pub fn new() -> (r: Page)
        ensures
            r@ == PageView::empty(),
    {
        let r = Page { lines: Vec::new() };
        assert(r@ =~= PageView::empty());
        r
    }

    /// The page with one more line.
    pub fn with(self, line: Line) -> (r: Page)
        ensures
            r@ == self@.push(line@),
    {
        let mut lines = self.lines;
        lines.push(line);
        let r = Page { lines };
        assert(r@ =~= self@.push(line@));
        r
    }

    /// The page with one more line, all in one tone.
    pub fn line(self, tone: Tone, text: &str) -> (r: Page)
        ensures
            r@ == self@.push(toned(tone, text@)),
    {
        self.with(Line::new().with(tone, text))
    }

    /// The page with an empty line below it.
    pub fn gap(self) -> (r: Page)
        ensures
            r@ == self@.push(LineView::empty()),
    {
        self.with(Line::new())
    }

    /// The page above another.
    pub fn above(self, other: Page) -> (r: Page)
        ensures
            r@ == self@ + other@,
    {
        let mut lines = self.lines;
        let mut more = other.lines;
        lines.append(&mut more);
        let r = Page { lines };
        assert(r@ =~= self@ + other@);
        r
    }

    /// The page with an entry in a numbered list below it.
    pub fn entry(self, n: usize, text: &str) -> (r: Page)
        ensures
            r@ == self@.push(entry(n as nat, text@)),
    {
        let mut s = "  ".to_owned();
        s.append(write_number(n).as_str());
        s.append(". ");
        s.append(text);
        self.line(Tone::Plain, s.as_str())
    }

    /// The page with a numbered list below it.
    pub fn list(self, items: &[String]) -> (r: Page)
        ensures
            r@ == self@ + numbered(texts(items@)),
    {
        let ghost all = texts(items@);
        let ghost start = self@;
        let mut page = self;
        let mut i: usize = 0;
        assert(start + numbered(all).take(0) =~= start);
        while i < items.len()
            invariant
                i <= items@.len(),
                all == texts(items@),
                page@ == start + numbered(all).take(i as int),
            decreases items@.len() - i,
        {
            page = page.entry(i + 1, items[i].as_str());
            assert(page@ =~= start + numbered(all).take(i + 1));
            i += 1;
        }
        assert(numbered(all).take(i as int) =~= numbered(all));
        page
    }
}

/// A page shows its lines, and a line its stretches of text with their tones, one by one.
pub proof fn law_page_lines(page: Page, i: int, k: int)
    ensures
        page@.len() == page.lines@.len(),
        0 <= i < page.lines@.len() ==> page@[i].len() == page.lines@[i].spans@.len(),
        0 <= i < page.lines@.len() && 0 <= k < page.lines@[i].spans@.len() ==> page@[i][k] == (
            page.lines@[i].spans@[k].tone,
            page.lines@[i].spans@[k].text@,
        ),
{
}

/// A numbered list has one line for each item: two spaces, its number counted from one, a dot, a
/// space, and the whole item.
pub proof fn law_numbered(items: Seq<Seq<char>>)
    ensures
        numbered(items).len() == items.len(),
        forall|i: int|
            0 <= i < items.len() ==> #[trigger] numbered(items)[i] == seq![
                (Tone::Plain, "  "@ + decimal((i + 1) as nat) + ". "@ + items[i]),
            ],
{
}

} // verus!
