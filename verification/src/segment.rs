//! The unit of display: one labelled, coloured segment of the bar.

use vstd::prelude::*;

verus! {

/// Where the host bar places a segment's text inside its reserved width.
#[derive(Clone, Copy, Debug, PartialEq, Eq, Structural)]
pub enum Align {
    Left,
    Right,
    Center,
}

/// The six colours a segment can have.
pub struct Color;

impl Color {
    pub const RED: &'static str = "#ea6962";

    pub const GREEN: &'static str = "#a9b665";

    pub const YELLOW: &'static str = "#d8a657";

    pub const BLUE: &'static str = "#7daea3";

    pub const MAGENTA: &'static str = "#d3869b";

    pub const CYAN: &'static str = "#89b482";

    /// Whether `color` is one of the six palette values.
    pub open spec fn in_palette(color: Seq<char>) -> bool {
        ||| color == Color::RED@
        ||| color == Color::GREEN@
        ||| color == Color::YELLOW@
        ||| color == Color::BLUE@
        ||| color == Color::MAGENTA@
        ||| color == Color::CYAN@
    }
}

/// One segment of the bar, with its text fully formatted.
#[derive(Clone, Debug, PartialEq, Eq)]
pub struct StatusLine {
    pub full_text: String,
    pub color: String,
    pub min_width: Option<u16>,
    pub align: Option<Align>,
}

/// What a segment holds, as mathematical values.
pub struct StatusLineView {
    pub full_text: Seq<char>,
    pub color: Seq<char>,
    pub min_width: Option<u16>,
    pub align: Option<Align>,
}

impl View for StatusLine {
    type V = StatusLineView;

    open spec fn view(&self) -> StatusLineView {
        StatusLineView {
            full_text: self.full_text@,
            color: self.color@,
            min_width: self.min_width,
            align: self.align,
        }
    }
}

impl Default for StatusLine {
    /// The segment with no text, no colour and no layout hints.
    fn default() -> (line: StatusLine)
        ensures
            line@ == (StatusLineView {
                full_text: Seq::<char>::empty(),
                color: Seq::<char>::empty(),
                min_width: None,
                align: None,
            }),
    {
        StatusLine { full_text: String::new(), color: String::new(), min_width: None, align: None }
    }
}

impl StatusLine {
    /// A segment with the given text and colour and no layout hints.
    pub fn plain(full_text: String, color: &str) -> (line: StatusLine)
        ensures
            line@ == (StatusLineView {
                full_text: full_text@,
                color: color@,
                min_width: None,
                align: None,
            }),
    {
        StatusLine { full_text, color: String::from_str(color), min_width: None, align: None }
    }
}

} // verus!
