//! Styles of the pieces of printed values, and the terminal colors that show
//! them.

use vstd::prelude::*;

verus! {

/// What a piece of printed text is.
#[derive(Clone, Copy, Debug, PartialEq, Eq, Structural)]
pub enum Style {
    Whitespace,
    CollectionDelimiter,
    SymbolDecoration,
    SymbolNamespace,
    SymbolName,
    KeywordDecoration,
    KeywordNamespace,
    KeywordName,
    StringDecoration,
    StringValue,
    NumberValue,
    BooleanValue,
    NilValue,
    SymbolicValueDecoration,
    SymbolicValue,
    TaggedLiteralDecoration,
    TaggedLiteralNamespace,
    TaggedLiteralName,
    VarQuoteDecoration,
    VarQuoteNamespace,
    VarQuoteName,
}

/// A color of the sixteen-color terminal palette.
#[derive(Clone, Copy, Debug, PartialEq, Eq, Structural)]
pub enum Color {
    Black,
    Red,
    Green,
    Yellow,
    Blue,
    Magenta,
    Cyan,
    White,
    BrightBlack,
    BrightRed,
    BrightGreen,
    BrightYellow,
    BrightBlue,
    BrightMagenta,
    BrightCyan,
    BrightWhite,
}

impl Color {
    /// The color's place in the palette.
    pub open spec fn index(self) -> u8 {
        match self {
            Color::Black => 0,
            Color::Red => 1,
            Color::Green => 2,
            Color::Yellow => 3,
            Color::Blue => 4,
            Color::Magenta => 5,
            Color::Cyan => 6,
            Color::White => 7,
            Color::BrightBlack => 8,
            Color::BrightRed => 9,
            Color::BrightGreen => 10,
            Color::BrightYellow => 11,
            Color::BrightBlue => 12,
            Color::BrightMagenta => 13,
            Color::BrightCyan => 14,
            Color::BrightWhite => 15,
        }
    }

    pub fn code(self) -> (r: u8)
        ensures
            r == self.index(),
            r < 16,
    {
        match self {
            Color::Black => 0,
            Color::Red => 1,
            Color::Green => 2,
            Color::Yellow => 3,
            Color::Blue => 4,
            Color::Magenta => 5,
            Color::Cyan => 6,
            Color::White => 7,
            Color::BrightBlack => 8,
            Color::BrightRed => 9,
            Color::BrightGreen => 10,
            Color::BrightYellow => 11,
            Color::BrightBlue => 12,
            Color::BrightMagenta => 13,
            Color::BrightCyan => 14,
            Color::BrightWhite => 15,
        }
    }
}

impl Style {
    /// The color that shows the style: decorations and namespaces are dim,
    /// names and values plain, keywords blue, strings green and `nil` red.
    pub open spec fn color(self) -> Color {
        match self {
            Style::Whitespace => Color::BrightBlack,
            Style::CollectionDelimiter => Color::White,
            Style::SymbolDecoration => Color::BrightBlack,
            Style::SymbolNamespace => Color::BrightBlack,
            Style::SymbolName => Color::White,
            Style::KeywordDecoration => Color::BrightBlack,
            Style::KeywordNamespace => Color::BrightBlack,
            Style::KeywordName => Color::BrightBlue,
            Style::StringDecoration => Color::BrightBlack,
            Style::StringValue => Color::BrightGreen,
            Style::NumberValue => Color::White,
            Style::BooleanValue => Color::White,
            Style::NilValue => Color::Red,
            Style::SymbolicValueDecoration => Color::BrightBlack,
            Style::SymbolicValue => Color::White,
            Style::TaggedLiteralDecoration => Color::BrightBlack,
            Style::TaggedLiteralNamespace => Color::BrightBlack,
            Style::TaggedLiteralName => Color::White,
            Style::VarQuoteDecoration => Color::BrightBlack,
            Style::VarQuoteNamespace => Color::BrightBlack,
            Style::VarQuoteName => Color::White,
        }
    }

    pub fn to_ansi_color(self) -> (c: Color)
        ensures
            c == self.color(),
    {
        match self {
            Style::Whitespace => Color::BrightBlack,
            Style::CollectionDelimiter => Color::White,
            Style::SymbolDecoration => Color::BrightBlack,
            Style::SymbolNamespace => Color::BrightBlack,
            Style::SymbolName => Color::White,
            Style::KeywordDecoration => Color::BrightBlack,
            Style::KeywordNamespace => Color::BrightBlack,
            Style::KeywordName => Color::BrightBlue,
            Style::StringDecoration => Color::BrightBlack,
            Style::StringValue => Color::BrightGreen,
            Style::NumberValue => Color::White,
            Style::BooleanValue => Color::White,
            Style::NilValue => Color::Red,
            Style::SymbolicValueDecoration => Color::BrightBlack,
            Style::SymbolicValue => Color::White,
            Style::TaggedLiteralDecoration => Color::BrightBlack,
            Style::TaggedLiteralNamespace => Color::BrightBlack,
            Style::TaggedLiteralName => Color::White,
            Style::VarQuoteDecoration => Color::BrightBlack,
            Style::VarQuoteNamespace => Color::BrightBlack,
            Style::VarQuoteName => Color::White,
        }
    }
}

/// The escape sequence that sets the foreground to the palette color
/// `index`: `ESC [ 3n m` for the eight plain colors, `ESC [ 9n m` for the
/// bright ones.
pub open spec fn fg_escape(index: u8) -> Seq<char> {
    let tens = if index < 8 {
        '3'
    } else {
        '9'
    };
    let digit = (('0' as u8) + (index % 8)) as char;
    seq!['\u{1B}', '[', tens, digit, 'm']
}

/// The escape sequence that resets all styling: `ESC [ 0 m`.
pub open spec fn reset_escape() -> Seq<char> {
    seq!['\u{1B}', '[', '0', 'm']
}

/// `anstyle::Ansi256Color::into_ansi` and `AnsiColor::render_fg`: the escape
/// sequence of a palette color.  The contract restates the sequences that
/// anstyle's source writes for the sixteen colors.
#[verifier::external_body]
pub(crate) fn render_fg(index: u8) -> (r: String)
    requires
        index < 16,
    ensures
        r@ == fg_escape(index),
{
    match anstyle::Ansi256Color(index).into_ansi() {
        Some(color) => format!("{}", color.render_fg()),
        None => String::new(),
    }
}

/// `anstyle::Reset::render`: the escape sequence that resets the styling, as
/// anstyle's source writes it.
#[verifier::external_body]
pub(crate) fn render_reset() -> (r: String)
    ensures
        r@ == reset_escape(),
{
    format!("{}", anstyle::Reset.render())
}

} // verus!
