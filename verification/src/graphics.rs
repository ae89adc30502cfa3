//! Color and drawing-state value types shared by every graphics backend.

use vstd::prelude::*;

verus! {

/// A 4-channel color value. Pure data; compared for exact equality, which is
/// what the compression pass uses to detect run boundaries.
#[derive(Clone, Copy, PartialEq, Eq, Structural, Debug)]
pub struct Color {
    pub red: u8,
    pub green: u8,
    pub blue: u8,
    pub alpha: u8,
}

impl Color {
    /// Transparent black, the initial color of every pixel and of a fresh style.
    pub open spec fn transparent_black() -> Color {
        Color { red: 0, green: 0, blue: 0, alpha: 0 }
    }

    /// Builds the transparent-black color value.
    pub fn black() -> (c: Color)
        ensures
            c == Color::transparent_black(),
    {
        Color { red: 0, green: 0, blue: 0, alpha: 0 }
    }
}

/// Mutable drawing state: holds the one current color. The host replaces a
/// backend's style wholesale through `set_style`; the style itself is never
/// mutated in place.
pub struct Style {
    current_color: Color,
}

impl Style {
    /// The color this style selects for every drawing call.
    pub closed spec fn color(self) -> Color {
        self.current_color
    }

    /// A fresh style selecting transparent black.
    pub fn new() -> (s: Self)
        ensures
            s.color() == Color::transparent_black(),
    {
        Self { current_color: Color { red: 0, green: 0, blue: 0, alpha: 0 } }
    }

    /// A style selecting the given color.
    pub fn with_color(color: Color) -> (s: Self)
        ensures
            s.color() == color,
    {
        Self { current_color: color }
    }

    /// Reads the current color back out.
    pub fn current_color(&self) -> (c: Color)
        ensures
            c == self.color(),
    {
        self.current_color
    }
}

/// A grid access outside `[0, width) x [0, height)`, reported with the
/// offending coordinate.
#[derive(Clone, Copy, PartialEq, Eq, Structural, Debug)]
pub struct BoundsError {
    pub x: u16,
    pub y: u16,
}

/// A failure writing to or flushing the output device; raised by the host
/// while streaming commands, never by the buffer itself.
pub struct OutputError {
    pub message: String,
}

/// One command for the text output device: absolute cursor repositioning,
/// foreground color selection, raw text emission, or an explicit flush.
#[derive(Debug)]
pub enum OutputCommand {
    Reposition { col: u16, row: u16 },
    SetForeground { color: Color },
    Emit { text: String },
    Flush,
}

/// The mathematical value of an output command, with emitted text as a
/// character sequence.
pub enum OutputOp {
    Reposition { col: u16, row: u16 },
    SetForeground { color: Color },
    Emit { text: Seq<char> },
    Flush,
}

impl View for OutputCommand {
    type V = OutputOp;

    open spec fn view(&self) -> OutputOp {
        match self {
            OutputCommand::Reposition { col, row } => OutputOp::Reposition { col: *col, row: *row },
            OutputCommand::SetForeground { color } => OutputOp::SetForeground { color: *color },
            OutputCommand::Emit { text } => OutputOp::Emit { text: text@ },
            OutputCommand::Flush => OutputOp::Flush,
        }
    }
}

} // verus!
