use vstd::prelude::*;

verus! {

#[derive(Clone, Copy, Debug, PartialEq, Eq, Structural)]
pub enum TextJustify {
    Start,
    Middle,
    End,
}

#[derive(Clone, Copy, Debug, PartialEq, Eq, Structural)]
pub enum TextAlign {
    Top,
    Middle,
    Bottom,
}

/// How a run of text is drawn.
pub struct TextStyles {
    pub color: String,
    pub font: String,
    pub size: u32,
    pub justify: TextJustify,
    pub align: TextAlign,
}

/// One drawing command for the host.
pub enum Instruction {
    Text { key: String, identifier: String, styles: TextStyles, value: String, x: u32, y: u32 },
}

/// A page of drawing commands.
pub struct Instructions {
    pub space: u32,
    pub height: u32,
    pub width: u32,
    pub entries: Vec<Instruction>,
}

} // verus!
