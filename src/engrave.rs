use vstd::prelude::*;

verus! {

/// Which brackets group the staves of a system.
#[derive(Clone, Copy, Debug, PartialEq, Eq, Structural)]
pub enum Bracketing {
    Unbracketed,
    Orchestral,
    SmallEnsemble,
}

#[derive(Clone, Copy, Debug, PartialEq, Eq, Structural)]
pub enum BracketStyle {
    Plain,
    Wing,
    Line,
}

/// What an engraving layout is for.
#[derive(Clone, Copy, Debug, PartialEq, Eq, Structural)]
pub enum LayoutType {
    Score,
    Part,
    Custom,
}

} // verus!
