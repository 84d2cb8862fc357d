use vstd::prelude::*;

verus! {

/// A written note value.
#[derive(Clone, Copy, Debug, PartialEq, Eq, Structural)]
pub enum NoteDuration {
    Whole,
    Half,
    Quarter,
    Eighth,
    Sixteenth,
    ThirtySecond,
}

/// The denominator of a note value: how many of it make up a whole note.
pub open spec fn note_denominator(d: NoteDuration) -> nat {
    match d {
        NoteDuration::Whole => 1,
        NoteDuration::Half => 2,
        NoteDuration::Quarter => 4,
        NoteDuration::Eighth => 8,
        NoteDuration::Sixteenth => 16,
        NoteDuration::ThirtySecond => 32,
    }
}

/// Ticks taken by a note of denominator `denominator` when a quarter note
/// takes `subdivisions` ticks: `floor(subdivisions / (denominator / 4))`.
/// A zero denominator names no note value and takes no ticks.
pub open spec fn ticks_of(subdivisions: nat, denominator: nat) -> nat {
    if denominator == 0 {
        0
    } else {
        (4 * subdivisions) / denominator
    }
}

impl NoteDuration {
    pub fn to_int(&self) -> (r: u8)
        ensures
            r as nat == note_denominator(*self),
    {
        match self {
            NoteDuration::Whole => 1,
            NoteDuration::Half => 2,
            NoteDuration::Quarter => 4,
            NoteDuration::Eighth => 8,
            NoteDuration::Sixteenth => 16,
            NoteDuration::ThirtySecond => 32,
        }
    }

    /// Ticks taken by this note value at the given resolution.
    pub fn to_ticks(&self, subdivisions: u8) -> (r: u32)
        ensures
            r as nat == ticks_of(subdivisions as nat, note_denominator(*self)),
            r <= 1020,
    {
        let beat_type = self.to_int();
        (4 * subdivisions as u32) / beat_type as u32
    }
}

/// The music-font glyph of a note value.
pub open spec fn glyph_of(d: NoteDuration) -> Seq<char> {
    match d {
        NoteDuration::Whole => "\u{1D15D}"@,
        NoteDuration::Half => "\u{1D15E}"@,
        NoteDuration::Quarter => "\u{1D15F}"@,
        NoteDuration::Eighth => "\u{1D160}"@,
        NoteDuration::Sixteenth => "\u{1D161}"@,
        NoteDuration::ThirtySecond => "\u{1D162}"@,
    }
}

impl NoteDuration {
    /// The music-font glyph of this note value.
    pub fn to_glyph(&self) -> (r: &'static str)
        ensures
            r@ == glyph_of(*self),
    {
        match self {
            NoteDuration::Whole => "\u{1D15D}",
            NoteDuration::Half => "\u{1D15E}",
            NoteDuration::Quarter => "\u{1D15F}",
            NoteDuration::Eighth => "\u{1D160}",
            NoteDuration::Sixteenth => "\u{1D161}",
            NoteDuration::ThirtySecond => "\u{1D162}",
        }
    }
}

/// A length in ticks.
#[derive(Clone, Copy, Debug, PartialEq, Eq, Structural)]
pub struct Duration {
    pub ticks: u32,
}

impl Duration {
    pub fn new(ticks: u32) -> (r: Self)
        ensures
            r.ticks == ticks,
    {
        Self { ticks }
    }
}

} // verus!
