use vstd::prelude::*;

verus! {

#[derive(Clone, Copy, Debug, PartialEq, Eq, Structural)]
pub enum Accidental {
    DoubleSharp,
    Sharp,
    Natural,
    Flat,
    DoubleFlat,
}

/// The pitch classes (semitones above C) that are spelled without a sharp
/// when the user gives no accidental.
pub open spec fn spelled_natural(class: nat) -> bool {
    class == 0 || class == 2 || class == 4 || class == 5 || class == 7 || class == 9 || class == 10
}

/// The accidental used for MIDI pitch `midi` when none is given.
pub open spec fn default_accidental(midi: u8) -> Accidental {
    if spelled_natural(midi as nat % 12) {
        Accidental::Natural
    } else {
        Accidental::Sharp
    }
}

impl Accidental {
    /// The accidental used for a MIDI pitch when none is given: natural on the
    /// classes of `spelled_natural`, sharp elsewhere.
    pub fn default(midi: u8) -> (r: Accidental)
        ensures
            r == default_accidental(midi),
    {
        let step = midi % 12;
        if step == 0 || step == 2 || step == 4 || step == 5 || step == 7 || step == 9 || step == 10 {
            Accidental::Natural
        } else {
            Accidental::Sharp
        }
    }
}

/// The token that stands for an accidental in a score's text.
pub open spec fn token_of(a: Accidental) -> Seq<char> {
    match a {
        Accidental::DoubleSharp => "${double-sharp}"@,
        Accidental::Sharp => "${sharp}"@,
        Accidental::Natural => "${natural}"@,
        Accidental::Flat => "${flat}"@,
        Accidental::DoubleFlat => "${double-flat}"@,
    }
}

impl Accidental {
    /// The token that stands for this accidental in a score's text.
    pub fn to_token(&self) -> (r: &'static str)
        ensures
            r@ == token_of(*self),
    {
        match self {
            Accidental::DoubleSharp => "${double-sharp}",
            Accidental::Sharp => "${sharp}",
            Accidental::Natural => "${natural}",
            Accidental::Flat => "${flat}",
            Accidental::DoubleFlat => "${double-flat}",
        }
    }
}

/// Semitones that an accidental raises a note by (negative: lowers).
pub open spec fn alteration(a: Accidental) -> int {
    match a {
        Accidental::DoubleSharp => 2,
        Accidental::Sharp => 1,
        Accidental::Natural => 0,
        Accidental::Flat => -1,
        Accidental::DoubleFlat => -2,
    }
}

/// The letter of the natural note `natural` semitones above C-1, for
/// the naturals of an octave; empty for the other classes.
pub open spec fn letter_of(natural: int) -> Seq<char> {
    if natural >= 12 {
        let step = (natural - 12) % 12;
        if step == 0 {
            "C"@
        } else if step == 2 {
            "D"@
        } else if step == 4 {
            "E"@
        } else if step == 5 {
            "F"@
        } else if step == 7 {
            "G"@
        } else if step == 9 {
            "A"@
        } else if step == 11 {
            "B"@
        } else {
            ""@
        }
    } else if natural == 0 {
        "C"@
    } else {
        ""@
    }
}

/// A sounding pitch: a MIDI number and the way it is spelled.
#[derive(Clone, Copy, Debug, PartialEq, Eq, Structural)]
pub struct Pitch {
    pub midi: u8,
    pub accidental: Accidental,
}

impl Pitch {
    /// The MIDI number of the natural note this pitch is spelled from.
    pub open spec fn natural_of(&self) -> int {
        self.midi - alteration(self.accidental)
    }

    /// The natural note this pitch is spelled from: 61 spelled C sharp is
    /// 60, spelled D flat it is 62.
    fn natural(&self) -> (r: i16)
        ensures
            r == self.natural_of(),
    {
        let midi = self.midi as i16;
        match self.accidental {
            Accidental::DoubleSharp => midi - 2,
            Accidental::Sharp => midi - 1,
            Accidental::Natural => midi,
            Accidental::Flat => midi + 1,
            Accidental::DoubleFlat => midi + 2,
        }
    }

    /// The letter of the note this pitch is spelled from.
    pub fn letter(&self) -> (r: &'static str)
        ensures
            r@ == letter_of(self.natural_of()),
    {
        let natural = self.natural();
        if natural >= 12 {
            let step = (natural - 12) % 12;
            if step == 0 {
                "C"
            } else if step == 2 {
                "D"
            } else if step == 4 {
                "E"
            } else if step == 5 {
                "F"
            } else if step == 7 {
                "G"
            } else if step == 9 {
                "A"
            } else if step == 11 {
                "B"
            } else {
                ""
            }
        } else if natural == 0 {
            "C"
        } else {
            ""
        }
    }

    /// The octave of the note this pitch is spelled from, C4 being middle
    /// C; 0 below the first octave.
    pub fn octave(&self) -> (r: u8)
        ensures
            r == (if self.natural_of() >= 12 {
                (self.natural_of() - 12) / 12
            } else {
                0
            }),
    {
        let natural = self.natural();
        if natural >= 12 {
            ((natural - 12) / 12) as u8
        } else {
            0
        }
    }

    pub fn new(midi: u8, accidental: Accidental) -> (r: Self)
        ensures
            r.midi == midi,
            r.accidental == accidental,
    {
        Self { midi, accidental }
    }
}

} // verus!
