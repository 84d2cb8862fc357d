use vstd::prelude::*;

use crate::duration::Duration;
use crate::pitch::{Accidental, Pitch};
use crate::tempo::AbsoluteTempo;
use crate::time_signature::TimeSignature;
use crate::velocity::Velocity;

verus! {

#[derive(Clone, Copy, Debug, PartialEq, Eq, Structural)]
pub enum BarlineType {
    Double,
    EndRepeat,
    EndStartRepeat,
    Final,
    Normal,
    StartRepeat,
}

#[derive(Clone, Debug)]
pub struct Barline {
    pub key: String,
    pub tick: u32,
    pub barline_type: BarlineType,
}

impl Barline {
    pub fn new(key: String, tick: u32, barline_type: BarlineType) -> (r: Entry)
        ensures
            r == Entry::Barline(Barline { key, tick, barline_type }),
    {
        Entry::Barline(Self { key, tick, barline_type })
    }
}

#[derive(Clone, Copy, Debug, PartialEq, Eq, Structural)]
pub enum ClefDrawType {
    Hidden,
    G,
    F,
    C,
    Percussion,
}

#[derive(Clone, Debug)]
pub struct Clef {
    pub key: String,
    pub tick: u32,
    pub draw_as: ClefDrawType,
    /// The pitch of the stave line that the clef sits on.
    pub pitch: Pitch,
    /// Visual offset from the top stave line.
    pub offset: i8,
}

impl Clef {
    pub fn new(key: String, tick: u32, pitch: u8, offset: i8, draw_as: ClefDrawType) -> (r: Entry)
        ensures
            r == Entry::Clef(
                Clef {
                    key,
                    tick,
                    draw_as,
                    pitch: Pitch { midi: pitch, accidental: Accidental::Natural },
                    offset,
                },
            ),
    {
        Entry::Clef(Self { key, tick, draw_as, pitch: Pitch::new(pitch, Accidental::Natural), offset })
    }
}

#[derive(Clone, Copy, Debug, PartialEq, Eq, Structural)]
pub enum Articulation {
    Unmarked,
    Staccato,
    Staccatissimo,
    Tenuto,
    StaccatoTenuto,
}

/// An audible tone. Tones are played, never drawn directly.
#[derive(Clone, Debug)]
pub struct Tone {
    pub key: String,
    pub tick: u32,
    pub duration: Duration,
    pub pitch: Pitch,
    pub velocity: Velocity,
    pub articulation: Articulation,
}

impl Tone {
    pub fn new(
        key: String,
        tick: u32,
        duration: Duration,
        pitch: Pitch,
        velocity: Velocity,
        articulation: Articulation,
    ) -> (r: Entry)
        ensures
            r == Entry::Tone(Tone { key, tick, duration, pitch, velocity, articulation }),
    {
        Entry::Tone(Self { key, tick, duration, pitch, velocity, articulation })
    }
}

/// One timed fact of a track.
#[derive(Clone, Debug)]
pub enum Entry {
    Barline(Barline),
    Clef(Clef),
    TimeSignature(TimeSignature),
    Tone(Tone),
    AbsoluteTempo(AbsoluteTempo),
}

impl Entry {
    pub open spec fn key_view(&self) -> Seq<char> {
        match self {
            Entry::Barline(e) => e.key@,
            Entry::Clef(e) => e.key@,
            Entry::TimeSignature(e) => e.key@,
            Entry::Tone(e) => e.key@,
            Entry::AbsoluteTempo(e) => e.key@,
        }
    }

    pub open spec fn tick_view(&self) -> u32 {
        match self {
            Entry::Barline(e) => e.tick,
            Entry::Clef(e) => e.tick,
            Entry::TimeSignature(e) => e.tick,
            Entry::Tone(e) => e.tick,
            Entry::AbsoluteTempo(e) => e.tick,
        }
    }

    /// The same entry placed at another tick.
    pub open spec fn with_tick(self, tick: u32) -> Entry {
        match self {
            Entry::Barline(e) => Entry::Barline(Barline { tick, ..e }),
            Entry::Clef(e) => Entry::Clef(Clef { tick, ..e }),
            Entry::TimeSignature(e) => Entry::TimeSignature(TimeSignature { tick, ..e }),
            Entry::Tone(e) => Entry::Tone(Tone { tick, ..e }),
            Entry::AbsoluteTempo(e) => Entry::AbsoluteTempo(AbsoluteTempo { tick, ..e }),
        }
    }

    /// Placing an entry at another tick keeps its key.
    pub proof fn lemma_with_tick(self, tick: u32)
        ensures
            self.with_tick(tick).key_view() == self.key_view(),
            self.with_tick(tick).tick_view() == tick,
            self.with_tick(self.tick_view()) == self,
    {
    }

    /// The entry's key, whatever its variant.
    pub fn key(&self) -> (r: String)
        ensures
            r@ == self.key_view(),
    {
        match self {
            Entry::Barline(e) => e.key.clone(),
            Entry::Clef(e) => e.key.clone(),
            Entry::TimeSignature(e) => e.key.clone(),
            Entry::Tone(e) => e.key.clone(),
            Entry::AbsoluteTempo(e) => e.key.clone(),
        }
    }

    /// The entry's key, borrowed.
    pub fn key_ref(&self) -> (r: &String)
        ensures
            r@ == self.key_view(),
    {
        match self {
            Entry::Barline(e) => &e.key,
            Entry::Clef(e) => &e.key,
            Entry::TimeSignature(e) => &e.key,
            Entry::Tone(e) => &e.key,
            Entry::AbsoluteTempo(e) => &e.key,
        }
    }

    /// The entry's tick, whatever its variant.
    pub fn tick(&self) -> (r: u32)
        ensures
            r == self.tick_view(),
    {
        match self {
            Entry::Barline(e) => e.tick,
            Entry::Clef(e) => e.tick,
            Entry::TimeSignature(e) => e.tick,
            Entry::Tone(e) => e.tick,
            Entry::AbsoluteTempo(e) => e.tick,
        }
    }

    /// Place the entry at another tick. A track keeps its index in step
    /// through `Track::move`.
    pub fn set_tick(&mut self, tick: u32)
        ensures
            *final(self) == old(self).with_tick(tick),
    {
        match self {
            Entry::Barline(e) => e.tick = tick,
            Entry::Clef(e) => e.tick = tick,
            Entry::TimeSignature(e) => e.tick = tick,
            Entry::Tone(e) => e.tick = tick,
            Entry::AbsoluteTempo(e) => e.tick = tick,
        }
    }
}

} // verus!
