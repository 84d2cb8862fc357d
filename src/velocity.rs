use vstd::prelude::*;

verus! {

/// How hard a tone is struck, as a MIDI velocity.
#[derive(Clone, Copy, Debug, PartialEq, Eq, Structural)]
pub struct Velocity {
    pub value: u8,
}

impl Velocity {
    pub fn new(value: u8) -> (r: Self)
        ensures
            r.value == value,
    {
        Self { value }
    }
}

} // verus!
