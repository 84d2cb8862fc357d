use vstd::prelude::*;

use crate::entries::ClefDrawType;

verus! {

#[derive(Clone, Copy, Debug, PartialEq, Eq, Structural)]
pub enum InstrumentType {
    Melodic,
    Percussive,
}

/// How one stave of an instrument is laid out, and its default clef.
#[derive(Clone, Debug)]
pub struct StaveDef {
    pub lines: Vec<u8>,
    pub clef_draw_as: ClefDrawType,
    pub clef_pitch: u8,
    pub clef_offset: i8,
}

impl StaveDef {
    pub fn new(lines: Vec<u8>, clef_pitch: u8, clef_offset: i8, clef_draw_as: ClefDrawType) -> (r: Self)
        ensures
            r == (StaveDef { lines, clef_draw_as, clef_pitch, clef_offset }),
    {
        Self { lines, clef_pitch, clef_offset, clef_draw_as }
    }
}

/// One entry of the instrument catalog.
#[derive(Clone, Debug)]
pub struct InstrumentDef {
    pub id: String,
    pub instrument_type: InstrumentType,
    pub path: Vec<String>,
    pub long_name: String,
    pub short_name: String,
    pub staves: Vec<StaveDef>,
}

/// `i` is the first position of `defs` holding a definition of id `id`.
pub open spec fn first_def(defs: Seq<InstrumentDef>, id: Seq<char>, i: int) -> bool {
    0 <= i < defs.len() && defs[i].id@ == id && forall|j: int| 0 <= j < i ==> #[trigger] defs[j].id@ != id
}

/// The definition of id `id` in `defs`: the first one, if any.
pub open spec fn def_of(defs: Seq<InstrumentDef>, id: Seq<char>) -> Option<InstrumentDef> {
    if exists|i: int| first_def(defs, id, i) {
        Some(defs[choose|i: int| first_def(defs, id, i)])
    } else {
        None
    }
}

/// The definition of id `id` in the catalog `defs`, if it has one.
pub fn get_def<'a>(defs: &'a Vec<InstrumentDef>, id: &str) -> (r: Option<&'a InstrumentDef>)
    ensures
        match r {
            Some(def) => def_of(defs@, id@) == Some(*def),
            None => def_of(defs@, id@) is None,
        },
{
    let wanted = id.to_owned();
    let mut i: usize = 0;
    while i < defs.len()
        invariant
            i <= defs@.len(),
            wanted@ == id@,
            forall|j: int| 0 <= j < i ==> #[trigger] defs@[j].id@ != id@,
        decreases defs.len() - i,
    {
        if defs[i].id == wanted {
            proof {
                assert(first_def(defs@, id@, i as int));
                let c = choose|c: int| first_def(defs@, id@, c);
                if c < i {
                    assert(defs@[c].id@ != id@);
                } else if c > i {
                    assert(defs@[i as int].id@ != id@);
                }
            }
            return Some(&defs[i]);
        }
        i = i + 1;
    }
    proof {
        if exists|c: int| first_def(defs@, id@, c) {
            let c = choose|c: int| first_def(defs@, id@, c);
            assert(defs@[c].id@ != id@);
        }
    }
    None
}

} // verus!
