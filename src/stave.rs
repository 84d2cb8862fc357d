use vstd::prelude::*;

use crate::catalog::StaveDef;
use crate::keyed::Keyed;
use crate::track::Track;

verus! {

/// A physical staff: its line layout, a master track for clefs and
/// barlines, and the keys of the tracks drawn on it.
pub struct Stave {
    pub key: String,
    pub lines: Vec<u8>,
    pub master: Track,
    pub tracks: Vec<String>,
}

impl Keyed for Stave {
    open spec fn key_of(&self) -> Seq<char> {
        self.key@
    }

    fn key_str(&self) -> (r: &String) {
        &self.key
    }
}

impl Stave {
    /// An empty stave laid out by `stave_def`.
    pub fn new(key: String, stave_def: &StaveDef) -> (r: Stave)
        ensures
            r.key == key,
            r.lines@ == stave_def.lines@,
            r.master.wf(),
            r.master.view() == Map::<Seq<char>, crate::entries::Entry>::empty(),
            r.tracks@ == Seq::<String>::empty(),
    {
        Stave { key, lines: copy_lines(&stave_def.lines), master: Track::new(), tracks: Vec::new() }
    }
}

fn copy_lines(lines: &Vec<u8>) -> (r: Vec<u8>)
    ensures
        r@ == lines@,
{
    let mut out: Vec<u8> = Vec::new();
    let mut i: usize = 0;
    while i < lines.len()
        invariant
            i <= lines@.len(),
            out@ == lines@.take(i as int),
        decreases lines.len() - i,
    {
        out.push(lines[i]);
        i = i + 1;
        assert(out@ =~= lines@.take(i as int));
    }
    assert(lines@.take(lines@.len() as int) =~= lines@);
    out
}

} // verus!
