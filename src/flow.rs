use vstd::prelude::*;

use crate::duration::{ticks_of, NoteDuration};
use crate::catalog::{def_of, get_def, InstrumentDef, StaveDef};
use crate::entries::{Clef, Entry};
use crate::score::Instrument;
use crate::keyed::{
    find, keyed, keys_unique, lemma_keyed_index, lemma_keyed_push, lemma_keyed_remove, lemma_keyed_update, Keyed,
};
use crate::keys::shortid;
use crate::stave::Stave;
use crate::time_signature::{default_groupings, multiple_of, TimeSignature, TimeSignatureDrawType};
use crate::tempo::{normalized, AbsoluteTempo, MAX_DOTS};
use crate::track::{key_views, lemma_key_views_push, shift_meters, without_meter_at, without_tempo_at, Track};

verus! {

broadcast use vstd::seq_lib::group_seq_properties;

/// Width of a quarter note on the tick strip, in pixels.
pub const CROTCHET_WIDTH: u32 = 72;

/// Barlines from tick 0 up to and including `tick` under the time
/// signatures of `master`, at `subdivisions` ticks a quarter.
pub open spec fn bar_count(master: Track, subdivisions: u8, tick: int) -> nat
    decreases tick,
{
    if tick < 0 {
        0
    } else {
        let ts = master.time_signature_to(tick)->Some_0;
        (if ts.bar_offset(tick as u32, subdivisions) == 0 {
            1nat
        } else {
            0nat
        }) + if tick == 0 {
            0
        } else {
            bar_count(master, subdivisions, tick - 1)
        }
    }
}

/// A tick strip depends on a flow's master track, length and resolution
/// alone.
pub proof fn lemma_projects_frame(a: Flow, b: Flow, tl: TickList)
    requires
        a.projects(tl),
        a.master == b.master,
        a.length == b.length,
        a.subdivisions == b.subdivisions,
    ensures
        b.projects(tl),
{
    assert forall|i: int| 0 <= i <= b.length implies #[trigger] tl.list@[i] == b.tick_at(i) by {
        assert(tl.list@[i] == a.tick_at(i));
    }
}

/// How many staves an instrument gets in a flow: one for each of its stave
/// keys that its catalog definition describes.
pub open spec fn staves_laid_out(catalog: Seq<InstrumentDef>, instrument: Instrument) -> nat {
    match def_of(catalog, instrument.id@) {
        Some(def) => if instrument.staves@.len() <= def.staves@.len() {
            instrument.staves@.len()
        } else {
            def.staves@.len()
        },
        None => 0,
    }
}

/// `master` holds one entry: a hidden open meter of quarter beats at tick
/// 0, with no groupings.
pub open spec fn opens_hidden(master: Track) -> bool {
    &&& master.view().len() == 1
    &&& exists|k: Seq<char>|
        master.view().contains_key(k) && (#[trigger] master.view()[k] matches Entry::TimeSignature(ts) && ts.beats == 0
            && ts.tick == 0 && ts.beat_type == 4 && ts.draw_type == TimeSignatureDrawType::Hidden
            && ts.groupings@.len() == 0)
}

/// Every stave of `f` has one track drawn on it, and the flow holds that
/// track.
pub open spec fn staves_tracked(f: Flow) -> bool {
    forall|k: Seq<char>|
        #[trigger] f.stave_map().contains_key(k) ==> f.stave_map()[k].tracks@.len() == 1 && f.track_map().contains_key(
            f.stave_map()[k].tracks@[0]@,
        )
}

/// The master track of `st` holds one entry: the default clef of `def`,
/// at tick 0.
pub open spec fn seeded_with_clef(st: Stave, def: StaveDef) -> bool {
    &&& st.master.view().len() == 1
    &&& exists|k: Seq<char>|
        #[trigger] st.master.view().contains_key(k) && (st.master.view()[k] matches Entry::Clef(c) && c.tick == 0
            && c.pitch.midi == def.clef_pitch && c.offset == def.clef_offset && c.draw_as == def.clef_draw_as)
}

/// `after` is `before` with the staves of `instrument` laid out as the
/// catalog describes them; all else stays.
pub open spec fn laid_out(before: Flow, after: Flow, instrument: Instrument, catalog: Seq<InstrumentDef>) -> bool {
    let n = staves_laid_out(catalog, instrument) as int;
    let ks = key_views(instrument.staves@).take(n);
    &&& forall|k: Seq<char>| #[trigger]
        after.stave_map().contains_key(k) <==> before.stave_map().contains_key(k) || ks.contains(k)
    &&& forall|k: Seq<char>|
        #[trigger] before.stave_map().contains_key(k) && !ks.contains(k) ==> after.stave_map()[k] == before.stave_map()[k]
    &&& forall|j: int|
        #![trigger instrument.staves@[j]]
        0 <= j < n ==> {
            let st = after.stave_map()[instrument.staves@[j]@];
            &&& st.lines@ == def_of(catalog, instrument.id@)->Some_0.staves@[j].lines@
            &&& seeded_with_clef(st, def_of(catalog, instrument.id@)->Some_0.staves@[j])
            &&& st.tracks@.len() == 1
            &&& after.track_map().contains_key(st.tracks@[0]@)
        }
    &&& forall|t: Seq<char>| #[trigger] before.track_map().contains_key(t) ==> after.track_map().contains_key(t)
    &&& after.key == before.key
    &&& after.players == before.players
    &&& after.length == before.length
    &&& after.subdivisions == before.subdivisions
    &&& after.master == before.master
}

/// `after` is `before` with the staves of keys `ks` taken out, and every
/// track drawn on them; all else stays.
pub open spec fn torn_down(before: Flow, after: Flow, ks: Seq<Seq<char>>) -> bool {
    &&& forall|k: Seq<char>| #[trigger]
        after.stave_map().contains_key(k) <==> before.stave_map().contains_key(k) && !ks.contains(k)
    &&& forall|k: Seq<char>| #[trigger]
        after.stave_map().contains_key(k) ==> after.stave_map()[k] == before.stave_map()[k]
    &&& forall|t: Seq<char>| #[trigger]
        after.track_map().contains_key(t) <==> before.track_map().contains_key(t) && !before.tracks_of_staves(ks, t)
    &&& forall|t: Seq<char>| #[trigger]
        after.track_map().contains_key(t) ==> after.track_map()[t] == before.track_map()[t]
    &&& after.key == before.key
    &&& after.length == before.length
    &&& after.subdivisions == before.subdivisions
    &&& after.master == before.master
}

/// After a teardown, no stave of the torn-down keys and no track drawn on
/// one of them remains in the flow.
pub proof fn lemma_teardown_closure(before: Flow, after: Flow, ks: Seq<Seq<char>>)
    requires
        torn_down(before, after, ks),
    ensures
        forall|k: Seq<char>| #[trigger] ks.contains(k) ==> !after.stave_map().contains_key(k),
        forall|t: Seq<char>| #[trigger] before.tracks_of_staves(ks, t) ==> !after.track_map().contains_key(t),
{
}

/// Rendering and timing facts of one tick. Widths and positions are counted
/// in `1 / TickList::unit` pixels; `sixteenth` is the tick's offset within
/// its beat, in `1 / TickList::sixteenth_unit` sixteenth notes.
#[derive(Clone, Copy, Debug, PartialEq, Eq, Structural)]
pub struct Tick {
    pub tick: u32,
    pub bar: u32,
    pub beat: u32,
    pub sixteenth: u32,
    pub x: u64,
    pub width: u32,
    pub is_beat: bool,
    pub is_first_beat: bool,
    pub is_quaver_beat: bool,
    pub is_grouping_boundry: bool,
}

/// The ticks of a flow, in order, with the strip's total width.
pub struct TickList {
    pub list: Vec<Tick>,
    pub width: u64,
    /// Fractions of a pixel that widths and positions count.
    pub unit: u32,
    /// Ticks in a sixteenth note.
    pub sixteenth_unit: u32,
}

impl TickList {
    pub fn new(unit: u32, sixteenth_unit: u32) -> (r: Self)
        ensures
            r.list@ == Seq::<Tick>::empty(),
            r.width == 0,
            r.unit == unit,
            r.sixteenth_unit == sixteenth_unit,
    {
        Self { list: Vec::new(), width: 0, unit, sixteenth_unit }
    }

    /// Append `tick`, whose width adds to the strip's.
    pub fn push(&mut self, tick: Tick)
        requires
            old(self).width + tick.width <= u64::MAX,
        ensures
            final(self).list@ == old(self).list@.push(tick),
            final(self).width == old(self).width + tick.width,
            final(self).unit == old(self).unit,
            final(self).sixteenth_unit == old(self).sixteenth_unit,
    {
        self.width = self.width + tick.width as u64;
        self.list.push(tick);
    }
}

/// An independent timeline of the score.
pub struct Flow {
    pub key: String,
    pub title: String,
    /// Keys of the players taking part, each once.
    pub players: Vec<String>,
    /// Ticks in the flow.
    pub length: u32,
    /// Ticks in a quarter note.
    pub subdivisions: u8,
    pub master: Track,
    pub staves: Vec<Stave>,
    pub tracks: Vec<Track>,
}

impl Keyed for Flow {
    open spec fn key_of(&self) -> Seq<char> {
        self.key@
    }

    fn key_str(&self) -> (r: &String) {
        &self.key
    }
}

impl Flow {
    /// `tl` is this flow's tick strip, as `calc_ticks` lays it out.
    pub open spec fn projects(&self, tl: TickList) -> bool {
        &&& tl.list@.len() == self.length + 1
        &&& forall|i: int| 0 <= i <= self.length ==> #[trigger] tl.list@[i] == self.tick_at(i)
        &&& tl.unit == self.subdivisions
        &&& tl.sixteenth_unit == ticks_of(self.subdivisions as nat, 16)
        &&& tl.width == CROTCHET_WIDTH * self.length + self.subdivisions
    }

    /// The time signature in force at `tick`: the last one at or before it.
    pub open spec fn meter_at(&self, tick: int) -> TimeSignature {
        self.master.time_signature_to(tick)->Some_0
    }

    /// Ticks from the barline before `tick` to `tick`.
    pub open spec fn barline_distance(&self, tick: int) -> nat {
        self.meter_at(tick).bar_offset(tick as u32, self.subdivisions)
    }

    /// Number of the bar that holds `tick`, counting from 1.
    pub open spec fn bar_number(&self, tick: int) -> nat {
        bar_count(self.master, self.subdivisions, tick)
    }

    /// What the tick strip holds for `tick`.
    pub open spec fn tick_at(&self, tick: int) -> Tick {
        let ts = self.meter_at(tick);
        let quarter = self.subdivisions as nat;
        let d = self.barline_distance(tick);
        let offset = (tick - ts.tick) as nat;
        Tick {
            tick: tick as u32,
            bar: self.bar_number(tick) as u32,
            beat: (d / quarter + 1) as u32,
            sixteenth: (d % quarter) as u32,
            x: (CROTCHET_WIDTH * tick) as u64,
            width: if tick < self.length {
                CROTCHET_WIDTH
            } else {
                quarter as u32
            },
            is_beat: multiple_of(offset, ts.beat_ticks(self.subdivisions)),
            is_first_beat: d == 0,
            is_quaver_beat: multiple_of(offset, ticks_of(self.subdivisions as nat, 8)),
            is_grouping_boundry: ts.grouping_boundary(tick as u32, self.subdivisions),
        }
    }

    /// The tick strip can be laid out: a meter stands at tick 0, a quarter
    /// has ticks, and the ticks and their count fit a `u32`.
    pub open spec fn timeline_wf(&self) -> bool {
        &&& self.master.wf()
        &&& self.master.has_time_signature_at(0)
        &&& self.master.singletons_per_tick()
        &&& self.subdivisions > 0
        &&& self.length < u32::MAX
    }

    /// The timeline can be laid out; players, staves and tracks are each
    /// listed once under their keys; and every track index is consistent.
    pub open spec fn wf(&self) -> bool {
        &&& self.timeline_wf()
        &&& key_views(self.players@).no_duplicates()
        &&& keys_unique(self.staves@)
        &&& forall|i: int| 0 <= i < self.staves@.len() ==> (#[trigger] self.staves@[i]).master.wf()
        &&& keys_unique(self.tracks@)
        &&& forall|i: int| 0 <= i < self.tracks@.len() ==> (#[trigger] self.tracks@[i]).wf()
    }

    /// The next boundary after `tick`: the tick of the next time signature,
    /// or the end of the flow.
    pub open spec fn next_boundary(&self, tick: u32) -> nat {
        match self.master.time_signature_from(tick + 1, self.length as int) {
            Some(ts) => ts.tick as nat,
            None => self.length as nat,
        }
    }

    /// Ticks to add so that a meter of `bar` ticks a bar starting at `tick`
    /// fills whole bars up to the next boundary; 0 when it already does or
    /// when the meter has no bar length.
    pub open spec fn alignment_shift(&self, tick: u32, bar: nat) -> nat {
        if bar == 0 {
            0
        } else {
            let overflow = ((self.next_boundary(tick) - tick) as nat) % bar;
            if overflow > 0 {
                (bar - overflow) as nat
            } else {
                0
            }
        }
    }

    /// A flow of one quarter note at sixteen ticks a quarter, with a hidden
    /// open meter at tick 0.
    pub fn new() -> (r: Flow)
        ensures
            r.wf(),
            r.length == 16,
            r.subdivisions == 16,
            r.title@ == Seq::<char>::empty(),
            r.players@ == Seq::<String>::empty(),
            r.staves@ == Seq::<Stave>::empty(),
            r.tracks@ == Seq::<Track>::empty(),
            opens_hidden(r.master),
    {
        let mut master = Track::new();
        let entry = TimeSignature::new(shortid(), 0, 0, 4, TimeSignatureDrawType::Hidden, None);
        let ghost k = entry.key_view();
        master.insert(entry);
        proof {
            assert(master.view() =~= Map::<Seq<char>, Entry>::empty().insert(k, entry));
            assert(master.view().contains_key(k));
            assert(master.view().dom() =~= set![k]);
        }
        let r = Flow {
            key: shortid(),
            title: String::new(),
            players: Vec::new(),
            length: 16,
            subdivisions: 16,
            master,
            staves: Vec::new(),
            tracks: Vec::new(),
        };
        assert(key_views(r.players@) =~= Seq::<Seq<char>>::empty());
        r
    }

    /// The tick strip of the flow: one tick for each of `0 ..= length`, the
    /// last a one-pixel sentinel that marks the end.
    pub fn calc_ticks(&self) -> (r: TickList)
        requires
            self.timeline_wf(),
        ensures
            self.projects(r),
    {
        proof {
            self.master.lemma_time_signature_at_some(0);
        }
        let quarter = NoteDuration::Quarter.to_ticks(self.subdivisions);
        assert((4 * self.subdivisions as nat) / 4 == self.subdivisions as nat);
        let sixteenth = NoteDuration::Sixteenth.to_ticks(self.subdivisions);
        let mut ticks = TickList::new(quarter, sixteenth);
        let mut bar: u32 = 0;
        let mut current: Option<&TimeSignature> = None;
        let mut tick: u32 = 0;
        while tick <= self.length
            invariant
                self.timeline_wf(),
                tick <= self.length + 1,
                quarter == self.subdivisions,
                ticks.unit == quarter,
                ticks.sixteenth_unit == ticks_of(self.subdivisions as nat, 16),
                ticks.list@.len() == tick,
                forall|i: int| 0 <= i < tick ==> #[trigger] ticks.list@[i] == self.tick_at(i),
                ticks.width == if tick <= self.length {
                    CROTCHET_WIDTH * tick
                } else {
                    CROTCHET_WIDTH * self.length + self.subdivisions
                },
                tick > 0 ==> (current matches Some(c) && *c == self.meter_at(tick - 1)),
                tick > 0 ==> bar == self.bar_number(tick - 1),
                bar <= tick,
            decreases self.length + 1 - tick,
        {
            match self.master.get_time_signature_at_tick(tick) {
                Some(ts) => {
                    current = Some(ts);
                },
                None => {},
            }
            proof {
                self.master.lemma_time_signature_at_some(0);
                self.master.lemma_time_signature_to(tick as int);
            }
            let ts = match current {
                Some(ts) => ts,
                None => return ticks,
            };
            assert(*ts == self.meter_at(tick as int));
            let distance = ts.distance_from_barline(tick, self.subdivisions);
            let width: u32 = if tick < self.length {
                CROTCHET_WIDTH
            } else {
                quarter
            };
            if distance == 0 {
                bar = bar + 1;
            }
            let entry = Tick {
                tick,
                bar,
                beat: distance / quarter + 1,
                sixteenth: distance % quarter,
                x: ticks.width,
                width,
                is_beat: ts.is_on_beat(tick, self.subdivisions),
                is_first_beat: distance == 0,
                is_quaver_beat: ts.is_on_beat_type(tick, self.subdivisions, 8),
                is_grouping_boundry: ts.is_on_grouping_boundry(tick, self.subdivisions),
            };
            assert(entry == self.tick_at(tick as int));
            ticks.push(entry);
            tick = tick + 1;
        }
        ticks
    }


    /// Ticks to add so that bars of `bar` ticks from `tick` fill the span up
    /// to the next boundary.
    fn alignment(&self, tick: u32, bar: u32) -> (r: u32)
        requires
            self.wf(),
            tick <= self.length,
        ensures
            r == self.alignment_shift(tick, bar as nat),
            r < bar || bar == 0,
    {
        if bar == 0 {
            return 0;
        }
        let next = match self.master.get_time_signature_after_tick(tick, self.length) {
            Some(ts) => ts.tick,
            None => self.length,
        };
        proof {
            self.master.lemma_time_signature_from(tick + 1, self.length as int);
        }
        assert(next == self.next_boundary(tick));
        let overflow = (next - tick) % bar;
        if overflow > 0 {
            bar - overflow
        } else {
            0
        }
    }

    /// A time signature of key `key` can be placed at `tick`: the tick lies
    /// within the flow, the key is unused, and after bar alignment the flow's
    /// length and every later time signature's tick still fit.
    pub open spec fn time_signature_fits(&self, key: Seq<char>, tick: u32, beats: u8, beat_type: u8) -> bool {
        let shift = self.alignment_shift(tick, ticks_of(self.subdivisions as nat, beat_type as nat) * beats as nat);
        &&& tick <= self.length
        &&& !self.master.view().contains_key(key)
        &&& self.length + shift < u32::MAX
        &&& forall|k: Seq<char>|
            #[trigger] self.master.view().contains_key(k) && self.master.view()[k] is TimeSignature
                && self.master.view()[k].tick_view() > tick ==> self.master.view()[k].tick_view() + shift <= u32::MAX
    }

    /// Whether `insert_time_signature` would take this time signature.
    pub fn accepts_time_signature(&self, key: &str, tick: u32, beats: u8, beat_type: u8) -> (r: bool)
        requires
            self.wf(),
        ensures
            r == self.time_signature_fits(key@, tick, beats, beat_type),
    {
        if tick > self.length || self.master.contains_key(key) {
            return false;
        }
        let per_beat: u32 = if beat_type == 0 {
            0
        } else {
            (4 * self.subdivisions as u32) / beat_type as u32
        };
        assert(per_beat <= 1020);
        assert(per_beat * beats <= 1020 * 255) by (nonlinear_arith)
            requires
                per_beat <= 1020,
                beats <= 255,
        ;
        let bar = per_beat * beats as u32;
        assert(bar == ticks_of(self.subdivisions as nat, beat_type as nat) * beats as nat);
        let shift = self.alignment(tick, bar);
        if self.length as u64 + shift as u64 >= u32::MAX as u64 {
            return false;
        }
        self.master.meters_fit_after(tick, shift)
    }

    /// Place a time signature at `tick` under the fresh key `key`, replacing
    /// the one there. A meter with a bar length then fills whole bars up to
    /// the next boundary: when the span from `tick` to the next time
    /// signature (or the end) leaves a part bar, the flow grows by what that
    /// bar lacks, and every later time signature moves by as much. Refused,
    /// with nothing changed, when `tick` lies past the end, when `key` is in
    /// use, or when a tick would no longer fit.
    pub fn insert_time_signature(
        &mut self,
        key: String,
        tick: u32,
        beats: u8,
        beat_type: u8,
        draw_type: TimeSignatureDrawType,
        groupings: Option<Vec<u8>>,
    ) -> (r: bool)
        requires
            old(self).wf(),
        ensures
            final(self).wf(),
            ({
                let shift = old(self).alignment_shift(tick, ticks_of(old(self).subdivisions as nat, beat_type as nat) * beats as nat);
                &&& r == old(self).time_signature_fits(key@, tick, beats, beat_type)
                &&& r ==> final(self).length == old(self).length + shift
                &&& r ==> final(self).master.view() == shift_meters(
                    without_meter_at(old(self).master.view(), tick),
                    tick,
                    shift,
                ).insert(key@, final(self).master.view()[key@])
            }),
            !r ==> *final(self) == *old(self),
            r ==> (final(self).master.view()[key@] matches Entry::TimeSignature(ts) && ts.key == key && ts.tick
                == tick && ts.beats == beats && ts.beat_type == beat_type && ts.draw_type == draw_type
                && ts.groupings@ == match groupings {
                Some(g) => g@,
                None => default_groupings(beats as nat),
            }),
            r ==> final(self).master.time_signature_at(tick) == Some(
                final(self).master.view()[key@]->TimeSignature_0,
            ),
            final(self).key == old(self).key,
            final(self).title == old(self).title,
            final(self).players == old(self).players,
            final(self).subdivisions == old(self).subdivisions,
            final(self).staves == old(self).staves,
            final(self).tracks == old(self).tracks,
    {
        let ghost v = self.master.view();
        if !self.accepts_time_signature(key.as_str(), tick, beats, beat_type) {
            return false;
        }
        let ghost kv = key@;
        let entry = TimeSignature::new(key, tick, beats, beat_type, draw_type, groupings);
        let bar = match &entry {
            Entry::TimeSignature(ts) => ts.ticks_per_bar(self.subdivisions),
            _ => 0,
        };
        let shift = self.alignment(tick, bar);
        self.master.remove_time_signature_at(tick);
        let ghost v1 = self.master.view();
        proof {
            assert forall|k: Seq<char>|
                #[trigger] v1.contains_key(k) && v1[k] is TimeSignature && v1[k].tick_view() > tick implies v1[k].tick_view()
                    + shift <= u32::MAX by {
                assert(v.contains_key(k));
            }
        }
        self.length = self.length + shift;
        self.master.shift_time_signatures_after(tick, shift);
        let ghost v2 = self.master.view();
        let ghost e = entry;
        self.master.insert(entry);
        proof {
            let vf = self.master.view();
            assert(vf == v2.insert(kv, e));
            // a time signature still stands at tick 0
            let k0 = choose|k: Seq<char>|
                #[trigger] v.contains_key(k) && v[k] is TimeSignature && v[k].tick_view() == 0;
            if tick != 0 {
                assert(v1.contains_key(k0));
                assert(vf.contains_key(k0) && vf[k0] == v[k0]);
                assert(vf.contains_key(k0) && vf[k0] is TimeSignature && vf[k0].tick_view() == 0);
            } else {
                assert(vf.contains_key(kv) && vf[kv] is TimeSignature && vf[kv].tick_view() == 0);
            }
            assert(self.master.has_time_signature_at(0));
            // one time signature and one tempo marking a tick
            assert forall|a: Seq<char>, b: Seq<char>|
                #[trigger] vf.contains_key(a) && #[trigger] vf.contains_key(b) && vf[a] is TimeSignature
                    && vf[b] is TimeSignature && vf[a].tick_view() == vf[b].tick_view() implies a == b by {
                if a != kv {
                    v[a].lemma_with_tick((v[a].tick_view() + shift) as u32);
                    assert(v1.contains_key(a));
                }
                if b != kv {
                    v[b].lemma_with_tick((v[b].tick_view() + shift) as u32);
                    assert(v1.contains_key(b));
                }
            }
            assert forall|a: Seq<char>, b: Seq<char>|
                #[trigger] vf.contains_key(a) && #[trigger] vf.contains_key(b) && vf[a] is AbsoluteTempo
                    && vf[b] is AbsoluteTempo && vf[a].tick_view() == vf[b].tick_view() implies a == b by {
                assert(a != kv && b != kv);
                assert(v1.contains_key(a) && v1.contains_key(b));
                assert(vf[a] == v[a] && vf[b] == v[b]);
            }
            assert(self.master.singletons_per_tick());
            self.master.lemma_time_signature_at_is(kv);
        }
        true
    }

    /// Place a tempo marking at `tick` under the fresh key `key`, replacing
    /// the one there; its rate is normalized at the flow's resolution.
    /// Refused, with nothing changed, when `key` is in use.
    pub fn insert_tempo(
        &mut self,
        key: String,
        tick: u32,
        text: String,
        beat_type: NoteDuration,
        dotted: u8,
        bpm: u32,
        parenthesis_visible: bool,
        text_visible: bool,
        bpm_visible: bool,
    ) -> (r: bool)
        requires
            old(self).wf(),
            dotted <= MAX_DOTS,
        ensures
            final(self).wf(),
            r == !old(self).master.view().contains_key(key@),
            !r ==> *final(self) == *old(self),
            r ==> final(self).master.view() == without_tempo_at(old(self).master.view(), tick).insert(
                key@,
                Entry::AbsoluteTempo(
                    AbsoluteTempo {
                        key,
                        tick,
                        normalized_bpm: normalized(old(self).subdivisions, beat_type, dotted, bpm),
                        text,
                        beat_type,
                        dotted,
                        bpm,
                        parenthesis_visible,
                        text_visible,
                        bpm_visible,
                    },
                ),
            ),
            final(self).key == old(self).key,
            final(self).title == old(self).title,
            final(self).players == old(self).players,
            final(self).length == old(self).length,
            final(self).subdivisions == old(self).subdivisions,
            final(self).staves == old(self).staves,
            final(self).tracks == old(self).tracks,
    {
        let ghost v = self.master.view();
        if self.master.contains_key(key.as_str()) {
            return false;
        }
        let ghost kv = key@;
        let entry = AbsoluteTempo::new(
            self.subdivisions,
            key,
            tick,
            text,
            beat_type,
            dotted,
            bpm,
            parenthesis_visible,
            text_visible,
            bpm_visible,
        );
        self.master.remove_tempo_at(tick);
        let ghost v1 = self.master.view();
        let ghost e = entry;
        self.master.insert(entry);
        proof {
            let vf = self.master.view();
            assert(vf == v1.insert(kv, e));
            let k0 = choose|k: Seq<char>|
                #[trigger] v.contains_key(k) && v[k] is TimeSignature && v[k].tick_view() == 0;
            assert(v1.contains_key(k0) && vf.contains_key(k0) && vf[k0] == v[k0]);
            assert(self.master.has_time_signature_at(0));
            assert forall|a: Seq<char>, b: Seq<char>|
                #[trigger] vf.contains_key(a) && #[trigger] vf.contains_key(b) && vf[a] is TimeSignature
                    && vf[b] is TimeSignature && vf[a].tick_view() == vf[b].tick_view() implies a == b by {
                assert(a != kv && b != kv);
                assert(v1.contains_key(a) && v1.contains_key(b));
            }
            assert forall|a: Seq<char>, b: Seq<char>|
                #[trigger] vf.contains_key(a) && #[trigger] vf.contains_key(b) && vf[a] is AbsoluteTempo
                    && vf[b] is AbsoluteTempo && vf[a].tick_view() == vf[b].tick_view() implies a == b by {
                if a != kv {
                    assert(v1.contains_key(a));
                }
                if b != kv {
                    assert(v1.contains_key(b));
                }
            }
        }
        true
    }

    /// The tracks by key.
    pub open spec fn track_map(&self) -> Map<Seq<char>, Track> {
        keyed(self.tracks@)
    }

    /// The staves by key.
    pub open spec fn stave_map(&self) -> Map<Seq<char>, Stave> {
        keyed(self.staves@)
    }

    /// The entry of key `entry_key` in track `track_key`, if both exist.
    pub fn track_entry(&self, track_key: &str, entry_key: &str) -> (r: Option<&Entry>)
        requires
            self.wf(),
        ensures
            match r {
                Some(e) => self.track_map().contains_key(track_key@) && self.track_map()[track_key@].view().contains_key(
                    entry_key@,
                ) && self.track_map()[track_key@].view()[entry_key@] == *e,
                None => !self.track_map().contains_key(track_key@) || !self.track_map()[track_key@].view().contains_key(
                    entry_key@,
                ),
            },
    {
        let j = match find(&self.tracks, track_key) {
            Some(j) => j,
            None => return None,
        };
        proof {
            lemma_keyed_index(self.tracks@, j as int);
        }
        self.tracks[j].get_entry(entry_key)
    }

    /// Record `e` in track `track_key`, replacing an entry of the same key;
    /// `false`, with nothing changed, when the flow has no such track.
    pub fn insert_in_track(&mut self, track_key: &str, e: Entry) -> (r: bool)
        requires
            old(self).wf(),
        ensures
            final(self).wf(),
            r == old(self).track_map().contains_key(track_key@),
            !r ==> *final(self) == *old(self),
            r ==> final(self).track_map() == old(self).track_map().insert(
                track_key@,
                final(self).track_map()[track_key@],
            ),
            r ==> final(self).track_map()[track_key@].view() == old(self).track_map()[track_key@].view().insert(
                e.key_view(),
                e,
            ),
            final(self).key == old(self).key,
            final(self).players == old(self).players,
            final(self).length == old(self).length,
            final(self).subdivisions == old(self).subdivisions,
            final(self).master == old(self).master,
            final(self).staves == old(self).staves,
    {
        let j = match find(&self.tracks, track_key) {
            Some(j) => j,
            None => return false,
        };
        let ghost before = self.tracks@;
        proof {
            lemma_keyed_index(before, j as int);
        }
        let track = &mut self.tracks[j];
        track.insert(e);
        proof {
            lemma_keyed_update(before, j as int, self.tracks@[j as int]);
            lemma_keyed_index(self.tracks@, j as int);
            assert forall|m: int| 0 <= m < self.tracks@.len() implies (#[trigger] self.tracks@[m]).wf() by {
                if m != j {
                    assert(self.tracks@[m] == before[m]);
                }
            }
        }
        true
    }

    /// Take the entry `entry_key` out of track `track_key` and hand it back;
    /// `None`, with nothing changed, when either is missing.
    pub fn remove_from_track(&mut self, track_key: &str, entry_key: &str) -> (r: Option<Entry>)
        requires
            old(self).wf(),
        ensures
            final(self).wf(),
            !old(self).track_map().contains_key(track_key@) ==> r is None && *final(self) == *old(self),
            old(self).track_map().contains_key(track_key@) ==> {
                &&& final(self).track_map() == old(self).track_map().insert(
                    track_key@,
                    final(self).track_map()[track_key@],
                )
                &&& final(self).track_map()[track_key@].view() == old(self).track_map()[track_key@].view().remove(
                    entry_key@,
                )
                &&& r == if old(self).track_map()[track_key@].view().contains_key(entry_key@) {
                    Some(old(self).track_map()[track_key@].view()[entry_key@])
                } else {
                    None
                }
            },
            final(self).key == old(self).key,
            final(self).players == old(self).players,
            final(self).length == old(self).length,
            final(self).subdivisions == old(self).subdivisions,
            final(self).master == old(self).master,
            final(self).staves == old(self).staves,
    {
        let j = match find(&self.tracks, track_key) {
            Some(j) => j,
            None => return None,
        };
        let ghost before = self.tracks@;
        proof {
            lemma_keyed_index(before, j as int);
        }
        let track = &mut self.tracks[j];
        let r = track.remove(entry_key);
        proof {
            lemma_keyed_update(before, j as int, self.tracks@[j as int]);
            lemma_keyed_index(self.tracks@, j as int);
            assert forall|m: int| 0 <= m < self.tracks@.len() implies (#[trigger] self.tracks@[m]).wf() by {
                if m != j {
                    assert(self.tracks@[m] == before[m]);
                }
            }
        }
        r
    }

    /// Player `k` takes part in the flow.
    pub open spec fn has_player(&self, k: Seq<char>) -> bool {
        key_views(self.players@).contains(k)
    }

    /// The tracks drawn on the staves of keys `ks`.
    pub open spec fn tracks_of_staves(&self, ks: Seq<Seq<char>>, t: Seq<char>) -> bool {
        exists|k: Seq<char>|
            #[trigger] ks.contains(k) && self.stave_map().contains_key(k) && key_views(
                self.stave_map()[k].tracks@,
            ).contains(t)
    }

    pub fn contains_player(&self, key: &str) -> (r: bool)
        ensures
            r == self.has_player(key@),
    {
        let wanted = key.to_owned();
        let mut i: usize = 0;
        while i < self.players.len()
            invariant
                i <= self.players@.len(),
                wanted@ == key@,
                forall|j: int| 0 <= j < i ==> #[trigger] self.players@[j]@ != key@,
            decreases self.players.len() - i,
        {
            if self.players[i] == wanted {
                assert(key_views(self.players@)[i as int] == key@);
                return true;
            }
            i = i + 1;
        }
        proof {
            if self.has_player(key@) {
                let j = choose|j: int| 0 <= j < key_views(self.players@).len() && key_views(self.players@)[j] == key@;
                assert(self.players@[j]@ == key@);
            }
        }
        false
    }

    /// Let player `key` take part; nothing changes when it already does.
    pub fn add_player(&mut self, key: String)
        requires
            old(self).wf(),
        ensures
            final(self).wf(),
            forall|k: Seq<char>| #[trigger] final(self).has_player(k) <==> old(self).has_player(k) || k == key@,
            final(self).key == old(self).key,
            final(self).length == old(self).length,
            final(self).subdivisions == old(self).subdivisions,
            final(self).master == old(self).master,
            final(self).staves == old(self).staves,
            final(self).tracks == old(self).tracks,
    {
        if !self.contains_player(key.as_str()) {
            let ghost before = self.players@;
            let ghost kk = key;
            self.players.push(key);
            proof {
                lemma_key_views_push(before, kk);
            }
        }
    }

    /// Stop player `key` from taking part.
    pub fn remove_player(&mut self, key: &str)
        requires
            old(self).wf(),
        ensures
            final(self).wf(),
            forall|k: Seq<char>| #[trigger] final(self).has_player(k) <==> old(self).has_player(k) && k != key@,
            final(self).key == old(self).key,
            final(self).length == old(self).length,
            final(self).subdivisions == old(self).subdivisions,
            final(self).master == old(self).master,
            final(self).staves == old(self).staves,
            final(self).tracks == old(self).tracks,
    {
        let wanted = key.to_owned();
        let ghost ks = key_views(self.players@);
        let mut kept: Vec<String> = Vec::new();
        let mut i: usize = 0;
        while i < self.players.len()
            invariant
                i <= self.players@.len(),
                ks == key_views(self.players@),
                ks.no_duplicates(),
                wanted@ == key@,
                key_views(kept@).no_duplicates(),
                forall|x: Seq<char>| #[trigger]
                    key_views(kept@).contains(x) <==> ks.take(i as int).contains(x) && x != key@,
            decreases self.players.len() - i,
        {
            let ghost kept_seq = kept@;
            if self.players[i] != wanted {
                let k = self.players[i].clone();
                kept.push(k);
                proof {
                    lemma_key_views_push(kept_seq, k);
                    assert(!key_views(kept_seq).contains(ks[i as int])) by {
                        if key_views(kept_seq).contains(ks[i as int]) {
                            let j = choose|j: int| 0 <= j < i && ks[j] == ks[i as int];
                        }
                    }
                }
            }
            assert(ks.take(i + 1) =~= ks.take(i as int).push(ks[i as int]));
            i = i + 1;
        }
        assert(ks.take(ks.len() as int) =~= ks);
        self.players = kept;
    }

    /// Put `track` in the flow, in place of one of the same key.
    fn put_track(&mut self, track: Track)
        requires
            old(self).wf(),
            track.wf(),
        ensures
            final(self).wf(),
            final(self).track_map() == old(self).track_map().insert(track.key@, track),
            final(self).key == old(self).key,
            final(self).players == old(self).players,
            final(self).length == old(self).length,
            final(self).subdivisions == old(self).subdivisions,
            final(self).master == old(self).master,
            final(self).staves == old(self).staves,
    {
        let ghost before = self.tracks@;
        match find(&self.tracks, track.key.as_str()) {
            Some(j) => {
                proof {
                    lemma_keyed_update(before, j as int, track);
                }
                self.tracks.set(j, track);
            },
            None => {
                proof {
                    lemma_keyed_push(before, track);
                }
                self.tracks.push(track);
            },
        }
    }

    /// Put `stave` in the flow, in place of one of the same key.
    fn put_stave(&mut self, stave: Stave)
        requires
            old(self).wf(),
            stave.master.wf(),
        ensures
            final(self).wf(),
            final(self).stave_map() == old(self).stave_map().insert(stave.key@, stave),
            final(self).key == old(self).key,
            final(self).players == old(self).players,
            final(self).length == old(self).length,
            final(self).subdivisions == old(self).subdivisions,
            final(self).master == old(self).master,
            final(self).tracks == old(self).tracks,
    {
        let ghost before = self.staves@;
        match find(&self.staves, stave.key.as_str()) {
            Some(j) => {
                proof {
                    lemma_keyed_update(before, j as int, stave);
                }
                self.staves.set(j, stave);
            },
            None => {
                proof {
                    lemma_keyed_push(before, stave);
                }
                self.staves.push(stave);
            },
        }
    }

    /// Take track `key` out of the flow, if it is there.
    fn drop_track(&mut self, key: &str)
        requires
            old(self).wf(),
        ensures
            final(self).wf(),
            final(self).track_map() == old(self).track_map().remove(key@),
            final(self).key == old(self).key,
            final(self).players == old(self).players,
            final(self).length == old(self).length,
            final(self).subdivisions == old(self).subdivisions,
            final(self).master == old(self).master,
            final(self).staves == old(self).staves,
    {
        let ghost before = self.tracks@;
        match find(&self.tracks, key) {
            Some(j) => {
                proof {
                    lemma_keyed_remove(before, j as int);
                }
                self.tracks.remove(j);
            },
            None => {
                assert(keyed(before).remove(key@) =~= keyed(before));
            },
        }
    }

    /// Take out the staves of keys `keys` and every track drawn on them. A
    /// key that the flow has no stave for is passed over, and the others
    /// are still taken out.
    pub fn remove_staves(&mut self, keys: &Vec<String>)
        requires
            old(self).wf(),
        ensures
            final(self).wf(),
            torn_down(*old(self), *final(self), key_views(keys@)),
            forall|k: Seq<char>| #[trigger]
                final(self).stave_map().contains_key(k) <==> old(self).stave_map().contains_key(k)
                    && !key_views(keys@).contains(k),
            forall|k: Seq<char>| #[trigger]
                final(self).stave_map().contains_key(k) ==> final(self).stave_map()[k] == old(self).stave_map()[k],
            forall|t: Seq<char>| #[trigger]
                final(self).track_map().contains_key(t) <==> old(self).track_map().contains_key(t)
                    && !old(self).tracks_of_staves(key_views(keys@), t),
            forall|t: Seq<char>| #[trigger]
                final(self).track_map().contains_key(t) ==> final(self).track_map()[t] == old(self).track_map()[t],
            final(self).key == old(self).key,
            final(self).players == old(self).players,
            final(self).length == old(self).length,
            final(self).subdivisions == old(self).subdivisions,
            final(self).master == old(self).master,
    {
        let ghost pre = *self;
        let ghost ks = key_views(keys@);
        let mut i: usize = 0;
        while i < keys.len()
            invariant
                i <= keys@.len(),
                ks == key_views(keys@),
                self.wf(),
                forall|k: Seq<char>| #[trigger]
                    self.stave_map().contains_key(k) <==> pre.stave_map().contains_key(k) && !ks.take(i as int).contains(k),
                forall|k: Seq<char>| #[trigger]
                    self.stave_map().contains_key(k) ==> self.stave_map()[k] == pre.stave_map()[k],
                forall|t: Seq<char>| #[trigger]
                    self.track_map().contains_key(t) <==> pre.track_map().contains_key(t)
                        && !pre.tracks_of_staves(ks.take(i as int), t),
                forall|t: Seq<char>| #[trigger]
                    self.track_map().contains_key(t) ==> self.track_map()[t] == pre.track_map()[t],
                self.key == pre.key,
                self.players == pre.players,
                self.length == pre.length,
                self.subdivisions == pre.subdivisions,
                self.master == pre.master,
            decreases keys.len() - i,
        {
            let ghost k = ks[i as int];
            let ghost head = *self;
            assert(ks.take(i + 1) =~= ks.take(i as int).push(k));
            match find(&self.staves, keys[i].as_str()) {
                Some(s) => {
                    let ghost before = self.staves@;
                    proof {
                        lemma_keyed_remove(before, s as int);
                        lemma_keyed_index(before, s as int);
                        assert(self.stave_map().contains_key(k));
                        assert(self.stave_map()[k] == pre.stave_map()[k]);
                        assert(pre.stave_map().contains_key(k));
                    }
                    let stave = self.staves.remove(s);
                    let ghost mid = *self;
                    assert(stave == pre.stave_map()[k]);
                    let ghost tks = key_views(stave.tracks@);
                    let mut j: usize = 0;
                    while j < stave.tracks.len()
                        invariant
                            j <= stave.tracks@.len(),
                            tks == key_views(stave.tracks@),
                            self.wf(),
                            self.staves == mid.staves,
                            forall|t: Seq<char>| #[trigger]
                                self.track_map().contains_key(t) <==> mid.track_map().contains_key(t)
                                    && !tks.take(j as int).contains(t),
                            forall|t: Seq<char>| #[trigger]
                                self.track_map().contains_key(t) ==> self.track_map()[t] == mid.track_map()[t],
                            self.key == pre.key,
                            self.players == pre.players,
                            self.length == pre.length,
                            self.subdivisions == pre.subdivisions,
                            self.master == pre.master,
                        decreases stave.tracks.len() - j,
                    {
                        self.drop_track(stave.tracks[j].as_str());
                        assert(tks.take(j + 1) =~= tks.take(j as int).push(tks[j as int]));
                        j = j + 1;
                    }
                    assert(tks.take(tks.len() as int) =~= tks);
                    proof {
                        assert forall|t: Seq<char>| #[trigger] self.track_map().contains_key(t) implies self.track_map()[t]
                            == pre.track_map()[t] by {
                            assert(mid.track_map() == head.track_map());
                            assert(head.track_map().contains_key(t));
                        }
                        assert forall|t: Seq<char>| #[trigger] self.track_map().contains_key(t) <==> pre.track_map().contains_key(t)
                            && !pre.tracks_of_staves(ks.take(i + 1), t) by {
                            assert(mid.track_map() == head.track_map());
                            assert(head.track_map().contains_key(t) <==> pre.track_map().contains_key(t)
                                && !pre.tracks_of_staves(ks.take(i as int), t));
                            if pre.tracks_of_staves(ks.take(i + 1), t) && !tks.contains(t) {
                                let w = choose|w: Seq<char>|
                                    #[trigger] ks.take(i + 1).contains(w) && pre.stave_map().contains_key(w)
                                        && key_views(pre.stave_map()[w].tracks@).contains(t);
                                assert(w != k);
                                assert(ks.take(i as int).contains(w));
                            }
                            if tks.contains(t) {
                                assert(ks.take(i + 1).contains(k));
                                assert(pre.stave_map().contains_key(k) && key_views(pre.stave_map()[k].tracks@).contains(t));
                                assert(pre.tracks_of_staves(ks.take(i + 1), t));
                            }
                            if pre.tracks_of_staves(ks.take(i as int), t) {
                                let w = choose|w: Seq<char>|
                                    #[trigger] ks.take(i as int).contains(w) && pre.stave_map().contains_key(w)
                                        && key_views(pre.stave_map()[w].tracks@).contains(t);
                                assert(ks.take(i + 1).contains(w));
                            }
                        }
                    }
                },
                None => {
                    proof {
                        assert(!self.stave_map().contains_key(k));
                        assert(!pre.stave_map().contains_key(k) || ks.take(i as int).contains(k));
                        assert forall|t: Seq<char>| #[trigger] self.track_map().contains_key(t) <==> pre.track_map().contains_key(t)
                            && !pre.tracks_of_staves(ks.take(i + 1), t) by {
                            if pre.tracks_of_staves(ks.take(i + 1), t) {
                                let w = choose|w: Seq<char>|
                                    #[trigger] ks.take(i + 1).contains(w) && pre.stave_map().contains_key(w)
                                        && key_views(pre.stave_map()[w].tracks@).contains(t);
                                if w == k {
                                    assert(ks.take(i as int).contains(k));
                                    assert(pre.tracks_of_staves(ks.take(i as int), t));
                                } else {
                                    assert(ks.take(i as int).contains(w));
                                }
                            }
                            if pre.tracks_of_staves(ks.take(i as int), t) {
                                let w = choose|w: Seq<char>|
                                    #[trigger] ks.take(i as int).contains(w) && pre.stave_map().contains_key(w)
                                        && key_views(pre.stave_map()[w].tracks@).contains(t);
                                assert(ks.take(i + 1).contains(w));
                            }
                        }
                    }
                },
            }
            i = i + 1;
        }
        assert(ks.take(ks.len() as int) =~= ks);
    }

    /// Lay out the staves of `instrument` in the flow, as its catalog
    /// definition describes them: for each stave key, a stave with the
    /// definition's lines and clef, and one new empty track drawn on it.
    /// Nothing is added when the catalog lacks the instrument's id, and
    /// only the staves that the definition describes are.
    pub fn add_instrument(&mut self, instrument: &Instrument, catalog: &Vec<InstrumentDef>)
        requires
            old(self).wf(),
            key_views(instrument.staves@).no_duplicates(),
        ensures
            final(self).wf(),
            laid_out(*old(self), *final(self), *instrument, catalog@),
    {
        let ghost pre = *self;
        let def = match get_def(catalog, instrument.id.as_str()) {
            Some(def) => def,
            None => {
                assert(key_views(instrument.staves@).take(0) =~= Seq::<Seq<char>>::empty());
                return;
            },
        };
        let ghost ks = key_views(instrument.staves@);
        let mut i: usize = 0;
        while i < instrument.staves.len() && i < def.staves.len()
            invariant
                i <= instrument.staves@.len(),
                i <= def.staves@.len(),
                def_of(catalog@, instrument.id@) == Some(*def),
                ks == key_views(instrument.staves@),
                ks.no_duplicates(),
                self.wf(),
                forall|k: Seq<char>| #[trigger]
                    self.stave_map().contains_key(k) <==> pre.stave_map().contains_key(k) || ks.take(i as int).contains(k),
                forall|k: Seq<char>|
                    #[trigger] pre.stave_map().contains_key(k) && !ks.take(i as int).contains(k) ==> self.stave_map()[k]
                        == pre.stave_map()[k],
                forall|j: int|
                    #![trigger instrument.staves@[j]]
                    0 <= j < i ==> {
                        let st = self.stave_map()[instrument.staves@[j]@];
                        &&& st.lines@ == def.staves@[j].lines@
                        &&& seeded_with_clef(st, def.staves@[j])
                        &&& st.tracks@.len() == 1
                        &&& self.track_map().contains_key(st.tracks@[0]@)
                    },
                forall|t: Seq<char>| #[trigger] pre.track_map().contains_key(t) ==> self.track_map().contains_key(t),
                self.key == pre.key,
                self.players == pre.players,
                self.length == pre.length,
                self.subdivisions == pre.subdivisions,
                self.master == pre.master,
            decreases instrument.staves.len() - i,
        {
            let ghost head = *self;
            let track = Track::new();
            let track_key = track.key.clone();
            let stave_def = &def.staves[i];
            let mut stave = Stave::new(instrument.staves[i].clone(), stave_def);
            let clef = Clef::new(shortid(), 0, stave_def.clef_pitch, stave_def.clef_offset, stave_def.clef_draw_as);
            let ghost ck = clef.key_view();
            let ghost ce = clef;
            stave.master.insert(clef);
            proof {
                assert(stave.master.view() =~= Map::<Seq<char>, Entry>::empty().insert(ck, ce));
                assert(stave.master.view().dom() =~= set![ck]);
                assert(stave.master.view().contains_key(ck));
            }
            let ghost tk = track_key;
            stave.tracks.push(track_key);
            let ghost st = stave;
            self.put_track(track);
            self.put_stave(stave);
            proof {
                let k = ks[i as int];
                assert(st.key@ == k);
                assert(ks.take(i + 1) =~= ks.take(i as int).push(k));
                assert forall|j: int|
                    #![trigger instrument.staves@[j]]
                    0 <= j < i + 1 implies {
                        let s2 = self.stave_map()[instrument.staves@[j]@];
                        &&& s2.lines@ == def.staves@[j].lines@
                        &&& seeded_with_clef(s2, def.staves@[j])
                        &&& s2.tracks@.len() == 1
                        &&& self.track_map().contains_key(s2.tracks@[0]@)
                    } by {
                    if j < i {
                        assert(instrument.staves@[j]@ == ks[j]);
                        assert(ks[j] != k);
                        let s1 = head.stave_map()[instrument.staves@[j]@];
                        assert(head.track_map().contains_key(s1.tracks@[0]@));
                    } else {
                        assert(st.tracks@[0]@ == tk@);
                    }
                }
                assert forall|k2: Seq<char>|
                    #[trigger] pre.stave_map().contains_key(k2) && !ks.take(i + 1).contains(k2) implies self.stave_map()[k2]
                        == pre.stave_map()[k2] by {
                    assert(!ks.take(i as int).contains(k2));
                }
                assert forall|k2: Seq<char>| #[trigger] self.stave_map().contains_key(k2) <==> pre.stave_map().contains_key(k2)
                    || ks.take(i + 1).contains(k2) by {
                    assert(head.stave_map().contains_key(k2) <==> pre.stave_map().contains_key(k2) || ks.take(i as int).contains(k2));
                }
                assert forall|t: Seq<char>| #[trigger] pre.track_map().contains_key(t) implies self.track_map().contains_key(t) by {
                    assert(head.track_map().contains_key(t));
                }
            }
            i = i + 1;
        }
        proof {
            let n = staves_laid_out(catalog@, *instrument) as int;
            assert(i == n);
        }
    }
}

/// Two well-formed master tracks with the same entries find the same time
/// signature at every tick.
proof fn lemma_same_meters(a: Track, b: Track, t: u32)
    requires
        a.wf(),
        b.wf(),
        a.singletons_per_tick(),
        b.singletons_per_tick(),
        a.view() == b.view(),
    ensures
        a.time_signature_at(t) == b.time_signature_at(t),
{
    a.lemma_time_signature_at_entry(t);
    b.lemma_time_signature_at_entry(t);
    if a.time_signature_at(t) is Some {
        let ts = a.time_signature_at(t)->Some_0;
        b.lemma_time_signature_at_is(ts.key@);
    } else if b.time_signature_at(t) is Some {
        let ts = b.time_signature_at(t)->Some_0;
        a.lemma_time_signature_at_is(ts.key@);
    }
}

proof fn lemma_same_meters_to(a: Track, b: Track, to: int)
    requires
        a.wf(),
        b.wf(),
        a.singletons_per_tick(),
        b.singletons_per_tick(),
        a.view() == b.view(),
    ensures
        a.time_signature_to(to) == b.time_signature_to(to),
    decreases to + 1,
{
    if 0 <= to <= u32::MAX {
        lemma_same_meters(a, b, to as u32);
        lemma_same_meters_to(a, b, to - 1);
    }
}

proof fn lemma_same_bar_count(a: Track, b: Track, subdivisions: u8, tick: int)
    requires
        a.wf(),
        b.wf(),
        a.singletons_per_tick(),
        b.singletons_per_tick(),
        a.view() == b.view(),
    ensures
        bar_count(a, subdivisions, tick) == bar_count(b, subdivisions, tick),
    decreases tick,
{
    if tick >= 0 {
        lemma_same_meters_to(a, b, tick);
        if tick > 0 {
            lemma_same_bar_count(a, b, subdivisions, tick - 1);
        }
    }
}

/// A flow's tick strip is determined by its length, its resolution and
/// the entries of its master track: two flows that agree on these, say a
/// flow and its copy read back from an export, lay out the same strip.
pub proof fn lemma_projection_determined(a: Flow, b: Flow, ta: TickList, tb: TickList)
    requires
        a.timeline_wf(),
        b.timeline_wf(),
        a.length == b.length,
        a.subdivisions == b.subdivisions,
        a.master.view() == b.master.view(),
        a.projects(ta),
        b.projects(tb),
    ensures
        ta.list@ == tb.list@,
        ta.width == tb.width,
        ta.unit == tb.unit,
        ta.sixteenth_unit == tb.sixteenth_unit,
{
    assert forall|i: int| 0 <= i < ta.list@.len() implies ta.list@[i] == tb.list@[i] by {
        lemma_same_meters_to(a.master, b.master, i);
        lemma_same_bar_count(a.master, b.master, a.subdivisions, i);
        assert(ta.list@[i] == a.tick_at(i));
        assert(tb.list@[i] == b.tick_at(i));
    }
    assert(ta.list@ =~= tb.list@);
}

/// Placing a meter of `bar` ticks a bar at `tick` and lengthening by the
/// alignment shift makes the span from `tick` to the next boundary (moved
/// by the same shift) a whole number of bars; a span that already was one
/// is left as it is, and the shift is always less than one bar.
pub proof fn lemma_bar_alignment(flow: Flow, tick: u32, bar: nat)
    requires
        flow.wf(),
        tick <= flow.length,
        bar > 0,
    ensures
        flow.next_boundary(tick) >= tick,
        (flow.next_boundary(tick) + flow.alignment_shift(tick, bar) - tick) % (bar as int) == 0,
        flow.alignment_shift(tick, bar) < bar,
        ((flow.next_boundary(tick) - tick) % (bar as int) == 0) == (flow.alignment_shift(tick, bar) == 0),
{
    flow.master.lemma_time_signature_from(tick + 1, flow.length as int);
    let span = (flow.next_boundary(tick) - tick) as nat;
    let o = span % bar;
    if o > 0 {
        assert((span + (bar - o)) % (bar as int) == 0) by (nonlinear_arith)
            requires
                o == span % bar,
                bar > 0,
                o > 0,
        ;
    }
}

} // verus!
