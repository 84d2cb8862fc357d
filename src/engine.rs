use vstd::prelude::*;

use crate::catalog::InstrumentDef;
use crate::duration::{ticks_of, Duration, NoteDuration};
use crate::entries::{Articulation, Entry, Tone};
use crate::flow::{lemma_projects_frame, Flow, TickList};
use crate::keyed::{find, keyed, lemma_keyed_index, lemma_keyed_update};
use crate::keys::shortid;
use crate::pitch::{default_accidental, Accidental, Pitch};
use crate::score::Score;
use crate::tempo::{normalized, MAX_DOTS};
use crate::time_signature::{default_groupings, TimeSignatureDrawType};
use crate::track::{shift_meters, without_meter_at, without_tempo_at};
use crate::velocity::Velocity;

verus! {

/// The document and what is derived from it: the tick strip of each flow,
/// in the order of the flows.
pub struct State {
    pub score: Score,
    pub ticks: Vec<TickList>,
}

/// Applies the editor's commands to the document, one at a time. Each
/// command that reports a change leaves the document well formed and its
/// tick strips current; the caller then passes the state on.
pub struct Engine {
    pub state: State,
    /// The instrument definitions that instruments are made from.
    pub catalog: Vec<InstrumentDef>,
}

impl Engine {
    /// The document is well formed and each flow's tick strip is current.
    pub open spec fn wf(&self) -> bool {
        &&& self.state.score.wf()
        &&& self.state.ticks@.len() == self.state.score.flows.order@.len()
        &&& forall|i: int|
            0 <= i < self.state.ticks@.len() ==> #[trigger] self.state.score.flows.order@[i].projects(
                self.state.ticks@[i],
            )
    }

    /// The flows by key.
    pub open spec fn flow_map(&self) -> Map<Seq<char>, Flow> {
        keyed(self.state.score.flows.order@)
    }

    /// An engine on a new score of one empty flow.
    pub fn new(catalog: Vec<InstrumentDef>) -> (r: Engine)
        ensures
            r.wf(),
            r.catalog@ == catalog@,
            r.state.score.flows.order@.len() == 1,
            r.state.score.players.order@.len() == 0,
            r.state.score.instruments@.len() == 0,
    {
        let score = Score::new();
        let mut ticks: Vec<TickList> = Vec::new();
        ticks.push(score.flows.order[0].calc_ticks());
        Engine { state: State { score, ticks }, catalog }
    }

    /// Recompute the tick strip of flow `i`.
    pub(crate) fn refresh_ticks(&mut self, i: usize)
        requires
            old(self).state.score.wf(),
            old(self).state.ticks@.len() == old(self).state.score.flows.order@.len(),
            i < old(self).state.ticks@.len(),
            forall|j: int|
                0 <= j < old(self).state.ticks@.len() && j != i ==> #[trigger] old(self).state.score.flows.order@[j].projects(
                    old(self).state.ticks@[j],
                ),
        ensures
            final(self).wf(),
            final(self).state.score == old(self).state.score,
            final(self).catalog == old(self).catalog,
            final(self).state.score.players == old(self).state.score.players,
            final(self).state.score.instruments == old(self).state.score.instruments,
            final(self).state.score.meta == old(self).state.score.meta,
            final(self).state.score.config == old(self).state.score.config,
    {
        let tl = self.state.score.flows.order[i].calc_ticks();
        self.state.ticks.set(i, tl);
    }

    /// Place a time signature in flow `flow_key` at `tick` under a fresh
    /// key, which is handed back (see `Flow::insert_time_signature`), and lay
    /// out the flow's tick strip anew. `None`, with nothing changed, when no
    /// flow has that key or the flow does not take the signature.
    pub fn create_time_signature(
        &mut self,
        flow_key: &str,
        tick: u32,
        beats: u8,
        beat_type: u8,
        draw_type: TimeSignatureDrawType,
        groupings: Option<Vec<u8>>,
    ) -> (r: Option<String>)
        requires
            old(self).wf(),
        ensures
            final(self).wf(),
            !old(self).flow_map().contains_key(flow_key@) ==> r is None,
            r is None ==> final(self).state == old(self).state,
            final(self).catalog == old(self).catalog,
            final(self).state.score.players == old(self).state.score.players,
            final(self).state.score.instruments == old(self).state.score.instruments,
            final(self).state.score.meta == old(self).state.score.meta,
            final(self).state.score.config == old(self).state.score.config,
            r matches Some(k) ==> ({
                let before = old(self).flow_map()[flow_key@];
                let after = final(self).flow_map()[flow_key@];
                let shift = before.alignment_shift(tick, ticks_of(before.subdivisions as nat, beat_type as nat) * beats as nat);
                &&& old(self).flow_map().contains_key(flow_key@)
                &&& before.time_signature_fits(k@, tick, beats, beat_type)
                &&& !before.master.view().contains_key(k@)
                &&& final(self).flow_map() == old(self).flow_map().insert(flow_key@, after)
                &&& final(self).state.score.flows.order@.len() == old(self).state.score.flows.order@.len()
                &&& after.length == before.length + shift
                &&& after.master.view() == shift_meters(without_meter_at(before.master.view(), tick), tick, shift).insert(
                    k@,
                    after.master.view()[k@],
                )
                &&& after.master.view()[k@] matches Entry::TimeSignature(ts) && ts.key@ == k@ && ts.tick == tick
                    && ts.beats == beats && ts.beat_type == beat_type && ts.draw_type == draw_type
                    && ts.groupings@ == match groupings {
                    Some(g) => g@,
                    None => default_groupings(beats as nat),
                }
                &&& after.master.time_signature_at(tick) == Some(after.master.view()[k@]->TimeSignature_0)
                &&& after.key == before.key && after.title == before.title && after.players == before.players
                    && after.subdivisions == before.subdivisions && after.staves == before.staves
                    && after.tracks == before.tracks
            }),
    {
        let i = match find(&self.state.score.flows.order, flow_key) {
            Some(i) => i,
            None => return None,
        };
        let key = shortid();
        if !self.state.score.flows.order[i].accepts_time_signature(key.as_str(), tick, beats, beat_type) {
            return None;
        }
        let ghost before = self.state.score.flows.order@;
        proof {
            lemma_keyed_index(before, i as int);
        }
        let flow = &mut self.state.score.flows.order[i];
        let done = flow.insert_time_signature(key.clone(), tick, beats, beat_type, draw_type, groupings);
        proof {
            assert(done);
            lemma_keyed_update(before, i as int, self.state.score.flows.order@[i as int]);
            lemma_keyed_index(self.state.score.flows.order@, i as int);
            assert(self.state.score.flows.order@ == before.update(i as int, self.state.score.flows.order@[i as int]));
        }
        self.refresh_ticks(i);
        Some(key)
    }

    /// Place a tempo marking in flow `flow_key` at `tick` (see
    /// `Flow::insert_tempo`) and hand back its key; `None`, with nothing
    /// changed, when no flow has that key, when `dotted` exceeds
    /// `MAX_DOTS`, or when the flow refuses it.
    pub fn create_absolute_tempo(
        &mut self,
        flow_key: &str,
        tick: u32,
        text: &str,
        beat_type: NoteDuration,
        dotted: u8,
        bpm: u32,
        parenthesis_visible: bool,
        text_visible: bool,
        bpm_visible: bool,
    ) -> (r: Option<String>)
        requires
            old(self).wf(),
        ensures
            final(self).wf(),
            final(self).catalog == old(self).catalog,
            final(self).state.score.players == old(self).state.score.players,
            final(self).state.score.instruments == old(self).state.score.instruments,
            final(self).state.score.meta == old(self).state.score.meta,
            final(self).state.score.config == old(self).state.score.config,
            (!old(self).flow_map().contains_key(flow_key@) || dotted > MAX_DOTS) ==> r is None,
            r is None ==> final(self).state == old(self).state,
            r matches Some(k) ==> ({
                let before = old(self).flow_map()[flow_key@];
                let after = final(self).flow_map()[flow_key@];
                &&& old(self).flow_map().contains_key(flow_key@)
                &&& !before.master.view().contains_key(k@)
                &&& final(self).flow_map() == old(self).flow_map().insert(flow_key@, after)
                &&& after.length == before.length
                &&& after.key == before.key && after.title == before.title && after.players == before.players
                    && after.subdivisions == before.subdivisions && after.staves == before.staves
                    && after.tracks == before.tracks
                &&& after.master.view().contains_key(k@)
                &&& after.master.view()[k@] matches Entry::AbsoluteTempo(tp) && tp.tick == tick && tp.bpm == bpm
                    && tp.dotted == dotted && tp.beat_type == beat_type && tp.text@ == text@
                    && tp.normalized_bpm == normalized(before.subdivisions, beat_type, dotted, bpm)
                &&& after.master.view() == without_tempo_at(before.master.view(), tick).insert(k@, after.master.view()[k@])
            }),
    {
        if dotted > MAX_DOTS {
            return None;
        }
        let i = match find(&self.state.score.flows.order, flow_key) {
            Some(i) => i,
            None => return None,
        };
        let key = shortid();
        if self.state.score.flows.order[i].master.contains_key(key.as_str()) {
            return None;
        }
        let ghost before = self.state.score.flows.order@;
        proof {
            lemma_keyed_index(before, i as int);
        }
        let flow = &mut self.state.score.flows.order[i];
        let done = flow.insert_tempo(
            key.clone(),
            tick,
            text.to_owned(),
            beat_type,
            dotted,
            bpm,
            parenthesis_visible,
            text_visible,
            bpm_visible,
        );
        if !done {
            return None;
        }
        proof {
            lemma_keyed_update(before, i as int, self.state.score.flows.order@[i as int]);
        }
        self.refresh_ticks(i);
        Some(key)
    }

    /// Flow `flow_key` has a track `track_key`.
    pub open spec fn has_track(&self, flow_key: Seq<char>, track_key: Seq<char>) -> bool {
        self.flow_map().contains_key(flow_key) && self.flow_map()[flow_key].track_map().contains_key(track_key)
    }

    /// The entries of track `track_key` of flow `flow_key`.
    pub open spec fn track_view(&self, flow_key: Seq<char>, track_key: Seq<char>) -> Map<Seq<char>, Entry> {
        self.flow_map()[flow_key].track_map()[track_key].view()
    }

    /// Record `e` in track `track_key` of flow `flow_key`.
    fn insert_entry(&mut self, flow_key: &str, track_key: &str, e: Entry) -> (r: bool)
        requires
            old(self).wf(),
        ensures
            final(self).wf(),
            final(self).catalog == old(self).catalog,
            final(self).state.score.players == old(self).state.score.players,
            final(self).state.score.instruments == old(self).state.score.instruments,
            final(self).state.score.meta == old(self).state.score.meta,
            final(self).state.score.config == old(self).state.score.config,
            r == old(self).has_track(flow_key@, track_key@),
            !r ==> final(self).state == old(self).state,
            r ==> final(self).flow_map() == old(self).flow_map().insert(flow_key@, final(self).flow_map()[flow_key@]),
            r ==> final(self).flow_map()[flow_key@].track_map() == old(self).flow_map()[flow_key@].track_map().insert(
                track_key@,
                final(self).flow_map()[flow_key@].track_map()[track_key@],
            ),
            r ==> final(self).track_view(flow_key@, track_key@) == old(self).track_view(flow_key@, track_key@).insert(
                e.key_view(),
                e,
            ),
    {
        let i = match find(&self.state.score.flows.order, flow_key) {
            Some(i) => i,
            None => return false,
        };
        if find(&self.state.score.flows.order[i].tracks, track_key).is_none() {
            return false;
        }
        let ghost before = self.state.score.flows.order@;
        proof {
            lemma_keyed_index(before, i as int);
        }
        let flow = &mut self.state.score.flows.order[i];
        let done = flow.insert_in_track(track_key, e);
        proof {
            lemma_keyed_update(before, i as int, self.state.score.flows.order@[i as int]);
            lemma_keyed_index(self.state.score.flows.order@, i as int);
            lemma_projects_frame(before[i as int], self.state.score.flows.order@[i as int], self.state.ticks@[i as int]);
        }
        true
    }

    /// Take entry `entry_key` out of track `track_key` of flow `flow_key`.
    fn remove_entry(&mut self, flow_key: &str, track_key: &str, entry_key: &str) -> (r: bool)
        requires
            old(self).wf(),
        ensures
            final(self).wf(),
            final(self).catalog == old(self).catalog,
            final(self).state.score.players == old(self).state.score.players,
            final(self).state.score.instruments == old(self).state.score.instruments,
            final(self).state.score.meta == old(self).state.score.meta,
            final(self).state.score.config == old(self).state.score.config,
            r == old(self).has_track(flow_key@, track_key@),
            !r ==> final(self).state == old(self).state,
            r ==> final(self).flow_map() == old(self).flow_map().insert(flow_key@, final(self).flow_map()[flow_key@]),
            r ==> final(self).flow_map()[flow_key@].track_map() == old(self).flow_map()[flow_key@].track_map().insert(
                track_key@,
                final(self).flow_map()[flow_key@].track_map()[track_key@],
            ),
            r ==> final(self).track_view(flow_key@, track_key@) == old(self).track_view(flow_key@, track_key@).remove(
                entry_key@,
            ),
    {
        let i = match find(&self.state.score.flows.order, flow_key) {
            Some(i) => i,
            None => return false,
        };
        let ghost before = self.state.score.flows.order@;
        proof {
            lemma_keyed_index(before, i as int);
        }
        if find(&self.state.score.flows.order[i].tracks, track_key).is_none() {
            return false;
        }
        let flow = &mut self.state.score.flows.order[i];
        let _ = flow.remove_from_track(track_key, entry_key);
        proof {
            lemma_keyed_update(before, i as int, self.state.score.flows.order@[i as int]);
            lemma_keyed_index(self.state.score.flows.order@, i as int);
            lemma_projects_frame(before[i as int], self.state.score.flows.order@[i as int], self.state.ticks@[i as int]);
        }
        true
    }

    /// A tone in track `track_key` of flow `flow_key`, under a fresh key
    /// that is handed back; its accidental follows from the pitch. `None`,
    /// with nothing changed, when the flow or the track is missing.
    pub fn create_tone(
        &mut self,
        flow_key: &str,
        track_key: &str,
        tick: u32,
        duration: u32,
        pitch: u8,
        velocity: u8,
        articulation: Articulation,
    ) -> (r: Option<String>)
        requires
            old(self).wf(),
        ensures
            final(self).wf(),
            final(self).catalog == old(self).catalog,
            final(self).state.score.players == old(self).state.score.players,
            final(self).state.score.instruments == old(self).state.score.instruments,
            final(self).state.score.meta == old(self).state.score.meta,
            final(self).state.score.config == old(self).state.score.config,
            r is Some == old(self).has_track(flow_key@, track_key@),
            r is None ==> final(self).state == old(self).state,
            r matches Some(k) ==> final(self).track_view(flow_key@, track_key@) == old(self).track_view(
                flow_key@,
                track_key@,
            ).insert(k@, final(self).track_view(flow_key@, track_key@)[k@]),
            r matches Some(k) ==> (final(self).track_view(flow_key@, track_key@)[k@] matches Entry::Tone(t)
                && t.key@ == k@ && t.tick == tick && t.duration.ticks == duration && t.pitch.midi == pitch
                && t.pitch.accidental == default_accidental(pitch) && t.velocity.value == velocity
                && t.articulation == articulation),
    {
        let key = shortid();
        let tone = Tone::new(
            key.clone(),
            tick,
            Duration::new(duration),
            Pitch::new(pitch, Accidental::default(pitch)),
            Velocity::new(velocity),
            articulation,
        );
        if self.insert_entry(flow_key, track_key, tone) {
            Some(key)
        } else {
            None
        }
    }

    /// Move tone `entry_key` to `tick` and give it a new duration, pitch and
    /// articulation; `false`, with nothing changed, when the flow, the track
    /// or the tone is missing, or the entry is no tone.
    pub fn update_tone(
        &mut self,
        flow_key: &str,
        track_key: &str,
        entry_key: &str,
        tick: u32,
        duration: u32,
        pitch: u8,
        articulation: Articulation,
    ) -> (r: bool)
        requires
            old(self).wf(),
        ensures
            final(self).wf(),
            final(self).catalog == old(self).catalog,
            final(self).state.score.players == old(self).state.score.players,
            final(self).state.score.instruments == old(self).state.score.instruments,
            final(self).state.score.meta == old(self).state.score.meta,
            final(self).state.score.config == old(self).state.score.config,
            r == (old(self).has_track(flow_key@, track_key@) && old(self).track_view(flow_key@, track_key@).contains_key(
                entry_key@,
            ) && old(self).track_view(flow_key@, track_key@)[entry_key@] is Tone),
            !r ==> final(self).state == old(self).state,
            r ==> ({
                let t = old(self).track_view(flow_key@, track_key@)[entry_key@]->Tone_0;
                final(self).track_view(flow_key@, track_key@) == old(self).track_view(flow_key@, track_key@).insert(
                    entry_key@,
                    Entry::Tone(
                        Tone {
                            key: t.key,
                            tick,
                            duration: Duration { ticks: duration },
                            pitch: Pitch { midi: pitch, accidental: default_accidental(pitch) },
                            velocity: t.velocity,
                            articulation,
                        },
                    ),
                )
            }),
    {
        let i = match find(&self.state.score.flows.order, flow_key) {
            Some(i) => i,
            None => return false,
        };
        proof {
            lemma_keyed_index(self.state.score.flows.order@, i as int);
        }
        let tone = match self.state.score.flows.order[i].track_entry(track_key, entry_key) {
            Some(Entry::Tone(t)) => Tone::new(
                t.key.clone(),
                tick,
                Duration::new(duration),
                Pitch::new(pitch, Accidental::default(pitch)),
                t.velocity,
                articulation,
            ),
            _ => return false,
        };
        proof {
            let f = self.flow_map()[flow_key@];
            f.track_map()[track_key@].lemma_view_keys();
        }
        self.insert_entry(flow_key, track_key, tone)
    }

    /// Remove entry `entry_key` from track `track_key` of flow `flow_key`;
    /// `false`, with nothing changed, when the flow or the track is missing.
    pub fn remove_tone(&mut self, flow_key: &str, track_key: &str, entry_key: &str) -> (r: bool)
        requires
            old(self).wf(),
        ensures
            final(self).wf(),
            final(self).catalog == old(self).catalog,
            final(self).state.score.players == old(self).state.score.players,
            final(self).state.score.instruments == old(self).state.score.instruments,
            final(self).state.score.meta == old(self).state.score.meta,
            final(self).state.score.config == old(self).state.score.config,
            r == old(self).has_track(flow_key@, track_key@),
            !r ==> final(self).state == old(self).state,
            r ==> final(self).track_view(flow_key@, track_key@) == old(self).track_view(flow_key@, track_key@).remove(
                entry_key@,
            ),
    {
        self.remove_entry(flow_key, track_key, entry_key)
    }

    /// Tone `entry_key` of track `track_key` in flow `flow_key` can be cut
    /// at `slice_at`: it exists, is a tone, and `slice_at` lies within it.
    pub open spec fn can_slice(&self, flow_key: Seq<char>, track_key: Seq<char>, entry_key: Seq<char>, slice_at: u32) -> bool {
        &&& self.has_track(flow_key, track_key)
        &&& self.track_view(flow_key, track_key).contains_key(entry_key)
        &&& self.track_view(flow_key, track_key)[entry_key] matches Entry::Tone(t)
        &&& t.tick <= slice_at <= t.tick + t.duration.ticks
    }

    /// Cut tone `entry_key` in two at `slice_at`: the first part keeps its
    /// key, the second gets a fresh one, handed back (see
    /// `slice_tone_as`). `None`, with nothing changed, when the tone cannot
    /// be cut there or the fresh key is in use in the track.
    pub fn slice_tone(&mut self, flow_key: &str, track_key: &str, entry_key: &str, slice_at: u32) -> (r: Option<
        String,
    >)
        requires
            old(self).wf(),
        ensures
            final(self).wf(),
            final(self).catalog == old(self).catalog,
            final(self).state.score.players == old(self).state.score.players,
            final(self).state.score.instruments == old(self).state.score.instruments,
            final(self).state.score.meta == old(self).state.score.meta,
            final(self).state.score.config == old(self).state.score.config,
            !old(self).can_slice(flow_key@, track_key@, entry_key@, slice_at) ==> r is None,
            r is None ==> final(self).state == old(self).state,
            r matches Some(k) ==> old(self).can_slice(flow_key@, track_key@, entry_key@, slice_at)
                && !old(self).track_view(flow_key@, track_key@).contains_key(k@) && old(self).sliced(
                *final(self),
                flow_key@,
                track_key@,
                entry_key@,
                slice_at,
                k@,
            ),
    {
        let key = shortid();
        if self.slice_tone_as(flow_key, track_key, entry_key, slice_at, key.clone()) {
            Some(key)
        } else {
            None
        }
    }

    /// `after` holds the two parts of tone `entry_key` cut at `slice_at`:
    /// the first under the old key, the second under `k`.
    pub open spec fn sliced(
        &self,
        after: Engine,
        flow_key: Seq<char>,
        track_key: Seq<char>,
        entry_key: Seq<char>,
        slice_at: u32,
        k: Seq<char>,
    ) -> bool {
        let t = self.track_view(flow_key, track_key)[entry_key]->Tone_0;
        let first = Tone { duration: Duration { ticks: (slice_at - t.tick) as u32 }, ..t };
        let second = after.track_view(flow_key, track_key)[k]->Tone_0;
        &&& after.flow_map() == self.flow_map().insert(flow_key, after.flow_map()[flow_key])
        &&& after.flow_map()[flow_key].track_map() == self.flow_map()[flow_key].track_map().insert(
            track_key,
            after.flow_map()[flow_key].track_map()[track_key],
        )
        &&& after.track_view(flow_key, track_key) == self.track_view(flow_key, track_key).insert(
            entry_key,
            Entry::Tone(first),
        ).insert(k, Entry::Tone(second))
        &&& second.key@ == k && second.tick == slice_at
        &&& second.duration.ticks == t.duration.ticks - (slice_at - t.tick)
        &&& second.pitch == t.pitch && second.velocity == t.velocity && second.articulation == t.articulation
    }

    /// Cut tone `entry_key` in two at `slice_at`, the second part under
    /// `key`; `false`, with nothing changed, when the tone cannot be cut
    /// there or `key` is in use in the track.
    pub fn slice_tone_as(&mut self, flow_key: &str, track_key: &str, entry_key: &str, slice_at: u32, key: String) -> (r: bool)
        requires
            old(self).wf(),
        ensures
            final(self).wf(),
            final(self).catalog == old(self).catalog,
            final(self).state.score.players == old(self).state.score.players,
            final(self).state.score.instruments == old(self).state.score.instruments,
            final(self).state.score.meta == old(self).state.score.meta,
            final(self).state.score.config == old(self).state.score.config,
            r == (old(self).can_slice(flow_key@, track_key@, entry_key@, slice_at) && !old(self).track_view(
                flow_key@,
                track_key@,
            ).contains_key(key@)),
            !r ==> final(self).state == old(self).state,
            r ==> old(self).sliced(*final(self), flow_key@, track_key@, entry_key@, slice_at, key@),
    {
        let i = match find(&self.state.score.flows.order, flow_key) {
            Some(i) => i,
            None => return false,
        };
        proof {
            lemma_keyed_index(self.state.score.flows.order@, i as int);
        }
        if self.state.score.flows.order[i].track_entry(track_key, key.as_str()).is_some() {
            return false;
        }
        let (first, rest) = match self.state.score.flows.order[i].track_entry(track_key, entry_key) {
            Some(Entry::Tone(t)) => {
                if slice_at < t.tick || slice_at as u64 > t.tick as u64 + t.duration.ticks as u64 {
                    return false;
                }
                (
                    Tone::new(t.key.clone(), t.tick, Duration::new(slice_at - t.tick), t.pitch, t.velocity, t.articulation),
                    (t.duration.ticks - (slice_at - t.tick), t.pitch, t.velocity, t.articulation),
                )
            },
            _ => return false,
        };
        proof {
            let f = self.flow_map()[flow_key@];
            f.track_map()[track_key@].lemma_view_keys();
        }
        let (remaining, pitch, velocity, articulation) = rest;
        let ghost kv = key@;
        let second = Tone::new(key, slice_at, Duration::new(remaining), pitch, velocity, articulation);
        self.remove_entry(flow_key, track_key, entry_key);
        let ghost s1 = *self;
        self.insert_entry(flow_key, track_key, first);
        let ghost s2 = *self;
        self.insert_entry(flow_key, track_key, second);
        proof {
            let ov = old(self).track_view(flow_key@, track_key@);
            assert(self.track_view(flow_key@, track_key@) =~= ov.insert(entry_key@, first).insert(kv, second));
            assert(self.flow_map() =~= old(self).flow_map().insert(flow_key@, self.flow_map()[flow_key@]));
            let f0 = old(self).flow_map()[flow_key@];
            let f1 = s1.flow_map()[flow_key@];
            let f2 = s2.flow_map()[flow_key@];
            let f3 = self.flow_map()[flow_key@];
            assert(f3.track_map() =~= f0.track_map().insert(track_key@, f3.track_map()[track_key@]));
        }
        true
    }
}

} // verus!
