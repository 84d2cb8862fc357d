use vstd::prelude::*;

use crate::duration::ticks_of;
use crate::entries::Entry;

verus! {

/// The class of a meter.
#[derive(Clone, Copy, Debug, PartialEq, Eq, Structural)]
pub enum TimeSignatureType {
    Simple,
    Compound,
    Complex,
    Open,
}

#[derive(Clone, Copy, Debug, PartialEq, Eq, Structural)]
pub enum TimeSignatureDrawType {
    /// Never drawn.
    Hidden,
    /// Drawn as numbers; an open meter as 'X'.
    Normal,
    /// 'C'.
    CommonTime,
    /// Cut time.
    SplitCommonTime,
}

/// A meter in force from its tick on.
#[derive(Clone, Debug)]
pub struct TimeSignature {
    pub key: String,
    pub tick: u32,
    /// Beats in a bar; 0 is an open (free) meter.
    pub beats: u8,
    /// The note value of a beat, as a denominator.
    pub beat_type: u8,
    pub draw_type: TimeSignatureDrawType,
    /// Sizes of the accent groups of a bar, in beats.
    pub groupings: Vec<u8>,
}

/// Classification of a meter by its beat count.
pub open spec fn kind_of(beats: nat) -> TimeSignatureType {
    if beats == 0 {
        TimeSignatureType::Open
    } else if beats > 3 && beats % 3 == 0 {
        TimeSignatureType::Compound
    } else if 1 <= beats <= 4 {
        TimeSignatureType::Simple
    } else {
        TimeSignatureType::Complex
    }
}

/// `n` copies of `v`.
pub open spec fn constant_seq(n: nat, v: u8) -> Seq<u8> {
    Seq::new(n, |i: int| v)
}

/// Groups of three while more than four beats remain, then the rest.
pub open spec fn greedy_threes(remaining: nat) -> Seq<u8>
    decreases remaining,
{
    if remaining > 4 {
        seq![3u8] + greedy_threes((remaining - 3) as nat)
    } else {
        seq![remaining as u8]
    }
}

/// The default grouping of a bar of `beats` beats.
pub open spec fn default_groupings(beats: nat) -> Seq<u8> {
    if 0 < beats <= 3 {
        constant_seq(beats, 1u8)
    } else {
        match kind_of(beats) {
            TimeSignatureType::Simple => constant_seq(beats / 2, 2u8),
            TimeSignatureType::Compound => constant_seq(beats / 3, 3u8),
            TimeSignatureType::Complex => greedy_threes(beats),
            TimeSignatureType::Open => Seq::empty(),
        }
    }
}

/// Sum of the first `k` sizes of `g`.
pub open spec fn prefix_sum(g: Seq<u8>, k: nat) -> nat
    decreases k,
{
    if k == 0 || k > g.len() {
        0
    } else {
        prefix_sum(g, (k - 1) as nat) + g[k - 1] as nat
    }
}

/// Sum of all the sizes of `g`.
pub open spec fn total(g: Seq<u8>) -> nat {
    prefix_sum(g, g.len())
}

/// `offset` is a whole number of `unit`s (only 0 is a multiple of 0).
pub open spec fn multiple_of(offset: nat, unit: nat) -> bool {
    if unit == 0 {
        offset == 0
    } else {
        offset % unit == 0
    }
}

/// What is left of `offset` after whole `unit`s are taken out (all of it
/// when the unit is 0).
pub open spec fn remainder(offset: nat, unit: nat) -> nat {
    if unit == 0 {
        offset
    } else {
        offset % unit
    }
}

proof fn lemma_greedy_total(remaining: nat)
    requires
        remaining > 0,
    ensures
        total(greedy_threes(remaining)) == remaining,
    decreases remaining,
{
    let g = greedy_threes(remaining);
    if remaining > 4 {
        let rest = greedy_threes((remaining - 3) as nat);
        lemma_greedy_total((remaining - 3) as nat);
        lemma_prefix_sum_cons(3u8, rest, rest.len());
    } else {
        assert(prefix_sum(g, 0) == 0);
    }
}

proof fn lemma_prefix_sum_cons(x: u8, rest: Seq<u8>, k: nat)
    requires
        k <= rest.len(),
    ensures
        prefix_sum(seq![x] + rest, k + 1) == x as nat + prefix_sum(rest, k),
    decreases k,
{
    let g = seq![x] + rest;
    if k == 0 {
        assert(prefix_sum(g, 0) == 0);
        assert(g[0] == x);
    } else {
        lemma_prefix_sum_cons(x, rest, (k - 1) as nat);
        assert(g[k as int] == rest[k - 1]);
    }
}

proof fn lemma_uniform_total(g: Seq<u8>, v: u8, k: nat)
    requires
        k <= g.len(),
        forall|i: int| 0 <= i < g.len() ==> g[i] == v,
    ensures
        prefix_sum(g, k) == k * v,
    decreases k,
{
    if k > 0 {
        let j = (k - 1) as nat;
        lemma_uniform_total(g, v, j);
        assert(prefix_sum(g, j) == j * v);
        assert(g[k - 1] == v);
        assert(prefix_sum(g, k) == prefix_sum(g, j) + g[k - 1] as nat);
        assert(j * v + v == k * v) by (nonlinear_arith)
            requires
                j + 1 == k,
        ;
        assert(prefix_sum(g, k) == k * v);
    } else {
        assert(prefix_sum(g, k) == 0);
        assert(k * v == 0);
    }
}

/// The default groups of a bar add up to its beats.
pub proof fn lemma_default_groupings_total(beats: nat)
    ensures
        total(default_groupings(beats)) == beats,
{
    if 0 < beats <= 3 {
        lemma_uniform_total(constant_seq(beats, 1u8), 1u8, beats);
    } else {
        match kind_of(beats) {
            TimeSignatureType::Simple => {
                lemma_uniform_total(constant_seq(beats / 2, 2u8), 2u8, beats / 2);
                assert(beats == 4);
            },
            TimeSignatureType::Compound => {
                lemma_uniform_total(constant_seq(beats / 3, 3u8), 3u8, beats / 3);
                assert((beats / 3) * 3 == beats);
            },
            TimeSignatureType::Complex => {
                lemma_greedy_total(beats);
            },
            TimeSignatureType::Open => {},
        }
    }
}

proof fn lemma_prefix_sum_monotone(g: Seq<u8>, j: nat, k: nat)
    requires
        j <= k <= g.len(),
    ensures
        prefix_sum(g, j) <= prefix_sum(g, k),
    decreases k - j,
{
    if j < k {
        lemma_prefix_sum_monotone(g, j, (k - 1) as nat);
    }
}

fn repeated(value: u8, count: usize) -> (r: Vec<u8>)
    ensures
        r@ == constant_seq(count as nat, value),
{
    let mut out: Vec<u8> = Vec::new();
    let mut i: usize = 0;
    while i < count
        invariant
            i <= count,
            out@ == constant_seq(i as nat, value),
        decreases count - i,
    {
        out.push(value);
        i = i + 1;
        assert(out@ =~= constant_seq(i as nat, value));
    }
    out
}

impl TimeSignature {
    /// The meter in force from `tick`, as an entry. Without `groupings` the
    /// default grouping of `beats` is used.
    pub fn new(
        key: String,
        tick: u32,
        beats: u8,
        beat_type: u8,
        draw_type: TimeSignatureDrawType,
        groupings: Option<Vec<u8>>,
    ) -> (r: Entry)
        ensures
            r == Entry::TimeSignature(
                TimeSignature {
                    key,
                    tick,
                    beats,
                    beat_type,
                    draw_type,
                    groupings: match groupings {
                        Some(g) => g,
                        None => r->TimeSignature_0.groupings,
                    },
                },
            ),
            groupings is None ==> r->TimeSignature_0.groupings@ == default_groupings(beats as nat),
    {
        let groupings = match groupings {
            Some(groupings) => groupings,
            None => TimeSignature::groupings(beats),
        };
        Entry::TimeSignature(Self { key, tick, beats, beat_type, draw_type, groupings })
    }

    /// The class of this meter.
    pub fn kind(&self) -> (r: TimeSignatureType)
        ensures
            r == kind_of(self.beats as nat),
    {
        TimeSignature::kind_from_beats(self.beats)
    }

    /// The class of a meter of `beats` beats.
    pub fn kind_from_beats(beats: u8) -> (r: TimeSignatureType)
        ensures
            r == kind_of(beats as nat),
    {
        if beats == 0 {
            TimeSignatureType::Open
        } else if beats > 3 && beats % 3 == 0 {
            TimeSignatureType::Compound
        } else if beats == 1 || beats == 2 || beats == 3 || beats == 4 {
            TimeSignatureType::Simple
        } else {
            TimeSignatureType::Complex
        }
    }

    /// The default grouping of a bar of `beats` beats.
    pub fn groupings(beats: u8) -> (r: Vec<u8>)
        ensures
            r@ == default_groupings(beats as nat),
            total(r@) == beats as nat,
    {
        proof {
            lemma_default_groupings_total(beats as nat);
        }
        if beats > 0 && beats <= 3 {
            repeated(1, beats as usize)
        } else {
            match TimeSignature::kind_from_beats(beats) {
                TimeSignatureType::Simple => repeated(2, (beats as usize) / 2),
                TimeSignatureType::Compound => repeated(3, (beats as usize) / 3),
                TimeSignatureType::Complex => {
                    let mut out: Vec<u8> = Vec::new();
                    let mut remaining: u8 = beats;
                    while remaining > 4
                        invariant
                            remaining <= beats,
                            out@ + greedy_threes(remaining as nat) == greedy_threes(beats as nat),
                        decreases remaining,
                    {
                        let ghost before = out@;
                        out.push(3);
                        assert(greedy_threes(remaining as nat) == seq![3u8] + greedy_threes(
                            (remaining - 3) as nat,
                        ));
                        assert(before + greedy_threes(remaining as nat) =~= out@ + greedy_threes(
                            (remaining - 3) as nat,
                        ));
                        remaining = remaining - 3;
                    }
                    let ghost before = out@;
                    out.push(remaining);
                    assert(out@ =~= before + greedy_threes(remaining as nat));
                    out
                },
                TimeSignatureType::Open => Vec::new(),
            }
        }
    }

    /// Ticks in one beat of this meter.
    pub open spec fn beat_ticks(&self, subdivisions: u8) -> nat {
        ticks_of(subdivisions as nat, self.beat_type as nat)
    }

    /// Ticks in one bar of this meter (0 for an open meter).
    pub open spec fn bar_ticks(&self, subdivisions: u8) -> nat {
        self.beat_ticks(subdivisions) * (self.beats as nat)
    }

    /// Ticks from the start of the bar that holds `tick` to `tick`.
    pub open spec fn bar_offset(&self, tick: u32, subdivisions: u8) -> nat {
        remainder((tick - self.tick) as nat, self.bar_ticks(subdivisions))
    }

    /// `tick` starts one of the accent groups of its bar.
    pub open spec fn grouping_boundary(&self, tick: u32, subdivisions: u8) -> bool {
        let d = self.bar_offset(tick, subdivisions);
        kind_of(self.beats as nat) != TimeSignatureType::Open && (d == 0 || exists|k: nat|
            1 <= k <= self.groupings@.len() && d as int == #[trigger] prefix_sum(self.groupings@, k)
                as int * self.beat_ticks(subdivisions) as int)
    }

    /// Ticks in one bar of this meter; 0 for an open meter.
    pub fn ticks_per_bar(&self, subdivisions: u8) -> (r: u32)
        ensures
            r as nat == self.bar_ticks(subdivisions),
    {
        let per_beat = self.ticks_per_beat(subdivisions);
        assert(per_beat * self.beats <= 1020 * 255) by (nonlinear_arith)
            requires
                per_beat <= 1020,
                self.beats <= 255,
        ;
        per_beat * self.beats as u32
    }

    /// Ticks in one beat of this meter.
    pub fn ticks_per_beat(&self, subdivisions: u8) -> (r: u32)
        ensures
            r as nat == self.beat_ticks(subdivisions),
            r <= 1020,
    {
        self.ticks_per_beat_type(subdivisions, self.beat_type)
    }

    /// Ticks in a note of denominator `beat_type`: `floor(subdivisions / (beat_type / 4))`.
    pub fn ticks_per_beat_type(&self, subdivisions: u8, beat_type: u8) -> (r: u32)
        ensures
            r as nat == ticks_of(subdivisions as nat, beat_type as nat),
            r <= 1020,
    {
        if beat_type == 0 {
            0
        } else {
            (4 * subdivisions as u32) / beat_type as u32
        }
    }

    /// `tick` falls on a beat of this meter.
    pub fn is_on_beat(&self, tick: u32, subdivisions: u8) -> (r: bool)
        requires
            tick >= self.tick,
        ensures
            r == multiple_of((tick - self.tick) as nat, self.beat_ticks(subdivisions)),
    {
        self.is_on_beat_type(tick, subdivisions, self.beat_type)
    }

    /// `tick` falls on a note of denominator `beat_type`, counted from this
    /// meter's own tick.
    pub fn is_on_beat_type(&self, tick: u32, subdivisions: u8, beat_type: u8) -> (r: bool)
        requires
            tick >= self.tick,
        ensures
            r == multiple_of(
                (tick - self.tick) as nat,
                ticks_of(subdivisions as nat, beat_type as nat),
            ),
    {
        let unit = self.ticks_per_beat_type(subdivisions, beat_type);
        let offset = tick - self.tick;
        if unit == 0 {
            offset == 0
        } else {
            offset % unit == 0
        }
    }

    /// `tick` falls on the first beat of a bar; for an open meter, only the
    /// meter's own tick does.
    pub fn is_on_first_beat(&self, tick: u32, subdivisions: u8) -> (r: bool)
        requires
            tick >= self.tick,
        ensures
            r == (self.bar_offset(tick, subdivisions) == 0),
            kind_of(self.beats as nat) == TimeSignatureType::Open ==> r == (tick == self.tick),
    {
        match self.kind() {
            TimeSignatureType::Open => {
                assert(self.beats == 0);
                assert(self.bar_ticks(subdivisions) == 0) by (nonlinear_arith)
                    requires
                        self.beats == 0,
                        self.bar_ticks(subdivisions) == self.beat_ticks(subdivisions) * (
                        self.beats as nat),
                ;
                tick == self.tick
            },
            _ => self.distance_from_barline(tick, subdivisions) == 0,
        }
    }

    /// Ticks from the last barline at or before `tick` to `tick`.
    pub fn distance_from_barline(&self, tick: u32, subdivisions: u8) -> (r: u32)
        requires
            tick >= self.tick,
        ensures
            r as nat == self.bar_offset(tick, subdivisions),
            r <= tick - self.tick,
    {
        let bar = self.ticks_per_bar(subdivisions);
        let offset = tick - self.tick;
        if bar == 0 {
            offset
        } else {
            assert(offset % bar <= offset) by (nonlinear_arith)
                requires
                    bar > 0,
            ;
            offset % bar
        }
    }

    /// `tick` starts an accent group: the start of a bar, or a whole number
    /// of groups into it. Never, for an open meter.
    pub fn is_on_grouping_boundry(&self, tick: u32, subdivisions: u8) -> (r: bool)
        requires
            tick >= self.tick,
        ensures
            r == self.grouping_boundary(tick, subdivisions),
    {
        match self.kind() {
            TimeSignatureType::Open => false,
            TimeSignatureType::Simple | TimeSignatureType::Compound | TimeSignatureType::Complex => {
                assert(kind_of(self.beats as nat) != TimeSignatureType::Open);
                let per_beat = self.ticks_per_beat(subdivisions) as u64;
                let distance = self.distance_from_barline(tick, subdivisions) as u64;
                if distance == 0 {
                    return true;
                }
                let g = &self.groupings;
                let mut offset: u64 = 0;
                let mut i: usize = 0;
                while i < g.len()
                    invariant
                        i <= g@.len(),
                        g@ == self.groupings@,
                        kind_of(self.beats as nat) != TimeSignatureType::Open,
                        per_beat == self.beat_ticks(subdivisions),
                        per_beat <= 1020,
                        distance == self.bar_offset(tick, subdivisions),
                        distance <= u32::MAX,
                        offset == prefix_sum(g@, i as nat) * per_beat,
                        offset <= distance,
                        distance != 0,
                        forall|k: nat|
                            1 <= k <= i ==> distance as int != #[trigger] prefix_sum(g@, k) as int
                                * per_beat as int,
                    decreases g.len() - i,
                {
                    let group = g[i] as u64;
                    assert(group * per_beat <= 255 * 1020) by (nonlinear_arith)
                        requires
                            group <= 255,
                            per_beat <= 1020,
                    ;
                    offset = offset + group * per_beat;
                    assert(prefix_sum(g@, (i + 1) as nat) == prefix_sum(g@, i as nat) + group);
                    assert(offset == prefix_sum(g@, (i + 1) as nat) * per_beat) by (nonlinear_arith)
                        requires
                            offset == prefix_sum(g@, i as nat) * per_beat + group * per_beat,
                            prefix_sum(g@, (i + 1) as nat) == prefix_sum(g@, i as nat) + group,
                    ;
                    i = i + 1;
                    if distance == offset {
                        assert(1 <= i <= self.groupings@.len() && distance as int == prefix_sum(
                            self.groupings@,
                            i as nat,
                        ) as int * self.beat_ticks(subdivisions) as int);
                        return true;
                    }
                    if offset > distance {
                        proof {
                            assert(offset == prefix_sum(g@, i as nat) * per_beat);
                            assert forall|k: nat| 1 <= k <= g@.len() implies distance as int
                                != #[trigger] prefix_sum(g@, k) as int * per_beat as int by {
                                if k > i {
                                    lemma_prefix_sum_monotone(g@, i as nat, k);
                                    assert(prefix_sum(g@, i as nat) as int * per_beat as int
                                        <= prefix_sum(g@, k) as int * per_beat as int)
                                        by (nonlinear_arith)
                                        requires
                                            prefix_sum(g@, i as nat) <= prefix_sum(g@, k),
                                            per_beat >= 0,
                                    ;
                                } else if k == i {
                                } else {
                                }
                            }
                            assert(forall|k: nat|
                                1 <= k <= self.groupings@.len() ==> distance as int
                                    != #[trigger] prefix_sum(self.groupings@, k) as int
                                    * self.beat_ticks(subdivisions) as int);
                        }
                        return false;
                    }
                }
                assert(forall|k: nat|
                    1 <= k <= self.groupings@.len() ==> distance as int != #[trigger] prefix_sum(
                        self.groupings@,
                        k,
                    ) as int * self.beat_ticks(subdivisions) as int);
                assert(distance != 0);
                false
            },
        }
    }
}

} // verus!
