use vstd::prelude::*;

use crate::duration::{note_denominator, ticks_of, NoteDuration};
use crate::entries::Entry;

verus! {

/// Most augmentation dots a tempo marking may carry.
pub const MAX_DOTS: u8 = 16;

/// A tempo in quarter notes per minute, as the exact fraction
/// `numerator / denominator`.
#[derive(Clone, Copy, Debug, PartialEq, Eq, Structural)]
pub struct NormalizedBpm {
    pub numerator: u64,
    pub denominator: u64,
}

/// A tempo marking.
#[derive(Clone, Debug)]
pub struct AbsoluteTempo {
    pub key: String,
    pub tick: u32,
    pub normalized_bpm: NormalizedBpm,
    // written representation
    pub text: String,
    pub beat_type: NoteDuration,
    pub dotted: u8,
    pub bpm: u32,
    // what of it is shown
    pub parenthesis_visible: bool,
    pub text_visible: bool,
    pub bpm_visible: bool,
}

pub open spec fn pow2(n: nat) -> nat
    decreases n,
{
    if n == 0 {
        1
    } else {
        2 * pow2((n - 1) as nat)
    }
}

/// `bpm` beats of a note of value `beat_type` with `dotted` dots, counted in
/// quarter notes: the dotted value lasts `base * (2 - 1/2^dotted)` ticks, so the
/// rate is `bpm * base * (2^(dotted+1) - 1) / (2^dotted * quarter)`.
pub open spec fn normalized(subdivisions: u8, beat_type: NoteDuration, dotted: u8, bpm: u32) -> NormalizedBpm {
    let base = ticks_of(subdivisions as nat, note_denominator(beat_type));
    let quarter = ticks_of(subdivisions as nat, 4);
    NormalizedBpm {
        numerator: (bpm * base * (pow2((dotted + 1) as nat) - 1)) as u64,
        denominator: (pow2(dotted as nat) * quarter) as u64,
    }
}

proof fn lemma_pow2_bound(n: nat)
    ensures
        pow2(n) >= 1,
        n <= 17 ==> pow2(n) <= 131072,
{
    lemma_pow2_monotone(0, n);
    if n <= 17 {
        lemma_pow2_monotone(n, 17);
        reveal_with_fuel(pow2, 18);
    }
}

proof fn lemma_pow2_monotone(m: nat, n: nat)
    requires
        m <= n,
    ensures
        pow2(m) <= pow2(n),
    decreases n,
{
    if m < n {
        lemma_pow2_monotone(m, (n - 1) as nat);
    }
}

impl AbsoluteTempo {
    /// The tempo marking at `tick`, with its rate in quarter notes per minute.
    pub fn new(
        subdivisions: u8,
        key: String,
        tick: u32,
        text: String,
        beat_type: NoteDuration,
        dotted: u8,
        bpm: u32,
        parenthesis_visible: bool,
        text_visible: bool,
        bpm_visible: bool,
    ) -> (r: Entry)
        requires
            dotted <= MAX_DOTS,
        ensures
            r == Entry::AbsoluteTempo(
                AbsoluteTempo {
                    key,
                    tick,
                    normalized_bpm: normalized(subdivisions, beat_type, dotted, bpm),
                    text,
                    beat_type,
                    dotted,
                    bpm,
                    parenthesis_visible,
                    text_visible,
                    bpm_visible,
                },
            ),
    {
        Entry::AbsoluteTempo(
            Self {
                key,
                tick,
                normalized_bpm: AbsoluteTempo::normalize_bpm(subdivisions, &beat_type, dotted, bpm),
                text,
                beat_type,
                dotted,
                bpm,
                parenthesis_visible,
                text_visible,
                bpm_visible,
            },
        )
    }

    /// A tempo as quarter notes per minute: `bpm * (duration / quarter)`,
    /// where a dotted value's duration adds half of the previous part per dot.
    /// Dotted half at 100 gives 300; eighth at 120 gives 60.
    pub fn normalize_bpm(subdivisions: u8, beat_type: &NoteDuration, dotted: u8, bpm: u32) -> (r: NormalizedBpm)
        requires
            dotted <= MAX_DOTS,
        ensures
            r == normalized(subdivisions, *beat_type, dotted, bpm),
    {
        let base = beat_type.to_ticks(subdivisions) as u64;
        let quarter = NoteDuration::Quarter.to_ticks(subdivisions) as u64;
        let mut scale: u64 = 1;
        let mut i: u8 = 0;
        while i < dotted
            invariant
                i <= dotted <= MAX_DOTS,
                scale == pow2(i as nat),
            decreases dotted - i,
        {
            proof {
                lemma_pow2_bound(i as nat);
            }
            scale = scale * 2;
            i = i + 1;
        }
        proof {
            lemma_pow2_bound(dotted as nat);
            lemma_pow2_bound((dotted + 1) as nat);
        }
        let parts = 2 * scale - 1;
        assert(bpm * base * parts <= 0xffff_ffff * 1020 * 131072) by (nonlinear_arith)
            requires
                bpm <= 0xffff_ffff,
                base <= 1020,
                parts <= 131072,
        ;
        assert(scale * quarter <= 65536 * 1020) by (nonlinear_arith)
            requires
                scale <= 65536,
                quarter <= 1020,
        ;
        assert(bpm * base <= 0xffff_ffff * 1020) by (nonlinear_arith)
            requires
                bpm <= 0xffff_ffff,
                base <= 1020,
        ;
        let per_minute = bpm as u64 * base;
        NormalizedBpm { numerator: per_minute * parts, denominator: scale * quarter }
    }
}

} // verus!
