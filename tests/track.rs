use score_engine::duration::Duration;
use score_engine::entries::{Articulation, Barline, BarlineType, Entry, Tone};
use score_engine::pitch::{Accidental, Pitch};
use score_engine::tempo::AbsoluteTempo;
use score_engine::duration::NoteDuration;
use score_engine::time_signature::{TimeSignature, TimeSignatureDrawType};
use score_engine::track::Track;
use score_engine::velocity::Velocity;

fn tone(key: &str, tick: u32) -> Entry {
    Tone::new(
        String::from(key),
        tick,
        Duration::new(4),
        Pitch::new(60, Accidental::Natural),
        Velocity::new(100),
        Articulation::Unmarked,
    )
}

fn bucket(track: &Track, tick: u32) -> Vec<String> {
    track.entries.by_tick.get(&tick).cloned().unwrap_or_default()
}

fn consistent(track: &Track) {
    for e in &track.entries.by_key {
        let mut found = 0;
        for (tick, keys) in &track.entries.by_tick {
            let n = keys.iter().filter(|k| **k == e.key()).count();
            if n > 0 {
                assert_eq!(*tick, e.tick());
            }
            found += n;
        }
        assert_eq!(found, 1);
    }
    for (tick, keys) in &track.entries.by_tick {
        for k in keys {
            let e = track.entries.by_key.iter().find(|e| e.key() == *k).expect("dangling key");
            assert_eq!(e.tick(), *tick);
        }
    }
}

#[test]
fn index_consistency_through_edits() {
    let mut track = Track::new();
    track.insert(tone("a", 0));
    track.insert(tone("b", 0));
    track.insert(tone("c", 8));
    consistent(&track);
    assert_eq!(bucket(&track, 0), vec![String::from("a"), String::from("b")]);
    track.move_entry("a", 8);
    consistent(&track);
    assert_eq!(bucket(&track, 0), vec![String::from("b")]);
    assert_eq!(bucket(&track, 8), vec![String::from("c"), String::from("a")]);
    track.move_entry("a", 8);
    assert_eq!(bucket(&track, 8), vec![String::from("c"), String::from("a")]);
    track.move_entry("missing", 3);
    consistent(&track);
    let removed = track.remove("b").expect("b is there");
    assert_eq!(removed.key(), "b");
    assert!(track.remove("b").is_none());
    consistent(&track);
    // the emptied bucket stays
    assert!(track.entries.by_tick.contains_key(&0));
    assert_eq!(bucket(&track, 0), Vec::<String>::new());
}

#[test]
fn insert_replaces_same_key() {
    let mut track = Track::new();
    track.insert(tone("a", 0));
    track.insert(tone("a", 4));
    consistent(&track);
    assert_eq!(track.entries.by_key.len(), 1);
    assert_eq!(track.entries.by_key[0].tick(), 4);
    assert_eq!(bucket(&track, 0), Vec::<String>::new());
}

#[test]
fn typed_lookups() {
    let mut track = Track::new();
    track.insert(Barline::new(String::from("bar"), 4, BarlineType::Normal));
    track.insert(TimeSignature::new(String::from("ts"), 4, 3, 4, TimeSignatureDrawType::Normal, None));
    track.insert(TimeSignature::new(String::from("ts2"), 20, 2, 4, TimeSignatureDrawType::Normal, None));
    track.insert(AbsoluteTempo::new(16, String::from("tempo"), 4, String::new(), NoteDuration::Quarter, 0, 90, false, true, true));
    assert_eq!(track.get_time_signature_at_tick(4).map(|t| t.key.clone()), Some(String::from("ts")));
    assert!(track.get_time_signature_at_tick(5).is_none());
    assert_eq!(track.get_absolute_tempo_at_tick(4).map(|t| t.bpm), Some(90));
    assert!(track.get_absolute_tempo_at_tick(20).is_none());
    assert_eq!(track.get_time_signature_after_tick(4, 100).map(|t| t.tick), Some(20));
    assert!(track.get_time_signature_after_tick(4, 20).is_none());
    assert_eq!(track.get_time_signature_on_or_before_tick(19).map(|t| t.tick), Some(4));
    assert_eq!(track.get_time_signature_on_or_before_tick(20).map(|t| t.tick), Some(20));
    assert!(track.get_time_signature_on_or_before_tick(3).is_none());
}

#[test]
fn entry_accessors() {
    let mut e = tone("x", 5);
    assert_eq!(e.key(), "x");
    assert_eq!(e.tick(), 5);
    e.set_tick(9);
    assert_eq!(e.tick(), 9);
}

#[test]
fn velocity_and_pitch() {
    assert_eq!(Velocity::new(90).value, 90);
    assert_eq!(Accidental::default(61), Accidental::Sharp);
    assert_eq!(Accidental::default(60), Accidental::Natural);
    assert_eq!(Accidental::default(70), Accidental::Natural);
    assert_eq!(NoteDuration::Eighth.to_ticks(16), 8);
    assert_eq!(NoteDuration::Whole.to_ticks(16), 64);
    assert_eq!(NoteDuration::ThirtySecond.to_int(), 32);
}

#[test]
fn pitch_spelling() {
    assert_eq!(Pitch::new(61, Accidental::Sharp).letter(), "C");
    assert_eq!(Pitch::new(61, Accidental::Flat).letter(), "D");
    assert_eq!(Pitch::new(60, Accidental::Natural).letter(), "C");
    assert_eq!(Pitch::new(71, Accidental::Natural).letter(), "B");
    assert_eq!(Pitch::new(61, Accidental::Natural).letter(), "");
    assert_eq!(Pitch::new(60, Accidental::Natural).octave(), 4);
    assert_eq!(Pitch::new(59, Accidental::Natural).octave(), 3);
    assert_eq!(Pitch::new(5, Accidental::Natural).octave(), 0);
    assert_eq!(Accidental::Sharp.to_token(), "${sharp}");
    assert_eq!(Accidental::DoubleFlat.to_token(), "${double-flat}");
    assert_eq!(NoteDuration::Quarter.to_glyph(), "\u{1D15F}");
}
