use score_engine::entries::Entry;
use score_engine::time_signature::{TimeSignature, TimeSignatureDrawType, TimeSignatureType};

#[test]
fn expect_free() -> Result<(), String> {
    match TimeSignature::kind_from_beats(4) {
        TimeSignatureType::Simple => Ok(()),
        _ => Err(String::from("4 is not simple time")),
    }
}

fn meter(tick: u32, beats: u8, beat_type: u8) -> TimeSignature {
    TimeSignature {
        key: String::from("m"),
        tick,
        beats,
        beat_type,
        draw_type: TimeSignatureDrawType::Normal,
        groupings: TimeSignature::groupings(beats),
    }
}

#[test]
fn meter_classification() {
    assert_eq!(TimeSignature::kind_from_beats(0), TimeSignatureType::Open);
    assert_eq!(TimeSignature::kind_from_beats(3), TimeSignatureType::Simple);
    assert_eq!(TimeSignature::kind_from_beats(4), TimeSignatureType::Simple);
    assert_eq!(TimeSignature::kind_from_beats(6), TimeSignatureType::Compound);
    assert_eq!(TimeSignature::kind_from_beats(5), TimeSignatureType::Complex);
    assert_eq!(TimeSignature::kind_from_beats(7), TimeSignatureType::Complex);
    assert_eq!(TimeSignature::kind_from_beats(12), TimeSignatureType::Compound);
    assert_eq!(meter(0, 9, 8).kind(), TimeSignatureType::Compound);
}

#[test]
fn default_groupings() {
    assert_eq!(TimeSignature::groupings(7), vec![3, 4]);
    assert_eq!(TimeSignature::groupings(6), vec![3, 3]);
    assert_eq!(TimeSignature::groupings(4), vec![2, 2]);
    assert_eq!(TimeSignature::groupings(0), Vec::<u8>::new());
    assert_eq!(TimeSignature::groupings(3), vec![1, 1, 1]);
    assert_eq!(TimeSignature::groupings(5), vec![3, 2]);
    assert_eq!(TimeSignature::groupings(8), vec![3, 3, 2]);
    assert_eq!(TimeSignature::groupings(11), vec![3, 3, 3, 2]);
}

#[test]
fn groupings_add_up_to_beats() {
    for beats in 0..=255u8 {
        let total: u32 = TimeSignature::groupings(beats).iter().map(|g| *g as u32).sum();
        assert_eq!(total, beats as u32);
    }
}

#[test]
fn tick_arithmetic() {
    let ts = meter(0, 3, 4);
    assert_eq!(ts.ticks_per_beat(16), 16);
    assert_eq!(ts.ticks_per_bar(16), 48);
    assert_eq!(ts.ticks_per_beat_type(16, 8), 8);
    assert_eq!(ts.ticks_per_beat_type(16, 2), 32);
    assert_eq!(ts.ticks_per_beat_type(16, 0), 0);
    assert_eq!(meter(0, 6, 8).ticks_per_bar(16), 48);
}

#[test]
fn beat_predicates() {
    let ts = meter(8, 4, 4);
    assert!(ts.is_on_beat(8, 16));
    assert!(ts.is_on_beat(24, 16));
    assert!(!ts.is_on_beat(16, 16));
    assert!(ts.is_on_beat_type(16, 16, 8));
    assert!(ts.is_on_first_beat(72, 16));
    assert!(!ts.is_on_first_beat(40, 16));
    assert_eq!(ts.distance_from_barline(75, 16), 3);
}

#[test]
fn open_meter_predicates() {
    let ts = meter(4, 0, 4);
    assert!(ts.is_on_first_beat(4, 16));
    assert!(!ts.is_on_first_beat(20, 16));
    assert!(!ts.is_on_grouping_boundry(4, 16));
    assert_eq!(ts.distance_from_barline(20, 16), 16);
    assert_eq!(ts.ticks_per_bar(16), 0);
}

#[test]
fn grouping_boundaries() {
    // 7/8 grouped 3 + 4: eighths of 8 ticks, bar of 56
    let ts = meter(0, 7, 8);
    assert!(ts.is_on_grouping_boundry(0, 16));
    assert!(ts.is_on_grouping_boundry(24, 16));
    assert!(!ts.is_on_grouping_boundry(32, 16));
    assert!(ts.is_on_grouping_boundry(56, 16));
    assert!(ts.is_on_grouping_boundry(80, 16));
    assert!(!ts.is_on_grouping_boundry(8, 16));
}

#[test]
fn new_time_signature_entry() {
    match TimeSignature::new(String::from("k"), 3, 7, 8, TimeSignatureDrawType::Normal, None) {
        Entry::TimeSignature(ts) => {
            assert_eq!(ts.groupings, vec![3, 4]);
            assert_eq!(ts.tick, 3);
        }
        _ => panic!("not a time signature"),
    }
    match TimeSignature::new(String::from("k"), 0, 7, 8, TimeSignatureDrawType::Normal, Some(vec![2, 2, 3])) {
        Entry::TimeSignature(ts) => assert_eq!(ts.groupings, vec![2, 2, 3]),
        _ => panic!("not a time signature"),
    }
}
