use score_engine::duration::NoteDuration;
use score_engine::tempo::{AbsoluteTempo, NormalizedBpm};

fn value(r: NormalizedBpm) -> f64 {
    r.numerator as f64 / r.denominator as f64
}

#[test]
fn test_one() {
    // 8th @ 120bpm => 60bpm
    assert_eq!(value(AbsoluteTempo::normalize_bpm(16, &NoteDuration::Eighth, 0, 120)), 60.0);
}

#[test]
fn test_two() {
    // half @ 120bpm => 240bpm
    assert_eq!(value(AbsoluteTempo::normalize_bpm(16, &NoteDuration::Half, 0, 120)), 240.0);
}

#[test]
fn test_three() {
    // dotted half @ 100bpm => 300bpm
    assert_eq!(value(AbsoluteTempo::normalize_bpm(16, &NoteDuration::Half, 1, 100)), 300.0);
}

#[test]
fn test_four() {
    // dotted quarter @ 100bpm => 150bpm
    assert_eq!(value(AbsoluteTempo::normalize_bpm(16, &NoteDuration::Quarter, 1, 100)), 150.0);
}

#[test]
fn normalize_bpm_is_exact_fraction() {
    let r = AbsoluteTempo::normalize_bpm(16, &NoteDuration::Half, 1, 100);
    assert_eq!(r.numerator, 100 * 32 * 3);
    assert_eq!(r.denominator, 2 * 16);
}

#[test]
fn double_dotted_eighth() {
    // 8 + 4 + 2 = 14 ticks at 16 a quarter: 120 * 14 / 16 = 105
    assert_eq!(value(AbsoluteTempo::normalize_bpm(16, &NoteDuration::Eighth, 2, 120)), 105.0);
}
