use score_engine::catalog::{InstrumentDef, InstrumentType, StaveDef};
use score_engine::counts::calc_counts;
use score_engine::duration::NoteDuration;
use score_engine::engine::Engine;
use score_engine::entries::{Articulation, ClefDrawType, Entry};
use score_engine::flow::Flow;
use score_engine::score::PlayerType;
use score_engine::track::Track;
use score_engine::time_signature::TimeSignatureDrawType;

fn def(id: &str, name: &str, staves: usize) -> InstrumentDef {
    let mut list = Vec::new();
    for _ in 0..staves {
        list.push(StaveDef::new(vec![1, 0, 1, 0, 1, 0, 1, 0, 1], 67, -2, ClefDrawType::G));
    }
    InstrumentDef {
        id: String::from(id),
        instrument_type: InstrumentType::Melodic,
        path: vec![String::from(name)],
        long_name: String::from(name),
        short_name: String::from(name),
        staves: list,
    }
}

fn catalog() -> Vec<InstrumentDef> {
    vec![def("strings.violin", "Violin", 1), def("keyboards.piano", "Piano", 2), def("brass.horn.f", "Horn in F", 1)]
}

fn first_flow(engine: &Engine) -> String {
    engine.state.score.flows.order[0].key.clone()
}

fn flow<'a>(engine: &'a Engine, key: &str) -> &'a Flow {
    engine.state.score.flows.order.iter().find(|f| f.key == key).unwrap()
}

fn count_of(engine: &Engine, key: &str) -> Option<usize> {
    engine.state.score.instruments.iter().find(|i| i.key == key).unwrap().count
}

#[test]
fn new_engine_has_one_flow_with_ticks() {
    let engine = Engine::new(catalog());
    assert_eq!(engine.state.score.flows.order.len(), 1);
    assert_eq!(engine.state.ticks.len(), 1);
    let f = &engine.state.score.flows.order[0];
    assert_eq!(f.length, 16);
    assert_eq!(f.subdivisions, 16);
    let ticks = &engine.state.ticks[0];
    assert_eq!(ticks.list.len(), 17);
    // an open meter: one bar, first beat only at tick 0
    assert!(ticks.list[0].is_first_beat);
    assert_eq!(ticks.list[0].bar, 1);
    assert_eq!(ticks.list[16].bar, 1);
    assert!(!ticks.list[16].is_first_beat);
    assert_eq!(ticks.list[16].width, 16);
    assert_eq!(ticks.list[15].x, 72 * 15);
    assert_eq!(ticks.width, 72 * 16 + 16);
}

#[test]
fn bar_alignment_keeps_whole_bars() {
    let mut engine = Engine::new(catalog());
    let fk = first_flow(&engine);
    assert!(engine.set_flow_length(&fk, 64));
    // 4/4 at sixteen ticks a quarter is 64 ticks a bar: already whole
    let k = engine.create_time_signature(&fk, 0, 4, 4, TimeSignatureDrawType::Normal, None);
    assert!(k.is_some());
    assert_eq!(flow(&engine, &fk).length, 64);
    // 3/4 is 48 ticks: 64 leaves a part bar, so two bars are made
    let k = engine.create_time_signature(&fk, 0, 3, 4, TimeSignatureDrawType::Normal, None).unwrap();
    assert_eq!(flow(&engine, &fk).length, 96);
    let ts = flow(&engine, &fk).master.get_time_signature_at_tick(0).unwrap();
    assert_eq!(ts.key, k);
    assert_eq!(ts.beats, 3);
    let ticks = &engine.state.ticks[0];
    assert_eq!(ticks.list.len(), 97);
    assert_eq!(ticks.list[48].bar, 2);
    assert!(ticks.list[48].is_first_beat);
    assert_eq!(ticks.list[64].beat, 2);
    assert!(ticks.list[64].is_beat);
    assert!(ticks.list[8].is_quaver_beat && !ticks.list[8].is_beat);
    assert_eq!(ticks.list[20].sixteenth, 4);
}

#[test]
fn bar_alignment_from_the_default_flow() {
    let mut engine = Engine::new(catalog());
    let fk = first_flow(&engine);
    engine.create_time_signature(&fk, 0, 4, 4, TimeSignatureDrawType::Normal, None).unwrap();
    assert_eq!(flow(&engine, &fk).length, 64);
}

#[test]
fn later_time_signatures_move_with_the_shift() {
    let mut engine = Engine::new(catalog());
    let fk = first_flow(&engine);
    assert!(engine.set_flow_length(&fk, 200));
    engine.create_time_signature(&fk, 100, 2, 4, TimeSignatureDrawType::Normal, None).unwrap();
    // 2/4 from 100 is 32 ticks a bar; 100 .. 200 leaves 4: grow by 28
    assert_eq!(flow(&engine, &fk).length, 228);
    engine.create_time_signature(&fk, 0, 3, 4, TimeSignatureDrawType::Normal, None).unwrap();
    // 3/4 from 0 to the meter at 100: 100 % 48 = 4, so 44 more, and the 2/4 moves to 144
    assert_eq!(flow(&engine, &fk).length, 272);
    let f = flow(&engine, &fk);
    assert!(f.master.get_time_signature_at_tick(100).is_none());
    assert_eq!(f.master.get_time_signature_at_tick(144).map(|t| t.beats), Some(2));
}

#[test]
fn open_meter_skips_alignment() {
    let mut engine = Engine::new(catalog());
    let fk = first_flow(&engine);
    engine.create_time_signature(&fk, 5, 0, 4, TimeSignatureDrawType::Normal, None).unwrap();
    assert_eq!(flow(&engine, &fk).length, 16);
}

#[test]
fn time_signature_refusals() {
    let mut engine = Engine::new(catalog());
    let fk = first_flow(&engine);
    assert!(engine.create_time_signature("nope", 0, 4, 4, TimeSignatureDrawType::Normal, None).is_none());
    assert!(engine.create_time_signature(&fk, 17, 4, 4, TimeSignatureDrawType::Normal, None).is_none());
    assert_eq!(flow(&engine, &fk).length, 16);
    assert!(!engine.set_flow_length(&fk, u32::MAX));
    assert!(!engine.set_flow_length("nope", 10));
}

#[test]
fn tempo_marking_replaces_the_one_at_its_tick() {
    let mut engine = Engine::new(catalog());
    let fk = first_flow(&engine);
    let a = engine.create_absolute_tempo(&fk, 0, "Allegro", NoteDuration::Quarter, 0, 120, false, true, true).unwrap();
    let b = engine.create_absolute_tempo(&fk, 0, "Adagio", NoteDuration::Half, 1, 40, false, true, true).unwrap();
    let f = flow(&engine, &fk);
    let t = f.master.get_absolute_tempo_at_tick(0).unwrap();
    assert_eq!(t.key, b);
    assert_ne!(a, b);
    assert_eq!(t.normalized_bpm.numerator as f64 / t.normalized_bpm.denominator as f64, 120.0);
    assert!(engine.create_absolute_tempo(&fk, 0, "x", NoteDuration::Half, 17, 40, false, true, true).is_none());
    assert!(engine.create_absolute_tempo("nope", 0, "x", NoteDuration::Half, 0, 40, false, true, true).is_none());
}

#[test]
fn instruments_players_and_teardown() {
    let mut engine = Engine::new(catalog());
    let fk = first_flow(&engine);
    let player = engine.create_player(PlayerType::Solo).unwrap();
    assert!(flow(&engine, &fk).players.contains(&player));
    let piano = engine.create_instrument("keyboards.piano").unwrap();
    assert!(engine.create_instrument("no.such.id").is_none());
    assert!(engine.assign_instrument(&player, &piano));
    let staves = engine.state.score.instruments.iter().find(|i| i.key == piano).unwrap().staves.clone();
    assert_eq!(staves.len(), 2);
    let f = flow(&engine, &fk);
    assert_eq!(f.staves.len(), 2);
    assert_eq!(f.tracks.len(), 2);
    let track_keys: Vec<String> = f.staves.iter().flat_map(|s| s.tracks.clone()).collect();
    for s in &f.staves {
        assert!(staves.contains(&s.key));
        match &s.master.entries.by_key[0] {
            Entry::Clef(c) => assert_eq!(c.pitch.midi, 67),
            _ => panic!("expected a clef"),
        }
    }
    // a second flow gets the staves too
    let fk2 = engine.create_flow().unwrap();
    assert_eq!(flow(&engine, &fk2).staves.len(), 2);
    assert_eq!(engine.state.ticks.len(), 2);
    // removing the instrument tears its staves and tracks out of every flow
    assert!(engine.remove_instrument(&player, &piano));
    for key in [&fk, &fk2] {
        let f = flow(&engine, key);
        assert!(f.staves.iter().all(|s| !staves.contains(&s.key)));
        assert!(f.tracks.iter().all(|t| !track_keys.contains(&t.key)));
    }
    assert!(engine.state.score.instruments.is_empty());
    assert!(!engine.remove_instrument(&player, &piano));
}

#[test]
fn unassign_and_assign_player() {
    let mut engine = Engine::new(catalog());
    let fk = first_flow(&engine);
    let player = engine.create_player(PlayerType::Section).unwrap();
    let violin = engine.create_instrument("strings.violin").unwrap();
    assert!(engine.assign_instrument(&player, &violin));
    assert_eq!(flow(&engine, &fk).staves.len(), 1);
    assert!(engine.unassign_player(&fk, &player));
    assert!(!flow(&engine, &fk).players.contains(&player));
    assert!(flow(&engine, &fk).staves.is_empty());
    assert!(flow(&engine, &fk).tracks.is_empty());
    assert!(engine.assign_player(&fk, &player));
    assert!(flow(&engine, &fk).players.contains(&player));
    assert_eq!(flow(&engine, &fk).staves.len(), 1);
    assert!(!engine.assign_player("nope", &player));
    assert!(!engine.unassign_player(&fk, "nope"));
}

#[test]
fn derived_numbering() {
    let mut engine = Engine::new(catalog());
    let first = engine.create_player(PlayerType::Solo).unwrap();
    let second = engine.create_player(PlayerType::Solo).unwrap();
    let third = engine.create_player(PlayerType::Solo).unwrap();
    let v1 = engine.create_instrument("strings.violin").unwrap();
    let v2 = engine.create_instrument("strings.violin").unwrap();
    let horn = engine.create_instrument("brass.horn.f").unwrap();
    assert!(engine.assign_instrument(&first, &v1));
    assert!(engine.assign_instrument(&second, &v2));
    assert!(engine.assign_instrument(&third, &horn));
    assert_eq!(count_of(&engine, &v1), Some(1));
    assert_eq!(count_of(&engine, &v2), Some(2));
    assert_eq!(count_of(&engine, &horn), None);
    // the roster order decides the numbers
    assert!(engine.reorder_player(1, 0));
    assert_eq!(count_of(&engine, &v2), Some(1));
    assert_eq!(count_of(&engine, &v1), Some(2));
    assert!(engine.reorder_player(0, 1));
    assert!(engine.remove_instrument(&first, &v1));
    assert_eq!(count_of(&engine, &v2), None);
}

#[test]
fn solo_and_section_are_numbered_apart() {
    let mut engine = Engine::new(catalog());
    let solo = engine.create_player(PlayerType::Solo).unwrap();
    let section = engine.create_player(PlayerType::Section).unwrap();
    let v1 = engine.create_instrument("strings.violin").unwrap();
    let v2 = engine.create_instrument("strings.violin").unwrap();
    assert!(engine.assign_instrument(&solo, &v1));
    assert!(engine.assign_instrument(&section, &v2));
    assert_eq!(count_of(&engine, &v1), None);
    assert_eq!(count_of(&engine, &v2), None);
    let v3 = engine.create_instrument("strings.violin").unwrap();
    assert!(engine.assign_instrument(&section, &v3));
    assert_eq!(count_of(&engine, &v2), Some(1));
    assert_eq!(count_of(&engine, &v3), Some(2));
    assert!(engine.reorder_instrument(&section, 1, 0));
    assert_eq!(count_of(&engine, &v3), Some(1));
    calc_counts(&mut engine);
    assert_eq!(count_of(&engine, &v2), Some(2));
}

#[test]
fn removing_a_player() {
    let mut engine = Engine::new(catalog());
    let fk = first_flow(&engine);
    let first = engine.create_player(PlayerType::Solo).unwrap();
    let second = engine.create_player(PlayerType::Solo).unwrap();
    let v1 = engine.create_instrument("strings.violin").unwrap();
    let v2 = engine.create_instrument("strings.violin").unwrap();
    assert!(engine.assign_instrument(&first, &v1));
    assert!(engine.assign_instrument(&second, &v2));
    assert!(engine.remove_player(&first));
    assert_eq!(engine.state.score.players.order.len(), 1);
    assert!(!flow(&engine, &fk).players.contains(&first));
    assert_eq!(engine.state.score.instruments.len(), 1);
    assert_eq!(count_of(&engine, &v2), None);
    assert_eq!(flow(&engine, &fk).staves.len(), 1);
    assert!(!engine.remove_player(&first));
}

#[test]
fn tones() {
    let mut engine = Engine::new(catalog());
    let fk = first_flow(&engine);
    let player = engine.create_player(PlayerType::Solo).unwrap();
    let violin = engine.create_instrument("strings.violin").unwrap();
    assert!(engine.assign_instrument(&player, &violin));
    let tk = flow(&engine, &fk).tracks[0].key.clone();
    let t = engine.create_tone(&fk, &tk, 4, 8, 61, 90, Articulation::Staccato).unwrap();
    assert!(engine.create_tone(&fk, "nope", 4, 8, 61, 90, Articulation::Staccato).is_none());
    let track = &flow(&engine, &fk).tracks[0];
    match track.get_entry(&t) {
        Some(Entry::Tone(tone)) => {
            assert_eq!(tone.tick, 4);
            assert_eq!(tone.duration.ticks, 8);
            assert_eq!(tone.pitch.accidental, score_engine::pitch::Accidental::Sharp);
            assert_eq!(tone.velocity.value, 90);
        }
        _ => panic!("expected a tone"),
    }
    assert!(engine.update_tone(&fk, &tk, &t, 6, 10, 60, Articulation::Tenuto));
    assert!(!engine.update_tone(&fk, &tk, "nope", 6, 10, 60, Articulation::Tenuto));
    let second = engine.slice_tone(&fk, &tk, &t, 9).unwrap();
    assert!(engine.slice_tone(&fk, &tk, &t, 1).is_none());
    let track = &flow(&engine, &fk).tracks[0];
    match (track.get_entry(&t), track.get_entry(&second)) {
        (Some(Entry::Tone(a)), Some(Entry::Tone(b))) => {
            assert_eq!((a.tick, a.duration.ticks), (6, 3));
            assert_eq!((b.tick, b.duration.ticks), (9, 7));
            assert_eq!(b.velocity.value, 90);
            assert_eq!(b.articulation, Articulation::Tenuto);
        }
        _ => panic!("expected two tones"),
    }
    assert!(engine.remove_tone(&fk, &tk, &second));
    assert!(flow(&engine, &fk).tracks[0].get_entry(&second).is_none());
    assert!(!engine.remove_tone(&fk, "nope", &second));
}

#[test]
fn flow_list_edits() {
    let mut engine = Engine::new(catalog());
    let a = first_flow(&engine);
    let b = engine.create_flow().unwrap();
    assert!(engine.rename_flow(&b, "Second"));
    assert_eq!(flow(&engine, &b).title, "Second");
    assert!(engine.reorder_flow(1, 0));
    assert_eq!(engine.state.score.flows.order[0].key, b);
    assert!(!engine.reorder_flow(2, 0));
    assert!(engine.remove_flow(&a));
    assert_eq!(engine.state.score.flows.order.len(), 1);
    assert_eq!(engine.state.ticks.len(), 1);
    assert!(!engine.remove_flow(&a));
    engine.set_title(String::from("Title"));
    assert_eq!(engine.state.score.meta.title, "Title");
}

#[test]
fn recomputed_ticks_match_the_stored_strip() {
    let mut engine = Engine::new(catalog());
    let fk = first_flow(&engine);
    engine.create_time_signature(&fk, 0, 7, 8, TimeSignatureDrawType::Normal, None).unwrap();
    let again = engine.state.score.flows.order[0].calc_ticks();
    assert_eq!(again.list, engine.state.ticks[0].list);
    assert_eq!(again.width, engine.state.ticks[0].width);
    assert!(again.list[24].is_grouping_boundry);
}

#[test]
fn refused_reorders_and_renames() {
    let mut engine = Engine::new(catalog());
    let player = engine.create_player(PlayerType::Solo).unwrap();
    let violin = engine.create_instrument("strings.violin").unwrap();
    assert!(engine.assign_instrument(&player, &violin));
    assert!(!engine.reorder_instrument(&player, 1, 0));
    assert!(!engine.reorder_instrument("nope", 0, 0));
    assert!(engine.reorder_instrument(&player, 0, 0));
    assert!(!engine.reorder_player(1, 0));
    assert!(!engine.rename_flow("nope", "x"));
    assert!(!engine.assign_instrument("nope", &violin));
    assert!(!engine.assign_instrument(&player, "nope"));
    assert_eq!(engine.state.score.players.order[0].instruments, vec![violin.clone()]);
}

#[test]
fn catalog_lookup() {
    let defs = catalog();
    assert_eq!(score_engine::catalog::get_def(&defs, "keyboards.piano").map(|d| d.staves.len()), Some(2));
    assert!(score_engine::catalog::get_def(&defs, "keyboards").is_none());
}

#[test]
fn meta_and_config_setters() {
    let mut engine = Engine::new(catalog());
    engine.set_subtitle(String::from("Sub"));
    engine.set_composer(String::from("C"));
    engine.set_arranger(String::from("A"));
    engine.set_lyricist(String::from("L"));
    engine.set_copyright(String::from("(c)"));
    engine.set_auto_count_style_solo(score_engine::score::AutoCountStyle::Arabic);
    assert_eq!(engine.state.score.meta.subtitle, "Sub");
    assert_eq!(engine.state.score.meta.copyright, "(c)");
    assert_eq!(engine.state.score.config.auto_count.solo, score_engine::score::AutoCountStyle::Arabic);
    assert_eq!(engine.state.score.config.auto_count.section, score_engine::score::AutoCountStyle::Roman);
    engine.set_auto_count_style_section(score_engine::score::AutoCountStyle::Arabic);
    assert_eq!(engine.state.score.config.auto_count.section, score_engine::score::AutoCountStyle::Arabic);
}

#[test]
fn removal_refused_when_a_stave_is_missing() {
    let mut engine = Engine::new(catalog());
    let fk = first_flow(&engine);
    let player = engine.create_player(PlayerType::Solo).unwrap();
    let piano = engine.create_instrument("keyboards.piano").unwrap();
    assert!(engine.assign_instrument(&player, &piano));
    // lose one of the piano's staves from the flow
    let flow = engine.state.score.flows.order.iter_mut().find(|f| f.key == fk).unwrap();
    flow.staves.remove(0);
    assert!(!engine.remove_instrument(&player, &piano));
    assert_eq!(engine.state.score.instruments.len(), 1);
    assert_eq!(engine.state.score.players.order[0].instruments, vec![piano.clone()]);
    assert_eq!(flow_staves(&engine, &fk), 1);
    assert!(!engine.remove_player(&player));
    assert_eq!(engine.state.score.players.order.len(), 1);
}

fn flow_staves(engine: &Engine, key: &str) -> usize {
    flow(engine, key).staves.len()
}

#[test]
fn track_buckets_follow_edits() {
    let mut track = Track::new();
    track.insert(score_engine::entries::Barline::new(String::from("a"), 3, score_engine::entries::BarlineType::Normal));
    track.insert(score_engine::entries::Barline::new(String::from("b"), 3, score_engine::entries::BarlineType::Final));
    assert_eq!(track.entries.by_tick.get(&3).unwrap(), &vec![String::from("a"), String::from("b")]);
    // re-inserting a key moves it to the end of its new tick's bucket
    track.insert(score_engine::entries::Barline::new(String::from("a"), 3, score_engine::entries::BarlineType::Double));
    assert_eq!(track.entries.by_tick.get(&3).unwrap(), &vec![String::from("b"), String::from("a")]);
    assert!(track.remove("zzz").is_none());
    assert_eq!(track.entries.by_key.len(), 2);
}
