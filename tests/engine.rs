use synth::engine::{Note, Partial, Synth};
use synth::envelope::Envelope;
use synth::level::{Gain, Level};

fn frame_of(synth: &mut Synth) -> Vec<Partial> {
    let mut frame = Vec::new();
    synth.sample(&mut frame);
    frame
}

fn same_value(a: Gain, b: Gain) -> bool {
    a.num * b.den == b.num * a.den
}

#[test]
fn empty_synth_is_silent() {
    let mut synth = Synth::new();
    assert!(frame_of(&mut synth).is_empty());
}

#[test]
fn held_note_without_envelope_has_full_gain() {
    let mut synth = Synth::new();
    synth.note_on(69);
    let f0 = frame_of(&mut synth);
    assert_eq!(f0, vec![Partial { key: 69, phase: 0, gain: Gain { num: 1, den: 1 } }]);
    let f1 = frame_of(&mut synth);
    assert_eq!(f1[0].phase, 1);
    let f2 = frame_of(&mut synth);
    assert_eq!(f2[0].phase, 2);
}

#[test]
fn held_notes_come_in_key_order_then_released() {
    let mut synth = Synth::new();
    synth.set_envelope(Some(Envelope::new(0, 0, Level::new(1, 2), 8)));
    synth.note_on(72);
    synth.note_on(-5);
    synth.note_on(60);
    synth.note_off(72);
    let keys: Vec<i8> = frame_of(&mut synth).iter().map(|p| p.key).collect();
    assert_eq!(keys, vec![-5, 60, 72]);
}

#[test]
fn note_off_without_envelope_is_silent_next_sample() {
    let mut synth = Synth::new();
    synth.note_on(69);
    assert_eq!(frame_of(&mut synth).len(), 1);
    synth.note_off(69);
    let f = frame_of(&mut synth);
    assert!(f.iter().all(|p| p.key != 69 || p.gain.num == 0));
    assert!(f.is_empty());
}

#[test]
fn note_off_of_missing_key_is_a_no_op() {
    let mut synth = Synth::new();
    synth.set_envelope(Some(Envelope::new(1, 1, Level::new(1, 2), 3)));
    synth.note_on(60);
    synth.note_off(61);
    let f = frame_of(&mut synth);
    assert_eq!(f.len(), 1);
    assert_eq!(f[0].key, 60);
}

#[test]
fn release_is_continuous_and_ends_on_time() {
    let mut synth = Synth::new();
    synth.set_envelope(Some(Envelope::new(2, 2, Level::new(1, 2), 4)));
    synth.note_on(69);
    let mut last = Vec::new();
    for _ in 0..6 {
        last = frame_of(&mut synth);
    }
    let held = last[0];
    assert!(same_value(held.gain, Gain { num: 1, den: 2 }));
    synth.note_off(69);
    let first = frame_of(&mut synth);
    assert_eq!(first.len(), 1);
    assert!(same_value(first[0].gain, held.gain));
    assert_eq!(first[0].phase, held.phase + 1);
    // Four ticks of release: three more frames hold the note, then it is gone.
    let expected = [3u128, 2, 1];
    for k in expected {
        let f = frame_of(&mut synth);
        assert_eq!(f.len(), 1);
        assert!(same_value(f[0].gain, Gain { num: k, den: 8 }));
    }
    assert!(frame_of(&mut synth).is_empty());
}

#[test]
fn retrigger_keeps_pending_release() {
    let mut synth = Synth::new();
    synth.set_envelope(Some(Envelope::new(0, 0, Level::new(1, 1), 10)));
    synth.note_on(64);
    for _ in 0..3 {
        frame_of(&mut synth);
    }
    synth.note_off(64);
    frame_of(&mut synth);
    synth.note_on(64);
    let f = frame_of(&mut synth);
    assert_eq!(f.len(), 2);
    assert_eq!(f[0], Partial { key: 64, phase: 0, gain: Gain { num: 1, den: 1 } });
    assert_eq!(f[1].key, 64);
    assert_eq!(f[1].phase, 4);
    assert!(same_value(f[1].gain, Gain { num: 9, den: 10 }));
}

#[test]
fn repeated_releases_of_one_key_coexist() {
    let mut synth = Synth::new();
    synth.set_envelope(Some(Envelope::new(0, 0, Level::new(1, 1), 10)));
    synth.note_on(50);
    synth.note_off(50);
    frame_of(&mut synth);
    synth.note_on(50);
    synth.note_off(50);
    let f = frame_of(&mut synth);
    assert_eq!(f.len(), 2);
    assert!(f.iter().all(|p| p.key == 50));
    assert!(same_value(f[0].gain, Gain { num: 9, den: 10 }));
    assert!(same_value(f[1].gain, Gain { num: 1, den: 1 }));
}

#[test]
fn clearing_envelope_silences_releases() {
    let mut synth = Synth::new();
    synth.set_envelope(Some(Envelope::new(0, 0, Level::new(1, 1), 10)));
    synth.note_on(40);
    synth.note_off(40);
    synth.set_envelope(None);
    let f = frame_of(&mut synth);
    assert_eq!(f.len(), 1);
    assert_eq!(f[0].gain.num, 0);
    assert!(frame_of(&mut synth).is_empty());
}

#[test]
fn extreme_keys_are_held() {
    let mut synth = Synth::new();
    synth.note_on(i8::MIN);
    synth.note_on(i8::MAX);
    let keys: Vec<i8> = frame_of(&mut synth).iter().map(|p| p.key).collect();
    assert_eq!(keys, vec![i8::MIN, i8::MAX]);
}

#[test]
fn struck_note_starts_at_zero() {
    assert_eq!(Note::struck(), Note { phase: 0, elapsed: 0 });
}
