use synth::envelope::{linear_interpolation, Envelope};
use synth::level::{Gain, Level};

fn value(g: Gain) -> f64 {
    g.num as f64 / g.den as f64
}

fn assert_close(g: Gain, expected: f64) {
    let v = value(g);
    assert!((v - expected).abs() < 1e-9, "got {} expected {}", v, expected);
}

fn lv(num: u32, den: u32) -> Level {
    Level::new(num, den)
}

#[test]
fn test_linear_interpolation() {
    // Two ticks per unit of x: the line through (0, 1) and (2, 3).
    let p1 = (0u64, lv(1, 1));
    let p2 = (4u64, lv(3, 1));
    assert_close(linear_interpolation(p1, p2, 0).unwrap(), 1.0);
    assert_close(linear_interpolation(p1, p2, 2).unwrap(), 2.0);
    assert_eq!(linear_interpolation(p1, p2, 4), None);
    assert_eq!(linear_interpolation(p1, p2, 5), None);
}

#[test]
fn test_envelope() {
    // Ten ticks per second: attack 1.0 s, decay 0.5 s, sustain 0.5, release 1.0 s.
    let envelope = Envelope::new(10, 5, lv(1, 2), 10);
    assert_close(envelope.multiplier(0), 0.0);
    assert_close(envelope.multiplier(2), 0.2);
    assert_close(envelope.multiplier(4), 0.4);
    assert_close(envelope.multiplier(6), 0.6);
    assert_close(envelope.multiplier(8), 0.8);
    assert_close(envelope.multiplier(10), 1.0);
    assert_close(envelope.multiplier(11), 0.9);
    assert_close(envelope.multiplier(12), 0.8);
    assert_close(envelope.multiplier(13), 0.7);
    assert_close(envelope.multiplier(14), 0.6);
    assert_close(envelope.multiplier(15), 0.5);
    assert_close(envelope.multiplier(20), 0.5);
    assert_close(envelope.multiplier(30), 0.5);
    assert_close(envelope.multiplier(2000), 0.5);

    assert_close(envelope.release_multiplier(0).unwrap(), 0.5);
    assert_close(envelope.release_multiplier(2).unwrap(), 0.4);
    assert_close(envelope.release_multiplier(4).unwrap(), 0.3);
    assert_close(envelope.release_multiplier(6).unwrap(), 0.2);
    assert_close(envelope.release_multiplier(8).unwrap(), 0.1);
    assert_eq!(envelope.release_multiplier(10), None);
    assert_eq!(envelope.release_multiplier(11), None);
}

#[test]
fn envelope_scenario_quarter_ticks() {
    // Four ticks per second: attack 1.0, decay 0.5, sustain 0.5, release 1.0.
    let envelope = Envelope::new(4, 2, lv(1, 2), 4);
    assert_close(envelope.multiplier(0), 0.0);
    assert_close(envelope.multiplier(2), 0.5);
    assert_close(envelope.multiplier(4), 1.0);
    assert_close(envelope.multiplier(5), 0.75);
    assert_close(envelope.multiplier(6), 0.5);
    assert_close(envelope.multiplier(20), 0.5);
}

#[test]
fn attack_gain_is_elapsed_over_attack() {
    let envelope = Envelope::new(7, 3, lv(1, 3), 5);
    for e in 0..7u64 {
        let g = envelope.multiplier(e);
        assert_eq!(g.num * 7, e as u128 * g.den);
    }
}

#[test]
fn sustain_holds_from_end_of_decay() {
    let envelope = Envelope::new(3, 4, lv(2, 5), 6);
    for x in 7..40u64 {
        let g = envelope.multiplier(x);
        assert_eq!(g.num * 5, 2 * g.den);
    }
}

#[test]
fn release_ramp_shape() {
    let envelope = Envelope::new(3, 4, lv(2, 5), 6);
    let g0 = envelope.release_multiplier(0).unwrap();
    assert_eq!(g0.num * 5, 2 * g0.den);
    for e in 0..6u64 {
        let g = envelope.release_multiplier(e).unwrap();
        // gain * release == sustain * (release - e)
        assert_eq!(g.num * 5 * 6, 2 * (6 - e as u128) * g.den);
        assert!(envelope.is_releasing(e));
    }
    assert_eq!(envelope.release_multiplier(6), None);
    assert!(!envelope.is_releasing(6));
    assert_close(envelope.release_multiplier(5).unwrap(), 0.4 / 6.0);
}

#[test]
fn zero_attack_starts_at_full_scale() {
    let envelope = Envelope::new(0, 4, lv(1, 2), 4);
    assert_close(envelope.multiplier(0), 1.0);
    assert_close(envelope.multiplier(2), 0.75);
    assert_close(envelope.multiplier(4), 0.5);
}

#[test]
fn zero_decay_jumps_to_sustain() {
    let envelope = Envelope::new(2, 0, lv(1, 4), 4);
    assert_close(envelope.multiplier(1), 0.5);
    assert_close(envelope.multiplier(2), 0.25);
}

#[test]
fn zero_release_is_never_defined() {
    let envelope = Envelope::new(2, 2, lv(1, 2), 0);
    assert_eq!(envelope.release_multiplier(0), None);
    assert!(!envelope.is_releasing(0));
}

#[test]
fn sustain_above_one_is_kept() {
    let envelope = Envelope::new(0, 2, lv(3, 2), 2);
    assert_close(envelope.multiplier(1), 1.25);
    assert_close(envelope.multiplier(9), 1.5);
    assert_close(envelope.release_multiplier(1).unwrap(), 0.75);
}

#[test]
fn level_constructors() {
    let l = Level::new(3, 8);
    assert_eq!((l.num, l.den), (3, 8));
    assert_eq!(Level::zero(), Level::new(0, 1));
    assert_eq!(Level::one(), Level::new(1, 1));
    let g = l.to_gain();
    assert_eq!((g.num, g.den), (3, 8));
}
