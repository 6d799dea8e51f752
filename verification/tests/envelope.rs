use step_sequencer::synth::{
    EnvelopeState, MidiNote, Oscillator, ATTACK_RATE, DECAY_RATE, FULL_LEVEL,
    MAX_RELEASE_SAMPLES, RELEASE_RATE, SR, SUSTAIN_LEVEL,
};

fn advance(voice: &mut MidiNote, samples: usize) {
    for _ in 0..samples {
        voice.next();
    }
}

#[test]
fn rates_and_levels() {
    assert_eq!(SR, 44100);
    assert_eq!(FULL_LEVEL, 44100);
    assert_eq!(SUSTAIN_LEVEL, 35280);
    assert_eq!(ATTACK_RATE, 16);
    assert_eq!(DECAY_RATE, 6);
    assert_eq!(RELEASE_RATE, 4);
    assert_eq!(MAX_RELEASE_SAMPLES, 13782);
}

#[test]
fn new_voice_is_silent_and_attacking() {
    let voice = MidiNote::new(69, Oscillator::Triangle);
    assert_eq!(voice.note(), 69);
    assert_eq!(voice.oscillator(), Oscillator::Triangle);
    assert_eq!(voice.state(), EnvelopeState::Attack);
    assert_eq!(voice.amplitude(), 0);
    assert_eq!(voice.num_sample(), 0);
    assert!(voice.is_alive());
}

#[test]
fn attack_rises_by_its_rate() {
    let mut voice = MidiNote::new(60, Oscillator::Sin);
    assert_eq!(voice.next(), 16);
    assert_eq!(voice.next(), 32);
    assert_eq!(voice.next(), 48);
    assert_eq!(voice.num_sample(), 3);
    assert_eq!(voice.state(), EnvelopeState::Attack);
}

#[test]
fn attack_never_falls_and_ends_at_full_level() {
    let mut voice = MidiNote::new(60, Oscillator::Sin);
    let mut last = voice.amplitude();
    let mut samples = 0;
    while voice.state() == EnvelopeState::Attack {
        let level = voice.next();
        assert!(level >= last);
        assert!(level <= FULL_LEVEL);
        last = level;
        samples += 1;
    }
    assert_eq!(samples, 2757);
    assert_eq!(voice.state(), EnvelopeState::Decay);
    assert_eq!(voice.amplitude(), FULL_LEVEL);
}

#[test]
fn last_sample_of_attack_is_below_full_level() {
    let mut voice = MidiNote::new(60, Oscillator::Sin);
    advance(&mut voice, 2756);
    assert_eq!(voice.state(), EnvelopeState::Attack);
    assert_eq!(voice.amplitude(), 44096);
}

#[test]
fn decay_falls_to_the_sustain_level() {
    let mut voice = MidiNote::new(60, Oscillator::Sin);
    advance(&mut voice, 2757);
    assert_eq!(voice.next(), 44094);
    assert_eq!(voice.state(), EnvelopeState::Decay);
    advance(&mut voice, 1468);
    assert_eq!(voice.state(), EnvelopeState::Decay);
    assert_eq!(voice.amplitude(), 35286);
    assert_eq!(voice.next(), SUSTAIN_LEVEL);
    assert_eq!(voice.state(), EnvelopeState::Sustain);
}

#[test]
fn sustain_holds_until_released() {
    let mut voice = MidiNote::new(60, Oscillator::Sin);
    advance(&mut voice, 2757 + 1470);
    assert_eq!(voice.state(), EnvelopeState::Sustain);
    advance(&mut voice, 100_000);
    assert_eq!(voice.state(), EnvelopeState::Sustain);
    assert_eq!(voice.amplitude(), SUSTAIN_LEVEL);
}

#[test]
fn release_from_sustain_falls_to_dead() {
    let mut voice = MidiNote::new(60, Oscillator::Sin);
    advance(&mut voice, 2757 + 1470);
    voice.release();
    assert_eq!(voice.state(), EnvelopeState::Release);
    assert_eq!(voice.amplitude(), SUSTAIN_LEVEL);
    assert_eq!(voice.next(), 35276);
    advance(&mut voice, 8818);
    assert_eq!(voice.state(), EnvelopeState::Release);
    assert_eq!(voice.amplitude(), 4);
    assert_eq!(voice.next(), 0);
    assert_eq!(voice.state(), EnvelopeState::Dead);
    assert!(!voice.is_alive());
}

#[test]
fn release_during_attack_completes_the_rise() {
    let mut voice = MidiNote::new(60, Oscillator::Sin);
    advance(&mut voice, 100);
    assert_eq!(voice.amplitude(), 1600);
    voice.release();
    assert_eq!(voice.state(), EnvelopeState::ToBeReleased);
    assert_eq!(voice.amplitude(), 1600);
    let mut last = voice.amplitude();
    while voice.state() == EnvelopeState::ToBeReleased {
        let level = voice.next();
        assert!(level >= last);
        last = level;
    }
    assert_eq!(voice.state(), EnvelopeState::Release);
    assert_eq!(voice.amplitude(), FULL_LEVEL);
    assert_eq!(voice.num_sample(), 2757);
    assert_eq!(voice.next(), 44096);
}

#[test]
fn released_voice_dies_within_the_bound() {
    let mut fresh = MidiNote::new(60, Oscillator::Sin);
    fresh.release();
    advance(&mut fresh, 13781);
    assert!(fresh.is_alive());
    fresh.next();
    assert!(!fresh.is_alive());

    let mut held = MidiNote::new(60, Oscillator::Sin);
    advance(&mut held, 5000);
    held.release();
    advance(&mut held, MAX_RELEASE_SAMPLES as usize);
    assert!(!held.is_alive());
}

#[test]
fn dead_voice_stays_dead_and_silent() {
    let mut voice = MidiNote::new(60, Oscillator::Sin);
    voice.release();
    advance(&mut voice, 13782);
    assert_eq!(voice.state(), EnvelopeState::Dead);
    for _ in 0..10_000 {
        assert_eq!(voice.next(), 0);
        assert!(!voice.is_alive());
    }
    assert_eq!(voice.num_sample(), 23782);
}

#[test]
fn release_of_a_silent_releasing_voice_takes_one_sample() {
    let mut voice = MidiNote::new(60, Oscillator::Sin);
    voice.release();
    voice.release();
    assert_eq!(voice.state(), EnvelopeState::Release);
    assert_eq!(voice.next(), 0);
    assert_eq!(voice.state(), EnvelopeState::Dead);
}

#[test]
fn press_attacks_from_the_present_level() {
    let mut voice = MidiNote::new(60, Oscillator::Sin);
    advance(&mut voice, 2757 + 1470);
    voice.release();
    advance(&mut voice, 1000);
    assert_eq!(voice.amplitude(), 31280);
    voice.press();
    assert_eq!(voice.state(), EnvelopeState::Attack);
    assert_eq!(voice.amplitude(), 31280);
    assert_eq!(voice.next(), 31296);
    assert_eq!(voice.num_sample(), 2757 + 1470 + 1000 + 1);
}

#[test]
fn press_wakes_a_dead_voice() {
    let mut voice = MidiNote::new(60, Oscillator::Sin);
    voice.release();
    advance(&mut voice, 13782);
    assert!(!voice.is_alive());
    voice.press();
    assert!(voice.is_alive());
    assert_eq!(voice.next(), 16);
}

#[test]
fn buffer_holds_the_level_of_each_sample() {
    let mut voice = MidiNote::new(60, Oscillator::Sin);
    let buffer = voice.get_buffer(5);
    assert_eq!(buffer, vec![16, 32, 48, 64, 80]);
    assert_eq!(voice.num_sample(), 5);
    let more = voice.get_buffer(2);
    assert_eq!(more, vec![96, 112]);
    assert_eq!(voice.get_buffer(0), Vec::<u32>::new());
    assert_eq!(voice.num_sample(), 7);
}

#[test]
fn buffer_equals_single_samples() {
    let mut whole = MidiNote::new(60, Oscillator::Sin);
    let mut single = MidiNote::new(60, Oscillator::Sin);
    let buffer = whole.get_buffer(5513);
    for level in buffer {
        assert_eq!(single.next(), level);
    }
    assert_eq!(whole.state(), single.state());
    assert_eq!(whole.state(), EnvelopeState::Sustain);
    assert_eq!(whole.num_sample(), 5513);
}

#[test]
fn oscillator_change_leaves_the_envelope() {
    let mut voice = MidiNote::new(60, Oscillator::Sin);
    advance(&mut voice, 3000);
    let level = voice.amplitude();
    let state = voice.state();
    let count = voice.num_sample();
    voice.set_oscillator(&Oscillator::Pulse);
    assert_eq!(voice.oscillator(), Oscillator::Pulse);
    assert_eq!(voice.amplitude(), level);
    assert_eq!(voice.state(), state);
    assert_eq!(voice.num_sample(), count);
    assert_eq!(voice.note(), 60);
}
