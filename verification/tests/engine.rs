use step_sequencer::engine::{
    buffer_len, Effect, Engine, Step, MAX_PENDING_BUFFERS, STEP_SAMPLES_AT_TEMPO_ONE,
};
use step_sequencer::instr::{Note, MEAS_COUNT, NOTE_COUNT};
use step_sequencer::mixer::mix;
use step_sequencer::sequencer::Messages;
use step_sequencer::synth::{EnvelopeState, Oscillator, FULL_LEVEL, SUSTAIN_LEVEL};

const WAVE: i32 = 1 << 20;

fn span(row: usize, first: usize, len: usize) -> Vec<(Note, usize, usize)> {
    (first..first + len)
        .map(|step| {
            let duration = if step == first { len } else { 0 };
            (Note { duration, starts_at: Some(first) }, row, step)
        })
        .collect()
}

fn flat_waves(step: &Step) -> Vec<Vec<i32>> {
    step.blocks().iter().map(|block| vec![WAVE; block.levels().len()]).collect()
}

fn finish(engine: &mut Engine, due: Step) -> Vec<i32> {
    let waves = flat_waves(&due);
    engine.emit(due, &waves)
}

fn step(engine: &mut Engine) -> Vec<i32> {
    let due = engine.tick(0).expect("the engine is active");
    finish(engine, due)
}

fn playing(cells: Vec<(Note, usize, usize)>) -> Engine {
    let mut engine = Engine::new();
    assert!(matches!(engine.handle(Messages::Play(cells)), Effect::Resume));
    engine
}

#[test]
fn new_engine_is_stopped_and_empty() {
    let engine = Engine::new();
    assert_eq!(engine.clock(), 0);
    assert_eq!(engine.tempo(), 60);
    assert!(!engine.is_active());
    assert!(!engine.is_recording());
    assert_eq!(engine.oscillator(), Oscillator::Sin);
    assert_eq!(engine.recorded_len(), 0);
    for row in 0..NOTE_COUNT {
        assert!(engine.voice(row).is_none());
        for step in 0..MEAS_COUNT {
            assert_eq!(engine.cell(row, step), Note::default());
        }
    }
}

#[test]
fn step_length_follows_the_tempo() {
    assert_eq!(STEP_SAMPLES_AT_TEMPO_ONE, 330750);
    assert_eq!(buffer_len(60), 5513);
    assert_eq!(buffer_len(120), 2756);
    assert_eq!(buffer_len(240), 1378);
    assert_eq!(buffer_len(1), 330750);
    assert_eq!(buffer_len(7), 47250);
}

#[test]
fn step_length_rounds_halves_upwards() {
    assert_eq!(buffer_len(4), 82688);
    assert_eq!(buffer_len(100), 3308);
    assert_eq!(buffer_len(661500), 1);
    assert_eq!(buffer_len(661501), 0);
    assert_eq!(buffer_len(u32::MAX), 0);
}

#[test]
fn play_of_nothing_at_tempo_60_gives_5513_samples_per_step() {
    let mut engine = playing(Vec::new());
    assert!(engine.is_active());
    let due = engine.tick(0).expect("the engine is active");
    assert!(due.blocks().is_empty());
    assert_eq!(due.len(), 5513);
    let data = engine.emit(due, &Vec::new());
    assert_eq!(data, vec![0; 5513]);
    assert_eq!(engine.clock(), 1);
}

#[test]
fn stopped_engine_produces_nothing() {
    let mut engine = Engine::new();
    assert!(engine.tick(0).is_none());
    assert_eq!(engine.clock(), 0);
}

#[test]
fn deep_queue_holds_the_engine_back() {
    let mut engine = playing(span(10, 0, 2));
    assert_eq!(MAX_PENDING_BUFFERS, 2);
    assert!(engine.tick(3).is_none());
    assert!(engine.tick(usize::MAX).is_none());
    assert!(engine.voice(10).is_none());
    assert_eq!(engine.clock(), 0);
    let due = engine.tick(2).expect("two pending buffers are few enough");
    assert_eq!(due.blocks().len(), 1);
    assert!(engine.voice(10).is_some());
}

#[test]
fn span_is_pressed_at_its_first_step_and_released_at_its_last() {
    let mut engine = playing(span(40, 2, 3));
    assert_eq!(engine.cell(40, 2), Note { duration: 3, starts_at: Some(2) });
    assert_eq!(engine.cell(40, 3), Note { duration: 0, starts_at: Some(2) });
    assert_eq!(engine.cell(40, 4), Note { duration: 0, starts_at: Some(2) });

    for clock in 0..2 {
        assert_eq!(engine.clock(), clock);
        engine.schedule();
        assert!(engine.voice(40).is_none());
        step(&mut engine);
    }

    assert_eq!(engine.clock(), 2);
    engine.schedule();
    let pressed = engine.voice(40).expect("the span starts here");
    assert_eq!(pressed.note(), 61);
    assert_eq!(pressed.state(), EnvelopeState::Attack);
    assert_eq!(pressed.amplitude(), 0);
    assert_eq!(pressed.num_sample(), 0);
    let due = engine.render();
    assert_eq!(due.blocks()[0].first_sample(), 1);
    assert_eq!(due.blocks()[0].levels()[0], 16);
    finish(&mut engine, due);

    assert_eq!(engine.clock(), 3);
    let before = engine.voice(40).expect("the voice sounds");
    assert_eq!(before.state(), EnvelopeState::Sustain);
    engine.schedule();
    let after = engine.voice(40).expect("the voice sounds");
    assert_eq!(after.state(), before.state());
    assert_eq!(after.amplitude(), before.amplitude());
    assert_eq!(after.num_sample(), before.num_sample());
    let due = engine.render();
    assert_eq!(due.blocks()[0].levels(), &vec![SUSTAIN_LEVEL; 5513]);
    finish(&mut engine, due);

    assert_eq!(engine.clock(), 4);
    engine.schedule();
    let released = engine.voice(40).expect("the voice sounds");
    assert_eq!(released.state(), EnvelopeState::Release);
    assert_eq!(released.amplitude(), SUSTAIN_LEVEL);
    for row in 0..NOTE_COUNT {
        assert_eq!(engine.voice(row).is_some(), row == 40);
    }
    let due = engine.render();
    assert_eq!(due.blocks()[0].levels()[..2], [SUSTAIN_LEVEL - 4, SUSTAIN_LEVEL - 8]);
}

#[test]
fn single_step_span_is_pressed_and_released_at_once() {
    let mut engine = playing(span(0, 0, 1));
    engine.schedule();
    let voice = engine.voice(0).expect("the span starts here");
    assert_eq!(voice.note(), 21);
    assert_eq!(voice.state(), EnvelopeState::ToBeReleased);
    assert_eq!(voice.amplitude(), 0);
}

#[test]
fn new_span_on_a_sounding_pitch_presses_its_voice_again() {
    let mut cells = span(7, 0, 1);
    cells.extend(span(7, 1, 2));
    let mut engine = playing(cells);
    step(&mut engine);
    let first = engine.voice(7).expect("the voice still releases");
    assert_eq!(first.state(), EnvelopeState::Release);
    assert_eq!(first.num_sample(), 5513);
    engine.schedule();
    let again = engine.voice(7).expect("the voice is pressed again");
    assert_eq!(again.state(), EnvelopeState::Attack);
    assert_eq!(again.amplitude(), first.amplitude());
    assert_eq!(again.num_sample(), 5513);
}

#[test]
fn voice_is_gone_once_its_envelope_has_ended() {
    let mut engine = playing(span(3, 0, 1));
    let due = engine.tick(0).expect("the engine is active");
    assert_eq!(due.blocks().len(), 1);
    assert!(engine.voice(3).is_some());
    finish(&mut engine, due);
    let due = engine.tick(0).expect("the engine is active");
    assert!(engine.voice(3).is_some());
    finish(&mut engine, due);
    let due = engine.tick(0).expect("the engine is active");
    assert_eq!(due.blocks().len(), 1);
    let levels = due.blocks()[0].levels().clone();
    assert_eq!(levels.len(), 5513);
    let died_at = 13782 - 2 * 5513;
    assert_eq!(levels[died_at - 2], 4);
    assert!(levels[died_at - 1..].iter().all(|level| *level == 0));
    assert!(engine.voice(3).is_none());
    let data = finish(&mut engine, due);
    assert_eq!(data[died_at - 2], (4 * WAVE as i64 / FULL_LEVEL as i64) as i32);
    assert!(data[died_at - 1..].iter().all(|sample| *sample == 0));
    let due = engine.tick(0).expect("the engine is active");
    assert!(due.blocks().is_empty());
}

#[test]
fn block_tells_pitch_shape_and_first_sample() {
    let mut engine = playing(span(48, 0, 4));
    engine.handle(Messages::Oscillator(Oscillator::Sawtooth));
    let due = engine.tick(0).expect("the engine is active");
    assert_eq!(due.len(), 5513);
    let blocks = due.blocks();
    assert_eq!(blocks.len(), 1);
    assert_eq!(blocks[0].note(), 69);
    assert_eq!(blocks[0].oscillator(), Oscillator::Sawtooth);
    assert_eq!(blocks[0].first_sample(), 1);
    assert_eq!(blocks[0].levels()[..3], [16, 32, 48]);
    assert_eq!(blocks[0].sample_number(0), 1);
    assert_eq!(blocks[0].sample_number(5512), 5513);
    assert_eq!(blocks[0].sample_number(usize::MAX - 1), usize::MAX);
    assert_eq!(blocks[0].sample_number(usize::MAX), 0);
    finish(&mut engine, due);
    let due = engine.tick(0).expect("the engine is active");
    assert_eq!(due.blocks()[0].first_sample(), 5514);
    assert_eq!(due.blocks()[0].sample_number(10), 5524);
    assert!(due.blocks()[0].levels().iter().all(|level| *level == SUSTAIN_LEVEL));
}

#[test]
fn blocks_come_lowest_pitch_first() {
    let mut cells = span(90, 0, 2);
    cells.extend(span(5, 0, 2));
    cells.extend(span(50, 0, 2));
    let mut engine = playing(cells);
    let due = engine.tick(0).expect("the engine is active");
    let notes: Vec<usize> = due.blocks().iter().map(|block| block.note()).collect();
    assert_eq!(notes, vec![26, 71, 111]);
}

#[test]
fn shape_scales_the_waveform_by_the_level() {
    let mut engine = playing(span(0, 0, 2));
    let due = engine.tick(0).expect("the engine is active");
    let block = &due.blocks()[0];
    let full = FULL_LEVEL as i32;
    let samples = block.shape(&vec![full, -full, 1000, -1000, 2 * full]);
    assert_eq!(samples.len(), 5513);
    assert_eq!(samples[..5], [16, -32, 1, -1, 160]);
    assert!(samples[5..].iter().all(|sample| *sample == 0));
    assert_eq!(block.levels()[2756], FULL_LEVEL);
    let mut wave = vec![0; 5513];
    wave[2755] = i32::MAX;
    wave[2756] = i32::MAX;
    wave[2757] = i32::MIN;
    let loud = block.shape(&wave);
    assert_eq!(loud[2755], 2147288863);
    assert_eq!(loud[2756], i32::MAX);
    assert_eq!(loud[2757], -2147191473);
}

#[test]
fn emit_shapes_and_mixes_the_voices() {
    let mut cells = span(10, 0, 2);
    cells.extend(span(20, 0, 2));
    cells.extend(span(30, 0, 2));
    let mut engine = playing(cells);
    engine.handle(Messages::Tempo(330750 / 4));
    let due = engine.tick(0).expect("the engine is active");
    assert_eq!(due.len(), 4);
    assert_eq!(due.blocks().len(), 3);
    let full = FULL_LEVEL as i32;
    let waves = vec![
        vec![3 * full, -3 * full, 3 * full, 3 * full, 3 * full],
        vec![6 * full, -6 * full],
        vec![full],
    ];
    let voices: Vec<Vec<i32>> =
        due.blocks().iter().zip(waves.iter()).map(|(block, wave)| block.shape(wave)).collect();
    assert_eq!(voices, vec![vec![48, -96, 144, 192], vec![96, -192, 0, 0], vec![16, 0, 0, 0]]);
    let data = engine.emit(due, &waves);
    assert_eq!(data, vec![53, -96, 48, 64]);
    assert_eq!(data, mix(&voices, 4));
}

#[test]
fn voice_without_a_waveform_is_silent_and_counts() {
    let mut cells = span(10, 0, 2);
    cells.extend(span(20, 0, 2));
    let mut engine = playing(cells);
    engine.handle(Messages::Tempo(330750 / 2));
    let due = engine.tick(0).expect("the engine is active");
    assert_eq!(due.len(), 2);
    let full = FULL_LEVEL as i32;
    let data = engine.emit(due, &vec![vec![full, full]]);
    assert_eq!(data, vec![8, 16]);
}

#[test]
fn buffer_keeps_the_length_of_its_step_when_the_tempo_changes() {
    let mut engine = playing(span(10, 0, 2));
    let due = engine.tick(0).expect("the engine is active");
    engine.handle(Messages::Tempo(120));
    let data = finish(&mut engine, due);
    assert_eq!(data.len(), 5513);
    assert_eq!(step(&mut engine).len(), 2756);
}

#[test]
fn buffer_is_no_louder_than_the_waveforms() {
    let cells: Vec<(Note, usize, usize)> = (0..50).flat_map(|row| span(row, 0, 4)).collect();
    let mut engine = playing(cells);
    engine.handle(Messages::Tempo(240));
    for _ in 0..6 {
        let due = engine.tick(0).expect("the engine is active");
        assert_eq!(due.blocks().len(), 50);
        let waves: Vec<Vec<i32>> = (0..50)
            .map(|v| (0..due.len()).map(|i| if (v + i) % 2 == 0 { WAVE } else { -WAVE }).collect())
            .collect();
        let data = engine.emit(due, &waves);
        assert_eq!(data.len(), 1378);
        assert!(data.iter().all(|sample| sample.abs() <= WAVE));
    }
}

#[test]
fn tempo_takes_effect_at_the_next_buffer() {
    let mut engine = playing(span(20, 0, 8));
    assert_eq!(step(&mut engine).len(), 5513);
    assert!(matches!(engine.handle(Messages::Tempo(120)), Effect::Idle));
    assert_eq!(engine.tempo(), 120);
    assert_eq!(step(&mut engine).len(), 2756);
    engine.handle(Messages::Tempo(1));
    assert_eq!(step(&mut engine).len(), 330750);
    assert_eq!(engine.voice(20).expect("the voice sounds").num_sample(), 5513 + 2756 + 330750);
}

#[test]
fn clock_goes_round_the_grid() {
    let mut engine = playing(Vec::new());
    engine.handle(Messages::Tempo(240));
    for clock in 0..MEAS_COUNT {
        assert_eq!(engine.clock(), clock);
        step(&mut engine);
    }
    assert_eq!(engine.clock(), 0);
    step(&mut engine);
    assert_eq!(engine.clock(), 1);
}

#[test]
fn span_sounds_again_on_the_next_round() {
    let mut engine = playing(span(12, 31, 1));
    engine.handle(Messages::Tempo(240));
    for _ in 0..31 {
        step(&mut engine);
        assert!(engine.voice(12).is_none());
    }
    step(&mut engine);
    assert!(engine.voice(12).is_some());
    for _ in 0..31 {
        step(&mut engine);
    }
    assert!(engine.voice(12).is_none());
    engine.schedule();
    assert_eq!(engine.voice(12).expect("pressed again").num_sample(), 0);
}

#[test]
fn play_lays_cells_over_the_grid() {
    let mut engine = playing(span(1, 0, 2));
    engine.handle(Messages::Play(span(2, 4, 1)));
    assert_eq!(engine.cell(1, 0), Note { duration: 2, starts_at: Some(0) });
    assert_eq!(engine.cell(1, 1), Note { duration: 0, starts_at: Some(0) });
    assert_eq!(engine.cell(2, 4), Note { duration: 1, starts_at: Some(4) });
    engine.handle(Messages::Play(vec![
        (Note { duration: 9, starts_at: Some(0) }, 1, 0),
        (Note::default(), 1, 1),
        (Note { duration: 5, starts_at: Some(0) }, 1, 0),
    ]));
    assert_eq!(engine.cell(1, 0), Note { duration: 5, starts_at: Some(0) });
    assert_eq!(engine.cell(1, 1), Note::default());
    assert_eq!(engine.cell(2, 4), Note { duration: 1, starts_at: Some(4) });
}

#[test]
fn play_passes_over_cells_outside_the_grid() {
    let marked = Note { duration: 1, starts_at: Some(0) };
    let mut engine = playing(vec![
        (marked, NOTE_COUNT, 0),
        (marked, 0, MEAS_COUNT),
        (marked, usize::MAX, usize::MAX),
        (marked, NOTE_COUNT - 1, MEAS_COUNT - 1),
    ]);
    assert!(engine.is_active());
    for row in 0..NOTE_COUNT {
        for step in 0..MEAS_COUNT {
            let expected =
                if (row, step) == (NOTE_COUNT - 1, MEAS_COUNT - 1) { marked } else { Note::default() };
            assert_eq!(engine.cell(row, step), expected);
        }
    }
    let due = engine.tick(0).expect("the engine is active");
    assert!(due.blocks().is_empty());
}

#[test]
fn cell_that_names_a_step_outside_the_grid_releases_nothing() {
    let mut engine = playing(vec![
        (Note { duration: 4, starts_at: Some(MEAS_COUNT) }, 9, 0),
        (Note { duration: 0, starts_at: Some(usize::MAX) }, 9, 1),
    ]);
    engine.schedule();
    assert_eq!(engine.voice(9).expect("pressed").state(), EnvelopeState::Attack);
    step(&mut engine);
    engine.schedule();
    assert_eq!(engine.voice(9).expect("sounding").state(), EnvelopeState::Sustain);
}

#[test]
fn cell_of_a_span_without_length_releases_nothing_at_step_0() {
    let mut engine = playing(span(30, 0, 3));
    engine.handle(Messages::Play(vec![(Note { duration: 0, starts_at: Some(0) }, 31, 0)]));
    engine.handle(Messages::Play(vec![(Note { duration: 3, starts_at: Some(5) }, 30, 0)]));
    engine.schedule();
    assert!(engine.voice(31).is_none());
    assert_eq!(engine.voice(30).expect("pressed").state(), EnvelopeState::Attack);
}

#[test]
fn stop_clears_grid_and_clock_and_keeps_the_voices() {
    let mut engine = playing(span(40, 0, 8));
    step(&mut engine);
    step(&mut engine);
    assert!(matches!(engine.handle(Messages::Stop), Effect::Idle));
    assert!(!engine.is_active());
    assert_eq!(engine.clock(), 0);
    for row in 0..NOTE_COUNT {
        for step in 0..MEAS_COUNT {
            assert_eq!(engine.cell(row, step), Note::default());
        }
    }
    let voice = engine.voice(40).expect("the voice stays");
    assert_eq!(voice.state(), EnvelopeState::Sustain);
    assert_eq!(voice.num_sample(), 2 * 5513);
    assert!(engine.tick(0).is_none());
}

#[test]
fn record_and_stop_export_what_was_played_between() {
    let mut engine = Engine::new();
    assert!(matches!(engine.handle(Messages::Record), Effect::Idle));
    assert!(engine.is_recording());
    engine.handle(Messages::Tempo(200));
    engine.handle(Messages::Play(span(33, 0, 2)));
    let mut played = Vec::new();
    for _ in 0..5 {
        played.extend(step(&mut engine));
    }
    assert_eq!(played.len(), 5 * 1654);
    assert!(played.iter().any(|sample| *sample != 0));
    assert_eq!(engine.recorded_len(), played.len());
    match engine.handle(Messages::Stop) {
        Effect::Export(data) => assert_eq!(data, played),
        other => panic!("expected an export, got {:?}", other),
    }
    assert_eq!(engine.recorded_len(), 0);
}

#[test]
fn nothing_is_kept_before_record() {
    let mut engine = playing(span(33, 0, 2));
    step(&mut engine);
    assert_eq!(engine.recorded_len(), 0);
    engine.handle(Messages::Record);
    let kept = step(&mut engine);
    match engine.handle(Messages::Stop) {
        Effect::Export(data) => assert_eq!(data, kept),
        other => panic!("expected an export, got {:?}", other),
    }
}

#[test]
fn engine_goes_on_recording_after_a_stop() {
    let mut engine = playing(Vec::new());
    engine.handle(Messages::Record);
    step(&mut engine);
    assert!(matches!(engine.handle(Messages::Stop), Effect::Export(_)));
    assert!(engine.is_recording());
    match engine.handle(Messages::Stop) {
        Effect::Export(data) => assert!(data.is_empty()),
        other => panic!("expected an export, got {:?}", other),
    }
    engine.handle(Messages::Play(span(2, 0, 1)));
    let again = step(&mut engine);
    match engine.handle(Messages::Stop) {
        Effect::Export(data) => assert_eq!(data, again),
        other => panic!("expected an export, got {:?}", other),
    }
}

#[test]
fn oscillator_switches_live_voices_and_leaves_their_envelopes() {
    let mut cells = span(10, 0, 4);
    cells.extend(span(20, 1, 4));
    let mut engine = playing(cells);
    step(&mut engine);
    engine.schedule();
    let low = engine.voice(10).expect("sounding");
    let high = engine.voice(20).expect("pressed");
    assert_eq!(low.oscillator(), Oscillator::Sin);
    assert!(matches!(engine.handle(Messages::Oscillator(Oscillator::Pulse)), Effect::Idle));
    assert_eq!(engine.oscillator(), Oscillator::Pulse);
    for (row, before) in [(10, low), (20, high)] {
        let after = engine.voice(row).expect("still there");
        assert_eq!(after.oscillator(), Oscillator::Pulse);
        assert_eq!(after.state(), before.state());
        assert_eq!(after.amplitude(), before.amplitude());
        assert_eq!(after.num_sample(), before.num_sample());
        assert_eq!(after.note(), before.note());
    }
    let due = engine.render();
    assert_eq!(due.blocks().len(), 2);
    assert!(due.blocks().iter().all(|block| block.oscillator() == Oscillator::Pulse));
    assert_eq!(due.blocks()[0].levels(), &vec![SUSTAIN_LEVEL; 5513]);
    assert_eq!(due.blocks()[1].levels()[..2], [16, 32]);
}

#[test]
fn new_voices_take_the_present_oscillator() {
    let mut engine = playing(span(10, 0, 1));
    engine.handle(Messages::Oscillator(Oscillator::Triangle));
    engine.schedule();
    assert_eq!(engine.voice(10).expect("pressed").oscillator(), Oscillator::Triangle);
}

#[test]
fn loudness_of_one_voice_sinks_as_others_join() {
    let mut alone = playing(span(10, 0, 3));
    let mut cells = span(10, 0, 3);
    cells.extend(span(11, 1, 1));
    let mut joined = playing(cells);
    assert_eq!(step(&mut alone), step(&mut joined));
    let one = step(&mut alone);
    let two = step(&mut joined);
    assert_eq!(one, vec![838860; 5513]);
    assert_eq!(two[0], (838860 + 380) / 2);
    assert_eq!(two[2756], (838860 + 1048576) / 2);
    assert_eq!(two[5512], (838860 + 786454) / 2);
    assert!(two.iter().all(|mixed| mixed.abs() <= WAVE));
}
